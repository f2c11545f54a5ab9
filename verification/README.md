# file_types

Writers for simple file formats, with their behaviour stated in Verus
contracts and proved:

- `lz77`: LZ77 compression over a sliding window, and the decoder; the
  decoder is proved to give back what the encoder was given.
- `tar`: ustar archives (header blocks, octal fields, checksums, path
  splitting into `prefix` and `name`) with pax extended headers for paths
  that do not fit.
- `images`: raw images, palettes, and BMP files (file header,
  BITMAPINFOHEADER, color table, bottom-up rows).

`src/` is the verified library. `app/` reads files, directories and owner
names from the file system and hands them to the library.
