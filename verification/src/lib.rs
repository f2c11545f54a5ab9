//! Writers for simple file formats: LZ77 compression, tar (ustar/pax)
//! archives and BMP images.

pub mod images;
pub mod lz77;
pub mod tar;
