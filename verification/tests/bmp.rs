use file_types::images::bmp::{Bitmap, BitmapFileHeader, BitmapInfoHeader, RgbQuad};
use file_types::images::common::image::{BinaryInfo, ColorPixel, RawImage};
use file_types::images::common::utils::{get_padding_num, padding_to_base};
use file_types::images::common::ColorDepth;

#[test]
fn padding_numbers() {
    assert_eq!(get_padding_num(0, 4), 0);
    assert_eq!(get_padding_num(5, 4), 3);
    assert_eq!(get_padding_num(8, 4), 0);
    assert_eq!(padding_to_base(6, 4), 8);
    assert_eq!(padding_to_base(12, 4), 12);
}

#[test]
fn pixel_constructors() {
    assert!(ColorPixel::white() == ColorPixel::new_rgb(255, 255, 255));
    assert!(ColorPixel::black() == ColorPixel::new_rgba(0, 0, 0, 255));
    assert!(ColorPixel::red() == ColorPixel::new_rgb(255, 0, 0));
    assert!(ColorPixel::green() == ColorPixel::new_rgb(0, 255, 0));
    assert!(ColorPixel::blue() == ColorPixel::new_rgb(0, 0, 255));
    assert!(ColorPixel::white_transparent() == ColorPixel::new_rgba(255, 255, 255, 0));
    assert!(ColorPixel::black_transparent() == ColorPixel::new_rgba(0, 0, 0, 0));
}

#[test]
fn new_image_is_black_and_set_places_pixels() {
    let mut image = RawImage::new(3, 2, ColorDepth::Depth24);
    assert_eq!(image.data.len(), 6);
    assert!(image.data.iter().all(|p| *p == ColorPixel::black()));
    image.set(2, 1, ColorPixel::red());
    assert!(image.data[5] == ColorPixel::red());
    image.set(0, 1, ColorPixel::blue());
    assert!(image.data[3] == ColorPixel::blue());
}

#[test]
fn indexed_info_lists_colors_in_order() {
    let mut image = RawImage::new(2, 2, ColorDepth::Depth4);
    image.data[0] = ColorPixel::red();
    image.data[1] = ColorPixel::green();
    image.data[2] = ColorPixel::red();
    image.data[3] = ColorPixel::blue();
    let (palette, indices) = image.get_indexed_info();
    assert_eq!(indices, vec![0, 1, 0, 2]);
    assert_eq!(palette.len(), 16);
    assert!(palette[0] == ColorPixel::red());
    assert!(palette[1] == ColorPixel::green());
    assert!(palette[2] == ColorPixel::blue());
    assert!(palette[3..].iter().all(|p| *p == ColorPixel::white()));
    for (k, &i) in indices.iter().enumerate() {
        assert!(palette[i] == image.data[k]);
    }
}

#[test]
fn depth24_rows_bottom_up_with_padding() {
    let mut image = RawImage::new(2, 2, ColorDepth::Depth24);
    image.data[0] = ColorPixel::new_rgb(1, 2, 3);
    image.data[1] = ColorPixel::new_rgb(4, 5, 6);
    image.data[2] = ColorPixel::new_rgb(7, 8, 9);
    image.data[3] = ColorPixel::new_rgb(10, 11, 12);
    assert_eq!(
        image.to_bytes(),
        vec![9, 8, 7, 12, 11, 10, 0, 0, 3, 2, 1, 6, 5, 4, 0, 0]
    );
    assert_eq!(image.get_byte_size(), 16);
}

#[test]
fn depth32_keeps_alpha() {
    let mut image = RawImage::new(1, 2, ColorDepth::Depth32);
    image.data[0] = ColorPixel::new_rgba(1, 2, 3, 4);
    image.data[1] = ColorPixel::new_rgba(5, 6, 7, 8);
    assert_eq!(image.to_bytes(), vec![7, 6, 5, 8, 3, 2, 1, 4]);
    assert_eq!(image.get_byte_size(), 8);
}

#[test]
fn depth1_packs_bits() {
    let mut image = RawImage::new(3, 1, ColorDepth::Depth1);
    image.data[0] = ColorPixel::red();
    image.data[1] = ColorPixel::green();
    image.data[2] = ColorPixel::red();
    assert_eq!(
        image.to_bytes(),
        vec![0, 0, 255, 0, 0, 255, 0, 0, 0b0100_0000, 0, 0, 0]
    );
    // two table entries and one row of 1 byte, filled to 4
    assert_eq!(image.get_byte_size(), 12);
}

#[test]
fn depth1_full_byte_row() {
    let mut image = RawImage::new(8, 1, ColorDepth::Depth1);
    for k in 0..8 {
        image.data[k] = if k % 2 == 0 { ColorPixel::black() } else { ColorPixel::white() };
    }
    let bytes = image.to_bytes();
    assert_eq!(&bytes[8..], &[0b0101_0101, 0, 0, 0]);
    assert_eq!(bytes.len() as u32, image.get_byte_size());
}

#[test]
fn byte_sizes_of_other_depths() {
    assert_eq!(RawImage::new(10, 3, ColorDepth::Depth4).get_byte_size(), 8 * 3 + 64);
    assert_eq!(RawImage::new(10, 3, ColorDepth::Depth8).get_byte_size(), 12 * 3 + 1024);
    assert_eq!(RawImage::new(10, 3, ColorDepth::Depth16).get_byte_size(), 20 * 3);
    assert_eq!(RawImage::new(9, 2, ColorDepth::Depth1).get_byte_size(), 4 * 2 + 8);
}

#[test]
fn header_sizes() {
    assert_eq!(BitmapFileHeader::get_byte_size(), 14);
    assert_eq!(BitmapInfoHeader::get_byte_size(), 40);
    assert_eq!(RgbQuad::get_byte_size(), 4);
    let mut header = BitmapFileHeader::new(7);
    header.set_image_data_info(54, 16);
    assert_eq!(header.to_bytes(), vec![0x42, 0x4d, 70, 0, 0, 0, 0, 0, 0, 0, 54, 0, 0, 0]);
    let info = BitmapInfoHeader::new(ColorDepth::Depth8, 300, 2);
    assert_eq!(
        info.to_bytes(),
        vec![
            40, 0, 0, 0, 44, 1, 0, 0, 2, 0, 0, 0, 1, 0, 8, 0, 0, 0, 0, 0, 0, 0, 0, 0, 0xc4,
            0x0e, 0, 0, 0xc4, 0x0e, 0, 0, 0, 1, 0, 0, 0, 0, 0, 0
        ]
    );
}

#[test]
fn bitmap_file_of_a_24_bit_image() {
    let mut image = RawImage::new(2, 2, ColorDepth::Depth24);
    image.set(1, 0, ColorPixel::white());
    let bmp = Bitmap::new(image);
    let bytes = bmp.to_bytes();
    assert_eq!(bytes.len(), 54 + 16);
    assert_eq!(&bytes[..2], b"BM");
    assert_eq!(&bytes[2..6], &[70, 0, 0, 0]);
    assert_eq!(&bytes[10..14], &[54, 0, 0, 0]);
    assert_eq!(&bytes[14..18], &[40, 0, 0, 0]);
    assert_eq!(&bytes[28..30], &[24, 0]);
    assert_eq!(&bytes[54..], &[0, 0, 0, 0, 0, 0, 0, 0, 0, 0, 0, 255, 255, 255, 0, 0]);
    assert_eq!(bmp.color_data.width, 2);
}

#[test]
fn depth16_writes_rgb555_words() {
    let img = RawImage { data: vec![ColorPixel::red()], width: 1, height: 1, depth: ColorDepth::Depth16 };
    assert_eq!(img.to_bytes(), vec![0x00, 0x7C, 0, 0]);
    let img = RawImage {
        data: vec![ColorPixel::new_rgb(8, 16, 255), ColorPixel::white()],
        width: 2,
        height: 1,
        depth: ColorDepth::Depth16,
    };
    // (1 << 10) | (2 << 5) | 31 = 0x045F; white = 0x7FFF
    assert_eq!(img.to_bytes(), vec![0x5F, 0x04, 0xFF, 0x7F]);
    assert_eq!(img.get_byte_size(), 4);
}

#[test]
fn depth4_packs_two_indices_per_byte() {
    let img = RawImage {
        data: vec![ColorPixel::red(), ColorPixel::green()],
        width: 2,
        height: 1,
        depth: ColorDepth::Depth4,
    };
    let mut expected = vec![0, 0, 255, 0, 0, 255, 0, 0];
    for _ in 0..14 {
        expected.extend([255, 255, 255, 0]);
    }
    expected.extend([0x01, 0, 0, 0]);
    let bytes = img.to_bytes();
    assert_eq!(bytes, expected);
    assert_eq!(bytes.len() as u32, img.get_byte_size());
    let img = RawImage {
        data: vec![ColorPixel::red(), ColorPixel::green(), ColorPixel::blue()],
        width: 3,
        height: 1,
        depth: ColorDepth::Depth4,
    };
    assert_eq!(&img.to_bytes()[64..], &[0x01, 0x20, 0, 0]);
}

#[test]
fn depth8_stores_a_byte_per_index() {
    let img = RawImage {
        data: vec![ColorPixel::red(), ColorPixel::green()],
        width: 2,
        height: 1,
        depth: ColorDepth::Depth8,
    };
    let mut expected = vec![0, 0, 255, 0, 0, 255, 0, 0];
    for _ in 0..254 {
        expected.extend([255, 255, 255, 0]);
    }
    expected.extend([0x00, 0x01, 0, 0]);
    let bytes = img.to_bytes();
    assert_eq!(bytes, expected);
    assert_eq!(bytes.len() as u32, img.get_byte_size());
}

#[test]
fn byte_size_is_the_length_of_the_bytes() {
    for depth in [
        ColorDepth::Depth1,
        ColorDepth::Depth4,
        ColorDepth::Depth8,
        ColorDepth::Depth16,
        ColorDepth::Depth24,
        ColorDepth::Depth32,
    ] {
        for (w, h) in [(1, 1), (3, 2), (7, 3), (9, 1), (100, 4)] {
            let mut img = RawImage::new(w, h, depth);
            img.set(0, 0, ColorPixel::white());
            assert_eq!(img.to_bytes().len() as u32, img.get_byte_size());
        }
    }
}

#[test]
fn bitmap_of_a_one_bit_image() {
    let (width, height) = (100usize, 100usize);
    let mut image = RawImage::new(width as u32, height as u32, ColorDepth::Depth1);
    for index in 0..(width * height) {
        image.data[index] = if (index / width + index % width) % 2 == 0 {
            ColorPixel::new_rgb(255, 0, 0)
        } else {
            ColorPixel::new_rgb(0, 255, 0)
        };
    }
    assert_eq!(image.get_byte_size(), 8 + 16 * 100);
    let bytes = Bitmap::new(image).to_bytes();
    assert_eq!(bytes.len(), 1662);
    assert_eq!(u32::from_le_bytes([bytes[2], bytes[3], bytes[4], bytes[5]]), 1662);
    assert_eq!(u32::from_le_bytes([bytes[10], bytes[11], bytes[12], bytes[13]]), 62);
    // the color table: red, then green
    assert_eq!(&bytes[54..62], &[0, 0, 255, 0, 0, 255, 0, 0]);
}

#[test]
fn pixel_offset_follows_the_color_table() {
    for (depth, table) in [
        (ColorDepth::Depth1, 8u32),
        (ColorDepth::Depth4, 64),
        (ColorDepth::Depth8, 1024),
        (ColorDepth::Depth16, 0),
        (ColorDepth::Depth24, 0),
        (ColorDepth::Depth32, 0),
    ] {
        let bytes = Bitmap::new(RawImage::new(3, 2, depth)).to_bytes();
        assert_eq!(u32::from_le_bytes([bytes[10], bytes[11], bytes[12], bytes[13]]), 54 + table);
        assert_eq!(u32::from_le_bytes([bytes[2], bytes[3], bytes[4], bytes[5]]) as usize, bytes.len());
    }
}

#[test]
fn color_table_entry_bytes() {
    let c = ColorPixel::new_rgba(1, 2, 3, 4);
    assert_eq!(RgbQuad::from(c).to_bytes(), vec![3, 2, 1, 0]);
    assert_eq!(RgbQuad::get_byte_size(), 4);
}
