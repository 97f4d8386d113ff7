use img2bin::color::ColorKey;
use img2bin::encode::{encode_pixels, row_bytes_of};
use img2bin::palette::{build_palette, Palette};
use img2bin::params::{DirParameters, FileParameters};
use img2bin::source::{decode_image, ConvertError, PixelFormat, SourceImage};
use img2bin::split::output_file_bytes;

fn asset(bpp: u8, offset: Option<usize>, width: usize, height: usize) -> FileParameters {
    let mut dir = DirParameters::new();
    dir.bpp = bpp;
    dir.palette_offset = offset;
    dir.width = width;
    dir.height = height;
    dir.alignment = 1;
    dir.path = "x.png".to_string();
    FileParameters::new(&dir)
}

/// A palette whose band 1 holds the given colours at indices 1, 2, ...
fn band_palette(colors: &[ColorKey]) -> Palette {
    let mut f = asset(4, Some(1), 0, 0);
    f.colors = colors.to_vec();
    build_palette(&vec![f]).unwrap()
}

fn gray(v: u8) -> ColorKey {
    ColorKey { r: v, g: v, b: v }
}

fn gray_image(width: u32, height: u32, levels: &[u8]) -> SourceImage {
    let mut data = Vec::new();
    for &v in levels {
        data.push(v << 4);
        data.push(v << 4);
        data.push(v << 4);
    }
    SourceImage { width, height, format: PixelFormat::Rgb8, data }
}

/// Reads back `width` indices per row from a packed stream.
fn unpack(stream: &[u8], bpp: u8, width: usize, height: usize) -> Vec<Vec<u8>> {
    let ppb = (8 / bpp) as usize;
    let rb = (width + ppb - 1) / ppb;
    let mask = ((1u16 << bpp) - 1) as u8;
    let mut rows = Vec::new();
    for y in 0..height {
        let mut row = Vec::new();
        for x in 0..width {
            let byte = stream[y * rb + x / ppb];
            let shift = 8 - bpp as usize * (x % ppb + 1);
            row.push((byte >> shift) & mask);
        }
        rows.push(row);
    }
    rows
}

#[test]
fn encode_one_bit_row_is_padded() {
    let p = band_palette(&[gray(9)]);
    let img = gray_image(3, 1, &[9, 0, 9]);
    let f = asset(1, Some(1), 3, 1);
    // 1 0 1 then five zero pixels
    assert_eq!(encode_pixels(&img, &f, &p).unwrap(), vec![0b1010_0000]);
}

#[test]
fn encode_two_bit_rows_are_byte_aligned() {
    let p = band_palette(&[gray(1), gray(2), gray(3)]);
    let img = gray_image(5, 2, &[1, 2, 3, 1, 2, 3, 3, 3, 3, 3]);
    let f = asset(2, Some(1), 5, 2);
    let out = encode_pixels(&img, &f, &p).unwrap();
    assert_eq!(out, vec![0b01_10_11_01, 0b10_00_00_00, 0b11_11_11_11, 0b11_00_00_00]);
    assert_eq!(out.len(), row_bytes_of(5, 2) * 2);
}

#[test]
fn encode_eight_bit_uses_canonical_index() {
    let mut f = asset(8, None, 2, 1);
    f.colors = vec![gray(15), gray(1)];
    let p = build_palette(&vec![f.clone()]).unwrap();
    let img = gray_image(2, 1, &[1, 15]);
    // (1,1,1) is new and takes slot 16; (15,15,15) is the standard colour 1
    assert_eq!(encode_pixels(&img, &f, &p).unwrap(), vec![16, 1]);
}

#[test]
fn encode_pads_about_the_centre() {
    let p = band_palette(&[gray(5)]);
    let img = gray_image(1, 1, &[5]);
    let f = asset(8, Some(1), 3, 3);
    let out = encode_pixels(&img, &f, &p).unwrap();
    assert_eq!(out, vec![0, 0, 0, 0, 1, 0, 0, 0, 0]);
}

#[test]
fn encode_crops_about_the_centre() {
    let p = band_palette(&[gray(1), gray(2), gray(3), gray(4), gray(5), gray(6), gray(7), gray(8), gray(9)]);
    let img = gray_image(3, 3, &[1, 2, 3, 4, 5, 6, 7, 8, 9]);
    let f = asset(8, Some(1), 1, 1);
    assert_eq!(encode_pixels(&img, &f, &p).unwrap(), vec![5]);
}

#[test]
fn encode_masks_band_index_to_depth() {
    // the colour has index 3 in the band; at one bit it is masked to 1
    let p = band_palette(&[gray(1), gray(2), gray(3)]);
    let img = gray_image(1, 1, &[3]);
    let f = asset(1, Some(1), 1, 1);
    assert_eq!(encode_pixels(&img, &f, &p).unwrap(), vec![0b1000_0000]);
}

#[test]
fn encode_unsupported_format() {
    let p = band_palette(&[]);
    let img = SourceImage { width: 1, height: 1, format: PixelFormat::Other, data: Vec::new() };
    assert_eq!(encode_pixels(&img, &asset(8, None, 1, 1), &p), Err(ConvertError::UnsupportedFormat));
}

#[test]
fn encode_round_trip_recovers_indices() {
    let colors: Vec<ColorKey> = (1..=15).map(gray).collect();
    let p = band_palette(&colors);
    let levels: Vec<u8> = (0..21).map(|i| (i * 7 % 16) as u8).collect();
    let img = gray_image(7, 3, &levels);
    for bpp in [1u8, 2, 4] {
        let f = asset(bpp, Some(1), 7, 3);
        let out = encode_pixels(&img, &f, &p).unwrap();
        let rows = unpack(&out, bpp, 7, 3);
        let mask = ((1u16 << bpp) - 1) as u8;
        for y in 0..3 {
            for x in 0..7 {
                // gray level v sits at band index v, transparent black at 0
                assert_eq!(rows[y][x], levels[y * 7 + x] & mask);
            }
        }
    }
}

#[test]
fn output_file_has_header() {
    assert_eq!(output_file_bytes(&vec![7, 8, 9]), vec![0, 0, 7, 8, 9]);
    assert_eq!(output_file_bytes(&Vec::new()), vec![0, 0]);
}

#[test]
fn decode_png_bytes() {
    let mut buf = image::RgbaImage::new(2, 1);
    buf.put_pixel(0, 0, image::Rgba([0x12, 0x34, 0x56, 0xFF]));
    buf.put_pixel(1, 0, image::Rgba([0xAB, 0xCD, 0xEF, 0x00]));
    let mut bytes: Vec<u8> = Vec::new();
    image::DynamicImage::ImageRgba8(buf)
        .write_to(&mut std::io::Cursor::new(&mut bytes), image::ImageOutputFormat::Png)
        .unwrap();
    let img = decode_image(&bytes).unwrap();
    assert_eq!(img.width, 2);
    assert_eq!(img.height, 1);
    assert_eq!(img.format, PixelFormat::Rgba8);
    assert_eq!(img.data, vec![0x12, 0x34, 0x56, 0xFF, 0xAB, 0xCD, 0xEF, 0x00]);
}

#[test]
fn decode_rejects_garbage() {
    assert_eq!(decode_image(&[1, 2, 3, 4]).err(), Some(ConvertError::Decode));
}

#[test]
fn decode_reports_other_layouts() {
    let buf = image::GrayImage::new(3, 2);
    let mut bytes: Vec<u8> = Vec::new();
    image::DynamicImage::ImageLuma8(buf)
        .write_to(&mut std::io::Cursor::new(&mut bytes), image::ImageOutputFormat::Png)
        .unwrap();
    let img = decode_image(&bytes).unwrap();
    assert_eq!(img.format, PixelFormat::Other);
    assert_eq!((img.width, img.height), (3, 2));
}
