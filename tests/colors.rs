use img2bin::color::{quantize, ColorKey};
use img2bin::convert::convert_assets;
use img2bin::palette::{build_palette, BandEntry, discover_colors, max_colors, palette_bytes, standard_color, Palette};
use img2bin::params::{DirParameters, FileParameters};
use img2bin::source::{ConvertError, PixelFormat, SourceImage};

fn rgb_image(width: u32, height: u32, pixels: &[(u8, u8, u8)]) -> SourceImage {
    let mut data = Vec::new();
    for &(r, g, b) in pixels {
        data.push(r);
        data.push(g);
        data.push(b);
    }
    SourceImage { width, height, format: PixelFormat::Rgb8, data }
}

fn rgba_image(width: u32, height: u32, pixels: &[(u8, u8, u8, u8)]) -> SourceImage {
    let mut data = Vec::new();
    for &(r, g, b, a) in pixels {
        data.push(r);
        data.push(g);
        data.push(b);
        data.push(a);
    }
    SourceImage { width, height, format: PixelFormat::Rgba8, data }
}

fn key(r: u8, g: u8, b: u8) -> ColorKey {
    ColorKey { r, g, b }
}

fn asset(bpp: u8, offset: Option<usize>, width: usize, height: usize, path: &str) -> FileParameters {
    let mut dir = DirParameters::new();
    dir.bpp = bpp;
    dir.palette_offset = offset;
    dir.width = width;
    dir.height = height;
    dir.alignment = 1;
    dir.path = path.to_string();
    let mut f = FileParameters::new(&dir);
    f.size = width * height;
    f
}

/// An image of `n` distinct colours, one pixel each, in one row.
fn many_colors(n: u32, first: u32) -> SourceImage {
    let mut pixels = Vec::new();
    for i in first..first + n {
        let r = ((i >> 8) & 15) as u8;
        let g = ((i >> 4) & 15) as u8;
        let b = (i & 15) as u8;
        pixels.push((r << 4, g << 4, b << 4));
    }
    rgb_image(n, 1, &pixels)
}

#[test]
fn quantize_keeps_top_nibbles() {
    assert_eq!(quantize(0xF3, 0x12, 0x80, 0xFF), Some(key(15, 1, 8)));
    assert_eq!(quantize(0x0F, 0xEF, 0x7F, 0x10), Some(key(0, 14, 7)));
}

#[test]
fn quantize_low_alpha_is_transparent() {
    assert_eq!(quantize(0xFF, 0xFF, 0xFF, 0x0F), None);
    assert_eq!(quantize(0xFF, 0xFF, 0xFF, 0x00), None);
}

#[test]
fn quantize_nibble_aligned_color_is_idempotent() {
    let k = quantize(0xA0, 0x50, 0xF0, 0xFF).unwrap();
    assert_eq!(k, key(10, 5, 15));
    let again = quantize(k.r << 4, k.g << 4, k.b << 4, 0xFF).unwrap();
    assert_eq!(again, k);
}

#[test]
fn discover_colors_in_first_seen_order() {
    let img = rgb_image(2, 2, &[(0x20, 0, 0), (0, 0x30, 0), (0x2F, 0x01, 0x0F), (0, 0, 0x40)]);
    let colors = discover_colors(&img, 4).unwrap();
    assert_eq!(colors, vec![key(2, 0, 0), key(0, 3, 0), key(0, 0, 4)]);
}

#[test]
fn discover_colors_skips_transparent_pixels() {
    let img = rgba_image(3, 1, &[(0x10, 0, 0, 0x05), (0x20, 0, 0, 0xFF), (0x10, 0, 0, 0x10)]);
    let colors = discover_colors(&img, 2).unwrap();
    assert_eq!(colors, vec![key(2, 0, 0), key(1, 0, 0)]);
}

#[test]
fn discover_colors_too_many_for_one_bit() {
    let img = rgb_image(2, 1, &[(0x10, 0, 0), (0x20, 0, 0)]);
    assert_eq!(discover_colors(&img, 1), Err(ConvertError::TooManyColors));
}

#[test]
fn discover_colors_eight_bit_limit() {
    assert_eq!(max_colors(8), 239);
    assert_eq!(discover_colors(&many_colors(239, 0), 8).unwrap().len(), 239);
    assert_eq!(discover_colors(&many_colors(240, 0), 8), Err(ConvertError::TooManyColors));
}

#[test]
fn discover_colors_unsupported_format() {
    let img = SourceImage { width: 1, height: 1, format: PixelFormat::Other, data: Vec::new() };
    assert_eq!(discover_colors(&img, 8), Err(ConvertError::UnsupportedFormat));
}

#[test]
fn palette_has_standard_colors() {
    let p = build_palette(&Vec::new()).unwrap();
    assert_eq!(p.slots.len(), 256);
    assert_eq!(p.slots[0], None);
    assert_eq!(p.slots[1], Some(key(15, 15, 15)));
    assert_eq!(p.slots[2], Some(key(8, 0, 0)));
    assert_eq!(p.slots[15], Some(key(11, 11, 11)));
    for i in 1..16 {
        assert_eq!(p.slots[i], Some(standard_color(i)));
    }
    for i in 16..256 {
        assert_eq!(p.slots[i], None);
    }
}

#[test]
fn palette_offset_sharing_gives_same_index() {
    let red = (0xF0, 0x00, 0x00);
    let a = rgb_image(2, 1, &[red, (0x00, 0xF0, 0x00)]);
    let b = rgb_image(2, 1, &[red, (0x00, 0x00, 0xF0)]);
    let mut files = vec![asset(4, Some(3), 2, 1, "a.png"), asset(4, Some(3), 2, 1, "b.png")];
    let images = vec![Some(a), Some(b)];
    let p = convert_assets(&mut files, &images).unwrap();
    assert_eq!(p.slots[49], Some(key(15, 0, 0)));
    assert_eq!(p.slots[50], Some(key(0, 15, 0)));
    assert_eq!(p.bands[3][0], BandEntry { color: key(15, 0, 0), index: 1 });
    // blue keeps the second asset's local index, whose slot green already holds
    assert_eq!(p.bands[3].len(), 3);
    assert_eq!(p.bands[3][2], BandEntry { color: key(0, 0, 15), index: 2 });
    // both assets encode red with local index 1 in the high nibble
    assert_eq!(files[0].binary, vec![0x12]);
    assert_eq!(files[1].binary, vec![0x12]);
}

#[test]
fn palette_eight_bit_colors_take_lowest_free_slots() {
    let img = rgb_image(3, 1, &[(0x10, 0x20, 0x30), (0xFF, 0xFF, 0xFF), (0x40, 0x50, 0x60)]);
    let mut files = vec![asset(8, None, 3, 1, "a.png")];
    let p = convert_assets(&mut files, &vec![Some(img)]).unwrap();
    assert_eq!(p.slots[16], Some(key(1, 2, 3)));
    assert_eq!(p.slots[17], Some(key(4, 5, 6)));
    assert_eq!(p.slots[18], None);
    // the standard white keeps its standard index 1
    assert_eq!(files[0].binary, vec![16, 1, 17]);
}

#[test]
fn palette_eight_bit_skips_band_slots() {
    let band = rgb_image(1, 1, &[(0x90, 0x90, 0x90)]);
    let full = rgb_image(2, 1, &[(0x90, 0x90, 0x90), (0x10, 0x10, 0x10)]);
    let mut files = vec![asset(2, Some(1), 1, 1, "b.png"), asset(8, None, 2, 1, "f.png")];
    let p = convert_assets(&mut files, &vec![Some(band), Some(full)]).unwrap();
    assert_eq!(p.slots[17], Some(key(9, 9, 9)));
    assert_eq!(p.slots[16], Some(key(1, 1, 1)));
    assert_eq!(files[1].binary, vec![17, 16]);
}

#[test]
fn palette_exhausted_names_the_asset() {
    let mut files = vec![asset(8, None, 239, 1, "a.png"), asset(8, None, 239, 1, "b.png")];
    let images = vec![Some(many_colors(239, 0)), Some(many_colors(239, 1000))];
    match convert_assets(&mut files, &images) {
        Err((i, e)) => {
            assert_eq!(i, 1);
            assert_eq!(e, ConvertError::PaletteExhausted { file: 1 });
        },
        Ok(_) => panic!("the palette should be exhausted"),
    }
}

#[test]
fn convert_reports_too_many_colors_with_asset() {
    let mut files = vec![asset(2, Some(1), 2, 1, "a.png"), asset(1, Some(2), 2, 1, "b.png")];
    let images = vec![
        Some(rgb_image(2, 1, &[(0x10, 0, 0), (0x20, 0, 0)])),
        Some(rgb_image(2, 1, &[(0x10, 0, 0), (0x20, 0, 0)])),
    ];
    match convert_assets(&mut files, &images) {
        Err((i, e)) => {
            assert_eq!(i, 1);
            assert_eq!(e, ConvertError::TooManyColors);
        },
        Ok(_) => panic!("the second asset has too many colours"),
    }
}

#[test]
fn palette_file_bytes() {
    let p: Palette = build_palette(&Vec::new()).unwrap();
    let bytes = palette_bytes(&p.slots);
    assert_eq!(bytes.len(), 514);
    assert_eq!(&bytes[0..2], &[0, 0]);
    // slot 0 is empty
    assert_eq!(&bytes[2..4], &[0, 0]);
    // slot 1: white, green and blue nibbles then red
    assert_eq!(&bytes[4..6], &[0xFF, 0x0F]);
    // slot 3: (10, 15, 14)
    assert_eq!(&bytes[8..10], &[0xFE, 0x0A]);
    // slot 16 is free
    assert_eq!(&bytes[34..36], &[0, 0]);
}
