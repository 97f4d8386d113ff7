use img2bin::names::{is_png_name, section_filename, upcase_filename};
use img2bin::options::{accepts_bpp, accepts_offset, alignment_keyword, parse_args, ArgError};
use img2bin::params::{
    file_for_image, file_for_vapor, settle_depth, DirParameters, Expectations, FileParameters, ParamError,
};
use img2bin::source::{PixelFormat, SourceImage};

#[test]
fn upcase_filename_examples() {
    assert_eq!(upcase_filename("dir/sub/tiles.png"), "dir/sub/TILES.BIN");
    assert_eq!(upcase_filename("./a.b.png"), "./A.B.BIN");
    assert_eq!(upcase_filename("Sprite.PNG"), "SPRITE.BIN");
    assert_eq!(upcase_filename("noext"), "BIN");
}

#[test]
fn section_filename_examples() {
    assert_eq!(section_filename("dir/tiles.png", "0"), "dir/TILESP0.BIN");
    assert_eq!(section_filename("x/a.b.png", "1"), "x/A.BP1.BIN");
    assert_eq!(section_filename("noext", "0"), "P0.BIN");
}

#[test]
fn dir_parameters_defaults() {
    let d = DirParameters::new();
    assert_eq!((d.width, d.height, d.alignment, d.bpp), (0, 0, 0, 0));
    assert_eq!(d.palette_offset, None);
    assert!(!d.no_output && !d.vapor);
    assert_eq!(d.path, "");
    let c = DirParameters::current_dir();
    assert_eq!(c.alignment, 1);
    assert_eq!(c.path, "./");
}

#[test]
fn expectations_track_pending_values() {
    let mut e = Expectations::new();
    assert!(!e.anything() && !e.file);
    e.bpp = true;
    assert!(e.anything());
    e.expect_file();
    assert!(e.file);
    assert!(!e.anything());
}

#[test]
fn settle_depth_rules() {
    let mut d = DirParameters::new();
    assert_eq!(settle_depth(&mut d), Ok(()));
    assert_eq!(d.bpp, 8);
    let mut d = DirParameters::new();
    d.palette_offset = Some(2);
    assert_eq!(settle_depth(&mut d), Err(ParamError::OffsetWithFullDepth));
    let mut d = DirParameters::new();
    d.bpp = 4;
    assert_eq!(settle_depth(&mut d), Err(ParamError::MissingOffset));
    let mut d = DirParameters::new();
    d.bpp = 2;
    d.palette_offset = Some(5);
    assert_eq!(settle_depth(&mut d), Ok(()));
}

#[test]
fn file_for_image_sizes() {
    let img = SourceImage { width: 10, height: 3, format: PixelFormat::Rgb8, data: vec![0; 90] };
    let mut d = DirParameters::new();
    d.bpp = 1;
    d.palette_offset = Some(1);
    let f = file_for_image(&d, &"a.png".to_string(), &img).unwrap();
    assert_eq!((f.width, f.height, f.alignment), (10, 3, 1));
    assert_eq!(f.size, 2 * 3);
    assert_eq!(f.max_colors, 1);
    assert_eq!(f.path, "a.png");
    d.bpp = 4;
    d.width = 7;
    d.alignment = 32;
    let f = file_for_image(&d, &"a.png".to_string(), &img).unwrap();
    assert_eq!(f.size, 4 * 3);
    assert_eq!(f.alignment, 32);
    d.bpp = 8;
    d.palette_offset = None;
    let f = file_for_image(&d, &"a.png".to_string(), &img).unwrap();
    assert_eq!(f.size, 7 * 3);
    assert_eq!(f.max_colors, 239);
}

#[test]
fn file_for_vapor_size() {
    let mut d = DirParameters::new();
    d.bpp = 8;
    d.vapor = true;
    d.width = 64;
    d.height = 32;
    d.alignment = 512;
    let f = file_for_vapor(&d).unwrap();
    assert_eq!(f.size, 64 * 32 * 2);
    assert!(f.vapor);
    d.width = usize::MAX;
    assert!(file_for_vapor(&d).is_none());
}

#[test]
fn file_parameters_copy_settings() {
    let mut d = DirParameters::new();
    d.width = 5;
    d.bpp = 2;
    d.palette_offset = Some(4);
    d.no_output = true;
    d.path = "p".to_string();
    let f = FileParameters::new(&d);
    assert_eq!((f.width, f.bpp, f.palette_offset, f.no_output), (5, 2, Some(4), true));
    assert_eq!(f.path, "p");
    assert_eq!((f.size, f.max_colors), (0, 0));
    assert!(f.colors.is_empty() && f.binary.is_empty());
}

#[test]
fn alignment_keywords() {
    assert_eq!(alignment_keyword("tb"), Some((2048, false)));
    assert_eq!(alignment_keyword("tilebase"), Some((2048, false)));
    assert_eq!(alignment_keyword("bitmap"), Some((2048, false)));
    assert_eq!(alignment_keyword("mb"), Some((512, true)));
    assert_eq!(alignment_keyword("mapbase"), Some((512, true)));
    assert_eq!(alignment_keyword("sp"), Some((32, false)));
    assert_eq!(alignment_keyword("sprite"), Some((32, false)));
    assert_eq!(alignment_keyword("64"), None);
    assert_eq!(alignment_keyword("tiles"), None);
}

#[test]
fn option_values() {
    for n in 0..=255u8 {
        assert_eq!(accepts_bpp(n), n == 1 || n == 2 || n == 4 || n == 8);
    }
    assert!(!accepts_offset(0));
    assert!(accepts_offset(1));
    assert!(accepts_offset(15));
    assert!(!accepts_offset(16));
}

fn line(words: &[&str]) -> Vec<String> {
    words.iter().map(|w| w.to_string()).collect()
}

#[test]
fn parse_args_without_arguments_uses_current_dir() {
    let dirs = parse_args(&line(&["prog"])).unwrap();
    assert_eq!(dirs.len(), 1);
    assert_eq!(dirs[0].path, "./");
    assert_eq!(dirs[0].alignment, 1);
}

#[test]
fn parse_args_options_then_paths() {
    let dirs = parse_args(&line(&["prog", "-B", "4", "-p", "3", "-a", "SPRITE", "Sprites/", "-w", "+16", "-n", "tiles.png"]))
        .unwrap();
    assert_eq!(dirs.len(), 2);
    assert_eq!((dirs[0].bpp, dirs[0].palette_offset, dirs[0].alignment), (4, Some(3), 32));
    assert_eq!(dirs[0].path, "sprites/");
    assert_eq!((dirs[1].width, dirs[1].no_output, dirs[1].bpp), (16, true, 0));
    assert_eq!(dirs[1].path, "tiles.png");
}

#[test]
fn parse_args_trailing_options_make_current_dir_entry() {
    let dirs = parse_args(&line(&["prog", "a.png", "-height", "8"])).unwrap();
    assert_eq!(dirs.len(), 2);
    assert_eq!(dirs[1].path, "./");
    assert_eq!(dirs[1].height, 8);
    let dirs = parse_args(&line(&["prog", "a.png"])).unwrap();
    assert_eq!(dirs.len(), 1);
}

#[test]
fn parse_args_map_base_is_vapor() {
    let dirs = parse_args(&line(&["prog", "-a", "mb", "-w", "32", "-h", "32", "map"])).unwrap();
    assert_eq!(dirs.len(), 1);
    assert!(dirs[0].vapor);
    assert_eq!((dirs[0].alignment, dirs[0].width, dirs[0].height), (512, 32, 32));
    let dirs = parse_args(&line(&["prog", "-a", "100", "x"])).unwrap();
    assert_eq!(dirs[0].alignment, 100);
    assert!(!dirs[0].vapor);
}

#[test]
fn parse_args_errors() {
    assert_eq!(parse_args(&line(&["prog", "-w", "-h"])).err(), Some(ArgError::MissingValue));
    assert_eq!(parse_args(&line(&["prog", "-w"])).err(), Some(ArgError::MissingValue));
    assert_eq!(parse_args(&line(&["prog", "-w", "ten"])).err(), Some(ArgError::InvalidWidth));
    assert_eq!(parse_args(&line(&["prog", "-h", "+"])).err(), Some(ArgError::InvalidHeight));
    assert_eq!(parse_args(&line(&["prog", "-a", "big"])).err(), Some(ArgError::InvalidAlignment));
    assert_eq!(parse_args(&line(&["prog", "-b", "3"])).err(), Some(ArgError::InvalidBpp));
    assert_eq!(parse_args(&line(&["prog", "-b", "300"])).err(), Some(ArgError::InvalidBpp));
    assert_eq!(parse_args(&line(&["prog", "-p", "16"])).err(), Some(ArgError::InvalidOffset));
    assert_eq!(parse_args(&line(&["prog", "-p", "x"])).err(), Some(ArgError::InvalidOffset));
    assert_eq!(
        parse_args(&line(&["prog", "-w", "99999999999999999999999"])).err(),
        Some(ArgError::InvalidWidth)
    );
}

#[test]
fn png_names() {
    assert!(is_png_name("a.png"));
    assert!(is_png_name("dir/Tiles.PNG"));
    assert!(is_png_name(".png"));
    assert!(!is_png_name("png"));
    assert!(!is_png_name("a.pngx"));
    assert!(!is_png_name("a.bmp"));
}
