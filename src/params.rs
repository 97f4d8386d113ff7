//! The settings that select source images and the per-asset record built from them.

use vstd::prelude::*;
use crate::color::ColorKey;
use crate::encode::{row_bytes, row_bytes_of};
use crate::palette::{max_colors, max_colors_spec, valid_bpp};
use crate::source::SourceImage;

verus! {

/// The settings given for one directory or file of source images. A zero
/// width, height, alignment or bit depth means "not given".
#[derive(Debug, Clone)]
pub struct DirParameters {
    pub width: usize,
    pub height: usize,
    pub alignment: usize,
    pub bpp: u8,
    pub palette_offset: Option<usize>,
    pub no_output: bool,
    pub vapor: bool,
    pub path: String,
}

impl DirParameters {
    /// Settings with nothing given.
    pub fn new() -> (r: Self)
        ensures
            r.width == 0,
            r.height == 0,
            r.alignment == 0,
            r.bpp == 0,
            r.palette_offset is None,
            !r.no_output,
            !r.vapor,
            r.path@ == Seq::<char>::empty(),
    {
        DirParameters {
            width: 0,
            height: 0,
            alignment: 0,
            bpp: 0,
            palette_offset: None,
            no_output: false,
            vapor: false,
            path: String::new(),
        }
    }

    /// The settings used when no argument is given: the current directory,
    /// byte alignment.
    pub fn current_dir() -> (r: Self)
        ensures
            r.width == 0,
            r.height == 0,
            r.alignment == 1,
            r.bpp == 0,
            r.palette_offset is None,
            !r.no_output,
            !r.vapor,
            r.path@ == "./"@,
    {
        let mut params = DirParameters::new();
        params.alignment = 1;
        params.path = String::from_str("./");
        params
    }
}

/// Which value the argument parser waits for next.
#[derive(Debug)]
pub struct Expectations {
    pub width: bool,
    pub height: bool,
    pub file: bool,
    pub alignment: bool,
    pub bpp: bool,
    pub offset: bool,
}

impl Default for Expectations {
    fn default() -> (r: Self)
        ensures
            !r.width && !r.height && !r.file && !r.alignment && !r.bpp && !r.offset,
    {
        Expectations { width: false, height: false, file: false, alignment: false, bpp: false, offset: false }
    }
}

impl Expectations {
    /// Nothing expected.
    pub fn new() -> (r: Self)
        ensures
            !r.width && !r.height && !r.file && !r.alignment && !r.bpp && !r.offset,
    {
        Expectations::default()
    }

    /// Expects a path and nothing else.
    pub fn expect_file(&mut self)
        ensures
            final(self).file,
            !final(self).width && !final(self).height && !final(self).alignment && !final(self).bpp
                && !final(self).offset,
    {
        *self = Expectations::new();
        self.file = true;
    }

    /// Whether an option value is still expected.
    pub fn anything(&self) -> (r: bool)
        ensures
            r == (self.width || self.height || self.alignment || self.bpp || self.offset),
    {
        self.width || self.height || self.alignment || self.bpp || self.offset
    }
}

/// Why a directory's settings are refused.
#[derive(Clone, Copy, Debug, PartialEq, Eq, Structural)]
pub enum ParamError {
    /// A palette offset was given for 8 bits per pixel.
    OffsetWithFullDepth,
    /// No palette offset was given for 1, 2 or 4 bits per pixel.
    MissingOffset,
}

/// The bit depth once settled: 8 where none was given.
pub open spec fn settled_bpp(bpp: u8) -> u8 {
    if bpp == 0 {
        8
    } else {
        bpp
    }
}

/// Settles the bit depth (8 where none was given) and checks that an
/// offset is given exactly for the depths below 8.
pub fn settle_depth(dir: &mut DirParameters) -> (r: Result<(), ParamError>)
    ensures
        final(dir).bpp == settled_bpp(old(dir).bpp),
        final(dir).width == old(dir).width,
        final(dir).height == old(dir).height,
        final(dir).alignment == old(dir).alignment,
        final(dir).palette_offset == old(dir).palette_offset,
        final(dir).no_output == old(dir).no_output,
        final(dir).vapor == old(dir).vapor,
        final(dir).path == old(dir).path,
        r == if old(dir).palette_offset is Some && settled_bpp(old(dir).bpp) == 8 {
            Err(ParamError::OffsetWithFullDepth)
        } else if old(dir).palette_offset is None && settled_bpp(old(dir).bpp) != 8 {
            Err(ParamError::MissingOffset)
        } else {
            Ok(())
        },
{
    if dir.bpp == 0 {
        dir.bpp = 8;
    }
    if dir.palette_offset.is_some() && dir.bpp == 8 {
        Err(ParamError::OffsetWithFullDepth)
    } else if dir.palette_offset.is_none() && dir.bpp != 8 {
        Err(ParamError::MissingOffset)
    } else {
        Ok(())
    }
}

/// One asset: an output unit made from one source image, or a "vapor"
/// placeholder that only reserves space in video memory.
#[derive(Debug, Clone)]
pub struct FileParameters {
    pub width: usize,
    pub height: usize,
    pub alignment: usize,
    pub bpp: u8,
    pub palette_offset: Option<usize>,
    pub no_output: bool,
    pub vapor: bool,
    pub path: String,
    pub size: usize,
    pub max_colors: usize,
    /// The asset's distinct opaque colours in the order first seen; the colour
    /// at position `i` has local index `i + 1`.
    pub colors: Vec<ColorKey>,
    /// The encoded pixel stream, without the two-byte load-address header.
    pub binary: Vec<u8>,
}

/// The bytes an asset takes in video memory: two per cell for a vapor
/// asset, else its packed rows.
pub open spec fn asset_size(width: nat, height: nat, bpp: u8, vapor: bool) -> nat {
    if vapor {
        width * height * 2
    } else {
        row_bytes(width, bpp) * height
    }
}

impl FileParameters {
    /// An asset with the directory's settings, no size, colours or bytes yet.
    pub fn new(params: &DirParameters) -> (r: Self)
        ensures
            r.width == params.width,
            r.height == params.height,
            r.alignment == params.alignment,
            r.bpp == params.bpp,
            r.palette_offset == params.palette_offset,
            r.no_output == params.no_output,
            r.vapor == params.vapor,
            r.path == params.path,
            r.size == 0,
            r.max_colors == 0,
            r.colors@.len() == 0,
            r.binary@.len() == 0,
    {
        FileParameters {
            width: params.width,
            height: params.height,
            alignment: params.alignment,
            bpp: params.bpp,
            palette_offset: params.palette_offset,
            no_output: params.no_output,
            vapor: params.vapor,
            path: params.path.clone(),
            size: 0,
            max_colors: 0,
            colors: Vec::new(),
            binary: Vec::new(),
        }
    }
}

/// The asset made from one source image: the directory's settings with the
/// image's width and height where none were given, byte alignment where none
/// was given, the colour limit of its depth and its size; `None` where the
/// size does not fit in a `usize`.
pub fn file_for_image(dir: &DirParameters, path: &String, img: &SourceImage) -> (r: Option<FileParameters>)
    requires
        valid_bpp(dir.bpp),
    ensures
        match r {
            Some(f) => {
                &&& f.width == if dir.width == 0 { img.width as usize } else { dir.width }
                &&& f.height == if dir.height == 0 { img.height as usize } else { dir.height }
                &&& f.alignment == if dir.alignment == 0 { 1 } else { dir.alignment }
                &&& f.bpp == dir.bpp
                &&& f.palette_offset == dir.palette_offset
                &&& f.no_output == dir.no_output
                &&& !f.vapor
                &&& f.path == *path
                &&& f.size == asset_size(f.width as nat, f.height as nat, f.bpp, false)
                &&& f.max_colors == max_colors_spec(f.bpp)
                &&& f.colors@.len() == 0
                &&& f.binary@.len() == 0
            },
            None => asset_size(
                (if dir.width == 0 { img.width as usize } else { dir.width }) as nat,
                (if dir.height == 0 { img.height as usize } else { dir.height }) as nat,
                dir.bpp,
                false,
            ) > usize::MAX,
        },
{
    let mut f = FileParameters::new(dir);
    f.vapor = false;
    f.path = path.clone();
    if dir.width == 0 {
        f.width = img.width as usize;
    }
    if dir.height == 0 {
        f.height = img.height as usize;
    }
    if f.alignment == 0 {
        f.alignment = 1;
    }
    f.max_colors = max_colors(f.bpp);
    let per_row = row_bytes_of(f.width, f.bpp);
    match per_row.checked_mul(f.height) {
        Some(size) => {
            f.size = size;
            Some(f)
        },
        None => None,
    }
}

/// The placeholder asset of a vapor directory: its settings, byte alignment
/// where none was given, and two bytes per cell; `None` where that size does
/// not fit in a `usize`.
pub fn file_for_vapor(dir: &DirParameters) -> (r: Option<FileParameters>)
    requires
        valid_bpp(dir.bpp),
    ensures
        match r {
            Some(f) => {
                &&& f.width == dir.width
                &&& f.height == dir.height
                &&& f.alignment == if dir.alignment == 0 { 1 } else { dir.alignment }
                &&& f.bpp == dir.bpp
                &&& f.palette_offset == dir.palette_offset
                &&& f.no_output == dir.no_output
                &&& f.vapor
                &&& f.path == dir.path
                &&& f.size == asset_size(f.width as nat, f.height as nat, f.bpp, true)
                &&& f.max_colors == max_colors_spec(f.bpp)
                &&& f.colors@.len() == 0
                &&& f.binary@.len() == 0
            },
            None => asset_size(dir.width as nat, dir.height as nat, dir.bpp, true) > usize::MAX,
        },
{
    let mut f = FileParameters::new(dir);
    f.vapor = true;
    if f.alignment == 0 {
        f.alignment = 1;
    }
    f.max_colors = max_colors(f.bpp);
    match dir.width.checked_mul(dir.height) {
        Some(cells) => match cells.checked_mul(2) {
            Some(size) => {
                f.size = size;
                Some(f)
            },
            None => None,
        },
        None => {
            proof {
                let w = dir.width as int;
                let h = dir.height as int;
                assert(w * h * 2 >= w * h) by (nonlinear_arith)
                    requires
                        w * h >= 0,
                ;
            }
            None
        },
    }
}

} // verus!
