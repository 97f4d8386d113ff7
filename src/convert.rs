//! The conversion of a whole set of assets: colour discovery for each,
//! one shared palette, then the encoding of each asset with that palette.

use vstd::prelude::*;
use crate::color::ColorKey;
use crate::encode::{cell_key, encode_pixels, index_grid, pack_rows, power, radix, source_coord};
use crate::palette::{
    build_palette, discover_colors, distinct_colors, first_seen, full_depth_present, has_bands_of,
    lemma_canonical_index_holds, lemma_first_seen_contains, lemma_palette_same_colors, max_colors_spec,
    palette_slots, present, reserved_kept, slots_ok, valid_bpp, Palette,
};
use crate::params::FileParameters;
use crate::source::{ConvertError, PixelFormat, SourceImage};

verus! {

/// `a` and `b` agree on everything but their colours and bytes.
pub open spec fn same_settings(a: FileParameters, b: FileParameters) -> bool {
    &&& a.width == b.width
    &&& a.height == b.height
    &&& a.alignment == b.alignment
    &&& a.bpp == b.bpp
    &&& a.palette_offset == b.palette_offset
    &&& a.no_output == b.no_output
    &&& a.vapor == b.vapor
    &&& a.path == b.path
    &&& a.size == b.size
    &&& a.max_colors == b.max_colors
}

/// What conversion asks: one image per asset that is not vapor, a valid
/// depth, and an offset from 1 to 15 exactly on the depths below 8.
pub open spec fn convertible(files: Seq<FileParameters>, images: Seq<Option<SourceImage>>) -> bool {
    &&& images.len() == files.len()
    &&& forall|i: int|
        0 <= i < files.len() ==> {
            &&& valid_bpp((#[trigger] files[i]).bpp)
            &&& files[i].palette_offset is Some <==> files[i].bpp != 8
            &&& files[i].palette_offset matches Some(o) ==> 1 <= o <= 15
            &&& !files[i].vapor ==> (images[i] matches Some(img) && img.wf())
        }
}

/// Colour discovery succeeds on `img` at the asset's depth.
pub open spec fn discovers(f: FileParameters, img: SourceImage) -> bool {
    img.format != PixelFormat::Other && distinct_colors(img).len() <= max_colors_spec(f.bpp)
}

/// The colours an asset holds after discovery: none for vapor.
pub open spec fn discovered(f: FileParameters, img: Option<SourceImage>) -> Seq<ColorKey> {
    if f.vapor {
        Seq::empty()
    } else {
        distinct_colors(img->Some_0)
    }
}

/// The bytes an asset holds after encoding: none where it writes no output.
pub open spec fn encoded(f: FileParameters, img: Option<SourceImage>, p: Palette) -> Seq<u8> {
    if f.vapor || f.no_output {
        Seq::empty()
    } else {
        pack_rows(index_grid(img->Some_0, f, p), f.bpp)
    }
}

/// Discovers every asset's colours, consolidates the palette and encodes
/// every asset that writes output. Fails with the index of the first asset
/// whose colours cannot be taken, or of the asset that found the palette full.
pub fn convert_assets(files: &mut Vec<FileParameters>, images: &Vec<Option<SourceImage>>) -> (r: Result<
    Palette,
    (usize, ConvertError),
>)
    requires
        convertible(old(files)@, images@),
    ensures
        final(files)@.len() == old(files)@.len(),
        forall|i: int| 0 <= i < old(files)@.len() ==> same_settings(#[trigger] final(files)@[i], old(files)@[i]),
        match r {
            Ok(p) => {
                &&& forall|i: int|
                    0 <= i < final(files)@.len() ==> (#[trigger] final(files)@[i]).colors@ == discovered(
                        final(files)@[i],
                        images@[i],
                    )
                &&& palette_slots(final(files)@) == Some(p.slots@)
                &&& has_bands_of(p, final(files)@)
                &&& slots_ok(p.slots@)
                &&& reserved_kept(p.slots@)
                &&& full_depth_present(final(files)@, final(files)@.len() as int, p.slots@)
                &&& forall|i: int|
                    0 <= i < final(files)@.len() ==> (#[trigger] final(files)@[i]).binary@ == encoded(
                        final(files)@[i],
                        images@[i],
                        p,
                    )
            },
            Err((i, e)) => {
                &&& i < old(files)@.len()
                &&& match e {
                    ConvertError::PaletteExhausted { file } => {
                        &&& file == i
                        &&& forall|j: int|
                            0 <= j < final(files)@.len() ==> (#[trigger] final(files)@[j]).colors@ == discovered(
                                final(files)@[j],
                                images@[j],
                            )
                        &&& palette_slots(final(files)@) is None
                    },
                    ConvertError::UnsupportedFormat => !old(files)@[i as int].vapor
                        && images@[i as int]->Some_0.format == PixelFormat::Other,
                    ConvertError::TooManyColors => !old(files)@[i as int].vapor
                        && images@[i as int]->Some_0.format != PixelFormat::Other
                        && distinct_colors(images@[i as int]->Some_0).len() > max_colors_spec(
                        old(files)@[i as int].bpp,
                    ),
                    ConvertError::Decode => false,
                }
                &&& match e {
                    ConvertError::PaletteExhausted { .. } => true,
                    _ => forall|j: int|
                        0 <= j < i ==> !old(files)@[j].vapor ==> discovers(
                            #[trigger] old(files)@[j],
                            images@[j]->Some_0,
                        ),
                }
            },
        },
{
    let ghost orig = files@;
    let n = files.len();
    for i in 0..n
        invariant
            orig == old(files)@,
            n == files@.len() == orig.len(),
            convertible(orig, images@),
            forall|j: int| 0 <= j < n ==> same_settings(#[trigger] files@[j], orig[j]),
            forall|j: int| 0 <= j < i ==> (#[trigger] files@[j]).colors@ == discovered(files@[j], images@[j]),
            forall|j: int| 0 <= j < i ==> (#[trigger] files@[j]).colors@.len() <= max_colors_spec(files@[j].bpp),
            forall|j: int, k: int|
                0 <= j < i && 0 <= k < files@[j].colors@.len() ==> (#[trigger] files@[j].colors@[k]).wf(),
            forall|j: int| 0 <= j < i ==> !orig[j].vapor ==> discovers(#[trigger] orig[j], images@[j]->Some_0),
    {
        assert(same_settings(files@[i as int], orig[i as int]));
        if files[i].vapor {
            files[i].colors = Vec::new();
        } else {
            let img = images[i].as_ref().unwrap();
            match discover_colors(img, files[i].bpp) {
                Ok(v) => {
                    files[i].colors = v;
                },
                Err(e) => {
                    return Err((i, e));
                },
            }
        }
    }
    assert(crate::palette::palette_ready(files@)) by {
        assert forall|j: int| 0 <= j < files@.len() implies (#[trigger] files@[j]).palette_offset matches Some(o)
            ==> 1 <= o <= 15 && files@[j].colors@.len() <= 15 by {
            assert(same_settings(files@[j], orig[j]));
        }
    }
    let palette = match build_palette(files) {
        Ok(p) => p,
        Err(e) => {
            let i = match e {
                ConvertError::PaletteExhausted { file } => file,
                _ => 0,
            };
            return Err((i, e));
        },
    };
    let ghost discovered_files = files@;
    assert(full_depth_present(discovered_files, n as int, palette.slots@));
    for i in 0..n
        invariant
            orig == old(files)@,
            n == files@.len() == orig.len(),
            convertible(orig, images@),
            forall|j: int| 0 <= j < n ==> same_settings(#[trigger] files@[j], orig[j]),
            forall|j: int| 0 <= j < n ==> (#[trigger] files@[j]).colors@ == discovered_files[j].colors@,
            forall|j: int| 0 <= j < n ==> (#[trigger] files@[j]).palette_offset == discovered_files[j].palette_offset,
            discovered_files.len() == n,
            forall|j: int| 0 <= j < n ==> !orig[j].vapor ==> discovers(#[trigger] orig[j], images@[j]->Some_0),
            palette.slots@.len() == 256,
            palette.bands@.len() == 16,
            full_depth_present(discovered_files, n as int, palette.slots@),
            forall|j: int| 0 <= j < i ==> (#[trigger] files@[j]).binary@ == encoded(files@[j], images@[j], palette),
    {
        assert(same_settings(files@[i as int], orig[i as int]));
        if files[i].vapor || files[i].no_output {
            files[i].binary = Vec::new();
        } else {
            let img = images[i].as_ref().unwrap();
            let ghost before = files@[i as int];
            files[i].binary = encode_pixels(img, &files[i], &palette).unwrap();
            assert(index_grid(*img, before, palette) =~~= index_grid(*img, files@[i as int], palette));
        }
    }
    proof {
        lemma_palette_same_colors(files@, discovered_files);
        assert forall|a: int, k: int|
            0 <= a < n && files@[a].palette_offset is None && 0 <= k < files@[a].colors@.len() implies present(
            palette.slots@,
            #[trigger] files@[a].colors@[k],
        ) by {
            assert(discovered_files[a].colors@[k] == files@[a].colors@[k]);
        }
    }
    Ok(palette)
}

/// After a successful conversion, the index that an opaque pixel of an
/// 8-bit asset is encoded with selects that pixel's own colour in the palette.
pub proof fn lemma_full_depth_index_selects_color(
    files: Seq<FileParameters>,
    images: Seq<Option<SourceImage>>,
    p: Palette,
    i: int,
    x: int,
    y: int,
)
    requires
        convertible(files, images),
        forall|j: int| 0 <= j < files.len() ==> (#[trigger] files[j]).colors@ == discovered(files[j], images[j]),
        full_depth_present(files, files.len() as int, p.slots@),
        p.slots@.len() == 256,
        0 <= i < files.len(),
        !files[i].vapor,
        files[i].palette_offset is None,
        0 <= x < files[i].width,
        0 <= y < files[i].height,
        cell_key(images[i]->Some_0, files[i], x, y) is Some,
    ensures
        p.slots@[index_grid(images[i]->Some_0, files[i], p)[y][x] as int] == cell_key(
            images[i]->Some_0,
            files[i],
            x,
            y,
        ),
{
    let f = files[i];
    let img = images[i]->Some_0;
    let c = cell_key(img, f, x, y)->Some_0;
    let sx = source_coord(x, f.width as int, img.width as int);
    let sy = source_coord(y, f.height as int, img.height as int);
    let k = sy * img.width + sx;
    assert(0 <= k < img.pixel_count()) by {
        let w = img.width as int;
        let h = img.height as int;
        assert(sy * w + sx < h * w) by (nonlinear_arith)
            requires
                0 <= sx < w,
                0 <= sy < h,
        ;
        assert(sy * w + sx >= 0) by (nonlinear_arith)
            requires
                0 <= sx,
                0 <= sy,
                w >= 0,
        ;
        assert(h * w == w * h) by (nonlinear_arith);
    }
    assert(img.scan()[k] == Some(c));
    lemma_first_seen_contains(img.scan(), k);
    assert(f.colors@ == first_seen(img.scan()));
    let j = choose|j: int| 0 <= j < f.colors@.len() && f.colors@[j] == c;
    assert(present(p.slots@, f.colors@[j]));
    lemma_canonical_index_holds(p.slots@, c);
    assert(f.bpp == 8);
    assert(radix(8) == 256) by {
        reveal_with_fuel(power, 9);
    }
}

} // verus!
