//! Colour discovery per asset and consolidation of all assets' colours into
//! one 256-entry palette.

use vstd::prelude::*;
use crate::color::ColorKey;
use crate::params::FileParameters;
use crate::source::{ConvertError, PixelFormat, SourceImage};

verus! {

/// The bit depths an asset can be encoded with.
pub open spec fn valid_bpp(bpp: u8) -> bool {
    bpp == 1 || bpp == 2 || bpp == 4 || bpp == 8
}

/// How many opaque colours an asset of this depth may use: every index but
/// the transparent 0, and at 8 bits none of the 16 standard or reserved slots either.
pub open spec fn max_colors_spec(bpp: u8) -> nat {
    if bpp == 1 {
        1
    } else if bpp == 2 {
        3
    } else if bpp == 4 {
        15
    } else {
        239
    }
}

pub fn max_colors(bpp: u8) -> (r: usize)
    requires
        valid_bpp(bpp),
    ensures
        r == max_colors_spec(bpp),
{
    if bpp == 1 {
        1
    } else if bpp == 2 {
        3
    } else if bpp == 4 {
        15
    } else {
        239
    }
}

/// The distinct colours of `s` in the order they first appear; transparent entries are skipped.
pub open spec fn first_seen(s: Seq<Option<ColorKey>>) -> Seq<ColorKey>
    decreases s.len(),
{
    if s.len() == 0 {
        Seq::empty()
    } else {
        let p = first_seen(s.drop_last());
        match s.last() {
            Some(c) => if p.contains(c) {
                p
            } else {
                p.push(c)
            },
            None => p,
        }
    }
}

/// The distinct opaque colours of an image, in row-major order of first appearance.
pub open spec fn distinct_colors(img: SourceImage) -> Seq<ColorKey> {
    first_seen(img.scan())
}

proof fn lemma_first_seen_grows(s: Seq<Option<ColorKey>>, j: int)
    requires
        0 <= j <= s.len(),
    ensures
        first_seen(s.take(j)).len() <= first_seen(s).len(),
    decreases s.len(),
{
    if j < s.len() {
        assert(s.take(j) =~= s.drop_last().take(j));
        lemma_first_seen_grows(s.drop_last(), j);
    } else {
        assert(s.take(j) =~= s);
    }
}

fn contains_color(v: &Vec<ColorKey>, c: ColorKey) -> (r: bool)
    ensures
        r == v@.contains(c),
{
    for k in 0..v.len()
        invariant
            forall|j: int| 0 <= j < k ==> v@[j] != c,
    {
        if v[k] == c {
            return true;
        }
    }
    false
}

/// The asset's distinct opaque colours in first-seen order (the colour at
/// position `i` gets local index `i + 1`), failing where the image has an
/// unsupported layout or more colours than `bpp` allows.
pub fn discover_colors(img: &SourceImage, bpp: u8) -> (r: Result<Vec<ColorKey>, ConvertError>)
    requires
        img.wf(),
        valid_bpp(bpp),
    ensures
        img.format == PixelFormat::Other ==> r == Err::<Vec<ColorKey>, ConvertError>(ConvertError::UnsupportedFormat),
        img.format != PixelFormat::Other ==> match r {
            Ok(v) => v@ == distinct_colors(*img) && v@.len() <= max_colors_spec(bpp) && forall|j: int|
                0 <= j < v@.len() ==> (#[trigger] v@[j]).wf(),
            Err(e) => e == ConvertError::TooManyColors && distinct_colors(*img).len() > max_colors_spec(bpp),
        },
{
    if img.format == PixelFormat::Other {
        return Err(ConvertError::UnsupportedFormat);
    }
    let max = max_colors(bpp);
    let ghost scan = img.scan();
    proof {
        let n = img.pixel_count() as int;
        assert(n <= n * img.channels()) by (nonlinear_arith)
            requires
                img.channels() >= 1,
                n >= 0,
        ;
        assert(img.data@.len() == img.data.len());
    }
    let n = img.width as usize * img.height as usize;
    let mut v: Vec<ColorKey> = Vec::new();
    assert(scan.take(0) =~= Seq::<Option<ColorKey>>::empty());
    for i in 0..n
        invariant
            img.wf(),
            img.format != PixelFormat::Other,
            n == img.pixel_count(),
            scan == img.scan(),
            max == max_colors_spec(bpp),
            v@ == first_seen(scan.take(i as int)),
            v@.len() <= max,
            forall|j: int| 0 <= j < v@.len() ==> (#[trigger] v@[j]).wf(),
    {
        assert(scan.take(i + 1).drop_last() =~= scan.take(i as int));
        if let Some(c) = img.pixel_key(i) {
            if !contains_color(&v, c) {
                if v.len() >= max {
                    proof {
                        lemma_first_seen_grows(scan, i + 1);
                    }
                    return Err(ConvertError::TooManyColors);
                }
                v.push(c);
            }
        }
    }
    assert(scan.take(n as int) =~= scan);
    Ok(v)
}

/// The fixed colours at palette indices 1 to 15.
pub open spec fn standard_color_spec(i: int) -> ColorKey {
    let (r, g, b) = if i == 1 {
        (15u8, 15u8, 15u8)
    } else if i == 2 {
        (8, 0, 0)
    } else if i == 3 {
        (10, 15, 14)
    } else if i == 4 {
        (12, 4, 12)
    } else if i == 5 {
        (0, 12, 5)
    } else if i == 6 {
        (0, 0, 10)
    } else if i == 7 {
        (14, 14, 7)
    } else if i == 8 {
        (13, 8, 5)
    } else if i == 9 {
        (6, 4, 0)
    } else if i == 10 {
        (15, 7, 7)
    } else if i == 11 {
        (3, 3, 3)
    } else if i == 12 {
        (7, 7, 7)
    } else if i == 13 {
        (10, 15, 6)
    } else if i == 14 {
        (0, 8, 15)
    } else {
        (11, 11, 11)
    };
    ColorKey { r, g, b }
}

pub fn standard_color(i: usize) -> (c: ColorKey)
    requires
        1 <= i <= 15,
    ensures
        c == standard_color_spec(i as int),
        c.wf(),
{
    let (r, g, b) = if i == 1 {
        (15u8, 15u8, 15u8)
    } else if i == 2 {
        (8, 0, 0)
    } else if i == 3 {
        (10, 15, 14)
    } else if i == 4 {
        (12, 4, 12)
    } else if i == 5 {
        (0, 12, 5)
    } else if i == 6 {
        (0, 0, 10)
    } else if i == 7 {
        (14, 14, 7)
    } else if i == 8 {
        (13, 8, 5)
    } else if i == 9 {
        (6, 4, 0)
    } else if i == 10 {
        (15, 7, 7)
    } else if i == 11 {
        (3, 3, 3)
    } else if i == 12 {
        (7, 7, 7)
    } else if i == 13 {
        (10, 15, 6)
    } else if i == 14 {
        (0, 8, 15)
    } else {
        (11, 11, 11)
    };
    ColorKey { r, g, b }
}

/// A colour of a shared band and its index within the band.
#[derive(Clone, Copy, Debug, PartialEq, Eq, Structural)]
pub struct BandEntry {
    pub color: ColorKey,
    pub index: u8,
}

/// The consolidated palette: 256 slots, where slot 0 stays empty, and for
/// each offset 1 to 15 (position 0 is unused) the entries of its shared band.
#[derive(Debug)]
pub struct Palette {
    pub slots: Vec<Option<ColorKey>>,
    pub bands: Vec<Vec<BandEntry>>,
}

pub open spec fn band_has(e: Seq<BandEntry>, c: ColorKey) -> bool {
    exists|j: int| 0 <= j < e.len() && e[j].color == c
}

/// Adds the colours `cs` of one asset to a band; a colour new to the band
/// keeps the asset's local index (its position plus one).
pub open spec fn merge_band(e: Seq<BandEntry>, cs: Seq<ColorKey>) -> Seq<BandEntry>
    decreases cs.len(),
{
    if cs.len() == 0 {
        e
    } else {
        let m = merge_band(e, cs.drop_last());
        if band_has(m, cs.last()) {
            m
        } else {
            m.push(BandEntry { color: cs.last(), index: cs.len() as u8 })
        }
    }
}

/// The shared band of offset `o`: the colours of the assets with that
/// offset, in asset order; the first asset to bring a colour sets its index.
pub open spec fn band_of(files: Seq<FileParameters>, o: int) -> Seq<BandEntry>
    decreases files.len(),
{
    if files.len() == 0 {
        Seq::empty()
    } else {
        let b = band_of(files.drop_last(), o);
        if files.last().palette_offset == Some(o as usize) {
            merge_band(b, files.last().colors@)
        } else {
            b
        }
    }
}

/// What consolidation asks of the assets: an offset lies in 1 to 15 and
/// an asset with one has at most 15 colours; all colours are well formed.
pub open spec fn palette_ready(files: Seq<FileParameters>) -> bool {
    forall|i: int|
        0 <= i < files.len() ==> {
            &&& (#[trigger] files[i]).palette_offset matches Some(o) ==> 1 <= o <= 15
                && files[i].colors@.len() <= 15
            &&& forall|j: int| 0 <= j < files[i].colors@.len() ==> files[i].colors@[j].wf()
        }
}

/// Band entries have an index from 1 to 15 and a well-formed colour.
pub open spec fn entries_ok(e: Seq<BandEntry>) -> bool {
    forall|j: int| 0 <= j < e.len() ==> 1 <= (#[trigger] e[j]).index <= 15 && e[j].color.wf()
}

proof fn lemma_merge_band_ok(e: Seq<BandEntry>, cs: Seq<ColorKey>)
    requires
        entries_ok(e),
        cs.len() <= 15,
        forall|j: int| 0 <= j < cs.len() ==> cs[j].wf(),
    ensures
        entries_ok(merge_band(e, cs)),
    decreases cs.len(),
{
    if cs.len() > 0 {
        lemma_merge_band_ok(e, cs.drop_last());
    }
}

proof fn lemma_band_of_ok(files: Seq<FileParameters>, o: int)
    requires
        palette_ready(files),
    ensures
        entries_ok(band_of(files, o)),
    decreases files.len(),
{
    if files.len() > 0 {
        assert(palette_ready(files.drop_last())) by {
            assert forall|i: int| 0 <= i < files.len() - 1 implies files.drop_last()[i] == files[i] by {}
        }
        lemma_band_of_ok(files.drop_last(), o);
        let f = files.last();
        assert(files[files.len() - 1] == f);
        if f.palette_offset == Some(o as usize) {
            lemma_merge_band_ok(band_of(files.drop_last(), o), f.colors@);
        }
    }
}

fn band_contains(b: &Vec<BandEntry>, c: ColorKey) -> (r: bool)
    ensures
        r == band_has(b@, c),
{
    for k in 0..b.len()
        invariant
            forall|j: int| 0 <= j < k ==> b@[j].color != c,
    {
        if b[k].color == c {
            return true;
        }
    }
    false
}

/// Builds the shared band of offset `o`.
fn build_band(files: &Vec<FileParameters>, o: usize) -> (b: Vec<BandEntry>)
    requires
        palette_ready(files@),
    ensures
        b@ == band_of(files@, o as int),
{
    let mut b: Vec<BandEntry> = Vec::new();
    for i in 0..files.len()
        invariant
            palette_ready(files@),
            b@ == band_of(files@.take(i as int), o as int),
    {
        assert(files@.take(i + 1).drop_last() =~= files@.take(i as int));
        assert(files@.take(i + 1).last() == files@[i as int]);
        if files[i].palette_offset == Some(o) {
            let cs = &files[i].colors;
            let ghost start = b@;
            assert(cs@.take(0) =~= Seq::<ColorKey>::empty());
            for j in 0..cs.len()
                invariant
                    palette_ready(files@),
                    cs@ == files@[i as int].colors@,
                    cs@.len() <= 15,
                    b@ == merge_band(start, cs@.take(j as int)),
            {
                assert(cs@.take(j + 1).drop_last() =~= cs@.take(j as int));
                assert(cs@.take(j + 1).last() == cs@[j as int]);
                if !band_contains(&b, cs[j]) {
                    b.push(BandEntry { color: cs[j], index: (j + 1) as u8 });
                }
            }
            assert(cs@.take(cs@.len() as int) =~= cs@);
        }
    }
    assert(files@.take(files@.len() as int) =~= files@);
    b
}

/// The table before any asset is consolidated: the standard colours at 1 to 15.
pub open spec fn standard_slots() -> Seq<Option<ColorKey>> {
    Seq::new(256, |i: int| if 1 <= i <= 15 { Some(standard_color_spec(i)) } else { None })
}

/// Writes the entries of band `o` into their slots `16 * o + index`; a slot
/// already taken keeps its colour.
pub open spec fn claim(slots: Seq<Option<ColorKey>>, o: int, e: Seq<BandEntry>) -> Seq<Option<ColorKey>>
    decreases e.len(),
{
    if e.len() == 0 {
        slots
    } else {
        let s = claim(slots, o, e.drop_last());
        let idx = 16 * o + e.last().index;
        if s[idx] is None {
            s.update(idx, Some(e.last().color))
        } else {
            s
        }
    }
}

/// The table after the bands of offsets 1 to `o` are written, in ascending offset.
pub open spec fn with_bands(files: Seq<FileParameters>, o: int) -> Seq<Option<ColorKey>>
    decreases o,
{
    if o <= 0 {
        standard_slots()
    } else {
        claim(with_bands(files, o - 1), o, band_of(files, o))
    }
}

/// Whether some slot holds `c`.
pub open spec fn present(slots: Seq<Option<ColorKey>>, c: ColorKey) -> bool {
    exists|i: int| 0 <= i < slots.len() && slots[i] == Some(c)
}

/// The lowest empty slot from `i` on, or 256 where there is none.
pub open spec fn lowest_free(slots: Seq<Option<ColorKey>>, i: int) -> int
    decreases 256 - i,
{
    if i >= 256 {
        256
    } else if slots[i] is None {
        i
    } else {
        lowest_free(slots, i + 1)
    }
}

/// Gives each colour of `cs` that no slot holds yet the lowest empty slot
/// from 16 on, in order; `None` where the slots run out.
pub open spec fn alloc_colors(slots: Seq<Option<ColorKey>>, cs: Seq<ColorKey>) -> Option<Seq<Option<ColorKey>>>
    decreases cs.len(),
{
    if cs.len() == 0 {
        Some(slots)
    } else {
        match alloc_colors(slots, cs.drop_last()) {
            None => None,
            Some(t) => if present(t, cs.last()) {
                Some(t)
            } else if lowest_free(t, 16) < 256 {
                Some(t.update(lowest_free(t, 16), Some(cs.last())))
            } else {
                None
            },
        }
    }
}

/// The colours of the 8-bit assets (those without an offset) allocated in asset order.
pub open spec fn alloc_files(files: Seq<FileParameters>, slots: Seq<Option<ColorKey>>) -> Option<Seq<Option<ColorKey>>>
    decreases files.len(),
{
    if files.len() == 0 {
        Some(slots)
    } else {
        match alloc_files(files.drop_last(), slots) {
            None => None,
            Some(t) => if files.last().palette_offset is None {
                alloc_colors(t, files.last().colors@)
            } else {
                Some(t)
            },
        }
    }
}

/// The finished table for `files`, or `None` where the palette is exhausted.
pub open spec fn palette_slots(files: Seq<FileParameters>) -> Option<Seq<Option<ColorKey>>> {
    alloc_files(files, with_bands(files, 15))
}

proof fn lemma_alloc_colors_fails(slots: Seq<Option<ColorKey>>, cs: Seq<ColorKey>, k: int)
    requires
        0 <= k <= cs.len(),
        alloc_colors(slots, cs.take(k)) is None,
    ensures
        alloc_colors(slots, cs) is None,
    decreases cs.len(),
{
    if k < cs.len() {
        assert(cs.take(k) =~= cs.drop_last().take(k));
        lemma_alloc_colors_fails(slots, cs.drop_last(), k);
    } else {
        assert(cs.take(k) =~= cs);
    }
}

/// Slots hold only well-formed colours.
pub open spec fn slots_ok(slots: Seq<Option<ColorKey>>) -> bool {
    &&& slots.len() == 256
    &&& forall|i: int| 0 <= i < 256 ==> ((#[trigger] slots[i]) matches Some(c) ==> c.wf())
}

fn standard_table() -> (slots: Vec<Option<ColorKey>>)
    ensures
        slots@ == standard_slots(),
        slots_ok(slots@),
{
    let mut slots: Vec<Option<ColorKey>> = Vec::new();
    for i in 0..256usize
        invariant
            slots@.len() == i,
            forall|k: int| 0 <= k < i ==> #[trigger] slots@[k] == standard_slots()[k],
            forall|k: int| 0 <= k < i ==> ((#[trigger] slots@[k]) matches Some(c) ==> c.wf()),
    {
        if 1 <= i && i <= 15 {
            slots.push(Some(standard_color(i)));
        } else {
            slots.push(None);
        }
    }
    assert(slots@ =~= standard_slots());
    slots
}

fn slots_contain(slots: &Vec<Option<ColorKey>>, c: ColorKey) -> (r: bool)
    ensures
        r == present(slots@, c),
{
    for k in 0..slots.len()
        invariant
            forall|j: int| 0 <= j < k ==> slots@[j] != Some(c),
    {
        if slots[k] == Some(c) {
            return true;
        }
    }
    false
}

fn find_free(slots: &Vec<Option<ColorKey>>) -> (r: usize)
    requires
        slots@.len() == 256,
    ensures
        r == lowest_free(slots@, 16),
{
    let mut i: usize = 16;
    while i < 256
        invariant
            16 <= i <= 256,
            slots@.len() == 256,
            lowest_free(slots@, i as int) == lowest_free(slots@, 16),
        decreases 256 - i,
    {
        if slots[i].is_none() {
            return i;
        }
        i = i + 1;
    }
    i
}

proof fn lemma_lowest_free_range(slots: Seq<Option<ColorKey>>, i: int)
    requires
        0 <= i <= 256,
        slots.len() == 256,
    ensures
        i <= lowest_free(slots, i) <= 256,
        lowest_free(slots, i) < 256 ==> slots[lowest_free(slots, i)] is None,
    decreases 256 - i,
{
    if i < 256 && slots[i] is Some {
        lemma_lowest_free_range(slots, i + 1);
    }
}

proof fn lemma_alloc_files_fails(files: Seq<FileParameters>, slots: Seq<Option<ColorKey>>, k: int)
    requires
        0 <= k <= files.len(),
        alloc_files(files.take(k), slots) is None,
    ensures
        alloc_files(files, slots) is None,
    decreases files.len(),
{
    if k < files.len() {
        assert(files.take(k) =~= files.drop_last().take(k));
        lemma_alloc_files_fails(files.drop_last(), slots, k);
    } else {
        assert(files.take(k) =~= files);
    }
}

/// Slot 0 (transparent) is empty and slots 1 to 15 hold the standard colours.
pub open spec fn reserved_kept(slots: Seq<Option<ColorKey>>) -> bool {
    &&& slots.len() == 256
    &&& slots[0] is None
    &&& forall|i: int| 1 <= i <= 15 ==> #[trigger] slots[i] == Some(standard_color_spec(i))
}

/// Every colour of the first `n` assets that have no offset is in the table.
pub open spec fn full_depth_present(files: Seq<FileParameters>, n: int, slots: Seq<Option<ColorKey>>) -> bool {
    forall|i: int, k: int|
        0 <= i < n && files[i].palette_offset is None && 0 <= k < files[i].colors@.len() ==> present(
            slots,
            #[trigger] files[i].colors@[k],
        )
}

proof fn lemma_present_kept(slots: Seq<Option<ColorKey>>, f: int, c: ColorKey)
    requires
        0 <= f < slots.len(),
        slots[f] is None,
    ensures
        forall|x: ColorKey| #[trigger] present(slots, x) ==> present(slots.update(f, Some(c)), x),
        present(slots.update(f, Some(c)), c),
{
    let t = slots.update(f, Some(c));
    assert forall|x: ColorKey| #[trigger] present(slots, x) implies present(t, x) by {
        let w = choose|w: int| 0 <= w < slots.len() && slots[w] == Some(x);
        assert(t[w] == Some(x));
    }
    assert(t[f] == Some(c));
}

/// `p` holds the bands of `files` at positions 1 to 15.
pub open spec fn has_bands_of(p: Palette, files: Seq<FileParameters>) -> bool {
    &&& p.bands@.len() == 16
    &&& forall|o: int| 1 <= o <= 15 ==> (#[trigger] p.bands@[o])@ == band_of(files, o)
}

/// Consolidates the colours of all assets into one palette: the standard
/// colours at 1 to 15, each shared band at `16 * offset + index`, and each
/// colour of an 8-bit asset that no slot holds yet at the lowest free slot
/// from 16 on. Fails, naming the first asset that found no free slot, where
/// the palette runs out.
pub fn build_palette(files: &Vec<FileParameters>) -> (r: Result<Palette, ConvertError>)
    requires
        palette_ready(files@),
    ensures
        r is Ok <==> palette_slots(files@) is Some,
        match r {
            Ok(p) => {
                &&& palette_slots(files@) == Some(p.slots@)
                &&& has_bands_of(p, files@)
                &&& slots_ok(p.slots@)
                &&& reserved_kept(p.slots@)
                &&& full_depth_present(files@, files@.len() as int, p.slots@)
            },
            Err(e) => match e {
                ConvertError::PaletteExhausted { file } => file < files@.len()
                    && alloc_files(files@.take(file as int), with_bands(files@, 15)) is Some
                    && alloc_files(files@.take(file + 1), with_bands(files@, 15)) is None,
                _ => false,
            },
        },
{
    let mut bands: Vec<Vec<BandEntry>> = Vec::new();
    bands.push(Vec::new());
    let mut slots = standard_table();
    for o in 1..16usize
        invariant
            palette_ready(files@),
            bands@.len() == o,
            forall|k: int| 1 <= k < o ==> (#[trigger] bands@[k])@ == band_of(files@, k),
            slots@ == with_bands(files@, o - 1),
            slots_ok(slots@),
            reserved_kept(slots@),
    {
        let b = build_band(files, o);
        proof {
            lemma_band_of_ok(files@, o as int);
        }
        let ghost start = slots@;
        assert(b@.take(0) =~= Seq::<BandEntry>::empty());
        for k in 0..b.len()
            invariant
                1 <= o <= 15,
                entries_ok(b@),
                slots@ == claim(start, o as int, b@.take(k as int)),
                slots_ok(slots@),
                reserved_kept(slots@),
        {
            assert(b@.take(k + 1).drop_last() =~= b@.take(k as int));
            assert(b@.take(k + 1).last() == b@[k as int]);
            let e = b[k];
            let idx = 16 * o + e.index as usize;
            if slots[idx].is_none() {
                slots.set(idx, Some(e.color));
            }
        }
        assert(b@.take(b@.len() as int) =~= b@);
        bands.push(b);
    }
    let ghost base = slots@;
    assert(files@.take(0) =~= Seq::<FileParameters>::empty());
    for i in 0..files.len()
        invariant
            palette_ready(files@),
            base == with_bands(files@, 15),
            alloc_files(files@.take(i as int), base) == Some(slots@),
            slots_ok(slots@),
            reserved_kept(slots@),
            full_depth_present(files@, i as int, slots@),
    {
        assert(files@.take(i + 1).drop_last() =~= files@.take(i as int));
        assert(files@.take(i + 1).last() == files@[i as int]);
        if files[i].palette_offset.is_none() {
            let cs = &files[i].colors;
            let ghost start = slots@;
            assert(cs@.take(0) =~= Seq::<ColorKey>::empty());
            for j in 0..cs.len()
                invariant
                    palette_ready(files@),
                    i < files@.len(),
                    base == with_bands(files@, 15),
                    alloc_files(files@.take(i as int), base) == Some(start),
                    files@[i as int].palette_offset is None,
                    files@.take(i + 1).drop_last() == files@.take(i as int),
                    files@.take(i + 1).last() == files@[i as int],
                    cs@ == files@[i as int].colors@,
                    alloc_colors(start, cs@.take(j as int)) == Some(slots@),
                    slots_ok(slots@),
                    reserved_kept(slots@),
                    full_depth_present(files@, i as int, slots@),
                    forall|k: int| 0 <= k < j ==> present(slots@, #[trigger] cs@[k]),
            {
                assert(cs@.take(j + 1).drop_last() =~= cs@.take(j as int));
                assert(cs@.take(j + 1).last() == cs@[j as int]);
                let c = cs[j];
                if !slots_contain(&slots, c) {
                    let f = find_free(&slots);
                    proof {
                        lemma_lowest_free_range(slots@, 16);
                    }
                    if f >= 256 {
                        proof {
                            lemma_alloc_colors_fails(start, cs@, j + 1);
                            lemma_alloc_files_fails(files@, base, i + 1);
                        }
                        return Err(ConvertError::PaletteExhausted { file: i });
                    }
                    proof {
                        lemma_present_kept(slots@, f as int, c);
                    }
                    slots.set(f, Some(c));
                }
            }
            assert(full_depth_present(files@, i + 1, slots@)) by {
                assert forall|a: int, k: int|
                    0 <= a < i + 1 && files@[a].palette_offset is None && 0 <= k < files@[a].colors@.len()
                        implies present(slots@, #[trigger] files@[a].colors@[k]) by {
                    if a == i {
                        assert(cs@[k] == files@[a].colors@[k]);
                    }
                }
            }
            assert(cs@.take(cs@.len() as int) =~= cs@);
        }
    }
    assert(files@.take(files@.len() as int) =~= files@);
    Ok(Palette { slots, bands })
}

/// The lowest slot from `i` on that holds `c`, or 256 where none does.
pub open spec fn first_slot_of(slots: Seq<Option<ColorKey>>, c: ColorKey, i: int) -> int
    decreases 256 - i,
{
    if i >= 256 {
        256
    } else if slots[i] == Some(c) {
        i
    } else {
        first_slot_of(slots, c, i + 1)
    }
}

/// The canonical index of `c` in the table: the lowest slot holding it, or 0
/// (transparent) where no slot does.
pub open spec fn canonical_index(slots: Seq<Option<ColorKey>>, c: ColorKey) -> u8 {
    let i = first_slot_of(slots, c, 0);
    if i < 256 {
        i as u8
    } else {
        0
    }
}

/// The index of `c` within a band: that of its first entry, or 0 where it has none.
pub open spec fn band_lookup(e: Seq<BandEntry>, c: ColorKey) -> u8
    decreases e.len(),
{
    if e.len() == 0 {
        0
    } else if e[0].color == c {
        e[0].index
    } else {
        band_lookup(e.drop_first(), c)
    }
}

pub fn canonical_index_of(slots: &Vec<Option<ColorKey>>, c: ColorKey) -> (r: u8)
    requires
        slots@.len() == 256,
    ensures
        r == canonical_index(slots@, c),
{
    let mut i: usize = 0;
    while i < 256
        invariant
            i <= 256,
            slots@.len() == 256,
            first_slot_of(slots@, c, i as int) == first_slot_of(slots@, c, 0),
        decreases 256 - i,
    {
        if slots[i] == Some(c) {
            return i as u8;
        }
        i = i + 1;
    }
    0
}

pub fn band_index_of(e: &Vec<BandEntry>, c: ColorKey) -> (r: u8)
    ensures
        r == band_lookup(e@, c),
{
    let mut k: usize = 0;
    assert(e@.skip(0) =~= e@);
    while k < e.len()
        invariant
            k <= e@.len(),
            band_lookup(e@, c) == band_lookup(e@.skip(k as int), c),
        decreases e@.len() - k,
    {
        assert(e@.skip(k as int).drop_first() =~= e@.skip(k + 1));
        if e[k].color == c {
            return e[k].index;
        }
        k = k + 1;
    }
    0
}

/// The two bytes of a palette entry: green and blue nibbles, then red; an
/// empty slot is two zeros.
pub open spec fn entry_bytes(s: Option<ColorKey>) -> Seq<u8> {
    match s {
        Some(c) => seq![(c.g * 16 + c.b) as u8, c.r],
        None => seq![0u8, 0u8],
    }
}

/// The entries of `slots` one after the other.
pub open spec fn table_bytes(slots: Seq<Option<ColorKey>>) -> Seq<u8>
    decreases slots.len(),
{
    if slots.len() == 0 {
        Seq::empty()
    } else {
        table_bytes(slots.drop_last()) + entry_bytes(slots.last())
    }
}

/// The palette file: the two-byte load-address header, then two bytes for each slot.
pub fn palette_bytes(slots: &Vec<Option<ColorKey>>) -> (r: Vec<u8>)
    requires
        slots_ok(slots@),
    ensures
        r@ == seq![0u8, 0u8] + table_bytes(slots@),
        r@.len() == 2 + 2 * 256,
{
    let mut r: Vec<u8> = Vec::new();
    r.push(0);
    r.push(0);
    assert(slots@.take(0) =~= Seq::<Option<ColorKey>>::empty());
    for i in 0..slots.len()
        invariant
            slots_ok(slots@),
            r@ == seq![0u8, 0u8] + table_bytes(slots@.take(i as int)),
            r@.len() == 2 + 2 * i,
    {
        assert(slots@.take(i + 1).drop_last() =~= slots@.take(i as int));
        assert(slots@.take(i + 1).last() == slots@[i as int]);
        match slots[i] {
            Some(c) => {
                r.push(c.g * 16 + c.b);
                r.push(c.r);
            },
            None => {
                r.push(0);
                r.push(0);
            },
        }
        assert(r@ =~= seq![0u8, 0u8] + table_bytes(slots@.take(i + 1)));
    }
    assert(slots@.take(slots@.len() as int) =~= slots@);
    r
}

/// Two lists of assets with the same offsets and colours, position by position.
pub open spec fn same_colors(a: Seq<FileParameters>, b: Seq<FileParameters>) -> bool {
    &&& a.len() == b.len()
    &&& forall|j: int|
        0 <= j < a.len() ==> (#[trigger] a[j]).palette_offset == b[j].palette_offset && a[j].colors@
            == b[j].colors@
}

proof fn lemma_same_colors_drop_last(a: Seq<FileParameters>, b: Seq<FileParameters>)
    requires
        same_colors(a, b),
        a.len() > 0,
    ensures
        same_colors(a.drop_last(), b.drop_last()),
        a.last().palette_offset == b.last().palette_offset,
        a.last().colors@ == b.last().colors@,
{
    assert(a.last() == a[a.len() - 1]);
    assert(b.last() == b[b.len() - 1]);
    assert forall|j: int| 0 <= j < a.len() - 1 implies (#[trigger] a.drop_last()[j]).palette_offset
        == b.drop_last()[j].palette_offset && a.drop_last()[j].colors@ == b.drop_last()[j].colors@ by {
        assert(a.drop_last()[j] == a[j]);
        assert(b.drop_last()[j] == b[j]);
    }
}

proof fn lemma_band_of_same(a: Seq<FileParameters>, b: Seq<FileParameters>, o: int)
    requires
        same_colors(a, b),
    ensures
        band_of(a, o) == band_of(b, o),
    decreases a.len(),
{
    if a.len() > 0 {
        lemma_same_colors_drop_last(a, b);
        lemma_band_of_same(a.drop_last(), b.drop_last(), o);
    }
}

proof fn lemma_alloc_files_same(a: Seq<FileParameters>, b: Seq<FileParameters>, slots: Seq<Option<ColorKey>>)
    requires
        same_colors(a, b),
    ensures
        alloc_files(a, slots) == alloc_files(b, slots),
    decreases a.len(),
{
    if a.len() > 0 {
        lemma_same_colors_drop_last(a, b);
        lemma_alloc_files_same(a.drop_last(), b.drop_last(), slots);
    }
}

proof fn lemma_with_bands_same(a: Seq<FileParameters>, b: Seq<FileParameters>, o: int)
    requires
        same_colors(a, b),
    ensures
        with_bands(a, o) == with_bands(b, o),
    decreases o,
{
    if o > 0 {
        lemma_with_bands_same(a, b, o - 1);
        lemma_band_of_same(a, b, o);
    }
}

/// The palette depends on the assets' offsets and colours alone.
pub proof fn lemma_palette_same_colors(a: Seq<FileParameters>, b: Seq<FileParameters>)
    requires
        same_colors(a, b),
    ensures
        palette_slots(a) == palette_slots(b),
        forall|o: int| band_of(a, o) == band_of(b, o),
{
    lemma_with_bands_same(a, b, 15);
    lemma_alloc_files_same(a, b, with_bands(a, 15));
    assert forall|o: int| band_of(a, o) == band_of(b, o) by {
        lemma_band_of_same(a, b, o);
    }
}

proof fn lemma_first_slot_of(slots: Seq<Option<ColorKey>>, c: ColorKey, i: int, w: int)
    requires
        slots.len() == 256,
        0 <= i <= w < 256,
        slots[w] == Some(c),
    ensures
        i <= first_slot_of(slots, c, i) <= w,
        slots[first_slot_of(slots, c, i)] == Some(c),
    decreases w - i,
{
    if slots[i] != Some(c) {
        lemma_first_slot_of(slots, c, i + 1, w);
    }
}

/// A colour that the table holds has as canonical index a slot holding it.
pub proof fn lemma_canonical_index_holds(slots: Seq<Option<ColorKey>>, c: ColorKey)
    requires
        slots.len() == 256,
        present(slots, c),
    ensures
        slots[canonical_index(slots, c) as int] == Some(c),
{
    let w = choose|w: int| 0 <= w < slots.len() && slots[w] == Some(c);
    lemma_first_slot_of(slots, c, 0, w);
}

/// Every opaque colour of a sequence of pixels is among its first-seen colours.
pub proof fn lemma_first_seen_contains(s: Seq<Option<ColorKey>>, i: int)
    requires
        0 <= i < s.len(),
        s[i] is Some,
    ensures
        first_seen(s).contains(s[i]->Some_0),
    decreases s.len(),
{
    let c = s[i]->Some_0;
    if i < s.len() - 1 {
        lemma_first_seen_contains(s.drop_last(), i);
        let p = first_seen(s.drop_last());
        let j = choose|j: int| 0 <= j < p.len() && p[j] == c;
        if let Some(d) = s.last() {
            if !p.contains(d) {
                assert(p.push(d)[j] == c);
            }
        }
    } else {
        let p = first_seen(s.drop_last());
        if !p.contains(c) {
            assert(p.push(c)[p.len() as int] == c);
        }
    }
}

} // verus!
