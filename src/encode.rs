//! Encoding of an asset's pixels as palette indices packed MSB-first, each
//! output row starting on a byte boundary.

use vstd::prelude::*;
use crate::color::ColorKey;
use crate::palette::{band_index_of, band_lookup, canonical_index, canonical_index_of, valid_bpp, Palette};
use crate::params::FileParameters;
use crate::source::{ConvertError, PixelFormat, SourceImage};

verus! {

/// `m` to the power `n`.
pub open spec fn power(m: nat, n: nat) -> nat
    decreases n,
{
    if n == 0 {
        1
    } else {
        m * power(m, (n - 1) as nat)
    }
}

/// How many pixels share one byte.
pub open spec fn pixels_per_byte(bpp: u8) -> nat {
    (8int / (bpp as int)) as nat
}

/// How many distinct indices one pixel can hold: two to the power `bpp`.
pub open spec fn radix(bpp: u8) -> nat {
    power(2, bpp as nat)
}

/// The bytes that a row of `width` pixels takes.
pub open spec fn row_bytes(width: nat, bpp: u8) -> nat {
    let ppb = pixels_per_byte(bpp);
    width / ppb + if width % ppb == 0 {
        0nat
    } else {
        1nat
    }
}

proof fn lemma_bpp_facts(bpp: u8)
    requires
        valid_bpp(bpp),
    ensures
        power(radix(bpp), pixels_per_byte(bpp)) == 256,
        radix(bpp) >= 2,
        radix(bpp) <= 256,
        pixels_per_byte(bpp) >= 1,
        pixels_per_byte(bpp) <= 8,
{
    reveal_with_fuel(power, 9);
    if bpp == 1 {
        assert(radix(bpp) == 2);
        assert(power(2, 8) == 256);
    } else if bpp == 2 {
        assert(radix(bpp) == 4);
        assert(power(4, 4) == 256);
    } else if bpp == 4 {
        assert(radix(bpp) == 16);
        assert(power(16, 2) == 256);
    } else {
        assert(radix(bpp) == 256);
        assert(power(256, 1) == 256);
    }
}

/// The pixel values of `s` read as the digits, most significant first, of a number in base `m`.
pub open spec fn pack_value(s: Seq<u8>, m: nat) -> nat
    decreases s.len(),
{
    if s.len() == 0 {
        0
    } else {
        (pack_value(s.drop_last(), m) * m + s.last()) as nat
    }
}

/// The `n` pixels of `row` from `start` on, with zero past the end of the row.
pub open spec fn chunk(row: Seq<u8>, start: int, n: nat) -> Seq<u8> {
    Seq::new(n, |j: int| if start + j < row.len() { row[start + j] } else { 0u8 })
}

/// A row of pixel indices packed MSB-first, the last byte padded with zero pixels.
pub open spec fn pack_row(row: Seq<u8>, bpp: u8) -> Seq<u8> {
    let ppb = pixels_per_byte(bpp);
    Seq::new(
        row_bytes(row.len(), bpp),
        |k: int| pack_value(chunk(row, k * ppb, ppb), radix(bpp)) as u8,
    )
}

/// The rows packed one after the other.
pub open spec fn pack_rows(rows: Seq<Seq<u8>>, bpp: u8) -> Seq<u8>
    decreases rows.len(),
{
    if rows.len() == 0 {
        Seq::empty()
    } else {
        pack_rows(rows.drop_last(), bpp) + pack_row(rows.last(), bpp)
    }
}

/// The `n` base-`m` digits of `v`, most significant first.
pub open spec fn unpack_value(v: nat, m: nat, n: nat) -> Seq<u8>
    decreases n,
{
    if n == 0 {
        Seq::empty()
    } else {
        unpack_value(v / m, m, (n - 1) as nat).push((v % m) as u8)
    }
}

/// The first `width` pixel indices of a packed row.
pub open spec fn unpack_row(bytes: Seq<u8>, bpp: u8, width: nat) -> Seq<u8> {
    let ppb = pixels_per_byte(bpp);
    Seq::new(width, |j: int| unpack_value(bytes[j / ppb as int] as nat, radix(bpp), ppb)[j % ppb as int])
}

/// The `height` rows of `width` pixel indices of a packed stream.
pub open spec fn unpack_rows(stream: Seq<u8>, bpp: u8, width: nat, height: nat) -> Seq<Seq<u8>> {
    let rb = row_bytes(width, bpp) as int;
    Seq::new(height, |y: int| unpack_row(stream.subrange(y * rb, y * rb + rb), bpp, width))
}

proof fn lemma_pack_value_bound(s: Seq<u8>, m: nat)
    requires
        m >= 1,
        forall|j: int| 0 <= j < s.len() ==> s[j] < m,
    ensures
        pack_value(s, m) < power(m, s.len()),
    decreases s.len(),
{
    if s.len() > 0 {
        let p = s.drop_last();
        lemma_pack_value_bound(p, m);
        let a = pack_value(p, m);
        let b = power(m, p.len());
        assert(a * m + s.last() < b * m) by (nonlinear_arith)
            requires
                a < b,
                s.last() < m,
        ;
        assert(b * m == m * b) by (nonlinear_arith);
    }
}

proof fn lemma_power_grows(m: nat, j: nat, n: nat)
    requires
        m >= 1,
        j <= n,
    ensures
        power(m, j) <= power(m, n),
    decreases n,
{
    if j < n {
        lemma_power_grows(m, j, (n - 1) as nat);
        let p = power(m, (n - 1) as nat);
        assert(p <= m * p) by (nonlinear_arith)
            requires
                m >= 1,
        ;
    }
}

proof fn lemma_unpack_pack(s: Seq<u8>, m: nat)
    requires
        m >= 1,
        forall|j: int| 0 <= j < s.len() ==> s[j] < m,
    ensures
        unpack_value(pack_value(s, m), m, s.len()) == s,
    decreases s.len(),
{
    if s.len() > 0 {
        let p = s.drop_last();
        lemma_unpack_pack(p, m);
        let a = pack_value(p, m);
        let v: nat = (a * m + s.last()) as nat;
        assert(v as int / m as int == a && v as int % m as int == s.last()) by (nonlinear_arith)
            requires
                v == a * m + s.last(),
                s.last() < m,
                m >= 1,
        ;
        assert(s =~= p.push(s.last()));
    }
}

/// Packing rows of indices and unpacking the stream with the same depth
/// and width gives back every index.
pub proof fn lemma_pack_round_trip(rows: Seq<Seq<u8>>, bpp: u8, width: nat)
    requires
        valid_bpp(bpp),
        forall|y: int| 0 <= y < rows.len() ==> (#[trigger] rows[y]).len() == width,
        forall|y: int, x: int| 0 <= y < rows.len() && 0 <= x < width ==> (#[trigger] rows[y][x]) < radix(bpp),
    ensures
        unpack_rows(pack_rows(rows, bpp), bpp, width, rows.len()) == rows,
{
    lemma_pack_rows_layout(rows, bpp, width);
    let stream = pack_rows(rows, bpp);
    let rb = row_bytes(width, bpp) as int;
    assert forall|y: int| 0 <= y < rows.len() implies #[trigger] unpack_row(
        stream.subrange(y * rb, y * rb + rb),
        bpp,
        width,
    ) == rows[y] by {
        lemma_row_round_trip(rows[y], bpp);
    }
    assert(unpack_rows(stream, bpp, width, rows.len()) =~= rows);
}

/// Where each row's bytes stand in the packed stream.
proof fn lemma_pack_rows_layout(rows: Seq<Seq<u8>>, bpp: u8, width: nat)
    requires
        valid_bpp(bpp),
        forall|y: int| 0 <= y < rows.len() ==> (#[trigger] rows[y]).len() == width,
    ensures
        pack_rows(rows, bpp).len() == rows.len() * row_bytes(width, bpp),
        forall|y: int|
            0 <= y < rows.len() ==> pack_rows(rows, bpp).subrange(
                y * row_bytes(width, bpp),
                y * row_bytes(width, bpp) + row_bytes(width, bpp),
            ) == pack_row(#[trigger] rows[y], bpp),
    decreases rows.len(),
{
    let rb = row_bytes(width, bpp) as int;
    if rows.len() > 0 {
        let p = rows.drop_last();
        lemma_pack_rows_layout(p, bpp, width);
        let n = rows.len() - 1;
        let ps = pack_rows(p, bpp);
        let last = pack_row(rows.last(), bpp);
        assert(rows.len() * rb == n * rb + rb) by (nonlinear_arith)
            requires
                n == rows.len() - 1,
        ;
        assert forall|y: int| 0 <= y < rows.len() implies pack_rows(rows, bpp).subrange(y * rb, y * rb + rb)
            == pack_row(#[trigger] rows[y], bpp) by {
            assert(y * rb + rb <= n * rb + rb) by (nonlinear_arith)
                requires
                    y <= n,
                    rb >= 0,
            ;
            if y < n {
                assert(y * rb + rb <= n * rb) by (nonlinear_arith)
                    requires
                        y < n,
                        rb >= 0,
                ;
                assert(rows[y] == p[y]);
                assert((ps + last).subrange(y * rb, y * rb + rb) =~= ps.subrange(y * rb, y * rb + rb));
            } else {
                assert((ps + last).subrange(y * rb, y * rb + rb) =~= last);
            }
        }
    }
}

proof fn lemma_row_round_trip(row: Seq<u8>, bpp: u8)
    requires
        valid_bpp(bpp),
        forall|x: int| 0 <= x < row.len() ==> #[trigger] row[x] < radix(bpp),
    ensures
        unpack_row(pack_row(row, bpp), bpp, row.len()) == row,
{
    lemma_bpp_facts(bpp);
    let ppb = pixels_per_byte(bpp) as int;
    let m = radix(bpp);
    let packed = pack_row(row, bpp);
    assert forall|j: int| 0 <= j < row.len() implies #[trigger] unpack_row(packed, bpp, row.len())[j] == row[j] by {
        let k = j / ppb;
        let r = j % ppb;
        vstd::arithmetic::div_mod::lemma_fundamental_div_mod(j, ppb);
        assert(0 <= r < ppb);
        assert(0 <= k);
        assert(k * ppb == ppb * k) by (nonlinear_arith);
        lemma_row_bytes_cover(row.len(), bpp, j);
        let c = chunk(row, k * ppb, ppb as nat);
        assert forall|i: int| 0 <= i < c.len() implies c[i] < m by {}
        lemma_pack_value_bound(c, m);
        lemma_power_grows(m, c.len(), ppb as nat);
        lemma_unpack_pack(c, m);
        assert(packed[k] as nat == pack_value(c, m));
        assert(c[r] == row[j]);
    }
    assert(unpack_row(packed, bpp, row.len()) =~= row);
}

/// Pixel `j` of a row lies in one of the row's bytes.
proof fn lemma_row_bytes_cover(width: nat, bpp: u8, j: int)
    requires
        valid_bpp(bpp),
        0 <= j < width,
    ensures
        j / (pixels_per_byte(bpp) as int) < row_bytes(width, bpp),
{
    lemma_bpp_facts(bpp);
    let ppb = pixels_per_byte(bpp) as int;
    vstd::arithmetic::div_mod::lemma_fundamental_div_mod(j, ppb);
    vstd::arithmetic::div_mod::lemma_fundamental_div_mod(width as int, ppb);
    let w = width as int;
    assert(j / ppb <= w / ppb) by (nonlinear_arith)
        requires
            j < w,
            ppb > 0,
            j == ppb * (j / ppb) + j % ppb,
            w == ppb * (w / ppb) + w % ppb,
            0 <= j % ppb < ppb,
            0 <= w % ppb < ppb,
    ;
    if w % ppb == 0 {
        assert(j / ppb < w / ppb) by (nonlinear_arith)
            requires
                j < w,
                ppb > 0,
                j == ppb * (j / ppb) + j % ppb,
                w == ppb * (w / ppb),
                0 <= j % ppb < ppb,
        ;
    }
}

/// Where output position `o` samples the source when an output of
/// `out_len` is centred on a source of `in_len`.
pub open spec fn source_coord(o: int, out_len: int, in_len: int) -> int {
    o - out_len / 2 + in_len / 2
}

/// The key of the source pixel under output pixel `(x, y)`, or none (transparent)
/// where that falls outside the source.
pub open spec fn cell_key(img: SourceImage, f: FileParameters, x: int, y: int) -> Option<ColorKey> {
    let sx = source_coord(x, f.width as int, img.width as int);
    let sy = source_coord(y, f.height as int, img.height as int);
    if 0 <= sx < img.width && 0 <= sy < img.height {
        img.key_at(sy * img.width + sx)
    } else {
        None
    }
}

/// The index that a pixel of the asset `f` is encoded with: 0 where it is
/// transparent, else the colour's index in the asset's band or its canonical
/// index in the table, masked to the asset's bit depth.
pub open spec fn color_index(p: Palette, f: FileParameters, k: Option<ColorKey>) -> u8 {
    match k {
        None => 0,
        Some(c) => {
            let raw = match f.palette_offset {
                Some(o) => band_lookup(p.bands@[o as int]@, c),
                None => canonical_index(p.slots@, c),
            };
            (raw as nat % radix(f.bpp)) as u8
        },
    }
}

/// The asset's output rows of palette indices.
pub open spec fn index_grid(img: SourceImage, f: FileParameters, p: Palette) -> Seq<Seq<u8>> {
    Seq::new(
        f.height as nat,
        |y: int| Seq::new(f.width as nat, |x: int| color_index(p, f, cell_key(img, f, x, y))),
    )
}

/// What encoding asks of the asset and the palette.
pub open spec fn encodable(img: SourceImage, f: FileParameters, p: Palette) -> bool {
    &&& img.wf()
    &&& valid_bpp(f.bpp)
    &&& p.slots@.len() == 256
    &&& p.bands@.len() == 16
    &&& f.palette_offset matches Some(o) ==> 1 <= o <= 15
}

fn radix_of(bpp: u8) -> (m: u32)
    requires
        valid_bpp(bpp),
    ensures
        m == radix(bpp),
        2 <= m <= 256,
{
    reveal_with_fuel(power, 9);
    if bpp == 1 {
        2
    } else if bpp == 2 {
        4
    } else if bpp == 4 {
        16
    } else {
        256
    }
}

/// The bytes that a row of `width` pixels takes at `bpp` bits each.
pub fn row_bytes_of(width: usize, bpp: u8) -> (r: usize)
    requires
        valid_bpp(bpp),
    ensures
        r == row_bytes(width as nat, bpp),
{
    proof {
        lemma_bpp_facts(bpp);
    }
    let ppb: usize = (8 / bpp) as usize;
    let q = width / ppb;
    proof {
        vstd::arithmetic::div_mod::lemma_fundamental_div_mod(width as int, ppb as int);
        if width % ppb != 0 {
            assert(ppb != 1);
            assert(q < width) by (nonlinear_arith)
                requires
                    width == ppb * q + width % ppb,
                    ppb >= 2,
                    q >= 0,
                    width % ppb > 0,
            ;
        }
    }
    if width % ppb == 0 {
        q
    } else {
        q + 1
    }
}

/// Appends a row packed MSB-first to `out`.
fn pack_row_into(out: &mut Vec<u8>, row: &Vec<u8>, bpp: u8)
    requires
        valid_bpp(bpp),
        forall|x: int| 0 <= x < row@.len() ==> #[trigger] row@[x] < radix(bpp),
    ensures
        final(out)@ == old(out)@ + pack_row(row@, bpp),
{
    proof {
        lemma_bpp_facts(bpp);
    }
    let ppb: usize = (8 / bpp) as usize;
    let m = radix_of(bpp);
    let len = row.len();
    let nb = row_bytes_of(len, bpp);
    let ghost start = out@;
    assert(nb == row_bytes(row@.len(), bpp));
    for k in 0..nb
        invariant
            valid_bpp(bpp),
            ppb == pixels_per_byte(bpp),
            m == radix(bpp),
            power(m as nat, ppb as nat) == 256,
            2 <= m <= 256,
            len == row@.len(),
            nb == row_bytes(len as nat, bpp),
            forall|x: int| 0 <= x < row@.len() ==> #[trigger] row@[x] < radix(bpp),
            out@ == start + pack_row(row@, bpp).take(k as int),
    {
        proof {
            vstd::arithmetic::div_mod::lemma_fundamental_div_mod(len as int, ppb as int);
            assert(k * ppb < len) by (nonlinear_arith)
                requires
                    k < nb,
                    nb == len / ppb + if len % ppb == 0 { 0int } else { 1int },
                    len == ppb * (len / ppb) + len % ppb,
                    0 <= len % ppb < ppb,
                    ppb > 0,
            ;
        }
        let base = k * ppb;
        let ghost c = chunk(row@, base as int, ppb as nat);
        let mut acc: u32 = 0;
        assert(c.take(0) =~= Seq::<u8>::empty());
        for j in 0..ppb
            invariant
                valid_bpp(bpp),
                ppb == pixels_per_byte(bpp),
                m == radix(bpp),
                power(m as nat, ppb as nat) == 256,
                2 <= m <= 256,
                base < len == row@.len(),
                c == chunk(row@, base as int, ppb as nat),
                forall|x: int| 0 <= x < row@.len() ==> #[trigger] row@[x] < radix(bpp),
                acc == pack_value(c.take(j as int), m as nat),
                acc < power(m as nat, j as nat),
        {
            let v: u8 = if j < len - base {
                row[base + j]
            } else {
                0
            };
            assert(c.take(j + 1).drop_last() =~= c.take(j as int));
            assert(c.take(j + 1).last() == v);
            proof {
                lemma_power_grows(m as nat, j as nat, ppb as nat);
                lemma_power_grows(m as nat, (j + 1) as nat, ppb as nat);
                let pj = power(m as nat, j as nat);
                assert(acc * m + v < pj * m) by (nonlinear_arith)
                    requires
                        acc < pj,
                        v < m,
                ;
                assert(pj * m == m * pj) by (nonlinear_arith);
                assert(power(m as nat, (j + 1) as nat) == m * pj);
                assert(acc * m <= acc * m + v) by (nonlinear_arith);
            }
            acc = acc * m + v as u32;
        }
        assert(c.take(ppb as int) =~= c);
        out.push(acc as u8);
        assert(pack_row(row@, bpp).take(k + 1) =~= pack_row(row@, bpp).take(k as int).push(acc as u8));
    }
    assert(pack_row(row@, bpp).take(nb as int) =~= pack_row(row@, bpp));
}

/// The key of the source pixel under output pixel `(x, y)`.
fn cell_key_of(img: &SourceImage, f: &FileParameters, x: usize, y: usize) -> (k: Option<ColorKey>)
    requires
        img.wf(),
        img.format != PixelFormat::Other,
    ensures
        k == cell_key(*img, *f, x as int, y as int),
{
    let sx: i128 = x as i128 - (f.width / 2) as i128 + (img.width / 2) as i128;
    let sy: i128 = y as i128 - (f.height / 2) as i128 + (img.height / 2) as i128;
    if 0 <= sx && sx < img.width as i128 && 0 <= sy && sy < img.height as i128 {
        proof {
            let w = img.width as int;
            let h = img.height as int;
            assert(sy * w + sx < h * w) by (nonlinear_arith)
                requires
                    0 <= sx < w,
                    0 <= sy < h,
            ;
            assert(sy * w + sx >= 0) by (nonlinear_arith)
                requires
                    0 <= sx,
                    0 <= sy,
                    w >= 0,
            ;
            assert(sy * w <= sy * w + sx) by (nonlinear_arith)
                requires
                    0 <= sx,
            ;
            assert(h * w == w * h) by (nonlinear_arith);
            assert(h * w == img.pixel_count());
            assert(img.pixel_count() <= img.pixel_count() * img.channels()) by (nonlinear_arith)
                requires
                    img.channels() >= 1,
            ;
            assert(img.data@.len() == img.data.len());
        }
        let i = (sy as u128 * img.width as u128 + sx as u128) as usize;
        img.pixel_key(i)
    } else {
        None
    }
}

fn color_index_of(p: &Palette, f: &FileParameters, k: Option<ColorKey>) -> (r: u8)
    requires
        valid_bpp(f.bpp),
        p.slots@.len() == 256,
        p.bands@.len() == 16,
        f.palette_offset matches Some(o) ==> 1 <= o <= 15,
    ensures
        r == color_index(*p, *f, k),
        (r as nat) < radix(f.bpp),
{
    match k {
        None => {
            proof {
                lemma_bpp_facts(f.bpp);
            }
            0
        },
        Some(c) => {
            let raw = match f.palette_offset {
                Some(o) => band_index_of(&p.bands[o], c),
                None => canonical_index_of(&p.slots, c),
            };
            let m = radix_of(f.bpp);
            (raw as u32 % m) as u8
        },
    }
}

/// The asset's pixels, cropped or padded about the centre to its output
/// size, as palette indices packed `bpp` bits each, MSB-first, one
/// byte-aligned run per row. The load-address header is not included.
pub fn encode_pixels(img: &SourceImage, f: &FileParameters, p: &Palette) -> (r: Result<Vec<u8>, ConvertError>)
    requires
        encodable(*img, *f, *p),
    ensures
        img.format == PixelFormat::Other ==> r == Err::<Vec<u8>, ConvertError>(ConvertError::UnsupportedFormat),
        img.format != PixelFormat::Other ==> (r matches Ok(v) && v@ == pack_rows(index_grid(*img, *f, *p), f.bpp)),
{
    if img.format == PixelFormat::Other {
        return Err(ConvertError::UnsupportedFormat);
    }
    let ghost grid = index_grid(*img, *f, *p);
    let mut out: Vec<u8> = Vec::new();
    assert(grid.take(0) =~= Seq::<Seq<u8>>::empty());
    for y in 0..f.height
        invariant
            encodable(*img, *f, *p),
            img.format != PixelFormat::Other,
            grid == index_grid(*img, *f, *p),
            out@ == pack_rows(grid.take(y as int), f.bpp),
    {
        let mut row: Vec<u8> = Vec::new();
        for x in 0..f.width
            invariant
                encodable(*img, *f, *p),
                img.format != PixelFormat::Other,
                y < f.height,
                grid == index_grid(*img, *f, *p),
                row@ == grid[y as int].take(x as int),
                forall|i: int| 0 <= i < row@.len() ==> #[trigger] row@[i] < radix(f.bpp),
        {
            let k = cell_key_of(img, f, x, y);
            let v = color_index_of(p, f, k);
            row.push(v);
            assert(row@ =~= grid[y as int].take(x + 1));
        }
        assert(row@ =~= grid[y as int]);
        pack_row_into(&mut out, &row, f.bpp);
        assert(grid.take(y + 1).drop_last() =~= grid.take(y as int));
    }
    assert(grid.take(f.height as int) =~= grid);
    Ok(out)
}

/// Every index of an encodable asset fits its bit depth, so decoding the
/// encoded stream gives back the asset's grid of indices.
pub proof fn lemma_encode_round_trip(img: SourceImage, f: FileParameters, p: Palette)
    requires
        encodable(img, f, p),
    ensures
        unpack_rows(pack_rows(index_grid(img, f, p), f.bpp), f.bpp, f.width as nat, f.height as nat)
            == index_grid(img, f, p),
{
    let grid = index_grid(img, f, p);
    lemma_bpp_facts(f.bpp);
    assert forall|y: int, x: int| 0 <= y < grid.len() && 0 <= x < f.width implies (#[trigger] grid[y][x])
        < radix(f.bpp) by {
        let k = cell_key(img, f, x, y);
        if let Some(c) = k {
            let raw = match f.palette_offset {
                Some(o) => band_lookup(p.bands@[o as int]@, c),
                None => canonical_index(p.slots@, c),
            };
            assert((raw as nat % radix(f.bpp)) < radix(f.bpp));
        }
    }
    lemma_pack_round_trip(grid, f.bpp, f.width as nat);
}

} // verus!
