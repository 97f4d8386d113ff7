//! Splitting of an asset whose placement straddles the bank boundary of video
//! memory into two sections that can be loaded separately.

use vstd::prelude::*;
use crate::layout::{Arrangement, VRAM_LIMIT};
use crate::params::FileParameters;

verus! {

/// The first address of the second bank of video memory.
pub const VRAM_PAGE_BOUNDARY: usize = 0x10000;

/// A run of an asset's bytes that loads at `first_address..=last_address`;
/// `data` holds the two-byte load-address header and then the bytes.
#[derive(Debug)]
pub struct Section {
    pub first_address: usize,
    pub last_address: usize,
    pub data: Vec<u8>,
}

/// The two placeholder bytes in front of every output stream.
pub open spec fn header() -> Seq<u8> {
    seq![0u8, 0u8]
}

/// Whether `[address, address + size)` holds bytes on both sides of the boundary.
pub open spec fn crosses_boundary(address: int, size: int) -> bool {
    address < VRAM_PAGE_BOUNDARY && address + size > VRAM_PAGE_BOUNDARY
}

/// Whether an asset placed at `address` is emitted in two sections: it
/// straddles the boundary and has bytes of its own.
pub open spec fn needs_split(address: int, f: FileParameters) -> bool {
    crosses_boundary(address, f.size as int) && !f.vapor && !f.no_output
}

/// An encoded asset's byte buffer holds exactly its size.
pub open spec fn binary_complete(f: FileParameters) -> bool {
    !f.vapor && !f.no_output ==> f.binary@.len() == f.size
}

/// `s` is what splitting the asset `f`, placed at `address`, gives.
pub open spec fn is_split_of(s: Option<(Section, Section)>, address: int, f: FileParameters) -> bool {
    let cut = VRAM_PAGE_BOUNDARY - address;
    match s {
        None => !needs_split(address, f),
        Some((lo, hi)) => {
            &&& needs_split(address, f)
            &&& lo.first_address == address
            &&& lo.last_address == VRAM_PAGE_BOUNDARY - 1
            &&& lo.data@ == header() + f.binary@.subrange(0, cut)
            &&& hi.first_address == VRAM_PAGE_BOUNDARY
            &&& hi.last_address == address + f.size - 1
            &&& hi.data@ == header() + f.binary@.subrange(cut, f.size as int)
        },
    }
}

/// The header followed by `bytes[lo..hi]`.
fn with_header(bytes: &Vec<u8>, lo: usize, hi: usize) -> (r: Vec<u8>)
    requires
        lo <= hi <= bytes@.len(),
    ensures
        r@ == header() + bytes@.subrange(lo as int, hi as int),
{
    let mut r: Vec<u8> = Vec::new();
    r.push(0);
    r.push(0);
    for i in lo..hi
        invariant
            hi <= bytes@.len(),
            r@ == header() + bytes@.subrange(lo as int, i as int),
    {
        r.push(bytes[i]);
        assert(bytes@.subrange(lo as int, i + 1) =~= bytes@.subrange(lo as int, i as int).push(bytes@[i as int]));
    }
    r
}

/// The pixel file of an encoded asset: the header, then its bytes.
pub fn output_file_bytes(binary: &Vec<u8>) -> (r: Vec<u8>)
    ensures
        r@ == header() + binary@,
{
    let r = with_header(binary, 0, binary.len());
    assert(binary@.subrange(0, binary@.len() as int) =~= binary@);
    r
}

/// The two sections of an asset placed at `address` whose bytes straddle
/// the boundary, or `None` where it does not or has no bytes.
pub fn check_for_vram_page_crossing(address: usize, img_file: &FileParameters) -> (r: Option<(Section, Section)>)
    requires
        address + img_file.size <= usize::MAX,
        binary_complete(*img_file),
    ensures
        is_split_of(r, address as int, *img_file),
{
    if address < VRAM_PAGE_BOUNDARY && address + img_file.size > VRAM_PAGE_BOUNDARY && !img_file.vapor
        && !img_file.no_output {
        let cut = VRAM_PAGE_BOUNDARY - address;
        let lo = Section {
            first_address: address,
            last_address: VRAM_PAGE_BOUNDARY - 1,
            data: with_header(&img_file.binary, 0, cut),
        };
        let hi = Section {
            first_address: VRAM_PAGE_BOUNDARY,
            last_address: address + img_file.size - 1,
            data: with_header(&img_file.binary, cut, img_file.size),
        };
        Some((lo, hi))
    } else {
        None
    }
}

/// The split of every placement of `arr`, in placement order.
pub fn split_sections(files: &Vec<FileParameters>, arr: &Arrangement) -> (r: Vec<Option<(Section, Section)>>)
    requires
        forall|k: int| 0 <= k < arr.placements@.len() ==> #[trigger] arr.placements@[k].file < files@.len()
            && arr.placements@[k].address + files@[arr.placements@[k].file as int].size <= usize::MAX,
        forall|i: int| 0 <= i < files@.len() ==> binary_complete(#[trigger] files@[i]),
    ensures
        r@.len() == arr.placements@.len(),
        forall|k: int|
            0 <= k < r@.len() ==> is_split_of(
                #[trigger] r@[k],
                arr.placements@[k].address as int,
                files@[arr.placements@[k].file as int],
            ),
{
    let mut r: Vec<Option<(Section, Section)>> = Vec::new();
    for k in 0..arr.placements.len()
        invariant
            forall|k: int| 0 <= k < arr.placements@.len() ==> #[trigger] arr.placements@[k].file < files@.len()
                && arr.placements@[k].address + files@[arr.placements@[k].file as int].size <= usize::MAX,
            forall|i: int| 0 <= i < files@.len() ==> binary_complete(#[trigger] files@[i]),
            r@.len() == k,
            forall|j: int|
                0 <= j < k ==> is_split_of(
                    #[trigger] r@[j],
                    arr.placements@[j].address as int,
                    files@[arr.placements@[j].file as int],
                ),
    {
        let p = arr.placements[k];
        r.push(check_for_vram_page_crossing(p.address, &files[p.file]));
    }
    r
}

/// Whether any of the splits happened, for the closing notice.
pub fn any_split(splits: &Vec<Option<(Section, Section)>>) -> (r: bool)
    ensures
        r == exists|k: int| 0 <= k < splits@.len() && (#[trigger] splits@[k]) is Some,
{
    for k in 0..splits.len()
        invariant
            forall|j: int| 0 <= j < k ==> (#[trigger] splits@[j]) is None,
    {
        if splits[k].is_some() {
            return true;
        }
    }
    false
}

/// Whether the assets, ending at `end_address`, overrun video memory.
pub fn exceeds_capacity(end_address: usize) -> (r: bool)
    ensures
        r == (end_address > VRAM_LIMIT),
{
    end_address > VRAM_LIMIT
}

} // verus!
