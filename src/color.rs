//! Quantisation of 8-bit pixels to 4-bit-per-channel colour keys.

use vstd::prelude::*;

verus! {

/// A colour with 4 bits per channel; each channel holds 0 to 15 once well formed.
#[derive(Clone, Copy, Debug, PartialEq, Eq, Structural, Hash)]
pub struct ColorKey {
    pub r: u8,
    pub g: u8,
    pub b: u8,
}

impl ColorKey {
    pub open spec fn wf(self) -> bool {
        self.r < 16 && self.g < 16 && self.b < 16
    }
}

/// The top four bits of an 8-bit channel.
pub open spec fn nibble(v: u8) -> u8 {
    (v / 16) as u8
}

/// The key of an 8-bit colour: the top four bits of each channel.
pub open spec fn key_of(r: u8, g: u8, b: u8) -> ColorKey {
    ColorKey { r: nibble(r), g: nibble(g), b: nibble(b) }
}

/// A pixel whose alpha nibble is zero is transparent and has no key.
pub open spec fn quantize_spec(r: u8, g: u8, b: u8, a: u8) -> Option<ColorKey> {
    if nibble(a) == 0 {
        None
    } else {
        Some(key_of(r, g, b))
    }
}

/// The 8-bit colour whose top nibbles are the key's channels and whose low nibbles are zero.
pub open spec fn expand(k: ColorKey) -> (u8, u8, u8) {
    ((k.r * 16) as u8, (k.g * 16) as u8, (k.b * 16) as u8)
}

/// Quantises one pixel. A pixel of an image without alpha is given `a == 255`.
pub fn quantize(r: u8, g: u8, b: u8, a: u8) -> (k: Option<ColorKey>)
    ensures
        k == quantize_spec(r, g, b, a),
        k matches Some(c) ==> c.wf(),
{
    if a / 16 == 0 {
        None
    } else {
        Some(ColorKey { r: r / 16, g: g / 16, b: b / 16 })
    }
}

/// Quantising a colour that is already nibble-aligned gives back its key,
/// and a key survives being expanded and quantised again.
pub proof fn lemma_quantize_idempotent(k: ColorKey, r: u8, g: u8, b: u8)
    requires
        k.wf(),
    ensures
        key_of(expand(k).0, expand(k).1, expand(k).2) == k,
        ({
            let q = key_of(r, g, b);
            key_of(expand(q).0, expand(q).1, expand(q).2) == q
        }),
{
}

} // verus!
