//! Pixels, their packed 32-bit form, and the slot of the history cache that
//! each one hashes to.

use vstd::prelude::*;

verus! {

/// Number of slots in the history cache.
pub const CACHE_SLOTS: usize = 64;

/// A colour of four 8-bit channels.
#[derive(Clone, Copy, Debug, PartialEq, Eq, Structural)]
pub struct Pixel {
    pub r: u8,
    pub g: u8,
    pub b: u8,
    pub a: u8,
}

/// Opaque black: the colour that precedes the first pixel and fills a fresh cache.
pub open spec fn default_pixel() -> Pixel {
    Pixel { r: 0, g: 0, b: 0, a: 255 }
}

/// The cache slot of a pixel. The weighted sum is taken with 8-bit wraparound,
/// which does not change its residue modulo 64.
pub open spec fn slot_of(p: Pixel) -> int {
    (3 * p.r + 5 * p.g + 7 * p.b + 11 * p.a) % 64
}

/// The channels packed big-endian into one word: r in the high byte, a in the low one.
pub open spec fn packed(p: Pixel) -> u32 {
    (p.r * 0x1000000 + p.g * 0x10000 + p.b * 0x100 + p.a) as u32
}

/// The pixel whose packed form is `v`.
pub open spec fn unpacked(v: u32) -> Pixel {
    Pixel {
        r: (v / 0x1000000) as u8,
        g: ((v / 0x10000) % 256) as u8,
        b: ((v / 0x100) % 256) as u8,
        a: (v % 256) as u8,
    }
}

impl Pixel {
    pub fn new() -> (p: Pixel)
        ensures
            p == default_pixel(),
    {
        Pixel { r: 0, g: 0, b: 0, a: 255 }
    }

    pub fn rgba(&self) -> (v: u32)
        ensures
            v == packed(*self),
            v as int == self.r * 0x1000000 + self.g * 0x10000 + self.b * 0x100 + self.a,
    {
        (self.r as u32) * 0x1000000 + (self.g as u32) * 0x10000 + (self.b as u32) * 0x100
            + (self.a as u32)
    }

    pub fn from(content: u32) -> (p: Pixel)
        ensures
            p == unpacked(content),
    {
        Pixel {
            r: (content / 0x1000000) as u8,
            g: ((content / 0x10000) % 256) as u8,
            b: ((content / 0x100) % 256) as u8,
            a: (content % 256) as u8,
        }
    }
}

pub fn pixel_index(p: Pixel) -> (i: usize)
    ensures
        i == slot_of(p),
        i < CACHE_SLOTS,
{
    let sum: u32 = 3 * (p.r as u32) + 5 * (p.g as u32) + 7 * (p.b as u32) + 11 * (p.a as u32);
    (sum % 64) as usize
}

/// Unpacking inverts packing.
pub proof fn lemma_unpack_packed(p: Pixel)
    ensures
        unpacked(packed(p)) == p,
{
    let v = packed(p);
    let (r, g, b, a) = (p.r as u32, p.g as u32, p.b as u32, p.a as u32);
    assert(v == (r << 24 | g << 16 | b << 8 | a)) by (bit_vector)
        requires
            v == (r * 0x1000000 + g * 0x10000 + b * 0x100 + a) as u32,
            r < 256, g < 256, b < 256, a < 256,
    ;
    assert(v / 0x1000000 == r && (v / 0x10000) % 256 == g && (v / 0x100) % 256 == b && v % 256 == a)
        by (bit_vector)
        requires
            v == (r << 24 | g << 16 | b << 8 | a),
            r < 256, g < 256, b < 256, a < 256,
    ;
}

} // verus!
