//! The seven opcode shapes of the compressed stream and their byte layouts.

use vstd::prelude::*;
use crate::bytes::{be32, write_32};
use crate::pixel::{Pixel, unpacked, CACHE_SLOTS};

verus! {

/// One instruction of the stream. Each payload keeps the bits that the
/// instruction writes: the tag bits of the one-byte forms are part of it.
#[allow(non_camel_case_types)]
#[derive(Clone, Copy, Debug, PartialEq, Eq, Structural)]
pub enum Operation {
    /// No instruction could be read.
    NONE,
    /// A literal colour, packed; the low byte is not written.
    RGB(u32),
    /// A literal colour with its alpha, packed.
    RGBA(u32),
    /// A cache slot in the low six bits.
    INDEX(u8),
    /// Tag `01`, then three 2-bit deltas biased by 2.
    DIFF(u8),
    /// Tag `10`, a 6-bit green delta biased by 32, two 4-bit deltas biased by 8.
    LUMA(u16),
    /// Tag `11`, then the run length less one.
    RUN(u8),
}

/// The bytes that an instruction is written as.
pub open spec fn bytes_of(op: Operation) -> Seq<u8> {
    match op {
        Operation::NONE => seq![],
        Operation::RGB(v) => seq![0xfeu8, be32(v)[0], be32(v)[1], be32(v)[2]],
        Operation::RGBA(v) => seq![0xffu8] + be32(v),
        Operation::INDEX(v) => seq![v],
        Operation::DIFF(v) => seq![(0x40 + v % 0x40) as u8],
        Operation::LUMA(v) => seq![(0x80 + (v / 0x100) % 0x40) as u8, (v % 0x100) as u8],
        Operation::RUN(v) => seq![(0xc0 + v % 0x40) as u8],
    }
}

/// The instruction that starts at `i` in `d`, and how many bytes it takes.
/// The tag is read from the first byte; a payload cut short by the end of
/// `d` gives `NONE`, of one byte.
#[verifier::opaque]
pub open spec fn parse_at(d: Seq<u8>, i: int) -> (Operation, usize) {
    let b = d[i];
    if b == 0xfe {
        if i + 3 < d.len() {
            (Operation::RGB((d[i + 1] * 0x1000000 + d[i + 2] * 0x10000 + d[i + 3] * 0x100
                + 0xff) as u32), 4)
        } else {
            (Operation::NONE, 1)
        }
    } else if b == 0xff {
        if i + 4 < d.len() {
            (Operation::RGBA((d[i + 1] * 0x1000000 + d[i + 2] * 0x10000 + d[i + 3] * 0x100
                + d[i + 4]) as u32), 5)
        } else {
            (Operation::NONE, 1)
        }
    } else if b < 0x40 {
        (Operation::INDEX(b), 1)
    } else if b < 0x80 {
        (Operation::DIFF(b), 1)
    } else if b < 0xc0 {
        if i + 1 < d.len() {
            (Operation::LUMA((b * 0x100 + d[i + 1]) as u16), 2)
        } else {
            (Operation::NONE, 1)
        }
    } else {
        (Operation::RUN(b), 1)
    }
}

/// `x + d` with 8-bit wraparound.
pub open spec fn wadd(x: u8, d: int) -> u8 {
    ((x + d) % 256) as u8
}

/// The pixel that an instruction gives, from the previous pixel and the cache.
/// A literal replaces the colour; `RGB` reads the alpha as opaque, from the low
/// byte that the parser fills in. The deltas leave alpha as it was.
#[verifier::opaque]
pub open spec fn applied(op: Operation, px: Pixel, cache: Seq<Pixel>) -> Pixel {
    match op {
        Operation::RGB(v) => unpacked(v),
        Operation::RGBA(v) => unpacked(v),
        Operation::INDEX(v) => cache[(v % 64) as int],
        Operation::DIFF(v) => Pixel {
            r: wadd(px.r, (v / 16) % 4 - 2),
            g: wadd(px.g, (v / 4) % 4 - 2),
            b: wadd(px.b, v % 4 - 2),
            a: px.a,
        },
        Operation::LUMA(v) => {
            let vg = (v / 0x100) % 64 - 32;
            let low = v % 0x100;
            Pixel {
                r: wadd(px.r, vg - 8 + low / 16),
                g: wadd(px.g, vg),
                b: wadd(px.b, vg - 8 + low % 16),
                a: px.a,
            }
        },
        _ => px,
    }
}

fn add8(x: u8, d: i32) -> (y: u8)
    requires
        -256 <= d <= 256,
    ensures
        y == wadd(x, d as int),
{
    ((x as i32 + d + 256) % 256) as u8
}

impl Operation {
    pub fn apply(&self, px: Pixel, cache: &Vec<Pixel>) -> (p: Pixel)
        requires
            cache@.len() == CACHE_SLOTS,
        ensures
            p == applied(*self, px, cache@),
    {
        reveal(applied);
        match *self {
            Operation::RGB(v) => Pixel::from(v),
            Operation::RGBA(v) => Pixel::from(v),
            Operation::INDEX(v) => cache[(v % 64) as usize],
            Operation::DIFF(v) => Pixel {
                r: add8(px.r, ((v / 16) % 4) as i32 - 2),
                g: add8(px.g, ((v / 4) % 4) as i32 - 2),
                b: add8(px.b, (v % 4) as i32 - 2),
                a: px.a,
            },
            Operation::LUMA(v) => {
                let vg: i32 = ((v / 0x100) % 64) as i32 - 32;
                let low: i32 = (v % 0x100) as i32;
                Pixel {
                    r: add8(px.r, vg - 8 + low / 16),
                    g: add8(px.g, vg),
                    b: add8(px.b, vg - 8 + low % 16),
                    a: px.a,
                }
            },
            _ => px,
        }
    }

    pub fn encode(&self) -> (bytes: Vec<u8>)
        ensures
            bytes@ == bytes_of(*self),
    {
        let mut bytes: Vec<u8> = Vec::new();
        match *self {
            Operation::RGB(v) => {
                bytes.push(0xfe);
                bytes.push((v / 0x1000000) as u8);
                bytes.push(((v / 0x10000) % 256) as u8);
                bytes.push(((v / 0x100) % 256) as u8);
            },
            Operation::RGBA(v) => {
                bytes.push(0xff);
                write_32(&mut bytes, v);
            },
            Operation::INDEX(v) => bytes.push(v),
            Operation::DIFF(v) => bytes.push(0x40 + v % 0x40),
            Operation::LUMA(v) => {
                bytes.push((0x80 + (v / 0x100) % 0x40) as u8);
                bytes.push((v % 0x100) as u8);
            },
            Operation::RUN(v) => bytes.push(0xc0 + v % 0x40),
            Operation::NONE => {},
        }
        assert(bytes@ =~= bytes_of(*self));
        bytes
    }

    pub fn decode(data: &[u8], i: usize) -> (r: (Self, usize))
        requires
            i < data@.len(),
        ensures
            r == parse_at(data@, i as int),
            r.1 >= 1,
            r.0 != Operation::NONE ==> i + r.1 <= data@.len(),
            r.0 == Operation::NONE ==> r.1 == 1,
    {
        reveal(parse_at);
        let byte = data[i];
        if byte == 0xfe {
            if data.len() - i > 3 {
                (Operation::RGB((data[i + 1] as u32) * 0x1000000 + (data[i + 2] as u32) * 0x10000
                    + (data[i + 3] as u32) * 0x100 + 0xff), 4)
            } else {
                (Operation::NONE, 1)
            }
        } else if byte == 0xff {
            if data.len() - i > 4 {
                (Operation::RGBA((data[i + 1] as u32) * 0x1000000 + (data[i + 2] as u32)
                    * 0x10000 + (data[i + 3] as u32) * 0x100 + (data[i + 4] as u32)), 5)
            } else {
                (Operation::NONE, 1)
            }
        } else if byte < 0x40 {
            (Operation::INDEX(byte), 1)
        } else if byte < 0x80 {
            (Operation::DIFF(byte), 1)
        } else if byte < 0xc0 {
            if data.len() - i > 1 {
                (Operation::LUMA((byte as u16) * 0x100 + (data[i + 1] as u16)), 2)
            } else {
                (Operation::NONE, 1)
            }
        } else {
            (Operation::RUN(byte), 1)
        }
    }
}

} // verus!
