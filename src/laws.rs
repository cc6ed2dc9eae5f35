//! Facts about the codec as a whole, proved over the spec functions that the
//! encoder's and decoder's contracts use.

use vstd::prelude::*;
use crate::codec::{
    choose_op, decoded, enc_prefix, encoded, header_at, header_valid, wrapped8, CodecError,
    Header, MAGIC,
};
use crate::operation::{Operation, applied, bytes_of, parse_at, wadd};
use vstd::arithmetic::div_mod::{
    lemma_fundamental_div_mod, lemma_fundamental_div_mod_converse, lemma_mod_multiples_vanish,
};
use crate::pixel::{Pixel, lemma_unpack_packed, packed, slot_of, CACHE_SLOTS};

verus! {

/// Encoding rejects a malformed header or an empty buffer.
pub proof fn lemma_encode_rejects(d: Seq<u8>, h: Header)
    requires
        !header_valid(h) || d.len() == 0,
    ensures
        encoded(d, h) == Err::<Seq<u8>, CodecError>(CodecError::Validation),
{
}

/// Decoding fails on a stream too short for a header, and on a stream whose
/// header carries the tag but malformed fields.
pub proof fn lemma_decode_rejects(d: Seq<u8>)
    requires
        d.len() < 22 || (header_at(d).magic == MAGIC && !header_valid(header_at(d))),
    ensures
        decoded(d) == Err::<(Header, Seq<u8>), CodecError>(CodecError::Validation),
{
}

/// The encoder's cache always has its 64 slots.
pub proof fn lemma_cache_len(pxs: Seq<Pixel>, n: int)
    ensures
        enc_prefix(pxs, n).cache.len() == CACHE_SLOTS,
    decreases n,
{
    if n > 0 {
        lemma_cache_len(pxs, n - 1);
    }
}

/// Once the encoder has seen pixel `k`, the slot it hashes to holds it until a
/// later pixel of the same slot but another colour comes.
pub proof fn lemma_cache_keeps_pixel(pxs: Seq<Pixel>, k: int, j: int)
    requires
        0 <= k < j <= pxs.len(),
        forall|m: int|
            k < m < j ==> slot_of(#[trigger] pxs[m]) != slot_of(pxs[k]) || pxs[m] == pxs[k],
    ensures
        enc_prefix(pxs, j).cache[slot_of(pxs[k])] == pxs[k],
    decreases j,
{
    lemma_cache_len(pxs, j - 1);
    if j > k + 1 {
        lemma_cache_keeps_pixel(pxs, k, j - 1);
        assert(slot_of(pxs[j - 1]) != slot_of(pxs[k]) || pxs[j - 1] == pxs[k]);
    }
}

/// A pixel that comes again, with no pixel of another colour in its slot in
/// between, is written as the index of that slot.
pub proof fn lemma_repeat_is_index(pxs: Seq<Pixel>, k: int, j: int)
    requires
        0 <= k < j < pxs.len(),
        pxs[j] == pxs[k],
        forall|m: int|
            k < m < j ==> slot_of(#[trigger] pxs[m]) != slot_of(pxs[k]) || pxs[m] == pxs[k],
    ensures
        choose_op(enc_prefix(pxs, j).cache, enc_prefix(pxs, j).prev_px, pxs[j])
            == Operation::INDEX(slot_of(pxs[k]) as u8),
{
    reveal(choose_op);
    lemma_cache_keeps_pixel(pxs, k, j);
}

/// A channel delta of -3 or +2 is never written as `DIFF`.
pub proof fn lemma_diff_bounds(cache: Seq<Pixel>, prev: Pixel, px: Pixel)
    requires
        ({
            let vr = wrapped8(px.r - prev.r);
            let vg = wrapped8(px.g - prev.g);
            let vb = wrapped8(px.b - prev.b);
            vr == -3 || vr == 2 || vg == -3 || vg == 2 || vb == -3 || vb == 2
        }),
    ensures
        !(choose_op(cache, prev, px) is DIFF),
{
    reveal(choose_op);
}

/// A green delta of -33 or +32 is never written as `LUMA` (nor as `DIFF`).
pub proof fn lemma_luma_bounds(cache: Seq<Pixel>, prev: Pixel, px: Pixel)
    requires
        wrapped8(px.g - prev.g) == -33 || wrapped8(px.g - prev.g) == 32,
    ensures
        !(choose_op(cache, prev, px) is LUMA),
        !(choose_op(cache, prev, px) is DIFF),
{
    reveal(choose_op);
}

/// A pixel whose alpha differs from the previous one, and that the cache does
/// not hold, is written as `RGBA`, whatever its other channels.
pub proof fn lemma_alpha_change(cache: Seq<Pixel>, prev: Pixel, px: Pixel)
    requires
        px.a != prev.a,
        cache[slot_of(px)] != px,
    ensures
        choose_op(cache, prev, px) == Operation::RGBA(packed(px)),
{
    reveal(choose_op);
}

/// The instructions that the encoder can write and the parser reads back as
/// written: an `RGB` literal must carry an opaque alpha, since the parser
/// supplies that byte.
pub open spec fn well_formed(op: Operation) -> bool {
    match op {
        Operation::NONE => false,
        Operation::RGB(v) => v % 256 == 255,
        Operation::RGBA(_) => true,
        Operation::INDEX(v) => v < 64,
        Operation::DIFF(v) => 64 <= v < 128,
        Operation::LUMA(v) => 0x8000 <= v < 0xc000,
        Operation::RUN(v) => 0xc0 <= v < 0xfe,
    }
}

/// A well-formed instruction is parsed back from its bytes, wherever they stand.
pub proof fn lemma_parse_written(d: Seq<u8>, i: int, op: Operation)
    requires
        well_formed(op),
        0 <= i,
        i + bytes_of(op).len() <= d.len(),
        d.subrange(i, i + bytes_of(op).len()) == bytes_of(op),
    ensures
        parse_at(d, i) == (op, bytes_of(op).len() as usize),
{
    reveal(parse_at);
    let b = bytes_of(op);
    assert forall|j: int| 0 <= j < b.len() implies d[i + j] == b[j] by {
        assert(d.subrange(i, i + b.len())[j] == d[i + j]);
    }
    match op {
        Operation::RGB(v) => {
            assert(d[i] == b[0] && d[i + 1] == b[1] && d[i + 2] == b[2] && d[i + 3] == b[3]);
            let (b0, b1, b2) = (d[i + 1] as u32, d[i + 2] as u32, d[i + 3] as u32);
            assert(b0 * 0x1000000 + b1 * 0x10000 + b2 * 0x100 + 0xff == v) by (bit_vector)
                requires
                    b0 == v / 0x1000000,
                    b1 == (v / 0x10000) % 256,
                    b2 == (v / 0x100) % 256,
                    v % 256 == 255,
            ;
        },
        Operation::RGBA(v) => {
            assert(d[i] == b[0] && d[i + 1] == b[1] && d[i + 2] == b[2] && d[i + 3] == b[3]
                && d[i + 4] == b[4]);
            let (b0, b1, b2, b3) = (d[i + 1] as u32, d[i + 2] as u32, d[i + 3] as u32, d[i
                + 4] as u32);
            assert(b0 * 0x1000000 + b1 * 0x10000 + b2 * 0x100 + b3 == v) by (bit_vector)
                requires
                    b0 == v / 0x1000000,
                    b1 == (v / 0x10000) % 256,
                    b2 == (v / 0x100) % 256,
                    b3 == v % 256,
            ;
        },
        Operation::LUMA(v) => {
            assert(d[i] == b[0] && d[i + 1] == b[1]);
            let (b0, b1) = (d[i] as u16, d[i + 1] as u16);
            assert(b0 * 0x100 + b1 == v) by (bit_vector)
                requires
                    b0 == 0x80 + (v / 0x100) % 0x40,
                    b1 == v % 0x100,
                    0x8000 <= v < 0xc000,
            ;
        },
        _ => {
            assert(d[i] == b[0]);
        },
    }
}

/// The encoder always chooses an instruction.
pub proof fn lemma_choice_not_none(cache: Seq<Pixel>, prev: Pixel, px: Pixel)
    ensures
        !(choose_op(cache, prev, px) is NONE),
        !(choose_op(cache, prev, px) is RUN),
{
    reveal(choose_op);
}

/// What the encoder chooses is well-formed, unless it is an `RGB` literal of a
/// translucent pixel.
pub proof fn lemma_choice_well_formed(cache: Seq<Pixel>, prev: Pixel, px: Pixel)
    requires
        px.a == 255 || !(choose_op(cache, prev, px) is RGB),
    ensures
        well_formed(choose_op(cache, prev, px)),
        !(choose_op(cache, prev, px) is RUN),
{
    reveal(choose_op);
    let (r, g, b, a) = (px.r as u32, px.g as u32, px.b as u32, px.a as u32);
    assert(((r * 0x1000000 + g * 0x10000 + b * 0x100 + a) as u32) % 256 == a) by (bit_vector)
        requires
            r < 256, g < 256, b < 256, a < 256,
    ;
}

proof fn lemma_wrapped8(a: int)
    ensures
        -128 <= wrapped8(a) <= 127,
        wrapped8(a) == a - 256 * ((a + 128) / 256),
{
    lemma_fundamental_div_mod(a + 128, 256);
}

proof fn lemma_wadd_shift(x: u8, y: u8, d: int, q: int)
    requires
        d == y - x + 256 * q,
    ensures
        wadd(x, d) == y,
{
    lemma_mod_multiples_vanish(q, y as int, 256);
}

proof fn lemma_diff_reproduces(prev: Pixel, px: Pixel, v: u8)
    requires
        px.a == prev.a,
        -2 <= wrapped8(px.r - prev.r) <= 1,
        -2 <= wrapped8(px.g - prev.g) <= 1,
        -2 <= wrapped8(px.b - prev.b) <= 1,
        v == 0x40 + (wrapped8(px.r - prev.r) + 2) * 16 + (wrapped8(px.g - prev.g) + 2) * 4 + (
        wrapped8(px.b - prev.b) + 2),
    ensures
        wadd(prev.r, (v / 16) % 4 - 2) == px.r,
        wadd(prev.g, (v / 4) % 4 - 2) == px.g,
        wadd(prev.b, v % 4 - 2) == px.b,
{
    let (vr, vg, vb) = (wrapped8(px.r - prev.r), wrapped8(px.g - prev.g), wrapped8(px.b - prev.b));
    let (x, y, z) = (vr + 2, vg + 2, vb + 2);
    lemma_fundamental_div_mod_converse(v as int, 16, 4 + x, 4 * y + z);
    lemma_fundamental_div_mod_converse(4 + x, 4, 1, x);
    lemma_fundamental_div_mod_converse(v as int, 4, 16 + 4 * x + y, z);
    lemma_fundamental_div_mod_converse(16 + 4 * x + y, 4, 4 + x, y);
    lemma_wrapped8(px.r - prev.r);
    lemma_wrapped8(px.g - prev.g);
    lemma_wrapped8(px.b - prev.b);
    lemma_wadd_shift(prev.r, px.r, vr, -((px.r - prev.r + 128) / 256));
    lemma_wadd_shift(prev.g, px.g, vg, -((px.g - prev.g + 128) / 256));
    lemma_wadd_shift(prev.b, px.b, vb, -((px.b - prev.b + 128) / 256));
}

proof fn lemma_luma_reproduces(prev: Pixel, px: Pixel, v: u16)
    requires
        ({
            let vr = wrapped8(px.r - prev.r);
            let vg = wrapped8(px.g - prev.g);
            let vb = wrapped8(px.b - prev.b);
            let vrg = wrapped8(vr - vg);
            let vbg = wrapped8(vb - vg);
            &&& -8 <= vrg <= 7
            &&& -32 <= vg <= 31
            &&& -8 <= vbg <= 7
            &&& v == 0x8000 + (vg + 32) * 0x100 + (vrg + 8) * 16 + (vbg + 8)
        }),
    ensures
        ({
            let vg = (v / 0x100) % 64 - 32;
            let low = v % 0x100;
            &&& wadd(prev.r, vg - 8 + low / 16) == px.r
            &&& wadd(prev.g, vg) == px.g
            &&& wadd(prev.b, vg - 8 + low % 16) == px.b
        }),
{
    let vr = wrapped8(px.r - prev.r);
    let vg = wrapped8(px.g - prev.g);
    let vb = wrapped8(px.b - prev.b);
    let vrg = wrapped8(vr - vg);
    let vbg = wrapped8(vb - vg);
    let (x, y, z) = (vg + 32, vrg + 8, vbg + 8);
    lemma_fundamental_div_mod_converse(v as int, 0x100, 128 + x, 16 * y + z);
    lemma_fundamental_div_mod_converse(128 + x, 64, 2, x);
    lemma_fundamental_div_mod_converse(16 * y + z, 16, y, z);
    lemma_wrapped8(px.r - prev.r);
    lemma_wrapped8(px.g - prev.g);
    lemma_wrapped8(px.b - prev.b);
    lemma_wrapped8(vr - vg);
    lemma_wrapped8(vb - vg);
    let q0 = (px.r - prev.r + 128) / 256;
    let q1 = (px.g - prev.g + 128) / 256;
    let q2 = (px.b - prev.b + 128) / 256;
    let q3 = (vr - vg + 128) / 256;
    let q4 = (vb - vg + 128) / 256;
    lemma_wadd_shift(prev.r, px.r, vg + vrg, -(q0 + q3));
    lemma_wadd_shift(prev.g, px.g, vg, -q1);
    lemma_wadd_shift(prev.b, px.b, vg + vbg, -(q2 + q4));
}

/// Applying the instruction that the encoder chose for `px`, to the previous
/// pixel and the same cache, gives `px` back.
pub proof fn lemma_choice_reproduces(cache: Seq<Pixel>, prev: Pixel, px: Pixel)
    requires
        cache.len() == CACHE_SLOTS,
    ensures
        applied(choose_op(cache, prev, px), prev, cache) == px,
{
    reveal(choose_op);
    reveal(applied);
    lemma_unpack_packed(px);
    let op = choose_op(cache, prev, px);
    let vr = wrapped8(px.r - prev.r);
    let vg = wrapped8(px.g - prev.g);
    let vb = wrapped8(px.b - prev.b);
    let vrg = wrapped8(vr - vg);
    let vbg = wrapped8(vb - vg);
    lemma_wrapped8(px.r - prev.r);
    lemma_wrapped8(px.g - prev.g);
    lemma_wrapped8(px.b - prev.b);
    lemma_wrapped8(vr - vg);
    lemma_wrapped8(vb - vg);
    match op {
        Operation::DIFF(v) => {
            lemma_diff_reproduces(prev, px, v);
        },
        Operation::LUMA(v) => {
            lemma_luma_reproduces(prev, px, v);
        },
        _ => {},
    }
}

} // verus!
