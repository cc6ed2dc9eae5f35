//! Big-endian 32-bit words in byte buffers.

use vstd::prelude::*;

verus! {

/// The four bytes of `v`, most significant first.
pub open spec fn be32(v: u32) -> Seq<u8> {
    seq![
        (v / 0x1000000) as u8,
        ((v / 0x10000) % 256) as u8,
        ((v / 0x100) % 256) as u8,
        (v % 256) as u8,
    ]
}

/// The word whose big-endian bytes start at `i` in `s`.
pub open spec fn be32_at(s: Seq<u8>, i: int) -> u32 {
    (s[i] * 0x1000000 + s[i + 1] * 0x10000 + s[i + 2] * 0x100 + s[i + 3]) as u32
}

pub fn write_32(bytes: &mut Vec<u8>, content: u32)
    ensures
        final(bytes)@ == old(bytes)@ + be32(content),
{
    bytes.push((content / 0x1000000) as u8);
    bytes.push(((content / 0x10000) % 256) as u8);
    bytes.push(((content / 0x100) % 256) as u8);
    bytes.push((content % 256) as u8);
    assert(final(bytes)@ =~= old(bytes)@ + be32(content));
}

pub fn read_32(bytes: &[u8], index: usize) -> (v: u32)
    requires
        index + 4 <= bytes@.len(),
    ensures
        v == be32_at(bytes@, index as int),
{
    (bytes[index] as u32) * 0x1000000 + (bytes[index + 1] as u32) * 0x10000
        + (bytes[index + 2] as u32) * 0x100 + (bytes[index + 3] as u32)
}

/// Reading a word back from its four bytes gives the word.
pub proof fn lemma_be32_round_trip(s: Seq<u8>, i: int, v: u32)
    requires
        0 <= i,
        i + 4 <= s.len(),
        s.subrange(i, i + 4) == be32(v),
    ensures
        be32_at(s, i) == v,
{
    assert(s[i] == be32(v)[0] && s[i + 1] == be32(v)[1] && s[i + 2] == be32(v)[2]
        && s[i + 3] == be32(v)[3]) by {
        assert(s.subrange(i, i + 4)[0] == s[i]);
        assert(s.subrange(i, i + 4)[1] == s[i + 1]);
        assert(s.subrange(i, i + 4)[2] == s[i + 2]);
        assert(s.subrange(i, i + 4)[3] == s[i + 3]);
    }
    let (b0, b1, b2, b3) = (s[i] as u32, s[i + 1] as u32, s[i + 2] as u32, s[i + 3] as u32);
    assert(b0 * 0x1000000 + b1 * 0x10000 + b2 * 0x100 + b3 == v) by (bit_vector)
        requires
            b0 == v / 0x1000000,
            b1 == (v / 0x10000) % 256,
            b2 == (v / 0x100) % 256,
            b3 == v % 256,
    ;
}

} // verus!
