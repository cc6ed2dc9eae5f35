//! The encoder and the decoder: a flat channel buffer to a byte stream and back.
//!
//! Both are stated as state machines over spec values. The encoder walks the
//! pixels one at a time (`enc_prefix`); the decoder walks the input bytes, one
//! step per instruction read or pixel replayed (`dec_loop`).

use vstd::prelude::*;
use crate::bytes::{be32, be32_at, read_32, write_32};
use crate::operation::{Operation, applied, bytes_of, parse_at};
use crate::pixel::{Pixel, default_pixel, packed, pixel_index, slot_of, CACHE_SLOTS};

verus! {

/// The tag at the start of every stream: the bytes of "qoir".
pub const MAGIC: u32 = 0x716f6972;

/// The fields of the 14-byte header.
#[derive(Clone, Copy, Debug, PartialEq, Eq, Structural)]
pub struct Header {
    pub magic: u32,
    pub width: u32,
    pub height: u32,
    pub channels: u8,
    pub colorspace: u8,
}

/// Why an encode or a decode failed.
#[derive(Clone, Copy, Debug, PartialEq, Eq, Structural)]
pub enum CodecError {
    /// A malformed header, or a buffer that does not match it.
    Validation,
    /// The stream does not start with `MAGIC`.
    MagicMismatch { expected: u32, found: u32 },
    /// An instruction at the cursor could not be read; `byte` is its first byte.
    Parse { byte: u8 },
    /// The stream ended before the image was complete.
    Truncated,
    /// A run reaches past the last pixel of the image.
    Overrun,
}

pub open spec fn header_valid(h: Header) -> bool {
    h.width > 0 && h.height > 0 && (h.channels == 3 || h.channels == 4) && h.colorspace <= 1
}

/// Number of channel bytes of the image that a header describes.
pub open spec fn image_size(h: Header) -> int {
    h.width * h.height * h.channels
}

pub open spec fn header_bytes(h: Header) -> Seq<u8> {
    be32(h.magic) + be32(h.width) + be32(h.height) + seq![h.channels, h.colorspace]
}

/// The sentinel after the last instruction.
pub open spec fn end_marker() -> Seq<u8> {
    seq![0u8, 0, 0, 0, 0, 0, 0, 0, 1]
}

pub open spec fn initial_cache() -> Seq<Pixel> {
    Seq::new(CACHE_SLOTS as nat, |i: int| default_pixel())
}

/// The pixel whose channels start at byte `k * c`; with three channels it is opaque.
pub open spec fn pixel_at(d: Seq<u8>, c: int, k: int) -> Pixel {
    Pixel {
        r: d[k * c],
        g: d[k * c + 1],
        b: d[k * c + 2],
        a: if c == 4 { d[k * c + 3] } else { 255 },
    }
}

pub open spec fn pixels_of(d: Seq<u8>, c: int) -> Seq<Pixel> {
    Seq::new((d.len() as int / c) as nat, |k: int| pixel_at(d, c, k))
}

/// A difference of two channels as a signed 8-bit value, with wraparound.
pub open spec fn wrapped8(x: int) -> int {
    (x + 128) % 256 - 128
}

/// The instruction chosen for `px`, given the cache and the previous pixel, in
/// order of priority: a cache hit, an alpha change, a small delta, a green-based
/// delta, a literal colour.
#[verifier::opaque]
pub open spec fn choose_op(cache: Seq<Pixel>, prev: Pixel, px: Pixel) -> Operation {
    let h = slot_of(px);
    if cache[h] == px {
        Operation::INDEX(h as u8)
    } else if px.a != prev.a {
        Operation::RGBA(packed(px))
    } else {
        let vr = wrapped8(px.r - prev.r);
        let vg = wrapped8(px.g - prev.g);
        let vb = wrapped8(px.b - prev.b);
        let vrg = wrapped8(vr - vg);
        let vbg = wrapped8(vb - vg);
        if -2 <= vr <= 1 && -2 <= vg <= 1 && -2 <= vb <= 1 {
            Operation::DIFF((0x40 + (vr + 2) * 16 + (vg + 2) * 4 + (vb + 2)) as u8)
        } else if -8 <= vrg <= 7 && -32 <= vg <= 31 && -8 <= vbg <= 7 {
            Operation::LUMA((0x8000 + (vg + 32) * 0x100 + (vrg + 8) * 16 + (vbg + 8)) as u16)
        } else {
            Operation::RGB(packed(px))
        }
    }
}

/// The instruction for a run of `run` repeats.
pub open spec fn run_op(run: int) -> Operation {
    Operation::RUN((0xc0 + run - 1) as u8)
}

/// What the encoder has produced after some prefix of the pixels.
pub struct EncState {
    pub cache: Seq<Pixel>,
    pub prev_px: Pixel,
    pub prev_op: Operation,
    /// Repeats of `prev_op` not yet written.
    pub run: int,
    pub ops: Seq<Operation>,
}

/// Appends `op` to the instructions, folding repeats of the previous one into
/// runs of at most 62; the run is flushed at the last pixel.
pub open spec fn folded(
    ops: Seq<Operation>,
    prev_op: Operation,
    run: int,
    op: Operation,
    last: bool,
) -> (Seq<Operation>, int) {
    if op == prev_op {
        if run + 1 == 62 || last {
            (ops.push(run_op(run + 1)), 0)
        } else {
            (ops, run + 1)
        }
    } else if run > 0 {
        (ops.push(run_op(run)).push(op), 0)
    } else {
        (ops.push(op), 0)
    }
}

pub open spec fn enc_step(s: EncState, px: Pixel, last: bool) -> EncState {
    let op = choose_op(s.cache, s.prev_px, px);
    let (ops, run) = folded(s.ops, s.prev_op, s.run, op, last);
    EncState { cache: s.cache.update(slot_of(px), px), prev_px: px, prev_op: op, run, ops }
}

pub open spec fn enc_initial() -> EncState {
    EncState {
        cache: initial_cache(),
        prev_px: default_pixel(),
        prev_op: Operation::NONE,
        run: 0,
        ops: seq![],
    }
}

/// The encoder's state after the first `n` of `pxs`.
pub open spec fn enc_prefix(pxs: Seq<Pixel>, n: int) -> EncState
    decreases n,
{
    if n <= 0 {
        enc_initial()
    } else {
        enc_step(enc_prefix(pxs, n - 1), pxs[n - 1], n == pxs.len())
    }
}

/// The instructions that encode `pxs`.
pub open spec fn encoded_ops(pxs: Seq<Pixel>) -> Seq<Operation> {
    enc_prefix(pxs, pxs.len() as int).ops
}

pub open spec fn ops_bytes(ops: Seq<Operation>) -> Seq<u8>
    decreases ops.len(),
{
    if ops.len() == 0 {
        seq![]
    } else {
        ops_bytes(ops.drop_last()) + bytes_of(ops.last())
    }
}

/// What `encode` returns.
pub open spec fn encoded(d: Seq<u8>, h: Header) -> Result<Seq<u8>, CodecError> {
    if !header_valid(h) || d.len() == 0 || d.len() != image_size(h) {
        Err(CodecError::Validation)
    } else {
        Ok(header_bytes(h) + ops_bytes(encoded_ops(pixels_of(d, h.channels as int)))
            + end_marker())
    }
}

fn wrap8(x: i32) -> (y: i32)
    requires
        -384 <= x <= 384,
    ensures
        y == wrapped8(x as int),
        -128 <= y <= 127,
{
    (x + 384) % 256 - 128
}

/// Picks the instruction for `px`.
pub fn choose_operation(cache: &Vec<Pixel>, prev: Pixel, px: Pixel) -> (op: Operation)
    requires
        cache@.len() == CACHE_SLOTS,
    ensures
        op == choose_op(cache@, prev, px),
{
    reveal(choose_op);
    let h = pixel_index(px);
    if cache[h] == px {
        return Operation::INDEX(h as u8);
    }
    if px.a != prev.a {
        return Operation::RGBA(px.rgba());
    }
    let vr = wrap8(px.r as i32 - prev.r as i32);
    let vg = wrap8(px.g as i32 - prev.g as i32);
    let vb = wrap8(px.b as i32 - prev.b as i32);
    let vrg = wrap8(vr - vg);
    let vbg = wrap8(vb - vg);
    if -2 <= vr && vr <= 1 && -2 <= vg && vg <= 1 && -2 <= vb && vb <= 1 {
        Operation::DIFF((0x40 + (vr + 2) * 16 + (vg + 2) * 4 + (vb + 2)) as u8)
    } else if -8 <= vrg && vrg <= 7 && -32 <= vg && vg <= 31 && -8 <= vbg && vbg <= 7 {
        Operation::LUMA((0x8000 + (vg + 32) * 0x100 + (vrg + 8) * 16 + (vbg + 8)) as u16)
    } else {
        Operation::RGB(px.rgba())
    }
}

fn fresh_cache() -> (cache: Vec<Pixel>)
    ensures
        cache@ == initial_cache(),
{
    let mut cache: Vec<Pixel> = Vec::new();
    while cache.len() < CACHE_SLOTS
        invariant
            cache@.len() <= CACHE_SLOTS,
            forall|j: int| 0 <= j < cache@.len() ==> cache@[j] == default_pixel(),
        decreases CACHE_SLOTS - cache@.len(),
    {
        cache.push(Pixel::new());
    }
    assert(cache@ =~= initial_cache());
    cache
}

pub proof fn lemma_pixel_in_bounds(k: int, n: int, c: int)
    requires
        0 <= k < n,
        c > 0,
    ensures
        k * c + c <= n * c,
        0 <= k * c,
        (k + 1) * c == k * c + c,
{
    assert(k * c + c <= n * c) by (nonlinear_arith)
        requires
            0 <= k < n,
            c > 0,
    ;
    assert(0 <= k * c) by (nonlinear_arith)
        requires
            0 <= k,
            c > 0,
    ;
    assert((k + 1) * c == k * c + c) by (nonlinear_arith);
}

pub proof fn lemma_ops_bytes_push(ops: Seq<Operation>, j: int)
    requires
        0 <= j < ops.len(),
    ensures
        ops_bytes(ops.take(j + 1)) == ops_bytes(ops.take(j)) + bytes_of(ops[j]),
{
    assert(ops.take(j + 1).drop_last() =~= ops.take(j));
}

pub fn encode(data: &[u8], header: Header) -> (r: Result<Vec<u8>, CodecError>)
    ensures
        match r {
            Ok(b) => encoded(data@, header) == Ok::<Seq<u8>, CodecError>(b@),
            Err(e) => encoded(data@, header) == Err::<Seq<u8>, CodecError>(e),
        },
{
    if data.len() == 0 || header.width == 0 || header.height == 0 || header.channels < 3
        || header.channels > 4 || header.colorspace > 1 {
        return Err(CodecError::Validation);
    }
    assert((header.width as int) * (header.height as int) <= 0xffff_ffff_ffff_ffff)
        by (nonlinear_arith)
        requires
            header.width <= 0xffff_ffff,
            header.height <= 0xffff_ffff,
    ;
    let area: u128 = (header.width as u128) * (header.height as u128);
    assert((area as int) * (header.channels as int) <= 4 * 0xffff_ffff_ffff_ffff)
        by (nonlinear_arith)
        requires
            area <= 0xffff_ffff_ffff_ffff,
            header.channels <= 4,
    ;
    let size: u128 = area * (header.channels as u128);
    if size != data.len() as u128 {
        return Err(CodecError::Validation);
    }
    let mut bytes: Vec<u8> = Vec::new();
    write_32(&mut bytes, header.magic);
    write_32(&mut bytes, header.width);
    write_32(&mut bytes, header.height);
    bytes.push(header.channels);
    bytes.push(header.colorspace);
    assert(bytes@ =~= header_bytes(header));

    let channels: usize = header.channels as usize;
    let length: usize = data.len();
    let n: usize = length / channels;
    let ghost pxs = pixels_of(data@, channels as int);
    assert(length == n * channels) by (nonlinear_arith)
        requires
            length as int == (header.width as int) * (header.height as int) * channels,
            n == length / channels,
            channels > 0,
    ;

    let mut ops: Vec<Operation> = Vec::new();
    let mut cache = fresh_cache();
    let mut prev_op = Operation::NONE;
    let mut prev_px = Pixel::new();
    let mut run: u8 = 0;
    let mut i: usize = 0;
    let mut k: usize = 0;
    while k < n
        invariant
            pxs == pixels_of(data@, channels as int),
            pxs.len() == n,
            length == data@.len(),
            length == n * channels,
            channels == 3 || channels == 4,
            channels == header.channels,
            k <= n,
            i == k * channels,
            cache@.len() == CACHE_SLOTS,
            run < 62,
            cache@ == enc_prefix(pxs, k as int).cache,
            prev_px == enc_prefix(pxs, k as int).prev_px,
            prev_op == enc_prefix(pxs, k as int).prev_op,
            run as int == enc_prefix(pxs, k as int).run,
            ops@ == enc_prefix(pxs, k as int).ops,
        decreases n - k,
    {
        proof {
            lemma_pixel_in_bounds(k as int, n as int, channels as int);
        }
        let px = Pixel {
            r: data[i],
            g: data[i + 1],
            b: data[i + 2],
            a: if channels == 4 { data[i + 3] } else { 0xff },
        };
        assert(px == pxs[k as int]);
        let op = choose_operation(&cache, prev_px, px);
        let h = pixel_index(px);
        if cache[h] == px {
            assert(cache@.update(h as int, px) =~= cache@);
        } else {
            cache.set(h, px);
        }
        let last = k + 1 == n;
        if op == prev_op {
            run = run + 1;
            if run == 62 || last {
                ops.push(Operation::RUN(0xc0 + (run - 1)));
                run = 0;
            }
        } else if run > 0 {
            ops.push(Operation::RUN(0xc0 + (run - 1)));
            ops.push(op);
            run = 0;
        } else {
            ops.push(op);
        }
        prev_px = px;
        prev_op = op;
        i = i + channels;
        k = k + 1;
    }

    let mut j: usize = 0;
    while j < ops.len()
        invariant
            j <= ops@.len(),
            bytes@ == header_bytes(header) + ops_bytes(ops@.take(j as int)),
        decreases ops@.len() - j,
    {
        proof {
            lemma_ops_bytes_push(ops@, j as int);
        }
        let mut piece = ops[j].encode();
        bytes.append(&mut piece);
        assert(bytes@ =~= header_bytes(header) + ops_bytes(ops@.take(j + 1)));
        j = j + 1;
    }
    assert(ops@.take(ops@.len() as int) =~= ops@);
    let marker: [u8; 9] = [0, 0, 0, 0, 0, 0, 0, 0, 1];
    let mut t: usize = 0;
    while t < 9
        invariant
            t <= 9,
            bytes@ == header_bytes(header) + ops_bytes(ops@) + end_marker().take(t as int),
            marker@ == end_marker(),
        decreases 9 - t,
    {
        bytes.push(marker[t]);
        assert(end_marker().take(t + 1) =~= end_marker().take(t as int).push(marker@[t as int]));
        assert(bytes@ =~= header_bytes(header) + ops_bytes(ops@) + end_marker().take(t + 1));
        t = t + 1;
    }
    assert(end_marker().take(9) =~= end_marker());
    Ok(bytes)
}

/// `out` followed by the channel bytes of `p`: r, g, b, and a with four channels.
pub open spec fn with_pixel(out: Seq<u8>, p: Pixel, c: int) -> Seq<u8> {
    if c == 4 {
        out.push(p.r).push(p.g).push(p.b).push(p.a)
    } else {
        out.push(p.r).push(p.g).push(p.b)
    }
}

/// Where the decoder stands.
pub struct DecState {
    /// The read cursor.
    pub pos: int,
    /// Replays of `prev_op` still owed.
    pub run: int,
    pub prev_op: Operation,
    pub px: Pixel,
    pub cache: Seq<Pixel>,
    /// Pixels written so far.
    pub count: int,
    pub out: Seq<u8>,
}

pub open spec fn dec_initial() -> DecState {
    DecState {
        pos: 14,
        run: 0,
        prev_op: Operation::NONE,
        px: default_pixel(),
        cache: initial_cache(),
        count: 0,
        out: seq![],
    }
}

/// Applies `op`, stores the pixel in the cache and writes it out.
pub open spec fn emitted(s: DecState, op: Operation, c: int) -> DecState {
    let p = applied(op, s.px, s.cache);
    DecState {
        pos: s.pos,
        run: s.run,
        prev_op: op,
        px: p,
        cache: s.cache.update(slot_of(p), p),
        count: s.count + 1,
        out: with_pixel(s.out, p, c),
    }
}

/// The decoder's result from state `s`: it replays while a run is owed, else
/// reads the next instruction, until `total` pixels are written. A run still
/// owed then overruns the image.
pub open spec fn dec_loop(d: Seq<u8>, c: int, total: int, s: DecState) -> Result<
    Seq<u8>,
    CodecError,
>
    decreases 2 * (total - s.count) + if s.run <= 0 { 1int } else { 0int },
{
    if s.count >= total {
        if s.run > 0 {
            Err(CodecError::Overrun)
        } else {
            Ok(s.out)
        }
    } else if s.run > 0 {
        dec_loop(d, c, total, emitted(DecState { run: s.run - 1, ..s }, s.prev_op, c))
    } else if s.pos < 0 || s.pos >= d.len() {
        Err(CodecError::Truncated)
    } else {
        let (op, n) = parse_at(d, s.pos);
        match op {
            Operation::NONE => Err(CodecError::Parse { byte: d[s.pos] }),
            Operation::RUN(v) => dec_loop(
                d,
                c,
                total,
                DecState { pos: s.pos + n, run: (v % 64) + 1, ..s },
            ),
            _ => dec_loop(d, c, total, emitted(DecState { pos: s.pos + n, ..s }, op, c)),
        }
    }
}

/// The header fields read from the first 14 bytes.
pub open spec fn header_at(d: Seq<u8>) -> Header {
    Header {
        magic: be32_at(d, 0),
        width: be32_at(d, 4),
        height: be32_at(d, 8),
        channels: d[12],
        colorspace: d[13],
    }
}

/// What `decode` returns.
pub open spec fn decoded(d: Seq<u8>) -> Result<(Header, Seq<u8>), CodecError> {
    if d.len() < 22 {
        Err(CodecError::Validation)
    } else {
        let h = header_at(d);
        if h.magic != MAGIC {
            Err(CodecError::MagicMismatch { expected: MAGIC, found: h.magic })
        } else if !header_valid(h) || image_size(h) > usize::MAX {
            Err(CodecError::Validation)
        } else {
            match dec_loop(d, h.channels as int, h.width * h.height, dec_initial()) {
                Ok(out) => Ok((h, out)),
                Err(e) => Err(e),
            }
        }
    }
}

fn emit(
    op: Operation,
    px: &mut Pixel,
    cache: &mut Vec<Pixel>,
    out: &mut Vec<u8>,
    channels: usize,
)
    requires
        old(cache)@.len() == CACHE_SLOTS,
    ensures
        *final(px) == applied(op, *old(px), old(cache)@),
        final(cache)@ == old(cache)@.update(slot_of(*final(px)), *final(px)),
        final(out)@ == with_pixel(old(out)@, *final(px), channels as int),
{
    let p = op.apply(*px, cache);
    *px = p;
    cache.set(pixel_index(p), p);
    out.push(p.r);
    out.push(p.g);
    out.push(p.b);
    if channels == 4 {
        out.push(p.a);
    }
}

pub fn decode(data: &[u8]) -> (r: Result<(Header, Vec<u8>), CodecError>)
    ensures
        match r {
            Ok((h, px)) => decoded(data@) == Ok::<(Header, Seq<u8>), CodecError>((h, px@)),
            Err(e) => decoded(data@) == Err::<(Header, Seq<u8>), CodecError>(e),
        },
{
    if data.len() < 22 {
        return Err(CodecError::Validation);
    }
    let header = Header {
        magic: read_32(data, 0),
        width: read_32(data, 4),
        height: read_32(data, 8),
        channels: data[12],
        colorspace: data[13],
    };
    if header.magic != MAGIC {
        return Err(CodecError::MagicMismatch { expected: MAGIC, found: header.magic });
    }
    if header.width == 0 || header.height == 0 || header.channels < 3 || header.channels > 4
        || header.colorspace > 1 {
        return Err(CodecError::Validation);
    }
    assert((header.width as int) * (header.height as int) <= 0xffff_ffff_ffff_ffff)
        by (nonlinear_arith)
        requires
            header.width <= 0xffff_ffff,
            header.height <= 0xffff_ffff,
    ;
    let area: u128 = (header.width as u128) * (header.height as u128);
    assert((area as int) * (header.channels as int) <= 4 * 0xffff_ffff_ffff_ffff)
        by (nonlinear_arith)
        requires
            area <= 0xffff_ffff_ffff_ffff,
            header.channels <= 4,
    ;
    let size: u128 = area * (header.channels as u128);
    if size > usize::MAX as u128 {
        return Err(CodecError::Validation);
    }
    assert(area <= size) by (nonlinear_arith)
        requires
            size == area * (header.channels as int),
            header.channels >= 3,
    ;
    let n_px = area as usize;
    let channels: usize = header.channels as usize;
    let ghost result = dec_loop(data@, channels as int, n_px as int, dec_initial());
    assert(decoded(data@) == match result {
        Ok(o) => Ok((header, o)),
        Err(e) => Err::<(Header, Seq<u8>), CodecError>(e),
    });

    let mut out: Vec<u8> = Vec::new();
    let mut cache = fresh_cache();
    let mut prev_op = Operation::NONE;
    let mut px = Pixel::new();
    let mut run: u8 = 0;
    let mut i: usize = 14;
    let mut count: usize = 0;
    while count < n_px
        invariant
            cache@.len() == CACHE_SLOTS,
            run <= 64,
            channels == header.channels,
            count <= n_px,
            decoded(data@) == match result {
                Ok(o) => Ok((header, o)),
                Err(e) => Err::<(Header, Seq<u8>), CodecError>(e),
            },
            result == dec_loop(data@, channels as int, n_px as int, dec_initial()),
            dec_loop(
                data@,
                channels as int,
                n_px as int,
                (DecState {
                    pos: i as int,
                    run: run as int,
                    prev_op,
                    px,
                    cache: cache@,
                    count: count as int,
                    out: out@,
                }),
            ) == result,
        decreases 2 * (n_px - count) + if run == 0 { 1int } else { 0int },
    {
        if run > 0 {
            run = run - 1;
            emit(prev_op, &mut px, &mut cache, &mut out, channels);
            count = count + 1;
        } else {
            if i >= data.len() {
                return Err(CodecError::Truncated);
            }
            let (op, off) = Operation::decode(data, i);
            match op {
                Operation::NONE => {
                    return Err(CodecError::Parse { byte: data[i] });
                },
                Operation::RUN(v) => {
                    i = i + off;
                    run = v % 64 + 1;
                },
                _ => {
                    i = i + off;
                    emit(op, &mut px, &mut cache, &mut out, channels);
                    prev_op = op;
                    count = count + 1;
                },
            }
        }
    }
    if run > 0 {
        return Err(CodecError::Overrun);
    }
    Ok((header, out))
}

} // verus!
