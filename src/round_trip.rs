//! Decoding what the encoder wrote gives back the header and the buffer, and
//! expanding its runs gives the instruction chosen for each pixel.
//!
//! The proof follows the encoder pixel by pixel. After `k` pixels, `r` of which
//! wait in an unwritten run, the decoder has reproduced the first `k - r`
//! pixels, with the same cache and previous pixel, and stands at the end of the
//! instructions written so far.

use vstd::prelude::*;
use crate::bytes::{be32, lemma_be32_round_trip};
use crate::codec::{
    choose_op, dec_initial, dec_loop, decoded, emitted, enc_prefix, encoded, encoded_ops,
    end_marker, header_at, header_bytes, header_valid, image_size,
    lemma_ops_bytes_push, lemma_pixel_in_bounds, ops_bytes, pixels_of, CodecError,
    DecState, Header, MAGIC,
};
use crate::laws::{
    lemma_cache_len, lemma_choice_not_none, lemma_choice_reproduces, lemma_repeat_is_index, lemma_choice_well_formed, lemma_parse_written,
    well_formed,
};
use crate::operation::{Operation, bytes_of, parse_at};
use crate::pixel::{Pixel, slot_of};
use vstd::arithmetic::div_mod::lemma_fundamental_div_mod_converse;

verus! {

/// The instruction that the encoder chooses for pixel `k`, before run folding.
pub open spec fn raw_op(pxs: Seq<Pixel>, k: int) -> Operation {
    choose_op(enc_prefix(pxs, k).cache, enc_prefix(pxs, k).prev_px, pxs[k])
}

/// No pixel that the encoder writes as an `RGB` literal is translucent: the
/// parser reads such a literal back as opaque.
pub open spec fn literals_opaque(pxs: Seq<Pixel>) -> bool {
    forall|k: int| 0 <= k < pxs.len() ==> pxs[k].a == 255 || !(#[trigger] raw_op(pxs, k) is RGB)
}

/// The decoder's state once it has reproduced the first `m` pixels.
pub open spec fn matched(
    d: Seq<u8>,
    c: int,
    pxs: Seq<Pixel>,
    m: int,
    pos: int,
    run: int,
    op: Operation,
) -> DecState {
    DecState {
        pos,
        run,
        prev_op: op,
        px: enc_prefix(pxs, m).prev_px,
        cache: enc_prefix(pxs, m).cache,
        count: m,
        out: d.take(m * c),
    }
}

pub open spec fn image_of(d: Seq<u8>, c: int, pxs: Seq<Pixel>) -> bool {
    &&& c == 3 || c == 4
    &&& pxs == pixels_of(d, c)
    &&& d.len() == pxs.len() * c
}

proof fn lemma_emit_step(d: Seq<u8>, c: int, pxs: Seq<Pixel>, m: int, pos: int, run: int, op: Operation)
    requires
        image_of(d, c, pxs),
        0 <= m < pxs.len(),
    ensures
        emitted(matched(d, c, pxs, m, pos, run, op), raw_op(pxs, m), c) == matched(
            d,
            c,
            pxs,
            m + 1,
            pos,
            run,
            raw_op(pxs, m),
        ),
{
    let e = enc_prefix(pxs, m);
    lemma_cache_len(pxs, m);
    lemma_choice_reproduces(e.cache, e.prev_px, pxs[m]);
    lemma_pixel_in_bounds(m, pxs.len() as int, c);
    let s = matched(d, c, pxs, m, pos, run, op);
    let t = emitted(s, raw_op(pxs, m), c);
    assert(t.out =~= d.take((m + 1) * c));
}

proof fn lemma_replay(
    bytes: Seq<u8>,
    d: Seq<u8>,
    c: int,
    pxs: Seq<Pixel>,
    m: int,
    run: int,
    pos: int,
    op: Operation,
)
    requires
        image_of(d, c, pxs),
        0 <= m,
        0 <= run,
        m + run <= pxs.len(),
        forall|t: int| m <= t < m + run ==> raw_op(pxs, t) == op,
    ensures
        dec_loop(bytes, c, pxs.len() as int, matched(d, c, pxs, m, pos, run, op)) == dec_loop(
            bytes,
            c,
            pxs.len() as int,
            matched(d, c, pxs, m + run, pos, 0, op),
        ),
    decreases run,
{
    if run > 0 {
        let n = pxs.len() as int;
        let s = matched(d, c, pxs, m, pos, run, op);
        assert(DecState { run: s.run - 1, ..s } == matched(d, c, pxs, m, pos, run - 1, op));
        lemma_emit_step(d, c, pxs, m, pos, run - 1, op);
        assert(raw_op(pxs, m) == op);
        assert(dec_loop(bytes, c, n, s) == dec_loop(
            bytes,
            c,
            n,
            matched(d, c, pxs, m + 1, pos, run - 1, op),
        ));
        lemma_replay(bytes, d, c, pxs, m + 1, run - 1, pos, op);
    }
}

/// What the encoder keeps between pixels: a pending run below 62, made of
/// pixels that all chose the previous instruction.
proof fn lemma_enc_run(pxs: Seq<Pixel>, k: int)
    requires
        0 <= k <= pxs.len(),
    ensures
        0 <= enc_prefix(pxs, k).run < 62,
        enc_prefix(pxs, k).run <= k,
        forall|t: int|
            k - enc_prefix(pxs, k).run <= t < k ==> raw_op(pxs, t) == enc_prefix(pxs, k).prev_op,
        k == pxs.len() ==> enc_prefix(pxs, k).run == 0,
        k == 0 ==> enc_prefix(pxs, k).prev_op == Operation::NONE,
        k > 0 ==> enc_prefix(pxs, k).prev_op == raw_op(pxs, k - 1),
        enc_prefix(pxs, k).run > 0 ==> k - enc_prefix(pxs, k).run >= 1 && raw_op(
            pxs,
            k - enc_prefix(pxs, k).run - 1,
        ) == enc_prefix(pxs, k).prev_op,
    decreases k,
{
    if k > 0 {
        lemma_enc_run(pxs, k - 1);
        let e = enc_prefix(pxs, k - 1);
        lemma_choice_not_none(e.cache, e.prev_px, pxs[k - 1]);
        assert(enc_prefix(pxs, k).prev_op == raw_op(pxs, k - 1));
    }
}

proof fn lemma_ops_prefix(pxs: Seq<Pixel>, k: int, k2: int)
    requires
        0 <= k <= k2,
    ensures
        enc_prefix(pxs, k).ops.len() <= enc_prefix(pxs, k2).ops.len(),
        enc_prefix(pxs, k2).ops.take(enc_prefix(pxs, k).ops.len() as int) == enc_prefix(
            pxs,
            k,
        ).ops,
    decreases k2,
{
    if k2 > k {
        lemma_ops_prefix(pxs, k, k2 - 1);
        let a = enc_prefix(pxs, k).ops;
        let b = enc_prefix(pxs, k2 - 1).ops;
        let c = enc_prefix(pxs, k2).ops;
        assert(c.take(a.len() as int) =~= b.take(a.len() as int));
    } else {
        assert(enc_prefix(pxs, k2).ops.take(enc_prefix(pxs, k).ops.len() as int)
            =~= enc_prefix(pxs, k).ops);
    }
}

proof fn lemma_ops_bytes_prefix(f: Seq<Operation>, n: int)
    requires
        0 <= n <= f.len(),
    ensures
        ops_bytes(f.take(n)).len() <= ops_bytes(f).len(),
        ops_bytes(f).take(ops_bytes(f.take(n)).len() as int) == ops_bytes(f.take(n)),
    decreases f.len(),
{
    if n == f.len() {
        assert(f.take(n) =~= f);
        assert(ops_bytes(f).take(ops_bytes(f).len() as int) =~= ops_bytes(f));
    } else {
        let g = f.drop_last();
        assert(g.take(n) =~= f.take(n));
        lemma_ops_bytes_prefix(g, n);
        let w = ops_bytes(f.take(n));
        assert(ops_bytes(f).take(w.len() as int) =~= ops_bytes(g).take(w.len() as int));
    }
}

/// The instruction `f[n]` is read back at the offset where the bytes of the
/// ones before it end.
proof fn lemma_parse_in_stream(bytes: Seq<u8>, h: Header, f: Seq<Operation>, n: int)
    requires
        bytes == header_bytes(h) + ops_bytes(f) + end_marker(),
        0 <= n < f.len(),
        well_formed(f[n]),
    ensures
        parse_at(bytes, 14 + ops_bytes(f.take(n)).len() as int) == (f[n], bytes_of(f[n]).len() as usize),
        ops_bytes(f.take(n + 1)).len() == ops_bytes(f.take(n)).len() + bytes_of(f[n]).len(),
        14 + ops_bytes(f.take(n + 1)).len() <= bytes.len(),
{
    lemma_ops_bytes_push(f, n);
    lemma_ops_bytes_prefix(f, n + 1);
    let v = ops_bytes(f.take(n));
    let w = ops_bytes(f.take(n + 1));
    let b = bytes_of(f[n]);
    let i = 14 + v.len() as int;
    assert(header_bytes(h).len() == 14);
    assert forall|j: int| 0 <= j < b.len() implies bytes[i + j] == b[j] by {
        assert(ops_bytes(f).take(w.len() as int)[v.len() + j] == w[v.len() + j]);
    }
    assert(bytes.subrange(i, i + b.len()) =~= b);
    lemma_parse_written(bytes, i, f[n]);
}

/// What each case of one encoder step needs.
pub open spec fn step_context(
    bytes: Seq<u8>,
    d: Seq<u8>,
    c: int,
    h: Header,
    pxs: Seq<Pixel>,
    j: int,
) -> bool {
    &&& image_of(d, c, pxs)
    &&& bytes == header_bytes(h) + ops_bytes(encoded_ops(pxs)) + end_marker()
    &&& 0 <= j < pxs.len()
    &&& well_formed(raw_op(pxs, j))
}

/// The decoder state that stands for the encoder after `k` pixels.
#[verifier::opaque]
pub open spec fn stand_in(d: Seq<u8>, c: int, pxs: Seq<Pixel>, k: int) -> DecState {
    matched(
        d,
        c,
        pxs,
        k - enc_prefix(pxs, k).run,
        14 + ops_bytes(enc_prefix(pxs, k).ops).len() as int,
        0,
        enc_prefix(pxs, k).prev_op,
    )
}

proof fn lemma_step_common(bytes: Seq<u8>, d: Seq<u8>, c: int, h: Header, pxs: Seq<Pixel>, j: int)
    requires
        step_context(bytes, d, c, h, pxs, j),
    ensures
        0 <= enc_prefix(pxs, j).run < 62,
        enc_prefix(pxs, j).run <= j,
        forall|t: int|
            j - enc_prefix(pxs, j).run <= t < j ==> raw_op(pxs, t) == enc_prefix(pxs, j).prev_op,
        enc_prefix(pxs, j).ops.len() <= enc_prefix(pxs, j + 1).ops.len(),
        encoded_ops(pxs).take(enc_prefix(pxs, j).ops.len() as int) == enc_prefix(pxs, j).ops,
        encoded_ops(pxs).take(enc_prefix(pxs, j + 1).ops.len() as int) == enc_prefix(
            pxs,
            j + 1,
        ).ops,
        enc_prefix(pxs, j + 1).ops.len() <= encoded_ops(pxs).len(),
{
    let n = pxs.len() as int;
    lemma_enc_run(pxs, j);
    lemma_ops_prefix(pxs, j, n);
    lemma_ops_prefix(pxs, j + 1, n);
    lemma_ops_prefix(pxs, j, j + 1);
}

/// Reading a run of `r` and replaying it reproduces `r` more pixels.
proof fn lemma_read_run(
    bytes: Seq<u8>,
    d: Seq<u8>,
    c: int,
    h: Header,
    pxs: Seq<Pixel>,
    f: Seq<Operation>,
    idx: int,
    m: int,
    p: int,
    r: int,
    op: Operation,
)
    requires
        image_of(d, c, pxs),
        bytes == header_bytes(h) + ops_bytes(f) + end_marker(),
        0 <= idx < f.len(),
        1 <= r <= 62,
        f[idx] == Operation::RUN((0xc0 + r - 1) as u8),
        p == 14 + ops_bytes(f.take(idx)).len(),
        0 <= m,
        m + r <= pxs.len(),
        forall|t: int| m <= t < m + r ==> raw_op(pxs, t) == op,
    ensures
        dec_loop(bytes, c, pxs.len() as int, matched(d, c, pxs, m, p, 0, op)) == dec_loop(
            bytes,
            c,
            pxs.len() as int,
            matched(d, c, pxs, m + r, p + 1, 0, op),
        ),
{
    let n = pxs.len() as int;
    assert(well_formed(f[idx]));
    lemma_parse_in_stream(bytes, h, f, idx);
    let s = matched(d, c, pxs, m, p, 0, op);
    assert(DecState { pos: p + 1, run: r, ..s } == matched(d, c, pxs, m, p + 1, r, op));
    assert(dec_loop(bytes, c, n, s) == dec_loop(
        bytes,
        c,
        n,
        matched(d, c, pxs, m, p + 1, r, op),
    ));
    lemma_replay(bytes, d, c, pxs, m, r, p + 1, op);
}

/// Reading the instruction chosen for pixel `j` and applying it reproduces that pixel.
proof fn lemma_read_op(
    bytes: Seq<u8>,
    d: Seq<u8>,
    c: int,
    h: Header,
    pxs: Seq<Pixel>,
    f: Seq<Operation>,
    idx: int,
    j: int,
    p: int,
    prev: Operation,
)
    requires
        image_of(d, c, pxs),
        bytes == header_bytes(h) + ops_bytes(f) + end_marker(),
        0 <= idx < f.len(),
        0 <= j < pxs.len(),
        f[idx] == raw_op(pxs, j),
        well_formed(raw_op(pxs, j)),
        !(raw_op(pxs, j) is RUN),
        p == 14 + ops_bytes(f.take(idx)).len(),
    ensures
        dec_loop(bytes, c, pxs.len() as int, matched(d, c, pxs, j, p, 0, prev)) == dec_loop(
            bytes,
            c,
            pxs.len() as int,
            matched(d, c, pxs, j + 1, p + bytes_of(f[idx]).len(), 0, raw_op(pxs, j)),
        ),
{
    let n = pxs.len() as int;
    let op = raw_op(pxs, j);
    lemma_parse_in_stream(bytes, h, f, idx);
    let q = p + bytes_of(op).len() as int;
    let s = matched(d, c, pxs, j, p, 0, prev);
    assert(DecState { pos: q, ..s } == matched(d, c, pxs, j, q, 0, prev));
    assert(dec_loop(bytes, c, n, s) == dec_loop(
        bytes,
        c,
        n,
        emitted(matched(d, c, pxs, j, q, 0, prev), op, c),
    ));
    lemma_emit_step(d, c, pxs, j, q, 0, prev);
}

proof fn lemma_step_flush(bytes: Seq<u8>, d: Seq<u8>, c: int, h: Header, pxs: Seq<Pixel>, j: int)
    requires
        step_context(bytes, d, c, h, pxs, j),
        raw_op(pxs, j) == enc_prefix(pxs, j).prev_op,
        enc_prefix(pxs, j).run + 1 == 62 || j + 1 == pxs.len(),
    ensures
        dec_loop(bytes, c, pxs.len() as int, stand_in(d, c, pxs, j)) == dec_loop(
            bytes,
            c,
            pxs.len() as int,
            stand_in(d, c, pxs, j + 1),
        ),
{
    reveal(stand_in);
    lemma_step_common(bytes, d, c, h, pxs, j);
    let e = enc_prefix(pxs, j);
    let e2 = enc_prefix(pxs, j + 1);
    let f = encoded_ops(pxs);
    let r = e.run;
    let len = e.ops.len() as int;
    assert(e2.ops == e.ops.push(Operation::RUN((0xc0 + r) as u8)));
    assert(f[len] == e2.ops[len]);
    lemma_parse_in_stream(bytes, h, f, len);
    lemma_read_run(bytes, d, c, h, pxs, f, len, j - r, 14 + ops_bytes(e.ops).len() as int, r + 1, e.prev_op);
}

proof fn lemma_step_break(bytes: Seq<u8>, d: Seq<u8>, c: int, h: Header, pxs: Seq<Pixel>, j: int)
    requires
        step_context(bytes, d, c, h, pxs, j),
        !(raw_op(pxs, j) is RUN),
        raw_op(pxs, j) != enc_prefix(pxs, j).prev_op,
        enc_prefix(pxs, j).run > 0,
    ensures
        dec_loop(bytes, c, pxs.len() as int, stand_in(d, c, pxs, j)) == dec_loop(
            bytes,
            c,
            pxs.len() as int,
            stand_in(d, c, pxs, j + 1),
        ),
{
    reveal(stand_in);
    lemma_step_common(bytes, d, c, h, pxs, j);
    let e = enc_prefix(pxs, j);
    let e2 = enc_prefix(pxs, j + 1);
    let f = encoded_ops(pxs);
    let r = e.run;
    let op = raw_op(pxs, j);
    let len = e.ops.len() as int;
    let run = Operation::RUN((0xc0 + r - 1) as u8);
    let p = 14 + ops_bytes(e.ops).len() as int;
    assert(e2.ops == e.ops.push(run).push(op));
    assert(f[len] == e2.ops[len]);
    assert(f[len + 1] == e2.ops[len + 1]);
    assert(f.take(len + 2) =~= e2.ops);
    lemma_parse_in_stream(bytes, h, f, len);
    lemma_read_run(bytes, d, c, h, pxs, f, len, j - r, p, r, e.prev_op);
    lemma_read_op(bytes, d, c, h, pxs, f, len + 1, j, p + 1, e.prev_op);
    lemma_parse_in_stream(bytes, h, f, len + 1);
}

proof fn lemma_step_plain(bytes: Seq<u8>, d: Seq<u8>, c: int, h: Header, pxs: Seq<Pixel>, j: int)
    requires
        step_context(bytes, d, c, h, pxs, j),
        !(raw_op(pxs, j) is RUN),
        raw_op(pxs, j) != enc_prefix(pxs, j).prev_op,
        enc_prefix(pxs, j).run == 0,
    ensures
        dec_loop(bytes, c, pxs.len() as int, stand_in(d, c, pxs, j)) == dec_loop(
            bytes,
            c,
            pxs.len() as int,
            stand_in(d, c, pxs, j + 1),
        ),
{
    reveal(stand_in);
    lemma_step_common(bytes, d, c, h, pxs, j);
    let e = enc_prefix(pxs, j);
    let e2 = enc_prefix(pxs, j + 1);
    let f = encoded_ops(pxs);
    let op = raw_op(pxs, j);
    let len = e.ops.len() as int;
    assert(e2.ops == e.ops.push(op));
    assert(f[len] == e2.ops[len]);
    lemma_read_op(bytes, d, c, h, pxs, f, len, j, 14 + ops_bytes(e.ops).len() as int, e.prev_op);
    lemma_parse_in_stream(bytes, h, f, len);
}

proof fn lemma_step_extend(d: Seq<u8>, c: int, pxs: Seq<Pixel>, j: int)
    requires
        0 <= j < pxs.len(),
        raw_op(pxs, j) == enc_prefix(pxs, j).prev_op,
        !(enc_prefix(pxs, j).run + 1 == 62 || j + 1 == pxs.len()),
    ensures
        stand_in(d, c, pxs, j) == stand_in(d, c, pxs, j + 1),
{
    reveal(stand_in);
}

proof fn lemma_raw_op_well_formed(pxs: Seq<Pixel>, j: int)
    requires
        literals_opaque(pxs),
        0 <= j < pxs.len(),
    ensures
        well_formed(raw_op(pxs, j)),
        !(raw_op(pxs, j) is RUN),
{
    let e = enc_prefix(pxs, j);
    lemma_cache_len(pxs, j);
    assert(pxs[j].a == 255 || !(raw_op(pxs, j) is RGB));
    lemma_choice_well_formed(e.cache, e.prev_px, pxs[j]);
}

proof fn lemma_step(bytes: Seq<u8>, d: Seq<u8>, c: int, h: Header, pxs: Seq<Pixel>, j: int)
    requires
        image_of(d, c, pxs),
        literals_opaque(pxs),
        bytes == header_bytes(h) + ops_bytes(encoded_ops(pxs)) + end_marker(),
        0 <= j < pxs.len(),
    ensures
        dec_loop(bytes, c, pxs.len() as int, stand_in(d, c, pxs, j)) == dec_loop(
            bytes,
            c,
            pxs.len() as int,
            stand_in(d, c, pxs, j + 1),
        ),
{
    let e = enc_prefix(pxs, j);
    lemma_raw_op_well_formed(pxs, j);
    lemma_enc_run(pxs, j);
    if raw_op(pxs, j) == e.prev_op {
        if e.run + 1 == 62 || j + 1 == pxs.len() {
            lemma_step_flush(bytes, d, c, h, pxs, j);
        } else {
            lemma_step_extend(d, c, pxs, j);
        }
    } else if e.run > 0 {
        lemma_step_break(bytes, d, c, h, pxs, j);
    } else {
        lemma_step_plain(bytes, d, c, h, pxs, j);
    }
}

proof fn lemma_stream(bytes: Seq<u8>, d: Seq<u8>, c: int, h: Header, pxs: Seq<Pixel>, k: int)
    requires
        image_of(d, c, pxs),
        literals_opaque(pxs),
        bytes == header_bytes(h) + ops_bytes(encoded_ops(pxs)) + end_marker(),
        0 <= k <= pxs.len(),
    ensures
        dec_loop(bytes, c, pxs.len() as int, dec_initial()) == dec_loop(
            bytes,
            c,
            pxs.len() as int,
            stand_in(d, c, pxs, k),
        ),
    decreases k,
{
    if k == 0 {
        reveal(stand_in);
        assert(stand_in(d, c, pxs, 0).out =~= seq![]);
        assert(stand_in(d, c, pxs, 0) == dec_initial());
    } else {
        lemma_stream(bytes, d, c, h, pxs, k - 1);
        lemma_step(bytes, d, c, h, pxs, k - 1);
    }
}

/// Decoding what the encoder wrote gives back the header and the buffer, for a
/// buffer that fills a valid header with the format's tag, unless the encoder
/// writes some translucent pixel as an `RGB` literal, which reads back opaque.
pub proof fn lemma_round_trip(d: Seq<u8>, h: Header)
    requires
        header_valid(h),
        h.magic == MAGIC,
        d.len() == image_size(h),
        d.len() <= usize::MAX,
        literals_opaque(pixels_of(d, h.channels as int)),
    ensures
        encoded(d, h) is Ok,
        decoded(encoded(d, h)->Ok_0) == Ok::<(Header, Seq<u8>), CodecError>((h, d)),
{
    let c = h.channels as int;
    let pxs = pixels_of(d, c);
    let n = h.width * h.height;
    assert(d.len() == n * c) by (nonlinear_arith)
        requires
            d.len() == image_size(h),
            image_size(h) == h.width * h.height * h.channels,
            n == h.width * h.height,
            c == h.channels,
    ;
    assert(n >= 1) by (nonlinear_arith)
        requires
            n == h.width * h.height,
            h.width >= 1,
            h.height >= 1,
    ;
    lemma_fundamental_div_mod_converse(d.len() as int, c, n, 0);
    assert(pxs.len() == n);
    assert(image_of(d, c, pxs));
    let bytes = header_bytes(h) + ops_bytes(encoded_ops(pxs)) + end_marker();
    assert(encoded(d, h) == Ok::<Seq<u8>, CodecError>(bytes));
    assert(bytes.subrange(0, 4) =~= be32(h.magic));
    assert(bytes.subrange(4, 8) =~= be32(h.width));
    assert(bytes.subrange(8, 12) =~= be32(h.height));
    lemma_be32_round_trip(bytes, 0, h.magic);
    lemma_be32_round_trip(bytes, 4, h.width);
    lemma_be32_round_trip(bytes, 8, h.height);
    assert(bytes[12] == h.channels && bytes[13] == h.colorspace);
    assert(header_at(bytes) == h);
    lemma_stream(bytes, d, c, h, pxs, n);
    lemma_enc_run(pxs, n);
    reveal(stand_in);
    assert(d.take(n * c) =~= d);
    assert(dec_loop(bytes, c, n, stand_in(d, c, pxs, n)) == Ok::<Seq<u8>, CodecError>(d));
}

pub open spec fn repeated(op: Operation, n: int) -> Seq<Operation> {
    Seq::new(n as nat, |i: int| op)
}

/// The instructions with each run replaced by as many copies of the
/// instruction before it: one instruction per pixel, as the decoder applies them.
pub open spec fn expanded(ops: Seq<Operation>) -> Seq<Operation>
    decreases ops.len(),
{
    if ops.len() == 0 {
        seq![]
    } else {
        let pre = expanded(ops.drop_last());
        match ops.last() {
            Operation::RUN(v) => pre + repeated(
                if pre.len() > 0 {
                    pre.last()
                } else {
                    Operation::NONE
                },
                (v % 64) as int + 1,
            ),
            op => pre.push(op),
        }
    }
}

/// The instruction chosen for each pixel.
pub open spec fn raw_ops(pxs: Seq<Pixel>) -> Seq<Operation> {
    Seq::new(pxs.len(), |k: int| raw_op(pxs, k))
}

/// The expansion of what the encoder wrote after `k` pixels, followed by the
/// run it still owes, is the instruction chosen for each of those pixels.
pub open spec fn expansion_matches(pxs: Seq<Pixel>, k: int) -> bool {
    expanded(enc_prefix(pxs, k).ops) + repeated(enc_prefix(pxs, k).prev_op, enc_prefix(
        pxs,
        k,
    ).run) == raw_ops(pxs).take(k)
}

proof fn lemma_expansion_last(pxs: Seq<Pixel>, j: int)
    requires
        0 <= j < pxs.len(),
        expansion_matches(pxs, j),
        enc_prefix(pxs, j).run > 0 || raw_op(pxs, j) == enc_prefix(pxs, j).prev_op,
    ensures
        expanded(enc_prefix(pxs, j).ops).len() > 0,
        expanded(enc_prefix(pxs, j).ops).last() == enc_prefix(pxs, j).prev_op,
        expanded(enc_prefix(pxs, j).ops).len() == j - enc_prefix(pxs, j).run,
{
    lemma_enc_run(pxs, j);
    let e = enc_prefix(pxs, j);
    lemma_choice_not_none(e.cache, e.prev_px, pxs[j]);
    let x = expanded(e.ops);
    let r = e.run;
    let raw = raw_ops(pxs);
    assert((x + repeated(e.prev_op, r)).len() == j);
    assert(x[j - r - 1] == (x + repeated(e.prev_op, r))[j - r - 1]);
    assert(raw.take(j)[j - r - 1] == raw_op(pxs, j - r - 1));
}

proof fn lemma_expansion_extend(pxs: Seq<Pixel>, j: int)
    requires
        0 <= j < pxs.len(),
        expansion_matches(pxs, j),
        raw_op(pxs, j) == enc_prefix(pxs, j).prev_op,
        !(enc_prefix(pxs, j).run + 1 == 62 || j + 1 == pxs.len()),
    ensures
        expansion_matches(pxs, j + 1),
{
    lemma_enc_run(pxs, j);
    let e = enc_prefix(pxs, j);
    let raw = raw_ops(pxs);
    let x = expanded(e.ops);
    assert(enc_prefix(pxs, j + 1).ops == e.ops);
    assert(raw.take(j + 1) =~= raw.take(j).push(raw_op(pxs, j)));
    assert(x + repeated(e.prev_op, e.run + 1) =~= (x + repeated(e.prev_op, e.run)).push(
        e.prev_op,
    ));
}

proof fn lemma_expansion_flush(pxs: Seq<Pixel>, j: int)
    requires
        0 <= j < pxs.len(),
        expansion_matches(pxs, j),
        raw_op(pxs, j) == enc_prefix(pxs, j).prev_op,
        enc_prefix(pxs, j).run + 1 == 62 || j + 1 == pxs.len(),
    ensures
        expansion_matches(pxs, j + 1),
{
    lemma_enc_run(pxs, j);
    lemma_expansion_last(pxs, j);
    let e = enc_prefix(pxs, j);
    let e2 = enc_prefix(pxs, j + 1);
    let raw = raw_ops(pxs);
    let x = expanded(e.ops);
    let p = e.prev_op;
    let r = e.run;
    let run = Operation::RUN((0xc0 + r) as u8);
    assert(e2.ops == e.ops.push(run));
    assert(e.ops.push(run).drop_last() =~= e.ops);
    assert(expanded(e2.ops) == x + repeated(p, r + 1));
    assert(raw.take(j + 1) =~= raw.take(j).push(raw_op(pxs, j)));
    assert(x + repeated(p, r + 1) =~= (x + repeated(p, r)).push(p));
    assert(expanded(e2.ops) + repeated(e2.prev_op, 0) =~= expanded(e2.ops));
}

proof fn lemma_expansion_break(pxs: Seq<Pixel>, j: int)
    requires
        0 <= j < pxs.len(),
        expansion_matches(pxs, j),
        raw_op(pxs, j) != enc_prefix(pxs, j).prev_op,
        enc_prefix(pxs, j).run > 0,
    ensures
        expansion_matches(pxs, j + 1),
{
    lemma_enc_run(pxs, j);
    lemma_expansion_last(pxs, j);
    let e = enc_prefix(pxs, j);
    let e2 = enc_prefix(pxs, j + 1);
    let raw = raw_ops(pxs);
    let x = expanded(e.ops);
    let p = e.prev_op;
    let r = e.run;
    let op = raw_op(pxs, j);
    let run = Operation::RUN((0xc0 + r - 1) as u8);
    assert(e2.ops == e.ops.push(run).push(op));
    assert(e.ops.push(run).drop_last() =~= e.ops);
    assert(e.ops.push(run).push(op).drop_last() =~= e.ops.push(run));
    assert(expanded(e.ops.push(run)) == x + repeated(p, r));
    lemma_choice_not_none(e.cache, e.prev_px, pxs[j]);
    assert(expanded(e2.ops) == (x + repeated(p, r)).push(op));
    assert(raw.take(j + 1) =~= raw.take(j).push(op));
    assert(expanded(e2.ops) + repeated(e2.prev_op, 0) =~= expanded(e2.ops));
}

proof fn lemma_expansion_plain(pxs: Seq<Pixel>, j: int)
    requires
        0 <= j < pxs.len(),
        expansion_matches(pxs, j),
        raw_op(pxs, j) != enc_prefix(pxs, j).prev_op,
        enc_prefix(pxs, j).run == 0,
    ensures
        expansion_matches(pxs, j + 1),
{
    let e = enc_prefix(pxs, j);
    let e2 = enc_prefix(pxs, j + 1);
    let raw = raw_ops(pxs);
    let x = expanded(e.ops);
    let op = raw_op(pxs, j);
    lemma_choice_not_none(e.cache, e.prev_px, pxs[j]);
    assert(e2.ops == e.ops.push(op));
    assert(e.ops.push(op).drop_last() =~= e.ops);
    assert(x + repeated(e.prev_op, 0) =~= x);
    assert(raw.take(j + 1) =~= raw.take(j).push(op));
    assert(expanded(e2.ops) + repeated(e2.prev_op, 0) =~= x.push(op));
}

proof fn lemma_expanded_prefix(pxs: Seq<Pixel>, k: int)
    requires
        0 <= k <= pxs.len(),
    ensures
        expansion_matches(pxs, k),
    decreases k,
{
    if k == 0 {
        assert(expanded(enc_prefix(pxs, 0).ops) + repeated(Operation::NONE, 0) =~= raw_ops(
            pxs,
        ).take(0));
    } else {
        let j = k - 1;
        lemma_expanded_prefix(pxs, j);
        lemma_enc_run(pxs, j);
        let e = enc_prefix(pxs, j);
        if raw_op(pxs, j) == e.prev_op {
            if e.run + 1 == 62 || k == pxs.len() {
                lemma_expansion_flush(pxs, j);
            } else {
                lemma_expansion_extend(pxs, j);
            }
        } else if e.run > 0 {
            lemma_expansion_break(pxs, j);
        } else {
            lemma_expansion_plain(pxs, j);
        }
    }
}

/// Expanding every run of the encoder's output gives, pixel by pixel, the
/// instruction chosen for that pixel.
pub proof fn lemma_expanded_ops(pxs: Seq<Pixel>)
    ensures
        expanded(encoded_ops(pxs)) == raw_ops(pxs),
{
    let n = pxs.len() as int;
    lemma_expanded_prefix(pxs, n);
    lemma_enc_run(pxs, n);
    assert(raw_ops(pxs).take(n) =~= raw_ops(pxs));
    assert(expanded(encoded_ops(pxs)) + repeated(enc_prefix(pxs, n).prev_op, 0) =~= expanded(
        encoded_ops(pxs),
    ));
}

/// In the expanded output, a pixel that comes again, with no pixel of another
/// colour in its slot in between, is the index of that slot: the slot still
/// holds it.
pub proof fn lemma_repeat_in_stream(pxs: Seq<Pixel>, k: int, j: int)
    requires
        0 <= k < j < pxs.len(),
        pxs[j] == pxs[k],
        forall|m: int|
            k < m < j ==> slot_of(#[trigger] pxs[m]) != slot_of(pxs[k]) || pxs[m] == pxs[k],
    ensures
        expanded(encoded_ops(pxs))[j] == Operation::INDEX(slot_of(pxs[k]) as u8),
{
    lemma_expanded_ops(pxs);
    lemma_repeat_is_index(pxs, k, j);
}

} // verus!
