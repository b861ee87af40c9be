//! What a plan computes, bit by bit, and that fused projections and parallel
//! heads change nothing in it.
//!
//! The arithmetic is left open: any functions from bits to bits will do. Buffers
//! have no end here; that a plan keeps within the real ones is a property of the
//! plan alone.

use crate::inference_avx512::forward;
use crate::inference_avx512::forward::FfnQuants;
use crate::inference_avx512::plan;
use crate::inference_avx512::plan::{
    AttnQuants, Buf, GqaShape, Mat, NormWeight, Op, Projection, Span, Stage, Strided,
};
use crate::inference_avx512::GgmlType;
use vstd::prelude::*;

verus! {

/// The arithmetic of the operations, on the bits of their operands.
pub struct Arith {
    /// The layer whose caches the buffers hold.
    pub layer: usize,
    /// One row of a projection.
    pub row: spec_fn(Mat, GgmlType, int, Seq<u32>) -> u32,
    pub norm: spec_fn(NormWeight, Seq<u32>) -> Seq<u32>,
    pub rope: spec_fn(Seq<u32>) -> Seq<u32>,
    /// Whether the cache has room for a token of a layer.
    pub keeps: spec_fn(usize, usize) -> bool,
    pub score: spec_fn(Seq<u32>, Seq<u32>) -> u32,
    pub score2: spec_fn(Seq<u32>, Seq<u32>, Seq<u32>, Seq<u32>) -> u32,
    /// `None` where the result is not stable.
    pub softmax: spec_fn(Seq<u32>) -> Option<Seq<u32>>,
    /// The sum so far, with a weighted stretch added.
    pub add_weighted: spec_fn(Seq<u32>, u32, Seq<u32>) -> Seq<u32>,
    pub silu_mul: spec_fn(Seq<u32>, Seq<u32>) -> Seq<u32>,
}

/// `len` elements of a buffer from `start` on.
pub open spec fn get(m: spec_fn(Buf, int) -> u32, b: Buf, start: int, len: int) -> Seq<u32> {
    Seq::new(len as nat, |i: int| m(b, start + i))
}

/// `m` with `v` in the `len` elements from `start` on.
pub open spec fn put(
    m: spec_fn(Buf, int) -> u32,
    b: Buf,
    start: int,
    len: int,
    v: Seq<u32>,
) -> spec_fn(Buf, int) -> u32 {
    |c: Buf, i: int|
        if c == b && start <= i < start + len {
            v[i - start]
        } else {
            m(c, i)
        }
}

pub open spec fn read(m: spec_fn(Buf, int) -> u32, s: Span) -> Seq<u32> {
    get(m, s.buf, s.start as int, s.len as int)
}

pub open spec fn write(m: spec_fn(Buf, int) -> u32, s: Span, v: Seq<u32>) -> spec_fn(
    Buf,
    int,
) -> u32 {
    put(m, s.buf, s.start as int, s.len as int, v)
}

/// Stretch `i` of `s`.
pub open spec fn stretch(m: spec_fn(Buf, int) -> u32, s: Strided, i: int) -> Seq<u32> {
    get(m, s.buf, s.start + i * s.stride, s.len as int)
}

/// The rows of a projection.
pub open spec fn rows(ar: Arith, p: Projection, m: spec_fn(Buf, int) -> u32) -> Seq<u32> {
    let x = read(m, p.x);
    Seq::new(p.out.len as nat, |i: int| (ar.row)(p.w, p.quant, i, x))
}

/// The products of `q` with the stretches of `k`.
pub open spec fn scores(ar: Arith, q: Seq<u32>, m: spec_fn(Buf, int) -> u32, k: Strided) -> Seq<
    u32,
> {
    Seq::new(k.count as nat, |i: int| (ar.score)(q, stretch(m, k, i)))
}

/// `acc` with the first `n` stretches of `v` added, each with its weight.
pub open spec fn weighted_sum(
    ar: Arith,
    acc: Seq<u32>,
    weights: Seq<u32>,
    m: spec_fn(Buf, int) -> u32,
    v: Strided,
    n: nat,
) -> Seq<u32>
    decreases n,
{
    if n == 0 {
        acc
    } else {
        (ar.add_weighted)(
            weighted_sum(ar, acc, weights, m, v, (n - 1) as nat),
            weights[n - 1],
            stretch(m, v, n - 1),
        )
    }
}

pub open spec fn zeros(n: int) -> Seq<u32> {
    Seq::new(n as nat, |i: int| 0u32)
}

/// The buffers after `op`; `None` where it fails. A fused dispatch reads its
/// input before any of its rows is written. What is kept for another layer does not
/// show in these buffers.
pub open spec fn run_op(ar: Arith, op: Op, m: spec_fn(Buf, int) -> u32) -> Option<
    spec_fn(Buf, int) -> u32,
> {
    match op {
        Op::Trace { stage, at } => Some(m),
        Op::Linear(p) => if p.quant.has_kernel() {
            Some(write(m, p.out, rows(ar, p, m)))
        } else {
            None
        },
        Op::Fused2(p, q) => if p.quant.has_kernel() && q.quant.has_kernel() {
            Some(write(write(m, p.out, rows(ar, p, m)), q.out, rows(ar, q, m)))
        } else {
            None
        },
        Op::Fused3(p, q, r) => if p.quant.has_kernel() && q.quant.has_kernel()
            && r.quant.has_kernel() {
            Some(
                write(
                    write(write(m, p.out, rows(ar, p, m)), q.out, rows(ar, q, m)),
                    r.out,
                    rows(ar, r, m),
                ),
            )
        } else {
            None
        },
        Op::RmsNorm { x, w, out } => Some(write(m, out, (ar.norm)(w, read(m, x)))),
        Op::Rope { at } => Some(write(m, at, (ar.rope)(read(m, at)))),
        Op::StoreKv { layer, token, k, v } => if !(ar.keeps)(layer, token) {
            None
        } else if layer != ar.layer {
            Some(m)
        } else {
            let kept = put(m, Buf::KCache, token * k.len, k.len as int, read(m, k));
            Some(put(kept, Buf::VCache, token * v.len, v.len as int, read(m, v)))
        },
        Op::StoreCompressed { layer, token, c, rope } => if !(ar.keeps)(layer, token) {
            None
        } else if layer != ar.layer {
            Some(m)
        } else {
            let kept = put(m, Buf::CKvCache, token * c.len, c.len as int, read(m, c));
            Some(put(kept, Buf::KRopeCache, token * rope.len, rope.len as int, read(m, rope)))
        },
        Op::Scores { q, k, out } => Some(write(m, out, scores(ar, read(m, q), m, k))),
        Op::Score2 { q0, k0, q1, k1, out } => Some(
            write(m, out, seq![(ar.score2)(read(m, q0), read(m, k0), read(m, q1), read(m, k1))]),
        ),
        Op::Softmax { at } => match (ar.softmax)(read(m, at)) {
            Some(p) => Some(write(m, at, p)),
            None => None,
        },
        Op::Zero { at } => Some(write(m, at, zeros(at.len as int))),
        Op::WeightedSum { weights, v, out } => Some(
            write(
                m,
                out,
                weighted_sum(ar, read(m, out), read(m, weights), m, v, v.count as nat),
            ),
        ),
        Op::Copy { from, to } => Some(write(m, to, read(m, from))),
        Op::SiluMul { gate, up, out } => Some(
            write(m, out, (ar.silu_mul)(read(m, gate), read(m, up))),
        ),
    }
}

/// The buffers after the operations in order; `None` where one fails.
pub open spec fn run(ar: Arith, ops: Seq<Op>, m: spec_fn(Buf, int) -> u32) -> Option<
    spec_fn(Buf, int) -> u32,
>
    decreases ops.len(),
{
    if ops.len() == 0 {
        Some(m)
    } else {
        match run(ar, ops.drop_last(), m) {
            Some(before) => run_op(ar, ops.last(), before),
            None => None,
        }
    }
}

/// A list of operations runs as its two parts do, one after the other.
pub proof fn lemma_run_concat(ar: Arith, a: Seq<Op>, b: Seq<Op>, m: spec_fn(Buf, int) -> u32)
    ensures
        run(ar, a + b, m) == match run(ar, a, m) {
            Some(between) => run(ar, b, between),
            None => None,
        },
    decreases b.len(),
{
    if b.len() == 0 {
        assert(a + b =~= a);
    } else {
        lemma_run_concat(ar, a, b.drop_last(), m);
        assert((a + b).drop_last() =~= a + b.drop_last());
        assert((a + b).last() == b.last());
    }
}

pub proof fn lemma_run_one(ar: Arith, op: Op, m: spec_fn(Buf, int) -> u32)
    ensures
        run(ar, seq![op], m) == run_op(ar, op, m),
{
    assert(seq![op].drop_last() =~= Seq::<Op>::empty());
    reveal_with_fuel(run, 2);
}

/// One operation more.
pub proof fn lemma_run_push(ar: Arith, ops: Seq<Op>, op: Op, m: spec_fn(Buf, int) -> u32)
    ensures
        run(ar, ops.push(op), m) == match run(ar, ops, m) {
            Some(before) => run_op(ar, op, before),
            None => None,
        },
{
    assert(ops.push(op).drop_last() =~= ops);
}

pub proof fn lemma_run_two(ar: Arith, a: Op, b: Op, m: spec_fn(Buf, int) -> u32)
    ensures
        run(ar, seq![a, b], m) == match run_op(ar, a, m) {
            Some(between) => run_op(ar, b, between),
            None => None,
        },
{
    assert(seq![a, b].drop_last() =~= seq![a]);
    lemma_run_one(ar, a, m);
}

/// The row ranges `[lo, mid)` and `[mid, hi)` of a projection, computed in either
/// order and by whichever core, give the rows `[lo, hi)`.
pub proof fn lemma_rows_join(
    ar: Arith,
    p: Projection,
    m: spec_fn(Buf, int) -> u32,
    lo: int,
    mid: int,
    hi: int,
)
    requires
        p.x.apart(p.out),
        0 <= lo <= mid <= hi <= p.out.len,
    ensures
        rows_done(ar, p, rows_done(ar, p, m, lo, mid), mid, hi) == rows_done(ar, p, m, lo, hi),
        rows_done(ar, p, rows_done(ar, p, m, mid, hi), lo, mid) == rows_done(ar, p, m, lo, hi),
        rows_done(ar, p, m, 0, p.out.len as int) == write(m, p.out, rows(ar, p, m)),
{
    let first = rows_done(ar, p, m, lo, mid);
    let second = rows_done(ar, p, m, mid, hi);
    assert(read(first, p.x) =~= read(m, p.x));
    assert(read(second, p.x) =~= read(m, p.x));
    assert(rows_done(ar, p, first, mid, hi) =~= rows_done(ar, p, m, lo, hi));
    assert(rows_done(ar, p, second, lo, mid) =~= rows_done(ar, p, m, lo, hi));
    assert(rows_done(ar, p, m, 0, p.out.len as int) =~= write(m, p.out, rows(ar, p, m)));
}

/// The buffers after the rows `[lo, hi)` of a projection.
pub open spec fn rows_done(
    ar: Arith,
    p: Projection,
    m: spec_fn(Buf, int) -> u32,
    lo: int,
    hi: int,
) -> spec_fn(Buf, int) -> u32 {
    let all = rows(ar, p, m);
    |c: Buf, i: int|
        if c == p.out.buf && p.out.start + lo <= i < p.out.start + hi {
            all[i - p.out.start]
        } else {
            m(c, i)
        }
}

/// Two or three projections in one dispatch do what they do one after the other,
/// if none writes what a later one reads.
pub proof fn lemma_fused_is_in_turn(
    ar: Arith,
    p: Projection,
    q: Projection,
    r: Projection,
    m: spec_fn(Buf, int) -> u32,
)
    requires
        q.x.apart(p.out),
    ensures
        run(ar, seq![Op::Fused2(p, q)], m) == run(ar, seq![Op::Linear(p), Op::Linear(q)], m),
        r.x.apart(p.out) && r.x.apart(q.out) ==> run(ar, seq![Op::Fused3(p, q, r)], m) == run(
            ar,
            seq![Op::Linear(p), Op::Linear(q), Op::Linear(r)],
            m,
        ),
{
    let m1 = write(m, p.out, rows(ar, p, m));
    assert(read(m1, q.x) =~= read(m, q.x));
    assert(rows(ar, q, m1) =~= rows(ar, q, m));
    let m2 = write(m1, q.out, rows(ar, q, m));
    if r.x.apart(p.out) && r.x.apart(q.out) {
        assert(read(m2, r.x) =~= read(m, r.x));
        assert(rows(ar, r, m2) =~= rows(ar, r, m));
    }
    lemma_run_one(ar, Op::Fused2(p, q), m);
    lemma_run_one(ar, Op::Fused3(p, q, r), m);
    lemma_run_two(ar, Op::Linear(p), Op::Linear(q), m);
    let three = seq![Op::Linear(p), Op::Linear(q), Op::Linear(r)];
    assert(three.drop_last() =~= seq![Op::Linear(p), Op::Linear(q)]);
    assert(three.last() == Op::Linear(r));
}

/// Everything before the heads leaves the same buffers whether the projections
/// are fused or not.
pub proof fn lemma_fused_head(
    ar: Arith,
    s: GqaShape,
    t: AttnQuants,
    a: bool,
    b: bool,
    m: spec_fn(Buf, int) -> u32,
)
    ensures
        run(ar, plan::gqa_head(s, t, a), m) == run(ar, plan::gqa_head(s, t, b), m),
{
    lemma_fused_qkv(ar, s, t, a, m);
    lemma_fused_qkv(ar, s, t, b, m);
    let d = s.head_dim as int;
    let rest = seq![
        plan::trace(Stage::QProj, Buf::Q, s.q_dim()),
        plan::trace(Stage::KProj, Buf::K, s.kv_dim()),
        plan::trace(Stage::VProj, Buf::V, s.kv_dim()),
    ] + plan::norm_heads(s.n_q_heads as nat, d, Buf::Q, NormWeight::QNorm, Buf::QOut)
        + plan::norm_heads(s.n_kv_heads as nat, d, Buf::K, NormWeight::KNorm, Buf::KOut) + seq![
        plan::trace(Stage::QNorm, Buf::QOut, s.q_dim()),
        plan::trace(Stage::KNorm, Buf::KOut, s.kv_dim()),
    ] + plan::rope_heads(s.n_q_heads as nat, d, Buf::QOut) + plan::rope_heads(
        s.n_kv_heads as nat,
        d,
        Buf::KOut,
    ) + seq![
        plan::trace(Stage::QRope, Buf::QOut, s.q_dim()),
        plan::trace(Stage::KRope, Buf::KOut, s.kv_dim()),
        Op::StoreKv {
            layer: s.layer,
            token: s.token_offset,
            k: plan::span(Buf::KOut, 0, s.kv_dim()),
            v: plan::span(Buf::V, 0, s.kv_dim()),
        },
    ];
    assert(plan::gqa_head(s, t, a) =~= plan::qkv_ops(s, t, a) + rest);
    assert(plan::gqa_head(s, t, b) =~= plan::qkv_ops(s, t, b) + rest);
    lemma_run_concat(ar, plan::qkv_ops(s, t, a), rest, m);
    lemma_run_concat(ar, plan::qkv_ops(s, t, b), rest, m);
}

/// The projections leave the same buffers whether they are fused or not.
pub proof fn lemma_fused_qkv(
    ar: Arith,
    s: GqaShape,
    t: AttnQuants,
    fused: bool,
    m: spec_fn(Buf, int) -> u32,
)
    ensures
        run(ar, plan::qkv_ops(s, t, fused), m) == run(ar, plan::qkv_ops(s, t, false), m),
{
    let x = plan::span(Buf::Norm, 0, s.embedding_dim as int);
    let q = Projection { w: Mat::AttnQ, x, out: plan::span(Buf::Q, 0, s.q_dim()), quant: t.q };
    let k = Projection { w: Mat::AttnK, x, out: plan::span(Buf::K, 0, s.kv_dim()), quant: t.k };
    let v = Projection { w: Mat::AttnV, x, out: plan::span(Buf::V, 0, s.kv_dim()), quant: t.v };
    lemma_fused_is_in_turn(ar, q, k, v, m);
}

/// The dense feed-forward block leaves the same buffers whether gate and up are
/// fused or not.
pub proof fn lemma_fused_mlp(
    ar: Arith,
    e: usize,
    n: usize,
    t: FfnQuants,
    a: bool,
    b: bool,
    m: spec_fn(Buf, int) -> u32,
)
    ensures
        run(ar, forward::mlp_program(e, n, t, a), m) == run(
            ar,
            forward::mlp_program(e, n, t, b),
            m,
        ),
{
    let gate = forward::proj(Mat::FfnGate, Buf::Norm, e, Buf::Gate, n, t.gate);
    let up = forward::proj(Mat::FfnUp, Buf::Norm, e, Buf::Up, n, t.up);
    let down = forward::proj(Mat::FfnDown, Buf::HiddenMlp, n, Buf::MlpOut, e, t.down);
    let rest = seq![forward::silu_mul(n), Op::Linear(down)];
    let one = seq![Op::Fused2(gate, up)];
    let two = seq![Op::Linear(gate), Op::Linear(up)];
    lemma_fused_is_in_turn(ar, gate, up, up, m);
    lemma_run_concat(ar, one, rest, m);
    lemma_run_concat(ar, two, rest, m);
    assert(forward::mlp_program(e, n, t, a) =~= one + rest || forward::mlp_program(e, n, t, a)
        =~= two + rest);
    assert(forward::mlp_program(e, n, t, b) =~= one + rest || forward::mlp_program(e, n, t, b)
        =~= two + rest);
}

/// A stretch of the sequential form, where head `h` has it in the parallel form:
/// the shared scores become the head's own, and the staging buffer its place
/// among the sums.
pub open spec fn moved(s: GqaShape, h: int, at: Span) -> Span {
    if at == plan::span(Buf::Score, 0, s.tokens()) {
        plan::head_writes(s, h).0
    } else if at == plan::span(Buf::Head, 0, s.head_dim as int) {
        plan::head_writes(s, h).1
    } else {
        at
    }
}

/// An operation on the moved stretches.
pub open spec fn moved_op(s: GqaShape, h: int, op: Op) -> Op {
    match op {
        Op::Scores { q, k, out } => Op::Scores { q, k, out: moved(s, h, out) },
        Op::Softmax { at } => Op::Softmax { at: moved(s, h, at) },
        Op::Zero { at } => Op::Zero { at: moved(s, h, at) },
        Op::WeightedSum { weights, v, out } => Op::WeightedSum {
            weights: moved(s, h, weights),
            v,
            out: moved(s, h, out),
        },
        other => other,
    }
}

/// Head `h` in the parallel form is the head in the sequential form without the
/// look at the scores and the copy at the end, on its own stretches.
pub proof fn lemma_parallel_head_is_moved(s: GqaShape, h: int)
    ensures
        plan::sequential_head(s, h).len() == 6,
        plan::sequential_head(s, h)[1] is Trace,
        plan::sequential_head(s, h)[5] == (Op::Copy {
            from: plan::span(Buf::Head, 0, s.head_dim as int),
            to: plan::head_writes(s, h).1,
        }),
        plan::parallel_head(s, h) == plan::sequential_head(s, h).remove(5).remove(1).map_values(
            |op: Op| moved_op(s, h, op),
        ),
{
    let sequential = plan::sequential_head(s, h);
    let kept = sequential.remove(5).remove(1);
    assert(kept.len() == 4);
    assert(kept[0] == sequential[0]);
    assert(kept[1] == sequential[2]);
    assert(kept[2] == sequential[3]);
    assert(kept[3] == sequential[4]);
    assert(plan::parallel_head(s, h) =~= kept.map_values(|op: Op| moved_op(s, h, op)));
}

/// The keys, or the values, that head `h` reads.
pub open spec fn cache_of(s: GqaShape, h: int, buf: Buf) -> Strided {
    Strided {
        buf,
        start: (h / s.ratio() * s.head_dim) as usize,
        stride: s.kv_dim() as usize,
        count: s.tokens() as usize,
        len: s.head_dim,
    }
}

/// The weights of the tokens for head `h`; `None` where they are not stable.
pub open spec fn head_weights(ar: Arith, s: GqaShape, h: int, m: spec_fn(Buf, int) -> u32) -> Option<
    Seq<u32>,
> {
    (ar.softmax)(
        scores(
            ar,
            read(m, plan::span(Buf::QOut, h * s.head_dim, s.head_dim as int)),
            m,
            cache_of(s, h, Buf::KCache),
        ),
    )
}

/// The sum of head `h` under the weights `w`.
pub open spec fn head_sum(
    ar: Arith,
    s: GqaShape,
    h: int,
    w: Seq<u32>,
    m: spec_fn(Buf, int) -> u32,
) -> Seq<u32> {
    let n = s.tokens() as usize;
    weighted_sum(
        ar,
        zeros(s.head_dim as int),
        Seq::new(n as nat, |i: int| w[i]),
        m,
        cache_of(s, h, Buf::VCache),
        n as nat,
    )
}

/// The sum depends on nothing but the values.
proof fn lemma_sum_frame(
    ar: Arith,
    acc: Seq<u32>,
    weights: Seq<u32>,
    v: Strided,
    n: nat,
    a: spec_fn(Buf, int) -> u32,
    b: spec_fn(Buf, int) -> u32,
)
    requires
        forall|i: int| #[trigger] a(v.buf, i) == b(v.buf, i),
    ensures
        weighted_sum(ar, acc, weights, a, v, n) == weighted_sum(ar, acc, weights, b, v, n),
    decreases n,
{
    if n > 0 {
        lemma_sum_frame(ar, acc, weights, v, (n - 1) as nat, a, b);
        assert(stretch(a, v, n - 1) =~= stretch(b, v, n - 1));
    }
}

/// A head depends on nothing but the queries and the caches.
pub proof fn lemma_head_frame(
    ar: Arith,
    s: GqaShape,
    h: int,
    w: Seq<u32>,
    a: spec_fn(Buf, int) -> u32,
    b: spec_fn(Buf, int) -> u32,
)
    requires
        forall|i: int| #[trigger] a(Buf::QOut, i) == b(Buf::QOut, i),
        forall|i: int| #[trigger] a(Buf::KCache, i) == b(Buf::KCache, i),
        forall|i: int| #[trigger] a(Buf::VCache, i) == b(Buf::VCache, i),
    ensures
        head_weights(ar, s, h, a) == head_weights(ar, s, h, b),
        head_sum(ar, s, h, w, a) == head_sum(ar, s, h, w, b),
{
    let q = plan::span(Buf::QOut, h * s.head_dim, s.head_dim as int);
    let k = cache_of(s, h, Buf::KCache);
    assert(read(a, q) =~= read(b, q));
    assert forall|i: int| 0 <= i < k.count implies stretch(a, k, i) == stretch(b, k, i) by {
        assert(stretch(a, k, i) =~= stretch(b, k, i));
    }
    assert(scores(ar, read(a, q), a, k) =~= scores(ar, read(b, q), b, k));
    let n = s.tokens() as usize as nat;
    lemma_sum_frame(
        ar,
        zeros(s.head_dim as int),
        Seq::new(n, |i: int| w[i]),
        cache_of(s, h, Buf::VCache),
        n,
        a,
        b,
    );
}

/// What the operations of head `h` after its scores leave, with the scores at
/// `score` and the sum in `acc`.
proof fn lemma_head_rest(
    ar: Arith,
    s: GqaShape,
    h: int,
    score: int,
    acc: Span,
    m: spec_fn(Buf, int) -> u32,
)
    requires
        acc.buf == Buf::Head || acc.buf == Buf::Concat,
        acc.len == s.head_dim,
    ensures
        ({
            let at = plan::span(Buf::Score, score, s.tokens());
            run(ar, plan::head_rest(s, h, score, acc), m) == match (ar.softmax)(read(m, at)) {
                Some(w) => Some(write(write(m, at, w), acc, head_sum(ar, s, h, w, m))),
                None => None,
            }
        }),
{
    let at = plan::span(Buf::Score, score, s.tokens());
    let v = cache_of(s, h, Buf::VCache);
    let soft = Op::Softmax { at };
    let zero = Op::Zero { at: acc };
    let sum = Op::WeightedSum { weights: at, v, out: acc };
    assert(plan::head_rest(s, h, score, acc) =~= seq![soft, zero] + seq![sum]);
    lemma_run_concat(ar, seq![soft, zero], seq![sum], m);
    lemma_run_two(ar, soft, zero, m);
    match (ar.softmax)(read(m, at)) {
        Some(w) => {
            let m1 = write(m, at, w);
            let m2 = write(m1, acc, zeros(acc.len as int));
            lemma_run_one(ar, sum, m2);
            let n = s.tokens() as usize;
            assert(read(m2, at) =~= Seq::new(n as nat, |i: int| w[i]));
            assert(read(m2, acc) =~= zeros(s.head_dim as int));
            lemma_sum_frame(ar, read(m2, acc), read(m2, at), v, n as nat, m2, m);
            let total = head_sum(ar, s, h, w, m);
            assert(write(m2, acc, total) =~= write(m1, acc, total));
        },
        None => {},
    }
}

/// What head `h` leaves in the parallel form: its weights among the scores and
/// its sum in its place.
pub proof fn lemma_parallel_head(ar: Arith, s: GqaShape, h: int, m: spec_fn(Buf, int) -> u32)
    ensures
        run(ar, plan::parallel_head(s, h), m) == match head_weights(ar, s, h, m) {
            Some(w) => Some(
                write(
                    write(m, plan::head_writes(s, h).0, w),
                    plan::head_writes(s, h).1,
                    head_sum(ar, s, h, w, m),
                ),
            ),
            None => None,
        },
{
    let score = h * s.score_stride();
    let (at, acc) = plan::head_writes(s, h);
    let first = plan::head_score(s, h, score);
    let rest = plan::head_rest(s, h, score, acc);
    lemma_run_concat(ar, seq![first], rest, m);
    lemma_run_one(ar, first, m);
    let q = plan::span(Buf::QOut, h * s.head_dim, s.head_dim as int);
    let sc = scores(ar, read(m, q), m, cache_of(s, h, Buf::KCache));
    let m1 = write(m, at, sc);
    assert(read(m1, at) =~= sc);
    lemma_head_rest(ar, s, h, score, acc, m1);
    match (ar.softmax)(sc) {
        Some(w) => {
            lemma_head_frame(ar, s, h, w, m1, m);
            let total = head_sum(ar, s, h, w, m);
            assert(write(write(m1, at, w), acc, total) =~= write(write(m, at, w), acc, total));
        },
        None => {},
    }
}

/// What head `h` leaves in the sequential form: the weights in the shared
/// scores, and the sum in the staging buffer and in the head's place.
pub proof fn lemma_sequential_head(ar: Arith, s: GqaShape, h: int, m: spec_fn(Buf, int) -> u32)
    ensures
        run(ar, plan::sequential_head(s, h), m) == match head_weights(ar, s, h, m) {
            Some(w) => Some(
                write(
                    write(
                        write(m, plan::span(Buf::Score, 0, s.tokens()), w),
                        plan::span(Buf::Head, 0, s.head_dim as int),
                        head_sum(ar, s, h, w, m),
                    ),
                    plan::head_writes(s, h).1,
                    head_sum(ar, s, h, w, m),
                ),
            ),
            None => None,
        },
{
    let at = plan::span(Buf::Score, 0, s.tokens());
    let acc = plan::span(Buf::Head, 0, s.head_dim as int);
    let place = plan::head_writes(s, h).1;
    let first = plan::head_score(s, h, 0);
    let look = Op::Trace { stage: Stage::Score, at };
    let rest = plan::head_rest(s, h, 0, acc);
    let copy = Op::Copy { from: acc, to: place };
    assert(plan::sequential_head(s, h) =~= seq![first, look] + rest + seq![copy]);
    lemma_run_concat(ar, seq![first, look] + rest, seq![copy], m);
    lemma_run_concat(ar, seq![first, look], rest, m);
    lemma_run_two(ar, first, look, m);
    let q = plan::span(Buf::QOut, h * s.head_dim, s.head_dim as int);
    let sc = scores(ar, read(m, q), m, cache_of(s, h, Buf::KCache));
    let m1 = write(m, at, sc);
    assert(read(m1, at) =~= sc);
    lemma_head_rest(ar, s, h, 0, acc, m1);
    match (ar.softmax)(sc) {
        Some(w) => {
            lemma_head_frame(ar, s, h, w, m1, m);
            let total = head_sum(ar, s, h, w, m);
            let m2 = write(write(m1, at, w), acc, total);
            assert(m2 =~= write(write(m, at, w), acc, total));
            lemma_run_one(ar, copy, m2);
            assert(write(m2, place, read(m2, acc)) =~= write(m2, place, total));
        },
        None => {},
    }
}

/// The two agree but for the scores and the staging buffer, which the next token
/// writes before it reads them.
pub open spec fn agree(a: spec_fn(Buf, int) -> u32, b: spec_fn(Buf, int) -> u32) -> bool {
    forall|c: Buf, i: int| c != Buf::Score && c != Buf::Head ==> #[trigger] a(c, i) == b(c, i)
}

/// The first `n` heads leave the same sums in both forms, and fail on the same
/// buffers.
pub proof fn lemma_heads_agree(
    ar: Arith,
    s: GqaShape,
    n: nat,
    a: spec_fn(Buf, int) -> u32,
    b: spec_fn(Buf, int) -> u32,
)
    requires
        agree(a, b),
    ensures
        same_outcome(
            run(ar, plan::sequential_heads(s, 0, n), a),
            run(ar, plan::parallel_heads(s, 0, n), b),
        ),
    decreases n,
{
    if n > 0 {
        let h = n - 1;
        lemma_heads_agree(ar, s, h as nat, a, b);
        lemma_run_concat(
            ar,
            plan::sequential_heads(s, 0, h as nat),
            plan::sequential_head(s, h),
            a,
        );
        lemma_run_concat(ar, plan::parallel_heads(s, 0, h as nat), plan::parallel_head(s, h), b);
        if let Some(a1) = run(ar, plan::sequential_heads(s, 0, h as nat), a) {
            let b1 = run(ar, plan::parallel_heads(s, 0, h as nat), b)->Some_0;
            lemma_sequential_head(ar, s, h, a1);
            lemma_parallel_head(ar, s, h, b1);
            lemma_head_frame(ar, s, h, Seq::empty(), a1, b1);
            if let Some(w) = head_weights(ar, s, h, a1) {
                lemma_head_frame(ar, s, h, w, a1, b1);
            }
        }
    }
}

/// Both fail, or both run through and agree.
pub open spec fn same_outcome(
    a: Option<spec_fn(Buf, int) -> u32>,
    b: Option<spec_fn(Buf, int) -> u32>,
) -> bool {
    &&& a is Some == b is Some
    &&& a is Some ==> agree(a->Some_0, b->Some_0)
}

/// Attention computes the same bits under all settings: whether the projections
/// are fused, from which length on the heads fan out, and over how many cores.
/// Either every setting fails, or the output, the sums of the heads, the caches
/// and all other buffers but the scores and the staging buffer are equal.
pub proof fn lemma_settings_keep_the_bits(
    ar: Arith,
    s: GqaShape,
    t: AttnQuants,
    fused_a: bool,
    min_tokens_a: usize,
    n_cores_a: usize,
    fused_b: bool,
    min_tokens_b: usize,
    n_cores_b: usize,
    m: spec_fn(Buf, int) -> u32,
)
    ensures
        same_outcome(
            run(ar, plan::gqa_program(s, t, fused_a, min_tokens_a, n_cores_a), m),
            run(ar, plan::gqa_program(s, t, fused_b, min_tokens_b, n_cores_b), m),
        ),
{
    lemma_as_sequential(ar, s, t, fused_a, min_tokens_a, n_cores_a, m);
    lemma_as_sequential(ar, s, t, fused_b, min_tokens_b, n_cores_b, m);
    if let Some(p) = run(ar, plain(s, t), m) {
        let a = run(ar, plan::gqa_program(s, t, fused_a, min_tokens_a, n_cores_a), m)->Some_0;
        let b = run(ar, plan::gqa_program(s, t, fused_b, min_tokens_b, n_cores_b), m)->Some_0;
        assert forall|c: Buf, i: int| c != Buf::Score && c != Buf::Head implies #[trigger] a(c, i)
            == b(c, i) by {
            assert(p(c, i) == a(c, i) && p(c, i) == b(c, i));
        }
    }
}

/// The plain form: nothing fused, one head after the other.
pub open spec fn plain(s: GqaShape, t: AttnQuants) -> Seq<Op> {
    plan::gqa_head(s, t, false) + plan::sequential_heads(s, 0, s.n_q_heads as nat) + seq![
        plan::gqa_out(s, t),
    ]
}

/// Every setting does what the plain form does.
pub proof fn lemma_as_sequential(
    ar: Arith,
    s: GqaShape,
    t: AttnQuants,
    fused: bool,
    min_tokens: usize,
    n_cores: usize,
    m: spec_fn(Buf, int) -> u32,
)
    ensures
        same_outcome(
            run(ar, plain(s, t), m),
            run(ar, plan::gqa_program(s, t, fused, min_tokens, n_cores), m),
        ),
{
    let head = plan::gqa_head(s, t, fused);
    let flat = plan::gqa_head(s, t, false);
    let one = plan::sequential_heads(s, 0, s.n_q_heads as nat);
    let many = plan::parallel_heads(s, 0, s.n_q_heads as nat);
    let out = plan::gqa_out(s, t);
    lemma_fused_head(ar, s, t, false, fused, m);
    lemma_run_concat(ar, flat + one, seq![out], m);
    lemma_run_concat(ar, flat, one, m);
    if plan::fans_out(s, min_tokens, n_cores) {
        lemma_run_concat(ar, head + many, seq![out], m);
        lemma_run_concat(ar, head, many, m);
        if let Some(m1) = run(ar, flat, m) {
            lemma_heads_agree(ar, s, s.n_q_heads as nat, m1, m1);
            if let Some(a) = run(ar, one, m1) {
                let b = run(ar, many, m1)->Some_0;
                lemma_run_one(ar, out, a);
                lemma_run_one(ar, out, b);
                assert(read(a, plan::span(Buf::Concat, 0, s.q_dim())) =~= read(
                    b,
                    plan::span(Buf::Concat, 0, s.q_dim()),
                ));
            }
        }
    } else {
        let look = plan::trace(Stage::AttnConcat, Buf::Concat, s.q_dim());
        let end = plan::trace(Stage::OProj, Buf::AttnOut, s.embedding_dim as int);
        let tail = seq![look, out, end];
        lemma_run_concat(ar, head + one, tail, m);
        lemma_run_concat(ar, head, one, m);
        if let Some(m1) = run(ar, flat, m) {
            if let Some(a) = run(ar, one, m1) {
                lemma_run_one(ar, out, a);
                lemma_run_two(ar, look, out, a);
                assert(tail.drop_last() =~= seq![look, out]);
                assert(tail.last() == end);
            }
        }
    }
}

/// Two heads that run beside each other leave the same buffers in either order.
pub proof fn lemma_heads_commute(
    ar: Arith,
    s: GqaShape,
    min_tokens: usize,
    n_cores: usize,
    g: int,
    h: int,
    m: spec_fn(Buf, int) -> u32,
)
    requires
        s.wf(),
        plan::fans_out(s, min_tokens, n_cores),
        0 <= g < s.n_q_heads,
        0 <= h < s.n_q_heads,
    ensures
        run(ar, plan::parallel_head(s, g) + plan::parallel_head(s, h), m) == run(
            ar,
            plan::parallel_head(s, h) + plan::parallel_head(s, g),
            m,
        ),
{
    if g != h {
        plan::lemma_parallel_heads_apart(s, min_tokens, n_cores, g, h);
        lemma_two_heads(ar, s, g, h, m);
        lemma_two_heads(ar, s, h, g, m);
        if let Some(v) = head_weights(ar, s, g, m) {
            if let Some(w) = head_weights(ar, s, h, m) {
                assert(both_heads(ar, s, g, v, h, w, m) =~= both_heads(ar, s, h, w, g, v, m));
            }
        }
    }
}

/// The buffers with the weights and sums of two heads in place.
spec fn both_heads(
    ar: Arith,
    s: GqaShape,
    g: int,
    v: Seq<u32>,
    h: int,
    w: Seq<u32>,
    m: spec_fn(Buf, int) -> u32,
) -> spec_fn(Buf, int) -> u32 {
    let first = write(
        write(m, plan::head_writes(s, g).0, v),
        plan::head_writes(s, g).1,
        head_sum(ar, s, g, v, m),
    );
    write(
        write(first, plan::head_writes(s, h).0, w),
        plan::head_writes(s, h).1,
        head_sum(ar, s, h, w, m),
    )
}

proof fn lemma_two_heads(ar: Arith, s: GqaShape, g: int, h: int, m: spec_fn(Buf, int) -> u32)
    ensures
        run(ar, plan::parallel_head(s, g) + plan::parallel_head(s, h), m) == match (
            head_weights(ar, s, g, m),
            head_weights(ar, s, h, m),
        ) {
            (Some(v), Some(w)) => Some(both_heads(ar, s, g, v, h, w, m)),
            _ => None,
        },
{
    lemma_run_concat(ar, plan::parallel_head(s, g), plan::parallel_head(s, h), m);
    lemma_parallel_head(ar, s, g, m);
    if let Some(v) = head_weights(ar, s, g, m) {
        let m1 = run(ar, plan::parallel_head(s, g), m)->Some_0;
        lemma_parallel_head(ar, s, h, m1);
        lemma_head_frame(ar, s, h, Seq::empty(), m1, m);
        if let Some(w) = head_weights(ar, s, h, m) {
            lemma_head_frame(ar, s, h, w, m1, m);
        }
    }
}

/// The heads of two cores, one range behind the other, are the heads of one.
pub proof fn lemma_heads_join(s: GqaShape, lo: int, a: nat, b: nat)
    ensures
        plan::parallel_heads(s, lo, a) + plan::parallel_heads(s, lo + a, b)
            == plan::parallel_heads(s, lo, a + b),
    decreases b,
{
    let left = plan::parallel_heads(s, lo, a);
    if b == 0 {
        assert(left + plan::parallel_heads(s, lo + a, b) =~= left);
    } else {
        let c = (b - 1) as nat;
        lemma_heads_join(s, lo, a, c);
        let last = plan::parallel_head(s, lo + a + b - 1);
        assert(left + (plan::parallel_heads(s, lo + a, c) + last) =~= left + plan::parallel_heads(
            s,
            lo + a,
            c,
        ) + last);
        assert((a + b - 1) as nat == a + c);
    }
}

} // verus!
