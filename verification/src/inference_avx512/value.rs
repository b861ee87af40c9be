//! What attention computes, as a function of the values in its inputs.
//!
//! The operations are given their meaning in [`crate::inference_avx512::exact`]. Here
//! stand the results: which row of the cache holds which key, what weight each value
//! has, and what the output is a projection of.

use crate::inference_avx512::exact;
use crate::inference_avx512::exact::Arith;
use crate::inference_avx512::plan;
use crate::inference_avx512::plan::{
    AttnQuants, Buf, GqaShape, Mat, NormWeight, Op, Projection, Stage,
};
use crate::inference_avx512::GgmlType;
use vstd::prelude::*;

verus! {

/// The first `n` elements of `v`.
pub open spec fn cut(v: Seq<u32>, n: int) -> Seq<u32> {
    Seq::new(n as nat, |i: int| v[i])
}

/// Stretch `h` of the stretches of `d` elements that `v` consists of.
pub open spec fn part(v: Seq<u32>, d: int, h: int) -> Seq<u32> {
    Seq::new(d as nat, |i: int| v[h * d + i])
}

/// The product of a matrix of `n` rows with `x`.
pub open spec fn product(ar: Arith, w: Mat, quant: GgmlType, n: int, x: Seq<u32>) -> Seq<u32> {
    Seq::new(n as nat, |i: int| (ar.row)(w, quant, i, x))
}

/// `v` normalised.
pub open spec fn normed(ar: Arith, w: NormWeight, v: Seq<u32>) -> Seq<u32> {
    cut((ar.norm)(w, v), v.len() as int)
}

/// `v` turned by the position.
pub open spec fn turned(ar: Arith, v: Seq<u32>) -> Seq<u32> {
    cut((ar.rope)(v), v.len() as int)
}

/// The weights of `keys` for the query `q`; `None` where they are not stable.
pub open spec fn weights_for(ar: Arith, q: Seq<u32>, keys: Seq<Seq<u32>>) -> Option<Seq<u32>> {
    (ar.softmax)(Seq::new(keys.len(), |t: int| (ar.score)(q, keys[t])))
}

/// The first `n` of `values`, added from zero in order, each with its weight.
pub open spec fn blend(ar: Arith, d: int, w: Seq<u32>, values: Seq<Seq<u32>>, n: nat) -> Seq<u32>
    decreases n,
{
    if n == 0 {
        exact::zeros(d)
    } else {
        (ar.add_weighted)(blend(ar, d, w, values, (n - 1) as nat), w[n - 1], values[n - 1])
    }
}

/// What was written is read, as far as the stretch goes.
pub proof fn lemma_get_put(m: spec_fn(Buf, int) -> u32, b: Buf, start: int, len: int, v: Seq<u32>)
    requires
        0 <= len,
    ensures
        exact::get(exact::put(m, b, start, len, v), b, start, len) == cut(v, len),
{
    assert(exact::get(exact::put(m, b, start, len, v), b, start, len) =~= cut(v, len));
}

/// The buffers with `val(h)` in the stretch of `len` elements at `base + h * stride`,
/// for each `h` below `n`.
pub open spec fn fill(
    m: spec_fn(Buf, int) -> u32,
    b: Buf,
    base: int,
    stride: int,
    len: int,
    val: spec_fn(int) -> Seq<u32>,
    n: nat,
) -> spec_fn(Buf, int) -> u32
    decreases n,
{
    if n == 0 {
        m
    } else {
        exact::put(
            fill(m, b, base, stride, len, val, (n - 1) as nat),
            b,
            base + (n - 1) * stride,
            len,
            val(n - 1),
        )
    }
}

/// A filled buffer holds each value in its stretch and is as before outside of them.
pub proof fn lemma_fill(
    m: spec_fn(Buf, int) -> u32,
    b: Buf,
    base: int,
    stride: int,
    len: int,
    val: spec_fn(int) -> Seq<u32>,
    n: nat,
)
    requires
        0 <= len <= stride,
    ensures
        forall|h: int|
            0 <= h < n ==> exact::get(
                fill(m, b, base, stride, len, val, n),
                b,
                #[trigger] (base + h * stride),
                len,
            ) == cut(val(h), len),
        forall|c: Buf, i: int|
            c != b || i < base || i >= base + n * stride ==> #[trigger] fill(
                m,
                b,
                base,
                stride,
                len,
                val,
                n,
            )(c, i) == m(c, i),
    decreases n,
{
    assert(base + 0 * stride == base) by (nonlinear_arith);
    if n > 0 {
        let k = n - 1;
        let before = fill(m, b, base, stride, len, val, k as nat);
        let after = fill(m, b, base, stride, len, val, n);
        lemma_fill(m, b, base, stride, len, val, k as nat);
        assert(n * stride == k * stride + stride && 0 <= k * stride) by (nonlinear_arith)
            requires
                k == n - 1,
                k >= 0,
                stride >= 0,
        ;
        assert forall|h: int| 0 <= h < n implies exact::get(
            after,
            b,
            #[trigger] (base + h * stride),
            len,
        ) == cut(val(h), len) by {
            if h == k {
                lemma_get_put(before, b, base + k * stride, len, val(k));
            } else {
                assert(h * stride + stride <= k * stride) by (nonlinear_arith)
                    requires
                        0 <= h < k,
                        stride >= 0,
                ;
                assert(exact::get(after, b, base + h * stride, len) =~= exact::get(
                    before,
                    b,
                    base + h * stride,
                    len,
                ));
            }
        }
    }
}

/// What lies in none of the stretches is as before.
pub proof fn lemma_fill_between(
    m: spec_fn(Buf, int) -> u32,
    b: Buf,
    base: int,
    stride: int,
    len: int,
    val: spec_fn(int) -> Seq<u32>,
    n: nat,
    i: int,
)
    requires
        forall|h: int|
            0 <= h < n ==> i < #[trigger] (base + h * stride) || i >= base + h * stride + len,
    ensures
        fill(m, b, base, stride, len, val, n)(b, i) == m(b, i),
    decreases n,
{
    if n > 0 {
        lemma_fill_between(m, b, base, stride, len, val, (n - 1) as nat, i);
        assert(i < base + (n - 1) * stride || i >= base + (n - 1) * stride + len);
    }
}

/// Operations of which each writes its stretch, whatever the ones before it wrote,
/// fill the buffer.
pub proof fn lemma_run_fill(
    ar: Arith,
    ops: Seq<Op>,
    m: spec_fn(Buf, int) -> u32,
    b: Buf,
    base: int,
    stride: int,
    len: int,
    val: spec_fn(int) -> Seq<u32>,
    n: nat,
)
    requires
        n <= ops.len(),
        forall|h: int|
            0 <= h < n ==> {
                let before = fill(m, b, base, stride, len, val, h as nat);
                exact::run_op(ar, #[trigger] ops[h], before) == Some(
                    exact::put(before, b, base + h * stride, len, val(h)),
                )
            },
    ensures
        exact::run(ar, ops.take(n as int), m) == Some(fill(m, b, base, stride, len, val, n)),
    decreases n,
{
    let some = ops.take(n as int);
    if n > 0 {
        lemma_run_fill(ar, ops, m, b, base, stride, len, val, (n - 1) as nat);
        assert(some.drop_last() =~= ops.take(n - 1));
        assert(some.last() == ops[n - 1]);
    }
}

/// The query of head `h` of the token with input `x`.
pub open spec fn new_query(ar: Arith, s: GqaShape, t: AttnQuants, x: Seq<u32>, h: int) -> Seq<u32> {
    let q = product(ar, Mat::AttnQ, t.q, s.q_dim(), x);
    turned(ar, normed(ar, NormWeight::QNorm, part(q, s.head_dim as int, h)))
}

/// The key of key head `g` of the token with input `x`.
pub open spec fn new_key(ar: Arith, s: GqaShape, t: AttnQuants, x: Seq<u32>, g: int) -> Seq<u32> {
    let k = product(ar, Mat::AttnK, t.k, s.kv_dim(), x);
    turned(ar, normed(ar, NormWeight::KNorm, part(k, s.head_dim as int, g)))
}

/// The value of key head `g` of the token with input `x`.
pub open spec fn new_value(ar: Arith, s: GqaShape, t: AttnQuants, x: Seq<u32>, g: int) -> Seq<u32> {
    part(product(ar, Mat::AttnV, t.v, s.kv_dim(), x), s.head_dim as int, g)
}

/// All types have a kernel but that of the output, and the cache keeps the token.
pub open spec fn gqa_starts(ar: Arith, s: GqaShape, t: AttnQuants) -> bool {
    t.q.has_kernel() && t.k.has_kernel() && t.v.has_kernel() && (ar.keeps)(
        s.layer,
        s.token_offset,
    )
}

/// `r` has, beside what `m` had in its caches, the token's keys and values in the
/// row of the token. The other rows are as they were.
pub open spec fn gqa_cached(
    ar: Arith,
    s: GqaShape,
    t: AttnQuants,
    m: spec_fn(Buf, int) -> u32,
    r: spec_fn(Buf, int) -> u32,
) -> bool {
    let d = s.head_dim as int;
    let x = exact::get(m, Buf::Norm, 0, s.embedding_dim as int);
    let row = s.token_offset * s.kv_dim();
    &&& forall|g: int|
        #![trigger new_key(ar, s, t, x, g)]
        0 <= g < s.n_kv_heads ==> exact::get(r, Buf::KCache, row + g * d, d) == new_key(
            ar,
            s,
            t,
            x,
            g,
        )
    &&& forall|g: int|
        #![trigger new_value(ar, s, t, x, g)]
        0 <= g < s.n_kv_heads ==> exact::get(r, Buf::VCache, row + g * d, d) == new_value(
            ar,
            s,
            t,
            x,
            g,
        )
    &&& forall|i: int|
        i < row || i >= row + s.kv_dim() ==> #[trigger] r(Buf::KCache, i) == m(Buf::KCache, i)
    &&& forall|i: int|
        i < row || i >= row + s.kv_dim() ==> #[trigger] r(Buf::VCache, i) == m(Buf::VCache, i)
}

/// The buffers that the attention of a token writes.
pub open spec fn gqa_writes(b: Buf) -> bool {
    b == Buf::Q || b == Buf::K || b == Buf::V || b == Buf::QOut || b == Buf::KOut || b == Buf::Score
        || b == Buf::Head || b == Buf::Concat || b == Buf::AttnOut || b == Buf::KCache || b
        == Buf::VCache
}

/// `a` and `b` agree in every buffer that attention does not write.
pub open spec fn gqa_rest(a: spec_fn(Buf, int) -> u32, b: spec_fn(Buf, int) -> u32) -> bool {
    forall|c: Buf, i: int| !gqa_writes(c) ==> #[trigger] a(c, i) == b(c, i)
}

/// `n` heads of `d` elements, normalised from one buffer into another.
pub proof fn lemma_norm_heads(
    ar: Arith,
    m: spec_fn(Buf, int) -> u32,
    n: nat,
    d: int,
    from: Buf,
    w: NormWeight,
    to: Buf,
    v: Seq<u32>,
)
    requires
        0 <= d,
        n * d <= usize::MAX,
        from != to,
        v == exact::get(m, from, 0, n * d),
    ensures
        exact::run(ar, plan::norm_heads(n, d, from, w, to), m) is Some,
        ({
            let r = exact::run(ar, plan::norm_heads(n, d, from, w, to), m)->Some_0;
            &&& forall|h: int|
                0 <= h < n ==> exact::get(r, to, #[trigger] (0 + h * d), d) == normed(
                    ar,
                    w,
                    part(v, d, h),
                )
            &&& forall|c: Buf, i: int|
                c != to || i < 0 || i >= n * d ==> #[trigger] r(c, i) == m(c, i)
        }),
{
    let ops = plan::norm_heads(n, d, from, w, to);
    let val = |h: int| (ar.norm)(w, part(v, d, h));
    assert forall|h: int| 0 <= h < n implies {
        let before = fill(m, to, 0, d, d, val, h as nat);
        exact::run_op(ar, #[trigger] ops[h], before) == Some(
            exact::put(before, to, 0 + h * d, d, val(h)),
        )
    } by {
        let before = fill(m, to, 0, d, d, val, h as nat);
        plan::lemma_head_fits(h, n as int, d);
        lemma_fill(m, to, 0, d, d, val, h as nat);
        assert(d <= usize::MAX);
        assert(exact::read(before, plan::span(from, h * d, d)) =~= part(v, d, h));
    }
    lemma_run_fill(ar, ops, m, to, 0, d, d, val, n);
    assert(ops.take(n as int) =~= ops);
    lemma_fill(m, to, 0, d, d, val, n);
    let r = fill(m, to, 0, d, d, val, n);
    assert forall|h: int| 0 <= h < n implies exact::get(r, to, #[trigger] (0 + h * d), d) == normed(
        ar,
        w,
        part(v, d, h),
    ) by {
        assert(cut(val(h), d) =~= normed(ar, w, part(v, d, h)));
    }
}

/// `n` heads of `d` elements, turned in place.
pub proof fn lemma_rope_heads(ar: Arith, m: spec_fn(Buf, int) -> u32, n: nat, d: int, at: Buf)
    requires
        0 <= d,
        n * d <= usize::MAX,
    ensures
        exact::run(ar, plan::rope_heads(n, d, at), m) is Some,
        ({
            let r = exact::run(ar, plan::rope_heads(n, d, at), m)->Some_0;
            &&& forall|h: int|
                0 <= h < n ==> exact::get(r, at, #[trigger] (0 + h * d), d) == turned(
                    ar,
                    exact::get(m, at, h * d, d),
                )
            &&& forall|c: Buf, i: int|
                c != at || i < 0 || i >= n * d ==> #[trigger] r(c, i) == m(c, i)
        }),
{
    let ops = plan::rope_heads(n, d, at);
    let val = |h: int| (ar.rope)(exact::get(m, at, h * d, d));
    assert forall|h: int| 0 <= h < n implies {
        let before = fill(m, at, 0, d, d, val, h as nat);
        exact::run_op(ar, #[trigger] ops[h], before) == Some(
            exact::put(before, at, 0 + h * d, d, val(h)),
        )
    } by {
        let before = fill(m, at, 0, d, d, val, h as nat);
        plan::lemma_head_fits(h, n as int, d);
        lemma_fill(m, at, 0, d, d, val, h as nat);
        assert(d <= usize::MAX);
        assert(exact::read(before, plan::span(at, h * d, d)) =~= exact::get(m, at, h * d, d));
    }
    lemma_run_fill(ar, ops, m, at, 0, d, d, val, n);
    assert(ops.take(n as int) =~= ops);
    lemma_fill(m, at, 0, d, d, val, n);
    let r = fill(m, at, 0, d, d, val, n);
    assert forall|h: int| 0 <= h < n implies exact::get(r, at, #[trigger] (0 + h * d), d) == turned(
        ar,
        exact::get(m, at, h * d, d),
    ) by {
        assert(cut(val(h), d) =~= turned(ar, exact::get(m, at, h * d, d)));
    }
}

/// Looking at values changes nothing.
pub proof fn lemma_traces(ar: Arith, ops: Seq<Op>, m: spec_fn(Buf, int) -> u32)
    requires
        forall|i: int| 0 <= i < ops.len() ==> (#[trigger] ops[i]) is Trace,
    ensures
        exact::run(ar, ops, m) == Some(m),
    decreases ops.len(),
{
    if ops.len() > 0 {
        let less = ops.drop_last();
        assert forall|i: int| 0 <= i < less.len() implies (#[trigger] less[i]) is Trace by {
            assert(less[i] == ops[i]);
        }
        lemma_traces(ar, less, m);
        assert(ops.last() == ops[ops.len() - 1]);
    }
}

/// A projection leaves the product in its output and changes nothing else.
pub proof fn lemma_linear(
    ar: Arith,
    p: Projection,
    m: spec_fn(Buf, int) -> u32,
)
    requires
        p.quant.has_kernel(),
    ensures
        exact::run_op(ar, Op::Linear(p), m) is Some,
        ({
            let r = exact::run_op(ar, Op::Linear(p), m)->Some_0;
            &&& exact::read(r, p.out) == product(
                ar,
                p.w,
                p.quant,
                p.out.len as int,
                exact::read(m, p.x),
            )
            &&& forall|c: Buf, i: int|
                c != p.out.buf || i < p.out.start || i >= p.out.start + p.out.len ==> #[trigger] r(
                    c,
                    i,
                ) == m(c, i)
        }),
{
    let r = exact::write(m, p.out, exact::rows(ar, p, m));
    assert(exact::read(r, p.out) =~= product(
        ar,
        p.w,
        p.quant,
        p.out.len as int,
        exact::read(m, p.x),
    ));
}

pub proof fn lemma_projections(ar: Arith, s: GqaShape, t: AttnQuants, m: spec_fn(Buf, int) -> u32)
    requires
        s.wf(),
        t.q.has_kernel(),
        t.k.has_kernel(),
        t.v.has_kernel(),
    ensures
        exact::run(ar, plan::qkv_ops(s, t, false), m) is Some,
        ({
            let x = exact::get(m, Buf::Norm, 0, s.embedding_dim as int);
            let r = exact::run(ar, plan::qkv_ops(s, t, false), m)->Some_0;
            &&& exact::get(r, Buf::Q, 0, s.q_dim()) == product(ar, Mat::AttnQ, t.q, s.q_dim(), x)
            &&& exact::get(r, Buf::K, 0, s.kv_dim()) == product(ar, Mat::AttnK, t.k, s.kv_dim(), x)
            &&& exact::get(r, Buf::V, 0, s.kv_dim()) == product(ar, Mat::AttnV, t.v, s.kv_dim(), x)
            &&& forall|c: Buf, i: int|
                c != Buf::Q && c != Buf::K && c != Buf::V ==> #[trigger] r(c, i) == m(c, i)
        }),
{
    assert(s.q_dim() >= 0 && s.kv_dim() >= 0) by (nonlinear_arith)
        requires
            s.q_dim() == s.n_q_heads * s.head_dim,
            s.kv_dim() == s.n_kv_heads * s.head_dim,
    ;
    let x = plan::span(Buf::Norm, 0, s.embedding_dim as int);
    let q = Projection { w: Mat::AttnQ, x, out: plan::span(Buf::Q, 0, s.q_dim()), quant: t.q };
    let k = Projection { w: Mat::AttnK, x, out: plan::span(Buf::K, 0, s.kv_dim()), quant: t.k };
    let v = Projection { w: Mat::AttnV, x, out: plan::span(Buf::V, 0, s.kv_dim()), quant: t.v };
    let (a, b, c) = (Op::Linear(q), Op::Linear(k), Op::Linear(v));
    let ops = plan::qkv_ops(s, t, false);
    assert(ops.drop_last() =~= seq![a, b]);
    assert(ops.last() == c);
    exact::lemma_run_two(ar, a, b, m);
    lemma_linear(ar, q, m);
    let m1 = exact::run_op(ar, a, m)->Some_0;
    lemma_linear(ar, k, m1);
    let m2 = exact::run_op(ar, b, m1)->Some_0;
    lemma_linear(ar, v, m2);
    let m3 = exact::run_op(ar, c, m2)->Some_0;
    assert(exact::read(m1, x) =~= exact::read(m, x));
    assert(exact::read(m2, x) =~= exact::read(m, x));
    assert(exact::get(m3, Buf::Q, 0, s.q_dim()) =~= exact::get(m1, Buf::Q, 0, s.q_dim()));
    assert(exact::get(m3, Buf::K, 0, s.kv_dim()) =~= exact::get(m2, Buf::K, 0, s.kv_dim()));
}

/// Without a kernel for one of the projections nothing runs.
proof fn lemma_no_projections(ar: Arith, s: GqaShape, t: AttnQuants, m: spec_fn(Buf, int) -> u32)
    requires
        !t.q.has_kernel() || !t.k.has_kernel() || !t.v.has_kernel(),
    ensures
        exact::run(ar, plan::qkv_ops(s, t, false), m) is None,
{
    let ops = plan::qkv_ops(s, t, false);
    assert(ops.drop_last() =~= seq![ops[0], ops[1]]);
    assert(ops.last() == ops[2]);
    exact::lemma_run_two(ar, ops[0], ops[1], m);
}

/// Before the heads: the query heads of the token stand in `QOut`, and its keys and
/// values in the caches.
pub proof fn lemma_gqa_head(ar: Arith, s: GqaShape, t: AttnQuants, m: spec_fn(Buf, int) -> u32)
    requires
        s.wf(),
        ar.layer == s.layer,
    ensures
        exact::run(ar, plan::gqa_head(s, t, false), m) is Some == gqa_starts(ar, s, t),
        exact::run(ar, plan::gqa_head(s, t, false), m) matches Some(r) ==> {
            let x = exact::get(m, Buf::Norm, 0, s.embedding_dim as int);
            &&& forall|h: int|
                #![trigger new_query(ar, s, t, x, h)]
                0 <= h < s.n_q_heads ==> exact::get(
                    r,
                    Buf::QOut,
                    h * s.head_dim,
                    s.head_dim as int,
                ) == new_query(ar, s, t, x, h)
            &&& gqa_cached(ar, s, t, m, r)
            &&& gqa_rest(r, m)
        },
{
    let d = s.head_dim as int;
    let nq = s.n_q_heads as nat;
    let nk = s.n_kv_heads as nat;
    let x = exact::get(m, Buf::Norm, 0, s.embedding_dim as int);
    let a = plan::qkv_ops(s, t, false);
    let a1 = seq![
        plan::trace(Stage::QProj, Buf::Q, s.q_dim()),
        plan::trace(Stage::KProj, Buf::K, s.kv_dim()),
        plan::trace(Stage::VProj, Buf::V, s.kv_dim()),
    ];
    let b = plan::norm_heads(nq, d, Buf::Q, NormWeight::QNorm, Buf::QOut);
    let c = plan::norm_heads(nk, d, Buf::K, NormWeight::KNorm, Buf::KOut);
    let c1 = seq![
        plan::trace(Stage::QNorm, Buf::QOut, s.q_dim()),
        plan::trace(Stage::KNorm, Buf::KOut, s.kv_dim()),
    ];
    let e = plan::rope_heads(nq, d, Buf::QOut);
    let f = plan::rope_heads(nk, d, Buf::KOut);
    let g1 = seq![
        plan::trace(Stage::QRope, Buf::QOut, s.q_dim()),
        plan::trace(Stage::KRope, Buf::KOut, s.kv_dim()),
    ];
    let store = Op::StoreKv {
        layer: s.layer,
        token: s.token_offset,
        k: plan::span(Buf::KOut, 0, s.kv_dim()),
        v: plan::span(Buf::V, 0, s.kv_dim()),
    };
    assert(plan::gqa_head(s, t, false) =~= a + a1 + b + c + c1 + e + f + g1 + seq![store]);
    assert(s.q_dim() >= 0 && s.kv_dim() >= 0) by (nonlinear_arith)
        requires
            s.q_dim() == s.n_q_heads * s.head_dim,
            s.kv_dim() == s.n_kv_heads * s.head_dim,
    ;
    exact::lemma_run_concat(ar, a, a1, m);
    exact::lemma_run_concat(ar, a + a1, b, m);
    exact::lemma_run_concat(ar, a + a1 + b, c, m);
    exact::lemma_run_concat(ar, a + a1 + b + c, c1, m);
    exact::lemma_run_concat(ar, a + a1 + b + c + c1, e, m);
    exact::lemma_run_concat(ar, a + a1 + b + c + c1 + e, f, m);
    exact::lemma_run_concat(ar, a + a1 + b + c + c1 + e + f, g1, m);
    exact::lemma_run_concat(ar, a + a1 + b + c + c1 + e + f + g1, seq![store], m);
    if !(t.q.has_kernel() && t.k.has_kernel() && t.v.has_kernel()) {
        lemma_no_projections(ar, s, t, m);
    } else {
        lemma_projections(ar, s, t, m);
        let m1 = exact::run(ar, a, m)->Some_0;
        lemma_traces(ar, a1, m1);
        let q = product(ar, Mat::AttnQ, t.q, s.q_dim(), x);
        let k = product(ar, Mat::AttnK, t.k, s.kv_dim(), x);
        let v = product(ar, Mat::AttnV, t.v, s.kv_dim(), x);
        lemma_norm_heads(ar, m1, nq, d, Buf::Q, NormWeight::QNorm, Buf::QOut, q);
        let m2 = exact::run(ar, b, m1)->Some_0;
        assert(exact::get(m2, Buf::K, 0, s.kv_dim()) =~= k);
        lemma_norm_heads(ar, m2, nk, d, Buf::K, NormWeight::KNorm, Buf::KOut, k);
        let m3 = exact::run(ar, c, m2)->Some_0;
        lemma_traces(ar, c1, m3);
        lemma_rope_heads(ar, m3, nq, d, Buf::QOut);
        let m4 = exact::run(ar, e, m3)->Some_0;
        lemma_rope_heads(ar, m4, nk, d, Buf::KOut);
        let m5 = exact::run(ar, f, m4)->Some_0;
        lemma_traces(ar, g1, m5);
        exact::lemma_run_one(ar, store, m5);
        if (ar.keeps)(s.layer, s.token_offset) {
            let r = exact::run_op(ar, store, m5)->Some_0;
            assert(exact::get(m2, Buf::V, 0, s.kv_dim()) =~= v);
            lemma_stored(ar, s, t, m, m2, m3, m4, m5, r);
        }
    }
}

proof fn lemma_stored(
    ar: Arith,
    s: GqaShape,
    t: AttnQuants,
    m: spec_fn(Buf, int) -> u32,
    m2: spec_fn(Buf, int) -> u32,
    m3: spec_fn(Buf, int) -> u32,
    m4: spec_fn(Buf, int) -> u32,
    m5: spec_fn(Buf, int) -> u32,
    r: spec_fn(Buf, int) -> u32,
)
    requires
        s.wf(),
        ({
            let d = s.head_dim as int;
            let x = exact::get(m, Buf::Norm, 0, s.embedding_dim as int);
            let q = product(ar, Mat::AttnQ, t.q, s.q_dim(), x);
            let k = product(ar, Mat::AttnK, t.k, s.kv_dim(), x);
            &&& forall|h: int|
                0 <= h < s.n_q_heads ==> exact::get(m2, Buf::QOut, #[trigger] (0 + h * d), d)
                    == normed(ar, NormWeight::QNorm, part(q, d, h))
            &&& forall|h: int|
                0 <= h < s.n_kv_heads ==> exact::get(m3, Buf::KOut, #[trigger] (0 + h * d), d)
                    == normed(ar, NormWeight::KNorm, part(k, d, h))
            &&& forall|c: Buf, i: int| c != Buf::KOut ==> #[trigger] m3(c, i) == m2(c, i)
            &&& forall|h: int|
                0 <= h < s.n_q_heads ==> exact::get(m4, Buf::QOut, #[trigger] (0 + h * d), d)
                    == turned(ar, exact::get(m3, Buf::QOut, h * d, d))
            &&& forall|c: Buf, i: int| c != Buf::QOut ==> #[trigger] m4(c, i) == m3(c, i)
            &&& forall|h: int|
                0 <= h < s.n_kv_heads ==> exact::get(m5, Buf::KOut, #[trigger] (0 + h * d), d)
                    == turned(ar, exact::get(m4, Buf::KOut, h * d, d))
            &&& forall|c: Buf, i: int| c != Buf::KOut ==> #[trigger] m5(c, i) == m4(c, i)
            &&& exact::get(m2, Buf::V, 0, s.kv_dim()) == product(
                ar,
                Mat::AttnV,
                t.v,
                s.kv_dim(),
                x,
            )
            &&& forall|c: Buf, i: int|
                c != Buf::Q && c != Buf::K && c != Buf::V && c != Buf::QOut ==> #[trigger] m2(c, i)
                    == m(c, i)
            &&& r == ({
                let n = s.kv_dim();
                let kept = exact::put(
                    m5,
                    Buf::KCache,
                    s.token_offset * n,
                    n,
                    exact::get(m5, Buf::KOut, 0, n),
                );
                exact::put(
                    kept,
                    Buf::VCache,
                    s.token_offset * n,
                    n,
                    exact::get(m5, Buf::V, 0, n),
                )
            })
        }),
    ensures
        ({
            let x = exact::get(m, Buf::Norm, 0, s.embedding_dim as int);
            &&& forall|h: int|
                #![trigger new_query(ar, s, t, x, h)]
                0 <= h < s.n_q_heads ==> exact::get(
                    r,
                    Buf::QOut,
                    h * s.head_dim,
                    s.head_dim as int,
                ) == new_query(ar, s, t, x, h)
            &&& gqa_cached(ar, s, t, m, r)
            &&& gqa_rest(r, m)
        }),
{
    let d = s.head_dim as int;
    let n = s.kv_dim();
    let row = s.token_offset * n;
    let x = exact::get(m, Buf::Norm, 0, s.embedding_dim as int);
    let v = product(ar, Mat::AttnV, t.v, n, x);
    assert forall|h: int|
        #![trigger new_query(ar, s, t, x, h)]
        0 <= h < s.n_q_heads implies exact::get(r, Buf::QOut, h * d, d) == new_query(
        ar,
        s,
        t,
        x,
        h,
    ) by {
        assert(exact::get(r, Buf::QOut, h * d, d) =~= exact::get(m4, Buf::QOut, 0 + h * d, d));
        assert(exact::get(m3, Buf::QOut, h * d, d) =~= exact::get(m2, Buf::QOut, 0 + h * d, d));
    }
    assert forall|g: int|
        #![trigger new_key(ar, s, t, x, g)]
        0 <= g < s.n_kv_heads implies exact::get(r, Buf::KCache, row + g * d, d) == new_key(
        ar,
        s,
        t,
        x,
        g,
    ) by {
        plan::lemma_head_fits(g, s.n_kv_heads as int, d);
        assert(exact::get(r, Buf::KCache, row + g * d, d) =~= exact::get(
            m5,
            Buf::KOut,
            0 + g * d,
            d,
        ));
        assert(exact::get(m4, Buf::KOut, g * d, d) =~= exact::get(m3, Buf::KOut, 0 + g * d, d));
    }
    assert(exact::get(m5, Buf::V, 0, n) =~= v);
    assert forall|g: int|
        #![trigger new_value(ar, s, t, x, g)]
        0 <= g < s.n_kv_heads implies exact::get(r, Buf::VCache, row + g * d, d) == new_value(
        ar,
        s,
        t,
        x,
        g,
    ) by {
        plan::lemma_head_fits(g, s.n_kv_heads as int, d);
        assert(exact::get(r, Buf::VCache, row + g * d, d) =~= part(v, d, g));
    }
}

/// The key head that query head `h` looks at: as many query heads in a row share one
/// as there are query heads for each.
pub open spec fn key_head(s: GqaShape, h: int) -> int {
    h / (s.n_q_heads as int / s.n_kv_heads as int)
}

/// The keys of key head `g`, token by token, the new one last.
pub open spec fn keys_seen(
    ar: Arith,
    s: GqaShape,
    t: AttnQuants,
    m: spec_fn(Buf, int) -> u32,
    g: int,
) -> Seq<Seq<u32>> {
    let d = s.head_dim as int;
    let x = exact::get(m, Buf::Norm, 0, s.embedding_dim as int);
    Seq::new(
        (s.token_offset + 1) as nat,
        |i: int|
            if i == s.token_offset {
                new_key(ar, s, t, x, g)
            } else {
                exact::get(m, Buf::KCache, i * s.kv_dim() + g * d, d)
            },
    )
}

/// The values of key head `g`, token by token, the new one last.
pub open spec fn values_seen(
    ar: Arith,
    s: GqaShape,
    t: AttnQuants,
    m: spec_fn(Buf, int) -> u32,
    g: int,
) -> Seq<Seq<u32>> {
    let d = s.head_dim as int;
    let x = exact::get(m, Buf::Norm, 0, s.embedding_dim as int);
    Seq::new(
        (s.token_offset + 1) as nat,
        |i: int|
            if i == s.token_offset {
                new_value(ar, s, t, x, g)
            } else {
                exact::get(m, Buf::VCache, i * s.kv_dim() + g * d, d)
            },
    )
}

/// The scores of the keys that head `h` sees for its query, token by token.
pub open spec fn scores_for(
    ar: Arith,
    s: GqaShape,
    t: AttnQuants,
    m: spec_fn(Buf, int) -> u32,
    h: int,
) -> Seq<u32> {
    let x = exact::get(m, Buf::Norm, 0, s.embedding_dim as int);
    let keys = keys_seen(ar, s, t, m, key_head(s, h));
    Seq::new(keys.len(), |i: int| (ar.score)(new_query(ar, s, t, x, h), keys[i]))
}

/// What head `h` attends to: the values seen, each with the weight of its key for the
/// query. `None` where the weights are not stable.
pub open spec fn attended(
    ar: Arith,
    s: GqaShape,
    t: AttnQuants,
    m: spec_fn(Buf, int) -> u32,
    h: int,
) -> Option<Seq<u32>> {
    let d = s.head_dim as int;
    let g = key_head(s, h);
    let x = exact::get(m, Buf::Norm, 0, s.embedding_dim as int);
    match weights_for(ar, new_query(ar, s, t, x, h), keys_seen(ar, s, t, m, g)) {
        Some(w) => Some(
            cut(blend(ar, d, w, values_seen(ar, s, t, m, g), (s.token_offset + 1) as nat), d),
        ),
        None => None,
    }
}

/// All heads side by side.
pub open spec fn all_attended(
    ar: Arith,
    s: GqaShape,
    t: AttnQuants,
    m: spec_fn(Buf, int) -> u32,
) -> Seq<u32> {
    let d = s.head_dim as int;
    Seq::new(s.q_dim() as nat, |i: int| attended(ar, s, t, m, i / d)->Some_0[i % d])
}

/// Attention goes through: all types have a kernel, the cache keeps the token, and
/// the weights of every head are stable.
pub open spec fn gqa_goes(ar: Arith, s: GqaShape, t: AttnQuants, m: spec_fn(Buf, int) -> u32) -> bool {
    gqa_starts(ar, s, t) && t.o.has_kernel() && forall|h: int|
        0 <= h < s.n_q_heads ==> (#[trigger] attended(ar, s, t, m, h)) is Some
}

/// What attention gives: the projection of what all heads attend to.
pub open spec fn gqa_value(ar: Arith, s: GqaShape, t: AttnQuants, m: spec_fn(Buf, int) -> u32) -> Seq<
    u32,
> {
    product(ar, Mat::AttnO, t.o, s.embedding_dim as int, all_attended(ar, s, t, m))
}

/// The weights of the first `n` heads are stable.
pub open spec fn stable(ar: Arith, s: GqaShape, a: spec_fn(Buf, int) -> u32, n: int) -> bool {
    forall|h: int| 0 <= h < n ==> (#[trigger] exact::head_weights(ar, s, h, a)) is Some
}

/// The first `n` heads of `r` hold the sums of the heads of `a`, and nothing but
/// scores, staging and sums differs.
pub open spec fn summed(
    ar: Arith,
    s: GqaShape,
    a: spec_fn(Buf, int) -> u32,
    r: spec_fn(Buf, int) -> u32,
    n: int,
) -> bool {
    &&& forall|h: int|
        #![trigger exact::head_weights(ar, s, h, a)]
        0 <= h < n ==> exact::get(r, Buf::Concat, h * s.head_dim, s.head_dim as int) == cut(
            exact::head_sum(ar, s, h, exact::head_weights(ar, s, h, a)->Some_0, a),
            s.head_dim as int,
        )
    &&& forall|c: Buf, i: int|
        c != Buf::Score && c != Buf::Head && c != Buf::Concat ==> #[trigger] r(c, i) == a(c, i)
}

proof fn lemma_one_more_head(
    ar: Arith,
    s: GqaShape,
    k: int,
    a: spec_fn(Buf, int) -> u32,
    b: spec_fn(Buf, int) -> u32,
)
    requires
        s.wf(),
        0 <= k < s.n_q_heads,
        summed(ar, s, a, b, k),
    ensures
        exact::run(ar, plan::sequential_head(s, k), b) is Some == exact::head_weights(
            ar,
            s,
            k,
            a,
        ) is Some,
        exact::run(ar, plan::sequential_head(s, k), b) matches Some(r) ==> summed(
            ar,
            s,
            a,
            r,
            k + 1,
        ),
{
    let d = s.head_dim as int;
    exact::lemma_sequential_head(ar, s, k, b);
    exact::lemma_head_frame(ar, s, k, Seq::empty(), b, a);
    if let Some(w) = exact::head_weights(ar, s, k, a) {
        exact::lemma_head_frame(ar, s, k, w, b, a);
        let r = exact::run(ar, plan::sequential_head(s, k), b)->Some_0;
        plan::lemma_head_fits(k, s.n_q_heads as int, d);
        let v = exact::head_sum(ar, s, k, w, a);
        assert(exact::get(r, Buf::Concat, k * d, d) =~= cut(v, d));
        assert forall|i: int| i < k * d implies #[trigger] r(Buf::Concat, i) == b(Buf::Concat, i) by {}
        assert forall|h: int|
            #![trigger exact::head_weights(ar, s, h, a)]
            0 <= h < k + 1 implies exact::get(r, Buf::Concat, h * s.head_dim, d) == cut(
            exact::head_sum(ar, s, h, exact::head_weights(ar, s, h, a)->Some_0, a),
            d,
        ) by {
            if h < k {
                plan::lemma_head_fits(h, k, d);
                assert(exact::get(r, Buf::Concat, h * d, d) =~= exact::get(
                    b,
                    Buf::Concat,
                    h * d,
                    d,
                ));
            }
        }
    }
}

/// The sequential heads leave their sums side by side.
pub proof fn lemma_sequential_values(ar: Arith, s: GqaShape, n: nat, a: spec_fn(Buf, int) -> u32)
    requires
        s.wf(),
        n <= s.n_q_heads,
    ensures
        exact::run(ar, plan::sequential_heads(s, 0, n), a) is Some == stable(ar, s, a, n as int),
        exact::run(ar, plan::sequential_heads(s, 0, n), a) matches Some(r) ==> summed(
            ar,
            s,
            a,
            r,
            n as int,
        ),
    decreases n,
{
    if n > 0 {
        let k = n - 1;
        lemma_sequential_values(ar, s, k as nat, a);
        exact::lemma_run_concat(
            ar,
            plan::sequential_heads(s, 0, k as nat),
            plan::sequential_head(s, k),
            a,
        );
        if let Some(b) = exact::run(ar, plan::sequential_heads(s, 0, k as nat), a) {
            lemma_one_more_head(ar, s, k, a, b);
            assert(stable(ar, s, a, n as int) == exact::head_weights(ar, s, k, a) is Some);
        }
    }
}

/// A sum over stretches of a buffer is the blend of what stands in them.
proof fn lemma_blend(
    ar: Arith,
    d: int,
    w: Seq<u32>,
    v: plan::Strided,
    m: spec_fn(Buf, int) -> u32,
    values: Seq<Seq<u32>>,
    n: nat,
)
    requires
        n <= values.len(),
        forall|i: int| 0 <= i < n ==> exact::stretch(m, v, i) == #[trigger] values[i],
    ensures
        exact::weighted_sum(ar, exact::zeros(d), w, m, v, n) == blend(ar, d, w, values, n),
    decreases n,
{
    if n > 0 {
        lemma_blend(ar, d, w, v, m, values, (n - 1) as nat);
        assert(exact::stretch(m, v, n - 1) == values[n - 1]);
    }
}

/// Weights beyond the last value do not count.
proof fn lemma_blend_cut(ar: Arith, d: int, w: Seq<u32>, values: Seq<Seq<u32>>, n: nat, k: nat)
    requires
        n <= k,
    ensures
        blend(ar, d, cut(w, k as int), values, n) == blend(ar, d, w, values, n),
    decreases n,
{
    if n > 0 {
        lemma_blend_cut(ar, d, w, values, (n - 1) as nat, k);
    }
}

/// A head after the caches are written sees the keys and values of all tokens.
pub proof fn lemma_head_sees(
    ar: Arith,
    s: GqaShape,
    t: AttnQuants,
    m: spec_fn(Buf, int) -> u32,
    a: spec_fn(Buf, int) -> u32,
    h: int,
)
    requires
        s.wf(),
        0 <= h < s.n_q_heads,
        gqa_cached(ar, s, t, m, a),
        exact::get(a, Buf::QOut, h * s.head_dim, s.head_dim as int) == new_query(
            ar,
            s,
            t,
            exact::get(m, Buf::Norm, 0, s.embedding_dim as int),
            h,
        ),
    ensures
        exact::head_weights(ar, s, h, a) is Some == attended(ar, s, t, m, h) is Some,
        exact::head_weights(ar, s, h, a) matches Some(w) ==> attended(ar, s, t, m, h) == Some(
            cut(exact::head_sum(ar, s, h, w, a), s.head_dim as int),
        ),
        exact::scores(
            ar,
            exact::read(a, plan::span(Buf::QOut, h * s.head_dim, s.head_dim as int)),
            a,
            exact::cache_of(s, h, Buf::KCache),
        ) == scores_for(ar, s, t, m, h),
{
    let d = s.head_dim as int;
    let n = s.token_offset + 1;
    let g = key_head(s, h);
    let kd = s.kv_dim();
    let x = exact::get(m, Buf::Norm, 0, s.embedding_dim as int);
    let q = new_query(ar, s, t, x, h);
    let keys = keys_seen(ar, s, t, m, g);
    let values = values_seen(ar, s, t, m, g);
    plan::lemma_kv_head(s, h);
    plan::lemma_head_fits(g, s.n_kv_heads as int, d);
    plan::lemma_head_fits(h, s.n_q_heads as int, d);
    let kc = exact::cache_of(s, h, Buf::KCache);
    let vc = exact::cache_of(s, h, Buf::VCache);
    assert(kc.start == g * d && kc.stride == kd && kc.count == n && vc.start == g * d && vc.stride
        == kd);
    assert forall|i: int| 0 <= i < n implies exact::stretch(a, kc, i) == #[trigger] keys[i]
        && exact::stretch(a, vc, i) == values[i] by {
        if i == s.token_offset {
            assert(exact::stretch(a, kc, i) == new_key(ar, s, t, x, g));
            assert(exact::stretch(a, vc, i) == new_value(ar, s, t, x, g));
        } else {
            assert(i * kd + kd <= s.token_offset * kd) by (nonlinear_arith)
                requires
                    0 <= i < s.token_offset,
                    0 <= kd,
            ;
            assert(exact::stretch(a, kc, i) =~= exact::get(m, Buf::KCache, i * kd + g * d, d));
            assert(exact::stretch(a, vc, i) =~= exact::get(m, Buf::VCache, i * kd + g * d, d));
        }
    }
    assert forall|i: int| 0 <= i < n implies exact::stretch(a, vc, i) == #[trigger] values[i] by {
        assert(keys[i] == keys[i]);
    }
    assert(exact::read(a, plan::span(Buf::QOut, h * d, d)) =~= q);
    assert(exact::scores(ar, q, a, kc) =~= Seq::new(
        keys.len(),
        |i: int| (ar.score)(q, keys[i]),
    ));
    if let Some(w) = exact::head_weights(ar, s, h, a) {
        let some = Seq::new(n as nat, |i: int| w[i]);
        assert(some =~= cut(w, n));
        lemma_blend(ar, d, some, vc, a, values, n as nat);
        lemma_blend_cut(ar, d, w, values, n as nat, n as nat);
    }
}

proof fn lemma_stable(
    ar: Arith,
    s: GqaShape,
    t: AttnQuants,
    m: spec_fn(Buf, int) -> u32,
    a: spec_fn(Buf, int) -> u32,
)
    requires
        s.wf(),
        gqa_cached(ar, s, t, m, a),
        ({
            let x = exact::get(m, Buf::Norm, 0, s.embedding_dim as int);
            forall|h: int|
                #![trigger new_query(ar, s, t, x, h)]
                0 <= h < s.n_q_heads ==> exact::get(
                    a,
                    Buf::QOut,
                    h * s.head_dim,
                    s.head_dim as int,
                ) == new_query(ar, s, t, x, h)
        }),
    ensures
        stable(ar, s, a, s.n_q_heads as int) == (forall|h: int|
            0 <= h < s.n_q_heads ==> (#[trigger] attended(ar, s, t, m, h)) is Some),
{
    let x = exact::get(m, Buf::Norm, 0, s.embedding_dim as int);
    assert forall|h: int| 0 <= h < s.n_q_heads implies (#[trigger] exact::head_weights(
        ar,
        s,
        h,
        a,
    )) is Some == attended(ar, s, t, m, h) is Some by {
        assert(new_query(ar, s, t, x, h) == new_query(ar, s, t, x, h));
        lemma_head_sees(ar, s, t, m, a, h);
    }
    if stable(ar, s, a, s.n_q_heads as int) {
        assert forall|h: int| 0 <= h < s.n_q_heads implies (#[trigger] attended(
            ar,
            s,
            t,
            m,
            h,
        )) is Some by {
            assert(exact::head_weights(ar, s, h, a) is Some);
        }
    }
}

/// Attention of one token, under every setting: it goes through exactly where the
/// types have kernels, the cache keeps the token and all weights are stable. It leaves
/// the turned and normalised keys of the token and its values in its row of the
/// caches, what each head attends to in its place, and the projection of all of it in
/// the output.
#[verifier::spinoff_prover]
pub proof fn lemma_gqa_value(
    ar: Arith,
    s: GqaShape,
    t: AttnQuants,
    fused: bool,
    min_tokens: usize,
    n_cores: usize,
    m: spec_fn(Buf, int) -> u32,
)
    requires
        s.wf(),
        ar.layer == s.layer,
    ensures
        exact::run(ar, plan::gqa_program(s, t, fused, min_tokens, n_cores), m) is Some == gqa_goes(
            ar,
            s,
            t,
            m,
        ),
        s.q_dim() == s.n_q_heads * s.head_dim,
        s.kv_dim() == s.n_kv_heads * s.head_dim,
        exact::run(ar, plan::gqa_program(s, t, fused, min_tokens, n_cores), m) matches Some(r) ==> {
            &&& gqa_cached(ar, s, t, m, r)
            &&& forall|h: int|
                #![trigger attended(ar, s, t, m, h)]
                0 <= h < s.n_q_heads ==> Some(
                    exact::get(r, Buf::Concat, h * s.head_dim, s.head_dim as int),
                ) == attended(ar, s, t, m, h)
            &&& exact::get(r, Buf::AttnOut, 0, s.embedding_dim as int) == gqa_value(ar, s, t, m)
            &&& gqa_rest(r, m)
        },
{
    let d = s.head_dim as int;
    let e = s.embedding_dim as int;
    let nq = s.n_q_heads as nat;
    let x = exact::get(m, Buf::Norm, 0, e);
    let head = plan::gqa_head(s, t, false);
    let heads = plan::sequential_heads(s, 0, nq);
    let out = plan::gqa_out(s, t);
    exact::lemma_as_sequential(ar, s, t, fused, min_tokens, n_cores, m);
    exact::lemma_run_concat(ar, head + heads, seq![out], m);
    exact::lemma_run_concat(ar, head, heads, m);
    lemma_gqa_head(ar, s, t, m);
    if let Some(a) = exact::run(ar, head, m) {
        lemma_sequential_values(ar, s, nq, a);
        lemma_stable(ar, s, t, m, a);
        if let Some(b) = exact::run(ar, heads, a) {
            exact::lemma_run_one(ar, out, b);
            if t.o.has_kernel() {
                lemma_gqa_end(ar, s, t, m, a, b, fused, min_tokens, n_cores);
            }
        }
    }
}

pub proof fn lemma_gqa_end(
    ar: Arith,
    s: GqaShape,
    t: AttnQuants,
    m: spec_fn(Buf, int) -> u32,
    a: spec_fn(Buf, int) -> u32,
    b: spec_fn(Buf, int) -> u32,
    fused: bool,
    min_tokens: usize,
    n_cores: usize,
)
    requires
        s.wf(),
        ar.layer == s.layer,
        t.o.has_kernel(),
        exact::run(ar, plan::gqa_head(s, t, false), m) == Some(a),
        exact::run(ar, plan::sequential_heads(s, 0, s.n_q_heads as nat), a) == Some(b),
        exact::run(ar, exact::plain(s, t), m) == exact::run_op(ar, plan::gqa_out(s, t), b),
        exact::same_outcome(
            exact::run(ar, exact::plain(s, t), m),
            exact::run(ar, plan::gqa_program(s, t, fused, min_tokens, n_cores), m),
        ),
    ensures
        exact::run(ar, plan::gqa_program(s, t, fused, min_tokens, n_cores), m) matches Some(r) && {
            &&& gqa_cached(ar, s, t, m, r)
            &&& forall|h: int|
                #![trigger attended(ar, s, t, m, h)]
                0 <= h < s.n_q_heads ==> Some(
                    exact::get(r, Buf::Concat, h * s.head_dim, s.head_dim as int),
                ) == attended(ar, s, t, m, h)
            &&& exact::get(r, Buf::AttnOut, 0, s.embedding_dim as int) == gqa_value(ar, s, t, m)
            &&& gqa_rest(r, m)
        },
{
    let d = s.head_dim as int;
    let e = s.embedding_dim as int;
    let nq = s.n_q_heads as nat;
    let x = exact::get(m, Buf::Norm, 0, e);
    let row = s.token_offset * s.kv_dim();
    lemma_gqa_head(ar, s, t, m);
    lemma_sequential_values(ar, s, nq, a);
    assert(s.q_dim() >= 0) by (nonlinear_arith)
        requires
            s.q_dim() == s.n_q_heads * s.head_dim,
    ;
    let p = Projection {
        w: Mat::AttnO,
        x: plan::span(Buf::Concat, 0, s.q_dim()),
        out: plan::span(Buf::AttnOut, 0, e),
        quant: t.o,
    };
    lemma_linear(ar, p, b);
    let c = exact::run_op(ar, plan::gqa_out(s, t), b)->Some_0;
    let r = exact::run(ar, plan::gqa_program(s, t, fused, min_tokens, n_cores), m)->Some_0;
    assert forall|k: Buf, i: int| k != Buf::Score && k != Buf::Head && k != Buf::Concat && k
        != Buf::AttnOut implies #[trigger] r(k, i) == a(k, i) by {
        assert(c(k, i) == r(k, i));
        assert(b(k, i) == a(k, i));
    }
    assert forall|g: int|
        #![trigger new_key(ar, s, t, x, g)]
        0 <= g < s.n_kv_heads implies exact::get(r, Buf::KCache, row + g * d, d) == new_key(
        ar,
        s,
        t,
        x,
        g,
    ) by {
        assert(exact::get(r, Buf::KCache, row + g * d, d) =~= exact::get(
            a,
            Buf::KCache,
            row + g * d,
            d,
        ));
    }
    assert forall|g: int|
        #![trigger new_value(ar, s, t, x, g)]
        0 <= g < s.n_kv_heads implies exact::get(r, Buf::VCache, row + g * d, d) == new_value(
        ar,
        s,
        t,
        x,
        g,
    ) by {
        assert(exact::get(r, Buf::VCache, row + g * d, d) =~= exact::get(
            a,
            Buf::VCache,
            row + g * d,
            d,
        ));
    }
    assert forall|i: int| (#[trigger] r(Buf::Concat, i)) == b(Buf::Concat, i) by {
        assert(c(Buf::Concat, i) == r(Buf::Concat, i));
    }
    assert forall|h: int|
        #![trigger attended(ar, s, t, m, h)]
        0 <= h < s.n_q_heads implies Some(exact::get(r, Buf::Concat, h * s.head_dim, d)) == attended(
        ar,
        s,
        t,
        m,
        h,
    ) by {
        assert(new_query(ar, s, t, x, h) == new_query(ar, s, t, x, h));
        lemma_head_sees(ar, s, t, m, a, h);
        assert(exact::head_weights(ar, s, h, a) is Some);
        assert(exact::get(r, Buf::Concat, h * d, d) =~= exact::get(b, Buf::Concat, h * d, d));
    }
    assert(exact::read(b, p.x) =~= all_attended(ar, s, t, m)) by {
        assert forall|i: int| 0 <= i < s.q_dim() implies b(Buf::Concat, i) == #[trigger] attended(
            ar,
            s,
            t,
            m,
            i / d,
        )->Some_0[i % d] by {
            assert(d > 0) by (nonlinear_arith)
                requires
                    0 <= i < s.n_q_heads * d,
                    d >= 0,
            ;
            let h = i / d;
            vstd::arithmetic::div_mod::lemma_fundamental_div_mod(i, d);
            vstd::arithmetic::div_mod::lemma_mod_bound(i, d);
            assert(0 <= h < s.n_q_heads && h * d + i % d == i) by (nonlinear_arith)
                requires
                    i == d * h + i % d,
                    0 <= i % d < d,
                    0 <= i < s.n_q_heads * d,
            ;
            assert(Some(exact::get(r, Buf::Concat, h * s.head_dim, d)) == attended(ar, s, t, m, h));
            assert(exact::get(r, Buf::Concat, h * d, d)[i % d] == r(Buf::Concat, h * d + i % d));
        }
    }
    assert(exact::get(r, Buf::AttnOut, 0, e) =~= exact::read(c, p.out)) by {
        assert forall|i: int| (#[trigger] c(Buf::AttnOut, i)) == r(Buf::AttnOut, i) by {}
    }
}

} // verus!
