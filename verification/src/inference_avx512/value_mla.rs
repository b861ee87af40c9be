//! What latent attention computes, as a function of the values in its inputs.

use crate::inference_avx512::exact;
use crate::inference_avx512::exact::Arith;
use crate::inference_avx512::mla;
use crate::inference_avx512::mla::MlaShape;
use crate::inference_avx512::plan;
use crate::inference_avx512::plan::{Buf, Mat, NormWeight, Op, Projection, Strided};
use crate::inference_avx512::value;
use crate::inference_avx512::value::{
    lemma_fill, lemma_fill_between, lemma_linear, lemma_run_fill,
};
use vstd::prelude::*;

verus! {

/// `n` elements of `v` from `lo` on.
pub open spec fn sub_of(v: Seq<u32>, lo: int, n: int) -> Seq<u32> {
    Seq::new(n as nat, |i: int| v[lo + i])
}

/// The first `n` of `values`, added from zero in order, each with its weight.
pub open spec fn gather(ar: Arith, d: int, w: Seq<u32>, values: Seq<Seq<u32>>, n: nat) -> Seq<u32>
    decreases n,
{
    if n == 0 {
        exact::zeros(d)
    } else {
        value::cut(
            (ar.add_weighted)(gather(ar, d, w, values, (n - 1) as nat), w[n - 1], values[n - 1]),
            d,
        )
    }
}

/// The latent and the position part of the key, before normalisation.
pub open spec fn compressed(ar: Arith, s: MlaShape, x: Seq<u32>) -> Seq<u32> {
    value::product(ar, Mat::KvA, s.quant, s.kv_lora_rank + s.qk_rope_head_dim, x)
}

/// The latent of the token with input `x`.
pub open spec fn new_latent(ar: Arith, s: MlaShape, x: Seq<u32>) -> Seq<u32> {
    value::normed(ar, NormWeight::KvANorm, sub_of(compressed(ar, s, x), 0, s.kv_lora_rank as int))
}

/// The position part of the key of the token with input `x`.
pub open spec fn new_turned_key(ar: Arith, s: MlaShape, x: Seq<u32>) -> Seq<u32> {
    let k = sub_of(compressed(ar, s, x), s.kv_lora_rank as int, s.qk_rope_head_dim as int);
    value::turned(
        ar,
        if s.k_norm {
            value::normed(ar, NormWeight::MlaKNorm, k)
        } else {
            k
        },
    )
}

/// The queries of all heads, before they are turned.
pub open spec fn queries(ar: Arith, s: MlaShape, x: Seq<u32>) -> Seq<u32> {
    let c = value::product(ar, Mat::QA, s.quant, s.q_lora_rank as int, x);
    value::product(
        ar,
        Mat::QB,
        s.quant,
        s.n_heads * (s.qk_nope_head_dim + s.qk_rope_head_dim),
        value::normed(ar, NormWeight::QANorm, c),
    )
}

/// The plain part of the query of head `h`.
pub open spec fn plain_query(ar: Arith, s: MlaShape, x: Seq<u32>, h: int) -> Seq<u32> {
    sub_of(
        queries(ar, s, x),
        h * (s.qk_nope_head_dim + s.qk_rope_head_dim),
        s.qk_nope_head_dim as int,
    )
}

/// The position part of the query of head `h`.
pub open spec fn turned_query(ar: Arith, s: MlaShape, x: Seq<u32>, h: int) -> Seq<u32> {
    value::turned(
        ar,
        sub_of(
            queries(ar, s, x),
            h * (s.qk_nope_head_dim + s.qk_rope_head_dim) + s.qk_nope_head_dim,
            s.qk_rope_head_dim as int,
        ),
    )
}

/// The latent of token `i`, the new one last.
pub open spec fn latent_seen(ar: Arith, s: MlaShape, m: spec_fn(Buf, int) -> u32, i: int) -> Seq<u32> {
    let r = s.kv_lora_rank as int;
    if i == s.token_offset {
        new_latent(ar, s, exact::get(m, Buf::Norm, 0, s.embedding_dim as int))
    } else {
        exact::get(m, Buf::CKvCache, i * r, r)
    }
}

/// The position part of the key of token `i`, the new one last.
pub open spec fn turned_key_seen(
    ar: Arith,
    s: MlaShape,
    m: spec_fn(Buf, int) -> u32,
    i: int,
) -> Seq<u32> {
    let r = s.qk_rope_head_dim as int;
    if i == s.token_offset {
        new_turned_key(ar, s, exact::get(m, Buf::Norm, 0, s.embedding_dim as int))
    } else {
        exact::get(m, Buf::KRopeCache, i * r, r)
    }
}

/// The plain part of the key of head `h`, from the latent `c`.
pub open spec fn key_of(ar: Arith, s: MlaShape, c: Seq<u32>, h: int) -> Seq<u32> {
    let n = s.qk_nope_head_dim as int;
    if s.split_kv_b {
        sub_of(value::product(ar, Mat::KB, s.quant, s.n_heads * n, c), h * n, n)
    } else {
        let d = n + s.v_head_dim;
        sub_of(value::product(ar, Mat::KvB, s.quant, s.n_heads * d, c), h * d, n)
    }
}

/// The value of head `h`, from the latent `c`.
pub open spec fn value_of(ar: Arith, s: MlaShape, c: Seq<u32>, h: int) -> Seq<u32> {
    let v = s.v_head_dim as int;
    if s.split_kv_b {
        sub_of(value::product(ar, Mat::VB, s.quant, s.n_heads * v, c), h * v, v)
    } else {
        let d = s.qk_nope_head_dim + v;
        sub_of(
            value::product(ar, Mat::KvB, s.quant, s.n_heads * d, c),
            h * d + s.qk_nope_head_dim,
            v,
        )
    }
}

/// The score of head `h` for token `i`: both parts of the query with both parts of
/// the key.
pub open spec fn score_of(
    ar: Arith,
    s: MlaShape,
    m: spec_fn(Buf, int) -> u32,
    h: int,
    i: int,
) -> u32 {
    let x = exact::get(m, Buf::Norm, 0, s.embedding_dim as int);
    (ar.score2)(
        plain_query(ar, s, x, h),
        key_of(ar, s, latent_seen(ar, s, m, i), h),
        turned_query(ar, s, x, h),
        turned_key_seen(ar, s, m, i),
    )
}

/// The weights of all tokens for head `h`; `None` where they are not stable.
pub open spec fn weights_of(ar: Arith, s: MlaShape, m: spec_fn(Buf, int) -> u32, h: int) -> Option<
    Seq<u32>,
> {
    (ar.softmax)(Seq::new((s.token_offset + 1) as nat, |i: int| score_of(ar, s, m, h, i)))
}

/// The values of head `h`, token by token.
pub open spec fn values_of(ar: Arith, s: MlaShape, m: spec_fn(Buf, int) -> u32, h: int) -> Seq<
    Seq<u32>,
> {
    Seq::new(
        (s.token_offset + 1) as nat,
        |i: int| value_of(ar, s, latent_seen(ar, s, m, i), h),
    )
}

/// What head `h` attends to: the values of all tokens, each with the weight of its
/// token.
pub open spec fn attended(ar: Arith, s: MlaShape, m: spec_fn(Buf, int) -> u32, h: int) -> Seq<u32> {
    gather(
        ar,
        s.v_head_dim as int,
        weights_of(ar, s, m, h)->Some_0,
        values_of(ar, s, m, h),
        (s.token_offset + 1) as nat,
    )
}

/// All heads side by side.
pub open spec fn all_attended(ar: Arith, s: MlaShape, m: spec_fn(Buf, int) -> u32) -> Seq<u32> {
    let d = s.v_head_dim as int;
    Seq::new((s.n_heads * d) as nat, |i: int| attended(ar, s, m, i / d)[i % d])
}

/// Attention goes through: the type has a kernel, the cache keeps the token, and the
/// weights of every head are stable.
pub open spec fn mla_goes(ar: Arith, s: MlaShape, m: spec_fn(Buf, int) -> u32) -> bool {
    s.quant.has_kernel() && (ar.keeps)(s.layer, s.token_offset) && forall|h: int|
        0 <= h < s.n_heads ==> (#[trigger] weights_of(ar, s, m, h)) is Some
}

/// What latent attention gives: the projection of what all heads attend to.
pub open spec fn mla_value(ar: Arith, s: MlaShape, m: spec_fn(Buf, int) -> u32) -> Seq<u32> {
    value::product(ar, Mat::MlaOut, s.quant, s.embedding_dim as int, all_attended(ar, s, m))
}

/// `r` has the latent and the position part of the token's key in the row of the
/// token, and all else in the caches as `m` had it.
pub open spec fn mla_cached(
    ar: Arith,
    s: MlaShape,
    m: spec_fn(Buf, int) -> u32,
    r: spec_fn(Buf, int) -> u32,
) -> bool {
    let x = exact::get(m, Buf::Norm, 0, s.embedding_dim as int);
    let c = s.kv_lora_rank as int;
    let p = s.qk_rope_head_dim as int;
    let t = s.token_offset as int;
    &&& exact::get(r, Buf::CKvCache, t * c, c) == new_latent(ar, s, x)
    &&& exact::get(r, Buf::KRopeCache, t * p, p) == new_turned_key(ar, s, x)
    &&& forall|i: int|
        i < t * c || i >= t * c + c ==> #[trigger] r(Buf::CKvCache, i) == m(Buf::CKvCache, i)
    &&& forall|i: int|
        i < t * p || i >= t * p + p ==> #[trigger] r(Buf::KRopeCache, i) == m(Buf::KRopeCache, i)
}

/// The buffers that latent attention writes.
pub open spec fn mla_writes(b: Buf) -> bool {
    b == Buf::CKvRope || b == Buf::CKvNorm || b == Buf::CQ || b == Buf::CQNorm || b
        == Buf::QDecompressed || b == Buf::KvDecompressed || b == Buf::CKvCache || b
        == Buf::KRopeCache || b == Buf::Score || b == Buf::Concat || b == Buf::AttnOut
}

/// `a` and `b` agree in every buffer that latent attention does not write.
pub open spec fn mla_rest(a: spec_fn(Buf, int) -> u32, b: spec_fn(Buf, int) -> u32) -> bool {
    forall|c: Buf, i: int| !mla_writes(c) ==> #[trigger] a(c, i) == b(c, i)
}

/// `a` and `b` agree in every buffer but `p` and `q`.
pub open spec fn same_but(
    a: spec_fn(Buf, int) -> u32,
    b: spec_fn(Buf, int) -> u32,
    p: Buf,
    q: Buf,
) -> bool {
    forall|c: Buf, i: int| c != p && c != q ==> #[trigger] a(c, i) == b(c, i)
}

/// The queries of all heads stand in `a`, turned, and the caches of `a` hold the rows
/// of all tokens.
pub open spec fn prepared(
    ar: Arith,
    s: MlaShape,
    m: spec_fn(Buf, int) -> u32,
    a: spec_fn(Buf, int) -> u32,
) -> bool {
    let x = exact::get(m, Buf::Norm, 0, s.embedding_dim as int);
    let n = s.qk_nope_head_dim as int;
    let p = s.qk_rope_head_dim as int;
    let c = s.kv_lora_rank as int;
    &&& forall|h: int|
        #![trigger plain_query(ar, s, x, h)]
        0 <= h < s.n_heads ==> exact::get(a, Buf::QDecompressed, h * (n + p), n) == plain_query(
            ar,
            s,
            x,
            h,
        )
    &&& forall|h: int|
        #![trigger turned_query(ar, s, x, h)]
        0 <= h < s.n_heads ==> exact::get(a, Buf::QDecompressed, h * (n + p) + n, p)
            == turned_query(ar, s, x, h)
    &&& forall|i: int|
        #![trigger latent_seen(ar, s, m, i)]
        0 <= i <= s.token_offset ==> exact::get(a, Buf::CKvCache, i * c, c) == latent_seen(
            ar,
            s,
            m,
            i,
        )
    &&& forall|i: int|
        #![trigger turned_key_seen(ar, s, m, i)]
        0 <= i <= s.token_offset ==> exact::get(a, Buf::KRopeCache, i * p, p) == turned_key_seen(
            ar,
            s,
            m,
            i,
        )
}

/// The key of the token: compressed, normalised, turned where it stands.
proof fn lemma_new_key(ar: Arith, s: MlaShape, m: spec_fn(Buf, int) -> u32)
    requires
        s.wf(),
        s.quant.has_kernel(),
    ensures
        ({
            let x = exact::get(m, Buf::Norm, 0, s.embedding_dim as int);
            let c = s.kv_lora_rank as int;
            let p = s.qk_rope_head_dim as int;
            exact::run(ar, key_ops(s), m) matches Some(r) && {
                &&& exact::get(r, Buf::CKvNorm, 0, c) == new_latent(ar, s, x)
                &&& exact::get(r, Buf::CKvRope, c, p) == new_turned_key(ar, s, x)
                &&& same_but(r, m, Buf::CKvRope, Buf::CKvNorm)
            }
        }),
{
    let x = exact::get(m, Buf::Norm, 0, s.embedding_dim as int);
    let c = s.kv_lora_rank as int;
    let p = s.qk_rope_head_dim as int;
    let all = compressed(ar, s, x);
    let k = sub_of(all, c, p);
    let lin = Projection {
        w: Mat::KvA,
        x: plan::span(Buf::Norm, 0, s.embedding_dim as int),
        out: plan::span(Buf::CKvRope, 0, s.kv_a_dim()),
        quant: s.quant,
    };
    let norm = Op::RmsNorm {
        x: plan::span(Buf::CKvRope, 0, c),
        w: NormWeight::KvANorm,
        out: plan::span(Buf::CKvNorm, 0, c),
    };
    let at = mla::k_rope_span(s);
    let knorm = Op::RmsNorm { x: at, w: NormWeight::MlaKNorm, out: at };
    let rope = Op::Rope { at };
    exact::lemma_run_two(ar, Op::Linear(lin), norm, m);
    lemma_linear(ar, lin, m);
    let m1 = exact::run_op(ar, Op::Linear(lin), m)->Some_0;
    assert(exact::read(m, lin.x) =~= x);
    assert(exact::read(m1, lin.out) =~= all);
    assert forall|i: int| 0 <= i < c + p implies m1(Buf::CKvRope, i) == #[trigger] all[i] by {
        assert(exact::read(m1, lin.out)[i] == all[i]);
    }
    let m2 = exact::run_op(ar, norm, m1)->Some_0;
    assert(exact::read(m1, plan::span(Buf::CKvRope, 0, c)) =~= sub_of(all, 0, c));
    assert(exact::get(m2, Buf::CKvNorm, 0, c) =~= new_latent(ar, s, x));
    assert(exact::read(m2, at) =~= k);
    let base = seq![Op::Linear(lin), norm];
    assert(exact::run(ar, base, m) == Some(m2));
    if s.k_norm {
        assert(key_ops(s) =~= base.push(knorm).push(rope));
        exact::lemma_run_push(ar, base, knorm, m);
        exact::lemma_run_push(ar, base.push(knorm), rope, m);
        let m3 = exact::run_op(ar, knorm, m2)->Some_0;
        let r = exact::run_op(ar, rope, m3)->Some_0;
        assert(exact::read(m3, at) =~= value::normed(ar, NormWeight::MlaKNorm, k));
        assert(exact::get(r, Buf::CKvRope, c, p) =~= new_turned_key(ar, s, x));
        assert(exact::get(r, Buf::CKvNorm, 0, c) =~= exact::get(m2, Buf::CKvNorm, 0, c));
    } else {
        assert(key_ops(s) =~= base.push(rope));
        exact::lemma_run_push(ar, base, rope, m);
        let r = exact::run_op(ar, rope, m2)->Some_0;
        assert(exact::get(r, Buf::CKvRope, c, p) =~= new_turned_key(ar, s, x));
        assert(exact::get(r, Buf::CKvNorm, 0, c) =~= exact::get(m2, Buf::CKvNorm, 0, c));
    }
}

/// The operations up to the turned key.
spec fn key_ops(s: MlaShape) -> Seq<Op> {
    let n = if s.k_norm {
        4
    } else {
        3int
    };
    mla::mla_head(s).take(n)
}

/// Everything before the heads: the caches have the rows of all tokens, and the
/// queries stand in their buffer, not turned yet.
proof fn lemma_mla_head(ar: Arith, s: MlaShape, m: spec_fn(Buf, int) -> u32)
    requires
        s.wf(),
        ar.layer == s.layer,
    ensures
        exact::run(ar, mla::mla_head(s), m) is Some == (s.quant.has_kernel() && (ar.keeps)(
            s.layer,
            s.token_offset,
        )),
        exact::run(ar, mla::mla_head(s), m) matches Some(r) ==> {
            let x = exact::get(m, Buf::Norm, 0, s.embedding_dim as int);
            &&& mla_cached(ar, s, m, r)
            &&& exact::get(r, Buf::QDecompressed, 0, s.n_heads * s.q_head()) == queries(ar, s, x)
            &&& mla_rest(r, m)
        },
{
    mla::lemma_products(s);
    let e = s.embedding_dim as int;
    let c = s.kv_lora_rank as int;
    let p = s.qk_rope_head_dim as int;
    let q = s.q_lora_rank as int;
    let x = exact::get(m, Buf::Norm, 0, e);
    let a = key_ops(s);
    let store = Op::StoreCompressed {
        layer: s.layer,
        token: s.token_offset,
        c: plan::span(Buf::CKvNorm, 0, c),
        rope: mla::k_rope_span(s),
    };
    let qa = Projection {
        w: Mat::QA,
        x: plan::span(Buf::Norm, 0, e),
        out: plan::span(Buf::CQ, 0, q),
        quant: s.quant,
    };
    let norm = Op::RmsNorm {
        x: plan::span(Buf::CQ, 0, q),
        w: NormWeight::QANorm,
        out: plan::span(Buf::CQNorm, 0, q),
    };
    let qb = Projection {
        w: Mat::QB,
        x: plan::span(Buf::CQNorm, 0, q),
        out: plan::span(Buf::QDecompressed, 0, s.n_heads * s.q_head()),
        quant: s.quant,
    };
    let b = a.push(store);
    let d = b.push(Op::Linear(qa));
    let f = d.push(norm);
    assert(mla::mla_head(s) =~= f.push(Op::Linear(qb)));
    exact::lemma_run_push(ar, a, store, m);
    exact::lemma_run_push(ar, b, Op::Linear(qa), m);
    exact::lemma_run_push(ar, d, norm, m);
    exact::lemma_run_push(ar, f, Op::Linear(qb), m);
    if !s.quant.has_kernel() {
        exact::lemma_run_concat(ar, seq![mla::mla_head(s)[0]], a.skip(1), m);
        exact::lemma_run_one(ar, mla::mla_head(s)[0], m);
        assert(a =~= seq![mla::mla_head(s)[0]] + a.skip(1));
    } else {
        lemma_new_key(ar, s, m);
        let m1 = exact::run(ar, a, m)->Some_0;
        if (ar.keeps)(s.layer, s.token_offset) {
            let m2 = exact::run_op(ar, store, m1)->Some_0;
            let t = s.token_offset as int;
            assert(exact::get(m2, Buf::CKvCache, t * c, c) =~= exact::get(m1, Buf::CKvNorm, 0, c));
            assert(exact::get(m2, Buf::KRopeCache, t * p, p) =~= exact::get(m1, Buf::CKvRope, c, p));
            lemma_linear(ar, qa, m2);
            let m3 = exact::run_op(ar, Op::Linear(qa), m2)->Some_0;
            assert(exact::read(m2, qa.x) =~= x);
            let m4 = exact::run_op(ar, norm, m3)->Some_0;
            let cq = value::product(ar, Mat::QA, s.quant, q, x);
            assert(exact::read(m3, plan::span(Buf::CQ, 0, q)) =~= cq);
            assert(exact::read(m4, qb.x) =~= value::normed(ar, NormWeight::QANorm, cq));
            lemma_linear(ar, qb, m4);
            let r = exact::run_op(ar, Op::Linear(qb), m4)->Some_0;
            assert(exact::get(r, Buf::CKvCache, t * c, c) =~= exact::get(m2, Buf::CKvCache, t * c, c));
            assert(exact::get(r, Buf::KRopeCache, t * p, p) =~= exact::get(
                m2,
                Buf::KRopeCache,
                t * p,
                p,
            ));
            assert(exact::get(r, Buf::QDecompressed, 0, s.n_heads * s.q_head()) =~= queries(
                ar,
                s,
                x,
            ));
        }
    }
}

/// Each query head turned in its position part.
proof fn lemma_turned_queries(
    ar: Arith,
    s: MlaShape,
    m: spec_fn(Buf, int) -> u32,
    a: spec_fn(Buf, int) -> u32,
)
    requires
        s.wf(),
        mla_cached(ar, s, m, a),
        exact::get(a, Buf::QDecompressed, 0, s.n_heads * s.q_head()) == queries(
            ar,
            s,
            exact::get(m, Buf::Norm, 0, s.embedding_dim as int),
        ),
    ensures
        exact::run(ar, mla::q_rope_ops(s), a) matches Some(r) && {
            &&& prepared(ar, s, m, r)
            &&& mla_cached(ar, s, m, r)
            &&& same_but(r, a, Buf::QDecompressed, Buf::QDecompressed)
        },
{
    mla::lemma_products(s);
    let n = s.qk_nope_head_dim as int;
    let p = s.qk_rope_head_dim as int;
    let c = s.kv_lora_rank as int;
    let d = n + p;
    let k = s.n_heads as nat;
    let x = exact::get(m, Buf::Norm, 0, s.embedding_dim as int);
    let all = queries(ar, s, x);
    let ops = mla::q_rope_ops(s);
    let b = Buf::QDecompressed;
    let val = |h: int| (ar.rope)(exact::get(a, b, n + h * d, p));
    assert forall|h: int| 0 <= h < k implies {
        let before = fill_q(a, s, val, h as nat);
        exact::run_op(ar, #[trigger] ops[h], before) == Some(
            exact::put(before, b, n + h * d, p, val(h)),
        )
    } by {
        let before = fill_q(a, s, val, h as nat);
        plan::lemma_head_fits(h, k as int, d);
        lemma_fill(a, b, n, d, p, val, h as nat);
        let at = plan::span(b, h * s.q_head() + s.qk_nope_head_dim, p);
        assert(at.start == n + h * d);
        assert(exact::read(before, at) =~= exact::get(a, b, n + h * d, p));
    }
    lemma_run_fill(ar, ops, a, b, n, d, p, val, k);
    assert(ops.take(k as int) =~= ops);
    lemma_fill(a, b, n, d, p, val, k);
    let r = fill_q(a, s, val, k);
    assert forall|i: int| 0 <= i < k * d implies a(b, i) == #[trigger] all[i] by {
        assert(exact::get(a, b, 0, s.n_heads * s.q_head())[i] == all[i]);
    }
    assert forall|h: int|
        #![trigger plain_query(ar, s, x, h)]
        0 <= h < k implies exact::get(r, b, h * d, n) == plain_query(ar, s, x, h) by {
        plan::lemma_head_fits(h, k as int, d);
        assert forall|i: int| 0 <= i < n implies r(b, h * d + i) == #[trigger] all[h * d + i] by {
            assert forall|g: int| 0 <= g < k implies h * d + i < #[trigger] (n + g * d) || h * d + i
                >= n + g * d + p by {
                if g < h {
                    plan::lemma_head_fits(g, h, d);
                } else if h < g {
                    plan::lemma_head_fits(h, g, d);
                }
            }
            lemma_fill_between(a, b, n, d, p, val, k, h * d + i);
        }
        assert(exact::get(r, b, h * d, n) =~= plain_query(ar, s, x, h));
    }
    assert forall|h: int|
        #![trigger turned_query(ar, s, x, h)]
        0 <= h < k implies exact::get(r, b, h * d + n, p) == turned_query(ar, s, x, h) by {
        plan::lemma_head_fits(h, k as int, d);
        assert(exact::get(r, b, n + h * d, p) == value::cut(val(h), p));
        assert(exact::get(a, b, n + h * d, p) =~= sub_of(all, h * d + n, p));
        assert(value::cut(val(h), p) =~= turned_query(ar, s, x, h));
    }
    lemma_rows_seen(ar, s, m, a);
    assert forall|i: int|
        #![trigger latent_seen(ar, s, m, i)]
        0 <= i <= s.token_offset implies exact::get(r, Buf::CKvCache, i * c, c) == latent_seen(
        ar,
        s,
        m,
        i,
    ) by {
        assert(exact::get(r, Buf::CKvCache, i * c, c) =~= exact::get(a, Buf::CKvCache, i * c, c));
    }
    assert forall|i: int|
        #![trigger turned_key_seen(ar, s, m, i)]
        0 <= i <= s.token_offset implies exact::get(r, Buf::KRopeCache, i * p, p)
        == turned_key_seen(ar, s, m, i) by {
        assert(exact::get(r, Buf::KRopeCache, i * p, p) =~= exact::get(
            a,
            Buf::KRopeCache,
            i * p,
            p,
        ));
    }
    let t = s.token_offset as int;
    assert(exact::get(r, Buf::CKvCache, t * c, c) =~= exact::get(a, Buf::CKvCache, t * c, c));
    assert(exact::get(r, Buf::KRopeCache, t * p, p) =~= exact::get(a, Buf::KRopeCache, t * p, p));
}

spec fn fill_q(
    a: spec_fn(Buf, int) -> u32,
    s: MlaShape,
    val: spec_fn(int) -> Seq<u32>,
    n: nat,
) -> spec_fn(Buf, int) -> u32 {
    value::fill(
        a,
        Buf::QDecompressed,
        s.qk_nope_head_dim as int,
        s.qk_nope_head_dim + s.qk_rope_head_dim,
        s.qk_rope_head_dim as int,
        val,
        n,
    )
}

/// The caches hold the rows of all tokens.
proof fn lemma_rows_seen(
    ar: Arith,
    s: MlaShape,
    m: spec_fn(Buf, int) -> u32,
    a: spec_fn(Buf, int) -> u32,
)
    requires
        mla_cached(ar, s, m, a),
    ensures
        forall|i: int|
            #![trigger latent_seen(ar, s, m, i)]
            0 <= i <= s.token_offset ==> exact::get(
                a,
                Buf::CKvCache,
                i * s.kv_lora_rank,
                s.kv_lora_rank as int,
            ) == latent_seen(ar, s, m, i),
        forall|i: int|
            #![trigger turned_key_seen(ar, s, m, i)]
            0 <= i <= s.token_offset ==> exact::get(
                a,
                Buf::KRopeCache,
                i * s.qk_rope_head_dim,
                s.qk_rope_head_dim as int,
            ) == turned_key_seen(ar, s, m, i),
{
    let c = s.kv_lora_rank as int;
    let p = s.qk_rope_head_dim as int;
    let t = s.token_offset as int;
    assert forall|i: int|
        #![trigger latent_seen(ar, s, m, i)]
        0 <= i <= t implies exact::get(a, Buf::CKvCache, i * s.kv_lora_rank, c) == latent_seen(
        ar,
        s,
        m,
        i,
    ) by {
        if i < t {
            plan::lemma_head_fits(i, t, c);
            assert(exact::get(a, Buf::CKvCache, i * c, c) =~= exact::get(
                m,
                Buf::CKvCache,
                i * c,
                c,
            ));
        }
    }
    assert forall|i: int|
        #![trigger turned_key_seen(ar, s, m, i)]
        0 <= i <= t implies exact::get(a, Buf::KRopeCache, i * s.qk_rope_head_dim, p)
        == turned_key_seen(ar, s, m, i) by {
        if i < t {
            plan::lemma_head_fits(i, t, p);
            assert(exact::get(a, Buf::KRopeCache, i * p, p) =~= exact::get(
                m,
                Buf::KRopeCache,
                i * p,
                p,
            ));
        }
    }
}

/// The decompressed keys and values of one token.
proof fn lemma_expand(ar: Arith, s: MlaShape, t: int, a: spec_fn(Buf, int) -> u32, c: Seq<u32>)
    requires
        s.wf(),
        s.quant.has_kernel(),
        0 <= t <= s.token_offset,
        exact::get(a, Buf::CKvCache, t * s.kv_lora_rank, s.kv_lora_rank as int) == c,
    ensures
        exact::run(ar, mla::expand_ops(s, t), a) matches Some(r) && {
            &&& same_but(r, a, Buf::KvDecompressed, Buf::KvDecompressed)
            &&& forall|h: int|
                #![trigger key_of(ar, s, c, h)]
                0 <= h < s.n_heads ==> exact::get(
                    r,
                    Buf::KvDecompressed,
                    mla::k_start(s, h),
                    s.qk_nope_head_dim as int,
                ) == key_of(ar, s, c, h)
            &&& forall|h: int|
                #![trigger value_of(ar, s, c, h)]
                0 <= h < s.n_heads ==> exact::get(
                    r,
                    Buf::KvDecompressed,
                    mla::v_start(s, h),
                    s.v_head_dim as int,
                ) == value_of(ar, s, c, h)
        },
{
    mla::lemma_products(s);
    let k = s.kv_lora_rank as int;
    let b = Buf::KvDecompressed;
    let n = s.n_heads as int;
    let nd = s.qk_nope_head_dim as int;
    let vd = s.v_head_dim as int;
    plan::lemma_head_fits(t, s.tokens(), k);
    let x = plan::span(Buf::CKvCache, t * k, k);
    assert(exact::read(a, x) =~= c);
    if s.split_kv_b {
        let kb = Projection { w: Mat::KB, x, out: plan::span(b, 0, n * nd), quant: s.quant };
        let vb = Projection { w: Mat::VB, x, out: plan::span(b, n * nd, n * vd), quant: s.quant };
        assert(mla::expand_ops(s, t) =~= seq![Op::Linear(kb), Op::Linear(vb)]);
        exact::lemma_run_two(ar, Op::Linear(kb), Op::Linear(vb), a);
        lemma_linear(ar, kb, a);
        let m1 = exact::run_op(ar, Op::Linear(kb), a)->Some_0;
        assert(exact::read(m1, x) =~= c);
        lemma_linear(ar, vb, m1);
        let r = exact::run_op(ar, Op::Linear(vb), m1)->Some_0;
        let keys = value::product(ar, Mat::KB, s.quant, n * nd, c);
        let vals = value::product(ar, Mat::VB, s.quant, n * vd, c);
        assert forall|i: int| 0 <= i < n * nd implies r(b, i) == #[trigger] keys[i] by {
            assert(exact::read(m1, kb.out)[i] == keys[i]);
            assert(r(b, i) == m1(b, i));
        }
        assert forall|i: int| 0 <= i < n * vd implies r(b, n * nd + i) == #[trigger] vals[i] by {
            assert(exact::read(r, vb.out)[i] == vals[i]);
        }
        assert forall|h: int|
            #![trigger key_of(ar, s, c, h)]
            0 <= h < n implies exact::get(r, b, mla::k_start(s, h), nd) == key_of(ar, s, c, h) by {
            mla::lemma_head_offsets(s, h);
            assert(exact::get(r, b, h * nd, nd) =~= key_of(ar, s, c, h));
        }
        assert forall|h: int|
            #![trigger value_of(ar, s, c, h)]
            0 <= h < n implies exact::get(r, b, mla::v_start(s, h), vd) == value_of(
            ar,
            s,
            c,
            h,
        ) by {
            mla::lemma_head_offsets(s, h);
            assert forall|i: int| 0 <= i < vd implies r(b, n * nd + h * vd + i)
                == #[trigger] vals[h * vd + i] by {
                assert(n * nd + (h * vd + i) == n * nd + h * vd + i);
            }
            assert(exact::get(r, b, n * nd + h * vd, vd) =~= value_of(ar, s, c, h));
        }
    } else {
        let d = nd + vd;
        let kv = Projection { w: Mat::KvB, x, out: plan::span(b, 0, n * d), quant: s.quant };
        assert(mla::expand_ops(s, t) =~= seq![Op::Linear(kv)]);
        exact::lemma_run_one(ar, Op::Linear(kv), a);
        lemma_linear(ar, kv, a);
        let r = exact::run_op(ar, Op::Linear(kv), a)->Some_0;
        let all = value::product(ar, Mat::KvB, s.quant, n * d, c);
        assert forall|i: int| 0 <= i < n * d implies r(b, i) == #[trigger] all[i] by {
            assert(exact::read(r, kv.out)[i] == all[i]);
        }
        assert forall|h: int|
            #![trigger key_of(ar, s, c, h)]
            0 <= h < n implies exact::get(r, b, mla::k_start(s, h), nd) == key_of(ar, s, c, h) by {
            mla::lemma_head_offsets(s, h);
            assert(exact::get(r, b, h * d, nd) =~= key_of(ar, s, c, h));
        }
        assert forall|h: int|
            #![trigger value_of(ar, s, c, h)]
            0 <= h < n implies exact::get(r, b, mla::v_start(s, h), vd) == value_of(
            ar,
            s,
            c,
            h,
        ) by {
            mla::lemma_head_offsets(s, h);
            assert(exact::get(r, b, h * d + nd, vd) =~= value_of(ar, s, c, h));
        }
    }
}

/// The scores of all heads for the first `n` tokens stand in `r`.
spec fn scored(
    ar: Arith,
    s: MlaShape,
    m: spec_fn(Buf, int) -> u32,
    a: spec_fn(Buf, int) -> u32,
    r: spec_fn(Buf, int) -> u32,
    n: int,
) -> bool {
    &&& same_but(r, a, Buf::Score, Buf::KvDecompressed)
    &&& forall|h: int, i: int|
        #![trigger score_of(ar, s, m, h, i)]
        0 <= h < s.n_heads && 0 <= i < n ==> r(Buf::Score, h * s.stride() + i) == score_of(
            ar,
            s,
            m,
            h,
            i,
        )
}

/// Scores of one token: each head writes its own element.
proof fn lemma_score_token(
    ar: Arith,
    s: MlaShape,
    m: spec_fn(Buf, int) -> u32,
    a: spec_fn(Buf, int) -> u32,
    b: spec_fn(Buf, int) -> u32,
    t: int,
)
    requires
        s.wf(),
        0 <= t <= s.token_offset,
        prepared(ar, s, m, a),
        same_but(b, a, Buf::Score, Buf::KvDecompressed),
        forall|h: int, i: int|
            #![trigger score_of(ar, s, m, h, i)]
            0 <= h < s.n_heads && 0 <= i < t ==> b(Buf::Score, h * s.stride() + i) == score_of(
                ar,
                s,
                m,
                h,
                i,
            ),
        ({
            let c = latent_seen(ar, s, m, t);
            forall|h: int|
                #![trigger key_of(ar, s, c, h)]
                0 <= h < s.n_heads ==> exact::get(
                    b,
                    Buf::KvDecompressed,
                    mla::k_start(s, h),
                    s.qk_nope_head_dim as int,
                ) == key_of(ar, s, c, h)
        }),
    ensures
        exact::run(ar, mla::score_ops(s, t), b) matches Some(r) && scored(ar, s, m, a, r, t + 1),
{
    mla::lemma_products(s);
    let x = exact::get(m, Buf::Norm, 0, s.embedding_dim as int);
    let nd = s.qk_nope_head_dim as int;
    let p = s.qk_rope_head_dim as int;
    let d = nd + p;
    let st = s.stride();
    let k = s.n_heads as nat;
    let c = latent_seen(ar, s, m, t);
    let ops = mla::score_ops(s, t);
    let at = Buf::Score;
    let val = |h: int| seq![score_of(ar, s, m, h, t)];
    plan::lemma_head_fits(t, s.tokens(), p);
    assert forall|h: int| 0 <= h < k implies {
        let before = value::fill(b, at, t, st, 1, val, h as nat);
        exact::run_op(ar, #[trigger] ops[h], before) == Some(
            exact::put(before, at, t + h * st, 1, val(h)),
        )
    } by {
        let before = value::fill(b, at, t, st, 1, val, h as nat);
        mla::lemma_head_offsets(s, h);
        lemma_fill(b, at, t, st, 1, val, h as nat);
        let q0 = plan::span(Buf::QDecompressed, h * s.q_head(), nd);
        let q1 = plan::span(Buf::QDecompressed, h * s.q_head() + s.qk_nope_head_dim, p);
        let k0 = plan::span(Buf::KvDecompressed, mla::k_start(s, h), nd);
        let k1 = plan::span(Buf::KRopeCache, t * s.qk_rope_head_dim, p);
        assert(plain_query(ar, s, x, h) == plain_query(ar, s, x, h));
        assert(turned_query(ar, s, x, h) == turned_query(ar, s, x, h));
        assert(key_of(ar, s, c, h) == key_of(ar, s, c, h));
        assert(turned_key_seen(ar, s, m, t) == turned_key_seen(ar, s, m, t));
        assert(exact::read(before, q0) =~= exact::get(a, Buf::QDecompressed, h * d, nd));
        assert(exact::read(before, q1) =~= exact::get(a, Buf::QDecompressed, h * d + nd, p));
        assert(exact::read(before, k0) =~= exact::get(
            b,
            Buf::KvDecompressed,
            mla::k_start(s, h),
            nd,
        ));
        assert(exact::read(before, k1) =~= exact::get(a, Buf::KRopeCache, t * p, p));
        assert(plan::span(at, h * st + t, 1).start == t + h * st);
    }
    lemma_run_fill(ar, ops, b, at, t, st, 1, val, k);
    assert(ops.take(k as int) =~= ops);
    lemma_fill(b, at, t, st, 1, val, k);
    let r = value::fill(b, at, t, st, 1, val, k);
    assert forall|h: int, i: int|
        #![trigger score_of(ar, s, m, h, i)]
        0 <= h < k && 0 <= i < t + 1 implies r(at, h * st + i) == score_of(ar, s, m, h, i) by {
        if i == t {
            assert(exact::get(r, at, t + h * st, 1) == value::cut(val(h), 1));
            assert(exact::get(r, at, t + h * st, 1)[0] == r(at, t + h * st));
        } else {
            assert forall|g: int| 0 <= g < k implies h * st + i < #[trigger] (t + g * st) || h * st
                + i >= t + g * st + 1 by {
                if g < h {
                    plan::lemma_head_fits(g, h, st);
                } else if h < g {
                    plan::lemma_head_fits(h, g, st);
                }
            }
            lemma_fill_between(b, at, t, st, 1, val, k, h * st + i);
        }
    }
}

/// The first pass leaves the scores of all heads for all tokens.
proof fn lemma_pass_a(
    ar: Arith,
    s: MlaShape,
    m: spec_fn(Buf, int) -> u32,
    a: spec_fn(Buf, int) -> u32,
    n: nat,
)
    requires
        s.wf(),
        s.quant.has_kernel(),
        prepared(ar, s, m, a),
        n <= s.token_offset + 1,
    ensures
        exact::run(ar, mla::pass_a(s, n), a) matches Some(r) && scored(ar, s, m, a, r, n as int),
    decreases n,
{
    if n > 0 {
        let t = n - 1;
        lemma_pass_a(ar, s, m, a, t as nat);
        let b = exact::run(ar, mla::pass_a(s, t as nat), a)->Some_0;
        let c = latent_seen(ar, s, m, t);
        let k = s.kv_lora_rank as int;
        assert(exact::get(b, Buf::CKvCache, t * k, k) =~= exact::get(a, Buf::CKvCache, t * k, k));
        lemma_expand(ar, s, t, b, c);
        let e = exact::run(ar, mla::expand_ops(s, t), b)->Some_0;
        lemma_score_token(ar, s, m, a, e, t);
        let before = mla::pass_a(s, t as nat);
        exact::lemma_run_concat(ar, before, mla::expand_ops(s, t), a);
        exact::lemma_run_concat(ar, before + mla::expand_ops(s, t), mla::score_ops(s, t), a);
    }
}

/// The weights of all tokens stand in `r` for the first `n` heads, the scores still
/// for the others.
spec fn weighed(
    ar: Arith,
    s: MlaShape,
    m: spec_fn(Buf, int) -> u32,
    a: spec_fn(Buf, int) -> u32,
    r: spec_fn(Buf, int) -> u32,
    n: int,
) -> bool {
    &&& same_but(r, a, Buf::Score, Buf::KvDecompressed)
    &&& forall|h: int|
        #![trigger weights_of(ar, s, m, h)]
        0 <= h < n ==> exact::get(r, Buf::Score, h * s.stride(), s.token_offset + 1) == value::cut(
            weights_of(ar, s, m, h)->Some_0,
            s.token_offset + 1,
        )
    &&& forall|h: int, i: int|
        #![trigger score_of(ar, s, m, h, i)]
        n <= h < s.n_heads && 0 <= i <= s.token_offset ==> r(Buf::Score, h * s.stride() + i)
            == score_of(ar, s, m, h, i)
}

/// The first `n` heads have stable weights.
spec fn stable(ar: Arith, s: MlaShape, m: spec_fn(Buf, int) -> u32, n: int) -> bool {
    forall|h: int| 0 <= h < n ==> (#[trigger] weights_of(ar, s, m, h)) is Some
}

/// Softmax turns the scores of each head into its weights, over all tokens.
proof fn lemma_softmax(
    ar: Arith,
    s: MlaShape,
    m: spec_fn(Buf, int) -> u32,
    a: spec_fn(Buf, int) -> u32,
    b: spec_fn(Buf, int) -> u32,
    n: nat,
)
    requires
        s.wf(),
        n <= s.n_heads,
        scored(ar, s, m, a, b, s.token_offset + 1),
    ensures
        exact::run(ar, mla::softmax_ops(s).take(n as int), b) is Some == stable(
            ar,
            s,
            m,
            n as int,
        ),
        exact::run(ar, mla::softmax_ops(s).take(n as int), b) matches Some(r) ==> weighed(
            ar,
            s,
            m,
            a,
            r,
            n as int,
        ),
    decreases n,
{
    let ops = mla::softmax_ops(s);
    let some = ops.take(n as int);
    if n > 0 {
        let k = n - 1;
        lemma_softmax(ar, s, m, a, b, k as nat);
        assert(some.drop_last() =~= ops.take(k));
        assert(some.last() == ops[k]);
        if let Some(c) = exact::run(ar, ops.take(k), b) {
            lemma_one_softmax(ar, s, m, a, c, k);
            assert(stable(ar, s, m, n as int) == weights_of(ar, s, m, k) is Some);
        }
    }
}

proof fn lemma_one_softmax(
    ar: Arith,
    s: MlaShape,
    m: spec_fn(Buf, int) -> u32,
    a: spec_fn(Buf, int) -> u32,
    c: spec_fn(Buf, int) -> u32,
    k: int,
)
    requires
        s.wf(),
        0 <= k < s.n_heads,
        weighed(ar, s, m, a, c, k),
    ensures
        exact::run_op(ar, mla::softmax_ops(s)[k], c) is Some == weights_of(ar, s, m, k) is Some,
        exact::run_op(ar, mla::softmax_ops(s)[k], c) matches Some(r) ==> weighed(
            ar,
            s,
            m,
            a,
            r,
            k + 1,
        ),
{
    mla::lemma_products(s);
    mla::lemma_head_offsets(s, k);
    let st = s.stride();
    let n = s.token_offset + 1;
    let at = plan::span(Buf::Score, k * st, s.tokens());
    let row = Seq::new(n as nat, |i: int| score_of(ar, s, m, k, i));
    assert forall|i: int| 0 <= i < n implies c(Buf::Score, k * st + i) == #[trigger] row[i] by {
        assert(score_of(ar, s, m, k, i) == row[i]);
    }
    assert(exact::read(c, at) =~= row);
    if let Some(w) = weights_of(ar, s, m, k) {
        let r = exact::run_op(ar, mla::softmax_ops(s)[k], c)->Some_0;
        assert(exact::get(r, Buf::Score, k * st, n) =~= value::cut(w, n));
        assert forall|h: int|
            #![trigger weights_of(ar, s, m, h)]
            0 <= h < k + 1 implies exact::get(r, Buf::Score, h * s.stride(), s.token_offset + 1)
            == value::cut(weights_of(ar, s, m, h)->Some_0, s.token_offset + 1) by {
            if h < k {
                plan::lemma_head_fits(h, k, st);
                assert(exact::get(r, Buf::Score, h * st, n) =~= exact::get(
                    c,
                    Buf::Score,
                    h * st,
                    n,
                ));
            }
        }
        assert forall|h: int, i: int|
            #![trigger score_of(ar, s, m, h, i)]
            k + 1 <= h < s.n_heads && 0 <= i <= s.token_offset implies r(
            Buf::Score,
            h * s.stride() + i,
        ) == score_of(ar, s, m, h, i) by {
            plan::lemma_head_fits(k, h, st);
        }
    }
}

/// Each head of `r` holds the sum over the first `n` tokens, and nothing else differs
/// from `a` but the decompressed keys and values.
spec fn gathered(
    ar: Arith,
    s: MlaShape,
    m: spec_fn(Buf, int) -> u32,
    a: spec_fn(Buf, int) -> u32,
    r: spec_fn(Buf, int) -> u32,
    n: int,
) -> bool {
    &&& same_but(r, a, Buf::Concat, Buf::KvDecompressed)
    &&& forall|h: int|
        #![trigger weights_of(ar, s, m, h)]
        0 <= h < s.n_heads ==> exact::get(
            r,
            Buf::Concat,
            h * s.v_head_dim,
            s.v_head_dim as int,
        ) == gather(
            ar,
            s.v_head_dim as int,
            weights_of(ar, s, m, h)->Some_0,
            values_of(ar, s, m, h),
            n as nat,
        )
}

/// One token more: every head adds its value with its weight.
proof fn lemma_value_token(
    ar: Arith,
    s: MlaShape,
    m: spec_fn(Buf, int) -> u32,
    a: spec_fn(Buf, int) -> u32,
    b: spec_fn(Buf, int) -> u32,
    t: int,
)
    requires
        s.wf(),
        0 <= t <= s.token_offset,
        forall|h: int|
            #![trigger weights_of(ar, s, m, h)]
            0 <= h < s.n_heads ==> exact::get(a, Buf::Score, h * s.stride(), s.token_offset + 1)
                == value::cut(weights_of(ar, s, m, h)->Some_0, s.token_offset + 1),
        gathered(ar, s, m, a, b, t),
        ({
            let c = latent_seen(ar, s, m, t);
            forall|h: int|
                #![trigger value_of(ar, s, c, h)]
                0 <= h < s.n_heads ==> exact::get(
                    b,
                    Buf::KvDecompressed,
                    mla::v_start(s, h),
                    s.v_head_dim as int,
                ) == value_of(ar, s, c, h)
        }),
    ensures
        exact::run(ar, mla::value_ops(s, t), b) matches Some(r) && gathered(ar, s, m, a, r, t + 1),
{
    mla::lemma_products(s);
    let vd = s.v_head_dim as int;
    let st = s.stride();
    let k = s.n_heads as nat;
    let c = latent_seen(ar, s, m, t);
    let ops = mla::value_ops(s, t);
    let at = Buf::Concat;
    let val = |h: int|
        (ar.add_weighted)(
            gather(ar, vd, weights_of(ar, s, m, h)->Some_0, values_of(ar, s, m, h), t as nat),
            weights_of(ar, s, m, h)->Some_0[t],
            values_of(ar, s, m, h)[t],
        );
    assert forall|h: int| 0 <= h < k implies {
        let before = value::fill(b, at, 0, vd, vd, val, h as nat);
        exact::run_op(ar, #[trigger] ops[h], before) == Some(
            exact::put(before, at, 0 + h * vd, vd, val(h)),
        )
    } by {
        let before = value::fill(b, at, 0, vd, vd, val, h as nat);
        mla::lemma_head_offsets(s, h);
        lemma_fill(b, at, 0, vd, vd, val, h as nat);
        let w = weights_of(ar, s, m, h)->Some_0;
        let ws = plan::span(Buf::Score, h * s.stride() + t, 1);
        let v = Strided {
            buf: Buf::KvDecompressed,
            start: mla::v_start(s, h) as usize,
            stride: 0,
            count: 1,
            len: s.v_head_dim,
        };
        let out = plan::span(at, h * s.v_head_dim, vd);
        assert(ws.start == h * st + t);
        assert(exact::get(a, Buf::Score, h * st, s.token_offset + 1)[t] == w[t]) by {
            assert(value::cut(w, s.token_offset + 1)[t] == w[t]);
        }
        assert(exact::read(before, ws) =~= seq![w[t]]);
        assert(value_of(ar, s, c, h) == values_of(ar, s, m, h)[t]);
        assert(v.start == mla::v_start(s, h));
        assert(v.start + 0 * v.stride == mla::v_start(s, h)) by (nonlinear_arith)
            requires
                v.start == mla::v_start(s, h),
        ;
        assert(exact::stretch(before, v, 0) =~= exact::get(
            b,
            Buf::KvDecompressed,
            mla::v_start(s, h),
            vd,
        ));
        assert(exact::read(before, out) =~= exact::get(b, at, h * vd, vd));
        reveal_with_fuel(exact::weighted_sum, 2);
    }
    lemma_run_fill(ar, ops, b, at, 0, vd, vd, val, k);
    assert(ops.take(k as int) =~= ops);
    lemma_fill(b, at, 0, vd, vd, val, k);
    let r = value::fill(b, at, 0, vd, vd, val, k);
    assert forall|h: int|
        #![trigger weights_of(ar, s, m, h)]
        0 <= h < k implies exact::get(r, at, h * s.v_head_dim, vd) == gather(
        ar,
        vd,
        weights_of(ar, s, m, h)->Some_0,
        values_of(ar, s, m, h),
        (t + 1) as nat,
    ) by {
        assert(exact::get(r, at, 0 + h * vd, vd) == value::cut(val(h), vd));
    }
}

/// The second pass leaves, in each head's place, the values of all tokens with their
/// weights.
proof fn lemma_pass_b(
    ar: Arith,
    s: MlaShape,
    m: spec_fn(Buf, int) -> u32,
    a: spec_fn(Buf, int) -> u32,
    n: nat,
)
    requires
        s.wf(),
        s.quant.has_kernel(),
        n <= s.token_offset + 1,
        forall|i: int|
            #![trigger latent_seen(ar, s, m, i)]
            0 <= i <= s.token_offset ==> exact::get(
                a,
                Buf::CKvCache,
                i * s.kv_lora_rank,
                s.kv_lora_rank as int,
            ) == latent_seen(ar, s, m, i),
        forall|h: int|
            #![trigger weights_of(ar, s, m, h)]
            0 <= h < s.n_heads ==> exact::get(a, Buf::Score, h * s.stride(), s.token_offset + 1)
                == value::cut(weights_of(ar, s, m, h)->Some_0, s.token_offset + 1),
        gathered(ar, s, m, a, a, 0),
    ensures
        exact::run(ar, mla::pass_b(s, n), a) matches Some(r) && gathered(ar, s, m, a, r, n as int),
    decreases n,
{
    if n > 0 {
        let t = n - 1;
        lemma_pass_b(ar, s, m, a, t as nat);
        let b = exact::run(ar, mla::pass_b(s, t as nat), a)->Some_0;
        let c = latent_seen(ar, s, m, t);
        let k = s.kv_lora_rank as int;
        let vd = s.v_head_dim as int;
        assert(exact::get(b, Buf::CKvCache, t * k, k) =~= exact::get(a, Buf::CKvCache, t * k, k));
        lemma_expand(ar, s, t, b, c);
        let e = exact::run(ar, mla::expand_ops(s, t), b)->Some_0;
        assert forall|h: int|
            #![trigger weights_of(ar, s, m, h)]
            0 <= h < s.n_heads implies exact::get(e, Buf::Concat, h * s.v_head_dim, vd) == gather(
            ar,
            vd,
            weights_of(ar, s, m, h)->Some_0,
            values_of(ar, s, m, h),
            t as nat,
        ) by {
            assert(exact::get(e, Buf::Concat, h * vd, vd) =~= exact::get(
                b,
                Buf::Concat,
                h * vd,
                vd,
            ));
        }
        lemma_value_token(ar, s, m, a, e, t);
        let before = mla::pass_b(s, t as nat);
        exact::lemma_run_concat(ar, before, mla::expand_ops(s, t), a);
        exact::lemma_run_concat(ar, before + mla::expand_ops(s, t), mla::value_ops(s, t), a);
    }
}

/// From the weights on: the sums of all heads and their projection.
proof fn lemma_mla_tail(
    ar: Arith,
    s: MlaShape,
    m: spec_fn(Buf, int) -> u32,
    a: spec_fn(Buf, int) -> u32,
    w: spec_fn(Buf, int) -> u32,
)
    requires
        s.wf(),
        s.quant.has_kernel(),
        prepared(ar, s, m, a),
        weighed(ar, s, m, a, w, s.n_heads as int),
    ensures
        exact::run(
            ar,
            seq![Op::Zero { at: mla::concat_span(s) }] + mla::pass_b(s, s.tokens() as nat) + seq![
                mla::mla_out(s),
            ],
            w,
        ) matches Some(r) && {
            &&& forall|h: int|
                #![trigger attended(ar, s, m, h)]
                0 <= h < s.n_heads ==> exact::get(
                    r,
                    Buf::Concat,
                    h * s.v_head_dim,
                    s.v_head_dim as int,
                ) == attended(ar, s, m, h)
            &&& exact::get(r, Buf::AttnOut, 0, s.embedding_dim as int) == mla_value(ar, s, m)
            &&& forall|c: Buf, i: int|
                c != Buf::Score && c != Buf::KvDecompressed && c != Buf::Concat && c != Buf::AttnOut
                    ==> #[trigger] r(c, i) == a(c, i)
        },
{
    mla::lemma_products(s);
    let vd = s.v_head_dim as int;
    let n = s.n_heads as int;
    let e = s.embedding_dim as int;
    let c = s.kv_lora_rank as int;
    let zero = Op::Zero { at: mla::concat_span(s) };
    let b = mla::pass_b(s, s.tokens() as nat);
    let out = mla::mla_out(s);
    exact::lemma_run_concat(ar, seq![zero] + b, seq![out], w);
    exact::lemma_run_concat(ar, seq![zero], b, w);
    exact::lemma_run_one(ar, zero, w);
    let z = exact::run_op(ar, zero, w)->Some_0;
    assert forall|i: int|
        #![trigger latent_seen(ar, s, m, i)]
        0 <= i <= s.token_offset implies exact::get(z, Buf::CKvCache, i * s.kv_lora_rank, c)
        == latent_seen(ar, s, m, i) by {
        assert(exact::get(z, Buf::CKvCache, i * c, c) =~= exact::get(a, Buf::CKvCache, i * c, c));
    }
    assert forall|h: int|
        #![trigger weights_of(ar, s, m, h)]
        0 <= h < s.n_heads implies exact::get(z, Buf::Score, h * s.stride(), s.token_offset + 1)
        == value::cut(weights_of(ar, s, m, h)->Some_0, s.token_offset + 1) by {
        assert(exact::get(z, Buf::Score, h * s.stride(), s.token_offset + 1) =~= exact::get(
            w,
            Buf::Score,
            h * s.stride(),
            s.token_offset + 1,
        ));
    }
    assert forall|h: int|
        #![trigger weights_of(ar, s, m, h)]
        0 <= h < s.n_heads implies exact::get(z, Buf::Concat, h * s.v_head_dim, vd) == gather(
        ar,
        vd,
        weights_of(ar, s, m, h)->Some_0,
        values_of(ar, s, m, h),
        0,
    ) by {
        mla::lemma_head_offsets(s, h);
        assert(exact::get(z, Buf::Concat, h * vd, vd) =~= exact::zeros(vd));
    }
    lemma_pass_b(ar, s, m, z, s.tokens() as nat);
    let g = exact::run(ar, b, z)->Some_0;
    exact::lemma_run_one(ar, out, g);
    let p = Projection {
        w: Mat::MlaOut,
        x: mla::concat_span(s),
        out: plan::span(Buf::AttnOut, 0, e),
        quant: s.quant,
    };
    lemma_linear(ar, p, g);
    let r = exact::run_op(ar, out, g)->Some_0;
    assert forall|h: int|
        #![trigger attended(ar, s, m, h)]
        0 <= h < s.n_heads implies exact::get(r, Buf::Concat, h * s.v_head_dim, vd) == attended(
        ar,
        s,
        m,
        h,
    ) by {
        assert(weights_of(ar, s, m, h) == weights_of(ar, s, m, h));
        assert(exact::get(r, Buf::Concat, h * vd, vd) =~= exact::get(g, Buf::Concat, h * vd, vd));
    }
    assert(exact::read(g, p.x) =~= all_attended(ar, s, m)) by {
        assert forall|i: int| 0 <= i < n * vd implies g(Buf::Concat, i) == #[trigger] attended(
            ar,
            s,
            m,
            i / vd,
        )[i % vd] by {
            assert(vd > 0) by (nonlinear_arith)
                requires
                    0 <= i < n * vd,
                    vd >= 0,
            ;
            let h = i / vd;
            vstd::arithmetic::div_mod::lemma_fundamental_div_mod(i, vd);
            vstd::arithmetic::div_mod::lemma_mod_bound(i, vd);
            assert(0 <= h < n && h * vd + i % vd == i) by (nonlinear_arith)
                requires
                    i == vd * h + i % vd,
                    0 <= i % vd < vd,
                    0 <= i < n * vd,
            ;
            assert(exact::get(r, Buf::Concat, h * s.v_head_dim, vd) == attended(ar, s, m, h));
            assert(exact::get(r, Buf::Concat, h * vd, vd)[i % vd] == r(Buf::Concat, h * vd + i % vd));
            assert(r(Buf::Concat, i) == g(Buf::Concat, i));
        }
    }
    assert(exact::get(r, Buf::AttnOut, 0, e) =~= exact::read(r, p.out));
    assert forall|k: Buf, i: int| k != Buf::Score && k != Buf::KvDecompressed && k != Buf::Concat && k
        != Buf::AttnOut implies #[trigger] r(k, i) == a(k, i) by {
        assert(r(k, i) == g(k, i));
        assert(g(k, i) == z(k, i));
        assert(z(k, i) == w(k, i));
    }
}

/// Latent attention of one token: it goes through exactly where the type has a
/// kernel, the cache keeps the token and all weights are stable. It leaves the
/// token's latent and turned key in its row of the caches, the values of all tokens
/// with the softmax of their scores in each head's place, and the projection of all of
/// it in the output.
pub proof fn lemma_mla_value(ar: Arith, s: MlaShape, m: spec_fn(Buf, int) -> u32)
    requires
        s.wf(),
        ar.layer == s.layer,
    ensures
        exact::run(ar, mla::mla_program(s), m) is Some == mla_goes(ar, s, m),
        exact::run(ar, mla::mla_program(s), m) matches Some(r) ==> {
            &&& mla_cached(ar, s, m, r)
            &&& forall|h: int|
                #![trigger attended(ar, s, m, h)]
                0 <= h < s.n_heads ==> exact::get(
                    r,
                    Buf::Concat,
                    h * s.v_head_dim,
                    s.v_head_dim as int,
                ) == attended(ar, s, m, h)
            &&& exact::get(r, Buf::AttnOut, 0, s.embedding_dim as int) == mla_value(ar, s, m)
            &&& mla_rest(r, m)
        },
{
    let head = mla::mla_head(s);
    let turn = mla::q_rope_ops(s);
    let pa = mla::pass_a(s, s.tokens() as nat);
    let soft = mla::softmax_ops(s);
    let tail = seq![Op::Zero { at: mla::concat_span(s) }] + mla::pass_b(s, s.tokens() as nat)
        + seq![mla::mla_out(s)];
    assert(mla::mla_program(s) =~= head + turn + pa + soft + tail);
    exact::lemma_run_concat(ar, head, turn, m);
    exact::lemma_run_concat(ar, head + turn, pa, m);
    exact::lemma_run_concat(ar, head + turn + pa, soft, m);
    exact::lemma_run_concat(ar, head + turn + pa + soft, tail, m);
    lemma_mla_head(ar, s, m);
    if let Some(a0) = exact::run(ar, head, m) {
        lemma_turned_queries(ar, s, m, a0);
        let a = exact::run(ar, turn, a0)->Some_0;
        lemma_pass_a(ar, s, m, a, s.tokens() as nat);
        let b = exact::run(ar, pa, a)->Some_0;
        lemma_softmax(ar, s, m, a, b, s.n_heads as nat);
        assert(soft.take(s.n_heads as int) =~= soft);
        if let Some(w) = exact::run(ar, soft, b) {
            lemma_mla_tail(ar, s, m, a, w);
            let r = exact::run(ar, tail, w)->Some_0;
            lemma_kept(ar, s, m, a, r);
            assert forall|k: Buf, i: int| !mla_writes(k) implies #[trigger] r(k, i) == m(k, i) by {
                assert(r(k, i) == a(k, i));
                assert(a(k, i) == a0(k, i));
            }
        }
    }
}

proof fn lemma_kept(
    ar: Arith,
    s: MlaShape,
    m: spec_fn(Buf, int) -> u32,
    a: spec_fn(Buf, int) -> u32,
    r: spec_fn(Buf, int) -> u32,
)
    requires
        mla_cached(ar, s, m, a),
        forall|i: int| #[trigger] r(Buf::CKvCache, i) == a(Buf::CKvCache, i),
        forall|i: int| #[trigger] r(Buf::KRopeCache, i) == a(Buf::KRopeCache, i),
    ensures
        mla_cached(ar, s, m, r),
{
    let t = s.token_offset as int;
    let c = s.kv_lora_rank as int;
    let p = s.qk_rope_head_dim as int;
    assert(exact::get(r, Buf::CKvCache, t * c, c) =~= exact::get(a, Buf::CKvCache, t * c, c));
    assert(exact::get(r, Buf::KRopeCache, t * p, p) =~= exact::get(a, Buf::KRopeCache, t * p, p));
}

} // verus!
