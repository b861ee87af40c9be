//! Multi-head latent attention for one token of one layer, over a cache of
//! compressed keys and values.

use crate::inference_avx512::plan;
use crate::inference_avx512::plan::{
    lemma_all_fit_concat, lemma_head_fits, mk, Buf, Mat, NormWeight, Op, Projection, Span, Strided,
};
use crate::inference_avx512::GgmlType;
use vstd::prelude::*;

verus! {

#[derive(Clone, Copy, Debug, PartialEq, Eq, Structural)]
pub struct MlaShape {
    pub n_heads: usize,
    pub kv_lora_rank: usize,
    pub qk_nope_head_dim: usize,
    pub qk_rope_head_dim: usize,
    pub v_head_dim: usize,
    pub q_lora_rank: usize,
    pub embedding_dim: usize,
    pub layer: usize,
    pub token_offset: usize,
    /// Elements of the score buffer.
    pub score_len: usize,
    /// Keys and values have a decompression matrix each.
    pub split_kv_b: bool,
    /// The rotated part of the key has a normalisation weight.
    pub k_norm: bool,
    pub quant: GgmlType,
}

impl MlaShape {
    pub open spec fn tokens(self) -> int {
        self.token_offset + 1
    }

    /// Elements of one query head.
    pub open spec fn q_head(self) -> int {
        self.qk_nope_head_dim + self.qk_rope_head_dim
    }

    /// Decompressed elements of one head, key part and value.
    pub open spec fn kv_head(self) -> int {
        self.qk_nope_head_dim + self.v_head_dim
    }

    pub open spec fn kv_a_dim(self) -> int {
        self.kv_lora_rank + self.qk_rope_head_dim
    }

    pub open spec fn stride(self) -> int {
        self.score_len as int / self.n_heads as int
    }

    /// There are heads, a score stretch for each, and all sizes are machine sizes.
    pub open spec fn wf(self) -> bool {
        &&& self.n_heads > 0
        &&& self.n_heads * self.tokens() <= self.score_len
        &&& self.q_head() <= usize::MAX
        &&& self.kv_a_dim() <= usize::MAX
        &&& self.n_heads * self.q_head() <= usize::MAX
        &&& self.n_heads * self.kv_head() <= usize::MAX
        &&& self.tokens() * self.kv_lora_rank <= usize::MAX
        &&& self.tokens() * self.qk_rope_head_dim <= usize::MAX
    }
}

/// All products that occur as offsets.
pub proof fn lemma_products(s: MlaShape)
    requires
        s.wf(),
    ensures
        0 <= s.n_heads * s.qk_nope_head_dim,
        0 <= s.n_heads * s.v_head_dim,
        s.n_heads * s.kv_head() == s.n_heads * s.qk_nope_head_dim + s.n_heads * s.v_head_dim,
        0 <= s.n_heads * s.q_head(),
        s.tokens() <= s.stride(),
        s.n_heads * s.stride() <= s.score_len,
        s.tokens() <= usize::MAX,
        s.kv_head() <= usize::MAX,
{
    let n = s.n_heads as int;
    let l = s.score_len as int;
    let st = s.stride();
    assert(n * (s.qk_nope_head_dim + s.v_head_dim) == n * s.qk_nope_head_dim + n * s.v_head_dim)
        by (nonlinear_arith);
    assert(0 <= n * s.qk_nope_head_dim && 0 <= n * s.v_head_dim && 0 <= n * s.q_head())
        by (nonlinear_arith)
        requires
            n > 0,
            s.q_head() >= 0,
    ;
    vstd::arithmetic::div_mod::lemma_fundamental_div_mod(l, n);
    vstd::arithmetic::div_mod::lemma_mod_bound(l, n);
    let t = s.tokens();
    assert(t <= st) by (nonlinear_arith)
        requires
            n > 0,
            n * t <= l,
            l < n * st + n,
    ;
    assert(t <= n * t) by (nonlinear_arith)
        requires
            n > 0,
            t > 0,
    ;
    assert(s.kv_head() <= n * s.kv_head()) by (nonlinear_arith)
        requires
            n > 0,
            s.kv_head() >= 0,
    ;
}

/// Where the rotated key of the current token stands.
pub open spec fn k_rope_span(s: MlaShape) -> Span {
    plan::span(Buf::CKvRope, s.kv_lora_rank as int, s.qk_rope_head_dim as int)
}

/// Compression, normalisation and rotation of key, cache, and the queries up
/// to the rotation of the heads.
pub open spec fn mla_head(s: MlaShape) -> Seq<Op> {
    let x = plan::span(Buf::Norm, 0, s.embedding_dim as int);
    let c = plan::span(Buf::CKvNorm, 0, s.kv_lora_rank as int);
    seq![
        Op::Linear(
            Projection {
                w: Mat::KvA,
                x,
                out: plan::span(Buf::CKvRope, 0, s.kv_a_dim()),
                quant: s.quant,
            },
        ),
        Op::RmsNorm {
            x: plan::span(Buf::CKvRope, 0, s.kv_lora_rank as int),
            w: NormWeight::KvANorm,
            out: c,
        },
    ] + (if s.k_norm {
        seq![Op::RmsNorm { x: k_rope_span(s), w: NormWeight::MlaKNorm, out: k_rope_span(s) }]
    } else {
        Seq::empty()
    }) + seq![
        Op::Rope { at: k_rope_span(s) },
        Op::StoreCompressed { layer: s.layer, token: s.token_offset, c, rope: k_rope_span(s) },
        Op::Linear(
            Projection {
                w: Mat::QA,
                x,
                out: plan::span(Buf::CQ, 0, s.q_lora_rank as int),
                quant: s.quant,
            },
        ),
        Op::RmsNorm {
            x: plan::span(Buf::CQ, 0, s.q_lora_rank as int),
            w: NormWeight::QANorm,
            out: plan::span(Buf::CQNorm, 0, s.q_lora_rank as int),
        },
        Op::Linear(
            Projection {
                w: Mat::QB,
                x: plan::span(Buf::CQNorm, 0, s.q_lora_rank as int),
                out: plan::span(Buf::QDecompressed, 0, s.n_heads * s.q_head()),
                quant: s.quant,
            },
        ),
    ]
}

/// Rotation of the rotated part of each query head.
pub open spec fn q_rope_ops(s: MlaShape) -> Seq<Op> {
    Seq::new(
        s.n_heads as nat,
        |h: int|
            Op::Rope {
                at: plan::span(
                    Buf::QDecompressed,
                    h * s.q_head() + s.qk_nope_head_dim,
                    s.qk_rope_head_dim as int,
                ),
            },
    )
}

/// Decompression of the cached token `t`: keys of all heads, then values of all
/// heads, if split; else key and value of each head in turn.
pub open spec fn expand_ops(s: MlaShape, t: int) -> Seq<Op> {
    let x = plan::span(Buf::CKvCache, t * s.kv_lora_rank, s.kv_lora_rank as int);
    let k = s.n_heads * s.qk_nope_head_dim;
    let v = s.n_heads * s.v_head_dim;
    if s.split_kv_b {
        seq![
            Op::Linear(
                Projection {
                    w: Mat::KB,
                    x,
                    out: plan::span(Buf::KvDecompressed, 0, k),
                    quant: s.quant,
                },
            ),
            Op::Linear(
                Projection {
                    w: Mat::VB,
                    x,
                    out: plan::span(Buf::KvDecompressed, k, v),
                    quant: s.quant,
                },
            ),
        ]
    } else {
        seq![
            Op::Linear(
                Projection {
                    w: Mat::KvB,
                    x,
                    out: plan::span(Buf::KvDecompressed, 0, s.n_heads * s.kv_head()),
                    quant: s.quant,
                },
            ),
        ]
    }
}

/// Start of the decompressed key of head `h`.
pub open spec fn k_start(s: MlaShape, h: int) -> int {
    if s.split_kv_b {
        h * s.qk_nope_head_dim
    } else {
        h * s.kv_head()
    }
}

/// Start of the decompressed value of head `h`.
pub open spec fn v_start(s: MlaShape, h: int) -> int {
    if s.split_kv_b {
        s.n_heads * s.qk_nope_head_dim + h * s.v_head_dim
    } else {
        h * s.kv_head() + s.qk_nope_head_dim
    }
}

/// The scores of all heads for the cached token `t`.
pub open spec fn score_ops(s: MlaShape, t: int) -> Seq<Op> {
    Seq::new(
        s.n_heads as nat,
        |h: int|
            Op::Score2 {
                q0: plan::span(Buf::QDecompressed, h * s.q_head(), s.qk_nope_head_dim as int),
                k0: plan::span(Buf::KvDecompressed, k_start(s, h), s.qk_nope_head_dim as int),
                q1: plan::span(
                    Buf::QDecompressed,
                    h * s.q_head() + s.qk_nope_head_dim,
                    s.qk_rope_head_dim as int,
                ),
                k1: plan::span(
                    Buf::KRopeCache,
                    t * s.qk_rope_head_dim,
                    s.qk_rope_head_dim as int,
                ),
                out: plan::span(Buf::Score, h * s.stride() + t, 1),
            },
    )
}

/// Softmax over the scores of each head.
pub open spec fn softmax_ops(s: MlaShape) -> Seq<Op> {
    Seq::new(
        s.n_heads as nat,
        |h: int| Op::Softmax { at: plan::span(Buf::Score, h * s.stride(), s.tokens()) },
    )
}

/// The values of all heads of the cached token `t`, added with their weights.
pub open spec fn value_ops(s: MlaShape, t: int) -> Seq<Op> {
    Seq::new(
        s.n_heads as nat,
        |h: int|
            Op::WeightedSum {
                weights: plan::span(Buf::Score, h * s.stride() + t, 1),
                v: Strided {
                    buf: Buf::KvDecompressed,
                    start: v_start(s, h) as usize,
                    stride: 0,
                    count: 1,
                    len: s.v_head_dim,
                },
                out: plan::span(Buf::Concat, h * s.v_head_dim, s.v_head_dim as int),
            },
    )
}

/// Scores of the cached tokens below `n`.
pub open spec fn pass_a(s: MlaShape, n: nat) -> Seq<Op>
    decreases n,
{
    if n == 0 {
        Seq::empty()
    } else {
        pass_a(s, (n - 1) as nat) + expand_ops(s, n - 1) + score_ops(s, n - 1)
    }
}

/// Weighted values of the cached tokens below `n`.
pub open spec fn pass_b(s: MlaShape, n: nat) -> Seq<Op>
    decreases n,
{
    if n == 0 {
        Seq::empty()
    } else {
        pass_b(s, (n - 1) as nat) + expand_ops(s, n - 1) + value_ops(s, n - 1)
    }
}

pub open spec fn concat_span(s: MlaShape) -> Span {
    plan::span(Buf::Concat, 0, s.n_heads * s.v_head_dim)
}

pub open spec fn mla_out(s: MlaShape) -> Op {
    Op::Linear(
        Projection {
            w: Mat::MlaOut,
            x: concat_span(s),
            out: plan::span(Buf::AttnOut, 0, s.embedding_dim as int),
            quant: s.quant,
        },
    )
}

pub open spec fn mla_program(s: MlaShape) -> Seq<Op> {
    mla_head(s) + q_rope_ops(s) + pass_a(s, s.tokens() as nat) + softmax_ops(s) + seq![
        Op::Zero { at: concat_span(s) },
    ] + pass_b(s, s.tokens() as nat) + seq![mla_out(s)]
}

fn push_mla_head(ops: &mut Vec<Op>, s: &MlaShape)
    requires
        s.wf(),
    ensures
        final(ops)@ == old(ops)@ + mla_head(*s),
{
    proof {
        lemma_products(*s);
    }
    let x = mk(Buf::Norm, 0, s.embedding_dim);
    let c = mk(Buf::CKvNorm, 0, s.kv_lora_rank);
    let rope = mk(Buf::CKvRope, s.kv_lora_rank, s.qk_rope_head_dim);
    ops.push(
        Op::Linear(
            Projection {
                w: Mat::KvA,
                x,
                out: mk(Buf::CKvRope, 0, s.kv_lora_rank + s.qk_rope_head_dim),
                quant: s.quant,
            },
        ),
    );
    ops.push(
        Op::RmsNorm { x: mk(Buf::CKvRope, 0, s.kv_lora_rank), w: NormWeight::KvANorm, out: c },
    );
    if s.k_norm {
        ops.push(Op::RmsNorm { x: rope, w: NormWeight::MlaKNorm, out: rope });
    }
    ops.push(Op::Rope { at: rope });
    ops.push(Op::StoreCompressed { layer: s.layer, token: s.token_offset, c, rope });
    ops.push(
        Op::Linear(
            Projection { w: Mat::QA, x, out: mk(Buf::CQ, 0, s.q_lora_rank), quant: s.quant },
        ),
    );
    ops.push(
        Op::RmsNorm {
            x: mk(Buf::CQ, 0, s.q_lora_rank),
            w: NormWeight::QANorm,
            out: mk(Buf::CQNorm, 0, s.q_lora_rank),
        },
    );
    ops.push(
        Op::Linear(
            Projection {
                w: Mat::QB,
                x: mk(Buf::CQNorm, 0, s.q_lora_rank),
                out: mk(
                    Buf::QDecompressed,
                    0,
                    s.n_heads * (s.qk_nope_head_dim + s.qk_rope_head_dim),
                ),
                quant: s.quant,
            },
        ),
    );
    assert(ops@ =~= old(ops)@ + mla_head(*s));
}

fn push_expand(ops: &mut Vec<Op>, s: &MlaShape, t: usize)
    requires
        s.wf(),
        t < s.tokens(),
    ensures
        final(ops)@ == old(ops)@ + expand_ops(*s, t as int),
{
    proof {
        lemma_products(*s);
        lemma_head_fits(t as int, s.tokens(), s.kv_lora_rank as int);
    }
    let x = mk(Buf::CKvCache, t * s.kv_lora_rank, s.kv_lora_rank);
    if s.split_kv_b {
        let k: usize = s.n_heads * s.qk_nope_head_dim;
        let v: usize = s.n_heads * s.v_head_dim;
        ops.push(
            Op::Linear(
                Projection { w: Mat::KB, x, out: mk(Buf::KvDecompressed, 0, k), quant: s.quant },
            ),
        );
        ops.push(
            Op::Linear(
                Projection { w: Mat::VB, x, out: mk(Buf::KvDecompressed, k, v), quant: s.quant },
            ),
        );
    } else {
        ops.push(
            Op::Linear(
                Projection {
                    w: Mat::KvB,
                    x,
                    out: mk(
                        Buf::KvDecompressed,
                        0,
                        s.n_heads * (s.qk_nope_head_dim + s.v_head_dim),
                    ),
                    quant: s.quant,
                },
            ),
        );
    }
    assert(ops@ =~= old(ops)@ + expand_ops(*s, t as int));
}

/// The stretches of head `h` lie within the buffers of all heads.
pub proof fn lemma_head_offsets(s: MlaShape, h: int)
    requires
        s.wf(),
        0 <= h < s.n_heads,
    ensures
        0 <= h * s.q_head(),
        h * s.q_head() + s.q_head() <= s.n_heads * s.q_head(),
        0 <= h * s.kv_head(),
        h * s.kv_head() + s.kv_head() <= s.n_heads * s.kv_head(),
        0 <= h * s.qk_nope_head_dim,
        h * s.qk_nope_head_dim + s.qk_nope_head_dim <= s.n_heads * s.qk_nope_head_dim,
        0 <= h * s.v_head_dim,
        h * s.v_head_dim + s.v_head_dim <= s.n_heads * s.v_head_dim,
        0 <= h * s.stride(),
        h * s.stride() + s.stride() <= s.score_len,
{
    lemma_products(s);
    let n = s.n_heads as int;
    lemma_head_fits(h, n, s.q_head());
    lemma_head_fits(h, n, s.kv_head());
    lemma_head_fits(h, n, s.qk_nope_head_dim as int);
    lemma_head_fits(h, n, s.v_head_dim as int);
    lemma_head_fits(h, n, s.stride());
}

fn push_q_rope(ops: &mut Vec<Op>, s: &MlaShape)
    requires
        s.wf(),
    ensures
        final(ops)@ == old(ops)@ + q_rope_ops(*s),
{
    let ghost all = q_rope_ops(*s);
    let q_head: usize = s.qk_nope_head_dim + s.qk_rope_head_dim;
    let mut h: usize = 0;
    assert(ops@ =~= old(ops)@ + all.take(0));
    while h < s.n_heads
        invariant
            h <= s.n_heads,
            s.wf(),
            q_head == s.q_head(),
            all == q_rope_ops(*s),
            ops@ == old(ops)@ + all.take(h as int),
        decreases s.n_heads - h,
    {
        proof {
            lemma_products(*s);
            lemma_head_offsets(*s, h as int);
        }
        ops.push(
            Op::Rope {
                at: mk(Buf::QDecompressed, h * q_head + s.qk_nope_head_dim, s.qk_rope_head_dim),
            },
        );
        h = h + 1;
        assert(ops@ =~= old(ops)@ + all.take(h as int));
    }
    assert(all.take(s.n_heads as int) =~= all);
}

fn push_scores(ops: &mut Vec<Op>, s: &MlaShape, t: usize)
    requires
        s.wf(),
        t < s.tokens(),
    ensures
        final(ops)@ == old(ops)@ + score_ops(*s, t as int),
{
    proof {
        lemma_products(*s);
    }
    let ghost all = score_ops(*s, t as int);
    let q_head: usize = s.qk_nope_head_dim + s.qk_rope_head_dim;
    let kv_head: usize = s.qk_nope_head_dim + s.v_head_dim;
    let stride: usize = s.score_len / s.n_heads;
    let mut h: usize = 0;
    assert(ops@ =~= old(ops)@ + all.take(0));
    while h < s.n_heads
        invariant
            h <= s.n_heads,
            s.wf(),
            t < s.tokens(),
            q_head == s.q_head(),
            kv_head == s.kv_head(),
            stride == s.stride(),
            all == score_ops(*s, t as int),
            ops@ == old(ops)@ + all.take(h as int),
        decreases s.n_heads - h,
    {
        proof {
            lemma_products(*s);
            lemma_head_offsets(*s, h as int);
            lemma_head_fits(t as int, s.tokens(), s.qk_rope_head_dim as int);
        }
        let k0: usize = if s.split_kv_b {
            h * s.qk_nope_head_dim
        } else {
            h * kv_head
        };
        ops.push(
            Op::Score2 {
                q0: mk(Buf::QDecompressed, h * q_head, s.qk_nope_head_dim),
                k0: mk(Buf::KvDecompressed, k0, s.qk_nope_head_dim),
                q1: mk(Buf::QDecompressed, h * q_head + s.qk_nope_head_dim, s.qk_rope_head_dim),
                k1: mk(Buf::KRopeCache, t * s.qk_rope_head_dim, s.qk_rope_head_dim),
                out: mk(Buf::Score, h * stride + t, 1),
            },
        );
        h = h + 1;
        assert(ops@ =~= old(ops)@ + all.take(h as int));
    }
    assert(all.take(s.n_heads as int) =~= all);
}

fn push_softmax(ops: &mut Vec<Op>, s: &MlaShape)
    requires
        s.wf(),
    ensures
        final(ops)@ == old(ops)@ + softmax_ops(*s),
{
    proof {
        lemma_products(*s);
    }
    let ghost all = softmax_ops(*s);
    let stride: usize = s.score_len / s.n_heads;
    let tokens: usize = s.token_offset + 1;
    let mut h: usize = 0;
    assert(ops@ =~= old(ops)@ + all.take(0));
    while h < s.n_heads
        invariant
            h <= s.n_heads,
            s.wf(),
            stride == s.stride(),
            tokens == s.tokens(),
            all == softmax_ops(*s),
            ops@ == old(ops)@ + all.take(h as int),
        decreases s.n_heads - h,
    {
        proof {
            lemma_head_offsets(*s, h as int);
        }
        ops.push(Op::Softmax { at: mk(Buf::Score, h * stride, tokens) });
        h = h + 1;
        assert(ops@ =~= old(ops)@ + all.take(h as int));
    }
    assert(all.take(s.n_heads as int) =~= all);
}

fn push_values(ops: &mut Vec<Op>, s: &MlaShape, t: usize)
    requires
        s.wf(),
        t < s.tokens(),
    ensures
        final(ops)@ == old(ops)@ + value_ops(*s, t as int),
{
    proof {
        lemma_products(*s);
    }
    let ghost all = value_ops(*s, t as int);
    let kv_head: usize = s.qk_nope_head_dim + s.v_head_dim;
    let stride: usize = s.score_len / s.n_heads;
    let mut h: usize = 0;
    assert(ops@ =~= old(ops)@ + all.take(0));
    while h < s.n_heads
        invariant
            h <= s.n_heads,
            s.wf(),
            t < s.tokens(),
            kv_head == s.kv_head(),
            stride == s.stride(),
            all == value_ops(*s, t as int),
            ops@ == old(ops)@ + all.take(h as int),
        decreases s.n_heads - h,
    {
        proof {
            lemma_products(*s);
            lemma_head_offsets(*s, h as int);
        }
        let start: usize = if s.split_kv_b {
            s.n_heads * s.qk_nope_head_dim + h * s.v_head_dim
        } else {
            h * kv_head + s.qk_nope_head_dim
        };
        ops.push(
            Op::WeightedSum {
                weights: mk(Buf::Score, h * stride + t, 1),
                v: Strided {
                    buf: Buf::KvDecompressed,
                    start,
                    stride: 0,
                    count: 1,
                    len: s.v_head_dim,
                },
                out: mk(Buf::Concat, h * s.v_head_dim, s.v_head_dim),
            },
        );
        h = h + 1;
        assert(ops@ =~= old(ops)@ + all.take(h as int));
    }
    assert(all.take(s.n_heads as int) =~= all);
}

/// The operations of latent attention for one token of one layer.
pub fn mla_attention_avx512(s: &MlaShape) -> (ops: Vec<Op>)
    requires
        s.wf(),
    ensures
        ops@ == mla_program(*s),
{
    proof {
        lemma_products(*s);
    }
    let tokens: usize = s.token_offset + 1;
    let concat = mk(Buf::Concat, 0, s.n_heads * s.v_head_dim);
    let mut ops: Vec<Op> = Vec::new();
    push_mla_head(&mut ops, s);
    assert(ops@ =~= mla_head(*s));
    push_q_rope(&mut ops, s);
    let ghost head = ops@;
    let mut t: usize = 0;
    assert(ops@ =~= head + pass_a(*s, 0));
    while t < tokens
        invariant
            t <= tokens,
            tokens == s.tokens(),
            s.wf(),
            ops@ == head + pass_a(*s, t as nat),
        decreases tokens - t,
    {
        push_expand(&mut ops, s, t);
        push_scores(&mut ops, s, t);
        t = t + 1;
        assert(ops@ =~= head + pass_a(*s, t as nat));
    }
    push_softmax(&mut ops, s);
    let ghost part = ops@;
    ops.push(Op::Zero { at: concat });
    assert(ops@ =~= part + seq![Op::Zero { at: concat_span(*s) }]);
    let ghost mid = ops@;
    let mut u: usize = 0;
    assert(ops@ =~= mid + pass_b(*s, 0));
    while u < tokens
        invariant
            u <= tokens,
            tokens == s.tokens(),
            s.wf(),
            ops@ == mid + pass_b(*s, u as nat),
        decreases tokens - u,
    {
        push_expand(&mut ops, s, u);
        push_values(&mut ops, s, u);
        u = u + 1;
        assert(ops@ =~= mid + pass_b(*s, u as nat));
    }
    let ghost part = ops@;
    ops.push(
        Op::Linear(
            Projection {
                w: Mat::MlaOut,
                x: concat,
                out: mk(Buf::AttnOut, 0, s.embedding_dim),
                quant: s.quant,
            },
        ),
    );
    assert(ops@ =~= part + seq![mla_out(*s)]);
    ops
}

/// Buffer sizes that latent attention of shape `s` needs.
pub open spec fn mla_sizes(s: MlaShape) -> spec_fn(Buf) -> int {
    |b: Buf|
        match b {
            Buf::Norm => s.embedding_dim as int,
            Buf::AttnOut => s.embedding_dim as int,
            Buf::CKvRope => s.kv_a_dim(),
            Buf::CKvNorm => s.kv_lora_rank as int,
            Buf::CQ => s.q_lora_rank as int,
            Buf::CQNorm => s.q_lora_rank as int,
            Buf::QDecompressed => s.n_heads * s.q_head(),
            Buf::KvDecompressed => s.n_heads * s.kv_head(),
            Buf::Score => s.score_len as int,
            Buf::Concat => s.n_heads * s.v_head_dim,
            Buf::CKvCache => s.tokens() * s.kv_lora_rank,
            Buf::KRopeCache => s.tokens() * s.qk_rope_head_dim,
            _ => 0,
        }
}

proof fn lemma_token_ops_fit(s: MlaShape, t: int)
    requires
        s.wf(),
        0 <= t < s.tokens(),
    ensures
        plan::all_fit(expand_ops(s, t), mla_sizes(s)),
        plan::all_fit(score_ops(s, t), mla_sizes(s)),
        plan::all_fit(value_ops(s, t), mla_sizes(s)),
{
    lemma_products(s);
    lemma_head_fits(t, s.tokens(), s.kv_lora_rank as int);
    lemma_head_fits(t, s.tokens(), s.qk_rope_head_dim as int);
    let size = mla_sizes(s);
    assert(plan::all_fit(expand_ops(s, t), size));
    let a = score_ops(s, t);
    assert forall|h: int| 0 <= h < a.len() implies plan::op_fits(#[trigger] a[h], size) by {
        lemma_head_offsets(s, h);
    }
    let b = value_ops(s, t);
    assert forall|h: int| 0 <= h < b.len() implies plan::op_fits(#[trigger] b[h], size) by {
        lemma_head_offsets(s, h);
    }
}

proof fn lemma_passes_fit(s: MlaShape, n: nat)
    requires
        s.wf(),
        n <= s.tokens(),
    ensures
        plan::all_fit(pass_a(s, n), mla_sizes(s)),
        plan::all_fit(pass_b(s, n), mla_sizes(s)),
    decreases n,
{
    if n > 0 {
        let t = n - 1;
        let size = mla_sizes(s);
        lemma_passes_fit(s, t as nat);
        lemma_token_ops_fit(s, t);
        lemma_all_fit_concat(pass_a(s, t as nat), expand_ops(s, t), size);
        lemma_all_fit_concat(pass_a(s, t as nat) + expand_ops(s, t), score_ops(s, t), size);
        lemma_all_fit_concat(pass_b(s, t as nat), expand_ops(s, t), size);
        lemma_all_fit_concat(pass_b(s, t as nat) + expand_ops(s, t), value_ops(s, t), size);
    }
}

/// No operation of latent attention reaches beyond a buffer, split or not, if
/// the buffers have the sizes that the shape asks for.
pub proof fn lemma_mla_fits(s: MlaShape)
    requires
        s.wf(),
    ensures
        plan::all_fit(mla_program(s), mla_sizes(s)),
{
    let size = mla_sizes(s);
    lemma_products(s);
    let a = mla_head(s);
    assert(plan::all_fit(a, size));
    let b = q_rope_ops(s);
    assert forall|h: int| 0 <= h < b.len() implies plan::op_fits(#[trigger] b[h], size) by {
        lemma_head_offsets(s, h);
    }
    lemma_passes_fit(s, s.tokens() as nat);
    let c = pass_a(s, s.tokens() as nat);
    let d = softmax_ops(s);
    assert forall|h: int| 0 <= h < d.len() implies plan::op_fits(#[trigger] d[h], size) by {
        lemma_head_offsets(s, h);
    }
    let e = seq![Op::Zero { at: concat_span(s) }];
    assert(plan::all_fit(e, size));
    let f = pass_b(s, s.tokens() as nat);
    let g = seq![mla_out(s)];
    assert(plan::all_fit(g, size));
    lemma_all_fit_concat(a, b, size);
    lemma_all_fit_concat(a + b, c, size);
    lemma_all_fit_concat(a + b + c, d, size);
    lemma_all_fit_concat(a + b + c + d, e, size);
    lemma_all_fit_concat(a + b + c + d + e, f, size);
    lemma_all_fit_concat(a + b + c + d + e + f, g, size);
}

/// In both storage forms the keys and values of all heads are laid side by side
/// without overlap.
pub proof fn lemma_decompressed_apart(s: MlaShape, g: int, h: int)
    requires
        s.wf(),
        0 <= g < h < s.n_heads,
    ensures
        k_start(s, g) + s.qk_nope_head_dim <= k_start(s, h),
        v_start(s, g) + s.v_head_dim <= v_start(s, h),
        k_start(s, g) + s.qk_nope_head_dim <= v_start(s, g),
{
    lemma_products(s);
    lemma_head_offsets(s, g);
    lemma_head_fits(g, h, s.qk_nope_head_dim as int);
    lemma_head_fits(g, h, s.v_head_dim as int);
    lemma_head_fits(g, h, s.kv_head());
}

} // verus!
