//! Programs of floating-point operations.
//!
//! A forward pass is a list of operations on stretches of named buffers. The
//! lists are made here, with every index worked out; the arithmetic of each
//! operation is the caller's. The caller runs the operations in order and stops
//! at the first one that fails.

use crate::inference_avx512::fused_quant_supported;
use crate::inference_avx512::GgmlType;
use vstd::prelude::*;

verus! {

/// The buffers of a forward pass.
#[derive(Clone, Copy, Debug, PartialEq, Eq, Structural)]
pub enum Buf {
    Hidden,
    Norm,
    AttnOut,
    MlpOut,
    Q,
    K,
    V,
    QOut,
    KOut,
    Score,
    Head,
    Concat,
    Gate,
    Up,
    HiddenMlp,
    KCache,
    VCache,
    CKvRope,
    CKvNorm,
    KvDecompressed,
    CQ,
    CQNorm,
    QDecompressed,
    CKvCache,
    KRopeCache,
    ExpertOut,
    ExpertWeights,
}

/// `len` elements of a buffer from `start` on.
#[derive(Clone, Copy, Debug, PartialEq, Eq, Structural)]
pub struct Span {
    pub buf: Buf,
    pub start: usize,
    pub len: usize,
}

impl Span {
    /// The stretch ends within a buffer of `n` elements.
    pub open spec fn fits(self, n: int) -> bool {
        self.start + self.len <= n
    }

    /// The two stretches share no element.
    pub open spec fn apart(self, other: Span) -> bool {
        self.buf != other.buf || self.start + self.len <= other.start || other.start + other.len
            <= self.start
    }
}

/// `count` stretches of `len` elements, `stride` apart.
#[derive(Clone, Copy, Debug, PartialEq, Eq, Structural)]
pub struct Strided {
    pub buf: Buf,
    pub start: usize,
    pub stride: usize,
    pub count: usize,
    pub len: usize,
}

impl Strided {
    /// All stretches end within a buffer of `n` elements.
    pub open spec fn fits(self, n: int) -> bool {
        self.count > 0 ==> self.start + (self.count - 1) * self.stride + self.len <= n
    }
}

/// The weights of one layer.
#[derive(Clone, Copy, Debug, PartialEq, Eq, Structural)]
pub enum Mat {
    AttnQ,
    AttnK,
    AttnV,
    AttnO,
    FfnGate,
    FfnUp,
    FfnDown,
    KvA,
    KvB,
    KB,
    VB,
    QA,
    QB,
    MlaOut,
    SharedGate,
    SharedUp,
    SharedDown,
    /// Bytes `[start, start + len)` of the expert weights.
    ExpertGate { start: usize, len: usize },
    ExpertUp { start: usize, len: usize },
    ExpertDown { start: usize, len: usize },
}

/// The normalisation weights of one layer.
#[derive(Clone, Copy, Debug, PartialEq, Eq, Structural)]
pub enum NormWeight {
    QNorm,
    KNorm,
    KvANorm,
    QANorm,
    MlaKNorm,
}

/// One projection: `out` is the product of the matrix with `x`.
#[derive(Clone, Copy, Debug, PartialEq, Eq, Structural)]
pub struct Projection {
    pub w: Mat,
    pub x: Span,
    pub out: Span,
    pub quant: GgmlType,
}

/// Where a value range is looked at.
#[derive(Clone, Copy, Debug, PartialEq, Eq, Structural)]
pub enum Stage {
    QProj,
    KProj,
    VProj,
    QNorm,
    KNorm,
    QRope,
    KRope,
    Score,
    AttnConcat,
    OProj,
    Embed,
    AttnNormIn,
    AttnNorm,
    AttnOut,
    PostAttnResidual,
    PostAttn,
    FfnNorm,
    MlpGate,
    MlpUp,
    MlpSiluUp,
    MlpOut,
    PostMlpResidual,
    PostMlp,
}

impl Stage {
    /// The name under which the stage is reported.
    pub open spec fn name(self) -> Seq<char> {
        match self {
            Stage::QProj => "q_proj"@,
            Stage::KProj => "k_proj"@,
            Stage::VProj => "v_proj"@,
            Stage::QNorm => "q_qknorm"@,
            Stage::KNorm => "k_qknorm"@,
            Stage::QRope => "q_rope"@,
            Stage::KRope => "k_rope"@,
            Stage::Score => "score"@,
            Stage::AttnConcat => "attn_concat"@,
            Stage::OProj => "o_proj"@,
            Stage::Embed => "embed"@,
            Stage::AttnNormIn => "attn_norm_in"@,
            Stage::AttnNorm => "attn_norm"@,
            Stage::AttnOut => "attn_out"@,
            Stage::PostAttnResidual => "post_attn_residual"@,
            Stage::PostAttn => "post_attn"@,
            Stage::FfnNorm => "ffn_norm"@,
            Stage::MlpGate => "mlp_gate"@,
            Stage::MlpUp => "mlp_up"@,
            Stage::MlpSiluUp => "mlp_silu_up"@,
            Stage::MlpOut => "mlp_out"@,
            Stage::PostMlpResidual => "post_mlp_residual"@,
            Stage::PostMlp => "post_mlp"@,
        }
    }

    pub fn label(self) -> (l: &'static str)
        ensures
            l@ == self.name(),
    {
        match self {
            Stage::QProj => "q_proj",
            Stage::KProj => "k_proj",
            Stage::VProj => "v_proj",
            Stage::QNorm => "q_qknorm",
            Stage::KNorm => "k_qknorm",
            Stage::QRope => "q_rope",
            Stage::KRope => "k_rope",
            Stage::Score => "score",
            Stage::AttnConcat => "attn_concat",
            Stage::OProj => "o_proj",
            Stage::Embed => "embed",
            Stage::AttnNormIn => "attn_norm_in",
            Stage::AttnNorm => "attn_norm",
            Stage::AttnOut => "attn_out",
            Stage::PostAttnResidual => "post_attn_residual",
            Stage::PostAttn => "post_attn",
            Stage::FfnNorm => "ffn_norm",
            Stage::MlpGate => "mlp_gate",
            Stage::MlpUp => "mlp_up",
            Stage::MlpSiluUp => "mlp_silu_up",
            Stage::MlpOut => "mlp_out",
            Stage::PostMlpResidual => "post_mlp_residual",
            Stage::PostMlp => "post_mlp",
        }
    }
}

#[allow(inconsistent_fields)]
#[derive(Clone, Copy, Debug, PartialEq, Eq, Structural)]
pub enum Op {
    /// Looks at the value range; changes nothing.
    Trace { stage: Stage, at: Span },
    Linear(Projection),
    /// Two projections of one input in one dispatch.
    Fused2(Projection, Projection),
    /// Three projections of one input in one dispatch.
    Fused3(Projection, Projection, Projection),
    RmsNorm { x: Span, w: NormWeight, out: Span },
    /// Rotation by the position table, halves against each other.
    Rope { at: Span },
    /// Keeps key and value of the current token.
    StoreKv { layer: usize, token: usize, k: Span, v: Span },
    /// Keeps the compressed latent of the current token.
    StoreCompressed { layer: usize, token: usize, c: Span, rope: Span },
    /// `out[i]` is the scaled product of `q` with stretch `i` of `k`.
    Scores { q: Span, k: Strided, out: Span },
    /// The scaled sum of two products.
    Score2 { q0: Span, k0: Span, q1: Span, k1: Span, out: Span },
    Softmax { at: Span },
    Zero { at: Span },
    /// Adds stretch `i` of `v` times `weights[i]`, for each `i` in order.
    WeightedSum { weights: Span, v: Strided, out: Span },
    Copy { from: Span, to: Span },
    /// `out` is SiLU of `gate` times `up`.
    SiluMul { gate: Span, up: Span, out: Span },
}

pub open spec fn span(buf: Buf, start: int, len: int) -> Span {
    Span { buf, start: start as usize, len: len as usize }
}

/// A stretch of a buffer.
pub fn mk(buf: Buf, start: usize, len: usize) -> (s: Span)
    ensures
        s == span(buf, start as int, len as int),
{
    Span { buf, start, len }
}

/// Head `h` of `n` ends where `n` heads end at the latest.
pub proof fn lemma_head_fits(h: int, n: int, d: int)
    requires
        0 <= h < n,
        0 <= d,
    ensures
        0 <= h * d,
        h * d + d <= n * d,
        (h + 1) * d == h * d + d,
{
    assert((h + 1) * d == h * d + d) by (nonlinear_arith);
    assert((h + 1) * d <= n * d && 0 <= h * d) by (nonlinear_arith)
        requires
            0 <= h,
            h + 1 <= n,
            0 <= d,
    ;
}

/// The shape of grouped-query attention for one token of one layer.
#[derive(Clone, Copy, Debug, PartialEq, Eq, Structural)]
pub struct GqaShape {
    pub n_q_heads: usize,
    pub n_kv_heads: usize,
    pub head_dim: usize,
    pub embedding_dim: usize,
    pub layer: usize,
    pub token_offset: usize,
    /// Elements of the score buffer.
    pub score_len: usize,
}

/// Tensor types of the four attention projections.
#[derive(Clone, Copy, Debug, PartialEq, Eq, Structural)]
pub struct AttnQuants {
    pub q: GgmlType,
    pub k: GgmlType,
    pub v: GgmlType,
    pub o: GgmlType,
}

impl GqaShape {
    pub open spec fn q_dim(self) -> int {
        self.n_q_heads * self.head_dim
    }

    pub open spec fn kv_dim(self) -> int {
        self.n_kv_heads * self.head_dim
    }

    pub open spec fn tokens(self) -> int {
        self.token_offset + 1
    }

    /// Query heads that share one key head.
    pub open spec fn ratio(self) -> int {
        self.n_q_heads as int / self.n_kv_heads as int
    }

    /// Elements of the score buffer per head, all of it without heads.
    pub open spec fn score_stride(self) -> int {
        if self.n_q_heads > 0 {
            self.score_len as int / self.n_q_heads as int
        } else {
            self.score_len as int
        }
    }

    /// The heads divide evenly, the scores of a head fit their buffer, and all
    /// buffer sizes are machine sizes.
    pub open spec fn wf(self) -> bool {
        &&& self.n_kv_heads > 0
        &&& self.n_q_heads as int % self.n_kv_heads as int == 0
        &&& self.q_dim() <= usize::MAX
        &&& self.kv_dim() <= usize::MAX
        &&& self.tokens() * self.kv_dim() <= usize::MAX
        &&& self.tokens() <= usize::MAX
        &&& self.n_q_heads > 0 ==> self.tokens() <= self.score_len
    }
}

/// Every query head has a key head.
pub proof fn lemma_kv_head(s: GqaShape, h: int)
    requires
        s.wf(),
        0 <= h < s.n_q_heads,
    ensures
        s.ratio() > 0,
        0 <= h / s.ratio() < s.n_kv_heads,
{
    let n = s.n_q_heads as int;
    let m = s.n_kv_heads as int;
    let r = n / m;
    vstd::arithmetic::div_mod::lemma_fundamental_div_mod(n, m);
    assert(n == m * r);
    assert(r > 0) by (nonlinear_arith)
        requires
            n == m * r,
            n > 0,
            m > 0,
    ;
    assert(0 <= h / r < m) by (nonlinear_arith)
        requires
            0 <= h < m * r,
            r > 0,
    {
        vstd::arithmetic::div_mod::lemma_fundamental_div_mod(h, r);
        vstd::arithmetic::div_mod::lemma_mod_bound(h, r);
    }
}

/// Normalisation of `n` heads.
pub open spec fn norm_heads(n: nat, d: int, from: Buf, w: NormWeight, to: Buf) -> Seq<Op> {
    Seq::new(n, |h: int| Op::RmsNorm { x: span(from, h * d, d), w, out: span(to, h * d, d) })
}

/// Rotation of `n` heads.
pub open spec fn rope_heads(n: nat, d: int, at: Buf) -> Seq<Op> {
    Seq::new(n, |h: int| Op::Rope { at: span(at, h * d, d) })
}

/// The projections of query, key and value: one dispatch where fusing is on
/// and all three types have a kernel.
pub open spec fn qkv_ops(s: GqaShape, t: AttnQuants, fused: bool) -> Seq<Op> {
    let x = span(Buf::Norm, 0, s.embedding_dim as int);
    let q = Projection { w: Mat::AttnQ, x, out: span(Buf::Q, 0, s.q_dim()), quant: t.q };
    let k = Projection { w: Mat::AttnK, x, out: span(Buf::K, 0, s.kv_dim()), quant: t.k };
    let v = Projection { w: Mat::AttnV, x, out: span(Buf::V, 0, s.kv_dim()), quant: t.v };
    if fused && t.q.has_kernel() && t.k.has_kernel() && t.v.has_kernel() {
        seq![Op::Fused3(q, k, v)]
    } else {
        seq![Op::Linear(q), Op::Linear(k), Op::Linear(v)]
    }
}

/// The scores of head `h`, written to `score`.
pub open spec fn head_score(s: GqaShape, h: int, score: int) -> Op {
    let d = s.head_dim as int;
    Op::Scores {
        q: span(Buf::QOut, h * d, d),
        k: Strided {
            buf: Buf::KCache,
            start: (h / s.ratio() * d) as usize,
            stride: s.kv_dim() as usize,
            count: s.tokens() as usize,
            len: s.head_dim,
        },
        out: span(Buf::Score, score, s.tokens()),
    }
}

/// Softmax and weighted sum of head `h`, with the scores at `score` and the
/// sum in `acc`.
pub open spec fn head_rest(s: GqaShape, h: int, score: int, acc: Span) -> Seq<Op> {
    let d = s.head_dim as int;
    seq![
        Op::Softmax { at: span(Buf::Score, score, s.tokens()) },
        Op::Zero { at: acc },
        Op::WeightedSum {
            weights: span(Buf::Score, score, s.tokens()),
            v: Strided {
                buf: Buf::VCache,
                start: (h / s.ratio() * d) as usize,
                stride: s.kv_dim() as usize,
                count: s.tokens() as usize,
                len: s.head_dim,
            },
            out: acc,
        },
    ]
}

/// Head `h` on its own: a shared score stretch and staging buffer, then a copy
/// into the head's place.
pub open spec fn sequential_head(s: GqaShape, h: int) -> Seq<Op> {
    let d = s.head_dim as int;
    (seq![
        head_score(s, h, 0),
        Op::Trace { stage: Stage::Score, at: span(Buf::Score, 0, s.tokens()) },
    ] + head_rest(s, h, 0, span(Buf::Head, 0, d))).push(
        Op::Copy { from: span(Buf::Head, 0, d), to: span(Buf::Concat, h * d, d) },
    )
}

/// Head `h` beside the others: its own score stretch, summed in its own place.
pub open spec fn parallel_head(s: GqaShape, h: int) -> Seq<Op> {
    let d = s.head_dim as int;
    seq![head_score(s, h, h * s.score_stride())] + head_rest(
        s,
        h,
        h * s.score_stride(),
        span(Buf::Concat, h * d, d),
    )
}

pub open spec fn sequential_heads(s: GqaShape, lo: int, n: nat) -> Seq<Op>
    decreases n,
{
    if n == 0 {
        Seq::empty()
    } else {
        sequential_heads(s, lo, (n - 1) as nat) + sequential_head(s, lo + n - 1)
    }
}

pub open spec fn parallel_heads(s: GqaShape, lo: int, n: nat) -> Seq<Op>
    decreases n,
{
    if n == 0 {
        Seq::empty()
    } else {
        parallel_heads(s, lo, (n - 1) as nat) + parallel_head(s, lo + n - 1)
    }
}

/// Whether the heads fan out: from the threshold on, with two heads at least,
/// a score stretch for each, and a second core.
pub open spec fn fans_out(s: GqaShape, min_tokens: usize, n_cores: usize) -> bool {
    s.tokens() >= min_tokens && s.n_q_heads >= 2 && s.score_stride() >= s.tokens() && n_cores > 1
}

pub open spec fn trace(stage: Stage, buf: Buf, len: int) -> Op {
    Op::Trace { stage, at: span(buf, 0, len) }
}

/// Everything before the heads.
pub open spec fn gqa_head(s: GqaShape, t: AttnQuants, fused: bool) -> Seq<Op> {
    let d = s.head_dim as int;
    qkv_ops(s, t, fused) + seq![
        trace(Stage::QProj, Buf::Q, s.q_dim()),
        trace(Stage::KProj, Buf::K, s.kv_dim()),
        trace(Stage::VProj, Buf::V, s.kv_dim()),
    ] + norm_heads(s.n_q_heads as nat, d, Buf::Q, NormWeight::QNorm, Buf::QOut) + norm_heads(
        s.n_kv_heads as nat,
        d,
        Buf::K,
        NormWeight::KNorm,
        Buf::KOut,
    ) + seq![
        trace(Stage::QNorm, Buf::QOut, s.q_dim()),
        trace(Stage::KNorm, Buf::KOut, s.kv_dim()),
    ] + rope_heads(s.n_q_heads as nat, d, Buf::QOut) + rope_heads(
        s.n_kv_heads as nat,
        d,
        Buf::KOut,
    ) + seq![
        trace(Stage::QRope, Buf::QOut, s.q_dim()),
        trace(Stage::KRope, Buf::KOut, s.kv_dim()),
        Op::StoreKv {
            layer: s.layer,
            token: s.token_offset,
            k: span(Buf::KOut, 0, s.kv_dim()),
            v: span(Buf::V, 0, s.kv_dim()),
        },
    ]
}

/// The output projection.
pub open spec fn gqa_out(s: GqaShape, t: AttnQuants) -> Op {
    Op::Linear(
        Projection {
            w: Mat::AttnO,
            x: span(Buf::Concat, 0, s.q_dim()),
            out: span(Buf::AttnOut, 0, s.embedding_dim as int),
            quant: t.o,
        },
    )
}

/// Attention of one token: projections, normalisation, rotation, cache, heads, output.
pub open spec fn gqa_program(
    s: GqaShape,
    t: AttnQuants,
    fused: bool,
    min_tokens: usize,
    n_cores: usize,
) -> Seq<Op> {
    if fans_out(s, min_tokens, n_cores) {
        gqa_head(s, t, fused) + parallel_heads(s, 0, s.n_q_heads as nat) + seq![gqa_out(s, t)]
    } else {
        gqa_head(s, t, fused) + sequential_heads(s, 0, s.n_q_heads as nat) + seq![
            trace(Stage::AttnConcat, Buf::Concat, s.q_dim()),
            gqa_out(s, t),
            trace(Stage::OProj, Buf::AttnOut, s.embedding_dim as int),
        ]
    }
}

fn push_norm_heads(ops: &mut Vec<Op>, n: usize, d: usize, from: Buf, w: NormWeight, to: Buf)
    requires
        n * d <= usize::MAX,
    ensures
        final(ops)@ == old(ops)@ + norm_heads(n as nat, d as int, from, w, to),
{
    let ghost all = norm_heads(n as nat, d as int, from, w, to);
    let mut h: usize = 0;
    assert(ops@ =~= old(ops)@ + all.take(0));
    while h < n
        invariant
            h <= n,
            n * d <= usize::MAX,
            all == norm_heads(n as nat, d as int, from, w, to),
            ops@ == old(ops)@ + all.take(h as int),
        decreases n - h,
    {
        proof {
            lemma_head_fits(h as int, n as int, d as int);
        }
        ops.push(Op::RmsNorm { x: mk(from, h * d, d), w, out: mk(to, h * d, d) });
        h = h + 1;
        assert(ops@ =~= old(ops)@ + all.take(h as int));
    }
    assert(all.take(n as int) =~= all);
}

fn push_rope_heads(ops: &mut Vec<Op>, n: usize, d: usize, at: Buf)
    requires
        n * d <= usize::MAX,
    ensures
        final(ops)@ == old(ops)@ + rope_heads(n as nat, d as int, at),
{
    let ghost all = rope_heads(n as nat, d as int, at);
    let mut h: usize = 0;
    assert(ops@ =~= old(ops)@ + all.take(0));
    while h < n
        invariant
            h <= n,
            n * d <= usize::MAX,
            all == rope_heads(n as nat, d as int, at),
            ops@ == old(ops)@ + all.take(h as int),
        decreases n - h,
    {
        proof {
            lemma_head_fits(h as int, n as int, d as int);
        }
        ops.push(Op::Rope { at: mk(at, h * d, d) });
        h = h + 1;
        assert(ops@ =~= old(ops)@ + all.take(h as int));
    }
    assert(all.take(n as int) =~= all);
}

fn push_qkv(ops: &mut Vec<Op>, s: &GqaShape, t: &AttnQuants, fused: bool)
    requires
        s.wf(),
    ensures
        final(ops)@ == old(ops)@ + qkv_ops(*s, *t, fused),
{
    let q_dim: usize = s.n_q_heads * s.head_dim;
    let kv_dim: usize = s.n_kv_heads * s.head_dim;
    let x = mk(Buf::Norm, 0, s.embedding_dim);
    let q = Projection { w: Mat::AttnQ, x, out: mk(Buf::Q, 0, q_dim), quant: t.q };
    let k = Projection { w: Mat::AttnK, x, out: mk(Buf::K, 0, kv_dim), quant: t.k };
    let v = Projection { w: Mat::AttnV, x, out: mk(Buf::V, 0, kv_dim), quant: t.v };
    if fused && fused_quant_supported(t.q) && fused_quant_supported(t.k) && fused_quant_supported(
        t.v,
    ) {
        ops.push(Op::Fused3(q, k, v));
    } else {
        ops.push(Op::Linear(q));
        ops.push(Op::Linear(k));
        ops.push(Op::Linear(v));
    }
    assert(ops@ =~= old(ops)@ + qkv_ops(*s, *t, fused));
}

fn push_score(ops: &mut Vec<Op>, s: &GqaShape, h: usize, score: usize)
    requires
        s.wf(),
        h < s.n_q_heads,
    ensures
        final(ops)@ == old(ops)@.push(head_score(*s, h as int, score as int)),
{
    proof {
        lemma_kv_head(*s, h as int);
        lemma_head_fits(h as int, s.n_q_heads as int, s.head_dim as int);
        lemma_head_fits(h as int / s.ratio(), s.n_kv_heads as int, s.head_dim as int);
    }
    let ratio: usize = s.n_q_heads / s.n_kv_heads;
    ops.push(
        Op::Scores {
            q: mk(Buf::QOut, h * s.head_dim, s.head_dim),
            k: Strided {
                buf: Buf::KCache,
                start: h / ratio * s.head_dim,
                stride: s.n_kv_heads * s.head_dim,
                count: s.token_offset + 1,
                len: s.head_dim,
            },
            out: mk(Buf::Score, score, s.token_offset + 1),
        },
    );
}

fn push_head_rest(ops: &mut Vec<Op>, s: &GqaShape, h: usize, score: usize, acc: Span)
    requires
        s.wf(),
        h < s.n_q_heads,
    ensures
        final(ops)@ == old(ops)@ + head_rest(*s, h as int, score as int, acc),
{
    proof {
        lemma_kv_head(*s, h as int);
        lemma_head_fits(h as int / s.ratio(), s.n_kv_heads as int, s.head_dim as int);
    }
    let ratio: usize = s.n_q_heads / s.n_kv_heads;
    let tokens: usize = s.token_offset + 1;
    ops.push(Op::Softmax { at: mk(Buf::Score, score, tokens) });
    ops.push(Op::Zero { at: acc });
    ops.push(
        Op::WeightedSum {
            weights: mk(Buf::Score, score, tokens),
            v: Strided {
                buf: Buf::VCache,
                start: h / ratio * s.head_dim,
                stride: s.n_kv_heads * s.head_dim,
                count: tokens,
                len: s.head_dim,
            },
            out: acc,
        },
    );
    assert(ops@ =~= old(ops)@ + head_rest(*s, h as int, score as int, acc));
}

proof fn lemma_score_place(s: GqaShape, h: int)
    requires
        s.wf(),
        0 <= h < s.n_q_heads,
    ensures
        0 <= s.score_stride(),
        0 <= h * s.score_stride(),
        h * s.score_stride() + s.score_stride() <= s.score_len,
{
    let n = s.n_q_heads as int;
    let l = s.score_len as int;
    let st = s.score_stride();
    vstd::arithmetic::div_mod::lemma_fundamental_div_mod(l, n);
    vstd::arithmetic::div_mod::lemma_mod_bound(l, n);
    vstd::arithmetic::div_mod::lemma_div_pos_is_pos(l, n);
    lemma_head_fits(h, n, st);
    assert(n * st <= l);
}

fn stride_of(s: &GqaShape) -> (n: usize)
    ensures
        n == s.score_stride(),
{
    if s.n_q_heads > 0 {
        s.score_len / s.n_q_heads
    } else {
        s.score_len
    }
}

/// The operations of the heads `[start, end)` in the parallel form.
pub fn attn_heads_kernel(s: &GqaShape, start: usize, end: usize) -> (ops: Vec<Op>)
    requires
        s.wf(),
        start <= end <= s.n_q_heads,
    ensures
        ops@ == parallel_heads(*s, start as int, (end - start) as nat),
{
    let stride: usize = stride_of(s);
    let mut ops: Vec<Op> = Vec::new();
    let mut h: usize = start;
    while h < end
        invariant
            start <= h <= end <= s.n_q_heads,
            s.wf(),
            stride == s.score_stride(),
            ops@ == parallel_heads(*s, start as int, (h - start) as nat),
        decreases end - h,
    {
        proof {
            lemma_score_place(*s, h as int);
            lemma_head_fits(h as int, s.n_q_heads as int, s.head_dim as int);
        }
        let ghost before = ops@;
        push_score(&mut ops, s, h, h * stride);
        push_head_rest(&mut ops, s, h, h * stride, mk(Buf::Concat, h * s.head_dim, s.head_dim));
        assert(ops@ =~= before + parallel_head(*s, h as int));
        h = h + 1;
    }
    ops
}

/// The operations of grouped-query attention for one token of one layer.
/// `min_tokens` is the fan-out threshold and `n_cores` the cores that heads can
/// be spread over.
pub fn gqa_attention_single_token_avx512(
    s: &GqaShape,
    t: &AttnQuants,
    fused: bool,
    min_tokens: usize,
    n_cores: usize,
) -> (ops: Vec<Op>)
    requires
        s.wf(),
    ensures
        ops@ == gqa_program(*s, *t, fused, min_tokens, n_cores),
{
    let q_dim: usize = s.n_q_heads * s.head_dim;
    let kv_dim: usize = s.n_kv_heads * s.head_dim;
    let tokens: usize = s.token_offset + 1;
    let mut ops: Vec<Op> = Vec::new();
    push_qkv(&mut ops, s, t, fused);
    assert(ops@ =~= qkv_ops(*s, *t, fused));
    let ghost part = ops@;
    ops.push(Op::Trace { stage: Stage::QProj, at: mk(Buf::Q, 0, q_dim) });
    ops.push(Op::Trace { stage: Stage::KProj, at: mk(Buf::K, 0, kv_dim) });
    ops.push(Op::Trace { stage: Stage::VProj, at: mk(Buf::V, 0, kv_dim) });
    assert(ops@ =~= part + seq![
        trace(Stage::QProj, Buf::Q, s.q_dim()),
        trace(Stage::KProj, Buf::K, s.kv_dim()),
        trace(Stage::VProj, Buf::V, s.kv_dim()),
    ]);
    push_norm_heads(&mut ops, s.n_q_heads, s.head_dim, Buf::Q, NormWeight::QNorm, Buf::QOut);
    push_norm_heads(&mut ops, s.n_kv_heads, s.head_dim, Buf::K, NormWeight::KNorm, Buf::KOut);
    let ghost part = ops@;
    ops.push(Op::Trace { stage: Stage::QNorm, at: mk(Buf::QOut, 0, q_dim) });
    ops.push(Op::Trace { stage: Stage::KNorm, at: mk(Buf::KOut, 0, kv_dim) });
    assert(ops@ =~= part + seq![
        trace(Stage::QNorm, Buf::QOut, s.q_dim()),
        trace(Stage::KNorm, Buf::KOut, s.kv_dim()),
    ]);
    push_rope_heads(&mut ops, s.n_q_heads, s.head_dim, Buf::QOut);
    push_rope_heads(&mut ops, s.n_kv_heads, s.head_dim, Buf::KOut);
    let ghost part = ops@;
    ops.push(Op::Trace { stage: Stage::QRope, at: mk(Buf::QOut, 0, q_dim) });
    ops.push(Op::Trace { stage: Stage::KRope, at: mk(Buf::KOut, 0, kv_dim) });
    ops.push(
        Op::StoreKv {
            layer: s.layer,
            token: s.token_offset,
            k: mk(Buf::KOut, 0, kv_dim),
            v: mk(Buf::V, 0, kv_dim),
        },
    );
    assert(ops@ =~= part + seq![
        trace(Stage::QRope, Buf::QOut, s.q_dim()),
        trace(Stage::KRope, Buf::KOut, s.kv_dim()),
        Op::StoreKv {
            layer: s.layer,
            token: s.token_offset,
            k: span(Buf::KOut, 0, s.kv_dim()),
            v: span(Buf::V, 0, s.kv_dim()),
        },
    ]);
    let ghost head = ops@;
    let out = Op::Linear(
        Projection {
            w: Mat::AttnO,
            x: mk(Buf::Concat, 0, q_dim),
            out: mk(Buf::AttnOut, 0, s.embedding_dim),
            quant: t.o,
        },
    );
    let stride: usize = stride_of(s);
    if tokens >= min_tokens && s.n_q_heads >= 2 && stride >= tokens && n_cores > 1 {
        let mut heads: Vec<Op> = attn_heads_kernel(s, 0, s.n_q_heads);
        ops.append(&mut heads);
        ops.push(out);
        assert(ops@ =~= gqa_program(*s, *t, fused, min_tokens, n_cores));
    } else {
        let mut h: usize = 0;
        assert(ops@ =~= head + sequential_heads(*s, 0, 0));
        while h < s.n_q_heads
            invariant
                h <= s.n_q_heads,
                s.wf(),
                tokens == s.tokens(),
                ops@ == head + sequential_heads(*s, 0, h as nat),
            decreases s.n_q_heads - h,
        {
            proof {
                lemma_head_fits(h as int, s.n_q_heads as int, s.head_dim as int);
            }
            let ghost before = ops@;
            push_score(&mut ops, s, h, 0);
            ops.push(Op::Trace { stage: Stage::Score, at: mk(Buf::Score, 0, tokens) });
            push_head_rest(&mut ops, s, h, 0, mk(Buf::Head, 0, s.head_dim));
            ops.push(
                Op::Copy {
                    from: mk(Buf::Head, 0, s.head_dim),
                    to: mk(Buf::Concat, h * s.head_dim, s.head_dim),
                },
            );
            assert(ops@ =~= before + sequential_head(*s, h as int));
            h = h + 1;
            assert(ops@ =~= head + sequential_heads(*s, 0, h as nat));
        }
        ops.push(Op::Trace { stage: Stage::AttnConcat, at: mk(Buf::Concat, 0, q_dim) });
        ops.push(out);
        ops.push(Op::Trace { stage: Stage::OProj, at: mk(Buf::AttnOut, 0, s.embedding_dim) });
        assert(ops@ =~= gqa_program(*s, *t, fused, min_tokens, n_cores));
    }
    ops
}

/// Every stretch that `op` touches lies within its buffer.
pub open spec fn op_fits(op: Op, size: spec_fn(Buf) -> int) -> bool {
    match op {
        Op::Trace { stage, at } => at.fits(size(at.buf)),
        Op::Linear(p) => p.x.fits(size(p.x.buf)) && p.out.fits(size(p.out.buf)),
        Op::Fused2(a, b) => a.x.fits(size(a.x.buf)) && a.out.fits(size(a.out.buf)) && b.x.fits(
            size(b.x.buf),
        ) && b.out.fits(size(b.out.buf)),
        Op::Fused3(a, b, c) => a.x.fits(size(a.x.buf)) && a.out.fits(size(a.out.buf)) && b.x.fits(
            size(b.x.buf),
        ) && b.out.fits(size(b.out.buf)) && c.x.fits(size(c.x.buf)) && c.out.fits(size(c.out.buf)),
        Op::RmsNorm { x, w, out } => x.fits(size(x.buf)) && out.fits(size(out.buf)),
        Op::Rope { at } => at.fits(size(at.buf)),
        Op::StoreKv { layer, token, k, v } => k.fits(size(k.buf)) && v.fits(size(v.buf)),
        Op::StoreCompressed { layer, token, c, rope } => c.fits(size(c.buf)) && rope.fits(
            size(rope.buf),
        ),
        Op::Scores { q, k, out } => q.fits(size(q.buf)) && k.fits(size(k.buf)) && out.fits(
            size(out.buf),
        ),
        Op::Score2 { q0, k0, q1, k1, out } => q0.fits(size(q0.buf)) && k0.fits(size(k0.buf))
            && q1.fits(size(q1.buf)) && k1.fits(size(k1.buf)) && out.fits(size(out.buf)),
        Op::Softmax { at } => at.fits(size(at.buf)),
        Op::Zero { at } => at.fits(size(at.buf)),
        Op::WeightedSum { weights, v, out } => weights.fits(size(weights.buf)) && v.fits(
            size(v.buf),
        ) && out.fits(size(out.buf)),
        Op::Copy { from, to } => from.fits(size(from.buf)) && to.fits(size(to.buf)),
        Op::SiluMul { gate, up, out } => gate.fits(size(gate.buf)) && up.fits(size(up.buf))
            && out.fits(size(out.buf)),
    }
}

/// All operations keep within their buffers.
pub open spec fn all_fit(ops: Seq<Op>, size: spec_fn(Buf) -> int) -> bool {
    forall|i: int| 0 <= i < ops.len() ==> op_fits(#[trigger] ops[i], size)
}

pub proof fn lemma_all_fit_concat(a: Seq<Op>, b: Seq<Op>, size: spec_fn(Buf) -> int)
    requires
        all_fit(a, size),
        all_fit(b, size),
    ensures
        all_fit(a + b, size),
{
    assert forall|i: int| 0 <= i < (a + b).len() implies op_fits(#[trigger] (a + b)[i], size) by {
        if i < a.len() {
            assert((a + b)[i] == a[i]);
        } else {
            assert((a + b)[i] == b[i - a.len()]);
        }
    }
}

/// Buffer sizes that attention of shape `s` needs.
pub open spec fn gqa_sizes(s: GqaShape) -> spec_fn(Buf) -> int {
    |b: Buf|
        match b {
            Buf::Norm => s.embedding_dim as int,
            Buf::AttnOut => s.embedding_dim as int,
            Buf::Q => s.q_dim(),
            Buf::QOut => s.q_dim(),
            Buf::Concat => s.q_dim(),
            Buf::K => s.kv_dim(),
            Buf::V => s.kv_dim(),
            Buf::KOut => s.kv_dim(),
            Buf::Score => s.score_len as int,
            Buf::Head => s.head_dim as int,
            Buf::KCache => s.tokens() * s.kv_dim(),
            Buf::VCache => s.tokens() * s.kv_dim(),
            _ => 0,
        }
}

proof fn lemma_head_ops_fit(s: GqaShape, h: int, score: int, acc: Span)
    requires
        s.wf(),
        0 <= h < s.n_q_heads,
        0 <= score,
        score + s.tokens() <= s.score_len,
        acc.fits(gqa_sizes(s)(acc.buf)),
    ensures
        op_fits(head_score(s, h, score), gqa_sizes(s)),
        all_fit(head_rest(s, h, score, acc), gqa_sizes(s)),
{
    let d = s.head_dim as int;
    let kv = h / s.ratio();
    lemma_kv_head(s, h);
    lemma_head_fits(h, s.n_q_heads as int, d);
    lemma_head_fits(kv, s.n_kv_heads as int, d);
    let t = s.tokens();
    let kd = s.kv_dim();
    assert((t - 1) * kd + kd == t * kd) by (nonlinear_arith);
    assert(0 <= kv * d && kv * d + d <= kd);
    assert(kv * d <= usize::MAX);
}

proof fn lemma_parallel_heads_fit(s: GqaShape, n: nat)
    requires
        s.wf(),
        s.score_stride() >= s.tokens(),
        n <= s.n_q_heads,
    ensures
        all_fit(parallel_heads(s, 0, n), gqa_sizes(s)),
    decreases n,
{
    if n > 0 {
        let h = n - 1;
        lemma_parallel_heads_fit(s, h as nat);
        lemma_score_place(s, h);
        lemma_head_fits(h, s.n_q_heads as int, s.head_dim as int);
        lemma_head_ops_fit(
            s,
            h,
            h * s.score_stride(),
            span(Buf::Concat, h * s.head_dim, s.head_dim as int),
        );
        lemma_all_fit_concat(parallel_heads(s, 0, h as nat), parallel_head(s, h), gqa_sizes(s));
    }
}

proof fn lemma_sequential_heads_fit(s: GqaShape, n: nat)
    requires
        s.wf(),
        n <= s.n_q_heads,
    ensures
        all_fit(sequential_heads(s, 0, n), gqa_sizes(s)),
    decreases n,
{
    if n > 0 {
        let h = n - 1;
        lemma_sequential_heads_fit(s, h as nat);
        lemma_head_fits(h, s.n_q_heads as int, s.head_dim as int);
        lemma_head_ops_fit(s, h, 0, span(Buf::Head, 0, s.head_dim as int));
        lemma_all_fit_concat(sequential_heads(s, 0, h as nat), sequential_head(s, h), gqa_sizes(s));
    }
}

proof fn lemma_gqa_head_fits(s: GqaShape, t: AttnQuants, fused: bool)
    requires
        s.wf(),
    ensures
        all_fit(gqa_head(s, t, fused), gqa_sizes(s)),
{
    let size = gqa_sizes(s);
    let d = s.head_dim as int;
    assert(s.q_dim() >= 0 && s.kv_dim() >= 0) by (nonlinear_arith)
        requires
            s.q_dim() == s.n_q_heads * s.head_dim,
            s.kv_dim() == s.n_kv_heads * s.head_dim,
    ;
    let a = qkv_ops(s, t, fused);
    let a1 = seq![
        trace(Stage::QProj, Buf::Q, s.q_dim()),
        trace(Stage::KProj, Buf::K, s.kv_dim()),
        trace(Stage::VProj, Buf::V, s.kv_dim()),
    ];
    assert(all_fit(a, size) && all_fit(a1, size));
    let b = norm_heads(s.n_q_heads as nat, d, Buf::Q, NormWeight::QNorm, Buf::QOut);
    let c = norm_heads(s.n_kv_heads as nat, d, Buf::K, NormWeight::KNorm, Buf::KOut);
    let c1 = seq![
        trace(Stage::QNorm, Buf::QOut, s.q_dim()),
        trace(Stage::KNorm, Buf::KOut, s.kv_dim()),
    ];
    assert(all_fit(c1, size));
    let e = rope_heads(s.n_q_heads as nat, d, Buf::QOut);
    let f = rope_heads(s.n_kv_heads as nat, d, Buf::KOut);
    assert forall|h: int| 0 <= h < b.len() implies op_fits(#[trigger] b[h], size) by {
        lemma_head_fits(h, s.n_q_heads as int, d);
    }
    assert forall|h: int| 0 <= h < c.len() implies op_fits(#[trigger] c[h], size) by {
        lemma_head_fits(h, s.n_kv_heads as int, d);
    }
    assert forall|h: int| 0 <= h < e.len() implies op_fits(#[trigger] e[h], size) by {
        lemma_head_fits(h, s.n_q_heads as int, d);
    }
    assert forall|h: int| 0 <= h < f.len() implies op_fits(#[trigger] f[h], size) by {
        lemma_head_fits(h, s.n_kv_heads as int, d);
    }
    let store = seq![
        trace(Stage::QRope, Buf::QOut, s.q_dim()),
        trace(Stage::KRope, Buf::KOut, s.kv_dim()),
        Op::StoreKv {
            layer: s.layer,
            token: s.token_offset,
            k: span(Buf::KOut, 0, s.kv_dim()),
            v: span(Buf::V, 0, s.kv_dim()),
        },
    ];
    assert(all_fit(store, size));
    lemma_all_fit_concat(a, a1, size);
    lemma_all_fit_concat(a + a1, b, size);
    lemma_all_fit_concat(a + a1 + b, c, size);
    lemma_all_fit_concat(a + a1 + b + c, c1, size);
    lemma_all_fit_concat(a + a1 + b + c + c1, e, size);
    lemma_all_fit_concat(a + a1 + b + c + c1 + e, f, size);
    lemma_all_fit_concat(a + a1 + b + c + c1 + e + f, store, size);
}

/// No operation of attention reaches beyond a buffer, in either form, if the
/// buffers have the sizes that the shape asks for.
pub proof fn lemma_gqa_fits(
    s: GqaShape,
    t: AttnQuants,
    fused: bool,
    min_tokens: usize,
    n_cores: usize,
)
    requires
        s.wf(),
    ensures
        all_fit(gqa_program(s, t, fused, min_tokens, n_cores), gqa_sizes(s)),
{
    let size = gqa_sizes(s);
    lemma_gqa_head_fits(s, t, fused);
    let head = gqa_head(s, t, fused);
    assert(s.q_dim() >= 0) by (nonlinear_arith)
        requires
            s.q_dim() == s.n_q_heads * s.head_dim,
    ;
    if fans_out(s, min_tokens, n_cores) {
        let heads = parallel_heads(s, 0, s.n_q_heads as nat);
        let tail = seq![gqa_out(s, t)];
        lemma_parallel_heads_fit(s, s.n_q_heads as nat);
        lemma_all_fit_concat(head, heads, size);
        assert(all_fit(tail, size));
        lemma_all_fit_concat(head + heads, tail, size);
    } else {
        let heads = sequential_heads(s, 0, s.n_q_heads as nat);
        let tail = seq![
            trace(Stage::AttnConcat, Buf::Concat, s.q_dim()),
            gqa_out(s, t),
            trace(Stage::OProj, Buf::AttnOut, s.embedding_dim as int),
        ];
        lemma_sequential_heads_fit(s, s.n_q_heads as nat);
        lemma_all_fit_concat(head, heads, size);
        assert(all_fit(tail, size));
        lemma_all_fit_concat(head + heads, tail, size);
    }
}

/// The stretches that head `h` writes in the parallel form.
pub open spec fn head_writes(s: GqaShape, h: int) -> (Span, Span) {
    (
        span(Buf::Score, h * s.score_stride(), s.tokens()),
        span(Buf::Concat, h * s.head_dim, s.head_dim as int),
    )
}

/// Heads that run beside each other never write the same element, and none
/// writes what another reads: they read queries and caches and write scores
/// and sums.
pub proof fn lemma_parallel_heads_apart(
    s: GqaShape,
    min_tokens: usize,
    n_cores: usize,
    g: int,
    h: int,
)
    requires
        s.wf(),
        fans_out(s, min_tokens, n_cores),
        0 <= g < s.n_q_heads,
        0 <= h < s.n_q_heads,
        g != h,
    ensures
        head_writes(s, g).0.apart(head_writes(s, h).0),
        head_writes(s, g).1.apart(head_writes(s, h).1),
        parallel_head(s, h)[0] matches Op::Scores { q, k, out } && q.buf == Buf::QOut && k.buf
            == Buf::KCache && out == head_writes(s, h).0,
        parallel_head(s, h)[1] == (Op::Softmax { at: head_writes(s, h).0 }),
        parallel_head(s, h)[2] == (Op::Zero { at: head_writes(s, h).1 }),
        parallel_head(s, h)[3] matches Op::WeightedSum { weights, v, out } && weights
            == head_writes(s, h).0 && v.buf == Buf::VCache && out == head_writes(s, h).1,
{
    let (lo, hi) = if g < h {
        (g, h)
    } else {
        (h, g)
    };
    let st = s.score_stride();
    let d = s.head_dim as int;
    lemma_score_place(s, g);
    lemma_score_place(s, h);
    lemma_head_fits(g, s.n_q_heads as int, d);
    lemma_head_fits(h, s.n_q_heads as int, d);
    lemma_head_fits(lo, hi, st);
    lemma_head_fits(lo, hi, d);
}

} // verus!
