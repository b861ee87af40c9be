//! Forward passes of one token: feed-forward blocks, layers, and the two model
//! families, as programs.

use crate::arch::x86_64::math::linear;
use crate::arch::x86_64::math::linear::{linear_q4k_avx512, linear_q6k_avx512, Layout, RowTerms};
use crate::inference_avx512::argmax::RowRange;
use crate::inference_avx512::fused_quant_supported;
use crate::inference_avx512::mla;
use crate::inference_avx512::mla::{lemma_mla_fits, mla_attention_avx512, MlaShape};
use crate::inference_avx512::plan;
use crate::inference_avx512::plan::{
    gqa_attention_single_token_avx512, lemma_all_fit_concat, lemma_gqa_fits, mk, AttnQuants, Buf,
    GqaShape, Mat, Op, Projection, Span, Stage, Strided,
};
use crate::inference_avx512::GgmlType;
use crate::text;
use crate::text::{push_dec, push_hex_padded};
use vstd::prelude::*;

verus! {

/// Tensor types of the three feed-forward projections.
#[derive(Clone, Copy, Debug, PartialEq, Eq, Structural)]
pub struct FfnQuants {
    pub gate: GgmlType,
    pub up: GgmlType,
    pub down: GgmlType,
}

pub open spec fn proj(w: Mat, from: Buf, n: usize, to: Buf, m: usize, quant: GgmlType) -> Projection {
    Projection { w, x: plan::span(from, 0, n as int), out: plan::span(to, 0, m as int), quant }
}

/// A projection of the first `n` elements of one buffer to the first `m` of another.
fn mk_proj(w: Mat, from: Buf, n: usize, to: Buf, m: usize, quant: GgmlType) -> (p: Projection)
    ensures
        p == proj(w, from, n, to, m, quant),
{
    Projection { w, x: mk(from, 0, n), out: mk(to, 0, m), quant }
}

pub open spec fn silu_mul(n: usize) -> Op {
    Op::SiluMul {
        gate: plan::span(Buf::Gate, 0, n as int),
        up: plan::span(Buf::Up, 0, n as int),
        out: plan::span(Buf::HiddenMlp, 0, n as int),
    }
}

fn mk_silu_mul(n: usize) -> (op: Op)
    ensures
        op == silu_mul(n),
{
    Op::SiluMul { gate: mk(Buf::Gate, 0, n), up: mk(Buf::Up, 0, n), out: mk(Buf::HiddenMlp, 0, n) }
}

/// The dense feed-forward block: gate and up in one dispatch where fusing is on
/// and both types have a kernel.
pub open spec fn mlp_program(e: usize, m: usize, t: FfnQuants, fused: bool) -> Seq<Op> {
    let gate = proj(Mat::FfnGate, Buf::Norm, e, Buf::Gate, m, t.gate);
    let up = proj(Mat::FfnUp, Buf::Norm, e, Buf::Up, m, t.up);
    let down = proj(Mat::FfnDown, Buf::HiddenMlp, m, Buf::MlpOut, e, t.down);
    if fused && t.gate.has_kernel() && t.up.has_kernel() {
        seq![Op::Fused2(gate, up), silu_mul(m), Op::Linear(down)]
    } else {
        seq![Op::Linear(gate), Op::Linear(up), silu_mul(m), Op::Linear(down)]
    }
}

pub fn mlp_swiglu_avx512(
    embedding_dim: usize,
    intermediate_dim: usize,
    t: &FfnQuants,
    fused: bool,
) -> (ops: Vec<Op>)
    ensures
        ops@ == mlp_program(embedding_dim, intermediate_dim, *t, fused),
{
    let e: usize = embedding_dim;
    let m: usize = intermediate_dim;
    let gate = mk_proj(Mat::FfnGate, Buf::Norm, e, Buf::Gate, m, t.gate);
    let up = mk_proj(Mat::FfnUp, Buf::Norm, e, Buf::Up, m, t.up);
    let mut ops: Vec<Op> = Vec::new();
    if fused && fused_quant_supported(t.gate) && fused_quant_supported(t.up) {
        ops.push(Op::Fused2(gate, up));
    } else {
        ops.push(Op::Linear(gate));
        ops.push(Op::Linear(up));
    }
    ops.push(mk_silu_mul(m));
    ops.push(Op::Linear(mk_proj(Mat::FfnDown, Buf::HiddenMlp, m, Buf::MlpOut, e, t.down)));
    assert(ops@ =~= mlp_program(e, m, *t, fused));
    ops
}

/// One expert: gate, up, activation, and down into `to`.
pub open spec fn expert_program(
    gate: Mat,
    up: Mat,
    down: Mat,
    e: usize,
    m: usize,
    to: Buf,
    quant: GgmlType,
) -> Seq<Op> {
    seq![
        Op::Linear(proj(gate, Buf::Norm, e, Buf::Gate, m, quant)),
        Op::Linear(proj(up, Buf::Norm, e, Buf::Up, m, quant)),
        silu_mul(m),
        Op::Linear(proj(down, Buf::HiddenMlp, m, to, e, quant)),
    ]
}

pub fn expert_swiglu_avx512(
    ops: &mut Vec<Op>,
    gate: Mat,
    up: Mat,
    down: Mat,
    embedding_dim: usize,
    expert_intermediate: usize,
    to: Buf,
    quant: GgmlType,
)
    ensures
        final(ops)@ == old(ops)@ + expert_program(
            gate,
            up,
            down,
            embedding_dim,
            expert_intermediate,
            to,
            quant,
        ),
{
    let e: usize = embedding_dim;
    let m: usize = expert_intermediate;
    ops.push(Op::Linear(mk_proj(gate, Buf::Norm, e, Buf::Gate, m, quant)));
    ops.push(Op::Linear(mk_proj(up, Buf::Norm, e, Buf::Up, m, quant)));
    ops.push(mk_silu_mul(m));
    ops.push(Op::Linear(mk_proj(down, Buf::HiddenMlp, m, to, e, quant)));
    assert(ops@ =~= old(ops)@ + expert_program(gate, up, down, e, m, to, quant));
}

/// A mixture-of-experts block.
#[derive(Clone, Copy, Debug, PartialEq, Eq, Structural)]
pub struct MoeShape {
    pub n_experts: usize,
    pub top_k: usize,
    pub embedding_dim: usize,
    pub expert_intermediate: usize,
    pub quant: GgmlType,
    /// Bytes of a gate or up matrix of one expert, where its type has a size.
    pub gate_bytes: Option<usize>,
    /// The same at Q4_K.
    pub gate_q4k_bytes: usize,
    /// Bytes of the down matrix of one expert, where its type has a size.
    pub down_bytes: Option<usize>,
    /// The same at Q4_K.
    pub down_q4k_bytes: usize,
}

impl MoeShape {
    /// Bytes of one gate or up matrix.
    pub open spec fn gate_size(self) -> int {
        match self.gate_bytes {
            Some(n) => n as int,
            None => self.gate_q4k_bytes as int,
        }
    }

    /// Bytes of one down matrix.
    pub open spec fn down_size(self) -> int {
        match self.down_bytes {
            Some(n) => n as int,
            None => self.down_q4k_bytes as int,
        }
    }

    /// Some experts are picked, no more than there are, and all of them fit
    /// the machine's memory.
    pub open spec fn wf(self) -> bool {
        &&& 0 < self.top_k <= self.n_experts
        &&& self.n_experts * self.gate_size() <= usize::MAX
        &&& self.n_experts * self.down_size() <= usize::MAX
    }
}

/// The picked expert in place `k`, added with its weight.
pub open spec fn picked_expert(s: MoeShape, k: int, idx: int) -> Seq<Op> {
    let g = s.gate_size();
    let d = s.down_size();
    expert_program(
        Mat::ExpertGate { start: (idx * g) as usize, len: g as usize },
        Mat::ExpertUp { start: (idx * g) as usize, len: g as usize },
        Mat::ExpertDown { start: (idx * d) as usize, len: d as usize },
        s.embedding_dim,
        s.expert_intermediate,
        Buf::ExpertOut,
        s.quant,
    ).push(
        Op::WeightedSum {
            weights: plan::span(Buf::ExpertWeights, k, 1),
            v: Strided {
                buf: Buf::ExpertOut,
                start: 0,
                stride: 0,
                count: 1,
                len: s.embedding_dim,
            },
            out: plan::span(Buf::MlpOut, 0, s.embedding_dim as int),
        },
    )
}

pub open spec fn picked_experts(s: MoeShape, indices: Seq<u32>, n: nat) -> Seq<Op>
    decreases n,
{
    if n == 0 {
        Seq::empty()
    } else {
        picked_experts(s, indices, (n - 1) as nat) + picked_expert(
            s,
            n - 1,
            indices[n - 1] as int,
        )
    }
}

/// The shared expert first, straight into the output; then the picked experts.
pub open spec fn moe_program(s: MoeShape, indices: Seq<u32>) -> Seq<Op> {
    expert_program(
        Mat::SharedGate,
        Mat::SharedUp,
        Mat::SharedDown,
        s.embedding_dim,
        s.expert_intermediate,
        Buf::MlpOut,
        s.quant,
    ) + picked_experts(s, indices, s.top_k as nat)
}

/// The operations of a mixture-of-experts block, once routing has picked the
/// experts `indices`, with weights in their buffer.
pub fn moe_ffn_avx512(s: &MoeShape, indices: &[u32]) -> (ops: Vec<Op>)
    requires
        s.wf(),
        s.top_k <= indices@.len(),
        forall|k: int| 0 <= k < s.top_k ==> (#[trigger] indices@[k]) < s.n_experts,
    ensures
        ops@ == moe_program(*s, indices@),
{
    let g: usize = match s.gate_bytes {
        Some(n) => n,
        None => s.gate_q4k_bytes,
    };
    let d: usize = match s.down_bytes {
        Some(n) => n,
        None => s.down_q4k_bytes,
    };
    let mut ops: Vec<Op> = Vec::new();
    expert_swiglu_avx512(
        &mut ops,
        Mat::SharedGate,
        Mat::SharedUp,
        Mat::SharedDown,
        s.embedding_dim,
        s.expert_intermediate,
        Buf::MlpOut,
        s.quant,
    );
    let ghost shared = ops@;
    let mut k: usize = 0;
    assert(ops@ =~= shared + picked_experts(*s, indices@, 0));
    while k < s.top_k
        invariant
            k <= s.top_k <= indices@.len(),
            s.wf(),
            g == s.gate_size(),
            d == s.down_size(),
            forall|k: int| 0 <= k < s.top_k ==> (#[trigger] indices@[k]) < s.n_experts,
            ops@ == shared + picked_experts(*s, indices@, k as nat),
        decreases s.top_k - k,
    {
        let idx: usize = indices[k] as usize;
        proof {
            plan::lemma_head_fits(idx as int, s.n_experts as int, g as int);
            plan::lemma_head_fits(idx as int, s.n_experts as int, d as int);
        }
        let ghost before = ops@;
        expert_swiglu_avx512(
            &mut ops,
            Mat::ExpertGate { start: idx * g, len: g },
            Mat::ExpertUp { start: idx * g, len: g },
            Mat::ExpertDown { start: idx * d, len: d },
            s.embedding_dim,
            s.expert_intermediate,
            Buf::ExpertOut,
            s.quant,
        );
        ops.push(
            Op::WeightedSum {
                weights: mk(Buf::ExpertWeights, k, 1),
                v: Strided {
                    buf: Buf::ExpertOut,
                    start: 0,
                    stride: 0,
                    count: 1,
                    len: s.embedding_dim,
                },
                out: mk(Buf::MlpOut, 0, s.embedding_dim),
            },
        );
        assert(ops@ =~= before + picked_expert(*s, k as int, idx as int));
        k = k + 1;
        assert(ops@ =~= shared + picked_experts(*s, indices@, k as nat));
    }
    assert(shared =~= expert_program(
        Mat::SharedGate,
        Mat::SharedUp,
        Mat::SharedDown,
        s.embedding_dim,
        s.expert_intermediate,
        Buf::MlpOut,
        s.quant,
    ));
    ops
}

/// The matrices of different experts share no byte, and each ends within the
/// bytes of all experts.
pub proof fn lemma_experts_apart(s: MoeShape, i: int, j: int)
    requires
        s.wf(),
        0 <= i < j < s.n_experts,
    ensures
        0 <= i * s.gate_size(),
        i * s.gate_size() + s.gate_size() <= j * s.gate_size(),
        j * s.gate_size() + s.gate_size() <= s.n_experts * s.gate_size(),
        0 <= i * s.down_size(),
        i * s.down_size() + s.down_size() <= j * s.down_size(),
        j * s.down_size() + s.down_size() <= s.n_experts * s.down_size(),
{
    plan::lemma_head_fits(i, j, s.gate_size());
    plan::lemma_head_fits(j, s.n_experts as int, s.gate_size());
    plan::lemma_head_fits(i, j, s.down_size());
    plan::lemma_head_fits(j, s.n_experts as int, s.down_size());
}

/// Normalisation in front of a block.
#[derive(Clone, Copy, Debug, PartialEq, Eq, Structural)]
pub enum BlockNorm {
    Attn,
    Ffn,
}

/// Plain multi-head attention of one layer, with the stretches it works in.
#[derive(Clone, Copy, Debug, PartialEq, Eq, Structural)]
pub struct MhaStep {
    pub layer: usize,
    /// The layer's place in its cache.
    pub cache_layer: usize,
    pub q: Span,
    pub k: Span,
    pub v: Span,
    pub quant: GgmlType,
}

/// Why a pass stopped.
#[derive(Clone, Copy, Debug, PartialEq, Eq, Structural)]
pub enum MlaError {
    NumericalInstability,
    /// The cache refused a position.
    Cache,
}

#[derive(Clone, Copy, Debug, PartialEq, Eq, Structural)]
pub enum Deepseek2ForwardError {
    Mla(MlaError),
}

impl From<MlaError> for Deepseek2ForwardError {
    fn from(e: MlaError) -> (r: Deepseek2ForwardError) {
        Deepseek2ForwardError::Mla(e)
    }
}

impl vstd::std_specs::convert::FromSpecImpl<MlaError> for Deepseek2ForwardError {
    open spec fn obeys_from_spec() -> bool {
        true
    }

    open spec fn from_spec(e: MlaError) -> Deepseek2ForwardError {
        Deepseek2ForwardError::Mla(e)
    }
}

/// One step of a pass.
#[derive(Clone, Copy, Debug, PartialEq, Eq, Structural)]
pub enum Step {
    /// Looks the token up into the hidden state. A failed lookup ends the pass
    /// only where `fatal`.
    Embed { fatal: bool },
    /// Fills the rotation table of the position.
    RopeTable { half: usize },
    /// Normalises the whole hidden state into the whole norm buffer.
    Norm { layer: usize, w: BlockNorm },
    /// An operation with the layer's weights.
    Run { layer: usize, op: Op },
    Mha(MhaStep),
    /// Looks for a value that is not finite in the whole buffer.
    Diag { layer: usize, stage: Stage, buf: Buf },
    /// Adds the stretch to the hidden state.
    Residual { from: Span },
    /// Clears the whole buffer.
    Clear { buf: Buf },
    /// Routes, then runs the block for the experts that routing picked.
    Moe { layer: usize, shape: MoeShape },
    Fail(Deepseek2ForwardError),
}

/// The operations as steps of a layer.
pub open spec fn steps_of(layer: usize, ops: Seq<Op>) -> Seq<Step> {
    Seq::new(ops.len(), |i: int| Step::Run { layer, op: ops[i] })
}

fn push_ops(steps: &mut Vec<Step>, layer: usize, ops: &Vec<Op>)
    ensures
        final(steps)@ == old(steps)@ + steps_of(layer, ops@),
{
    let ghost all = steps_of(layer, ops@);
    let mut i: usize = 0;
    assert(steps@ =~= old(steps)@ + all.take(0));
    while i < ops.len()
        invariant
            i <= ops@.len(),
            all == steps_of(layer, ops@),
            steps@ == old(steps)@ + all.take(i as int),
        decreases ops@.len() - i,
    {
        steps.push(Step::Run { layer, op: ops[i] });
        i = i + 1;
        assert(steps@ =~= old(steps)@ + all.take(i as int));
    }
    assert(all.take(i as int) =~= all);
}

/// The dimensions of a dense model.
#[derive(Clone, Copy, Debug, PartialEq, Eq, Structural)]
pub struct DenseModel {
    pub n_q_heads: usize,
    pub n_kv_heads: usize,
    pub head_dim: usize,
    pub embedding_dim: usize,
    pub intermediate_dim: usize,
    /// Elements of the score buffer.
    pub score_len: usize,
    /// Half a rotated head.
    pub half: usize,
}

/// Tensor types of one layer.
#[derive(Clone, Copy, Debug, PartialEq, Eq, Structural)]
pub struct LayerQuants {
    pub attn: AttnQuants,
    pub ffn: FfnQuants,
}

/// How dispatches are spread.
#[derive(Clone, Copy, Debug, PartialEq, Eq, Structural)]
pub struct Fanout {
    pub fused: bool,
    pub min_tokens: usize,
    pub n_cores: usize,
}

impl DenseModel {
    pub open spec fn attn(self, layer: int, token_offset: usize) -> GqaShape {
        GqaShape {
            n_q_heads: self.n_q_heads,
            n_kv_heads: self.n_kv_heads,
            head_dim: self.head_dim,
            embedding_dim: self.embedding_dim,
            layer: layer as usize,
            token_offset,
            score_len: self.score_len,
        }
    }

    /// The rotation table holds a head, and attention at the position is well formed
    /// where there is a layer.
    pub open spec fn wf(self, token_offset: usize, layers: Seq<LayerQuants>) -> bool {
        self.half <= 64 && (layers.len() > 0 ==> self.attn(0, token_offset).wf())
    }
}

pub open spec fn run_trace(layer: usize, stage: Stage, buf: Buf, len: usize) -> Step {
    Step::Run { layer, op: plan::trace(stage, buf, len as int) }
}

fn mk_trace(layer: usize, stage: Stage, buf: Buf, len: usize) -> (s: Step)
    ensures
        s == run_trace(layer, stage, buf, len),
{
    Step::Run { layer, op: Op::Trace { stage, at: mk(buf, 0, len) } }
}

pub open spec fn residual(buf: Buf, len: usize) -> Step {
    Step::Residual { from: plan::span(buf, 0, len as int) }
}

/// One layer of a dense model.
pub open spec fn dense_layer(
    m: DenseModel,
    token_offset: usize,
    layer: usize,
    t: LayerQuants,
    f: Fanout,
) -> Seq<Step> {
    let e = m.embedding_dim;
    let n = m.intermediate_dim;
    seq![
        Step::Norm { layer, w: BlockNorm::Attn },
        Step::Diag { layer, stage: Stage::AttnNormIn, buf: Buf::Norm },
        run_trace(layer, Stage::AttnNorm, Buf::Norm, e),
    ] + steps_of(
        layer,
        plan::gqa_program(
            m.attn(layer as int, token_offset),
            t.attn,
            f.fused,
            f.min_tokens,
            f.n_cores,
        ),
    ) + seq![
        residual(Buf::AttnOut, e),
        Step::Diag { layer, stage: Stage::AttnOut, buf: Buf::AttnOut },
        Step::Diag { layer, stage: Stage::PostAttnResidual, buf: Buf::Hidden },
        run_trace(layer, Stage::PostAttn, Buf::Hidden, e),
        Step::Norm { layer, w: BlockNorm::Ffn },
        run_trace(layer, Stage::FfnNorm, Buf::Norm, e),
    ] + steps_of(layer, mlp_program(e, n, t.ffn, f.fused)) + seq![
        run_trace(layer, Stage::MlpGate, Buf::Gate, n),
        run_trace(layer, Stage::MlpUp, Buf::Up, n),
        run_trace(layer, Stage::MlpSiluUp, Buf::HiddenMlp, n),
        run_trace(layer, Stage::MlpOut, Buf::MlpOut, e),
        residual(Buf::MlpOut, e),
        Step::Diag { layer, stage: Stage::MlpOut, buf: Buf::MlpOut },
        Step::Diag { layer, stage: Stage::PostMlpResidual, buf: Buf::Hidden },
        run_trace(layer, Stage::PostMlp, Buf::Hidden, e),
    ]
}

/// The first `n` layers.
pub open spec fn dense_layers(
    m: DenseModel,
    token_offset: usize,
    layers: Seq<LayerQuants>,
    f: Fanout,
    n: nat,
) -> Seq<Step>
    decreases n,
{
    if n == 0 {
        Seq::empty()
    } else {
        dense_layers(m, token_offset, layers, f, (n - 1) as nat) + dense_layer(
            m,
            token_offset,
            (n - 1) as usize,
            layers[n - 1],
            f,
        )
    }
}

pub open spec fn dense_program(
    m: DenseModel,
    token_offset: usize,
    layers: Seq<LayerQuants>,
    f: Fanout,
) -> Seq<Step> {
    seq![
        Step::Embed { fatal: true },
        run_trace(0, Stage::Embed, Buf::Hidden, m.embedding_dim),
        Step::RopeTable { half: m.half },
    ] + dense_layers(m, token_offset, layers, f, layers.len())
}

fn push_dense_layer(
    steps: &mut Vec<Step>,
    m: &DenseModel,
    token_offset: usize,
    layer: usize,
    t: &LayerQuants,
    f: &Fanout,
)
    requires
        m.attn(0, token_offset).wf(),
    ensures
        final(steps)@ == old(steps)@ + dense_layer(*m, token_offset, layer, *t, *f),
{
    let e: usize = m.embedding_dim;
    let n: usize = m.intermediate_dim;
    let shape = GqaShape {
        n_q_heads: m.n_q_heads,
        n_kv_heads: m.n_kv_heads,
        head_dim: m.head_dim,
        embedding_dim: e,
        layer,
        token_offset,
        score_len: m.score_len,
    };
    assert(shape == m.attn(layer as int, token_offset));
    steps.push(Step::Norm { layer, w: BlockNorm::Attn });
    steps.push(Step::Diag { layer, stage: Stage::AttnNormIn, buf: Buf::Norm });
    steps.push(mk_trace(layer, Stage::AttnNorm, Buf::Norm, e));
    let ghost a = steps@;
    let attn: Vec<Op> = gqa_attention_single_token_avx512(
        &shape,
        &t.attn,
        f.fused,
        f.min_tokens,
        f.n_cores,
    );
    push_ops(steps, layer, &attn);
    let ghost b = steps@;
    steps.push(Step::Residual { from: mk(Buf::AttnOut, 0, e) });
    steps.push(Step::Diag { layer, stage: Stage::AttnOut, buf: Buf::AttnOut });
    steps.push(Step::Diag { layer, stage: Stage::PostAttnResidual, buf: Buf::Hidden });
    steps.push(mk_trace(layer, Stage::PostAttn, Buf::Hidden, e));
    steps.push(Step::Norm { layer, w: BlockNorm::Ffn });
    steps.push(mk_trace(layer, Stage::FfnNorm, Buf::Norm, e));
    let ghost c = steps@;
    let ffn: Vec<Op> = mlp_swiglu_avx512(e, n, &t.ffn, f.fused);
    push_ops(steps, layer, &ffn);
    let ghost d = steps@;
    steps.push(mk_trace(layer, Stage::MlpGate, Buf::Gate, n));
    steps.push(mk_trace(layer, Stage::MlpUp, Buf::Up, n));
    steps.push(mk_trace(layer, Stage::MlpSiluUp, Buf::HiddenMlp, n));
    steps.push(mk_trace(layer, Stage::MlpOut, Buf::MlpOut, e));
    steps.push(Step::Residual { from: mk(Buf::MlpOut, 0, e) });
    steps.push(Step::Diag { layer, stage: Stage::MlpOut, buf: Buf::MlpOut });
    steps.push(Step::Diag { layer, stage: Stage::PostMlpResidual, buf: Buf::Hidden });
    steps.push(mk_trace(layer, Stage::PostMlp, Buf::Hidden, e));
    proof {
        let s1 = seq![
            Step::Norm { layer, w: BlockNorm::Attn },
            Step::Diag { layer, stage: Stage::AttnNormIn, buf: Buf::Norm },
            run_trace(layer, Stage::AttnNorm, Buf::Norm, e),
        ];
        let s2 = steps_of(layer, attn@);
        let s3 = seq![
            residual(Buf::AttnOut, e),
            Step::Diag { layer, stage: Stage::AttnOut, buf: Buf::AttnOut },
            Step::Diag { layer, stage: Stage::PostAttnResidual, buf: Buf::Hidden },
            run_trace(layer, Stage::PostAttn, Buf::Hidden, e),
            Step::Norm { layer, w: BlockNorm::Ffn },
            run_trace(layer, Stage::FfnNorm, Buf::Norm, e),
        ];
        let s4 = steps_of(layer, ffn@);
        let s5 = seq![
            run_trace(layer, Stage::MlpGate, Buf::Gate, n),
            run_trace(layer, Stage::MlpUp, Buf::Up, n),
            run_trace(layer, Stage::MlpSiluUp, Buf::HiddenMlp, n),
            run_trace(layer, Stage::MlpOut, Buf::MlpOut, e),
            residual(Buf::MlpOut, e),
            Step::Diag { layer, stage: Stage::MlpOut, buf: Buf::MlpOut },
            Step::Diag { layer, stage: Stage::PostMlpResidual, buf: Buf::Hidden },
            run_trace(layer, Stage::PostMlp, Buf::Hidden, e),
        ];
        assert(a =~= old(steps)@ + s1);
        assert(c =~= b + s3);
        assert(steps@ =~= d + s5);
        assert(steps@ =~= old(steps)@ + (s1 + s2 + s3 + s4 + s5));
    }
}

/// The steps of one token through a dense model.
pub fn forward_single_token_avx512(
    m: &DenseModel,
    token_offset: usize,
    layers: &Vec<LayerQuants>,
    f: &Fanout,
) -> (steps: Vec<Step>)
    requires
        m.wf(token_offset, layers@),
    ensures
        steps@ == dense_program(*m, token_offset, layers@, *f),
{
    let mut steps: Vec<Step> = Vec::new();
    steps.push(Step::Embed { fatal: true });
    steps.push(mk_trace(0, Stage::Embed, Buf::Hidden, m.embedding_dim));
    steps.push(Step::RopeTable { half: m.half });
    let ghost head = steps@;
    let mut i: usize = 0;
    assert(steps@ =~= head + dense_layers(*m, token_offset, layers@, *f, 0));
    while i < layers.len()
        invariant
            i <= layers@.len(),
            m.wf(token_offset, layers@),
            steps@ == head + dense_layers(*m, token_offset, layers@, *f, i as nat),
        decreases layers@.len() - i,
    {
        push_dense_layer(&mut steps, m, token_offset, i, &layers[i], f);
        i = i + 1;
        assert(steps@ =~= head + dense_layers(*m, token_offset, layers@, *f, i as nat));
    }
    assert(head =~= seq![
        Step::Embed { fatal: true },
        run_trace(0, Stage::Embed, Buf::Hidden, m.embedding_dim),
        Step::RopeTable { half: m.half },
    ]);
    steps
}

/// Whether a pass of the model over `layers` can be planned.
pub fn dense_pass_fits(m: &DenseModel, token_offset: usize, layers: &Vec<LayerQuants>) -> (r: bool)
    ensures
        r == m.wf(token_offset, layers@),
{
    if m.half > 64 {
        return false;
    }
    if layers.len() == 0 {
        return true;
    }
    if m.n_kv_heads == 0 || m.n_q_heads % m.n_kv_heads != 0 || token_offset == usize::MAX {
        return false;
    }
    if m.n_q_heads > 0 && token_offset + 1 > m.score_len {
        return false;
    }
    match m.n_kv_heads.checked_mul(m.head_dim) {
        Some(kv) => product_fits(m.n_q_heads, m.head_dim) && product_fits(token_offset + 1, kv),
        None => false,
    }
}

/// The line for an attention failure of a dense model.
pub fn attention_failed(layer: usize, token_offset: usize, error: &str) -> (line: String)
    ensures
        line@ == "[MP3.0] Attention failed at layer "@ + text::dec(layer as nat)
            + " (token_offset="@ + text::dec(token_offset as nat) + "): "@ + error@,
{
    let mut line = "[MP3.0] Attention failed at layer ".to_owned();
    push_dec(&mut line, layer as u64);
    line.append(" (token_offset=");
    push_dec(&mut line, token_offset as u64);
    line.append("): ");
    line.append(error);
    line
}

#[derive(Clone, Copy, Debug, PartialEq, Eq, Structural)]
pub enum AttnType {
    Mla,
    Mha,
}

#[derive(Clone, Copy, Debug, PartialEq, Eq, Structural)]
pub enum MlpType {
    Dense,
    MoE,
}

/// The dimensions of a latent-attention model.
#[derive(Clone, Copy, Debug, PartialEq, Eq, Structural)]
pub struct LatentModel {
    pub n_heads: usize,
    pub n_kv_heads: usize,
    pub kv_lora_rank: usize,
    pub qk_nope_head_dim: usize,
    pub qk_rope_head_dim: usize,
    pub v_head_dim: usize,
    pub q_lora_rank: usize,
    pub embedding_dim: usize,
    pub intermediate_dim: usize,
    /// Elements of the score buffer.
    pub score_len: usize,
    pub n_experts: usize,
    /// Experts that a token goes through.
    pub top_k: usize,
    pub expert_intermediate: usize,
}

/// What is particular to one layer.
#[derive(Clone, Copy, Debug, PartialEq, Eq, Structural)]
pub struct LatentLayer {
    pub attn: AttnType,
    pub mlp: MlpType,
    /// The layer's place in the cache of plain attention.
    pub mha_layer_idx: u16,
    pub attn_quant: GgmlType,
    pub dense_quant: GgmlType,
    pub expert_quant: GgmlType,
    /// Bytes of a gate or up matrix of one expert, where its type has a size.
    pub gate_bytes: Option<usize>,
    /// The same at Q4_K.
    pub gate_q4k_bytes: usize,
    /// Bytes of the down matrix of one expert, where its type has a size.
    pub down_bytes: Option<usize>,
    /// The same at Q4_K.
    pub down_q4k_bytes: usize,
    /// Bytes of the separate key decompression matrix.
    pub k_b_len: usize,
    /// Bytes of the separate value decompression matrix.
    pub v_b_len: usize,
    /// Elements of the key normalisation weight.
    pub k_norm_len: usize,
}

impl LatentModel {
    pub open spec fn mla(self, layer: int, token_offset: usize, l: LatentLayer) -> MlaShape {
        MlaShape {
            n_heads: self.n_heads,
            kv_lora_rank: self.kv_lora_rank,
            qk_nope_head_dim: self.qk_nope_head_dim,
            qk_rope_head_dim: self.qk_rope_head_dim,
            v_head_dim: self.v_head_dim,
            q_lora_rank: self.q_lora_rank,
            embedding_dim: self.embedding_dim,
            layer: layer as usize,
            token_offset,
            score_len: self.score_len,
            split_kv_b: l.k_b_len > 0 && l.v_b_len > 0,
            k_norm: l.k_norm_len == self.qk_rope_head_dim,
            quant: l.attn_quant,
        }
    }

    pub open spec fn head_dim(self) -> int {
        self.qk_nope_head_dim + self.qk_rope_head_dim
    }

    /// The experts of a layer: their number is the model's, their type and sizes are
    /// the layer's.
    pub open spec fn moe(self, l: LatentLayer) -> MoeShape {
        MoeShape {
            n_experts: self.n_experts,
            top_k: self.top_k,
            embedding_dim: self.embedding_dim,
            expert_intermediate: self.expert_intermediate,
            quant: l.expert_quant,
            gate_bytes: l.gate_bytes,
            gate_q4k_bytes: l.gate_q4k_bytes,
            down_bytes: l.down_bytes,
            down_q4k_bytes: l.down_q4k_bytes,
        }
    }

    /// The sizes of plain attention are machine sizes.
    pub open spec fn mha_wf(self) -> bool {
        &&& self.head_dim() <= usize::MAX
        &&& self.n_heads * self.head_dim() <= usize::MAX
        &&& self.n_kv_heads * self.head_dim() + self.n_kv_heads * self.v_head_dim <= usize::MAX
    }

    /// What layer `l` uses is well formed: latent or plain attention, and experts
    /// where it has them.
    pub open spec fn layer_wf(self, token_offset: usize, l: LatentLayer) -> bool {
        &&& l.attn is Mla ==> self.mla(0, token_offset, l).wf()
        &&& l.attn is Mha ==> self.mha_wf()
        &&& l.mlp is MoE ==> self.moe(l).wf()
    }

    /// Every layer that the pass runs is well formed.
    pub open spec fn wf(
        self,
        token_offset: usize,
        layers: Seq<LatentLayer>,
        has_mha_cache: bool,
    ) -> bool {
        forall|i: int|
            0 <= i < layers.len() && !any_blocked(layers, has_mha_cache, i + 1) ==> self.layer_wf(
                token_offset,
                #[trigger] layers[i],
            )
    }
}

/// Plain attention: the queries where latent attention has them, keys and
/// values side by side.
pub open spec fn mha_step(m: LatentModel, layer: usize, l: LatentLayer) -> MhaStep {
    let k = m.n_kv_heads * m.head_dim();
    MhaStep {
        layer,
        cache_layer: l.mha_layer_idx as usize,
        q: plan::span(Buf::QDecompressed, 0, m.n_heads * m.head_dim()),
        k: plan::span(Buf::KvDecompressed, 0, k),
        v: plan::span(Buf::KvDecompressed, k, m.n_kv_heads * m.v_head_dim),
        quant: l.attn_quant,
    }
}

pub open spec fn latent_ffn(m: LatentModel, layer: usize, l: LatentLayer) -> Seq<Step> {
    match l.mlp {
        MlpType::Dense => steps_of(
            layer,
            mlp_program(
                m.embedding_dim,
                m.intermediate_dim,
                FfnQuants { gate: l.dense_quant, up: l.dense_quant, down: l.dense_quant },
                false,
            ),
        ),
        MlpType::MoE => seq![
            Step::Clear { buf: Buf::MlpOut },
            Step::Moe { layer, shape: m.moe(l) },
        ],
    }
}

/// A layer that cannot run: plain attention without its cache.
pub open spec fn blocked(l: LatentLayer, has_mha_cache: bool) -> bool {
    l.attn is Mha && !has_mha_cache
}

/// One layer. One that cannot run ends in the failure.
pub open spec fn latent_layer(
    m: LatentModel,
    token_offset: usize,
    layer: usize,
    l: LatentLayer,
    has_mha_cache: bool,
) -> Seq<Step> {
    let norm = seq![Step::Norm { layer, w: BlockNorm::Attn }];
    if blocked(l, has_mha_cache) {
        norm + seq![Step::Fail(Deepseek2ForwardError::Mla(MlaError::NumericalInstability))]
    } else {
        norm + (match l.attn {
            AttnType::Mla => steps_of(
                layer,
                mla::mla_program(m.mla(layer as int, token_offset, l)),
            ),
            AttnType::Mha => seq![Step::Mha(mha_step(m, layer, l))],
        }) + seq![
            residual(Buf::AttnOut, m.embedding_dim),
            Step::Norm { layer, w: BlockNorm::Ffn },
        ] + latent_ffn(m, layer, l) + seq![residual(Buf::MlpOut, m.embedding_dim)]
    }
}

/// Some of the first `n` layers cannot run.
pub open spec fn any_blocked(layers: Seq<LatentLayer>, has_mha_cache: bool, n: int) -> bool {
    exists|i: int| 0 <= i < n && blocked(#[trigger] layers[i], has_mha_cache)
}

/// The first `n` layers, up to the first that cannot run.
pub open spec fn latent_layers(
    m: LatentModel,
    token_offset: usize,
    layers: Seq<LatentLayer>,
    has_mha_cache: bool,
    n: nat,
) -> Seq<Step>
    decreases n,
{
    if n == 0 {
        Seq::empty()
    } else {
        let before = latent_layers(m, token_offset, layers, has_mha_cache, (n - 1) as nat);
        if any_blocked(layers, has_mha_cache, n - 1) {
            before
        } else {
            before + latent_layer(
                m,
                token_offset,
                (n - 1) as usize,
                layers[n - 1],
                has_mha_cache,
            )
        }
    }
}

pub open spec fn latent_program(
    m: LatentModel,
    token_offset: usize,
    layers: Seq<LatentLayer>,
    has_mha_cache: bool,
) -> Seq<Step> {
    seq![Step::Embed { fatal: false }] + latent_layers(
        m,
        token_offset,
        layers,
        has_mha_cache,
        layers.len(),
    )
}

fn push_latent_attn(
    steps: &mut Vec<Step>,
    m: &LatentModel,
    token_offset: usize,
    layer: usize,
    l: &LatentLayer,
)
    requires
        m.layer_wf(token_offset, *l),
    ensures
        final(steps)@ == old(steps)@ + (match l.attn {
            AttnType::Mla => steps_of(
                layer,
                mla::mla_program(m.mla(layer as int, token_offset, *l)),
            ),
            AttnType::Mha => seq![Step::Mha(mha_step(*m, layer, *l))],
        }),
{
    match l.attn {
        AttnType::Mla => {
            let shape = MlaShape {
                n_heads: m.n_heads,
                kv_lora_rank: m.kv_lora_rank,
                qk_nope_head_dim: m.qk_nope_head_dim,
                qk_rope_head_dim: m.qk_rope_head_dim,
                v_head_dim: m.v_head_dim,
                q_lora_rank: m.q_lora_rank,
                embedding_dim: m.embedding_dim,
                layer,
                token_offset,
                score_len: m.score_len,
                split_kv_b: l.k_b_len > 0 && l.v_b_len > 0,
                k_norm: l.k_norm_len == m.qk_rope_head_dim,
                quant: l.attn_quant,
            };
            let ops: Vec<Op> = mla_attention_avx512(&shape);
            push_ops(steps, layer, &ops);
        },
        AttnType::Mha => {
            assert(0 <= m.n_kv_heads * m.head_dim() && 0 <= m.n_kv_heads * m.v_head_dim && 0
                <= m.n_heads * m.head_dim()) by (nonlinear_arith)
                requires
                    m.head_dim() >= 0,
            ;
            let d: usize = m.qk_nope_head_dim + m.qk_rope_head_dim;
            let k: usize = m.n_kv_heads * d;
            steps.push(
                Step::Mha(
                    MhaStep {
                        layer,
                        cache_layer: l.mha_layer_idx as usize,
                        q: mk(Buf::QDecompressed, 0, m.n_heads * d),
                        k: mk(Buf::KvDecompressed, 0, k),
                        v: mk(Buf::KvDecompressed, k, m.n_kv_heads * m.v_head_dim),
                        quant: l.attn_quant,
                    },
                ),
            );
            assert(steps@ =~= old(steps)@ + seq![Step::Mha(mha_step(*m, layer, *l))]);
        },
    }
}

fn push_latent_ffn(steps: &mut Vec<Step>, m: &LatentModel, layer: usize, l: &LatentLayer)
    ensures
        final(steps)@ == old(steps)@ + latent_ffn(*m, layer, *l),
{
    match l.mlp {
        MlpType::Dense => {
            let ops: Vec<Op> = mlp_swiglu_avx512(
                m.embedding_dim,
                m.intermediate_dim,
                &FfnQuants { gate: l.dense_quant, up: l.dense_quant, down: l.dense_quant },
                false,
            );
            push_ops(steps, layer, &ops);
        },
        MlpType::MoE => {
            let shape = MoeShape {
                n_experts: m.n_experts,
                top_k: m.top_k,
                embedding_dim: m.embedding_dim,
                expert_intermediate: m.expert_intermediate,
                quant: l.expert_quant,
                gate_bytes: l.gate_bytes,
                gate_q4k_bytes: l.gate_q4k_bytes,
                down_bytes: l.down_bytes,
                down_q4k_bytes: l.down_q4k_bytes,
            };
            steps.push(Step::Clear { buf: Buf::MlpOut });
            steps.push(Step::Moe { layer, shape });
            assert(steps@ =~= old(steps)@ + latent_ffn(*m, layer, *l));
        },
    }
}

/// Adds one layer and says whether it can run.
fn push_latent_layer(
    steps: &mut Vec<Step>,
    m: &LatentModel,
    token_offset: usize,
    layer: usize,
    l: &LatentLayer,
    has_mha_cache: bool,
) -> (runs: bool)
    requires
        !blocked(*l, has_mha_cache) ==> m.layer_wf(token_offset, *l),
    ensures
        final(steps)@ == old(steps)@ + latent_layer(*m, token_offset, layer, *l, has_mha_cache),
        runs == !blocked(*l, has_mha_cache),
{
    steps.push(Step::Norm { layer, w: BlockNorm::Attn });
    let stops: bool = match l.attn {
        AttnType::Mla => false,
        AttnType::Mha => !has_mha_cache,
    };
    if stops {
        steps.push(
            Step::Fail(Deepseek2ForwardError::from(MlaError::NumericalInstability)),
        );
        assert(steps@ =~= old(steps)@ + latent_layer(
            *m,
            token_offset,
            layer,
            *l,
            has_mha_cache,
        ));
        return false;
    }
    let ghost a = steps@;
    push_latent_attn(steps, m, token_offset, layer, l);
    let ghost b = steps@;
    steps.push(Step::Residual { from: mk(Buf::AttnOut, 0, m.embedding_dim) });
    steps.push(Step::Norm { layer, w: BlockNorm::Ffn });
    let ghost c = steps@;
    push_latent_ffn(steps, m, layer, l);
    let ghost d = steps@;
    steps.push(Step::Residual { from: mk(Buf::MlpOut, 0, m.embedding_dim) });
    proof {
        let s0 = seq![Step::Norm { layer, w: BlockNorm::Attn }];
        let s1 = match l.attn {
            AttnType::Mla => steps_of(
                layer,
                mla::mla_program(m.mla(layer as int, token_offset, *l)),
            ),
            AttnType::Mha => seq![Step::Mha(mha_step(*m, layer, *l))],
        };
        let s2 = seq![
            residual(Buf::AttnOut, m.embedding_dim),
            Step::Norm { layer, w: BlockNorm::Ffn },
        ];
        let s3 = latent_ffn(*m, layer, *l);
        let s4 = seq![residual(Buf::MlpOut, m.embedding_dim)];
        assert(a =~= old(steps)@ + s0);
        assert(c =~= b + s2);
        assert(steps@ =~= d + s4);
        assert(steps@ =~= old(steps)@ + (s0 + s1 + s2 + s3 + s4));
    }
    true
}

proof fn lemma_blocked_step(layers: Seq<LatentLayer>, has_mha_cache: bool, i: int)
    requires
        0 <= i < layers.len(),
    ensures
        any_blocked(layers, has_mha_cache, i + 1) <==> any_blocked(layers, has_mha_cache, i)
            || blocked(layers[i], has_mha_cache),
{
    if any_blocked(layers, has_mha_cache, i) {
        let j = choose|j: int| 0 <= j < i && blocked(#[trigger] layers[j], has_mha_cache);
        assert(0 <= j < i + 1 && blocked(layers[j], has_mha_cache));
    }
}

/// With no layer blocked so far, the next one is well formed if it can run, and it
/// comes next.
proof fn lemma_layer_runs(
    m: LatentModel,
    token_offset: usize,
    layers: Seq<LatentLayer>,
    has_mha_cache: bool,
    i: int,
)
    requires
        m.wf(token_offset, layers, has_mha_cache),
        0 <= i < layers.len() <= usize::MAX,
        !any_blocked(layers, has_mha_cache, i),
    ensures
        any_blocked(layers, has_mha_cache, i + 1) == blocked(layers[i], has_mha_cache),
        !blocked(layers[i], has_mha_cache) ==> m.layer_wf(token_offset, layers[i]),
        latent_layers(m, token_offset, layers, has_mha_cache, (i + 1) as nat) == latent_layers(
            m,
            token_offset,
            layers,
            has_mha_cache,
            i as nat,
        ) + latent_layer(m, token_offset, i as usize, layers[i], has_mha_cache),
{
    lemma_blocked_step(layers, has_mha_cache, i);
}

/// Layers behind one that is blocked add nothing.
proof fn lemma_rest_is_left_out(
    m: LatentModel,
    token_offset: usize,
    layers: Seq<LatentLayer>,
    has_mha_cache: bool,
    i: nat,
    n: nat,
)
    requires
        i <= n <= layers.len(),
        i < n ==> any_blocked(layers, has_mha_cache, i as int),
    ensures
        latent_layers(m, token_offset, layers, has_mha_cache, n) == latent_layers(
            m,
            token_offset,
            layers,
            has_mha_cache,
            i,
        ),
    decreases n,
{
    if i < n {
        let k = (n - 1) as nat;
        let j = choose|j: int| 0 <= j < i && blocked(#[trigger] layers[j], has_mha_cache);
        assert(0 <= j < k && blocked(layers[j], has_mha_cache));
        lemma_rest_is_left_out(m, token_offset, layers, has_mha_cache, i, k);
    }
}

/// The steps of one token through a latent-attention model. A layer of plain
/// attention without its cache ends the pass.
#[verifier::spinoff_prover]
pub fn forward_single_token_deepseek2_avx512(
    m: &LatentModel,
    token_offset: usize,
    layers: &Vec<LatentLayer>,
    has_mha_cache: bool,
) -> (steps: Vec<Step>)
    requires
        m.wf(token_offset, layers@, has_mha_cache),
    ensures
        steps@ == latent_program(*m, token_offset, layers@, has_mha_cache),
{
    let mut steps: Vec<Step> = Vec::new();
    steps.push(Step::Embed { fatal: false });
    let ghost head = steps@;
    let mut i: usize = 0;
    let mut runs: bool = true;
    assert(head =~= seq![Step::Embed { fatal: false }]);
    assert(steps@ =~= head + latent_layers(*m, token_offset, layers@, has_mha_cache, 0));
    while i < layers.len() && runs
        invariant
            i <= layers@.len(),
            m.wf(token_offset, layers@, has_mha_cache),
            runs == !any_blocked(layers@, has_mha_cache, i as int),
            steps@ == head + latent_layers(*m, token_offset, layers@, has_mha_cache, i as nat),
        decreases layers@.len() - i,
    {
        let ghost before = latent_layers(*m, token_offset, layers@, has_mha_cache, i as nat);
        proof {
            lemma_layer_runs(*m, token_offset, layers@, has_mha_cache, i as int);
        }
        runs = push_latent_layer(&mut steps, m, token_offset, i, &layers[i], has_mha_cache);
        assert(steps@ =~= head + (before + latent_layer(
            *m,
            token_offset,
            i,
            layers@[i as int],
            has_mha_cache,
        )));
        i = i + 1;
    }
    proof {
        lemma_rest_is_left_out(*m, token_offset, layers@, has_mha_cache, i as nat, layers@.len());
    }
    steps
}

/// Whether the product of two sizes is a machine size.
fn product_fits(a: usize, b: usize) -> (r: bool)
    ensures
        r == (a * b <= usize::MAX),
{
    match a.checked_mul(b) {
        Some(_) => true,
        None => false,
    }
}

/// Whether latent attention has its sizes.
fn mla_sizes_fit(m: &LatentModel, token_offset: usize) -> (r: bool)
    ensures
        forall|l: LatentLayer| r == (#[trigger] m.mla(0, token_offset, l)).wf(),
{
    if m.n_heads == 0 || token_offset == usize::MAX {
        proof {
            assert(m.n_heads > 0 && token_offset == usize::MAX ==> m.n_heads * (token_offset + 1)
                > usize::MAX) by (nonlinear_arith)
                requires
                    m.n_heads >= 0,
            ;
        }
        return false;
    }
    let tokens: usize = token_offset + 1;
    let nope: usize = m.qk_nope_head_dim;
    let rope: usize = m.qk_rope_head_dim;
    if nope > usize::MAX - rope || m.kv_lora_rank > usize::MAX - rope {
        return false;
    }
    if nope > usize::MAX - m.v_head_dim {
        proof {
            let d = nope + m.v_head_dim;
            assert(m.n_heads * d >= d) by (nonlinear_arith)
                requires
                    m.n_heads > 0,
                    d >= 0,
            ;
        }
        return false;
    }
    let scores: bool = match m.n_heads.checked_mul(tokens) {
        Some(n) => n <= m.score_len,
        None => false,
    };
    scores && product_fits(m.n_heads, nope + rope) && product_fits(m.n_heads, nope + m.v_head_dim)
        && product_fits(tokens, m.kv_lora_rank) && product_fits(tokens, rope)
}

/// Whether plain attention has its sizes.
fn mha_sizes_fit(m: &LatentModel) -> (r: bool)
    ensures
        r == m.mha_wf(),
{
    if m.qk_nope_head_dim > usize::MAX - m.qk_rope_head_dim {
        return false;
    }
    let d: usize = m.qk_nope_head_dim + m.qk_rope_head_dim;
    assert(0 <= m.n_kv_heads * d && 0 <= m.n_kv_heads * m.v_head_dim) by (nonlinear_arith)
        requires
            d >= 0,
    ;
    if !product_fits(m.n_heads, d) || !product_fits(m.n_kv_heads, d) || !product_fits(
        m.n_kv_heads,
        m.v_head_dim,
    ) {
        return false;
    }
    m.n_kv_heads * d <= usize::MAX - m.n_kv_heads * m.v_head_dim
}

/// Whether the experts of a layer have their sizes.
fn moe_sizes_fit(m: &LatentModel, l: &LatentLayer) -> (r: bool)
    ensures
        r == m.moe(*l).wf(),
{
    let g: usize = match l.gate_bytes {
        Some(n) => n,
        None => l.gate_q4k_bytes,
    };
    let d: usize = match l.down_bytes {
        Some(n) => n,
        None => l.down_q4k_bytes,
    };
    0 < m.top_k && m.top_k <= m.n_experts && product_fits(m.n_experts, g) && product_fits(
        m.n_experts,
        d,
    )
}

/// Whether a pass of the model over `layers` can be planned.
pub fn latent_pass_fits(
    m: &LatentModel,
    token_offset: usize,
    layers: &Vec<LatentLayer>,
    has_mha_cache: bool,
) -> (r: bool)
    ensures
        r == m.wf(token_offset, layers@, has_mha_cache),
{
    let mut i: usize = 0;
    while i < layers.len()
        invariant
            i <= layers@.len(),
            !any_blocked(layers@, has_mha_cache, i as int),
            forall|j: int|
                0 <= j < i ==> m.layer_wf(token_offset, #[trigger] layers@[j]),
        decreases layers@.len() - i,
    {
        let l: &LatentLayer = &layers[i];
        proof {
            lemma_blocked_step(layers@, has_mha_cache, i as int);
        }
        let attn: bool = match l.attn {
            AttnType::Mla => mla_sizes_fit(m, token_offset),
            AttnType::Mha => {
                if !has_mha_cache {
                    assert(blocked(layers@[i as int], has_mha_cache));
                    assert forall|j: int|
                        i <= j < layers@.len() implies #[trigger] any_blocked(
                        layers@,
                        has_mha_cache,
                        j + 1,
                    ) by {
                        assert(0 <= i < j + 1 && blocked(layers@[i as int], has_mha_cache));
                    }
                    assert forall|j: int|
                        0 <= j < layers@.len() && !any_blocked(
                            layers@,
                            has_mha_cache,
                            j + 1,
                        ) implies m.layer_wf(token_offset, #[trigger] layers@[j]) by {
                        assert(j < i);
                    }
                    return true;
                }
                mha_sizes_fit(m)
            },
        };
        let mlp: bool = match l.mlp {
            MlpType::Dense => true,
            MlpType::MoE => moe_sizes_fit(m, l),
        };
        assert((attn && mlp) == m.layer_wf(token_offset, layers@[i as int])) by {
            if l.attn is Mla {
                assert(attn == m.mla(0, token_offset, *l).wf());
            }
        }
        if !attn || !mlp {
            assert(!any_blocked(layers@, has_mha_cache, i + 1));
            return false;
        }
        i = i + 1;
    }
    true
}

/// Without a layer that cannot run, the pass has no failing step; with one, it
/// ends in the failure.
pub proof fn lemma_fails_iff_blocked(
    m: LatentModel,
    token_offset: usize,
    layers: Seq<LatentLayer>,
    has_mha_cache: bool,
)
    ensures
        any_blocked(layers, has_mha_cache, layers.len() as int) ==> latent_program(
            m,
            token_offset,
            layers,
            has_mha_cache,
        ).last() is Fail,
        !any_blocked(layers, has_mha_cache, layers.len() as int) ==> forall|i: int|
            0 <= i < latent_program(m, token_offset, layers, has_mha_cache).len()
                ==> !((#[trigger] latent_program(m, token_offset, layers, has_mha_cache)[i]) is Fail),
{
    lemma_layers_fail(m, token_offset, layers, has_mha_cache, layers.len());
    let p = latent_program(m, token_offset, layers, has_mha_cache);
    let l = latent_layers(m, token_offset, layers, has_mha_cache, layers.len());
    if any_blocked(layers, has_mha_cache, layers.len() as int) {
        assert(p.last() == l.last());
    } else {
        assert forall|i: int| 0 <= i < p.len() implies !((#[trigger] p[i]) is Fail) by {
            if i > 0 {
                assert(p[i] == l[i - 1]);
            }
        }
    }
}

proof fn lemma_layers_fail(
    m: LatentModel,
    token_offset: usize,
    layers: Seq<LatentLayer>,
    has_mha_cache: bool,
    n: nat,
)
    requires
        n <= layers.len(),
    ensures
        any_blocked(layers, has_mha_cache, n as int) ==> latent_layers(
            m,
            token_offset,
            layers,
            has_mha_cache,
            n,
        ).len() > 0 && latent_layers(m, token_offset, layers, has_mha_cache, n).last() is Fail,
        !any_blocked(layers, has_mha_cache, n as int) ==> forall|i: int|
            0 <= i < latent_layers(m, token_offset, layers, has_mha_cache, n).len() ==> !((
            #[trigger] latent_layers(m, token_offset, layers, has_mha_cache, n)[i]) is Fail),
    decreases n,
{
    if n > 0 {
        let k = n - 1;
        lemma_layers_fail(m, token_offset, layers, has_mha_cache, k as nat);
        let before = latent_layers(m, token_offset, layers, has_mha_cache, k as nat);
        let now = latent_layers(m, token_offset, layers, has_mha_cache, n);
        if any_blocked(layers, has_mha_cache, k) {
            let i = choose|i: int| 0 <= i < k && blocked(#[trigger] layers[i], has_mha_cache);
            assert(0 <= i < n && blocked(layers[i], has_mha_cache));
        } else {
            let l = latent_layer(m, token_offset, k as usize, layers[k], has_mha_cache);
            if blocked(layers[k], has_mha_cache) {
                assert(any_blocked(layers, has_mha_cache, n as int));
                assert(l.last() is Fail);
                assert(now.last() == l.last());
            } else {
                assert(!any_blocked(layers, has_mha_cache, n as int));
                assert forall|i: int| 0 <= i < now.len() implies !((#[trigger] now[i]) is Fail) by {
                    if i < before.len() {
                        assert(now[i] == before[i]);
                    } else {
                        assert(now[i] == l[i - before.len()]);
                    }
                }
            }
        }
    }
}

/// Larger buffers hold what smaller ones hold.
proof fn lemma_fit_larger(ops: Seq<Op>, a: spec_fn(Buf) -> int, b: spec_fn(Buf) -> int)
    requires
        plan::all_fit(ops, a),
        forall|x: Buf| #[trigger] a(x) <= b(x),
    ensures
        plan::all_fit(ops, b),
{
    assert forall|i: int| 0 <= i < ops.len() implies plan::op_fits(#[trigger] ops[i], b) by {
        assert(plan::op_fits(ops[i], a));
    }
}

/// Every stretch that the step touches lies within its buffer.
pub open spec fn step_fits(s: Step, size: spec_fn(Buf) -> int) -> bool {
    match s {
        Step::Run { layer, op } => plan::op_fits(op, size),
        Step::Residual { from } => from.fits(size(from.buf)) && from.len <= size(Buf::Hidden),
        Step::Mha(a) => a.q.fits(size(a.q.buf)) && a.k.fits(size(a.k.buf)) && a.v.fits(
            size(a.v.buf),
        ),
        _ => true,
    }
}

pub open spec fn steps_fit(s: Seq<Step>, size: spec_fn(Buf) -> int) -> bool {
    forall|i: int| 0 <= i < s.len() ==> step_fits(#[trigger] s[i], size)
}

proof fn lemma_steps_concat(a: Seq<Step>, b: Seq<Step>, size: spec_fn(Buf) -> int)
    requires
        steps_fit(a, size),
        steps_fit(b, size),
    ensures
        steps_fit(a + b, size),
{
    assert forall|i: int| 0 <= i < (a + b).len() implies step_fits(#[trigger] (a + b)[i], size) by {
        if i < a.len() {
            assert((a + b)[i] == a[i]);
        } else {
            assert((a + b)[i] == b[i - a.len()]);
        }
    }
}

proof fn lemma_steps_of_fit(layer: usize, ops: Seq<Op>, size: spec_fn(Buf) -> int)
    requires
        plan::all_fit(ops, size),
    ensures
        steps_fit(steps_of(layer, ops), size),
{
    let s = steps_of(layer, ops);
    assert forall|i: int| 0 <= i < s.len() implies step_fits(#[trigger] s[i], size) by {
        assert(plan::op_fits(ops[i], size));
    }
}

/// Buffer sizes that a dense model needs at a position.
pub open spec fn dense_sizes(m: DenseModel, token_offset: usize) -> spec_fn(Buf) -> int {
    |b: Buf|
        match b {
            Buf::Hidden => m.embedding_dim as int,
            Buf::MlpOut => m.embedding_dim as int,
            Buf::Gate => m.intermediate_dim as int,
            Buf::Up => m.intermediate_dim as int,
            Buf::HiddenMlp => m.intermediate_dim as int,
            _ => plan::gqa_sizes(m.attn(0, token_offset))(b),
        }
}

proof fn lemma_dense_layer_fits(
    m: DenseModel,
    token_offset: usize,
    layer: usize,
    t: LayerQuants,
    f: Fanout,
)
    requires
        m.attn(0, token_offset).wf(),
    ensures
        steps_fit(dense_layer(m, token_offset, layer, t, f), dense_sizes(m, token_offset)),
{
    let size = dense_sizes(m, token_offset);
    let e = m.embedding_dim;
    let n = m.intermediate_dim;
    let shape = m.attn(layer as int, token_offset);
    lemma_gqa_fits(shape, t.attn, f.fused, f.min_tokens, f.n_cores);
    let attn = plan::gqa_program(shape, t.attn, f.fused, f.min_tokens, f.n_cores);
    assert forall|x: Buf| #[trigger] plan::gqa_sizes(shape)(x) <= size(x) by {}
    lemma_fit_larger(attn, plan::gqa_sizes(shape), size);
    lemma_steps_of_fit(layer, attn, size);
    let ffn = mlp_program(e, n, t.ffn, f.fused);
    assert(plan::all_fit(ffn, size));
    lemma_steps_of_fit(layer, ffn, size);
    let s1 = seq![
        Step::Norm { layer, w: BlockNorm::Attn },
        Step::Diag { layer, stage: Stage::AttnNormIn, buf: Buf::Norm },
        run_trace(layer, Stage::AttnNorm, Buf::Norm, e),
    ];
    let s2 = steps_of(layer, attn);
    let s3 = seq![
        residual(Buf::AttnOut, e),
        Step::Diag { layer, stage: Stage::AttnOut, buf: Buf::AttnOut },
        Step::Diag { layer, stage: Stage::PostAttnResidual, buf: Buf::Hidden },
        run_trace(layer, Stage::PostAttn, Buf::Hidden, e),
        Step::Norm { layer, w: BlockNorm::Ffn },
        run_trace(layer, Stage::FfnNorm, Buf::Norm, e),
    ];
    let s4 = steps_of(layer, ffn);
    let s5 = seq![
        run_trace(layer, Stage::MlpGate, Buf::Gate, n),
        run_trace(layer, Stage::MlpUp, Buf::Up, n),
        run_trace(layer, Stage::MlpSiluUp, Buf::HiddenMlp, n),
        run_trace(layer, Stage::MlpOut, Buf::MlpOut, e),
        residual(Buf::MlpOut, e),
        Step::Diag { layer, stage: Stage::MlpOut, buf: Buf::MlpOut },
        Step::Diag { layer, stage: Stage::PostMlpResidual, buf: Buf::Hidden },
        run_trace(layer, Stage::PostMlp, Buf::Hidden, e),
    ];
    assert(steps_fit(s1, size) && steps_fit(s3, size) && steps_fit(s5, size));
    lemma_steps_concat(s1, s2, size);
    lemma_steps_concat(s1 + s2, s3, size);
    lemma_steps_concat(s1 + s2 + s3, s4, size);
    lemma_steps_concat(s1 + s2 + s3 + s4, s5, size);
}

proof fn lemma_dense_layers_fit(
    m: DenseModel,
    token_offset: usize,
    layers: Seq<LayerQuants>,
    f: Fanout,
    n: nat,
)
    requires
        n > 0 ==> m.attn(0, token_offset).wf(),
    ensures
        steps_fit(dense_layers(m, token_offset, layers, f, n), dense_sizes(m, token_offset)),
    decreases n,
{
    if n > 0 {
        let k = n - 1;
        lemma_dense_layers_fit(m, token_offset, layers, f, k as nat);
        lemma_dense_layer_fits(m, token_offset, k as usize, layers[k], f);
        lemma_steps_concat(
            dense_layers(m, token_offset, layers, f, k as nat),
            dense_layer(m, token_offset, k as usize, layers[k], f),
            dense_sizes(m, token_offset),
        );
    }
}

/// No step of a dense model's pass reaches beyond a buffer, if the buffers have
/// the sizes that the model asks for at the position.
pub proof fn lemma_dense_pass_fits(
    m: DenseModel,
    token_offset: usize,
    layers: Seq<LayerQuants>,
    f: Fanout,
)
    requires
        m.wf(token_offset, layers),
    ensures
        steps_fit(dense_program(m, token_offset, layers, f), dense_sizes(m, token_offset)),
{
    let size = dense_sizes(m, token_offset);
    let head = seq![
        Step::Embed { fatal: true },
        run_trace(0, Stage::Embed, Buf::Hidden, m.embedding_dim),
        Step::RopeTable { half: m.half },
    ];
    assert(steps_fit(head, size));
    lemma_dense_layers_fit(m, token_offset, layers, f, layers.len());
    lemma_steps_concat(head, dense_layers(m, token_offset, layers, f, layers.len()), size);
}

/// Buffer sizes that a mixture-of-experts block needs.
pub open spec fn moe_sizes(s: MoeShape) -> spec_fn(Buf) -> int {
    |b: Buf|
        match b {
            Buf::Norm => s.embedding_dim as int,
            Buf::MlpOut => s.embedding_dim as int,
            Buf::ExpertOut => s.embedding_dim as int,
            Buf::Gate => s.expert_intermediate as int,
            Buf::Up => s.expert_intermediate as int,
            Buf::HiddenMlp => s.expert_intermediate as int,
            Buf::ExpertWeights => s.top_k as int,
            _ => 0,
        }
}

proof fn lemma_picked_fit(s: MoeShape, indices: Seq<u32>, n: nat)
    requires
        s.wf(),
        n <= s.top_k,
    ensures
        plan::all_fit(picked_experts(s, indices, n), moe_sizes(s)),
    decreases n,
{
    if n > 0 {
        let k = n - 1;
        let size = moe_sizes(s);
        lemma_picked_fit(s, indices, k as nat);
        let one = picked_expert(s, k, indices[k] as int);
        assert forall|i: int| 0 <= i < one.len() implies plan::op_fits(#[trigger] one[i], size) by {
            assert(one.len() == 5);
            assert(i == 0 || i == 1 || i == 2 || i == 3 || i == 4);
            let v = Strided {
                buf: Buf::ExpertOut,
                start: 0,
                stride: 0,
                count: 1,
                len: s.embedding_dim,
            };
            assert((v.count - 1) * v.stride == 0) by (nonlinear_arith)
                requires
                    v.stride == 0,
            ;
        }
        lemma_all_fit_concat(picked_experts(s, indices, k as nat), one, size);
    }
}

/// No operation of a mixture-of-experts block reaches beyond a buffer.
pub proof fn lemma_moe_fits(s: MoeShape, indices: Seq<u32>)
    requires
        s.wf(),
    ensures
        plan::all_fit(moe_program(s, indices), moe_sizes(s)),
{
    let size = moe_sizes(s);
    let shared = expert_program(
        Mat::SharedGate,
        Mat::SharedUp,
        Mat::SharedDown,
        s.embedding_dim,
        s.expert_intermediate,
        Buf::MlpOut,
        s.quant,
    );
    assert(plan::all_fit(shared, size));
    lemma_picked_fit(s, indices, s.top_k as nat);
    lemma_all_fit_concat(shared, picked_experts(s, indices, s.top_k as nat), size);
}

/// Buffer sizes that a latent-attention model needs at a position, for the
/// layers that it has.
pub open spec fn latent_sizes(m: LatentModel, token_offset: usize, l: LatentLayer) -> spec_fn(
    Buf,
) -> int {
    |b: Buf|
        match b {
            Buf::Hidden => m.embedding_dim as int,
            Buf::MlpOut => m.embedding_dim as int,
            Buf::Gate => m.intermediate_dim as int,
            Buf::Up => m.intermediate_dim as int,
            Buf::HiddenMlp => m.intermediate_dim as int,
            Buf::KvDecompressed => if l.attn is Mha {
                m.n_kv_heads * m.head_dim() + m.n_kv_heads * m.v_head_dim
            } else {
                mla::mla_sizes(m.mla(0, token_offset, l))(b)
            },
            _ => mla::mla_sizes(m.mla(0, token_offset, l))(b),
        }
}

/// No step of a latent-attention layer reaches beyond a buffer. What the
/// experts touch is bounded with their own block.
pub proof fn lemma_latent_layer_fits(
    m: LatentModel,
    token_offset: usize,
    layer: usize,
    l: LatentLayer,
    has_mha_cache: bool,
)
    requires
        !blocked(l, has_mha_cache) ==> m.layer_wf(token_offset, l),
    ensures
        steps_fit(
            latent_layer(m, token_offset, layer, l, has_mha_cache),
            latent_sizes(m, token_offset, l),
        ),
{
    let size = latent_sizes(m, token_offset, l);
    let s0 = seq![Step::Norm { layer, w: BlockNorm::Attn }];
    assert(steps_fit(s0, size));
    if blocked(l, has_mha_cache) {
        let fail = seq![Step::Fail(Deepseek2ForwardError::Mla(MlaError::NumericalInstability))];
        assert(steps_fit(fail, size));
        lemma_steps_concat(s0, fail, size);
    } else {
        let s1 = match l.attn {
            AttnType::Mla => steps_of(
                layer,
                mla::mla_program(m.mla(layer as int, token_offset, l)),
            ),
            AttnType::Mha => seq![Step::Mha(mha_step(m, layer, l))],
        };
        assert(0 <= m.n_kv_heads * m.head_dim() && 0 <= m.n_kv_heads * m.v_head_dim && 0
            <= m.n_heads * m.head_dim()) by (nonlinear_arith)
            requires
                m.head_dim() >= 0,
        ;
        if l.attn is Mla {
            let shape = m.mla(layer as int, token_offset, l);
            lemma_mla_fits(shape);
            assert forall|x: Buf| #[trigger] mla::mla_sizes(shape)(x) <= size(x) by {}
            lemma_fit_larger(mla::mla_program(shape), mla::mla_sizes(shape), size);
            lemma_steps_of_fit(layer, mla::mla_program(shape), size);
        }
        assert(steps_fit(s1, size));
        let s2 = seq![
            residual(Buf::AttnOut, m.embedding_dim),
            Step::Norm { layer, w: BlockNorm::Ffn },
        ];
        assert(steps_fit(s2, size));
        let s3 = latent_ffn(m, layer, l);
        if l.mlp is Dense {
            let ops = mlp_program(
                m.embedding_dim,
                m.intermediate_dim,
                FfnQuants { gate: l.dense_quant, up: l.dense_quant, down: l.dense_quant },
                false,
            );
            assert(plan::all_fit(ops, size));
            lemma_steps_of_fit(layer, ops, size);
        }
        assert(steps_fit(s3, size));
        let s4 = seq![residual(Buf::MlpOut, m.embedding_dim)];
        assert(steps_fit(s4, size));
        lemma_steps_concat(s0, s1, size);
        lemma_steps_concat(s0 + s1, s2, size);
        lemma_steps_concat(s0 + s1 + s2, s3, size);
        lemma_steps_concat(s0 + s1 + s2 + s3, s4, size);
    }
}

/// Element `i` of the self-test input, in sixteenths: a ramp from -15 to 15.
pub open spec fn ramp(i: int) -> int {
    i % 31 - 15
}

/// The self-test input, in sixteenths.
pub fn self_test_input(in_dim: usize) -> (x: Vec<i32>)
    ensures
        x@.len() == in_dim,
        forall|i: int| 0 <= i < in_dim ==> (#[trigger] x@[i]) == ramp(i),
{
    let mut x: Vec<i32> = Vec::new();
    let mut i: usize = 0;
    while i < in_dim
        invariant
            i <= in_dim,
            x@.len() == i,
            forall|j: int| 0 <= j < i ==> (#[trigger] x@[j]) == ramp(j),
        decreases in_dim - i,
    {
        x.push((i % 31) as i32 - 15);
        i = i + 1;
    }
    x
}

/// The two outputs agree in all rows before `i`.
pub open spec fn agree(a: Seq<u32>, b: Seq<u32>, i: int) -> bool {
    forall|j: int| 0 <= j < i ==> (#[trigger] a[j]) == b[j]
}

pub open spec fn mismatch_line(i: int, a: u32, b: u32) -> Seq<char> {
    "[MP2.6] SMP self-test MISMATCH at row "@ + text::dec(i as nat) + ": parallel=0x"@
        + text::pad_start(text::hex(a as nat), 8, '0') + " single=0x"@ + text::pad_start(
        text::hex(b as nat),
        8,
        '0',
    )
}

/// Compares the rows of one projection, done by all cores and by one, bit for
/// bit. The error is the line that reports the first row that differs.
pub fn smp_dispatch_self_test(out_par: &[u32], out_single: &[u32]) -> (r: Result<(), String>)
    requires
        out_par@.len() == out_single@.len(),
    ensures
        r is Ok <==> out_par@ == out_single@,
        r matches Err(line) ==> exists|i: int|
            0 <= i < out_par@.len() && out_par@[i] != out_single@[i] && #[trigger] agree(
                out_par@,
                out_single@,
                i,
            ) && line@ == mismatch_line(i, out_par@[i], out_single@[i]),
{
    let mut i: usize = 0;
    while i < out_par.len()
        invariant
            i <= out_par@.len() == out_single@.len(),
            agree(out_par@, out_single@, i as int),
        decreases out_par@.len() - i,
    {
        if out_par[i] != out_single[i] {
            let mut line = "[MP2.6] SMP self-test MISMATCH at row ".to_owned();
            push_dec(&mut line, i as u64);
            line.append(": parallel=0x");
            push_hex_padded(&mut line, out_par[i] as u64, 8);
            line.append(" single=0x");
            push_hex_padded(&mut line, out_single[i] as u64, 8);
            return Err(line);
        }
        i = i + 1;
    }
    assert(out_par@ =~= out_single@);
    Ok(())
}

/// Multiply-adds of a whole Q4_K matrix on one core.
pub fn linear_q4k_single(w: &[u8], in_dim: usize, out_dim: usize) -> (out: Vec<RowTerms>)
    requires
        linear::holds_rows(
            Layout::Q4K,
            w@,
            in_dim as int,
            (RowRange { start: 0, end: out_dim }),
        ),
    ensures
        linear::rows_of(
            out@,
            Layout::Q4K,
            w@,
            in_dim as int,
            (RowRange { start: 0, end: out_dim }),
        ),
{
    linear_q4k_avx512(w, in_dim, out_dim)
}

/// Multiply-adds of a whole Q6_K matrix on one core.
pub fn linear_q6k_single(w: &[u8], in_dim: usize, out_dim: usize) -> (out: Vec<RowTerms>)
    requires
        linear::holds_rows(
            Layout::Q6K,
            w@,
            in_dim as int,
            (RowRange { start: 0, end: out_dim }),
        ),
    ensures
        linear::rows_of(
            out@,
            Layout::Q6K,
            w@,
            in_dim as int,
            (RowRange { start: 0, end: out_dim }),
        ),
{
    linear_q6k_avx512(w, in_dim, out_dim)
}

} // verus!
