//! What the feed-forward blocks, the layers and a whole pass compute, as functions of
//! the values in their inputs.

use crate::inference_avx512::exact;
use crate::inference_avx512::exact::Arith;
use crate::inference_avx512::forward;
use crate::inference_avx512::forward::{
    AttnType, BlockNorm, DenseModel, Fanout, FfnQuants, LatentLayer, LatentModel, LayerQuants,
    MhaStep, MlpType, MoeShape, Step,
};
use crate::inference_avx512::mla;
use crate::inference_avx512::plan;
use crate::inference_avx512::plan::{Buf, Mat, Op, Span, Stage, Strided};
use crate::inference_avx512::value;
use crate::inference_avx512::value::{lemma_gqa_value, lemma_linear};
use crate::inference_avx512::value_mla;
use crate::inference_avx512::value_mla::lemma_mla_value;
use crate::inference_avx512::GgmlType;
use vstd::prelude::*;

verus! {

// Feed-forward blocks.

/// The gated block: `down` of SiLU of `gate x` times `up x`.
pub open spec fn gated(
    ar: Arith,
    gate: (Mat, GgmlType),
    up: (Mat, GgmlType),
    down: (Mat, GgmlType),
    e: int,
    n: int,
    x: Seq<u32>,
) -> Seq<u32> {
    let g = value::product(ar, gate.0, gate.1, n, x);
    let u = value::product(ar, up.0, up.1, n, x);
    value::product(ar, down.0, down.1, e, value::cut((ar.silu_mul)(g, u), n))
}

/// The buffers that a gated block works in.
pub open spec fn ffn_scratch(b: Buf) -> bool {
    b == Buf::Gate || b == Buf::Up || b == Buf::HiddenMlp
}

/// The four operations of a gated block with its output in `to`.
proof fn lemma_gated(
    ar: Arith,
    gate: (Mat, GgmlType),
    up: (Mat, GgmlType),
    down: (Mat, GgmlType),
    e: usize,
    n: usize,
    to: Buf,
    m: spec_fn(Buf, int) -> u32,
)
    requires
        !ffn_scratch(to),
        to != Buf::Norm,
    ensures
        ({
            let ops = seq![
                Op::Linear(forward::proj(gate.0, Buf::Norm, e, Buf::Gate, n, gate.1)),
                Op::Linear(forward::proj(up.0, Buf::Norm, e, Buf::Up, n, up.1)),
                forward::silu_mul(n),
                Op::Linear(forward::proj(down.0, Buf::HiddenMlp, n, to, e, down.1)),
            ];
            &&& exact::run(ar, ops, m) is Some == (gate.1.has_kernel() && up.1.has_kernel()
                && down.1.has_kernel())
            &&& exact::run(ar, ops, m) matches Some(r) ==> {
                &&& exact::get(r, to, 0, e as int) == gated(
                    ar,
                    gate,
                    up,
                    down,
                    e as int,
                    n as int,
                    exact::get(m, Buf::Norm, 0, e as int),
                )
                &&& exact::get(r, Buf::Gate, 0, n as int) == value::product(
                    ar,
                    gate.0,
                    gate.1,
                    n as int,
                    exact::get(m, Buf::Norm, 0, e as int),
                )
                &&& exact::get(r, Buf::Up, 0, n as int) == value::product(
                    ar,
                    up.0,
                    up.1,
                    n as int,
                    exact::get(m, Buf::Norm, 0, e as int),
                )
                &&& exact::get(r, Buf::HiddenMlp, 0, n as int) == value::cut(
                    (ar.silu_mul)(
                        exact::get(r, Buf::Gate, 0, n as int),
                        exact::get(r, Buf::Up, 0, n as int),
                    ),
                    n as int,
                )
                &&& forall|c: Buf, i: int|
                    !ffn_scratch(c) && (c != to || i < 0 || i >= e) ==> #[trigger] r(c, i) == m(
                        c,
                        i,
                    )
            }
        }),
{
    let pg = forward::proj(gate.0, Buf::Norm, e, Buf::Gate, n, gate.1);
    let pu = forward::proj(up.0, Buf::Norm, e, Buf::Up, n, up.1);
    let pd = forward::proj(down.0, Buf::HiddenMlp, n, to, e, down.1);
    let (a, b, c, d) = (Op::Linear(pg), Op::Linear(pu), forward::silu_mul(n), Op::Linear(pd));
    let x = exact::get(m, Buf::Norm, 0, e as int);
    assert(seq![a, b, c, d] =~= seq![a, b].push(c).push(d));
    exact::lemma_run_two(ar, a, b, m);
    exact::lemma_run_push(ar, seq![a, b], c, m);
    exact::lemma_run_push(ar, seq![a, b].push(c), d, m);
    if gate.1.has_kernel() && up.1.has_kernel() && down.1.has_kernel() {
        lemma_linear(ar, pg, m);
        let m1 = exact::run_op(ar, a, m)->Some_0;
        assert(exact::read(m, pg.x) =~= x);
        lemma_linear(ar, pu, m1);
        let m2 = exact::run_op(ar, b, m1)->Some_0;
        assert(exact::read(m1, pu.x) =~= x);
        let g = value::product(ar, gate.0, gate.1, n as int, x);
        let u = value::product(ar, up.0, up.1, n as int, x);
        assert(exact::read(m2, plan::span(Buf::Gate, 0, n as int)) =~= exact::read(m1, pg.out));
        assert(exact::read(m2, plan::span(Buf::Up, 0, n as int)) =~= u);
        let m3 = exact::run_op(ar, c, m2)->Some_0;
        assert(exact::read(m3, pd.x) =~= value::cut((ar.silu_mul)(g, u), n as int));
        lemma_linear(ar, pd, m3);
        let r = exact::run_op(ar, d, m3)->Some_0;
        assert(exact::get(r, to, 0, e as int) =~= exact::read(r, pd.out));
        assert(exact::get(r, Buf::Gate, 0, n as int) =~= g);
        assert(exact::get(r, Buf::Up, 0, n as int) =~= u);
        assert(exact::get(r, Buf::HiddenMlp, 0, n as int) =~= exact::read(m3, pd.x));
    }
}

/// What the dense feed-forward block gives for `x`.
pub open spec fn mlp_value(ar: Arith, e: int, n: int, t: FfnQuants, x: Seq<u32>) -> Seq<u32> {
    gated(ar, (Mat::FfnGate, t.gate), (Mat::FfnUp, t.up), (Mat::FfnDown, t.down), e, n, x)
}

/// The dense feed-forward block leaves its value of the normalised input in its
/// output, fused or not, and changes nothing but its own buffers.
pub proof fn lemma_mlp_value(
    ar: Arith,
    e: usize,
    n: usize,
    t: FfnQuants,
    fused: bool,
    m: spec_fn(Buf, int) -> u32,
)
    ensures
        exact::run(ar, forward::mlp_program(e, n, t, fused), m) is Some == (t.gate.has_kernel()
            && t.up.has_kernel() && t.down.has_kernel()),
        exact::run(ar, forward::mlp_program(e, n, t, fused), m) matches Some(r) ==> {
            &&& exact::get(r, Buf::MlpOut, 0, e as int) == mlp_value(
                ar,
                e as int,
                n as int,
                t,
                exact::get(m, Buf::Norm, 0, e as int),
            )
            &&& exact::get(r, Buf::Gate, 0, n as int) == value::product(
                ar,
                Mat::FfnGate,
                t.gate,
                n as int,
                exact::get(m, Buf::Norm, 0, e as int),
            )
            &&& exact::get(r, Buf::Up, 0, n as int) == value::product(
                ar,
                Mat::FfnUp,
                t.up,
                n as int,
                exact::get(m, Buf::Norm, 0, e as int),
            )
            &&& exact::get(r, Buf::HiddenMlp, 0, n as int) == value::cut(
                (ar.silu_mul)(
                    exact::get(r, Buf::Gate, 0, n as int),
                    exact::get(r, Buf::Up, 0, n as int),
                ),
                n as int,
            )
            &&& forall|c: Buf, i: int|
                !ffn_scratch(c) && (c != Buf::MlpOut || i < 0 || i >= e) ==> #[trigger] r(c, i)
                    == m(c, i)
        },
{
    exact::lemma_fused_mlp(ar, e, n, t, fused, false, m);
    lemma_gated(
        ar,
        (Mat::FfnGate, t.gate),
        (Mat::FfnUp, t.up),
        (Mat::FfnDown, t.down),
        e,
        n,
        Buf::MlpOut,
        m,
    );
}

/// What expert `idx` gives for `x`: its matrices are the `idx`-th of their kind.
pub open spec fn expert_value(ar: Arith, s: MoeShape, idx: int, x: Seq<u32>) -> Seq<u32> {
    let g = match s.gate_bytes {
        Some(n) => n,
        None => s.gate_q4k_bytes,
    };
    let d = match s.down_bytes {
        Some(n) => n,
        None => s.down_q4k_bytes,
    };
    gated(
        ar,
        (Mat::ExpertGate { start: (idx * g) as usize, len: g }, s.quant),
        (Mat::ExpertUp { start: (idx * g) as usize, len: g }, s.quant),
        (Mat::ExpertDown { start: (idx * d) as usize, len: d }, s.quant),
        s.embedding_dim as int,
        s.expert_intermediate as int,
        x,
    )
}

/// What the shared expert gives for `x`, with the experts in the first `k` places
/// added, each with the weight of its place.
pub open spec fn moe_value(
    ar: Arith,
    s: MoeShape,
    indices: Seq<u32>,
    weights: spec_fn(int) -> u32,
    x: Seq<u32>,
    k: nat,
) -> Seq<u32>
    decreases k,
{
    if k == 0 {
        gated(
            ar,
            (Mat::SharedGate, s.quant),
            (Mat::SharedUp, s.quant),
            (Mat::SharedDown, s.quant),
            s.embedding_dim as int,
            s.expert_intermediate as int,
            x,
        )
    } else {
        value::cut(
            (ar.add_weighted)(
                moe_value(ar, s, indices, weights, x, (k - 1) as nat),
                weights(k - 1),
                expert_value(ar, s, indices[k - 1] as int, x),
            ),
            s.embedding_dim as int,
        )
    }
}

/// `r` holds the value with `k` experts, and differs from `m` only in the buffers of
/// the block.
spec fn moe_upto(
    ar: Arith,
    s: MoeShape,
    indices: Seq<u32>,
    m: spec_fn(Buf, int) -> u32,
    r: spec_fn(Buf, int) -> u32,
    k: nat,
) -> bool {
    &&& exact::get(r, Buf::MlpOut, 0, s.embedding_dim as int) == moe_value(
        ar,
        s,
        indices,
        |i: int| m(Buf::ExpertWeights, i),
        exact::get(m, Buf::Norm, 0, s.embedding_dim as int),
        k,
    )
    &&& forall|c: Buf, i: int|
        !ffn_scratch(c) && c != Buf::ExpertOut && (c != Buf::MlpOut || i < 0 || i
            >= s.embedding_dim) ==> #[trigger] r(c, i) == m(c, i)
}

proof fn lemma_one_expert(
    ar: Arith,
    s: MoeShape,
    indices: Seq<u32>,
    m: spec_fn(Buf, int) -> u32,
    a: spec_fn(Buf, int) -> u32,
    k: int,
)
    requires
        s.quant.has_kernel(),
        0 <= k < usize::MAX,
        moe_upto(ar, s, indices, m, a, k as nat),
    ensures
        exact::run(ar, forward::picked_expert(s, k, indices[k] as int), a) matches Some(r)
            && moe_upto(ar, s, indices, m, r, (k + 1) as nat),
{
    let e = s.embedding_dim;
    let x = exact::get(m, Buf::Norm, 0, e as int);
    let idx = indices[k] as int;
    let g = s.gate_size();
    let d = s.down_size();
    let gate = Mat::ExpertGate { start: (idx * g) as usize, len: g as usize };
    let up = Mat::ExpertUp { start: (idx * g) as usize, len: g as usize };
    let down = Mat::ExpertDown { start: (idx * d) as usize, len: d as usize };
    let block = forward::expert_program(
        gate,
        up,
        down,
        e,
        s.expert_intermediate,
        Buf::ExpertOut,
        s.quant,
    );
    let v = Strided { buf: Buf::ExpertOut, start: 0, stride: 0, count: 1, len: e };
    let ws = plan::span(Buf::ExpertWeights, k, 1);
    let out = plan::span(Buf::MlpOut, 0, e as int);
    let sum = Op::WeightedSum { weights: ws, v, out };
    assert(forward::picked_expert(s, k, idx) =~= block.push(sum));
    exact::lemma_run_push(ar, block, sum, a);
    lemma_gated(
        ar,
        (gate, s.quant),
        (up, s.quant),
        (down, s.quant),
        e,
        s.expert_intermediate,
        Buf::ExpertOut,
        a,
    );
    let b = exact::run(ar, block, a)->Some_0;
    assert(exact::get(a, Buf::Norm, 0, e as int) =~= x);
    let r = exact::run_op(ar, sum, b)->Some_0;
    assert(exact::read(b, ws) =~= seq![m(Buf::ExpertWeights, k)]);
    assert(exact::stretch(b, v, 0) =~= exact::get(b, Buf::ExpertOut, 0, e as int));
    assert(exact::read(b, out) =~= exact::get(a, Buf::MlpOut, 0, e as int));
    reveal_with_fuel(exact::weighted_sum, 2);
    let weights = |i: int| m(Buf::ExpertWeights, i);
    assert(exact::get(r, Buf::MlpOut, 0, e as int) =~= moe_value(
        ar,
        s,
        indices,
        weights,
        x,
        (k + 1) as nat,
    ));
}

proof fn lemma_experts(
    ar: Arith,
    s: MoeShape,
    indices: Seq<u32>,
    m: spec_fn(Buf, int) -> u32,
    a: spec_fn(Buf, int) -> u32,
    k: nat,
)
    requires
        s.quant.has_kernel(),
        k <= s.top_k,
        moe_upto(ar, s, indices, m, a, 0),
    ensures
        exact::run(ar, forward::picked_experts(s, indices, k), a) matches Some(r) && moe_upto(
            ar,
            s,
            indices,
            m,
            r,
            k,
        ),
    decreases k,
{
    if k > 0 {
        let j = k - 1;
        lemma_experts(ar, s, indices, m, a, j as nat);
        let b = exact::run(ar, forward::picked_experts(s, indices, j as nat), a)->Some_0;
        lemma_one_expert(ar, s, indices, m, b, j);
        exact::lemma_run_concat(
            ar,
            forward::picked_experts(s, indices, j as nat),
            forward::picked_expert(s, j, indices[j] as int),
            a,
        );
    }
}

/// A mixture-of-experts block leaves the shared expert's value plus that of each
/// picked expert times the weight of its place, and changes nothing but its own
/// buffers.
pub proof fn lemma_moe_value(
    ar: Arith,
    s: MoeShape,
    indices: Seq<u32>,
    m: spec_fn(Buf, int) -> u32,
)
    ensures
        exact::run(ar, forward::moe_program(s, indices), m) is Some == s.quant.has_kernel(),
        exact::run(ar, forward::moe_program(s, indices), m) matches Some(r) ==> {
            &&& exact::get(r, Buf::MlpOut, 0, s.embedding_dim as int) == moe_value(
                ar,
                s,
                indices,
                |i: int| m(Buf::ExpertWeights, i),
                exact::get(m, Buf::Norm, 0, s.embedding_dim as int),
                s.top_k as nat,
            )
            &&& forall|c: Buf, i: int|
                !ffn_scratch(c) && c != Buf::ExpertOut && (c != Buf::MlpOut || i < 0 || i
                    >= s.embedding_dim) ==> #[trigger] r(c, i) == m(c, i)
        },
{
    let shared = forward::expert_program(
        Mat::SharedGate,
        Mat::SharedUp,
        Mat::SharedDown,
        s.embedding_dim,
        s.expert_intermediate,
        Buf::MlpOut,
        s.quant,
    );
    let rest = forward::picked_experts(s, indices, s.top_k as nat);
    exact::lemma_run_concat(ar, shared, rest, m);
    lemma_gated(
        ar,
        (Mat::SharedGate, s.quant),
        (Mat::SharedUp, s.quant),
        (Mat::SharedDown, s.quant),
        s.embedding_dim,
        s.expert_intermediate,
        Buf::MlpOut,
        m,
    );
    if let Some(a) = exact::run(ar, shared, m) {
        lemma_experts(ar, s, indices, m, a, s.top_k as nat);
    }
}

// Passes.

/// The arithmetic of a pass. The token and its position are fixed.
pub struct PassArith {
    /// Elements of the hidden state.
    pub width: int,
    /// The token's embedding, where it has one.
    pub embedding: Option<Seq<u32>>,
    /// The operations with the weights of a layer, under the rotation table that was
    /// filled.
    pub ops: spec_fn(usize, Option<usize>) -> Arith,
    pub norm: spec_fn(usize, BlockNorm, Seq<u32>) -> Seq<u32>,
    /// The sum of two stretches.
    pub add: spec_fn(Seq<u32>, Seq<u32>) -> Seq<u32>,
    /// What plain attention leaves; `None` where it fails.
    pub mha: spec_fn(MhaStep, spec_fn(Buf, int) -> u32) -> Option<spec_fn(Buf, int) -> u32>,
    /// The experts that routing picks for an input, and their weights.
    pub route: spec_fn(usize, MoeShape, Seq<u32>) -> (Seq<u32>, Seq<u32>),
}

/// The state of a pass: the buffers that all layers share, the caches of each layer,
/// and the rotation table.
#[verifier::ext_equal]
pub struct PassState {
    pub bufs: spec_fn(Buf, int) -> u32,
    pub caches: spec_fn(usize, Buf, int) -> u32,
    pub table: Option<usize>,
}

/// Each layer has its own.
pub open spec fn is_cache(b: Buf) -> bool {
    b == Buf::KCache || b == Buf::VCache || b == Buf::CKvCache || b == Buf::KRopeCache
}

/// The buffers as a layer sees them.
pub open spec fn seen_by(st: PassState, layer: usize) -> spec_fn(Buf, int) -> u32 {
    |b: Buf, i: int|
        if is_cache(b) {
            (st.caches)(layer, b, i)
        } else {
            (st.bufs)(b, i)
        }
}

/// The state after a layer has left the buffers `m`.
pub open spec fn left_by(st: PassState, layer: usize, m: spec_fn(Buf, int) -> u32) -> PassState {
    PassState {
        bufs: |b: Buf, i: int|
            if is_cache(b) {
                (st.bufs)(b, i)
            } else {
                m(b, i)
            },
        caches: |l: usize, b: Buf, i: int|
            if l == layer && is_cache(b) {
                m(b, i)
            } else {
                (st.caches)(l, b, i)
            },
        table: st.table,
    }
}

/// The state with other shared buffers.
pub open spec fn with_bufs(st: PassState, m: spec_fn(Buf, int) -> u32) -> PassState {
    PassState { bufs: m, ..st }
}

/// The arithmetic of a layer.
pub open spec fn ops_of(pa: PassArith, st: PassState, layer: usize) -> Arith {
    Arith { layer, ..(pa.ops)(layer, st.table) }
}

/// The state after one step; `None` where it fails.
pub open spec fn run_step(pa: PassArith, step: Step, st: PassState) -> Option<PassState> {
    match step {
        Step::Embed { fatal } => match pa.embedding {
            Some(v) => Some(with_bufs(st, exact::put(st.bufs, Buf::Hidden, 0, pa.width, v))),
            None => if fatal {
                None
            } else {
                Some(st)
            },
        },
        Step::RopeTable { half } => Some(PassState { table: Some(half), ..st }),
        Step::Norm { layer, w } => {
            let v = (pa.norm)(layer, w, exact::get(st.bufs, Buf::Hidden, 0, pa.width));
            Some(with_bufs(st, exact::put(st.bufs, Buf::Norm, 0, pa.width, v)))
        },
        Step::Run { layer, op } => match exact::run_op(
            ops_of(pa, st, layer),
            op,
            seen_by(st, layer),
        ) {
            Some(m) => Some(left_by(st, layer, m)),
            None => None,
        },
        Step::Mha(mha) => match (pa.mha)(mha, seen_by(st, mha.layer)) {
            Some(m) => Some(
                with_bufs(
                    st,
                    |b: Buf, i: int|
                        if b == Buf::AttnOut || b == Buf::QDecompressed || b
                            == Buf::KvDecompressed {
                            m(b, i)
                        } else {
                            (st.bufs)(b, i)
                        },
                ),
            ),
            None => None,
        },
        Step::Diag { layer, stage, buf } => Some(st),
        Step::Residual { from } => {
            let n = from.len as int;
            let v = (pa.add)(exact::get(st.bufs, Buf::Hidden, 0, n), exact::read(st.bufs, from));
            Some(with_bufs(st, exact::put(st.bufs, Buf::Hidden, 0, n, v)))
        },
        Step::Clear { buf } => Some(
            with_bufs(
                st,
                |b: Buf, i: int|
                    if b == buf {
                        0
                    } else {
                        (st.bufs)(b, i)
                    },
            ),
        ),
        Step::Moe { layer, shape } => {
            let (picked, weights) = (pa.route)(
                layer,
                shape,
                exact::get(st.bufs, Buf::Norm, 0, pa.width),
            );
            let m = exact::put(
                seen_by(st, layer),
                Buf::ExpertWeights,
                0,
                weights.len() as int,
                weights,
            );
            match exact::run(ops_of(pa, st, layer), forward::moe_program(shape, picked), m) {
                Some(r) => Some(left_by(st, layer, r)),
                None => None,
            }
        },
        Step::Fail(e) => None,
    }
}

/// The state after the steps in order; `None` where one fails.
pub open spec fn run_steps(pa: PassArith, steps: Seq<Step>, st: PassState) -> Option<PassState>
    decreases steps.len(),
{
    if steps.len() == 0 {
        Some(st)
    } else {
        match run_steps(pa, steps.drop_last(), st) {
            Some(before) => run_step(pa, steps.last(), before),
            None => None,
        }
    }
}

/// A list of steps runs as its two parts do, one after the other.
pub proof fn lemma_steps_concat(pa: PassArith, a: Seq<Step>, b: Seq<Step>, st: PassState)
    ensures
        run_steps(pa, a + b, st) == match run_steps(pa, a, st) {
            Some(between) => run_steps(pa, b, between),
            None => None,
        },
    decreases b.len(),
{
    if b.len() == 0 {
        assert(a + b =~= a);
    } else {
        lemma_steps_concat(pa, a, b.drop_last(), st);
        assert((a + b).drop_last() =~= a + b.drop_last());
        assert((a + b).last() == b.last());
    }
}

pub proof fn lemma_one_step(pa: PassArith, step: Step, st: PassState)
    ensures
        run_steps(pa, seq![step], st) == run_step(pa, step, st),
{
    assert(seq![step].drop_last() =~= Seq::<Step>::empty());
    reveal_with_fuel(run_steps, 2);
}

/// Looking at values changes nothing.
pub open spec fn is_quiet(step: Step) -> bool {
    step is Diag || (step matches Step::Run { layer, op } && op is Trace)
}

pub proof fn lemma_quiet(pa: PassArith, steps: Seq<Step>, st: PassState)
    requires
        forall|i: int| 0 <= i < steps.len() ==> is_quiet(#[trigger] steps[i]),
    ensures
        run_steps(pa, steps, st) == Some(st),
    decreases steps.len(),
{
    if steps.len() > 0 {
        let less = steps.drop_last();
        assert forall|i: int| 0 <= i < less.len() implies is_quiet(#[trigger] less[i]) by {
            assert(less[i] == steps[i]);
        }
        lemma_quiet(pa, less, st);
        assert(steps.last() == steps[steps.len() - 1]);
        if let Step::Run { layer, op } = steps.last() {
            assert(left_by(st, layer, seen_by(st, layer)) =~= st);
        }
    }
}

/// The operations of a layer run on the buffers as the layer sees them.
pub proof fn lemma_steps_of(pa: PassArith, layer: usize, ops: Seq<Op>, st: PassState)
    ensures
        run_steps(pa, forward::steps_of(layer, ops), st) == match exact::run(
            ops_of(pa, st, layer),
            ops,
            seen_by(st, layer),
        ) {
            Some(m) => Some(left_by(st, layer, m)),
            None => None,
        },
    decreases ops.len(),
{
    let steps = forward::steps_of(layer, ops);
    if ops.len() == 0 {
        assert(left_by(st, layer, seen_by(st, layer)) =~= st);
    } else {
        let less = ops.drop_last();
        lemma_steps_of(pa, layer, less, st);
        assert(steps.drop_last() =~= forward::steps_of(layer, less));
        assert(steps.last() == (Step::Run { layer, op: ops.last() }));
        if let Some(m) = exact::run(ops_of(pa, st, layer), less, seen_by(st, layer)) {
            let mid = left_by(st, layer, m);
            assert(seen_by(mid, layer) =~= m);
            assert(ops_of(pa, mid, layer) == ops_of(pa, st, layer));
            if let Some(n) = exact::run_op(ops_of(pa, st, layer), ops.last(), m) {
                assert(left_by(mid, layer, n) =~= left_by(st, layer, n));
            }
        }
    }
}

/// The hidden state.
pub open spec fn hidden(pa: PassArith, st: PassState) -> Seq<u32> {
    exact::get(st.bufs, Buf::Hidden, 0, pa.width)
}

/// The hidden state `x`, normalised in front of a block of a layer.
pub open spec fn block_input(pa: PassArith, layer: usize, w: BlockNorm, x: Seq<u32>) -> Seq<u32> {
    value::cut((pa.norm)(layer, w, x), pa.width)
}

/// `x + v`.
pub open spec fn plus(pa: PassArith, x: Seq<u32>, v: Seq<u32>) -> Seq<u32> {
    value::cut((pa.add)(x, v), pa.width)
}

/// What a layer sees with `v` as the input of its block.
pub open spec fn given(pa: PassArith, st: PassState, layer: usize, v: Seq<u32>) -> spec_fn(
    Buf,
    int,
) -> u32 {
    exact::put(seen_by(st, layer), Buf::Norm, 0, pa.width, v)
}

/// Normalisation, and nothing but the input of the block changes.
pub proof fn lemma_norm_step(pa: PassArith, layer: usize, w: BlockNorm, st: PassState)
    requires
        0 <= pa.width,
    ensures
        run_step(pa, Step::Norm { layer, w }, st) matches Some(r) && {
            &&& seen_by(r, layer) == given(pa, st, layer, block_input(pa, layer, w, hidden(pa, st)))
            &&& hidden(pa, r) == hidden(pa, st)
            &&& forall|c: Buf, i: int| c != Buf::Norm ==> #[trigger] (r.bufs)(c, i) == (st.bufs)(
                c,
                i,
            )
            &&& exact::get(r.bufs, Buf::Norm, 0, pa.width) == block_input(
                pa,
                layer,
                w,
                hidden(pa, st),
            )
            &&& r.caches == st.caches
            &&& r.table == st.table
        },
{
    let r = run_step(pa, Step::Norm { layer, w }, st)->Some_0;
    let v = block_input(pa, layer, w, hidden(pa, st));
    assert(seen_by(r, layer) =~= given(pa, st, layer, v));
    assert(hidden(pa, r) =~= hidden(pa, st));
    assert(exact::get(r.bufs, Buf::Norm, 0, pa.width) =~= v);
}

/// A residual adds the output of a block to the hidden state, and nothing else
/// changes.
pub proof fn lemma_residual_step(pa: PassArith, b: Buf, e: usize, st: PassState)
    requires
        pa.width == e,
        b != Buf::Hidden,
    ensures
        run_step(pa, forward::residual(b, e), st) matches Some(r) && {
            &&& hidden(pa, r) == plus(pa, hidden(pa, st), exact::get(st.bufs, b, 0, e as int))
            &&& forall|c: Buf, i: int| c != Buf::Hidden ==> #[trigger] (r.bufs)(c, i) == (st.bufs)(
                c,
                i,
            )
            &&& r.caches == st.caches
            &&& r.table == st.table
        },
{
    let r = run_step(pa, forward::residual(b, e), st)->Some_0;
    let from = plan::span(b, 0, e as int);
    assert(exact::read(st.bufs, from) =~= exact::get(st.bufs, b, 0, e as int));
    assert(hidden(pa, r) =~= plus(pa, hidden(pa, st), exact::get(st.bufs, b, 0, e as int)));
}

/// Attention of one layer of a dense model.
pub open spec fn dense_shape(m: DenseModel, token_offset: usize, layer: usize) -> plan::GqaShape {
    plan::GqaShape {
        n_q_heads: m.n_q_heads,
        n_kv_heads: m.n_kv_heads,
        head_dim: m.head_dim,
        embedding_dim: m.embedding_dim,
        layer,
        token_offset,
        score_len: m.score_len,
    }
}

/// What the attention of a layer gets.
pub open spec fn attn_input(pa: PassArith, layer: usize, st: PassState) -> spec_fn(Buf, int) -> u32 {
    given(pa, st, layer, block_input(pa, layer, BlockNorm::Attn, hidden(pa, st)))
}

/// A layer of a dense model goes through.
pub open spec fn dense_goes(
    pa: PassArith,
    m: DenseModel,
    token_offset: usize,
    layer: usize,
    t: LayerQuants,
    st: PassState,
) -> bool {
    &&& value::gqa_goes(
        ops_of(pa, st, layer),
        dense_shape(m, token_offset, layer),
        t.attn,
        attn_input(pa, layer, st),
    )
    &&& t.ffn.gate.has_kernel()
    &&& t.ffn.up.has_kernel()
    &&& t.ffn.down.has_kernel()
}

/// A layer took the pass from `st` to `r`: with `x` the hidden state before and
/// `h = x + attention(norm x)`, the hidden state after is `h + feed-forward(norm h)`.
/// The caches of the layer have the token's row, those of the others are as before.
pub open spec fn dense_done(
    pa: PassArith,
    m: DenseModel,
    token_offset: usize,
    layer: usize,
    t: LayerQuants,
    st: PassState,
    r: PassState,
) -> bool {
    let ar = ops_of(pa, st, layer);
    let s = dense_shape(m, token_offset, layer);
    let x = hidden(pa, st);
    let h = plus(pa, x, value::gqa_value(ar, s, t.attn, attn_input(pa, layer, st)));
    let f = mlp_value(
        ar,
        m.embedding_dim as int,
        m.intermediate_dim as int,
        t.ffn,
        block_input(pa, layer, BlockNorm::Ffn, h),
    );
    &&& hidden(pa, r) == plus(pa, h, f)
    &&& value::gqa_cached(ar, s, t.attn, attn_input(pa, layer, st), seen_by(r, layer))
    &&& forall|l: usize, b: Buf, i: int|
        l != layer ==> #[trigger] (r.caches)(l, b, i) == (st.caches)(l, b, i)
    &&& r.table == st.table
}

/// The token's row in the caches does not depend on anything but the caches.
proof fn lemma_cached_frame(
    ar: Arith,
    s: plan::GqaShape,
    t: plan::AttnQuants,
    m: spec_fn(Buf, int) -> u32,
    a: spec_fn(Buf, int) -> u32,
    b: spec_fn(Buf, int) -> u32,
)
    requires
        value::gqa_cached(ar, s, t, m, a),
        forall|i: int| #[trigger] b(Buf::KCache, i) == a(Buf::KCache, i),
        forall|i: int| #[trigger] b(Buf::VCache, i) == a(Buf::VCache, i),
    ensures
        value::gqa_cached(ar, s, t, m, b),
{
    let d = s.head_dim as int;
    let x = exact::get(m, Buf::Norm, 0, s.embedding_dim as int);
    let row = s.token_offset * s.kv_dim();
    assert forall|g: int|
        #![trigger value::new_key(ar, s, t, x, g)]
        0 <= g < s.n_kv_heads implies exact::get(b, Buf::KCache, row + g * d, d) == value::new_key(
        ar,
        s,
        t,
        x,
        g,
    ) by {
        assert(exact::get(b, Buf::KCache, row + g * d, d) =~= exact::get(
            a,
            Buf::KCache,
            row + g * d,
            d,
        ));
    }
    assert forall|g: int|
        #![trigger value::new_value(ar, s, t, x, g)]
        0 <= g < s.n_kv_heads implies exact::get(b, Buf::VCache, row + g * d, d)
        == value::new_value(ar, s, t, x, g) by {
        assert(exact::get(b, Buf::VCache, row + g * d, d) =~= exact::get(
            a,
            Buf::VCache,
            row + g * d,
            d,
        ));
    }
}

/// From the output of attention on: both residuals and the feed-forward block.
proof fn lemma_dense_tail(
    pa: PassArith,
    m: DenseModel,
    layer: usize,
    t: FfnQuants,
    fused: bool,
    a: PassState,
)
    requires
        pa.width == m.embedding_dim,
    ensures
        ({
            let e = m.embedding_dim;
            let n = m.intermediate_dim;
            let ar = ops_of(pa, a, layer);
            let steps = seq![
                forward::residual(Buf::AttnOut, e),
                Step::Diag { layer, stage: Stage::AttnOut, buf: Buf::AttnOut },
                Step::Diag { layer, stage: Stage::PostAttnResidual, buf: Buf::Hidden },
                forward::run_trace(layer, Stage::PostAttn, Buf::Hidden, e),
                Step::Norm { layer, w: BlockNorm::Ffn },
                forward::run_trace(layer, Stage::FfnNorm, Buf::Norm, e),
            ] + forward::steps_of(layer, forward::mlp_program(e, n, t, fused)) + seq![
                forward::run_trace(layer, Stage::MlpGate, Buf::Gate, n),
                forward::run_trace(layer, Stage::MlpUp, Buf::Up, n),
                forward::run_trace(layer, Stage::MlpSiluUp, Buf::HiddenMlp, n),
                forward::run_trace(layer, Stage::MlpOut, Buf::MlpOut, e),
                forward::residual(Buf::MlpOut, e),
                Step::Diag { layer, stage: Stage::MlpOut, buf: Buf::MlpOut },
                Step::Diag { layer, stage: Stage::PostMlpResidual, buf: Buf::Hidden },
                forward::run_trace(layer, Stage::PostMlp, Buf::Hidden, e),
            ];
            let h = plus(pa, hidden(pa, a), exact::get(a.bufs, Buf::AttnOut, 0, e as int));
            &&& run_steps(pa, steps, a) is Some == (t.gate.has_kernel() && t.up.has_kernel()
                && t.down.has_kernel())
            &&& run_steps(pa, steps, a) matches Some(r) ==> {
                &&& hidden(pa, r) == plus(
                    pa,
                    h,
                    mlp_value(
                        ar,
                        e as int,
                        n as int,
                        t,
                        block_input(pa, layer, BlockNorm::Ffn, h),
                    ),
                )
                &&& forall|l: usize, b: Buf, i: int| #[trigger] (r.caches)(l, b, i) == (a.caches)(
                    l,
                    b,
                    i,
                )
                &&& r.table == a.table
            }
        }),
{
    let e = m.embedding_dim;
    let n = m.intermediate_dim;
    let ar = ops_of(pa, a, layer);
    let r1 = forward::residual(Buf::AttnOut, e);
    let q1 = seq![
        Step::Diag { layer, stage: Stage::AttnOut, buf: Buf::AttnOut },
        Step::Diag { layer, stage: Stage::PostAttnResidual, buf: Buf::Hidden },
        forward::run_trace(layer, Stage::PostAttn, Buf::Hidden, e),
    ];
    let norm = Step::Norm { layer, w: BlockNorm::Ffn };
    let q2 = seq![forward::run_trace(layer, Stage::FfnNorm, Buf::Norm, e)];
    let ffn = forward::steps_of(layer, forward::mlp_program(e, n, t, fused));
    let q3 = seq![
        forward::run_trace(layer, Stage::MlpGate, Buf::Gate, n),
        forward::run_trace(layer, Stage::MlpUp, Buf::Up, n),
        forward::run_trace(layer, Stage::MlpSiluUp, Buf::HiddenMlp, n),
        forward::run_trace(layer, Stage::MlpOut, Buf::MlpOut, e),
    ];
    let r2 = forward::residual(Buf::MlpOut, e);
    let q4 = seq![
        Step::Diag { layer, stage: Stage::MlpOut, buf: Buf::MlpOut },
        Step::Diag { layer, stage: Stage::PostMlpResidual, buf: Buf::Hidden },
        forward::run_trace(layer, Stage::PostMlp, Buf::Hidden, e),
    ];
    let (s1, s2, s3) = (seq![r1], seq![norm], seq![r2]);
    let steps = seq![
        forward::residual(Buf::AttnOut, e),
        Step::Diag { layer, stage: Stage::AttnOut, buf: Buf::AttnOut },
        Step::Diag { layer, stage: Stage::PostAttnResidual, buf: Buf::Hidden },
        forward::run_trace(layer, Stage::PostAttn, Buf::Hidden, e),
        Step::Norm { layer, w: BlockNorm::Ffn },
        forward::run_trace(layer, Stage::FfnNorm, Buf::Norm, e),
    ] + ffn + seq![
        forward::run_trace(layer, Stage::MlpGate, Buf::Gate, n),
        forward::run_trace(layer, Stage::MlpUp, Buf::Up, n),
        forward::run_trace(layer, Stage::MlpSiluUp, Buf::HiddenMlp, n),
        forward::run_trace(layer, Stage::MlpOut, Buf::MlpOut, e),
        forward::residual(Buf::MlpOut, e),
        Step::Diag { layer, stage: Stage::MlpOut, buf: Buf::MlpOut },
        Step::Diag { layer, stage: Stage::PostMlpResidual, buf: Buf::Hidden },
        forward::run_trace(layer, Stage::PostMlp, Buf::Hidden, e),
    ];
    assert(steps =~= s1 + q1 + s2 + q2 + ffn + q3 + s3 + q4);
    lemma_steps_concat(pa, s1, q1, a);
    lemma_steps_concat(pa, s1 + q1, s2, a);
    lemma_steps_concat(pa, s1 + q1 + s2, q2, a);
    lemma_steps_concat(pa, s1 + q1 + s2 + q2, ffn, a);
    lemma_steps_concat(pa, s1 + q1 + s2 + q2 + ffn, q3, a);
    lemma_steps_concat(pa, s1 + q1 + s2 + q2 + ffn + q3, s3, a);
    lemma_steps_concat(pa, s1 + q1 + s2 + q2 + ffn + q3 + s3, q4, a);
    lemma_one_step(pa, r1, a);
    lemma_residual_step(pa, Buf::AttnOut, e, a);
    let b = run_step(pa, r1, a)->Some_0;
    lemma_quiet(pa, q1, b);
    lemma_one_step(pa, norm, b);
    lemma_norm_step(pa, layer, BlockNorm::Ffn, b);
    let c = run_step(pa, norm, b)->Some_0;
    lemma_quiet(pa, q2, c);
    lemma_steps_of(pa, layer, forward::mlp_program(e, n, t, fused), c);
    let mem = seen_by(c, layer);
    lemma_mlp_value(ar, e, n, t, fused, mem);
    assert(exact::get(mem, Buf::Norm, 0, e as int) =~= block_input(
        pa,
        layer,
        BlockNorm::Ffn,
        hidden(pa, b),
    ));
    if let Some(k) = exact::run(ar, forward::mlp_program(e, n, t, fused), mem) {
        let d = left_by(c, layer, k);
        lemma_quiet(pa, q3, d);
        lemma_one_step(pa, r2, d);
        lemma_residual_step(pa, Buf::MlpOut, e, d);
        let r = run_step(pa, r2, d)->Some_0;
        lemma_quiet(pa, q4, r);
        assert(hidden(pa, d) =~= hidden(pa, c)) by {
            assert forall|i: int| (#[trigger] (d.bufs)(Buf::Hidden, i)) == (c.bufs)(
                Buf::Hidden,
                i,
            ) by {
                assert(k(Buf::Hidden, i) == mem(Buf::Hidden, i));
            }
        }
        assert(exact::get(d.bufs, Buf::MlpOut, 0, e as int) =~= exact::get(
            k,
            Buf::MlpOut,
            0,
            e as int,
        ));
        assert forall|l: usize, x: Buf, i: int| #[trigger] (r.caches)(l, x, i) == (a.caches)(
            l,
            x,
            i,
        ) by {
            if l == layer && is_cache(x) {
                assert(k(x, i) == mem(x, i));
            }
        }
    }
}

/// One layer of a dense model, under every setting: it goes through exactly where its
/// blocks do, and takes the hidden state `x` to `h + feed-forward(norm h)`, with
/// `h = x + attention(norm x)`.
pub proof fn lemma_dense_layer(
    pa: PassArith,
    m: DenseModel,
    token_offset: usize,
    layer: usize,
    t: LayerQuants,
    f: Fanout,
    st: PassState,
)
    requires
        pa.width == m.embedding_dim,
        m.attn(0, token_offset).wf(),
    ensures
        run_steps(pa, forward::dense_layer(m, token_offset, layer, t, f), st) is Some == dense_goes(
            pa,
            m,
            token_offset,
            layer,
            t,
            st,
        ),
        run_steps(pa, forward::dense_layer(m, token_offset, layer, t, f), st) matches Some(r)
            ==> dense_done(pa, m, token_offset, layer, t, st, r),
{
    let e = m.embedding_dim;
    let n = m.intermediate_dim;
    let ar = ops_of(pa, st, layer);
    let s = dense_shape(m, token_offset, layer);
    let norm = Step::Norm { layer, w: BlockNorm::Attn };
    let q1 = seq![
        Step::Diag { layer, stage: Stage::AttnNormIn, buf: Buf::Norm },
        forward::run_trace(layer, Stage::AttnNorm, Buf::Norm, e),
    ];
    let ops = plan::gqa_program(s, t.attn, f.fused, f.min_tokens, f.n_cores);
    let attn = forward::steps_of(layer, ops);
    let tail = seq![
        forward::residual(Buf::AttnOut, e),
        Step::Diag { layer, stage: Stage::AttnOut, buf: Buf::AttnOut },
        Step::Diag { layer, stage: Stage::PostAttnResidual, buf: Buf::Hidden },
        forward::run_trace(layer, Stage::PostAttn, Buf::Hidden, e),
        Step::Norm { layer, w: BlockNorm::Ffn },
        forward::run_trace(layer, Stage::FfnNorm, Buf::Norm, e),
    ] + forward::steps_of(layer, forward::mlp_program(e, n, t.ffn, f.fused)) + seq![
        forward::run_trace(layer, Stage::MlpGate, Buf::Gate, n),
        forward::run_trace(layer, Stage::MlpUp, Buf::Up, n),
        forward::run_trace(layer, Stage::MlpSiluUp, Buf::HiddenMlp, n),
        forward::run_trace(layer, Stage::MlpOut, Buf::MlpOut, e),
        forward::residual(Buf::MlpOut, e),
        Step::Diag { layer, stage: Stage::MlpOut, buf: Buf::MlpOut },
        Step::Diag { layer, stage: Stage::PostMlpResidual, buf: Buf::Hidden },
        forward::run_trace(layer, Stage::PostMlp, Buf::Hidden, e),
    ];
    let s1 = seq![norm];
    assert(s == m.attn(layer as int, token_offset));
    assert(forward::dense_layer(m, token_offset, layer, t, f) =~= s1 + q1 + attn + tail);
    lemma_steps_concat(pa, s1, q1, st);
    lemma_steps_concat(pa, s1 + q1, attn, st);
    lemma_steps_concat(pa, s1 + q1 + attn, tail, st);
    lemma_one_step(pa, norm, st);
    lemma_norm_step(pa, layer, BlockNorm::Attn, st);
    let b = run_step(pa, norm, st)->Some_0;
    lemma_quiet(pa, q1, b);
    let mem = attn_input(pa, layer, st);
    lemma_steps_of(pa, layer, ops, b);
    lemma_gqa_value(ar, s, t.attn, f.fused, f.min_tokens, f.n_cores, mem);
    if let Some(k) = exact::run(ar, ops, mem) {
        let c = left_by(b, layer, k);
        lemma_dense_tail(pa, m, layer, t.ffn, f.fused, c);
        assert(hidden(pa, c) =~= hidden(pa, st)) by {
            assert forall|i: int| (#[trigger] (c.bufs)(Buf::Hidden, i)) == (st.bufs)(
                Buf::Hidden,
                i,
            ) by {
                assert(k(Buf::Hidden, i) == mem(Buf::Hidden, i));
            }
        }
        assert(exact::get(c.bufs, Buf::AttnOut, 0, e as int) =~= exact::get(
            k,
            Buf::AttnOut,
            0,
            e as int,
        ));
        if let Some(r) = run_steps(pa, tail, c) {
            let seen = seen_by(r, layer);
            lemma_cached_frame(ar, s, t.attn, mem, k, seen);
        }
    }
}

/// The first `n` layers take the pass through the states `at`.
pub open spec fn dense_chain(
    pa: PassArith,
    m: DenseModel,
    token_offset: usize,
    layers: Seq<LayerQuants>,
    at: Seq<PassState>,
    n: int,
) -> bool {
    &&& at.len() == n + 1
    &&& forall|l: int|
        0 <= l < n ==> dense_done(
            pa,
            m,
            token_offset,
            l as usize,
            #[trigger] layers[l],
            at[l],
            at[l + 1],
        )
}

proof fn lemma_dense_layers(
    pa: PassArith,
    m: DenseModel,
    token_offset: usize,
    layers: Seq<LayerQuants>,
    f: Fanout,
    st: PassState,
    n: nat,
) -> (at: Seq<PassState>)
    requires
        pa.width == m.embedding_dim,
        n <= layers.len(),
        n > 0 ==> m.attn(0, token_offset).wf(),
        run_steps(pa, forward::dense_layers(m, token_offset, layers, f, n), st) is Some,
    ensures
        dense_chain(pa, m, token_offset, layers, at, n as int),
        at[0] == st,
        run_steps(pa, forward::dense_layers(m, token_offset, layers, f, n), st) == Some(
            at[n as int],
        ),
    decreases n,
{
    if n == 0 {
        seq![st]
    } else {
        let k = (n - 1) as nat;
        let before = forward::dense_layers(m, token_offset, layers, f, k);
        let last = forward::dense_layer(m, token_offset, k as usize, layers[k as int], f);
        lemma_steps_concat(pa, before, last, st);
        let at = lemma_dense_layers(pa, m, token_offset, layers, f, st, k);
        lemma_dense_layer(pa, m, token_offset, k as usize, layers[k as int], f, at[k as int]);
        let r = run_steps(pa, last, at[k as int])->Some_0;
        let all = at.push(r);
        assert forall|l: int| 0 <= l < n implies dense_done(
            pa,
            m,
            token_offset,
            l as usize,
            #[trigger] layers[l],
            all[l],
            all[l + 1],
        ) by {
            if l < k {
                assert(all[l] == at[l] && all[l + 1] == at[l + 1]);
            }
        }
        all
    }
}

/// Where the layers fail: some layer is reached that does not go through.
proof fn lemma_dense_layers_fail(
    pa: PassArith,
    m: DenseModel,
    token_offset: usize,
    layers: Seq<LayerQuants>,
    f: Fanout,
    st: PassState,
    n: nat,
) -> (at: Seq<PassState>)
    requires
        pa.width == m.embedding_dim,
        n <= layers.len(),
        n > 0 ==> m.attn(0, token_offset).wf(),
        run_steps(pa, forward::dense_layers(m, token_offset, layers, f, n), st) is None,
    ensures
        dense_stops(pa, m, token_offset, layers, at),
        at[0] == st,
        at.len() <= n,
    decreases n,
{
    if n == 0 {
        seq![st]
    } else {
        let k = (n - 1) as nat;
        let before = forward::dense_layers(m, token_offset, layers, f, k);
        let last = forward::dense_layer(m, token_offset, k as usize, layers[k as int], f);
        lemma_steps_concat(pa, before, last, st);
        if run_steps(pa, before, st) is None {
            lemma_dense_layers_fail(pa, m, token_offset, layers, f, st, k)
        } else {
            let at = lemma_dense_layers(pa, m, token_offset, layers, f, st, k);
            lemma_dense_layer(pa, m, token_offset, k as usize, layers[k as int], f, at[k as int]);
            at
        }
    }
}

/// The states `at` lead to a layer that does not go through.
pub open spec fn dense_stops(
    pa: PassArith,
    m: DenseModel,
    token_offset: usize,
    layers: Seq<LayerQuants>,
    at: Seq<PassState>,
) -> bool {
    let l = at.len() - 1;
    &&& 0 <= l < layers.len()
    &&& dense_chain(pa, m, token_offset, layers, at, l)
    &&& !dense_goes(pa, m, token_offset, l as usize, layers[l], at[l])
}

/// The state in front of the first layer.
pub open spec fn dense_start(pa: PassArith, m: DenseModel, st: PassState, a: PassState) -> bool {
    &&& pa.embedding matches Some(v) && hidden(pa, a) == value::cut(v, pa.width)
    &&& a.table == Some(m.half)
    &&& a.caches == st.caches
}

/// A pass through a dense model: it starts from the token's embedding, with the
/// rotation table filled, and every layer takes the hidden state `x` to
/// `h + feed-forward(norm h)`, with `h = x + attention(norm x)`, in order. It fails only
/// without an embedding, or at a layer that does not go through.
pub proof fn lemma_dense_pass(
    pa: PassArith,
    m: DenseModel,
    token_offset: usize,
    layers: Seq<LayerQuants>,
    f: Fanout,
    st: PassState,
)
    requires
        pa.width == m.embedding_dim,
        m.wf(token_offset, layers),
    ensures
        match run_steps(pa, forward::dense_program(m, token_offset, layers, f), st) {
            Some(r) => exists|at: Seq<PassState>|
                {
                    &&& #[trigger] dense_chain(
                        pa,
                        m,
                        token_offset,
                        layers,
                        at,
                        layers.len() as int,
                    )
                    &&& dense_start(pa, m, st, at[0])
                    &&& at[layers.len() as int] == r
                },
            None => pa.embedding is None || exists|at: Seq<PassState>|
                #[trigger] dense_stops(pa, m, token_offset, layers, at) && dense_start(
                    pa,
                    m,
                    st,
                    at[0],
                ),
        },
        pa.embedding is None ==> run_steps(
            pa,
            forward::dense_program(m, token_offset, layers, f),
            st,
        ) is None,
{
    let embed = Step::Embed { fatal: true };
    let look = forward::run_trace(0, Stage::Embed, Buf::Hidden, m.embedding_dim);
    let table = Step::RopeTable { half: m.half };
    let rest = forward::dense_layers(m, token_offset, layers, f, layers.len());
    let (s1, s2, s3) = (seq![embed], seq![look], seq![table]);
    assert(forward::dense_program(m, token_offset, layers, f) =~= s1 + s2 + s3 + rest);
    lemma_steps_concat(pa, s1, s2, st);
    lemma_steps_concat(pa, s1 + s2, s3, st);
    lemma_steps_concat(pa, s1 + s2 + s3, rest, st);
    lemma_one_step(pa, embed, st);
    if let Some(v) = pa.embedding {
        let a = run_step(pa, embed, st)->Some_0;
        lemma_quiet(pa, s2, a);
        lemma_one_step(pa, table, a);
        let b = run_step(pa, table, a)->Some_0;
        assert(hidden(pa, b) =~= value::cut(v, pa.width));
        if run_steps(pa, rest, b) is Some {
            let at = lemma_dense_layers(pa, m, token_offset, layers, f, b, layers.len());
            assert(dense_chain(pa, m, token_offset, layers, at, layers.len() as int));
        } else {
            let at = lemma_dense_layers_fail(pa, m, token_offset, layers, f, b, layers.len());
            assert(dense_stops(pa, m, token_offset, layers, at));
        }
    }
}

// Latent-attention models.

/// Latent attention of one layer.
pub open spec fn latent_shape(
    m: LatentModel,
    token_offset: usize,
    layer: usize,
    l: LatentLayer,
) -> mla::MlaShape {
    mla::MlaShape {
        n_heads: m.n_heads,
        kv_lora_rank: m.kv_lora_rank,
        qk_nope_head_dim: m.qk_nope_head_dim,
        qk_rope_head_dim: m.qk_rope_head_dim,
        v_head_dim: m.v_head_dim,
        q_lora_rank: m.q_lora_rank,
        embedding_dim: m.embedding_dim,
        layer,
        token_offset,
        score_len: m.score_len,
        split_kv_b: l.k_b_len > 0 && l.v_b_len > 0,
        k_norm: l.k_norm_len == m.qk_rope_head_dim,
        quant: l.attn_quant,
    }
}

/// Plain attention of one layer: queries, and keys and values side by side.
pub open spec fn plain_step(m: LatentModel, layer: usize, l: LatentLayer) -> MhaStep {
    let d = m.qk_nope_head_dim + m.qk_rope_head_dim;
    MhaStep {
        layer,
        cache_layer: l.mha_layer_idx as usize,
        q: Span { buf: Buf::QDecompressed, start: 0, len: (m.n_heads * d) as usize },
        k: Span { buf: Buf::KvDecompressed, start: 0, len: (m.n_kv_heads * d) as usize },
        v: Span {
            buf: Buf::KvDecompressed,
            start: (m.n_kv_heads * d) as usize,
            len: (m.n_kv_heads * m.v_head_dim) as usize,
        },
        quant: l.attn_quant,
    }
}

/// The experts of one layer.
pub open spec fn expert_shape(m: LatentModel, l: LatentLayer) -> MoeShape {
    MoeShape {
        n_experts: m.n_experts,
        top_k: m.top_k,
        embedding_dim: m.embedding_dim,
        expert_intermediate: m.expert_intermediate,
        quant: l.expert_quant,
        gate_bytes: l.gate_bytes,
        gate_q4k_bytes: l.gate_q4k_bytes,
        down_bytes: l.down_bytes,
        down_q4k_bytes: l.down_q4k_bytes,
    }
}

/// What the attention of a layer gives; `None` where it does not go through.
pub open spec fn latent_attn_value(
    pa: PassArith,
    m: LatentModel,
    token_offset: usize,
    layer: usize,
    l: LatentLayer,
    has_mha_cache: bool,
    st: PassState,
) -> Option<Seq<u32>> {
    let mem = attn_input(pa, layer, st);
    match l.attn {
        AttnType::Mla => {
            let s = latent_shape(m, token_offset, layer, l);
            if value_mla::mla_goes(ops_of(pa, st, layer), s, mem) {
                Some(value_mla::mla_value(ops_of(pa, st, layer), s, mem))
            } else {
                None
            }
        },
        AttnType::Mha => if has_mha_cache {
            match (pa.mha)(plain_step(m, layer, l), mem) {
                Some(k) => Some(exact::get(k, Buf::AttnOut, 0, m.embedding_dim as int)),
                None => None,
            }
        } else {
            None
        },
    }
}

/// What the feed-forward block of a layer gives for `x`; `None` where it does not go
/// through.
pub open spec fn latent_ffn_value(
    pa: PassArith,
    m: LatentModel,
    layer: usize,
    l: LatentLayer,
    st: PassState,
    x: Seq<u32>,
) -> Option<Seq<u32>> {
    let ar = ops_of(pa, st, layer);
    match l.mlp {
        MlpType::Dense => if l.dense_quant.has_kernel() {
            Some(
                mlp_value(
                    ar,
                    m.embedding_dim as int,
                    m.intermediate_dim as int,
                    FfnQuants { gate: l.dense_quant, up: l.dense_quant, down: l.dense_quant },
                    x,
                ),
            )
        } else {
            None
        },
        MlpType::MoE => if l.expert_quant.has_kernel() {
            let s = expert_shape(m, l);
            let (picked, weights) = (pa.route)(layer, s, x);
            Some(
                moe_value(
                    ar,
                    s,
                    picked,
                    |i: int|
                        if 0 <= i < weights.len() {
                            weights[i]
                        } else {
                            (st.bufs)(Buf::ExpertWeights, i)
                        },
                    x,
                    m.top_k as nat,
                ),
            )
        } else {
            None
        },
    }
}

/// The hidden state behind the attention of a layer.
pub open spec fn behind_attn(pa: PassArith, st: PassState, a: Seq<u32>) -> Seq<u32> {
    plus(pa, hidden(pa, st), a)
}

/// A layer goes through: its attention does, and its feed-forward block behind it.
pub open spec fn latent_goes(
    pa: PassArith,
    m: LatentModel,
    token_offset: usize,
    layer: usize,
    l: LatentLayer,
    has_mha_cache: bool,
    st: PassState,
) -> bool {
    match latent_attn_value(pa, m, token_offset, layer, l, has_mha_cache, st) {
        Some(a) => latent_ffn_value(
            pa,
            m,
            layer,
            l,
            st,
            block_input(pa, layer, BlockNorm::Ffn, behind_attn(pa, st, a)),
        ) is Some,
        None => false,
    }
}

/// A layer took the pass from `st` to `r`: with `x` the hidden state before and
/// `h = x + attention(norm x)`, the hidden state after is `h + feed-forward(norm h)`.
/// Latent attention leaves the token's row in the caches of the layer; those of the
/// others are as before.
pub open spec fn latent_done(
    pa: PassArith,
    m: LatentModel,
    token_offset: usize,
    layer: usize,
    l: LatentLayer,
    has_mha_cache: bool,
    st: PassState,
    r: PassState,
) -> bool {
    let a = latent_attn_value(pa, m, token_offset, layer, l, has_mha_cache, st)->Some_0;
    let h = behind_attn(pa, st, a);
    let f = latent_ffn_value(
        pa,
        m,
        layer,
        l,
        st,
        block_input(pa, layer, BlockNorm::Ffn, h),
    )->Some_0;
    &&& hidden(pa, r) == plus(pa, h, f)
    &&& l.attn is Mla ==> value_mla::mla_cached(
        ops_of(pa, st, layer),
        latent_shape(m, token_offset, layer, l),
        attn_input(pa, layer, st),
        seen_by(r, layer),
    )
    &&& forall|k: usize, b: Buf, i: int|
        k != layer || l.attn is Mha ==> #[trigger] (r.caches)(k, b, i) == (st.caches)(k, b, i)
    &&& r.table == st.table
}

/// The feed-forward block of a layer, from the state `c` that has its input.
proof fn lemma_latent_ffn(
    pa: PassArith,
    m: LatentModel,
    layer: usize,
    l: LatentLayer,
    st: PassState,
    c: PassState,
    x: Seq<u32>,
)
    requires
        pa.width == m.embedding_dim,
        exact::get(c.bufs, Buf::Norm, 0, m.embedding_dim as int) == x,
        forall|i: int|
            #[trigger] (c.bufs)(Buf::ExpertWeights, i) == (st.bufs)(Buf::ExpertWeights, i),
        c.table == st.table,
    ensures
        run_steps(pa, forward::latent_ffn(m, layer, l), c) is Some == latent_ffn_value(
            pa,
            m,
            layer,
            l,
            st,
            x,
        ) is Some,
        run_steps(pa, forward::latent_ffn(m, layer, l), c) matches Some(r) ==> {
            &&& exact::get(r.bufs, Buf::MlpOut, 0, m.embedding_dim as int) == latent_ffn_value(
                pa,
                m,
                layer,
                l,
                st,
                x,
            )->Some_0
            &&& hidden(pa, r) == hidden(pa, c)
            &&& forall|k: usize, b: Buf, i: int| #[trigger] (r.caches)(k, b, i) == (c.caches)(
                k,
                b,
                i,
            )
            &&& r.table == c.table
        },
{
    let e = m.embedding_dim;
    let ar = ops_of(pa, st, layer);
    match l.mlp {
        MlpType::Dense => {
            let t = FfnQuants { gate: l.dense_quant, up: l.dense_quant, down: l.dense_quant };
            let ops = forward::mlp_program(e, m.intermediate_dim, t, false);
            let mem = seen_by(c, layer);
            lemma_steps_of(pa, layer, ops, c);
            lemma_mlp_value(ar, e, m.intermediate_dim, t, false, mem);
            assert(exact::get(mem, Buf::Norm, 0, e as int) =~= x);
            if let Some(k) = exact::run(ar, ops, mem) {
                lemma_left(pa, layer, c, mem, k, e);
            }
        },
        MlpType::MoE => {
            let s = expert_shape(m, l);
            let clear = Step::Clear { buf: Buf::MlpOut };
            let moe = Step::Moe { layer, shape: s };
            assert(forward::latent_ffn(m, layer, l) =~= seq![clear] + seq![moe]);
            lemma_steps_concat(pa, seq![clear], seq![moe], c);
            lemma_one_step(pa, clear, c);
            let d = run_step(pa, clear, c)->Some_0;
            lemma_one_step(pa, moe, d);
            let (picked, weights) = (pa.route)(layer, s, x);
            assert(exact::get(d.bufs, Buf::Norm, 0, pa.width) =~= x);
            let mem = exact::put(
                seen_by(d, layer),
                Buf::ExpertWeights,
                0,
                weights.len() as int,
                weights,
            );
            lemma_moe_value(ar, s, picked, mem);
            assert(exact::get(mem, Buf::Norm, 0, e as int) =~= x);
            let given = |i: int|
                if 0 <= i < weights.len() {
                    weights[i]
                } else {
                    (st.bufs)(Buf::ExpertWeights, i)
                };
            assert(given =~= (|i: int| mem(Buf::ExpertWeights, i)));
            if let Some(k) = exact::run(ar, forward::moe_program(s, picked), mem) {
                lemma_left(pa, layer, d, mem, k, e);
                assert(hidden(pa, d) =~= hidden(pa, c));
            }
        },
    }
}

/// A block that writes neither the hidden state nor a cache leaves both as they were.
proof fn lemma_left(
    pa: PassArith,
    layer: usize,
    c: PassState,
    mem: spec_fn(Buf, int) -> u32,
    k: spec_fn(Buf, int) -> u32,
    e: usize,
)
    requires
        forall|i: int| #[trigger] k(Buf::Hidden, i) == mem(Buf::Hidden, i),
        forall|b: Buf, i: int| is_cache(b) ==> #[trigger] k(b, i) == mem(b, i),
        forall|b: Buf, i: int|
            b == Buf::Hidden || is_cache(b) ==> #[trigger] mem(b, i) == seen_by(c, layer)(b, i),
    ensures
        hidden(pa, left_by(c, layer, k)) == hidden(pa, c),
        forall|l: usize, b: Buf, i: int|
            #[trigger] (left_by(c, layer, k).caches)(l, b, i) == (c.caches)(l, b, i),
        left_by(c, layer, k).table == c.table,
        exact::get(left_by(c, layer, k).bufs, Buf::MlpOut, 0, e as int) == exact::get(
            k,
            Buf::MlpOut,
            0,
            e as int,
        ),
        exact::get(left_by(c, layer, k).bufs, Buf::AttnOut, 0, e as int) == exact::get(
            k,
            Buf::AttnOut,
            0,
            e as int,
        ),
{
    let r = left_by(c, layer, k);
    assert(hidden(pa, r) =~= hidden(pa, c)) by {
        assert forall|i: int| (#[trigger] (r.bufs)(Buf::Hidden, i)) == (c.bufs)(Buf::Hidden, i) by {
            assert(k(Buf::Hidden, i) == mem(Buf::Hidden, i));
        }
    }
    assert(exact::get(r.bufs, Buf::MlpOut, 0, e as int) =~= exact::get(k, Buf::MlpOut, 0, e as int));
    assert(exact::get(r.bufs, Buf::AttnOut, 0, e as int) =~= exact::get(
        k,
        Buf::AttnOut,
        0,
        e as int,
    ));
    assert forall|l: usize, b: Buf, i: int| #[trigger] (r.caches)(l, b, i) == (c.caches)(l, b, i) by {
        if l == layer && is_cache(b) {
            assert(k(b, i) == mem(b, i));
        }
    }
}

spec fn attn_steps(
    m: LatentModel,
    token_offset: usize,
    layer: usize,
    l: LatentLayer,
) -> Seq<Step> {
    match l.attn {
        AttnType::Mla => forward::steps_of(
            layer,
            mla::mla_program(m.mla(layer as int, token_offset, l)),
        ),
        AttnType::Mha => seq![Step::Mha(forward::mha_step(m, layer, l))],
    }
}

/// The attention of a layer that is not blocked, from the state `b` that has its input.
proof fn lemma_latent_attn(
    pa: PassArith,
    m: LatentModel,
    token_offset: usize,
    layer: usize,
    l: LatentLayer,
    st: PassState,
    b: PassState,
)
    requires
        pa.width == m.embedding_dim,
        m.layer_wf(token_offset, l),
        seen_by(b, layer) == attn_input(pa, layer, st),
        forall|i: int|
            #[trigger] (b.bufs)(Buf::ExpertWeights, i) == (st.bufs)(Buf::ExpertWeights, i),
        hidden(pa, b) == hidden(pa, st),
        b.caches == st.caches,
        b.table == st.table,
    ensures
        ({
            let steps = attn_steps(m, token_offset, layer, l);
            let v = latent_attn_value(pa, m, token_offset, layer, l, true, st);
            &&& run_steps(pa, steps, b) is Some == v is Some
            &&& run_steps(pa, steps, b) matches Some(r) ==> {
                &&& exact::get(r.bufs, Buf::AttnOut, 0, m.embedding_dim as int) == v->Some_0
                &&& hidden(pa, r) == hidden(pa, st)
                &&& forall|i: int|
                    #[trigger] (r.bufs)(Buf::ExpertWeights, i) == (st.bufs)(Buf::ExpertWeights, i)
                &&& l.attn is Mla ==> value_mla::mla_cached(
                    ops_of(pa, st, layer),
                    latent_shape(m, token_offset, layer, l),
                    attn_input(pa, layer, st),
                    seen_by(r, layer),
                )
                &&& forall|k: usize, c: Buf, i: int|
                    k != layer || l.attn is Mha ==> #[trigger] (r.caches)(k, c, i) == (st.caches)(
                        k,
                        c,
                        i,
                    )
                &&& r.table == st.table
            }
        }),
{
    let e = m.embedding_dim;
    let ar = ops_of(pa, st, layer);
    let mem = attn_input(pa, layer, st);
    match l.attn {
        AttnType::Mla => {
            let s = latent_shape(m, token_offset, layer, l);
            assert(s == m.mla(layer as int, token_offset, l));
            let ops = mla::mla_program(s);
            lemma_steps_of(pa, layer, ops, b);
            lemma_mla_value(ar, s, mem);
            if let Some(k) = exact::run(ar, ops, mem) {
                let r = left_by(b, layer, k);
                assert(hidden(pa, r) =~= hidden(pa, b)) by {
                    assert forall|i: int| (#[trigger] (r.bufs)(Buf::Hidden, i)) == (b.bufs)(
                        Buf::Hidden,
                        i,
                    ) by {
                        assert(k(Buf::Hidden, i) == mem(Buf::Hidden, i));
                        assert(seen_by(b, layer)(Buf::Hidden, i) == mem(Buf::Hidden, i));
                    }
                }
                assert forall|i: int| (#[trigger] (r.bufs)(Buf::ExpertWeights, i)) == (st.bufs)(
                    Buf::ExpertWeights,
                    i,
                ) by {
                    assert(k(Buf::ExpertWeights, i) == mem(Buf::ExpertWeights, i));
                    assert((b.bufs)(Buf::ExpertWeights, i) == (st.bufs)(Buf::ExpertWeights, i));
                }
                assert(exact::get(r.bufs, Buf::AttnOut, 0, e as int) =~= exact::get(
                    k,
                    Buf::AttnOut,
                    0,
                    e as int,
                ));
                lemma_mla_cached_frame(ar, s, mem, k, seen_by(r, layer));
            }
        },
        AttnType::Mha => {
            let step = Step::Mha(forward::mha_step(m, layer, l));
            assert(m.n_heads * m.head_dim() >= 0 && m.n_kv_heads * m.head_dim() >= 0);
            assert(forward::mha_step(m, layer, l) == plain_step(m, layer, l));
            lemma_one_step(pa, step, b);
            if let Some(k) = (pa.mha)(plain_step(m, layer, l), mem) {
                let r = run_step(pa, step, b)->Some_0;
                assert(hidden(pa, r) =~= hidden(pa, b));
                assert(exact::get(r.bufs, Buf::AttnOut, 0, e as int) =~= exact::get(
                    k,
                    Buf::AttnOut,
                    0,
                    e as int,
                ));
            }
        },
    }
}

proof fn lemma_mla_cached_frame(
    ar: Arith,
    s: mla::MlaShape,
    m: spec_fn(Buf, int) -> u32,
    a: spec_fn(Buf, int) -> u32,
    r: spec_fn(Buf, int) -> u32,
)
    requires
        value_mla::mla_cached(ar, s, m, a),
        forall|i: int| #[trigger] r(Buf::CKvCache, i) == a(Buf::CKvCache, i),
        forall|i: int| #[trigger] r(Buf::KRopeCache, i) == a(Buf::KRopeCache, i),
    ensures
        value_mla::mla_cached(ar, s, m, r),
{
    let t = s.token_offset as int;
    let c = s.kv_lora_rank as int;
    let p = s.qk_rope_head_dim as int;
    assert(exact::get(r, Buf::CKvCache, t * c, c) =~= exact::get(a, Buf::CKvCache, t * c, c));
    assert(exact::get(r, Buf::KRopeCache, t * p, p) =~= exact::get(a, Buf::KRopeCache, t * p, p));
}

/// From the output of attention on: both residuals and the feed-forward block.
proof fn lemma_latent_tail(
    pa: PassArith,
    m: LatentModel,
    layer: usize,
    l: LatentLayer,
    st: PassState,
    c: PassState,
)
    requires
        pa.width == m.embedding_dim,
        forall|i: int|
            #[trigger] (c.bufs)(Buf::ExpertWeights, i) == (st.bufs)(Buf::ExpertWeights, i),
        c.table == st.table,
    ensures
        ({
            let e = m.embedding_dim;
            let steps = seq![forward::residual(Buf::AttnOut, e)] + seq![
                Step::Norm { layer, w: BlockNorm::Ffn },
            ] + forward::latent_ffn(m, layer, l) + seq![forward::residual(Buf::MlpOut, e)];
            let h = plus(pa, hidden(pa, c), exact::get(c.bufs, Buf::AttnOut, 0, e as int));
            let f = latent_ffn_value(
                pa,
                m,
                layer,
                l,
                st,
                block_input(pa, layer, BlockNorm::Ffn, h),
            );
            &&& run_steps(pa, steps, c) is Some == f is Some
            &&& run_steps(pa, steps, c) matches Some(r) ==> {
                &&& hidden(pa, r) == plus(pa, h, f->Some_0)
                &&& forall|k: usize, b: Buf, i: int| #[trigger] (r.caches)(k, b, i) == (c.caches)(
                    k,
                    b,
                    i,
                )
                &&& r.table == c.table
            }
        }),
{
    let e = m.embedding_dim;
    let r1 = forward::residual(Buf::AttnOut, e);
    let n2 = Step::Norm { layer, w: BlockNorm::Ffn };
    let ffn = forward::latent_ffn(m, layer, l);
    let r2 = forward::residual(Buf::MlpOut, e);
    let (s2, s3, s4) = (seq![r1], seq![n2], seq![r2]);
    lemma_steps_concat(pa, s2, s3, c);
    lemma_steps_concat(pa, s2 + s3, ffn, c);
    lemma_steps_concat(pa, s2 + s3 + ffn, s4, c);
    lemma_one_step(pa, r1, c);
    lemma_residual_step(pa, Buf::AttnOut, e, c);
    let d = run_step(pa, r1, c)->Some_0;
    lemma_one_step(pa, n2, d);
    lemma_norm_step(pa, layer, BlockNorm::Ffn, d);
    let f = run_step(pa, n2, d)->Some_0;
    let x = block_input(pa, layer, BlockNorm::Ffn, hidden(pa, d));
    lemma_latent_ffn(pa, m, layer, l, st, f, x);
    if let Some(g) = run_steps(pa, ffn, f) {
        lemma_one_step(pa, r2, g);
        lemma_residual_step(pa, Buf::MlpOut, e, g);
    }
}

/// One layer of a latent-attention model: it goes through exactly where its blocks do,
/// and takes the hidden state `x` to `h + feed-forward(norm h)`, with
/// `h = x + attention(norm x)`.
pub proof fn lemma_latent_layer(
    pa: PassArith,
    m: LatentModel,
    token_offset: usize,
    layer: usize,
    l: LatentLayer,
    has_mha_cache: bool,
    st: PassState,
)
    requires
        pa.width == m.embedding_dim,
        !forward::blocked(l, has_mha_cache) ==> m.layer_wf(token_offset, l),
    ensures
        run_steps(pa, forward::latent_layer(m, token_offset, layer, l, has_mha_cache), st) is Some
            == latent_goes(pa, m, token_offset, layer, l, has_mha_cache, st),
        run_steps(pa, forward::latent_layer(m, token_offset, layer, l, has_mha_cache), st)
            matches Some(r) ==> latent_done(
            pa,
            m,
            token_offset,
            layer,
            l,
            has_mha_cache,
            st,
            r,
        ),
{
    let e = m.embedding_dim;
    let norm = Step::Norm { layer, w: BlockNorm::Attn };
    let s1 = seq![norm];
    lemma_one_step(pa, norm, st);
    lemma_norm_step(pa, layer, BlockNorm::Attn, st);
    let b = run_step(pa, norm, st)->Some_0;
    if forward::blocked(l, has_mha_cache) {
        let steps = forward::latent_layer(m, token_offset, layer, l, has_mha_cache);
        let fail = steps[1];
        assert(steps =~= s1 + seq![fail]);
        lemma_steps_concat(pa, s1, seq![fail], st);
        lemma_one_step(pa, fail, b);
    } else {
        let attn = attn_steps(m, token_offset, layer, l);
        let tail = seq![forward::residual(Buf::AttnOut, e)] + seq![
            Step::Norm { layer, w: BlockNorm::Ffn },
        ] + forward::latent_ffn(m, layer, l) + seq![forward::residual(Buf::MlpOut, e)];
        assert(forward::latent_layer(m, token_offset, layer, l, has_mha_cache) =~= s1 + attn
            + tail);
        lemma_steps_concat(pa, s1, attn, st);
        lemma_steps_concat(pa, s1 + attn, tail, st);
        lemma_latent_attn(pa, m, token_offset, layer, l, st, b);
        assert(latent_attn_value(pa, m, token_offset, layer, l, has_mha_cache, st)
            == latent_attn_value(pa, m, token_offset, layer, l, true, st));
        if let Some(c) = run_steps(pa, attn, b) {
            lemma_latent_tail(pa, m, layer, l, st, c);
            if let Some(r) = run_steps(pa, tail, c) {
                if l.attn is Mla {
                    lemma_mla_cached_frame(
                        ops_of(pa, st, layer),
                        latent_shape(m, token_offset, layer, l),
                        attn_input(pa, layer, st),
                        seen_by(c, layer),
                        seen_by(r, layer),
                    );
                }
                assert forall|k: usize, z: Buf, i: int| k != layer || l.attn is Mha implies
                    #[trigger] (r.caches)(k, z, i) == (st.caches)(k, z, i) by {
                    assert((c.caches)(k, z, i) == (st.caches)(k, z, i));
                }
            }
        }
    }
}

/// The first `n` layers take the pass through the states `at`.
pub open spec fn latent_chain(
    pa: PassArith,
    m: LatentModel,
    token_offset: usize,
    layers: Seq<LatentLayer>,
    has_mha_cache: bool,
    at: Seq<PassState>,
    n: int,
) -> bool {
    &&& at.len() == n + 1
    &&& forall|l: int|
        0 <= l < n ==> latent_goes(
            pa,
            m,
            token_offset,
            l as usize,
            #[trigger] layers[l],
            has_mha_cache,
            at[l],
        ) && latent_done(
            pa,
            m,
            token_offset,
            l as usize,
            layers[l],
            has_mha_cache,
            at[l],
            at[l + 1],
        )
}

/// The states `at` lead to a layer that does not go through.
pub open spec fn latent_stops(
    pa: PassArith,
    m: LatentModel,
    token_offset: usize,
    layers: Seq<LatentLayer>,
    has_mha_cache: bool,
    at: Seq<PassState>,
) -> bool {
    let l = at.len() - 1;
    &&& 0 <= l < layers.len()
    &&& latent_chain(pa, m, token_offset, layers, has_mha_cache, at, l)
    &&& !latent_goes(pa, m, token_offset, l as usize, layers[l], has_mha_cache, at[l])
}

/// The first `n` layers: they go through in order, or stop at the first that does not.
proof fn lemma_latent_layers(
    pa: PassArith,
    m: LatentModel,
    token_offset: usize,
    layers: Seq<LatentLayer>,
    has_mha_cache: bool,
    st: PassState,
    n: nat,
) -> (at: Seq<PassState>)
    requires
        pa.width == m.embedding_dim,
        m.wf(token_offset, layers, has_mha_cache),
        n <= layers.len(),
    ensures
        at.len() > 0,
        at[0] == st,
        match run_steps(pa, forward::latent_layers(m, token_offset, layers, has_mha_cache, n), st) {
            Some(r) => latent_chain(pa, m, token_offset, layers, has_mha_cache, at, n as int)
                && at[n as int] == r && !forward::any_blocked(layers, has_mha_cache, n as int),
            None => latent_stops(pa, m, token_offset, layers, has_mha_cache, at) && at.len() <= n,
        },
    decreases n,
{
    if n == 0 {
        seq![st]
    } else {
        let k = (n - 1) as nat;
        let before = forward::latent_layers(m, token_offset, layers, has_mha_cache, k);
        let l = layers[k as int];
        let last = forward::latent_layer(m, token_offset, k as usize, l, has_mha_cache);
        lemma_steps_concat(pa, before, last, st);
        let at = lemma_latent_layers(pa, m, token_offset, layers, has_mha_cache, st, k);
        if run_steps(pa, before, st) is None {
            at
        } else {
            assert(!forward::blocked(l, has_mha_cache) ==> m.layer_wf(token_offset, l)) by {
                if !forward::blocked(l, has_mha_cache) {
                    assert(!forward::any_blocked(layers, has_mha_cache, k as int + 1)) by {
                        assert forall|i: int| 0 <= i < k + 1 implies !forward::blocked(
                            #[trigger] layers[i],
                            has_mha_cache,
                        ) by {}
                    }
                }
            }
            lemma_latent_layer(pa, m, token_offset, k as usize, l, has_mha_cache, at[k as int]);
            if let Some(r) = run_steps(pa, last, at[k as int]) {
                let all = at.push(r);
                assert forall|i: int| 0 <= i < n implies latent_goes(
                    pa,
                    m,
                    token_offset,
                    i as usize,
                    #[trigger] layers[i],
                    has_mha_cache,
                    all[i],
                ) && latent_done(
                    pa,
                    m,
                    token_offset,
                    i as usize,
                    layers[i],
                    has_mha_cache,
                    all[i],
                    all[i + 1],
                ) by {
                    if i < k {
                        assert(all[i] == at[i] && all[i + 1] == at[i + 1]);
                    }
                }
                assert forall|i: int| 0 <= i < n implies !forward::blocked(
                    #[trigger] layers[i],
                    has_mha_cache,
                ) by {
                    if i == k {
                        assert(latent_goes(
                            pa,
                            m,
                            token_offset,
                            k as usize,
                            l,
                            has_mha_cache,
                            at[k as int],
                        ));
                    }
                }
                all
            } else {
                at
            }
        }
    }
}

/// The state in front of the first layer: the token's embedding where it has one, and
/// what was there where it has none.
pub open spec fn latent_start(pa: PassArith, st: PassState, a: PassState) -> bool {
    &&& hidden(pa, a) == match pa.embedding {
        Some(v) => value::cut(v, pa.width),
        None => hidden(pa, st),
    }
    &&& a.table == st.table
    &&& a.caches == st.caches
}

/// A pass through a latent-attention model: it starts from the token's embedding, and
/// every layer takes the hidden state `x` to `h + feed-forward(norm h)`, with
/// `h = x + attention(norm x)`, in order. It fails only at a layer that does not go
/// through.
pub proof fn lemma_latent_pass(
    pa: PassArith,
    m: LatentModel,
    token_offset: usize,
    layers: Seq<LatentLayer>,
    has_mha_cache: bool,
    st: PassState,
)
    requires
        pa.width == m.embedding_dim,
        m.wf(token_offset, layers, has_mha_cache),
    ensures
        match run_steps(
            pa,
            forward::latent_program(m, token_offset, layers, has_mha_cache),
            st,
        ) {
            Some(r) => exists|at: Seq<PassState>|
                {
                    &&& #[trigger] latent_chain(
                        pa,
                        m,
                        token_offset,
                        layers,
                        has_mha_cache,
                        at,
                        layers.len() as int,
                    )
                    &&& latent_start(pa, st, at[0])
                    &&& at[layers.len() as int] == r
                },
            None => exists|at: Seq<PassState>|
                #[trigger] latent_stops(pa, m, token_offset, layers, has_mha_cache, at)
                    && latent_start(pa, st, at[0]),
        },
{
    let embed = Step::Embed { fatal: false };
    let rest = forward::latent_layers(m, token_offset, layers, has_mha_cache, layers.len());
    lemma_steps_concat(pa, seq![embed], rest, st);
    lemma_one_step(pa, embed, st);
    let a = run_step(pa, embed, st)->Some_0;
    if let Some(v) = pa.embedding {
        assert(hidden(pa, a) =~= value::cut(v, pa.width));
    }
    let at = lemma_latent_layers(pa, m, token_offset, layers, has_mha_cache, a, layers.len());
    assert(latent_start(pa, st, at[0]));
}

} // verus!
