//! What tracing and the checks for finite values see of a pass.

use crate::inference_avx512::exact;
use crate::inference_avx512::forward;
use crate::inference_avx512::forward::{BlockNorm, DenseModel, Fanout, LayerQuants, Step};
use crate::inference_avx512::plan;
use crate::inference_avx512::plan::{Buf, Mat, Op, Stage};
use crate::inference_avx512::value;
use crate::inference_avx512::value_pass;
use crate::inference_avx512::value_pass::{PassArith, PassState};
use crate::inference_avx512::value_trace;
use crate::inference_avx512::value_trace::Shown;
use vstd::prelude::*;

verus! {

/// Values of a layer under a label.
pub struct Look {
    pub layer: usize,
    pub stage: Stage,
    pub values: Seq<u32>,
}

/// What is seen at one step.
pub open spec fn look_at(pa: PassArith, step: Step, st: PassState) -> Seq<Look> {
    match step {
        Step::Diag { layer, stage, buf } => seq![
            Look { layer, stage, values: exact::get(st.bufs, buf, 0, pa.width) },
        ],
        Step::Run { layer, op } => under(
            layer,
            value_trace::shown_by(op, value_pass::seen_by(st, layer)),
        ),
        _ => Seq::empty(),
    }
}

/// What operations of a layer show.
pub open spec fn under(layer: usize, z: Seq<Shown>) -> Seq<Look> {
    Seq::new(z.len(), |i: int| Look { layer, stage: z[i].stage, values: z[i].values })
}

/// What is seen at the steps, in order.
pub open spec fn looks(pa: PassArith, steps: Seq<Step>, st: PassState) -> Seq<Look>
    decreases steps.len(),
{
    if steps.len() == 0 {
        Seq::empty()
    } else {
        looks(pa, steps.drop_last(), st) + (match value_pass::run_steps(pa, steps.drop_last(), st) {
            Some(before) => look_at(pa, steps.last(), before),
            None => Seq::empty(),
        })
    }
}

pub proof fn lemma_looks_concat(pa: PassArith, a: Seq<Step>, b: Seq<Step>, st: PassState)
    ensures
        looks(pa, a + b, st) == looks(pa, a, st) + (match value_pass::run_steps(pa, a, st) {
            Some(between) => looks(pa, b, between),
            None => Seq::empty(),
        }),
    decreases b.len(),
{
    if b.len() == 0 {
        assert(a + b =~= a);
        assert(looks(pa, a + b, st) =~= looks(pa, a, st) + Seq::<Look>::empty());
    } else {
        let less = b.drop_last();
        lemma_looks_concat(pa, a, less, st);
        assert((a + b).drop_last() =~= a + less);
        assert((a + b).last() == b.last());
        value_pass::lemma_steps_concat(pa, a, less, st);
        match value_pass::run_steps(pa, a, st) {
            Some(k) => {
                let last = match value_pass::run_steps(pa, less, k) {
                    Some(before) => look_at(pa, b.last(), before),
                    None => Seq::empty(),
                };
                assert(looks(pa, a, st) + looks(pa, less, k) + last =~= looks(pa, a, st) + (looks(
                    pa,
                    less,
                    k,
                ) + last));
            },
            None => {
                assert(looks(pa, a, st) + Seq::<Look>::empty() + Seq::<Look>::empty() =~= looks(
                    pa,
                    a,
                    st,
                ) + Seq::<Look>::empty());
            },
        }
    }
}

proof fn lemma_one_look(pa: PassArith, step: Step, st: PassState)
    ensures
        looks(pa, seq![step], st) == look_at(pa, step, st),
{
    let one = seq![step];
    assert(one.drop_last() =~= Seq::<Step>::empty());
    reveal_with_fuel(looks, 2);
    reveal_with_fuel(value_pass::run_steps, 1);
    assert(Seq::<Look>::empty() + look_at(pa, step, st) =~= look_at(pa, step, st));
}

/// Looks in a row all see the same state.
proof fn lemma_quiet_looks(pa: PassArith, steps: Seq<Step>, st: PassState)
    requires
        forall|i: int| 0 <= i < steps.len() ==> value_pass::is_quiet(#[trigger] steps[i]),
    ensures
        looks(pa, steps, st).len() == steps.len(),
        forall|i: int|
            0 <= i < steps.len() ==> #[trigger] looks(pa, steps, st)[i] == look_at(
                pa,
                steps[i],
                st,
            )[0],
        value_pass::run_steps(pa, steps, st) == Some(st),
    decreases steps.len(),
{
    value_pass::lemma_quiet(pa, steps, st);
    if steps.len() > 0 {
        let less = steps.drop_last();
        assert forall|i: int| 0 <= i < less.len() implies value_pass::is_quiet(
            #[trigger] less[i],
        ) by {
            assert(less[i] == steps[i]);
        }
        lemma_quiet_looks(pa, less, st);
        assert(steps.last() == steps[steps.len() - 1]);
        let z = looks(pa, steps, st);
        assert(look_at(pa, steps.last(), st).len() == 1);
        assert forall|i: int| 0 <= i < steps.len() implies #[trigger] z[i] == look_at(
            pa,
            steps[i],
            st,
        )[0] by {
            if i < less.len() {
                assert(z[i] == looks(pa, less, st)[i]);
                assert(less[i] == steps[i]);
            }
        }
    }
}

/// The operations of a layer are seen as they show themselves.
proof fn lemma_looks_of(pa: PassArith, layer: usize, ops: Seq<Op>, st: PassState)
    ensures
        looks(pa, forward::steps_of(layer, ops), st) == under(
            layer,
            value_trace::shown(
                value_pass::ops_of(pa, st, layer),
                ops,
                value_pass::seen_by(st, layer),
            ),
        ),
    decreases ops.len(),
{
    let ar = value_pass::ops_of(pa, st, layer);
    let m = value_pass::seen_by(st, layer);
    let steps = forward::steps_of(layer, ops);
    if ops.len() == 0 {
        assert(looks(pa, steps, st) =~= under(layer, value_trace::shown(ar, ops, m)));
    } else {
        let less = ops.drop_last();
        lemma_looks_of(pa, layer, less, st);
        value_pass::lemma_steps_of(pa, layer, less, st);
        assert(steps.drop_last() =~= forward::steps_of(layer, less));
        assert(steps.last() == (Step::Run { layer, op: ops.last() }));
        let z = value_trace::shown(ar, less, m);
        match exact::run(ar, less, m) {
            Some(k) => {
                assert(value_pass::seen_by(value_pass::left_by(st, layer, k), layer) =~= k);
                let last = value_trace::shown_by(ops.last(), k);
                assert(under(layer, z) + under(layer, last) =~= under(layer, z + last));
            },
            None => {
                assert(under(layer, z) + Seq::<Look>::empty() =~= under(
                    layer,
                    z + Seq::<Shown>::empty(),
                ));
            },
        }
    }
}

/// The first residual and the input of the feed-forward block.
proof fn lemma_first_looks(pa: PassArith, layer: usize, e: usize, a: PassState)
    requires
        pa.width == e,
    ensures
        ({
            let steps = seq![
                forward::residual(Buf::AttnOut, e),
                Step::Diag { layer, stage: Stage::AttnOut, buf: Buf::AttnOut },
                Step::Diag { layer, stage: Stage::PostAttnResidual, buf: Buf::Hidden },
                forward::run_trace(layer, Stage::PostAttn, Buf::Hidden, e),
                Step::Norm { layer, w: BlockNorm::Ffn },
                forward::run_trace(layer, Stage::FfnNorm, Buf::Norm, e),
            ];
            let out = exact::get(a.bufs, Buf::AttnOut, 0, e as int);
            let h = value_pass::plus(pa, value_pass::hidden(pa, a), out);
            let x = value_pass::block_input(pa, layer, BlockNorm::Ffn, h);
            &&& looks(pa, steps, a) == seq![
                Look { layer, stage: Stage::AttnOut, values: out },
                Look { layer, stage: Stage::PostAttnResidual, values: h },
                Look { layer, stage: Stage::PostAttn, values: h },
                Look { layer, stage: Stage::FfnNorm, values: x },
            ]
            &&& value_pass::run_steps(pa, steps, a) matches Some(c) && {
                &&& value_pass::hidden(pa, c) == h
                &&& exact::get(value_pass::seen_by(c, layer), Buf::Norm, 0, e as int) == x
                &&& c.table == a.table
            }
        }),
{
    let r1 = forward::residual(Buf::AttnOut, e);
    let q1 = seq![
        Step::Diag { layer, stage: Stage::AttnOut, buf: Buf::AttnOut },
        Step::Diag { layer, stage: Stage::PostAttnResidual, buf: Buf::Hidden },
        forward::run_trace(layer, Stage::PostAttn, Buf::Hidden, e),
    ];
    let norm = Step::Norm { layer, w: BlockNorm::Ffn };
    let q2 = seq![forward::run_trace(layer, Stage::FfnNorm, Buf::Norm, e)];
    let (s1, s2) = (seq![r1], seq![norm]);
    let one = s1 + q1 + s2 + q2;
    let h = value_pass::plus(
        pa,
        value_pass::hidden(pa, a),
        exact::get(a.bufs, Buf::AttnOut, 0, e as int),
    );
    let x = value_pass::block_input(pa, layer, BlockNorm::Ffn, h);
    assert(seq![r1, q1[0], q1[1], q1[2], norm, q2[0]] =~= one);
    value_pass::lemma_steps_concat(pa, s1, q1, a);
    value_pass::lemma_steps_concat(pa, s1 + q1, s2, a);
    value_pass::lemma_steps_concat(pa, s1 + q1 + s2, q2, a);
    lemma_looks_concat(pa, s1, q1, a);
    lemma_looks_concat(pa, s1 + q1, s2, a);
    lemma_looks_concat(pa, s1 + q1 + s2, q2, a);
    value_pass::lemma_one_step(pa, r1, a);
    value_pass::lemma_residual_step(pa, Buf::AttnOut, e, a);
    lemma_one_look(pa, r1, a);
    let b = value_pass::run_step(pa, r1, a)->Some_0;
    lemma_quiet_looks(pa, q1, b);
    value_pass::lemma_one_step(pa, norm, b);
    value_pass::lemma_norm_step(pa, layer, BlockNorm::Ffn, b);
    lemma_one_look(pa, norm, b);
    let c = value_pass::run_step(pa, norm, b)->Some_0;
    lemma_quiet_looks(pa, q2, c);
    lemma_front(pa, layer, e, a, b, c, h, x);
    assert(looks(pa, one, a) =~= seq![
        look_at(pa, q1[0], b)[0],
        look_at(pa, q1[1], b)[0],
        look_at(pa, q1[2], b)[0],
        look_at(pa, q2[0], c)[0],
    ]);
    assert(exact::get(value_pass::seen_by(c, layer), Buf::Norm, 0, e as int) =~= x);
}

/// The feed-forward block.
proof fn lemma_ffn_looks(
    pa: PassArith,
    layer: usize,
    e: usize,
    n: usize,
    t: LayerQuants,
    fused: bool,
    c: PassState,
    x: Seq<u32>,
)
    requires
        pa.width == e,
        t.ffn.gate.has_kernel() && t.ffn.up.has_kernel() && t.ffn.down.has_kernel(),
        exact::get(value_pass::seen_by(c, layer), Buf::Norm, 0, e as int) == x,
    ensures
        ({
            let ar = value_pass::ops_of(pa, c, layer);
            let steps = forward::steps_of(layer, forward::mlp_program(e, n, t.ffn, fused)) + seq![
                forward::run_trace(layer, Stage::MlpGate, Buf::Gate, n),
                forward::run_trace(layer, Stage::MlpUp, Buf::Up, n),
                forward::run_trace(layer, Stage::MlpSiluUp, Buf::HiddenMlp, n),
                forward::run_trace(layer, Stage::MlpOut, Buf::MlpOut, e),
            ];
            let g = value::product(ar, Mat::FfnGate, t.ffn.gate, n as int, x);
            let u = value::product(ar, Mat::FfnUp, t.ffn.up, n as int, x);
            let f = value_pass::mlp_value(ar, e as int, n as int, t.ffn, x);
            &&& looks(pa, steps, c) == seq![
                Look { layer, stage: Stage::MlpGate, values: g },
                Look { layer, stage: Stage::MlpUp, values: u },
                Look {
                    layer,
                    stage: Stage::MlpSiluUp,
                    values: value::cut((ar.silu_mul)(g, u), n as int),
                },
                Look { layer, stage: Stage::MlpOut, values: f },
            ]
            &&& value_pass::run_steps(pa, steps, c) matches Some(d) && {
                &&& value_pass::hidden(pa, d) == value_pass::hidden(pa, c)
                &&& exact::get(d.bufs, Buf::MlpOut, 0, e as int) == f
            }
        }),
{
    let ar = value_pass::ops_of(pa, c, layer);
    let ops = forward::mlp_program(e, n, t.ffn, fused);
    let ffn = forward::steps_of(layer, ops);
    let q3 = seq![
        forward::run_trace(layer, Stage::MlpGate, Buf::Gate, n),
        forward::run_trace(layer, Stage::MlpUp, Buf::Up, n),
        forward::run_trace(layer, Stage::MlpSiluUp, Buf::HiddenMlp, n),
        forward::run_trace(layer, Stage::MlpOut, Buf::MlpOut, e),
    ];
    value_pass::lemma_steps_of(pa, layer, ops, c);
    let mem = value_pass::seen_by(c, layer);
    value_pass::lemma_mlp_value(ar, e, n, t.ffn, fused, mem);
    let k = exact::run(ar, ops, mem)->Some_0;
    let d = value_pass::left_by(c, layer, k);
    lemma_looks_of(pa, layer, ops, c);
    lemma_mlp_shows_nothing(ar, e, n, t, fused, mem);
    value_pass::lemma_steps_concat(pa, ffn, q3, c);
    lemma_looks_concat(pa, ffn, q3, c);
    lemma_quiet_looks(pa, q3, d);
    assert(under(layer, Seq::<Shown>::empty()) =~= Seq::<Look>::empty());
    lemma_middle(layer, e, n, c, d, k);
    assert(looks(pa, ffn + q3, c) =~= seq![
        look_at(pa, q3[0], d)[0],
        look_at(pa, q3[1], d)[0],
        look_at(pa, q3[2], d)[0],
        look_at(pa, q3[3], d)[0],
    ]);
    assert(value_pass::hidden(pa, d) =~= value_pass::hidden(pa, c)) by {
        assert forall|i: int| (#[trigger] (d.bufs)(Buf::Hidden, i)) == (c.bufs)(
            Buf::Hidden,
            i,
        ) by {
            assert(k(Buf::Hidden, i) == mem(Buf::Hidden, i));
        }
    }
}

/// The second residual.
proof fn lemma_last_looks(pa: PassArith, layer: usize, e: usize, d: PassState)
    requires
        pa.width == e,
    ensures
        ({
            let steps = seq![
                forward::residual(Buf::MlpOut, e),
                Step::Diag { layer, stage: Stage::MlpOut, buf: Buf::MlpOut },
                Step::Diag { layer, stage: Stage::PostMlpResidual, buf: Buf::Hidden },
                forward::run_trace(layer, Stage::PostMlp, Buf::Hidden, e),
            ];
            let f = exact::get(d.bufs, Buf::MlpOut, 0, e as int);
            let r = value_pass::plus(pa, value_pass::hidden(pa, d), f);
            looks(pa, steps, d) == seq![
                Look { layer, stage: Stage::MlpOut, values: f },
                Look { layer, stage: Stage::PostMlpResidual, values: r },
                Look { layer, stage: Stage::PostMlp, values: r },
            ]
        }),
{
    let r2 = forward::residual(Buf::MlpOut, e);
    let q4 = seq![
        Step::Diag { layer, stage: Stage::MlpOut, buf: Buf::MlpOut },
        Step::Diag { layer, stage: Stage::PostMlpResidual, buf: Buf::Hidden },
        forward::run_trace(layer, Stage::PostMlp, Buf::Hidden, e),
    ];
    let s3 = seq![r2];
    assert(seq![r2, q4[0], q4[1], q4[2]] =~= s3 + q4);
    value_pass::lemma_one_step(pa, r2, d);
    value_pass::lemma_residual_step(pa, Buf::MlpOut, e, d);
    lemma_one_look(pa, r2, d);
    let r = value_pass::run_step(pa, r2, d)->Some_0;
    value_pass::lemma_steps_concat(pa, s3, q4, d);
    lemma_looks_concat(pa, s3, q4, d);
    lemma_quiet_looks(pa, q4, r);
    lemma_back(pa, layer, e, d, r);
    assert(looks(pa, s3 + q4, d) =~= seq![
        look_at(pa, q4[0], r)[0],
        look_at(pa, q4[1], r)[0],
        look_at(pa, q4[2], r)[0],
    ]);
}

/// From the output of attention on.
proof fn lemma_tail_looks(
    pa: PassArith,
    m: DenseModel,
    layer: usize,
    t: LayerQuants,
    fused: bool,
    a: PassState,
)
    requires
        pa.width == m.embedding_dim,
        t.ffn.gate.has_kernel() && t.ffn.up.has_kernel() && t.ffn.down.has_kernel(),
    ensures
        looks(pa, tail_steps(m, layer, t, fused), a) == tail_looks(
            pa,
            m,
            layer,
            t,
            a.table,
            value_pass::hidden(pa, a),
            exact::get(a.bufs, Buf::AttnOut, 0, m.embedding_dim as int),
        ),
{
    let e = m.embedding_dim;
    let n = m.intermediate_dim;
    let one = seq![
        forward::residual(Buf::AttnOut, e),
        Step::Diag { layer, stage: Stage::AttnOut, buf: Buf::AttnOut },
        Step::Diag { layer, stage: Stage::PostAttnResidual, buf: Buf::Hidden },
        forward::run_trace(layer, Stage::PostAttn, Buf::Hidden, e),
        Step::Norm { layer, w: BlockNorm::Ffn },
        forward::run_trace(layer, Stage::FfnNorm, Buf::Norm, e),
    ];
    let two = forward::steps_of(layer, forward::mlp_program(e, n, t.ffn, fused)) + seq![
        forward::run_trace(layer, Stage::MlpGate, Buf::Gate, n),
        forward::run_trace(layer, Stage::MlpUp, Buf::Up, n),
        forward::run_trace(layer, Stage::MlpSiluUp, Buf::HiddenMlp, n),
        forward::run_trace(layer, Stage::MlpOut, Buf::MlpOut, e),
    ];
    let three = seq![
        forward::residual(Buf::MlpOut, e),
        Step::Diag { layer, stage: Stage::MlpOut, buf: Buf::MlpOut },
        Step::Diag { layer, stage: Stage::PostMlpResidual, buf: Buf::Hidden },
        forward::run_trace(layer, Stage::PostMlp, Buf::Hidden, e),
    ];
    assert(tail_steps(m, layer, t, fused) =~= one + two + three);
    lemma_first_looks(pa, layer, e, a);
    let c = value_pass::run_steps(pa, one, a)->Some_0;
    let h = value_pass::hidden(pa, c);
    let x = value_pass::block_input(pa, layer, BlockNorm::Ffn, h);
    lemma_ffn_looks(pa, layer, e, n, t, fused, c, x);
    let d = value_pass::run_steps(pa, two, c)->Some_0;
    lemma_last_looks(pa, layer, e, d);
    value_pass::lemma_steps_concat(pa, one, two, a);
    lemma_looks_concat(pa, one, two, a);
    lemma_looks_concat(pa, one + two, three, a);
    assert(looks(pa, one, a) + looks(pa, two, c) + looks(pa, three, d) =~= tail_looks(
        pa,
        m,
        layer,
        t,
        a.table,
        value_pass::hidden(pa, a),
        exact::get(a.bufs, Buf::AttnOut, 0, e as int),
    ));
}

spec fn tail_steps(m: DenseModel, layer: usize, t: LayerQuants, fused: bool) -> Seq<Step> {
    let e = m.embedding_dim;
    let n = m.intermediate_dim;
    seq![
        forward::residual(Buf::AttnOut, e),
        Step::Diag { layer, stage: Stage::AttnOut, buf: Buf::AttnOut },
        Step::Diag { layer, stage: Stage::PostAttnResidual, buf: Buf::Hidden },
        forward::run_trace(layer, Stage::PostAttn, Buf::Hidden, e),
        Step::Norm { layer, w: BlockNorm::Ffn },
        forward::run_trace(layer, Stage::FfnNorm, Buf::Norm, e),
    ] + forward::steps_of(layer, forward::mlp_program(e, n, t.ffn, fused)) + seq![
        forward::run_trace(layer, Stage::MlpGate, Buf::Gate, n),
        forward::run_trace(layer, Stage::MlpUp, Buf::Up, n),
        forward::run_trace(layer, Stage::MlpSiluUp, Buf::HiddenMlp, n),
        forward::run_trace(layer, Stage::MlpOut, Buf::MlpOut, e),
        forward::residual(Buf::MlpOut, e),
        Step::Diag { layer, stage: Stage::MlpOut, buf: Buf::MlpOut },
        Step::Diag { layer, stage: Stage::PostMlpResidual, buf: Buf::Hidden },
        forward::run_trace(layer, Stage::PostMlp, Buf::Hidden, e),
    ]
}

proof fn lemma_front(
    pa: PassArith,
    layer: usize,
    e: usize,
    a: PassState,
    b: PassState,
    c: PassState,
    h: Seq<u32>,
    x: Seq<u32>,
)
    requires
        pa.width == e,
        value_pass::hidden(pa, b) == h,
        forall|k: Buf, i: int| k != Buf::Hidden ==> #[trigger] (b.bufs)(k, i) == (a.bufs)(k, i),
        exact::get(c.bufs, Buf::Norm, 0, pa.width) == x,
    ensures
        look_at(pa, Step::Diag { layer, stage: Stage::AttnOut, buf: Buf::AttnOut }, b)[0] == (Look {
            layer,
            stage: Stage::AttnOut,
            values: exact::get(a.bufs, Buf::AttnOut, 0, e as int),
        }),
        look_at(
            pa,
            Step::Diag { layer, stage: Stage::PostAttnResidual, buf: Buf::Hidden },
            b,
        )[0] == (Look { layer, stage: Stage::PostAttnResidual, values: h }),
        look_at(pa, forward::run_trace(layer, Stage::PostAttn, Buf::Hidden, e), b)[0] == (Look {
            layer,
            stage: Stage::PostAttn,
            values: h,
        }),
        look_at(pa, forward::run_trace(layer, Stage::FfnNorm, Buf::Norm, e), c)[0] == (Look {
            layer,
            stage: Stage::FfnNorm,
            values: x,
        }),
{
    assert(exact::get(b.bufs, Buf::AttnOut, 0, e as int) =~= exact::get(
        a.bufs,
        Buf::AttnOut,
        0,
        e as int,
    ));
    assert(exact::read(
        value_pass::seen_by(b, layer),
        plan::span(Buf::Hidden, 0, e as int),
    ) =~= h);
    assert(exact::read(value_pass::seen_by(c, layer), plan::span(Buf::Norm, 0, e as int)) =~= x);
}

proof fn lemma_middle(
    layer: usize,
    e: usize,
    n: usize,
    c: PassState,
    d: PassState,
    k: spec_fn(Buf, int) -> u32,
)
    requires
        d == value_pass::left_by(c, layer, k),
    ensures
        exact::read(value_pass::seen_by(d, layer), plan::span(Buf::Gate, 0, n as int))
            == exact::get(k, Buf::Gate, 0, n as int),
        exact::read(value_pass::seen_by(d, layer), plan::span(Buf::Up, 0, n as int)) == exact::get(
            k,
            Buf::Up,
            0,
            n as int,
        ),
        exact::read(value_pass::seen_by(d, layer), plan::span(Buf::HiddenMlp, 0, n as int))
            == exact::get(k, Buf::HiddenMlp, 0, n as int),
        exact::read(value_pass::seen_by(d, layer), plan::span(Buf::MlpOut, 0, e as int))
            == exact::get(k, Buf::MlpOut, 0, e as int),
        exact::get(d.bufs, Buf::MlpOut, 0, e as int) == exact::get(k, Buf::MlpOut, 0, e as int),
{
    let s = value_pass::seen_by(d, layer);
    assert(exact::read(s, plan::span(Buf::Gate, 0, n as int)) =~= exact::get(
        k,
        Buf::Gate,
        0,
        n as int,
    ));
    assert(exact::read(s, plan::span(Buf::Up, 0, n as int)) =~= exact::get(
        k,
        Buf::Up,
        0,
        n as int,
    ));
    assert(exact::read(s, plan::span(Buf::HiddenMlp, 0, n as int)) =~= exact::get(
        k,
        Buf::HiddenMlp,
        0,
        n as int,
    ));
    assert(exact::read(s, plan::span(Buf::MlpOut, 0, e as int)) =~= exact::get(
        k,
        Buf::MlpOut,
        0,
        e as int,
    ));
    assert(exact::get(d.bufs, Buf::MlpOut, 0, e as int) =~= exact::get(
        k,
        Buf::MlpOut,
        0,
        e as int,
    ));
}

proof fn lemma_back(pa: PassArith, layer: usize, e: usize, d: PassState, r: PassState)
    requires
        pa.width == e,
        forall|k: Buf, i: int| k != Buf::Hidden ==> #[trigger] (r.bufs)(k, i) == (d.bufs)(k, i),
    ensures
        exact::get(r.bufs, Buf::MlpOut, 0, pa.width) == exact::get(
            d.bufs,
            Buf::MlpOut,
            0,
            e as int,
        ),
        exact::read(value_pass::seen_by(r, layer), plan::span(Buf::Hidden, 0, e as int))
            == value_pass::hidden(pa, r),
{
    assert(exact::get(r.bufs, Buf::MlpOut, 0, pa.width) =~= exact::get(
        d.bufs,
        Buf::MlpOut,
        0,
        e as int,
    ));
    assert(exact::read(value_pass::seen_by(r, layer), plan::span(Buf::Hidden, 0, e as int))
        =~= value_pass::hidden(pa, r));
}

proof fn lemma_mlp_shows_nothing(
    ar: exact::Arith,
    e: usize,
    n: usize,
    t: LayerQuants,
    fused: bool,
    m: spec_fn(Buf, int) -> u32,
)
    ensures
        value_trace::shown(ar, forward::mlp_program(e, n, t.ffn, fused), m) == Seq::<
            Shown,
        >::empty(),
{
    let ops = forward::mlp_program(e, n, t.ffn, fused);
    assert forall|i: int| 0 <= i < ops.len() implies !((#[trigger] ops[i]) is Trace) by {}
    value_trace::lemma_shows_nothing(ar, ops, m);
}

/// What is seen of a layer behind its attention, which gave `a` for the hidden state
/// `x0`: the output of attention, the hidden state with it, twice; the input of the
/// feed-forward block, its gate, its other half, their product, and its output, twice;
/// and the hidden state with that, twice.
pub open spec fn tail_looks(
    pa: PassArith,
    m: DenseModel,
    layer: usize,
    t: LayerQuants,
    table: Option<usize>,
    x0: Seq<u32>,
    a: Seq<u32>,
) -> Seq<Look> {
    let e = m.embedding_dim as int;
    let n = m.intermediate_dim as int;
    let ar = exact::Arith { layer, ..(pa.ops)(layer, table) };
    let h = value_pass::plus(pa, x0, a);
    let x = value_pass::block_input(pa, layer, BlockNorm::Ffn, h);
    let g = value::product(ar, Mat::FfnGate, t.ffn.gate, n, x);
    let u = value::product(ar, Mat::FfnUp, t.ffn.up, n, x);
    let f = value_pass::mlp_value(ar, e, n, t.ffn, x);
    let r = value_pass::plus(pa, h, f);
    seq![
        Look { layer, stage: Stage::AttnOut, values: a },
        Look { layer, stage: Stage::PostAttnResidual, values: h },
        Look { layer, stage: Stage::PostAttn, values: h },
        Look { layer, stage: Stage::FfnNorm, values: x },
        Look { layer, stage: Stage::MlpGate, values: g },
        Look { layer, stage: Stage::MlpUp, values: u },
        Look { layer, stage: Stage::MlpSiluUp, values: value::cut((ar.silu_mul)(g, u), n) },
        Look { layer, stage: Stage::MlpOut, values: f },
        Look { layer, stage: Stage::MlpOut, values: f },
        Look { layer, stage: Stage::PostMlpResidual, values: r },
        Look { layer, stage: Stage::PostMlp, values: r },
    ]
}

/// What is seen of a layer that goes through: the input of its attention, twice; what
/// attention shows; and what comes behind it.
pub proof fn lemma_dense_layer_looks(
    pa: PassArith,
    m: DenseModel,
    token_offset: usize,
    layer: usize,
    t: LayerQuants,
    f: Fanout,
    st: PassState,
)
    requires
        pa.width == m.embedding_dim,
        m.attn(0, token_offset).wf(),
        value_pass::dense_goes(pa, m, token_offset, layer, t, st),
    ensures
        ({
            let ar = value_pass::ops_of(pa, st, layer);
            let s = value_pass::dense_shape(m, token_offset, layer);
            let mem = value_pass::attn_input(pa, layer, st);
            let x = value_pass::block_input(
                pa,
                layer,
                BlockNorm::Attn,
                value_pass::hidden(pa, st),
            );
            looks(pa, forward::dense_layer(m, token_offset, layer, t, f), st) == seq![
                Look { layer, stage: Stage::AttnNormIn, values: x },
                Look { layer, stage: Stage::AttnNorm, values: x },
            ] + under(
                layer,
                value_trace::shown(
                    ar,
                    plan::gqa_program(s, t.attn, f.fused, f.min_tokens, f.n_cores),
                    mem,
                ),
            ) + tail_looks(
                pa,
                m,
                layer,
                t,
                st.table,
                value_pass::hidden(pa, st),
                value::gqa_value(ar, s, t.attn, mem),
            )
        }),
{
    let e = m.embedding_dim;
    let ar = value_pass::ops_of(pa, st, layer);
    let s = value_pass::dense_shape(m, token_offset, layer);
    let norm = Step::Norm { layer, w: BlockNorm::Attn };
    let q1 = seq![
        Step::Diag { layer, stage: Stage::AttnNormIn, buf: Buf::Norm },
        forward::run_trace(layer, Stage::AttnNorm, Buf::Norm, e),
    ];
    let ops = plan::gqa_program(s, t.attn, f.fused, f.min_tokens, f.n_cores);
    let attn = forward::steps_of(layer, ops);
    let tail = tail_steps(m, layer, t, f.fused);
    let s1 = seq![norm];
    let mem = value_pass::attn_input(pa, layer, st);
    let x = value_pass::block_input(pa, layer, BlockNorm::Attn, value_pass::hidden(pa, st));
    assert(s == m.attn(layer as int, token_offset));
    assert(forward::dense_layer(m, token_offset, layer, t, f) =~= s1 + q1 + attn + tail);
    value_pass::lemma_steps_concat(pa, s1, q1, st);
    value_pass::lemma_steps_concat(pa, s1 + q1, attn, st);
    lemma_looks_concat(pa, s1, q1, st);
    lemma_looks_concat(pa, s1 + q1, attn, st);
    lemma_looks_concat(pa, s1 + q1 + attn, tail, st);
    value_pass::lemma_one_step(pa, norm, st);
    value_pass::lemma_norm_step(pa, layer, BlockNorm::Attn, st);
    lemma_one_look(pa, norm, st);
    let b = value_pass::run_step(pa, norm, st)->Some_0;
    lemma_quiet_looks(pa, q1, b);
    assert(exact::read(value_pass::seen_by(b, layer), plan::span(Buf::Norm, 0, e as int)) =~= x);
    assert(looks(pa, s1 + q1, st) =~= seq![
        Look { layer, stage: Stage::AttnNormIn, values: x },
        Look { layer, stage: Stage::AttnNorm, values: x },
    ]);
    value_pass::lemma_steps_of(pa, layer, ops, b);
    lemma_looks_of(pa, layer, ops, b);
    value::lemma_gqa_value(ar, s, t.attn, f.fused, f.min_tokens, f.n_cores, mem);
    let k = exact::run(ar, ops, mem)->Some_0;
    let c = value_pass::left_by(b, layer, k);
    lemma_tail_looks(pa, m, layer, t, f.fused, c);
    assert(value_pass::hidden(pa, c) =~= value_pass::hidden(pa, st)) by {
        assert forall|i: int| (#[trigger] (c.bufs)(Buf::Hidden, i)) == (st.bufs)(
            Buf::Hidden,
            i,
        ) by {
            assert(k(Buf::Hidden, i) == mem(Buf::Hidden, i));
        }
    }
    assert(exact::get(c.bufs, Buf::AttnOut, 0, e as int) =~= exact::get(
        k,
        Buf::AttnOut,
        0,
        e as int,
    ));
}

/// The first thing that is seen of a pass is the token's embedding.
pub proof fn lemma_embedding_seen(
    pa: PassArith,
    m: DenseModel,
    token_offset: usize,
    layers: Seq<LayerQuants>,
    f: Fanout,
    st: PassState,
)
    requires
        pa.width == m.embedding_dim,
        pa.embedding is Some,
    ensures
        ({
            let z = looks(pa, forward::dense_program(m, token_offset, layers, f), st);
            z.len() > 0 && z[0] == (Look {
                layer: 0,
                stage: Stage::Embed,
                values: value::cut(pa.embedding->Some_0, pa.width),
            })
        }),
{
    let e = m.embedding_dim;
    let embed = Step::Embed { fatal: true };
    let look = forward::run_trace(0, Stage::Embed, Buf::Hidden, e);
    let table = Step::RopeTable { half: m.half };
    let rest = seq![table] + forward::dense_layers(m, token_offset, layers, f, layers.len());
    let (s1, s2) = (seq![embed], seq![look]);
    assert(forward::dense_program(m, token_offset, layers, f) =~= s1 + s2 + rest);
    lemma_looks_concat(pa, s1, s2, st);
    lemma_looks_concat(pa, s1 + s2, rest, st);
    lemma_one_look(pa, embed, st);
    value_pass::lemma_one_step(pa, embed, st);
    let a = value_pass::run_step(pa, embed, st)->Some_0;
    lemma_one_look(pa, look, a);
    assert(exact::read(value_pass::seen_by(a, 0), plan::span(Buf::Hidden, 0, e as int))
        =~= value::cut(pa.embedding->Some_0, pa.width));
    assert(looks(pa, s1 + s2, st)[0] == look_at(pa, look, a)[0]);
}

} // verus!
