//! What tracing shows: which values stand under which label.

use crate::inference_avx512::exact;
use crate::inference_avx512::exact::Arith;
use crate::inference_avx512::plan;
use crate::inference_avx512::plan::{AttnQuants, Buf, GqaShape, Mat, NormWeight, Op, Stage};
use crate::inference_avx512::value;
use vstd::prelude::*;

verus! {

/// Values under a label.
pub struct Shown {
    pub stage: Stage,
    pub values: Seq<u32>,
}

/// What one operation shows.
pub open spec fn shown_by(op: Op, m: spec_fn(Buf, int) -> u32) -> Seq<Shown> {
    match op {
        Op::Trace { stage, at } => seq![Shown { stage, values: exact::read(m, at) }],
        _ => Seq::empty(),
    }
}

/// What the operations show, in order.
pub open spec fn shown(ar: Arith, ops: Seq<Op>, m: spec_fn(Buf, int) -> u32) -> Seq<Shown>
    decreases ops.len(),
{
    if ops.len() == 0 {
        Seq::empty()
    } else {
        shown(ar, ops.drop_last(), m) + (match exact::run(ar, ops.drop_last(), m) {
            Some(before) => shown_by(ops.last(), before),
            None => Seq::empty(),
        })
    }
}

pub proof fn lemma_shown_concat(ar: Arith, a: Seq<Op>, b: Seq<Op>, m: spec_fn(Buf, int) -> u32)
    ensures
        shown(ar, a + b, m) == shown(ar, a, m) + (match exact::run(ar, a, m) {
            Some(between) => shown(ar, b, between),
            None => Seq::empty(),
        }),
    decreases b.len(),
{
    if b.len() == 0 {
        assert(a + b =~= a);
        assert(shown(ar, a + b, m) =~= shown(ar, a, m) + Seq::<Shown>::empty());
    } else {
        let less = b.drop_last();
        lemma_shown_concat(ar, a, less, m);
        assert((a + b).drop_last() =~= a + less);
        assert((a + b).last() == b.last());
        exact::lemma_run_concat(ar, a, less, m);
        match exact::run(ar, a, m) {
            Some(k) => {
                let last = match exact::run(ar, less, k) {
                    Some(before) => shown_by(b.last(), before),
                    None => Seq::empty(),
                };
                assert(shown(ar, a, m) + shown(ar, less, k) + last =~= shown(ar, a, m) + (shown(
                    ar,
                    less,
                    k,
                ) + last));
            },
            None => {
                assert(shown(ar, a, m) + Seq::<Shown>::empty() + Seq::<Shown>::empty() =~= shown(
                    ar,
                    a,
                    m,
                ) + Seq::<Shown>::empty());
            },
        }
    }
}

/// Operations that only compute show nothing.
pub proof fn lemma_shows_nothing(ar: Arith, ops: Seq<Op>, m: spec_fn(Buf, int) -> u32)
    requires
        forall|i: int| 0 <= i < ops.len() ==> !((#[trigger] ops[i]) is Trace),
    ensures
        shown(ar, ops, m) == Seq::<Shown>::empty(),
    decreases ops.len(),
{
    if ops.len() > 0 {
        let less = ops.drop_last();
        assert forall|i: int| 0 <= i < less.len() implies !((#[trigger] less[i]) is Trace) by {
            assert(less[i] == ops[i]);
        }
        lemma_shows_nothing(ar, less, m);
        assert(!(ops[ops.len() - 1] is Trace));
        assert(Seq::<Shown>::empty() + Seq::<Shown>::empty() =~= Seq::<Shown>::empty());
    }
}

/// One look.
pub proof fn lemma_shows_one(ar: Arith, op: Op, m: spec_fn(Buf, int) -> u32)
    ensures
        shown(ar, seq![op], m) == shown_by(op, m),
{
    let one = seq![op];
    assert(one.drop_last() =~= Seq::<Op>::empty());
    reveal_with_fuel(shown, 2);
    reveal_with_fuel(exact::run, 1);
    assert(Seq::<Shown>::empty() + shown_by(op, m) =~= shown_by(op, m));
}

/// Two looks in a row.
proof fn lemma_shows_two(
    ar: Arith,
    a: Stage,
    x: Buf,
    n: int,
    b: Stage,
    y: Buf,
    k: int,
    m: spec_fn(Buf, int) -> u32,
)
    requires
        0 <= n <= usize::MAX,
        0 <= k <= usize::MAX,
    ensures
        shown(ar, seq![plan::trace(a, x, n), plan::trace(b, y, k)], m) == seq![
            Shown { stage: a, values: exact::get(m, x, 0, n) },
            Shown { stage: b, values: exact::get(m, y, 0, k) },
        ],
{
    let (p, q) = (plan::trace(a, x, n), plan::trace(b, y, k));
    assert(seq![p, q] =~= seq![p] + seq![q]);
    lemma_shown_concat(ar, seq![p], seq![q], m);
    lemma_shows_one(ar, p, m);
    lemma_shows_one(ar, q, m);
    value::lemma_traces(ar, seq![p], m);
    assert(exact::read(m, plan::span(x, 0, n)) =~= exact::get(m, x, 0, n));
    assert(exact::read(m, plan::span(y, 0, k)) =~= exact::get(m, y, 0, k));
    assert(shown_by(p, m) + shown_by(q, m) =~= seq![
        Shown { stage: a, values: exact::get(m, x, 0, n) },
        Shown { stage: b, values: exact::get(m, y, 0, k) },
    ]);
}

/// Before the heads, tracing shows the three projections, the normalised query and key
/// heads, and the turned ones.
pub open spec fn head_shows(
    ar: Arith,
    s: GqaShape,
    t: AttnQuants,
    x: Seq<u32>,
    z: Seq<Shown>,
) -> bool {
    let d = s.head_dim as int;
    let q = value::product(ar, Mat::AttnQ, t.q, s.q_dim(), x);
    let k = value::product(ar, Mat::AttnK, t.k, s.kv_dim(), x);
    let v = value::product(ar, Mat::AttnV, t.v, s.kv_dim(), x);
    &&& z.len() == 7
    &&& z[0] == (Shown { stage: Stage::QProj, values: q })
    &&& z[1] == (Shown { stage: Stage::KProj, values: k })
    &&& z[2] == (Shown { stage: Stage::VProj, values: v })
    &&& z[3].stage == Stage::QNorm && z[4].stage == Stage::KNorm
    &&& z[5].stage == Stage::QRope && z[6].stage == Stage::KRope
    &&& z[3].values.len() == s.q_dim() && z[5].values.len() == s.q_dim()
    &&& z[4].values.len() == s.kv_dim() && z[6].values.len() == s.kv_dim()
    &&& heads_of(ar, s, t, x, z[3].values, z[4].values, z[5].values, z[6].values)
}

/// The normalised and the turned query and key heads, side by side.
pub open spec fn heads_of(
    ar: Arith,
    s: GqaShape,
    t: AttnQuants,
    x: Seq<u32>,
    qn: Seq<u32>,
    kn: Seq<u32>,
    qr: Seq<u32>,
    kr: Seq<u32>,
) -> bool {
    let d = s.head_dim as int;
    let q = value::product(ar, Mat::AttnQ, t.q, s.q_dim(), x);
    let k = value::product(ar, Mat::AttnK, t.k, s.kv_dim(), x);
    &&& forall|h: int|
        0 <= h < s.n_q_heads ==> #[trigger] value::part(qn, d, h) == value::normed(
            ar,
            NormWeight::QNorm,
            value::part(q, d, h),
        )
    &&& forall|g: int|
        0 <= g < s.n_kv_heads ==> #[trigger] value::part(kn, d, g) == value::normed(
            ar,
            NormWeight::KNorm,
            value::part(k, d, g),
        )
    &&& forall|h: int|
        0 <= h < s.n_q_heads ==> #[trigger] value::part(qr, d, h) == value::new_query(
            ar,
            s,
            t,
            x,
            h,
        )
    &&& forall|g: int|
        0 <= g < s.n_kv_heads ==> #[trigger] value::part(kr, d, g) == value::new_key(
            ar,
            s,
            t,
            x,
            g,
        )
}

/// A stretch of a stretch.
proof fn lemma_part_of(m: spec_fn(Buf, int) -> u32, b: Buf, n: int, d: int, h: int)
    requires
        0 <= d,
        0 <= h < n,
    ensures
        value::part(exact::get(m, b, 0, n * d), d, h) == exact::get(m, b, h * d, d),
{
    assert(0 <= h * d && h * d + d <= n * d) by (nonlinear_arith)
        requires
            0 <= h < n,
            0 <= d,
    ;
    assert(value::part(exact::get(m, b, 0, n * d), d, h) =~= exact::get(m, b, h * d, d));
}

/// The three projections and their looks.
proof fn lemma_first_shown(
    ar: Arith,
    s: GqaShape,
    t: AttnQuants,
    fused: bool,
    m: spec_fn(Buf, int) -> u32,
)
    requires
        s.wf(),
        t.q.has_kernel() && t.k.has_kernel() && t.v.has_kernel(),
    ensures
        ({
            let x = exact::get(m, Buf::Norm, 0, s.embedding_dim as int);
            let ops = plan::qkv_ops(s, t, fused) + seq![
                plan::trace(Stage::QProj, Buf::Q, s.q_dim()),
                plan::trace(Stage::KProj, Buf::K, s.kv_dim()),
                plan::trace(Stage::VProj, Buf::V, s.kv_dim()),
            ];
            &&& exact::run(ar, ops, m) == exact::run(ar, plan::qkv_ops(s, t, false), m)
            &&& shown(ar, ops, m) == seq![
                Shown {
                    stage: Stage::QProj,
                    values: value::product(ar, Mat::AttnQ, t.q, s.q_dim(), x),
                },
                Shown {
                    stage: Stage::KProj,
                    values: value::product(ar, Mat::AttnK, t.k, s.kv_dim(), x),
                },
                Shown {
                    stage: Stage::VProj,
                    values: value::product(ar, Mat::AttnV, t.v, s.kv_dim(), x),
                },
            ]
        }),
{
    let (qd, kd) = (s.q_dim(), s.kv_dim());
    let a = plan::qkv_ops(s, t, fused);
    let q1 = plan::trace(Stage::QProj, Buf::Q, qd);
    let r1 = seq![
        plan::trace(Stage::KProj, Buf::K, kd),
        plan::trace(Stage::VProj, Buf::V, kd),
    ];
    let looks = seq![q1, r1[0], r1[1]];
    assert(qd >= 0 && kd >= 0) by (nonlinear_arith)
        requires
            qd == s.n_q_heads * s.head_dim,
            kd == s.n_kv_heads * s.head_dim,
    ;
    assert(looks =~= seq![q1] + r1);
    exact::lemma_run_concat(ar, a, looks, m);
    lemma_shown_concat(ar, a, looks, m);
    exact::lemma_fused_qkv(ar, s, t, fused, m);
    value::lemma_projections(ar, s, t, m);
    let m1 = exact::run(ar, a, m)->Some_0;
    value::lemma_traces(ar, looks, m1);
    value::lemma_traces(ar, seq![q1], m1);
    lemma_shown_concat(ar, seq![q1], r1, m1);
    lemma_shows_nothing(ar, a, m);
    lemma_shows_one(ar, q1, m1);
    lemma_shows_two(ar, Stage::KProj, Buf::K, kd, Stage::VProj, Buf::V, kd, m1);
    assert(exact::read(m1, plan::span(Buf::Q, 0, qd)) =~= exact::get(m1, Buf::Q, 0, qd));
    let x = exact::get(m, Buf::Norm, 0, s.embedding_dim as int);
    assert(shown(ar, a + looks, m) =~= seq![
        Shown { stage: Stage::QProj, values: value::product(ar, Mat::AttnQ, t.q, qd, x) },
        Shown { stage: Stage::KProj, values: value::product(ar, Mat::AttnK, t.k, kd, x) },
        Shown { stage: Stage::VProj, values: value::product(ar, Mat::AttnV, t.v, kd, x) },
    ]);
}

/// Two computations, and looks at the query and the key heads.
proof fn lemma_pair_shown(
    ar: Arith,
    s: GqaShape,
    b: Seq<Op>,
    c: Seq<Op>,
    p: Stage,
    q: Stage,
    m: spec_fn(Buf, int) -> u32,
    m2: spec_fn(Buf, int) -> u32,
    m3: spec_fn(Buf, int) -> u32,
)
    requires
        s.wf(),
        exact::run(ar, b, m) == Some(m2),
        exact::run(ar, c, m2) == Some(m3),
        forall|i: int| 0 <= i < b.len() ==> !((#[trigger] b[i]) is Trace),
        forall|i: int| 0 <= i < c.len() ==> !((#[trigger] c[i]) is Trace),
    ensures
        ({
            let ops = b + c + seq![
                plan::trace(p, Buf::QOut, s.q_dim()),
                plan::trace(q, Buf::KOut, s.kv_dim()),
            ];
            &&& exact::run(ar, ops, m) == Some(m3)
            &&& shown(ar, ops, m) == seq![
                Shown { stage: p, values: exact::get(m3, Buf::QOut, 0, s.q_dim()) },
                Shown { stage: q, values: exact::get(m3, Buf::KOut, 0, s.kv_dim()) },
            ]
        }),
{
    let (qd, kd) = (s.q_dim(), s.kv_dim());
    assert(qd >= 0 && kd >= 0) by (nonlinear_arith)
        requires
            qd == s.n_q_heads * s.head_dim,
            kd == s.n_kv_heads * s.head_dim,
    ;
    let looks = seq![plan::trace(p, Buf::QOut, qd), plan::trace(q, Buf::KOut, kd)];
    exact::lemma_run_concat(ar, b, c, m);
    exact::lemma_run_concat(ar, b + c, looks, m);
    lemma_shown_concat(ar, b, c, m);
    lemma_shown_concat(ar, b + c, looks, m);
    value::lemma_traces(ar, looks, m3);
    lemma_shows_nothing(ar, b, m);
    lemma_shows_nothing(ar, c, m2);
    lemma_shows_two(ar, p, Buf::QOut, qd, q, Buf::KOut, kd, m3);
    assert(shown(ar, b + c + looks, m) =~= shown(ar, looks, m3));
}

proof fn lemma_head_shown(
    ar: Arith,
    s: GqaShape,
    t: AttnQuants,
    fused: bool,
    m: spec_fn(Buf, int) -> u32,
)
    requires
        s.wf(),
        ar.layer == s.layer,
        value::gqa_starts(ar, s, t),
    ensures
        head_shows(
            ar,
            s,
            t,
            exact::get(m, Buf::Norm, 0, s.embedding_dim as int),
            shown(ar, plan::gqa_head(s, t, fused), m),
        ),
{
    let d = s.head_dim as int;
    let (qd, kd) = (s.q_dim(), s.kv_dim());
    let (nq, nk) = (s.n_q_heads as nat, s.n_kv_heads as nat);
    let x = exact::get(m, Buf::Norm, 0, s.embedding_dim as int);
    let one = plan::qkv_ops(s, t, fused) + seq![
        plan::trace(Stage::QProj, Buf::Q, qd),
        plan::trace(Stage::KProj, Buf::K, kd),
        plan::trace(Stage::VProj, Buf::V, kd),
    ];
    let b = plan::norm_heads(nq, d, Buf::Q, NormWeight::QNorm, Buf::QOut);
    let c = plan::norm_heads(nk, d, Buf::K, NormWeight::KNorm, Buf::KOut);
    let two = b + c + seq![
        plan::trace(Stage::QNorm, Buf::QOut, qd),
        plan::trace(Stage::KNorm, Buf::KOut, kd),
    ];
    let e = plan::rope_heads(nq, d, Buf::QOut);
    let f = plan::rope_heads(nk, d, Buf::KOut);
    let three = e + f + seq![
        plan::trace(Stage::QRope, Buf::QOut, qd),
        plan::trace(Stage::KRope, Buf::KOut, kd),
    ];
    let store = Op::StoreKv {
        layer: s.layer,
        token: s.token_offset,
        k: plan::span(Buf::KOut, 0, kd),
        v: plan::span(Buf::V, 0, kd),
    };
    assert(plan::gqa_head(s, t, fused) =~= one + two + three + seq![store]);
    assert(qd >= 0 && kd >= 0) by (nonlinear_arith)
        requires
            qd == s.n_q_heads * s.head_dim,
            kd == s.n_kv_heads * s.head_dim,
    ;
    lemma_first_shown(ar, s, t, fused, m);
    value::lemma_projections(ar, s, t, m);
    let m1 = exact::run(ar, one, m)->Some_0;
    let q = value::product(ar, Mat::AttnQ, t.q, qd, x);
    let k = value::product(ar, Mat::AttnK, t.k, kd, x);
    value::lemma_norm_heads(ar, m1, nq, d, Buf::Q, NormWeight::QNorm, Buf::QOut, q);
    let m2 = exact::run(ar, b, m1)->Some_0;
    assert(exact::get(m2, Buf::K, 0, kd) =~= k);
    value::lemma_norm_heads(ar, m2, nk, d, Buf::K, NormWeight::KNorm, Buf::KOut, k);
    let m3 = exact::run(ar, c, m2)->Some_0;
    lemma_pair_shown(ar, s, b, c, Stage::QNorm, Stage::KNorm, m1, m2, m3);
    value::lemma_rope_heads(ar, m3, nq, d, Buf::QOut);
    let m4 = exact::run(ar, e, m3)->Some_0;
    value::lemma_rope_heads(ar, m4, nk, d, Buf::KOut);
    let m5 = exact::run(ar, f, m4)->Some_0;
    lemma_pair_shown(ar, s, e, f, Stage::QRope, Stage::KRope, m3, m4, m5);
    exact::lemma_run_concat(ar, one, two, m);
    exact::lemma_run_concat(ar, one + two, three, m);
    lemma_shown_concat(ar, one, two, m);
    lemma_shown_concat(ar, one + two, three, m);
    lemma_shown_concat(ar, one + two + three, seq![store], m);
    lemma_shows_nothing(ar, seq![store], m5);
    lemma_heads_of(ar, s, t, x, m2, m3, m4, m5);
    let z = shown(ar, plan::gqa_head(s, t, fused), m);
    assert(z =~= shown(ar, one, m) + shown(ar, two, m1) + shown(ar, three, m3));
}

/// The stretches of what is shown are the heads.
proof fn lemma_heads_of(
    ar: Arith,
    s: GqaShape,
    t: AttnQuants,
    x: Seq<u32>,
    m2: spec_fn(Buf, int) -> u32,
    m3: spec_fn(Buf, int) -> u32,
    m4: spec_fn(Buf, int) -> u32,
    m5: spec_fn(Buf, int) -> u32,
)
    requires
        ({
            let d = s.head_dim as int;
            let q = value::product(ar, Mat::AttnQ, t.q, s.q_dim(), x);
            let k = value::product(ar, Mat::AttnK, t.k, s.kv_dim(), x);
            &&& forall|h: int|
                0 <= h < s.n_q_heads ==> exact::get(m2, Buf::QOut, #[trigger] (0 + h * d), d)
                    == value::normed(ar, NormWeight::QNorm, value::part(q, d, h))
            &&& forall|h: int|
                0 <= h < s.n_kv_heads ==> exact::get(m3, Buf::KOut, #[trigger] (0 + h * d), d)
                    == value::normed(ar, NormWeight::KNorm, value::part(k, d, h))
            &&& forall|c: Buf, i: int| c != Buf::KOut ==> #[trigger] m3(c, i) == m2(c, i)
            &&& forall|h: int|
                0 <= h < s.n_q_heads ==> exact::get(m4, Buf::QOut, #[trigger] (0 + h * d), d)
                    == value::turned(ar, exact::get(m3, Buf::QOut, h * d, d))
            &&& forall|c: Buf, i: int| c != Buf::QOut ==> #[trigger] m4(c, i) == m3(c, i)
            &&& forall|h: int|
                0 <= h < s.n_kv_heads ==> exact::get(m5, Buf::KOut, #[trigger] (0 + h * d), d)
                    == value::turned(ar, exact::get(m4, Buf::KOut, h * d, d))
            &&& forall|c: Buf, i: int| c != Buf::KOut ==> #[trigger] m5(c, i) == m4(c, i)
        }),
    ensures
        heads_of(
            ar,
            s,
            t,
            x,
            exact::get(m3, Buf::QOut, 0, s.q_dim()),
            exact::get(m3, Buf::KOut, 0, s.kv_dim()),
            exact::get(m5, Buf::QOut, 0, s.q_dim()),
            exact::get(m5, Buf::KOut, 0, s.kv_dim()),
        ),
{
    let d = s.head_dim as int;
    let q = value::product(ar, Mat::AttnQ, t.q, s.q_dim(), x);
    let k = value::product(ar, Mat::AttnK, t.k, s.kv_dim(), x);
    let (qn, kn) = (
        exact::get(m3, Buf::QOut, 0, s.q_dim()),
        exact::get(m3, Buf::KOut, 0, s.kv_dim()),
    );
    let (qr, kr) = (
        exact::get(m5, Buf::QOut, 0, s.q_dim()),
        exact::get(m5, Buf::KOut, 0, s.kv_dim()),
    );
    assert forall|h: int| 0 <= h < s.n_q_heads implies #[trigger] value::part(qn, d, h)
        == value::normed(ar, NormWeight::QNorm, value::part(q, d, h)) by {
        lemma_part_of(m3, Buf::QOut, s.n_q_heads as int, d, h);
        assert(exact::get(m3, Buf::QOut, h * d, d) =~= exact::get(m2, Buf::QOut, 0 + h * d, d));
    }
    assert forall|g: int| 0 <= g < s.n_kv_heads implies #[trigger] value::part(kn, d, g)
        == value::normed(ar, NormWeight::KNorm, value::part(k, d, g)) by {
        lemma_part_of(m3, Buf::KOut, s.n_kv_heads as int, d, g);
        assert(exact::get(m3, Buf::KOut, 0 + g * d, d) =~= exact::get(m3, Buf::KOut, g * d, d));
    }
    assert forall|h: int| 0 <= h < s.n_q_heads implies #[trigger] value::part(qr, d, h)
        == value::new_query(ar, s, t, x, h) by {
        lemma_part_of(m5, Buf::QOut, s.n_q_heads as int, d, h);
        assert(exact::get(m3, Buf::QOut, h * d, d) =~= exact::get(m2, Buf::QOut, 0 + h * d, d));
        assert(exact::get(m5, Buf::QOut, h * d, d) =~= exact::get(m4, Buf::QOut, 0 + h * d, d));
    }
    assert forall|g: int| 0 <= g < s.n_kv_heads implies #[trigger] value::part(kr, d, g)
        == value::new_key(ar, s, t, x, g) by {
        lemma_part_of(m5, Buf::KOut, s.n_kv_heads as int, d, g);
        assert(exact::get(m3, Buf::KOut, 0 + g * d, d) =~= exact::get(m4, Buf::KOut, g * d, d));
        assert(exact::get(m5, Buf::KOut, 0 + g * d, d) =~= exact::get(m5, Buf::KOut, g * d, d));
    }
}

/// One head shows its scores.
proof fn lemma_score_shown(
    ar: Arith,
    s: GqaShape,
    k: int,
    a: spec_fn(Buf, int) -> u32,
    b: spec_fn(Buf, int) -> u32,
)
    requires
        s.wf(),
        0 <= k < s.n_q_heads,
        forall|c: Buf, i: int|
            c != Buf::Score && c != Buf::Head && c != Buf::Concat ==> #[trigger] b(c, i) == a(c, i),
        exact::run(ar, plan::sequential_head(s, k), b) is Some,
    ensures
        shown(ar, plan::sequential_head(s, k), b) == seq![
            Shown {
                stage: Stage::Score,
                values: exact::scores(
                    ar,
                    exact::read(a, plan::span(Buf::QOut, k * s.head_dim, s.head_dim as int)),
                    a,
                    exact::cache_of(s, k, Buf::KCache),
                ),
            },
        ],
{
    let d = s.head_dim as int;
    let n = s.tokens();
    let score = plan::head_score(s, k, 0);
    let look = plan::trace(Stage::Score, Buf::Score, n);
    let rest = plan::head_rest(s, k, 0, plan::span(Buf::Head, 0, d)).push(
        Op::Copy { from: plan::span(Buf::Head, 0, d), to: plan::span(Buf::Concat, k * d, d) },
    );
    assert(plan::sequential_head(s, k) =~= seq![score] + seq![look] + rest);
    lemma_shown_concat(ar, seq![score], seq![look], b);
    lemma_shown_concat(ar, seq![score] + seq![look], rest, b);
    exact::lemma_run_concat(ar, seq![score], seq![look], b);
    exact::lemma_run_one(ar, score, b);
    let c = exact::run_op(ar, score, b)->Some_0;
    exact::lemma_run_one(ar, look, c);
    lemma_shows_nothing(ar, seq![score], b);
    lemma_shows_one(ar, look, c);
    lemma_shows_nothing(ar, rest, c);
    let kc = exact::cache_of(s, k, Buf::KCache);
    let q = plan::span(Buf::QOut, k * d, d);
    assert(exact::read(b, q) =~= exact::read(a, q));
    assert forall|i: int| exact::stretch(b, kc, i) == #[trigger] exact::stretch(a, kc, i) by {
        assert(exact::stretch(b, kc, i) =~= exact::stretch(a, kc, i));
    }
    let v = exact::scores(ar, exact::read(a, q), a, kc);
    assert(exact::scores(ar, exact::read(b, q), b, kc) =~= v);
    assert(exact::read(c, plan::span(Buf::Score, 0, n)) =~= v);
    assert(shown(ar, plan::sequential_head(s, k), b) =~= seq![
        Shown { stage: Stage::Score, values: v },
    ]);
}

proof fn lemma_scores_shown(ar: Arith, s: GqaShape, n: nat, a: spec_fn(Buf, int) -> u32)
    requires
        s.wf(),
        n <= s.n_q_heads,
        exact::run(ar, plan::sequential_heads(s, 0, n), a) is Some,
    ensures
        shown(ar, plan::sequential_heads(s, 0, n), a).len() == n,
        forall|h: int|
            0 <= h < n ==> #[trigger] shown(ar, plan::sequential_heads(s, 0, n), a)[h] == (Shown {
                stage: Stage::Score,
                values: exact::scores(
                    ar,
                    exact::read(a, plan::span(Buf::QOut, h * s.head_dim, s.head_dim as int)),
                    a,
                    exact::cache_of(s, h, Buf::KCache),
                ),
            }),
    decreases n,
{
    if n > 0 {
        let k = n - 1;
        let before = plan::sequential_heads(s, 0, k as nat);
        let last = plan::sequential_head(s, k);
        exact::lemma_run_concat(ar, before, last, a);
        lemma_shown_concat(ar, before, last, a);
        value::lemma_sequential_values(ar, s, k as nat, a);
        lemma_scores_shown(ar, s, k as nat, a);
        let b = exact::run(ar, before, a)->Some_0;
        lemma_score_shown(ar, s, k, a, b);
    }
}

proof fn lemma_parallel_shows_nothing(
    ar: Arith,
    s: GqaShape,
    n: nat,
    a: spec_fn(Buf, int) -> u32,
)
    ensures
        shown(ar, plan::parallel_heads(s, 0, n), a) == Seq::<Shown>::empty(),
    decreases n,
{
    if n > 0 {
        let before = plan::parallel_heads(s, 0, (n - 1) as nat);
        let last = plan::parallel_head(s, n - 1);
        lemma_parallel_shows_nothing(ar, s, (n - 1) as nat, a);
        lemma_shown_concat(ar, before, last, a);
        if let Some(b) = exact::run(ar, before, a) {
            lemma_shows_nothing(ar, last, b);
        }
        assert(Seq::<Shown>::empty() + Seq::<Shown>::empty() =~= Seq::<Shown>::empty());
    }
}

/// The heads side by side.
proof fn lemma_all_attended(
    ar: Arith,
    s: GqaShape,
    t: AttnQuants,
    m: spec_fn(Buf, int) -> u32,
    r: spec_fn(Buf, int) -> u32,
)
    requires
        forall|h: int|
            #![trigger value::attended(ar, s, t, m, h)]
            0 <= h < s.n_q_heads ==> Some(
                exact::get(r, Buf::Concat, h * s.head_dim, s.head_dim as int),
            ) == value::attended(ar, s, t, m, h),
    ensures
        exact::get(r, Buf::Concat, 0, s.q_dim()) == value::all_attended(ar, s, t, m),
{
    let d = s.head_dim as int;
    let all = value::all_attended(ar, s, t, m);
    let got = exact::get(r, Buf::Concat, 0, s.q_dim());
    assert forall|i: int| 0 <= i < s.q_dim() implies got[i] == all[i] by {
        assert(d > 0) by (nonlinear_arith)
            requires
                0 <= i < s.n_q_heads * d,
                d >= 0,
        ;
        let h = i / d;
        vstd::arithmetic::div_mod::lemma_fundamental_div_mod(i, d);
        vstd::arithmetic::div_mod::lemma_mod_bound(i, d);
        assert(0 <= h < s.n_q_heads && h * d + i % d == i) by (nonlinear_arith)
            requires
                i == d * h + i % d,
                0 <= i % d < d,
                0 <= i < s.n_q_heads * d,
        ;
        assert(Some(exact::get(r, Buf::Concat, h * s.head_dim, d)) == value::attended(
            ar,
            s,
            t,
            m,
            h,
        ));
        assert(exact::get(r, Buf::Concat, h * d, d)[i % d] == r(Buf::Concat, h * d + i % d));
    }
    assert(got =~= all);
}

/// What tracing shows of attention that goes through: the projections, the normalised
/// and the turned heads; where the heads run one after the other also the scores of each
/// head before they become weights, what all heads attend to, and the output.
pub proof fn lemma_gqa_shown(
    ar: Arith,
    s: GqaShape,
    t: AttnQuants,
    fused: bool,
    min_tokens: usize,
    n_cores: usize,
    m: spec_fn(Buf, int) -> u32,
)
    requires
        s.wf(),
        ar.layer == s.layer,
        value::gqa_goes(ar, s, t, m),
    ensures
        ({
            let z = shown(ar, plan::gqa_program(s, t, fused, min_tokens, n_cores), m);
            let x = exact::get(m, Buf::Norm, 0, s.embedding_dim as int);
            let n = s.n_q_heads as int;
            &&& z.len() >= 7
            &&& head_shows(ar, s, t, x, z.take(7))
            &&& if plan::fans_out(s, min_tokens, n_cores) {
                z.len() == 7
            } else {
                &&& z.len() == n + 9
                &&& forall|h: int|
                    #![trigger value::scores_for(ar, s, t, m, h)]
                    0 <= h < n ==> z[7 + h] == (Shown {
                        stage: Stage::Score,
                        values: value::scores_for(ar, s, t, m, h),
                    })
                &&& z[n + 7] == (Shown {
                    stage: Stage::AttnConcat,
                    values: value::all_attended(ar, s, t, m),
                })
                &&& z[n + 8] == (Shown {
                    stage: Stage::OProj,
                    values: value::gqa_value(ar, s, t, m),
                })
            }
        }),
{
    let x = exact::get(m, Buf::Norm, 0, s.embedding_dim as int);
    let head = plan::gqa_head(s, t, fused);
    let nq = s.n_q_heads as nat;
    let out = plan::gqa_out(s, t);
    let ops = plan::gqa_program(s, t, fused, min_tokens, n_cores);
    let z = shown(ar, ops, m);
    lemma_head_shown(ar, s, t, fused, m);
    exact::lemma_fused_head(ar, s, t, fused, false, m);
    value::lemma_gqa_head(ar, s, t, m);
    value::lemma_gqa_value(ar, s, t, fused, min_tokens, n_cores, m);
    let first = shown(ar, head, m);
    let a = exact::run(ar, head, m)->Some_0;
    if plan::fans_out(s, min_tokens, n_cores) {
        let heads = plan::parallel_heads(s, 0, nq);
        lemma_shown_concat(ar, head, heads, m);
        lemma_shown_concat(ar, head + heads, seq![out], m);
        lemma_parallel_shows_nothing(ar, s, nq, a);
        if let Some(b) = exact::run(ar, head + heads, m) {
            lemma_shows_nothing(ar, seq![out], b);
        }
        assert(z =~= first);
        assert(z.take(7) =~= first);
    } else {
        lemma_sequential_shown(ar, s, t, m, a, head);
    }
}

proof fn lemma_sequential_shown(
    ar: Arith,
    s: GqaShape,
    t: AttnQuants,
    m: spec_fn(Buf, int) -> u32,
    a: spec_fn(Buf, int) -> u32,
    head: Seq<Op>,
)
    requires
        s.wf(),
        exact::run(ar, head, m) == Some(a),
        value::gqa_cached(ar, s, t, m, a),
        ({
            let x = exact::get(m, Buf::Norm, 0, s.embedding_dim as int);
            forall|h: int|
                #![trigger value::new_query(ar, s, t, x, h)]
                0 <= h < s.n_q_heads ==> exact::get(
                    a,
                    Buf::QOut,
                    h * s.head_dim,
                    s.head_dim as int,
                ) == value::new_query(ar, s, t, x, h)
        }),
        ({
            let ops = head + plan::sequential_heads(s, 0, s.n_q_heads as nat) + seq![
                plan::trace(Stage::AttnConcat, Buf::Concat, s.q_dim()),
                plan::gqa_out(s, t),
                plan::trace(Stage::OProj, Buf::AttnOut, s.embedding_dim as int),
            ];
            exact::run(ar, ops, m) matches Some(r) && {
                &&& forall|h: int|
                    #![trigger value::attended(ar, s, t, m, h)]
                    0 <= h < s.n_q_heads ==> Some(
                        exact::get(r, Buf::Concat, h * s.head_dim, s.head_dim as int),
                    ) == value::attended(ar, s, t, m, h)
                &&& exact::get(r, Buf::AttnOut, 0, s.embedding_dim as int) == value::gqa_value(
                    ar,
                    s,
                    t,
                    m,
                )
            }
        }),
    ensures
        ({
            let ops = head + plan::sequential_heads(s, 0, s.n_q_heads as nat) + seq![
                plan::trace(Stage::AttnConcat, Buf::Concat, s.q_dim()),
                plan::gqa_out(s, t),
                plan::trace(Stage::OProj, Buf::AttnOut, s.embedding_dim as int),
            ];
            let z = shown(ar, ops, m);
            let first = shown(ar, head, m);
            let k = first.len() as int;
            let n = s.n_q_heads as int;
            &&& z.len() == k + n + 2
            &&& z.take(k) == first
            &&& forall|h: int|
                #![trigger value::scores_for(ar, s, t, m, h)]
                0 <= h < n ==> z[k + h] == (Shown {
                    stage: Stage::Score,
                    values: value::scores_for(ar, s, t, m, h),
                })
            &&& z[k + n] == (Shown {
                stage: Stage::AttnConcat,
                values: value::all_attended(ar, s, t, m),
            })
            &&& z[k + n + 1] == (Shown {
                stage: Stage::OProj,
                values: value::gqa_value(ar, s, t, m),
            })
        }),
{
    let e = s.embedding_dim as int;
    let d = s.head_dim as int;
    let nq = s.n_q_heads as nat;
    let x = exact::get(m, Buf::Norm, 0, e);
    let heads = plan::sequential_heads(s, 0, nq);
    let p = plan::trace(Stage::AttnConcat, Buf::Concat, s.q_dim());
    let out = plan::gqa_out(s, t);
    let q = plan::trace(Stage::OProj, Buf::AttnOut, e);
    let end = seq![p, out, q];
    let ops = head + heads + end;
    assert(s.q_dim() >= 0) by (nonlinear_arith)
        requires
            s.q_dim() == s.n_q_heads * s.head_dim,
    ;
    let r = exact::run(ar, ops, m)->Some_0;
    exact::lemma_run_concat(ar, head, heads, m);
    exact::lemma_run_concat(ar, head + heads, end, m);
    lemma_shown_concat(ar, head, heads, m);
    lemma_shown_concat(ar, head + heads, end, m);
    let b = exact::run(ar, heads, a)->Some_0;
    lemma_scores_shown(ar, s, nq, a);
    assert(end =~= seq![p] + seq![out] + seq![q]);
    lemma_shown_concat(ar, seq![p], seq![out], b);
    lemma_shown_concat(ar, seq![p] + seq![out], seq![q], b);
    exact::lemma_run_concat(ar, seq![p], seq![out], b);
    exact::lemma_run_concat(ar, seq![p] + seq![out], seq![q], b);
    exact::lemma_run_one(ar, p, b);
    exact::lemma_run_one(ar, out, b);
    let c = exact::run_op(ar, out, b)->Some_0;
    exact::lemma_run_one(ar, q, c);
    assert(c == r);
    lemma_shows_one(ar, p, b);
    lemma_shows_nothing(ar, seq![out], b);
    lemma_shows_one(ar, q, c);
    lemma_all_attended(ar, s, t, m, r);
    assert(exact::read(b, plan::span(Buf::Concat, 0, s.q_dim())) =~= exact::get(
        r,
        Buf::Concat,
        0,
        s.q_dim(),
    ));
    assert(exact::read(c, plan::span(Buf::AttnOut, 0, e)) =~= exact::get(r, Buf::AttnOut, 0, e));
    let first = shown(ar, head, m);
    let scores = shown(ar, heads, a);
    let z = shown(ar, ops, m);
    assert(z =~= first + scores + (shown_by(p, b) + shown_by(q, c)));
    assert(z.take(first.len() as int) =~= first);
    assert forall|h: int|
        #![trigger value::scores_for(ar, s, t, m, h)]
        0 <= h < nq implies z[first.len() + h] == (Shown {
        stage: Stage::Score,
        values: value::scores_for(ar, s, t, m, h),
    }) by {
        assert(value::new_query(ar, s, t, x, h) == value::new_query(ar, s, t, x, h));
        value::lemma_head_sees(ar, s, t, m, a, h);
        assert(z[first.len() + h] == scores[h]);
    }
}

} // verus!
