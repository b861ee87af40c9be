use zero_kernel::arch::x86_64::math::linear::Layout;
use zero_kernel::inference_avx512::dispatch::plan_linear;
use zero_kernel::inference_avx512::announce::{
    announce, Announced, CoreCounts, Dispatch, MatmulDispatch,
};
use zero_kernel::inference_avx512::argmax::{
    argmax_f32_avx512, argmax_range, head_token, lm_argmax_pack, lm_argmax_propose,
    lm_argmax_unpack, lm_head_argmax_avx512, lm_head_argmax_kernel, lm_head_linear_argmax_dispatch,
    LmHeadError, RowRange, LM_ARGMAX_INIT,
};
use zero_kernel::inference_avx512::f32bits::{eq, finite, gt, infinite, nan, order_key};
use zero_kernel::inference_avx512::forward::{
    attention_failed, expert_swiglu_avx512, forward_single_token_avx512,
    forward_single_token_deepseek2_avx512, latent_pass_fits, mlp_swiglu_avx512, moe_ffn_avx512,
    self_test_input, smp_dispatch_self_test, AttnType, BlockNorm, Deepseek2ForwardError,
    DenseModel, Fanout, FfnQuants, LatentLayer, LatentModel, LayerQuants, MlaError, MlpType,
    MoeShape, Step,
};
use zero_kernel::inference_avx512::fused::{
    fused_linear_kernel, linear_fused_dispatch, FusedSegment, SegmentRows,
};
use zero_kernel::inference_avx512::mla::{mla_attention_avx512, MlaShape};
use zero_kernel::inference_avx512::plan::{
    attn_heads_kernel, gqa_attention_single_token_avx512, AttnQuants, Buf, GqaShape, Mat, Op,
    Projection, Span, Stage,
};
use zero_kernel::inference_avx512::{
    attn_parallel_min_tokens, avx512_trace_enabled, count_dispatch, finite_diag,
    first_nonfinite_detail, fused_dispatch_enabled, fused_quant_supported, linear_dispatch_avx512,
    lm_head_argmax_quant_supported, perf_counters_snapshot, record_first_nonfinite,
    reset_attn_parallel_min_tokens, reset_perf_counters, score_is_printed,
    set_attn_parallel_min_tokens, set_avx512_trace_enabled, set_fused_dispatch_enabled, trace_stats, vec_stats,
    Avx512PerfCounters, Counted, GgmlType, InferenceState, LinearDispatchAvx512Error,
};

fn bits(v: &[f32]) -> Vec<u32> {
    v.iter().map(|x| x.to_bits()).collect()
}

fn rows(start: usize, end: usize) -> RowRange {
    RowRange { start, end }
}

// Numbers as bits.

#[test]
fn bit_comparisons_agree_with_numbers() {
    let v = [
        0.0f32,
        -0.0,
        1.0,
        -1.0,
        f32::MIN_POSITIVE / 4.0,
        f32::MAX,
        f32::MIN,
        f32::INFINITY,
        f32::NEG_INFINITY,
        f32::NAN,
        -f32::NAN,
        3.5,
    ];
    for a in v {
        assert_eq!(nan(a.to_bits()), a.is_nan());
        assert_eq!(infinite(a.to_bits()), a.is_infinite());
        assert_eq!(finite(a.to_bits()), a.is_finite());
        for b in v {
            assert_eq!(gt(a.to_bits(), b.to_bits()), a > b);
            assert_eq!(eq(a.to_bits(), b.to_bits()), a == b);
            if !a.is_nan() && !b.is_nan() {
                assert_eq!(order_key(a.to_bits()) < order_key(b.to_bits()), a < b);
            }
        }
    }
}

#[test]
fn greatest_value_and_first_place() {
    let v = bits(&[1.0, 5.0, f32::NAN, 5.0, -2.0]);
    assert_eq!(argmax_f32_avx512(&v), (1, 5.0f32.to_bits()));
    assert_eq!(argmax_range(&v, 2, 5), (3, 5.0f32.to_bits()));
    assert_eq!(argmax_f32_avx512(&[]), (0, f32::NEG_INFINITY.to_bits()));
    let lost = bits(&[f32::NAN, f32::NAN]);
    assert_eq!(argmax_f32_avx512(&lost), (0, f32::NEG_INFINITY.to_bits()));
    let zeros = bits(&[-0.0, 0.0]);
    assert_eq!(argmax_f32_avx512(&zeros).0, 0);
}

#[test]
fn candidates_merge_in_any_order() {
    let v = bits(&[0.5, 3.0, -1.0, 3.0, 2.0, f32::NAN, 2.5]);
    let parts = [rows(0, 2), rows(2, 4), rows(4, 7)];
    let orders = [[0, 1, 2], [2, 1, 0], [1, 2, 0]];
    for order in orders {
        let mut slot = LM_ARGMAX_INIT;
        for i in order {
            slot = lm_head_argmax_kernel(slot, &v, parts[i]);
        }
        assert_eq!(lm_argmax_unpack(slot), (3.0f32.to_bits(), 1));
        let ranges: Vec<RowRange> = order.iter().map(|i| parts[*i]).collect();
        assert_eq!(lm_head_linear_argmax_dispatch(&v, &ranges), (1, 3.0f32.to_bits()));
    }
    assert_eq!(lm_argmax_unpack(lm_argmax_pack(7, 9)), (7, 9));
    let slot = lm_argmax_pack(2.0f32.to_bits(), 5);
    assert_eq!(lm_argmax_propose(slot, 2.0f32.to_bits(), 6), slot);
    assert_eq!(lm_argmax_unpack(lm_argmax_propose(slot, 2.0f32.to_bits(), 4)).1, 4);
    assert_eq!(lm_argmax_propose(slot, f32::NAN.to_bits(), 0), slot);
}

#[test]
fn merges_at_negative_infinity_name_a_row() {
    let low = f32::NEG_INFINITY;
    let parts = vec![rows(4, 6), rows(2, 2), rows(2, 4), rows(0, 2)];
    let v = bits(&[low; 6]);
    assert_eq!(lm_head_linear_argmax_dispatch(&v, &parts), (0, low.to_bits()));
    let v = bits(&[f32::NAN; 6]);
    assert_eq!(lm_head_linear_argmax_dispatch(&v, &parts), (0, low.to_bits()));
    // A range names its first number, or its start where it has none.
    let v = bits(&[f32::NAN, low, f32::NAN, f32::NAN, low, low]);
    assert_eq!(lm_head_linear_argmax_dispatch(&v, &parts), (1, low.to_bits()));
    let tail = vec![rows(4, 6), rows(2, 4)];
    assert_eq!(lm_head_linear_argmax_dispatch(&v, &tail), (2, low.to_bits()));
    assert_eq!(lm_head_linear_argmax_dispatch(&v, &vec![]), (u32::MAX as usize, low.to_bits()));
}

#[test]
fn head_result() {
    let v = bits(&[0.5, 3.0, -1.0, 9.0]);
    let all = vec![rows(0, 2), rows(2, 4)];
    assert_eq!(lm_head_argmax_avx512(&v, &all, GgmlType::Q6K, 4), Ok(3));
    assert_eq!(lm_head_argmax_avx512(&v, &all, GgmlType::F32, 4), Ok(3));
    assert_eq!(
        lm_head_argmax_avx512(&v, &all, GgmlType::Q6K, 3),
        Err(LmHeadError::ArgmaxInPaddingRegion(3))
    );
    let v = bits(&[f32::NAN; 4]);
    assert_eq!(
        lm_head_argmax_avx512(&v, &all, GgmlType::Q6K, 3),
        Err(LmHeadError::NonFiniteLogits)
    );
    assert_eq!(head_token(2, f32::INFINITY.to_bits(), 9), Err(LmHeadError::NonFiniteLogits));
    assert_eq!(head_token(2, 0, 9), Ok(2));
}

// State and diagnostics.

#[test]
fn switches_and_counters() {
    let mut s = InferenceState::new();
    assert!(fused_dispatch_enabled(&s) && avx512_trace_enabled(&s));
    assert!(!set_fused_dispatch_enabled(&mut s, false));
    assert!(!set_avx512_trace_enabled(&mut s, false));
    assert!(!fused_dispatch_enabled(&s) && !avx512_trace_enabled(&s));
    assert_eq!(attn_parallel_min_tokens(&s), 64);
    let set = set_attn_parallel_min_tokens(&mut s, 0);
    assert_eq!(attn_parallel_min_tokens(&s), set);
    assert_eq!(set_attn_parallel_min_tokens(&mut s, 9), 9);
    assert_eq!(reset_attn_parallel_min_tokens(&mut s), 64);
    count_dispatch(&mut s, Counted::Kernel(Layout::Q4K), 10, 25);
    let before = perf_counters_snapshot(&s);
    count_dispatch(&mut s, Counted::Kernel(Layout::Q4K), u64::MAX, 4);
    count_dispatch(&mut s, Counted::Kernel(Layout::Q6K), 0, 2);
    count_dispatch(&mut s, Counted::Fused, 0, 3);
    count_dispatch(&mut s, Counted::LmHead, 0, 4);
    count_dispatch(&mut s, Counted::ParallelAttention, 0, 6);
    count_dispatch(&mut s, Counted::Kernel(Layout::Q4_0X4), 0, 7);
    count_dispatch(&mut s, Counted::Kernel(Layout::Q8_0), 0, 8);
    let d = perf_counters_snapshot(&s).delta_since(before);
    assert_eq!((d.q4k_calls, d.q4k_cycles), (1, 5));
    assert_eq!((d.q6k_calls, d.q6k_cycles), (1, 2));
    assert_eq!((d.fused_cycles, d.lm_head_cycles, d.attn_par_cycles), (3, 4, 6));
    assert_eq!((s.q4_0_calls, s.q4_0_cycles, s.q8_0_cycles), (1, 7, 8));
    assert!(before.delta_since(before) == Avx512PerfCounters::default());
    // A counter that ran backwards counts as no difference.
    assert_eq!(before.delta_since(perf_counters_snapshot(&s)).q4k_cycles, 0);
    reset_perf_counters(&mut s);
    assert!(perf_counters_snapshot(&s) == Avx512PerfCounters::default());
}

#[test]
fn first_bad_stage_is_kept() {
    let mut s = InferenceState::new();
    let mut buf = [b'.'; 32];
    assert_eq!(first_nonfinite_detail(&s, &mut buf), 0);
    record_first_nonfinite(&mut s, 0, "q_proj", 2048, 0);
    record_first_nonfinite(&mut s, 9, "later", 1, 1);
    let n = first_nonfinite_detail(&s, &mut buf);
    assert_eq!(&buf[..n], b"L00 q_proj n2048 i0");
    assert_eq!(buf[n], b'.');
    let mut s = InferenceState::new();
    record_first_nonfinite(&mut s, 123, "a_very_long_stage_name_indeed", 1, 2);
    let n = first_nonfinite_detail(&s, &mut buf);
    assert_eq!(&buf[..n], b"L123 a_very_long_stage_name_inde");
}

#[test]
fn finite_diagnostic_speaks_once() {
    let mut s = InferenceState::new();
    assert_eq!(finite_diag(&mut s, &bits(&[1.0, 2.0]), 3, "embed"), None);
    let bad = bits(&[1.0, f32::INFINITY, f32::NAN]);
    assert_eq!(
        finite_diag(&mut s, &bad, 3, "embed"),
        Some(String::from(
            "[MP3.0][FINITE-DIAG] first non-finite: layer=3 stage=embed idx=1 bits=0x7f800000 (fused_dispatch=true)\n"
        ))
    );
    assert_eq!(finite_diag(&mut s, &bad, 4, "embed"), None);
    let mut buf = [0; 32];
    let n = first_nonfinite_detail(&s, &mut buf);
    assert_eq!(&buf[..n], b"L03 embed n0 i1");
}

#[test]
fn scores_worth_printing() {
    assert!(score_is_printed(0, 0, 0));
    assert!(!score_is_printed(3, 0, 0));
    assert!(score_is_printed(3, 1, 0));
    assert!(score_is_printed(3, 0, 2));
}

#[test]
fn value_ranges() {
    let v = bits(&[2.0, -3.0, f32::NAN, f32::NEG_INFINITY, 7.5]);
    let r = vec_stats(&v);
    assert_eq!((r.min, r.max), ((-3.0f32).to_bits(), 7.5f32.to_bits()));
    assert_eq!((r.finite, r.nan, r.inf), (3, 1, 1));
    let r = vec_stats(&bits(&[f32::NAN]));
    assert_eq!((r.min, r.max, r.finite), (0, 0, 0));
    let mut s = InferenceState::new();
    assert!(trace_stats(&mut s, 0, 1, "x", &v).is_none());
    assert!(!s.first_nf_latched);
    assert_eq!(trace_stats(&mut s, 0, 0, "x", &v).unwrap().nan, 1);
    assert!(s.first_nf_latched);
    set_avx512_trace_enabled(&mut s, false);
    assert!(trace_stats(&mut s, 0, 0, "x", &v).is_none());
}

#[test]
fn kernels_by_tensor_type() {
    assert_eq!(linear_dispatch_avx512(GgmlType::Q4K, 4), Ok(Layout::Q4K));
    assert_eq!(linear_dispatch_avx512(GgmlType::Q6K, 1), Ok(Layout::Q6K));
    assert_eq!(linear_dispatch_avx512(GgmlType::Q4_0, 1), Ok(Layout::Q4_0));
    assert_eq!(linear_dispatch_avx512(GgmlType::Q4_0, 4), Ok(Layout::Q4_0X4));
    assert_eq!(linear_dispatch_avx512(GgmlType::Q8_0, 4), Ok(Layout::Q8_0X4));
    assert_eq!(
        linear_dispatch_avx512(GgmlType::Other(99), 1),
        Err(LinearDispatchAvx512Error::UnsupportedQuant(GgmlType::Other(99)))
    );
    assert!(fused_quant_supported(GgmlType::Q8_0));
    assert!(!fused_quant_supported(GgmlType::F32));
    assert!(lm_head_argmax_quant_supported(GgmlType::Q4K));
    assert!(!lm_head_argmax_quant_supported(GgmlType::Other(1)));
}

#[test]
fn dispatches_are_announced_once() {
    let mut a = Announced::new();
    let m = MatmulDispatch {
        cores: CoreCounts { active: 8, effective: 4, registered: 9 },
        out_dim: 2048,
        in_dim: 1024,
    };
    assert_eq!(
        announce(&mut a, Dispatch::Q4K(m)),
        Some(String::from(
            "[MP3.0] AVX-512 Q4_K matmul dispatch: active_cores=8 effective_cores=4 registered_cores=9 out_dim=2048 in_dim=1024"
        ))
    );
    assert_eq!(announce(&mut a, Dispatch::Q4K(m)), None);
    assert!(announce(&mut a, Dispatch::Q4_0(m, 4)).unwrap().ends_with(" interleave=4"));
    assert!(announce(&mut a, Dispatch::Q8_0(m, 1)).unwrap().contains("Q8_0 matmul dispatch: "));
    assert!(announce(&mut a, Dispatch::Q6K(m)).is_some());
    assert_eq!(
        announce(
            &mut a,
            Dispatch::Fused { segments: 3, total_rows: 7, width: 5, effective: 2 }
        )
        .unwrap(),
        "[MP3.0] AVX-512 fused matmul dispatch: segments=3 total_rows=7 in_dim=5 effective_cores=2"
    );
    assert!(announce(&mut a, Dispatch::LmHead(m, 77)).unwrap().ends_with(" cycles=77"));
    assert_eq!(
        announce(
            &mut a,
            Dispatch::Attention { heads: 16, cores: 4, total_tokens: 65, min_tokens: 64 }
        )
        .unwrap(),
        "[MP3.0] AVX-512 parallel attention dispatch: heads=16 cores=4 total_tokens=65 min_tokens=64"
    );
    assert_eq!(announce(&mut a, Dispatch::LmHead(m, 78)), None);
}

#[test]
fn projections_are_planned() {
    let m = MatmulDispatch {
        cores: CoreCounts { active: 2, effective: 2, registered: 2 },
        out_dim: 8,
        in_dim: 32,
    };
    let mut a = Announced::new();
    let p = plan_linear(&mut a, m, GgmlType::Q4_0, 4).unwrap();
    assert_eq!((p.kernel, p.align), (Layout::Q4_0X4, 4));
    assert_eq!(
        p.line.unwrap(),
        "[MP3.0] AVX-512 Q4_0 matmul dispatch: active_cores=2 effective_cores=2 registered_cores=2 out_dim=8 in_dim=32 interleave=4"
    );
    let p = plan_linear(&mut a, m, GgmlType::Q4_0, 1).unwrap();
    assert_eq!((p.kernel, p.align, p.line), (Layout::Q4_0, 1, None));
    let p = plan_linear(&mut a, m, GgmlType::Q4K, 4).unwrap();
    assert_eq!((p.kernel, p.align, p.line.is_some()), (Layout::Q4K, 1, true));
    let p = plan_linear(&mut a, m, GgmlType::Q6K, 1).unwrap();
    assert_eq!((p.kernel, p.align, p.line.is_some()), (Layout::Q6K, 1, true));
    let p = plan_linear(&mut a, m, GgmlType::Q8_0, 0).unwrap();
    assert_eq!((p.kernel, p.align, p.line.is_some()), (Layout::Q8_0, 1, true));
    let before = a;
    assert_eq!(
        plan_linear(&mut a, m, GgmlType::F32, 1).err(),
        Some(LinearDispatchAvx512Error::UnsupportedQuant(GgmlType::F32))
    );
    assert_eq!(a, before);
}

#[test]
fn fused_rows() {
    let seg = |out_dim, quant, interleave| FusedSegment { out_dim, row_base: 0, quant, interleave };
    let p = linear_fused_dispatch(&vec![
        seg(8, GgmlType::Q4_0, 4),
        seg(4, GgmlType::Q6K, 1),
        seg(6, GgmlType::Q8_0, 1),
    ]);
    assert_eq!((p.total_rows, p.align), (18, 4));
    assert_eq!(p.table.iter().map(|s| s.row_base).collect::<Vec<usize>>(), vec![0, 8, 12]);
    let pieces = fused_linear_kernel(&p.table, rows(6, 14));
    assert_eq!(
        pieces,
        vec![
            SegmentRows { segment: 0, rows: rows(6, 8), kernel: Layout::Q4_0X4 },
            SegmentRows { segment: 1, rows: rows(0, 4), kernel: Layout::Q6K },
            SegmentRows { segment: 2, rows: rows(0, 2), kernel: Layout::Q8_0 },
        ]
    );
    assert_eq!(fused_linear_kernel(&p.table, rows(8, 9)).len(), 1);
    assert_eq!(linear_fused_dispatch(&Vec::new()).align, 1);
}

// Programs.

struct Machine {
    bufs: Vec<(Buf, Vec<f64>)>,
}

impl Machine {
    fn new(sizes: &[(Buf, usize)]) -> Machine {
        Machine { bufs: sizes.iter().map(|(b, n)| (*b, vec![0.5; *n])).collect() }
    }

    fn buf(&mut self, b: Buf) -> &mut Vec<f64> {
        &mut self.bufs.iter_mut().find(|(c, _)| *c == b).unwrap().1
    }

    fn get(&mut self, s: Span) -> Vec<f64> {
        self.buf(s.buf)[s.start..s.start + s.len].to_vec()
    }

    fn put(&mut self, s: Span, v: &[f64]) {
        self.buf(s.buf)[s.start..s.start + s.len].copy_from_slice(v);
    }

    fn project(&mut self, p: &Projection) {
        let x = self.get(p.x);
        let seed = match p.w {
            Mat::AttnQ => 1,
            Mat::AttnK => 2,
            Mat::AttnV => 3,
            _ => 4,
        };
        let out: Vec<f64> = (0..p.out.len)
            .map(|r| (0..x.len()).map(|c| weight(seed, r, c) * x[c]).sum())
            .collect();
        self.put(p.out, &out);
    }

    fn run(&mut self, op: &Op) {
        match *op {
            Op::Trace { .. } => {},
            Op::Linear(p) => self.project(&p),
            Op::Fused3(p, q, r) => {
                self.project(&p);
                self.project(&q);
                self.project(&r);
            },
            Op::RmsNorm { x, out, .. } => {
                let v = self.get(x);
                let ms = v.iter().map(|a| a * a).sum::<f64>() / v.len() as f64;
                let n: Vec<f64> = v.iter().map(|a| a / ms.sqrt()).collect();
                self.put(out, &n);
            },
            Op::Rope { .. } => {},
            Op::StoreKv { token, k, v, .. } => {
                let (a, b) = (self.get(k), self.get(v));
                let n = a.len();
                self.put(Span { buf: Buf::KCache, start: token * n, len: n }, &a);
                self.put(Span { buf: Buf::VCache, start: token * n, len: n }, &b);
            },
            Op::Scores { q, k, out } => {
                let a = self.get(q);
                let mut s = Vec::new();
                for i in 0..k.count {
                    let b = self.get(Span { buf: k.buf, start: k.start + i * k.stride, len: k.len });
                    s.push(a.iter().zip(b.iter()).map(|(x, y)| x * y).sum::<f64>());
                }
                self.put(out, &s);
            },
            Op::Softmax { at } => {
                let v = self.get(at);
                let e: Vec<f64> = v.iter().map(|a| a.exp()).collect();
                let t: f64 = e.iter().sum();
                let n: Vec<f64> = e.iter().map(|a| a / t).collect();
                self.put(at, &n);
            },
            Op::Zero { at } => {
                let z = vec![0.0; at.len];
                self.put(at, &z);
            },
            Op::WeightedSum { weights, v, out } => {
                let w = self.get(weights);
                let mut acc = self.get(out);
                for i in 0..v.count {
                    let b = self.get(Span { buf: v.buf, start: v.start + i * v.stride, len: v.len });
                    for (x, y) in acc.iter_mut().zip(b.iter()) {
                        *x += w[i] * y;
                    }
                }
                self.put(out, &acc);
            },
            Op::Copy { from, to } => {
                let v = self.get(from);
                self.put(to, &v);
            },
            _ => panic!("not part of this program"),
        }
    }
}

fn weight(seed: usize, r: usize, c: usize) -> f64 {
    (((seed * 131 + r * 31 + c * 7) % 17) as f64 - 8.0) / 8.0
}

fn shape(token_offset: usize, score_len: usize) -> GqaShape {
    GqaShape {
        n_q_heads: 4,
        n_kv_heads: 2,
        head_dim: 4,
        embedding_dim: 6,
        layer: 0,
        token_offset,
        score_len,
    }
}

fn quants(q: GgmlType) -> AttnQuants {
    AttnQuants { q, k: q, v: q, o: q }
}

fn attend(tokens: usize, fused: bool, min_tokens: usize, cores: usize) -> Machine {
    let mut m = Machine::new(&[
        (Buf::Norm, 6),
        (Buf::Q, 16),
        (Buf::K, 8),
        (Buf::V, 8),
        (Buf::QOut, 16),
        (Buf::KOut, 8),
        (Buf::Score, 4 * tokens),
        (Buf::Head, 4),
        (Buf::Concat, 16),
        (Buf::AttnOut, 6),
        (Buf::KCache, 8 * tokens),
        (Buf::VCache, 8 * tokens),
    ]);
    for t in 0..tokens {
        let x: Vec<f64> = (0..6).map(|i| weight(9, t, i)).collect();
        m.put(Span { buf: Buf::Norm, start: 0, len: 6 }, &x);
        let ops = gqa_attention_single_token_avx512(
            &shape(t, 4 * tokens),
            &quants(GgmlType::Q4K),
            fused,
            min_tokens,
            cores,
        );
        for op in ops.iter() {
            m.run(op);
        }
    }
    m
}

/// The same attention, written out.
fn attend_directly(tokens: usize) -> Vec<f64> {
    let proj = |seed: usize, n: usize, x: &[f64]| -> Vec<f64> {
        (0..n).map(|r| (0..x.len()).map(|c| weight(seed, r, c) * x[c]).sum()).collect()
    };
    let norm = |v: &[f64]| -> Vec<f64> {
        v.chunks(4)
            .flat_map(|h| {
                let ms = h.iter().map(|a| a * a).sum::<f64>() / 4.0;
                h.iter().map(|a| a / ms.sqrt()).collect::<Vec<f64>>()
            })
            .collect()
    };
    let xs: Vec<Vec<f64>> =
        (0..tokens).map(|t| (0..6).map(|i| weight(9, t, i)).collect()).collect();
    let ks: Vec<Vec<f64>> = xs.iter().map(|x| norm(&proj(2, 8, x))).collect();
    let vs: Vec<Vec<f64>> = xs.iter().map(|x| proj(3, 8, x)).collect();
    let q = norm(&proj(1, 16, &xs[tokens - 1]));
    let mut concat = vec![0.0; 16];
    for h in 0..4 {
        let kv = h / 2;
        let e: Vec<f64> = ks
            .iter()
            .map(|k| (0..4).map(|i| q[h * 4 + i] * k[kv * 4 + i]).sum::<f64>().exp())
            .collect();
        let total: f64 = e.iter().sum();
        for (t, v) in vs.iter().enumerate() {
            for i in 0..4 {
                concat[h * 4 + i] += e[t] / total * v[kv * 4 + i];
            }
        }
    }
    proj(4, 6, &concat)
}

#[test]
fn attention_program_attends() {
    let want = attend_directly(3);
    for (fused, cores) in [(false, 1), (true, 1), (false, 4), (true, 4)] {
        let got = attend(3, fused, 1, cores).buf(Buf::AttnOut).clone();
        for (a, b) in got.iter().zip(want.iter()) {
            assert!((a - b).abs() < 1e-9);
        }
    }
}

#[test]
fn attention_without_query_heads_only_stores() {
    let s = GqaShape { n_q_heads: 0, ..shape(2, 0) };
    let ops = gqa_attention_single_token_avx512(&s, &quants(GgmlType::Q4K), false, 1, 4);
    assert!(ops.iter().any(|op| matches!(op, Op::StoreKv { token: 2, .. })));
    assert!(!ops.iter().any(|op| matches!(op, Op::Scores { .. } | Op::Copy { .. })));
    assert!(attn_heads_kernel(&s, 0, 0).is_empty());
}

#[test]
fn settings_keep_the_bits() {
    let exact = |mut m: Machine| -> Vec<Vec<u64>> {
        [Buf::AttnOut, Buf::Concat, Buf::KCache, Buf::VCache]
            .iter()
            .map(|b| m.buf(*b).iter().map(|x| x.to_bits()).collect())
            .collect()
    };
    let want = exact(attend(5, false, usize::MAX, 1));
    assert!(want.iter().all(|v| v.iter().any(|x| *x != 0.5f64.to_bits())));
    for (fused, min_tokens, cores) in [(true, usize::MAX, 8), (false, 1, 2), (true, 3, 64)] {
        assert_eq!(exact(attend(5, fused, min_tokens, cores)), want);
    }
}

#[test]
fn parallel_heads_run_in_any_order() {
    let s = shape(2, 12);
    let run = |order: [usize; 4]| {
        let mut m = attend(3, true, 1, 4);
        m.put(Span { buf: Buf::Concat, start: 0, len: 16 }, &[7.0; 16]);
        for h in order {
            for op in attn_heads_kernel(&s, h, h + 1).iter() {
                m.run(op);
            }
        }
        (m.buf(Buf::Score).clone(), m.buf(Buf::Concat).clone())
    };
    let want = run([0, 1, 2, 3]);
    assert!(want.1.iter().all(|x| *x != 7.0));
    assert_eq!(run([3, 1, 0, 2]), want);
}

#[test]
fn a_parallel_head_is_the_sequential_one_moved() {
    let t = quants(GgmlType::Q4K);
    let s = shape(2, 12);
    let ops = gqa_attention_single_token_avx512(&s, &t, true, usize::MAX, 4);
    let scores =
        |op: &Op| matches!(op, Op::Scores { q: Span { start: 4, .. }, .. });
    let at = ops.iter().position(scores).unwrap();
    let one = attn_heads_kernel(&s, 1, 2);
    let own = Span { buf: Buf::Score, start: 3, len: 3 };
    let place = Span { buf: Buf::Concat, start: 4, len: 4 };
    let staging = Span { buf: Buf::Head, start: 0, len: 4 };
    assert!(matches!(ops[at + 1], Op::Trace { stage: Stage::Score, .. }));
    assert_eq!(ops[at + 5], Op::Copy { from: staging, to: place });
    assert_eq!(ops[at + 3], Op::Zero { at: staging });
    assert_eq!(one[1], Op::Softmax { at: own });
    assert_eq!(one[2], Op::Zero { at: place });
    match (ops[at], one[0]) {
        (Op::Scores { q: a, k: b, .. }, Op::Scores { q: c, k: d, out }) => {
            assert_eq!((a, b, own), (c, d, out));
        },
        _ => panic!("no scores"),
    }
    match (ops[at + 4], one[3]) {
        (Op::WeightedSum { v: a, .. }, Op::WeightedSum { weights, v: b, out }) => {
            assert_eq!((a, own, place), (b, weights, out));
        },
        _ => panic!("no sum"),
    }
}

#[test]
fn heads_fan_out_only_when_it_pays() {
    let t = quants(GgmlType::Q4K);
    let traced = |tokens: usize, score: usize, min: usize, cores: usize| {
        let s = shape(tokens - 1, score);
        gqa_attention_single_token_avx512(&s, &t, true, min, cores)
            .iter()
            .any(|op| matches!(op, Op::Trace { stage: Stage::Score, .. }))
    };
    // The sequential heads are traced, the parallel ones are not.
    assert!(!traced(8, 32, 8, 2));
    assert!(traced(7, 32, 8, 2));
    assert!(traced(8, 32, 8, 1));
    assert!(traced(8, 31, 8, 2));
    let s = shape(7, 32);
    let mut parts = attn_heads_kernel(&s, 0, 3);
    parts.extend(attn_heads_kernel(&s, 3, 4));
    assert_eq!(parts, attn_heads_kernel(&s, 0, 4));
}

#[test]
fn projections_are_fused_when_supported() {
    let s = shape(0, 4);
    let ops = gqa_attention_single_token_avx512(&s, &quants(GgmlType::Q4_0), true, 64, 1);
    assert!(matches!(ops[0], Op::Fused3(_, _, _)));
    let ops = gqa_attention_single_token_avx512(&s, &quants(GgmlType::F32), true, 64, 1);
    assert!(matches!(ops[0], Op::Linear(_)));
    let f = FfnQuants { gate: GgmlType::Q4K, up: GgmlType::Q6K, down: GgmlType::Q8_0 };
    let ops = mlp_swiglu_avx512(6, 10, &f, true);
    assert_eq!(ops.len(), 3);
    match ops[0] {
        Op::Fused2(g, u) => {
            assert_eq!((g.w, u.w), (Mat::FfnGate, Mat::FfnUp));
            assert_eq!((g.x.len, g.out.len, u.quant), (6, 10, GgmlType::Q6K));
        },
        _ => panic!("both have kernels"),
    }
    assert_eq!(mlp_swiglu_avx512(6, 10, &f, false).len(), 4);
    let mut ops = Vec::new();
    expert_swiglu_avx512(
        &mut ops,
        Mat::SharedGate,
        Mat::SharedUp,
        Mat::SharedDown,
        6,
        10,
        Buf::MlpOut,
        GgmlType::Q4K,
    );
    match ops.last() {
        Some(Op::Linear(p)) => assert_eq!((p.w, p.out.buf), (Mat::SharedDown, Buf::MlpOut)),
        _ => panic!("the block ends with its projection"),
    }
}

fn experts() -> MoeShape {
    MoeShape {
        n_experts: 8,
        top_k: 2,
        embedding_dim: 6,
        expert_intermediate: 10,
        quant: GgmlType::Q4K,
        gate_bytes: Some(100),
        gate_q4k_bytes: 50,
        down_bytes: None,
        down_q4k_bytes: 70,
    }
}

#[test]
fn picked_experts_read_their_own_weights() {
    let ops = moe_ffn_avx512(&experts(), &[5, 2]);
    let mut gates = Vec::new();
    let mut downs = Vec::new();
    for op in ops.iter() {
        let ps = match *op {
            Op::Linear(p) => vec![p],
            Op::Fused2(p, q) => vec![p, q],
            _ => vec![],
        };
        for p in ps {
            match p.w {
                Mat::ExpertGate { start, len } => gates.push((start, len)),
                Mat::ExpertDown { start, len } => downs.push((start, len)),
                _ => {},
            }
        }
    }
    assert_eq!(gates, vec![(500, 100), (200, 100)]);
    // Without a size the size of Q4_K is taken.
    assert_eq!(downs, vec![(350, 70), (140, 70)]);
    let sums = ops.iter().filter(|op| matches!(op, Op::WeightedSum { .. })).count();
    assert_eq!(sums, 2);
}

#[test]
fn dense_pass() {
    let m = DenseModel {
        n_q_heads: 4,
        n_kv_heads: 2,
        head_dim: 4,
        embedding_dim: 6,
        intermediate_dim: 10,
        score_len: 8,
        half: 2,
    };
    let l = LayerQuants {
        attn: quants(GgmlType::Q4K),
        ffn: FfnQuants { gate: GgmlType::Q4K, up: GgmlType::Q4K, down: GgmlType::Q6K },
    };
    let f = Fanout { fused: true, min_tokens: 64, n_cores: 1 };
    let steps = forward_single_token_avx512(&m, 1, &vec![l, l], &f);
    let norms: Vec<(usize, BlockNorm)> = steps
        .iter()
        .filter_map(|s| match s {
            Step::Norm { layer, w } => Some((*layer, *w)),
            _ => None,
        })
        .collect();
    assert_eq!(
        norms,
        vec![
            (0, BlockNorm::Attn),
            (0, BlockNorm::Ffn),
            (1, BlockNorm::Attn),
            (1, BlockNorm::Ffn),
        ]
    );
    let residuals = steps.iter().filter(|s| matches!(s, Step::Residual { .. })).count();
    assert_eq!(residuals, 4);
    assert!(matches!(steps[0], Step::Embed { .. }));
    assert_eq!(
        attention_failed(3, 7, "NumericalInstability"),
        "[MP3.0] Attention failed at layer 3 (token_offset=7): NumericalInstability"
    );
    assert_eq!(Stage::QNorm.label(), "q_qknorm");
}

fn latent() -> LatentModel {
    LatentModel {
        n_heads: 2,
        n_kv_heads: 1,
        kv_lora_rank: 5,
        qk_nope_head_dim: 3,
        qk_rope_head_dim: 2,
        v_head_dim: 4,
        q_lora_rank: 6,
        embedding_dim: 7,
        intermediate_dim: 9,
        score_len: 16,
        n_experts: 8,
        top_k: 2,
        expert_intermediate: 5,
    }
}

fn latent_layer(attn: AttnType, mlp: MlpType) -> LatentLayer {
    LatentLayer {
        attn,
        mlp,
        mha_layer_idx: 0,
        attn_quant: GgmlType::Q4K,
        dense_quant: GgmlType::Q4K,
        expert_quant: GgmlType::Q4K,
        gate_bytes: Some(100),
        gate_q4k_bytes: 90,
        down_bytes: None,
        down_q4k_bytes: 70,
        k_b_len: 0,
        v_b_len: 0,
        k_norm_len: 0,
    }
}

#[test]
fn latent_pass_stops_without_a_cache() {
    let layers = vec![
        latent_layer(AttnType::Mla, MlpType::MoE),
        latent_layer(AttnType::Mha, MlpType::Dense),
        latent_layer(AttnType::Mla, MlpType::MoE),
    ];
    let steps = forward_single_token_deepseek2_avx512(&latent(), 0, &layers, true);
    assert!(!steps.iter().any(|s| matches!(s, Step::Fail(_))));
    assert_eq!(steps.iter().filter(|s| matches!(s, Step::Moe { .. })).count(), 2);
    assert_eq!(steps.iter().filter(|s| matches!(s, Step::Mha(_))).count(), 1);
    let steps = forward_single_token_deepseek2_avx512(&latent(), 0, &layers, false);
    match steps.last() {
        Some(Step::Fail(e)) => {
            assert_eq!(*e, Deepseek2ForwardError::Mla(MlaError::NumericalInstability));
        },
        _ => panic!("the second layer has no cache"),
    }
    assert_eq!(steps.iter().filter(|s| matches!(s, Step::Moe { .. })).count(), 1);
    assert_eq!(
        Deepseek2ForwardError::from(MlaError::Cache),
        Deepseek2ForwardError::Mla(MlaError::Cache)
    );
}

#[test]
fn experts_have_the_sizes_of_their_layer() {
    let a = latent_layer(AttnType::Mla, MlpType::MoE);
    let b = LatentLayer {
        expert_quant: GgmlType::Q8_0,
        gate_bytes: Some(200),
        down_bytes: Some(150),
        ..a
    };
    let steps = forward_single_token_deepseek2_avx512(&latent(), 0, &vec![a, b], false);
    let shapes: Vec<MoeShape> = steps
        .iter()
        .filter_map(|s| match s {
            Step::Moe { shape, .. } => Some(*shape),
            _ => None,
        })
        .collect();
    assert_eq!((shapes[0].quant, shapes[0].gate_bytes), (GgmlType::Q4K, Some(100)));
    assert_eq!((shapes[0].down_bytes, shapes[0].down_q4k_bytes), (None, 70));
    assert_eq!((shapes[1].quant, shapes[1].gate_bytes), (GgmlType::Q8_0, Some(200)));
    assert_eq!(shapes[1].down_bytes, Some(150));
    assert_eq!((shapes[1].n_experts, shapes[1].top_k, shapes[1].embedding_dim), (8, 2, 7));
}

#[test]
fn models_need_only_what_their_layers_use() {
    // Without experts, then without latent attention.
    let dense = vec![latent_layer(AttnType::Mla, MlpType::Dense)];
    let m = LatentModel { n_experts: 0, top_k: 0, ..latent() };
    assert!(latent_pass_fits(&m, 0, &dense, false));
    assert!(forward_single_token_deepseek2_avx512(&m, 0, &dense, false).len() > 5);
    let plain = vec![latent_layer(AttnType::Mha, MlpType::Dense)];
    let m = LatentModel { score_len: 0, ..m };
    assert!(latent_pass_fits(&m, 0, &plain, true));
    assert_eq!(forward_single_token_deepseek2_avx512(&m, 0, &plain, true).len(), 10);
    assert!(!latent_pass_fits(&m, 0, &dense, false));
    let experts = vec![latent_layer(AttnType::Mla, MlpType::MoE)];
    assert!(latent_pass_fits(&latent(), 7, &experts, false));
    assert!(!latent_pass_fits(&latent(), 8, &experts, false));
    assert!(!latent_pass_fits(&LatentModel { top_k: 9, ..latent() }, 0, &experts, false));
    // Layers behind one that ends the pass do not count.
    let stopped = vec![plain[0], experts[0]];
    assert!(latent_pass_fits(&m, 0, &stopped, false));
}

#[test]
fn latent_attention_uses_every_head() {
    let s = MlaShape {
        n_heads: 2,
        kv_lora_rank: 5,
        qk_nope_head_dim: 3,
        qk_rope_head_dim: 2,
        v_head_dim: 4,
        q_lora_rank: 6,
        embedding_dim: 7,
        layer: 0,
        token_offset: 2,
        score_len: 16,
        split_kv_b: false,
        k_norm: false,
        quant: GgmlType::Q4K,
    };
    let ops = mla_attention_avx512(&s);
    let scores: Vec<Span> = ops
        .iter()
        .filter_map(|op| match op {
            Op::Score2 { out, .. } => Some(*out),
            _ => None,
        })
        .collect();
    // Three tokens, two heads, each score at its own place.
    assert_eq!(scores.len(), 6);
    for (i, a) in scores.iter().enumerate() {
        for b in scores.iter().skip(i + 1) {
            assert!(a.start != b.start);
        }
    }
    assert_eq!(ops.iter().filter(|op| matches!(op, Op::Softmax { .. })).count(), 2);
    match ops.last() {
        Some(Op::Linear(p)) => assert_eq!((p.w, p.out.len), (Mat::MlaOut, 7)),
        _ => panic!("the program ends with the output projection"),
    }
}

#[test]
fn parallel_self_test() {
    let x = self_test_input(33);
    assert_eq!((x[0], x[30], x[31], x[32]), (-15, 15, -15, -14));
    assert_eq!(smp_dispatch_self_test(&[1, 2], &[1, 2]), Ok(()));
    assert_eq!(
        smp_dispatch_self_test(&[1, 2, 3], &[1, 9, 4]),
        Err(String::from(
            "[MP2.6] SMP self-test MISMATCH at row 1: parallel=0x00000002 single=0x00000009"
        ))
    );
}
