//! Metrics.

use perceptree::arith::Arith;
use perceptree::data::Rng;
use perceptree::eval::{
    evaluate, lift_at, log_loss, pr_auc, reliability, roc_auc, summarize_times,
};
use perceptree::float::{F32, F64};

/// The machine's floating-point arithmetic.
struct Native;

fn d(x: F64) -> f64 {
    f64::from_bits(x.bits)
}

fn s(x: F32) -> f32 {
    f32::from_bits(x.bits)
}

fn f64v(x: f64) -> F64 {
    F64 { bits: x.to_bits() }
}

fn f32v(x: f32) -> F32 {
    F32 { bits: x.to_bits() }
}

impl Arith for Native {
    fn sum(a: F64, b: F64) -> F64 {
        f64v(d(a) + d(b))
    }
    fn diff(a: F64, b: F64) -> F64 {
        f64v(d(a) - d(b))
    }
    fn prod(a: F64, b: F64) -> F64 {
        f64v(d(a) * d(b))
    }
    fn quot(a: F64, b: F64) -> F64 {
        f64v(d(a) / d(b))
    }
    fn sqrt(a: F64) -> F64 {
        f64v(d(a).sqrt())
    }
    fn exp(a: F64) -> F64 {
        f64v(d(a).exp())
    }
    fn ln(a: F64) -> F64 {
        f64v(d(a).ln())
    }
    fn round(a: F64) -> F64 {
        f64v(d(a).round())
    }
    fn from_int(n: i128) -> F64 {
        f64v(n as f64)
    }
    fn to_index(a: F64) -> usize {
        d(a) as usize
    }
    fn sum32(a: F32, b: F32) -> F32 {
        f32v(s(a) + s(b))
    }
    fn diff32(a: F32, b: F32) -> F32 {
        f32v(s(a) - s(b))
    }
    fn prod32(a: F32, b: F32) -> F32 {
        f32v(s(a) * s(b))
    }
    fn quot32(a: F32, b: F32) -> F32 {
        f32v(s(a) / s(b))
    }
    fn exp32(a: F32) -> F32 {
        f32v(s(a).exp())
    }
    fn ln_1p32(n: u32) -> F32 {
        f32v((n as f32).ln_1p())
    }
    fn narrow(a: F64) -> F32 {
        f32v(d(a) as f32)
    }
}

fn nums(v: &[f32]) -> Vec<F32> {
    v.iter().map(|&x| f32v(x)).collect()
}

fn roc(preds: &[f32], labels: &[u8]) -> f64 {
    d(roc_auc::<Native>(&nums(preds), &labels.to_vec()))
}

fn pr(preds: &[f32], labels: &[u8]) -> f64 {
    d(pr_auc::<Native>(&nums(preds), &labels.to_vec()))
}

#[test]
fn perfect_ranking_scores_one() {
    let preds = [0.1, 0.4, 0.35, 0.8];
    let labels = [0u8, 0, 1, 1];
    // pred 0.8->y1, 0.4->y0, 0.35->y1, 0.1->y0
    assert!(roc(&preds, &labels) > 0.7);
    let preds2 = [0.9f32, 0.8, 0.2, 0.1];
    let labels2 = [1u8, 1, 0, 0];
    assert!((roc(&preds2, &labels2) - 1.0).abs() < 1e-9);
    assert!((pr(&preds2, &labels2) - 1.0).abs() < 1e-9);
}

#[test]
fn pr_auc_floor_is_base_rate() {
    // Constant predictions → AP equals the positive rate.
    let preds = vec![0.5f32; 1000];
    let labels: Vec<u8> = (0..1000).map(|i| (i % 5 == 0) as u8).collect(); // 20%
    let ap = pr(&preds, &labels);
    assert!((ap - 0.2).abs() < 1e-6, "ap={ap}");
}

#[test]
fn log_loss_zero_for_perfect() {
    let preds = nums(&[0.999999f32, 0.000001]);
    let labels = vec![1u8, 0];
    assert!(d(log_loss::<Native>(&preds, &labels)) < 1e-4);
}

#[test]
fn lift_above_one_when_ranking_helps() {
    let mut preds = Vec::new();
    let mut labels = Vec::new();
    for i in 0..1000 {
        let pos = i < 100; // top 100 are positive
        preds.push(f32v(if pos { 0.9 } else { 0.1 }));
        labels.push(pos as u8);
    }
    assert!(d(lift_at::<Native>(&preds, &labels, f64v(0.1))) > 5.0);
}

#[test]
fn roc_is_exact_on_small_rankings() {
    assert_eq!(roc(&[0.1, 0.4, 0.35, 0.8], &[0, 0, 1, 1]), 0.75);
    assert_eq!(roc(&[0.5, 0.5, 0.5, 0.5], &[0, 1, 0, 1]), 0.5);
    assert_eq!(roc(&[0.9, 0.1], &[0, 1]), 0.0);
    // The two zeros are tied.
    assert_eq!(roc(&[0.0, -0.0], &[0, 1]), 0.5);
    // Nothing to rank against.
    assert_eq!(roc(&[0.3, 0.6], &[0, 0]), 0.5);
    assert_eq!(roc(&[0.3, 0.6], &[1, 1]), 0.5);
    assert_eq!(roc(&[], &[]), 0.5);
}

#[test]
fn roc_counts_ordered_pairs() {
    let mut rng = Rng::new(11);
    for n in [2usize, 3, 7, 20, 61] {
        let preds: Vec<f32> = (0..n).map(|_| rng.below(6) as f32 / 8.0).collect();
        let mut labels: Vec<u8> = (0..n).map(|_| rng.below(2) as u8).collect();
        labels[0] = 0;
        labels[1] = 1;
        let (mut wins, mut pairs) = (0.0, 0.0);
        for i in 0..n {
            for j in 0..n {
                if labels[i] == 1 && labels[j] == 0 {
                    pairs += 1.0;
                    if preds[i] > preds[j] {
                        wins += 1.0;
                    } else if preds[i] == preds[j] {
                        wins += 0.5;
                    }
                }
            }
        }
        assert!((roc(&preds, &labels) - wins / pairs).abs() < 1e-12);
    }
}

#[test]
fn average_precision_is_exact_on_small_rankings() {
    let ap = pr(&[0.8, 0.4, 0.35, 0.1], &[1, 0, 1, 0]);
    assert_eq!(ap, 0.5 + 0.5 * (2.0 / 3.0));
    // Tied rows are read together.
    assert_eq!(pr(&[0.7, 0.7], &[1, 0]), 0.5);
    assert_eq!(pr(&[0.7, 0.7], &[0, 1]), 0.5);
    assert_eq!(pr(&[0.3, 0.6], &[0, 0]), 0.0);
    assert_eq!(pr(&[], &[]), 0.0);
}

#[test]
fn log_loss_is_exact() {
    let half = d(log_loss::<Native>(&nums(&[0.5, 0.5]), &vec![1, 0]));
    assert_eq!(half, 2f64.ln());
    // A wrong certainty costs no more than the clamp allows.
    let wrong = d(log_loss::<Native>(&nums(&[0.0]), &vec![1]));
    assert_eq!(wrong, -(1e-7f64.ln()));
    let wrong = d(log_loss::<Native>(&nums(&[1.0]), &vec![0]));
    assert_eq!(wrong, -((1.0 - (1.0 - 1e-7f64)).ln()));
    assert!(d(log_loss::<Native>(&Vec::new(), &Vec::new())).is_nan());
}

#[test]
fn lift_is_exact() {
    let preds = nums(&[0.1, 0.9, 0.8, 0.2]);
    let labels = vec![0, 1, 0, 1];
    // Top half: one positive of two; overall one half.
    assert_eq!(d(lift_at::<Native>(&preds, &labels, f64v(0.5))), 1.0);
    // At least one row is taken.
    assert_eq!(d(lift_at::<Native>(&preds, &labels, f64v(0.0))), 2.0);
    // And no more than all.
    assert_eq!(d(lift_at::<Native>(&preds, &labels, f64v(3.0))), 1.0);
    assert_eq!(d(lift_at::<Native>(&preds, &vec![0; 4], f64v(0.5))), 0.0);
    // Ties keep the row order.
    let tied = nums(&[0.5, 0.5]);
    assert_eq!(d(lift_at::<Native>(&tied, &vec![1, 0], f64v(0.5))), 2.0);
    assert_eq!(d(lift_at::<Native>(&tied, &vec![0, 1], f64v(0.5))), 0.0);
}

#[test]
fn reliability_bins_hold_every_row_once() {
    let preds = nums(&[0.0, 0.25, 0.5, 0.74, 1.0, 0.75]);
    let labels = vec![0, 1, 0, 1, 1, 0];
    let bins = reliability::<Native>(&preds, &labels, 4);
    assert_eq!(bins.iter().map(|b| b.count).collect::<Vec<_>>(), vec![1, 1, 2, 2]);
    assert_eq!(d(bins[0].mean_pred), 0.0);
    assert_eq!(d(bins[1].mean_pred), 0.25);
    assert_eq!(d(bins[3].mean_pred), 0.875);
    assert_eq!(d(bins[3].mean_label), 0.5);
    assert_eq!(d(bins[2].mean_label), 0.5);
    // At least one bin; empty ones have zero means.
    let one = reliability::<Native>(&preds, &labels, 0);
    assert_eq!(one.len(), 1);
    assert_eq!(one[0].count, 6);
    assert_eq!(d(one[0].mean_label), 0.5);
    let empty = reliability::<Native>(&nums(&[0.9]), &vec![1], 2);
    assert_eq!((empty[0].count, d(empty[0].mean_pred), d(empty[0].mean_label)), (0, 0.0, 0.0));
    // Rows without a label are not counted.
    assert_eq!(reliability::<Native>(&preds, &vec![1, 1], 1)[0].count, 2);
}

#[test]
fn evaluate_bundles_the_metrics() {
    let mut rng = Rng::new(3);
    let preds: Vec<F32> = (0..400).map(|_| rng.next_f32()).collect();
    let labels: Vec<u8> = preds.iter().map(|&p| (s(rng.next_f32()) < s(p)) as u8).collect();
    let m = evaluate::<Native>(&preds, &labels);
    assert_eq!(m.pr_auc.bits, pr_auc::<Native>(&preds, &labels).bits);
    assert_eq!(m.roc_auc.bits, roc_auc::<Native>(&preds, &labels).bits);
    assert_eq!(m.log_loss.bits, log_loss::<Native>(&preds, &labels).bits);
    assert_eq!(m.lift_top1pct.bits, lift_at::<Native>(&preds, &labels, f64v(0.01)).bits);
    assert_eq!(m.lift_top10pct.bits, lift_at::<Native>(&preds, &labels, f64v(0.10)).bits);
    assert!(d(m.roc_auc) > 0.6 && d(m.lift_top10pct) > 1.2);
}

#[test]
fn latency_is_read_off_the_sorted_times() {
    let l = summarize_times::<Native>(&vec![5, 1, 3, 2, 4]);
    assert_eq!((l.p50_ns, l.p99_ns, l.mean_ns), (3, 5, 3));
    let l = summarize_times::<Native>(&vec![8]);
    assert_eq!((l.p50_ns, l.p99_ns, l.mean_ns), (8, 8, 8));
    let many: Vec<u128> = (0..1000).rev().collect();
    let l = summarize_times::<Native>(&many);
    assert_eq!((l.p50_ns, l.p99_ns, l.mean_ns), (500, 990, 499));
}

#[test]
fn nothing_to_rank_needs_no_numbers() {
    let nan = f32::NAN;
    assert_eq!(roc(&[nan, 0.5, nan], &[0, 0, 0]), 0.5);
    assert_eq!(roc(&[nan, 0.5], &[1, 1]), 0.5);
    assert_eq!(pr(&[nan, 0.5], &[0, 0]), 0.0);
    // One row is its own top.
    assert_eq!(d(lift_at::<Native>(&nums(&[nan]), &vec![1], f64v(0.5))), 1.0);
    let m = evaluate::<Native>(&nums(&[nan]), &vec![0]);
    assert_eq!((d(m.pr_auc), d(m.roc_auc), d(m.lift_top1pct)), (0.0, 0.5, 0.0));
}

#[test]
fn perfect_rankings_score_one_with_ties() {
    // Ties among the positives and among the negatives, none across.
    let preds = [0.9, 0.2, 0.7, 0.9, 0.1, 0.2, 0.7, 0.0];
    let labels = [1, 0, 1, 1, 0, 0, 1, 0];
    assert_eq!((pr(&preds, &labels), roc(&preds, &labels)), (1.0, 1.0));
    assert_eq!((pr(&[0.4], &[1]), pr(&[0.4, 0.3], &[1, 1])), (1.0, 1.0));
    // A tie across costs something.
    assert!(pr(&[0.9, 0.5, 0.5], &[1, 1, 0]) < 1.0);
    let mut rng = Rng::new(4);
    for n in [3usize, 10, 47] {
        let labels: Vec<u8> = (0..n).map(|i| (i == 0 || i % 2 == 1) as u8).collect();
        let preds: Vec<f32> =
            labels.iter().map(|&y| y as f32 + rng.below(3) as f32 / 8.0).collect();
        assert!((pr(&preds, &labels) - 1.0).abs() < 1e-12);
        assert!((roc(&preds, &labels) - 1.0).abs() < 1e-12);
    }
}
