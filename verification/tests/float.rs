//! Bit patterns against the machine's own numbers.

use perceptree::float::{F32, F64};
use perceptree::sort::order_by_key;

fn f32_samples() -> Vec<f32> {
    let mut v = vec![
        0.0,
        -0.0,
        1.0,
        -1.0,
        0.1,
        -3.5e-39,
        1.0e-45,
        f32::MIN_POSITIVE,
        f32::MAX,
        f32::MIN,
        f32::INFINITY,
        f32::NEG_INFINITY,
        f32::NAN,
        -f32::NAN,
        16777217.0,
        1.0e-20,
    ];
    let mut x = 0x1234_5678u32;
    for _ in 0..200 {
        x = x.wrapping_mul(1664525).wrapping_add(1013904223);
        v.push(f32::from_bits(x));
    }
    v
}

#[test]
fn narrow_comparisons_match_the_machine() {
    for &a in &f32_samples() {
        let x = F32 { bits: a.to_bits() };
        assert_eq!(x.is_nan(), a.is_nan());
        assert_eq!(x.is_finite(), a.is_finite());
        assert_eq!(x.negated().bits, (-a).to_bits());
        for &b in &f32_samples() {
            let y = F32 { bits: b.to_bits() };
            assert_eq!(x.less(y), a < b, "{a} < {b}");
            assert_eq!(x.at_most(y), a <= b, "{a} <= {b}");
            assert_eq!(x.equals(y), a == b, "{a} == {b}");
            if a < b {
                assert!(x.order_key() < y.order_key());
            }
        }
    }
}

#[test]
fn widening_is_exact() {
    for &a in &f32_samples() {
        let w = f64::from_bits(F32 { bits: a.to_bits() }.widened().bits);
        if a.is_nan() {
            assert!(w.is_nan());
        } else {
            assert_eq!(w.to_bits(), (a as f64).to_bits(), "{a}");
        }
    }
}

#[test]
fn wide_comparisons_match_the_machine() {
    let samples: Vec<f64> = f32_samples()
        .iter()
        .map(|&x| x as f64)
        .chain([5e-324, -5e-324, f64::MAX, f64::MIN, 1e-300, 0.1, 1.0 / 3.0])
        .collect();
    for &a in &samples {
        let x = F64 { bits: a.to_bits() };
        assert_eq!(x.is_nan(), a.is_nan());
        assert_eq!(x.is_finite(), a.is_finite());
        assert_eq!(x.negated().bits, (-a).to_bits());
        let lo = F64 { bits: (-0.5f64).to_bits() };
        let hi = F64 { bits: 0.75f64.to_bits() };
        let c = f64::from_bits(x.clamped(lo, hi).bits);
        if a.is_nan() {
            assert!(c.is_nan());
        } else {
            assert_eq!(c, a.clamp(-0.5, 0.75));
        }
        for &b in &samples {
            let y = F64 { bits: b.to_bits() };
            assert_eq!(x.less(y), a < b);
            assert_eq!(x.at_most(y), a <= b);
            if a < b {
                assert!(x.order_key() < y.order_key());
            }
        }
    }
}

#[test]
fn integers_and_fractions_are_exact() {
    for n in 0..=255u8 {
        assert_eq!(f64::from_bits(F64::from_byte(n).bits), n as f64);
    }
    for x in [0u32, 1, 2, 3, 255, 256, 12345, 8388607, 8388608, 16777215] {
        let f = f32::from_bits(F32::from_fraction(x).bits);
        assert_eq!(f, x as f32 / 16777216.0);
    }
}

#[test]
fn sorting_is_stable() {
    let keys: Vec<u128> = vec![3, 1, 2, 3, 1, u128::MAX, 0, 2];
    assert_eq!(order_by_key(&keys), vec![6, 1, 4, 2, 7, 0, 3, 5]);
    assert_eq!(order_by_key(&Vec::new()), Vec::<usize>::new());
    let many: Vec<u128> = (0..1000u128).map(|i| (i * 7919) % 97).collect();
    let mut expected: Vec<usize> = (0..1000).collect();
    expected.sort_by_key(|&i| many[i]);
    assert_eq!(order_by_key(&many), expected);
}
