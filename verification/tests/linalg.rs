//! The Cholesky solve.

use perceptree::arith::Arith;
use perceptree::float::{F32, F64};
use perceptree::linalg::{cholesky_solve, SymMatrix};

/// The machine's floating-point arithmetic.
struct Native;

fn d(x: F64) -> f64 {
    f64::from_bits(x.bits)
}

fn s(x: F32) -> f32 {
    f32::from_bits(x.bits)
}

fn f64v(x: f64) -> F64 {
    F64 { bits: x.to_bits() }
}

fn f32v(x: f32) -> F32 {
    F32 { bits: x.to_bits() }
}

impl Arith for Native {
    fn sum(a: F64, b: F64) -> F64 {
        f64v(d(a) + d(b))
    }
    fn diff(a: F64, b: F64) -> F64 {
        f64v(d(a) - d(b))
    }
    fn prod(a: F64, b: F64) -> F64 {
        f64v(d(a) * d(b))
    }
    fn quot(a: F64, b: F64) -> F64 {
        f64v(d(a) / d(b))
    }
    fn sqrt(a: F64) -> F64 {
        f64v(d(a).sqrt())
    }
    fn exp(a: F64) -> F64 {
        f64v(d(a).exp())
    }
    fn ln(a: F64) -> F64 {
        f64v(d(a).ln())
    }
    fn round(a: F64) -> F64 {
        f64v(d(a).round())
    }
    fn from_int(n: i128) -> F64 {
        f64v(n as f64)
    }
    fn to_index(a: F64) -> usize {
        d(a) as usize
    }
    fn sum32(a: F32, b: F32) -> F32 {
        f32v(s(a) + s(b))
    }
    fn diff32(a: F32, b: F32) -> F32 {
        f32v(s(a) - s(b))
    }
    fn prod32(a: F32, b: F32) -> F32 {
        f32v(s(a) * s(b))
    }
    fn quot32(a: F32, b: F32) -> F32 {
        f32v(s(a) / s(b))
    }
    fn exp32(a: F32) -> F32 {
        f32v(s(a).exp())
    }
    fn ln_1p32(n: u32) -> F32 {
        f32v((n as f32).ln_1p())
    }
    fn narrow(a: F64) -> F32 {
        f32v(d(a) as f32)
    }
}

fn vector(v: &[f64]) -> Vec<F64> {
    v.iter().map(|&x| f64v(x)).collect()
}

#[test]
fn solves_2x2() {
    // [[4,1],[1,3]] x = [1,2] -> x = [1/11, 7/11]
    let mut a = SymMatrix::zeros(2);
    a.add::<Native>(0, 0, f64v(4.0));
    a.add::<Native>(0, 1, f64v(1.0));
    a.add::<Native>(1, 0, f64v(1.0));
    a.add::<Native>(1, 1, f64v(3.0));
    let x = cholesky_solve::<Native>(a, &vector(&[1.0, 2.0])).unwrap();
    assert!((d(x[0]) - 1.0 / 11.0).abs() < 1e-9);
    assert!((d(x[1]) - 7.0 / 11.0).abs() < 1e-9);
}

#[test]
fn matches_identity() {
    let mut a = SymMatrix::zeros(3);
    a.add_diag::<Native>(f64v(2.0));
    let x = cholesky_solve::<Native>(a, &vector(&[2.0, 4.0, 6.0])).unwrap();
    for (xi, expect) in x.iter().zip([1.0, 2.0, 3.0]) {
        assert!((d(*xi) - expect).abs() < 1e-9);
    }
}

#[test]
fn rejects_non_pd() {
    let mut a = SymMatrix::zeros(2);
    a.add::<Native>(0, 0, f64v(1.0));
    a.add::<Native>(0, 1, f64v(2.0));
    a.add::<Native>(1, 0, f64v(2.0));
    a.add::<Native>(1, 1, f64v(1.0)); // indefinite
    assert!(cholesky_solve::<Native>(a, &vector(&[1.0, 1.0])).is_none());
}

#[test]
fn cells_add_up() {
    let mut a = SymMatrix::zeros(3);
    assert_eq!(d(a.get(2, 1)), 0.0);
    a.add::<Native>(2, 1, f64v(1.5));
    a.add::<Native>(2, 1, f64v(2.0));
    a.add_diag::<Native>(f64v(0.5));
    assert_eq!(d(a.get(2, 1)), 3.5);
    assert_eq!(d(a.get(1, 2)), 0.0);
    assert_eq!(d(a.get(1, 1)), 0.5);
}

#[test]
fn exact_solution_of_a_diagonal_system() {
    let mut a = SymMatrix::zeros(2);
    a.add::<Native>(0, 0, f64v(4.0));
    a.add::<Native>(1, 1, f64v(16.0));
    let x = cholesky_solve::<Native>(a, &vector(&[2.0, 4.0])).unwrap();
    assert_eq!((d(x[0]), d(x[1])), (0.5, 0.25));
}

#[test]
fn empty_zero_and_infinite_systems() {
    assert_eq!(cholesky_solve::<Native>(SymMatrix::zeros(0), &Vec::new()).unwrap().len(), 0);
    assert!(cholesky_solve::<Native>(SymMatrix::zeros(1), &vector(&[1.0])).is_none());
    let mut a = SymMatrix::zeros(1);
    a.add::<Native>(0, 0, f64v(f64::INFINITY));
    assert!(cholesky_solve::<Native>(a, &vector(&[1.0])).is_none());
}
