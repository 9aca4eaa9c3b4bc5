use bit_compact::errors::CompactError;
use bit_compact::ops::{clamp, l2_norm, mean, scale, variance};
use bit_compact::scalar::{Arithmetic, Scalar};

#[allow(dead_code)]
struct Machine;

#[allow(dead_code)]
fn s(v: f32) -> Scalar {
    Scalar { bits: v.to_bits() }
}

#[allow(dead_code)]
fn f(v: Scalar) -> f32 {
    f32::from_bits(v.bits)
}

#[allow(dead_code)]
fn ss(v: &[f32]) -> Vec<Scalar> {
    v.iter().map(|x| s(*x)).collect()
}

#[allow(dead_code)]
fn ff(v: &[Scalar]) -> Vec<f32> {
    v.iter().map(|x| f(*x)).collect()
}

#[allow(dead_code)]
fn rows(v: &[Vec<f32>]) -> Vec<Vec<Scalar>> {
    v.iter().map(|x| ss(x)).collect()
}

impl Arithmetic for Machine {
    fn sub(&self, a: Scalar, b: Scalar) -> Scalar {
        s(f(a) - f(b))
    }

    fn add(&self, a: Scalar, b: Scalar) -> Scalar {
        s(f(a) + f(b))
    }

    fn mul(&self, a: Scalar, b: Scalar) -> Scalar {
        s(f(a) * f(b))
    }

    fn div(&self, a: Scalar, b: Scalar) -> Scalar {
        s(f(a) / f(b))
    }

    fn sqrt(&self, a: Scalar) -> Scalar {
        s(f(a).sqrt())
    }

    fn of_count(&self, n: usize) -> Scalar {
        s(n as f32)
    }
}

#[test]
fn add_sub() {
    let a = ss(&[1.0, 2.0]);
    let b = ss(&[3.0, 4.0]);
    let mut out = ss(&[0.0; 2]);
    bit_compact::ops::add(&a, &b, &mut out, &Machine).unwrap();
    assert_eq!(ff(&out), [4.0, 6.0]);
    bit_compact::ops::sub(&b, &a, &mut out, &Machine).unwrap();
    assert_eq!(ff(&out), [2.0, 2.0]);
}

#[test]
fn norm() {
    assert!((f(l2_norm(&ss(&[3.0, 4.0]), &Machine)) - 5.0).abs() < 1e-6);
}

#[test]
fn scaling_and_lengths() {
    let mut out = ss(&[0.0; 2]);
    scale(&ss(&[1.5, -2.0]), s(2.0), &mut out, &Machine).unwrap();
    assert_eq!(ff(&out), [3.0, -4.0]);
    let e = scale(&ss(&[1.0]), s(2.0), &mut out, &Machine).err().expect("lengths");
    assert!(matches!(e, CompactError::DimensionMismatch { expected: 1, found: 2 }));
    let e = bit_compact::ops::add(&ss(&[1.0]), &ss(&[1.0, 2.0]), &mut out, &Machine)
        .err()
        .expect("lengths");
    assert!(matches!(e, CompactError::DimensionMismatch { expected: 1, found: 2 }));
}

#[test]
fn means_and_variances() {
    let data = rows(&[vec![0.0, 10.0], vec![2.0, 20.0]]);
    let m = mean(&data, &Machine).expect("mean");
    assert_eq!(ff(&m), vec![1.0, 15.0]);
    let v = variance(&data, &m, &Machine).expect("variance");
    assert_eq!(ff(&v), vec![1.0, 25.0]);
    assert!(matches!(mean(&[], &Machine), Err(CompactError::EmptyDataset)));
    assert!(mean(&rows(&[vec![1.0], vec![1.0, 2.0]]), &Machine).is_err());
}

#[test]
fn clamping() {
    let mut v = ss(&[-1.0, 0.5, 3.0]);
    clamp(&mut v, s(0.0), s(1.0));
    assert_eq!(ff(&v), vec![0.0, 0.5, 1.0]);
}
