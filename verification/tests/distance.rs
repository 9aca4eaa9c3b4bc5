use bit_compact::distance::{
    batch_distance, batch_l2_squared, cosine_distance, cosine_similarity, distance, dot,
    inner_product_distance, l2, l2_norm, l2_squared, normalize, normalized,
};
use bit_compact::errors::{CompactError, HeaderFault};
use bit_compact::quant::DistanceMetric;
use bit_compact::scalar::{Arithmetic, Scalar};

#[allow(dead_code)]
struct Machine;

#[allow(dead_code)]
fn s(v: f32) -> Scalar {
    Scalar { bits: v.to_bits() }
}

#[allow(dead_code)]
fn f(v: Scalar) -> f32 {
    f32::from_bits(v.bits)
}

#[allow(dead_code)]
fn ss(v: &[f32]) -> Vec<Scalar> {
    v.iter().map(|x| s(*x)).collect()
}

#[allow(dead_code)]
fn ff(v: &[Scalar]) -> Vec<f32> {
    v.iter().map(|x| f(*x)).collect()
}

#[allow(dead_code)]
fn rows(v: &[Vec<f32>]) -> Vec<Vec<Scalar>> {
    v.iter().map(|x| ss(x)).collect()
}

impl Arithmetic for Machine {
    fn sub(&self, a: Scalar, b: Scalar) -> Scalar {
        s(f(a) - f(b))
    }

    fn add(&self, a: Scalar, b: Scalar) -> Scalar {
        s(f(a) + f(b))
    }

    fn mul(&self, a: Scalar, b: Scalar) -> Scalar {
        s(f(a) * f(b))
    }

    fn div(&self, a: Scalar, b: Scalar) -> Scalar {
        s(f(a) / f(b))
    }

    fn sqrt(&self, a: Scalar) -> Scalar {
        s(f(a).sqrt())
    }

    fn of_count(&self, n: usize) -> Scalar {
        s(n as f32)
    }
}

#[test]
fn l2_basic() {
    let a = ss(&[0.0, 0.0]);
    let b = ss(&[3.0, 4.0]);
    assert!((f(l2_squared(&a, &b, &Machine).unwrap()) - 25.0).abs() < 1e-6);
    assert!((f(l2(&a, &b, &Machine).unwrap()) - 5.0).abs() < 1e-6);
}

#[test]
fn dot_basic() {
    let a = ss(&[1.0, 2.0, 3.0]);
    let b = ss(&[4.0, 5.0, 6.0]);
    assert!((f(dot(&a, &b, &Machine).unwrap()) - 32.0).abs() < 1e-6);
}

#[test]
fn cosine_identical() {
    let a = ss(&[1.0, 0.0]);
    let b = ss(&[1.0, 0.0]);
    assert!(f(cosine_distance(&a, &b, &Machine).unwrap()).abs() < 1e-6);
}

#[test]
fn cosine_opposite() {
    let a = ss(&[1.0, 0.0]);
    let b = ss(&[-1.0, 0.0]);
    assert!((f(cosine_distance(&a, &b, &Machine).unwrap()) - 2.0).abs() < 1e-6);
}

#[test]
fn dispatch() {
    let a = ss(&[1.0, 2.0]);
    let b = ss(&[1.0, 2.0]);
    assert!(f(distance(DistanceMetric::L2, &a, &b, &Machine).unwrap()).abs() < 1e-6);
    assert!(f(distance(DistanceMetric::Cosine, &a, &b, &Machine).unwrap()).abs() < 1e-6);
    assert!(f(distance(DistanceMetric::InnerProduct, &a, &b, &Machine).unwrap()) < 0.0);
}

#[test]
fn dim_mismatch() {
    let a = ss(&[1.0, 2.0]);
    let b = ss(&[1.0]);
    assert!(l2(&a, &b, &Machine).is_err());
}

#[test]
fn six_coordinates_take_both_loops() {
    let a = ss(&[1.0, 2.0, 3.0, 4.0, 5.0, 6.0]);
    let b = ss(&[6.0, 5.0, 4.0, 3.0, 2.0, 1.0]);
    assert_eq!(f(dot(&a, &b, &Machine).unwrap()), 56.0);
    assert_eq!(f(l2_squared(&a, &b, &Machine).unwrap()), 70.0);
    assert_eq!(f(inner_product_distance(&a, &b, &Machine).unwrap()), -56.0);
}

#[test]
fn empty_vectors_have_no_distance() {
    let e = l2(&[], &[], &Machine).err().expect("empty");
    assert!(matches!(e, CompactError::InvalidHeader(HeaderFault::Text(m)) if m == "distance: dims must be > 0"));
}

#[test]
fn zero_vectors_have_no_direction() {
    let a = ss(&[0.0, 0.0]);
    let b = ss(&[1.0, 0.0]);
    assert_eq!(f(cosine_distance(&a, &b, &Machine).unwrap()), 1.0);
    assert_eq!(f(cosine_similarity(&b, &b, &Machine).unwrap()), 1.0);
}

#[test]
fn batches_of_distances() {
    let q = ss(&[0.0, 0.0]);
    let data = rows(&[vec![1.0, 0.0], vec![0.0, 2.0]]);
    assert_eq!(ff(&batch_l2_squared(&q, &data, &Machine).unwrap()), vec![1.0, 4.0]);
    let d = batch_distance(DistanceMetric::L2, &q, &data, &Machine).unwrap();
    assert_eq!(ff(&d), vec![1.0, 4.0]);
    assert!(batch_l2_squared(&q, &rows(&[vec![1.0]]), &Machine).is_err());
}

#[test]
fn normalizing() {
    let v = ss(&[3.0, 4.0]);
    assert_eq!(f(l2_norm(&v, &Machine)), 5.0);
    let u = ff(&normalized(&v, &Machine));
    assert!((u[0] - 0.6).abs() < 1e-6 && (u[1] - 0.8).abs() < 1e-6);
    let mut z = ss(&[0.0, 0.0]);
    normalize(&mut z, &Machine);
    assert_eq!(ff(&z), vec![0.0, 0.0]);
}
