use bit_compact::errors::{CompactError, HeaderFault};
use bit_compact::pipeline::{Pipeline, StageList};
use bit_compact::quant::Quantizer;
use bit_compact::scalar::{Arithmetic, Scalar};
use bit_compact::transform::{
    transform_dataset, Centering, Chain, Dimensioned, Identity, Normalizer, Standardizer,
    Transform,
};

#[allow(dead_code)]
struct Machine;

#[allow(dead_code)]
fn s(v: f32) -> Scalar {
    Scalar { bits: v.to_bits() }
}

#[allow(dead_code)]
fn f(v: Scalar) -> f32 {
    f32::from_bits(v.bits)
}

#[allow(dead_code)]
fn ss(v: &[f32]) -> Vec<Scalar> {
    v.iter().map(|x| s(*x)).collect()
}

#[allow(dead_code)]
fn ff(v: &[Scalar]) -> Vec<f32> {
    v.iter().map(|x| f(*x)).collect()
}

#[allow(dead_code)]
fn rows(v: &[Vec<f32>]) -> Vec<Vec<Scalar>> {
    v.iter().map(|x| ss(x)).collect()
}

impl Arithmetic for Machine {
    fn sub(&self, a: Scalar, b: Scalar) -> Scalar {
        s(f(a) - f(b))
    }

    fn add(&self, a: Scalar, b: Scalar) -> Scalar {
        s(f(a) + f(b))
    }

    fn mul(&self, a: Scalar, b: Scalar) -> Scalar {
        s(f(a) * f(b))
    }

    fn div(&self, a: Scalar, b: Scalar) -> Scalar {
        s(f(a) / f(b))
    }

    fn sqrt(&self, a: Scalar) -> Scalar {
        s(f(a).sqrt())
    }

    fn of_count(&self, n: usize) -> Scalar {
        s(n as f32)
    }
}

#[test]
fn normalizer_unit() {
    let n = Normalizer::new(2);
    let mut out = ss(&[0.0; 2]);
    n.transform(&ss(&[3.0, 4.0]), &mut out, &Machine).expect("norm");
    let out = ff(&out);
    assert!((out[0] - 0.6).abs() < 1e-6);
    assert!((out[1] - 0.8).abs() < 1e-6);
}

#[test]
fn centering() {
    let data = rows(&[vec![0.0, 10.0], vec![2.0, 20.0]]);
    let c = Centering::from_data(&data, &Machine).expect("center");
    assert_eq!(ff(c.mean()), &[1.0, 15.0]);
    let mut out = ss(&[0.0; 2]);
    c.transform(&ss(&[1.0, 15.0]), &mut out, &Machine).expect("t");
    let out = ff(&out);
    assert!(out[0].abs() < 1e-6 && out[1].abs() < 1e-6);
}

#[test]
fn standardizer() {
    let data = rows(&[vec![0.0], vec![2.0], vec![4.0]]);
    let t = Standardizer::from_data(&data, &Machine).expect("std");
    let mut out = ss(&[0.0; 1]);
    t.transform(&ss(&[2.0]), &mut out, &Machine).expect("t");
    assert!(f(out[0]).abs() < 1e-6);
}

#[test]
fn chain() {
    let n = Normalizer::new(2);
    let id = Identity::new(2);
    let chained = Chain::new(n.clone(), id).expect("chain");
    let mut out = ss(&[0.0; 2]);
    chained.transform(&ss(&[3.0, 4.0]), &mut out, &Machine).expect("c");
    assert!((f(out[0]) - 0.6).abs() < 1e-6);
    let alone = n.transform_vector(&ss(&[3.0, 4.0]), &Machine).expect("alone");
    assert_eq!(out, alone);
}

#[test]
fn pipeline_normalize() {
    let p = Pipeline::new().add_transform(Normalizer::new(2));
    let out = p.run(ss(&[3.0, 4.0]), &Machine).unwrap();
    assert!((f(out[0]) - 0.6).abs() < 1e-6);
}

#[test]
fn lengths_are_checked() {
    let id = Identity::new(2);
    assert_eq!(id.dims(), 2);
    let e = id.transform_vector(&ss(&[1.0]), &Machine).err().expect("short");
    assert!(matches!(e, CompactError::DimensionMismatch { expected: 2, found: 1 }));
    let mut small = ss(&[0.0]);
    let e = id.transform(&ss(&[1.0, 2.0]), &mut small, &Machine).err().expect("room");
    assert!(matches!(e, CompactError::DimensionMismatch { expected: 2, found: 2 }));
    let e = Chain::new(Identity::new(2), Identity::new(3)).err().expect("chain");
    assert!(matches!(e, CompactError::DimensionMismatch { expected: 2, found: 3 }));
    let e = Centering::new(Vec::new()).err().expect("empty");
    assert_eq!(
        matches!(e, CompactError::InvalidHeader(HeaderFault::Text(m)) if m == "centering mean empty"),
        true
    );
    assert!(matches!(Standardizer::from_data(&[], &Machine), Err(CompactError::EmptyDataset)));
}

#[test]
fn deviations_are_not_too_small() {
    let t = Standardizer::from_data(&rows(&[vec![1.0], vec![1.0]]), &Machine).expect("std");
    assert_eq!(f(t.deviation()[0]), 1e-6);
    let u = t.clone();
    assert_eq!(u.mean(), t.mean());
    let n = Normalizer::with_epsilon(1, s(4.0));
    assert_eq!(ff(&n.transform_vector(&ss(&[2.0]), &Machine).expect("n")), vec![0.5]);
}

#[test]
fn datasets_up_to_the_first_fault() {
    let id = Identity::new(1);
    let good = rows(&[vec![1.0], vec![2.0]]);
    assert_eq!(transform_dataset(&id, &good, &Machine).expect("good"), good);
    let bad = rows(&[vec![1.0], vec![1.0, 2.0]]);
    let e = transform_dataset(&id, &bad, &Machine).err().expect("bad");
    assert!(matches!(e, CompactError::DimensionMismatch { expected: 1, found: 2 }));
}

#[test]
fn pipelines_end_in_a_quantizer() {
    let q = Quantizer::new(ss(&[0.0, 0.0]), ss(&[255.0, 255.0])).expect("new");
    let c = Centering::new(ss(&[1.0, 1.0])).expect("center");
    let mut p = Pipeline::new().add_transform(c).with_quantizer(q.clone());
    let out = p.run(ss(&[4.5, 11.25]), &Machine).expect("run");
    assert_eq!(ff(&out), vec![3.0, 10.0]);
    p.set_quantizer(q);
    let batch = p.run_batch(&rows(&[vec![2.0, 3.0]]), &Machine).expect("batch");
    assert_eq!(batch[0].len(), 2);
    let e = p.run(ss(&[1.0]), &Machine).err().expect("short");
    assert!(matches!(e, CompactError::DimensionMismatch { expected: 2, found: 1 }));
    assert!(p.run_batch(&rows(&[vec![2.0, 3.0], vec![f32::NAN, 0.0]]), &Machine).is_err());
    let unchanged = Pipeline::default().run(ss(&[7.0]), &Machine).expect("run");
    assert_eq!(unchanged, ss(&[7.0]));
}

#[test]
fn a_list_of_stages_made_at_run_time() {
    let mut list: StageList<Machine> = StageList::new();
    assert!(list.is_empty());
    for _ in 0..3 {
        list.push(Box::new(Normalizer::new(2)));
    }
    assert_eq!(list.len(), 3);
    let mut p = Pipeline::of_list(list);
    let out = p.run(ss(&[3.0, 4.0]), &Machine).expect("run");
    assert!((f(out[0]) - 0.6).abs() < 1e-6);
    p.push_transform(Box::new(Centering::new(ss(&[1.0, 1.0])).expect("mean")));
    let out = p.run(ss(&[3.0, 4.0]), &Machine).expect("run");
    assert!((f(out[1]) + 0.2).abs() < 1e-6);
    p.push_transform(Box::new(Identity::new(3)));
    let e = p.run(ss(&[3.0, 4.0]), &Machine).err().expect("length");
    assert!(matches!(e, CompactError::DimensionMismatch { expected: 3, found: 2 }));
    let none: StageList<Machine> = StageList::new();
    let out = Pipeline::of_list(none).run(ss(&[3.0]), &Machine).expect("run");
    assert_eq!(out, ss(&[3.0]));
}

#[test]
fn refused_vectors_leave_the_output_alone() {
    let mut out = ss(&[7.0, 8.0]);
    assert!(Normalizer::new(2).transform(&ss(&[1.0]), &mut out, &Machine).is_err());
    assert!(Identity::new(3).transform(&ss(&[1.0, 2.0]), &mut out, &Machine).is_err());
    assert_eq!(out, ss(&[7.0, 8.0]));
}
