use bit_compact::metrics::{count_hits, evaluate_search, mrr, recall_precision_at_k};
use bit_compact::quant::{DistanceMetric, QuantType, Quantizer};
use bit_compact::scalar::{Arithmetic, Scalar};
use bit_compact::storage::{CompactReader, CompactWriter};
use bit_compact::wide::{Wide, WideArithmetic};

#[allow(dead_code)]
struct Machine;

#[allow(dead_code)]
fn s(v: f32) -> Scalar {
    Scalar { bits: v.to_bits() }
}

#[allow(dead_code)]
fn f(v: Scalar) -> f32 {
    f32::from_bits(v.bits)
}

#[allow(dead_code)]
fn ss(v: &[f32]) -> Vec<Scalar> {
    v.iter().map(|x| s(*x)).collect()
}

#[allow(dead_code)]
fn ff(v: &[Scalar]) -> Vec<f32> {
    v.iter().map(|x| f(*x)).collect()
}

#[allow(dead_code)]
fn rows(v: &[Vec<f32>]) -> Vec<Vec<Scalar>> {
    v.iter().map(|x| ss(x)).collect()
}

impl Arithmetic for Machine {
    fn sub(&self, a: Scalar, b: Scalar) -> Scalar {
        s(f(a) - f(b))
    }

    fn add(&self, a: Scalar, b: Scalar) -> Scalar {
        s(f(a) + f(b))
    }

    fn mul(&self, a: Scalar, b: Scalar) -> Scalar {
        s(f(a) * f(b))
    }

    fn div(&self, a: Scalar, b: Scalar) -> Scalar {
        s(f(a) / f(b))
    }

    fn sqrt(&self, a: Scalar) -> Scalar {
        s(f(a).sqrt())
    }

    fn of_count(&self, n: usize) -> Scalar {
        s(n as f32)
    }
}

#[allow(dead_code)]
fn w(v: f64) -> Wide {
    Wide { bits: v.to_bits() }
}

#[allow(dead_code)]
fn d(v: Wide) -> f64 {
    f64::from_bits(v.bits)
}

impl WideArithmetic for Machine {
    fn widen(&self, a: Scalar) -> Wide {
        w(f(a) as f64)
    }

    fn narrow(&self, a: Wide) -> Scalar {
        s(d(a) as f32)
    }

    fn wide_count(&self, n: u64) -> Wide {
        w(n as f64)
    }

    fn plus(&self, a: Wide, b: Wide) -> Wide {
        w(d(a) + d(b))
    }

    fn minus(&self, a: Wide, b: Wide) -> Wide {
        w(d(a) - d(b))
    }

    fn times(&self, a: Wide, b: Wide) -> Wide {
        w(d(a) * d(b))
    }

    fn over(&self, a: Wide, b: Wide) -> Wide {
        w(d(a) / d(b))
    }

    fn log10(&self, a: Wide) -> Wide {
        w(d(a).log10())
    }
}

/// A finished file with these vectors.
#[allow(dead_code)]
fn file_of(data: &[Vec<f32>], metric: DistanceMetric, align: bool) -> Vec<u8> {
    let data = rows(data);
    let q = Quantizer::calibrate(&data).expect("calibrate");
    let (mut writer, mut body) =
        CompactWriter::create(q, QuantType::SQ8, metric).expect("create");
    for v in &data {
        body.extend(writer.append(v, &Machine).expect("append"));
    }
    writer.finalize_with_padding(align).expect("finalize").apply(body)
}

#[allow(dead_code)]
fn reader_of(file: &[u8]) -> CompactReader {
    CompactReader::open(file).expect("open")
}

#[test]
fn recall_simple() {
    let truth = vec![1, 2, 3];
    let pred = vec![2, 3, 4];
    let (r, p) = recall_precision_at_k(&truth, &pred, 3, &Machine);
    assert!((d(r) - 0.666).abs() < 0.01);
    assert!((d(p) - 0.666).abs() < 0.01);
}

#[test]
fn mrr_test() {
    assert!((d(mrr(2, &[1, 2, 3], &Machine)) - 0.5).abs() < 1e-6);
    assert!((d(mrr(5, &[1, 2, 3], &Machine)) - 0.0).abs() < 1e-6);
}

#[test]
fn only_the_first_answers_count() {
    assert_eq!(count_hits(&[1, 2, 3], &[3, 1, 2], 2), (2, 1));
    assert_eq!(count_hits(&[], &[3], 4), (1, 0));
    assert_eq!(count_hits(&[7, 8], &[7, 8], 9), (2, 2));
    assert_eq!(count_hits(&[1], &[], 3), (0, 0));
    let (r, p) = recall_precision_at_k(&[1], &[1], 0, &Machine);
    assert_eq!((d(r), d(p)), (0.0, 0.0));
}

#[test]
fn a_search_agrees_with_itself() {
    let data: Vec<Vec<f32>> = (0..8).map(|i| vec![i as f32, 1.0]).collect();
    let file = file_of(&data, DistanceMetric::L2, false);
    let r = reader_of(&file);
    let queries = rows(&[vec![2.0, 1.0], vec![5.0, 1.0]]);
    let m = evaluate_search(&r, &file, &queries, 3, DistanceMetric::L2, &Machine, &Machine)
        .expect("evaluate");
    assert_eq!((d(m.recall_at_k), d(m.precision_at_k), d(m.mrr)), (1.0, 1.0, 1.0));
    let none = evaluate_search(&r, &file, &[], 3, DistanceMetric::L2, &Machine, &Machine)
        .expect("evaluate");
    assert_eq!(d(none.mrr), 0.0);
    let bad = rows(&[vec![2.0]]);
    assert!(evaluate_search(&r, &file, &bad, 3, DistanceMetric::L2, &Machine, &Machine).is_err());
}
