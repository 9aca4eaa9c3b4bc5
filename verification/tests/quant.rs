use bit_compact::errors::{CompactError, HeaderFault};
use bit_compact::quant::{DistanceMetric, QuantType, Quantizer};
use bit_compact::scalar::{Arithmetic, Scalar};

#[allow(dead_code)]
struct Machine;

#[allow(dead_code)]
fn s(v: f32) -> Scalar {
    Scalar { bits: v.to_bits() }
}

#[allow(dead_code)]
fn f(v: Scalar) -> f32 {
    f32::from_bits(v.bits)
}

#[allow(dead_code)]
fn ss(v: &[f32]) -> Vec<Scalar> {
    v.iter().map(|x| s(*x)).collect()
}

#[allow(dead_code)]
fn ff(v: &[Scalar]) -> Vec<f32> {
    v.iter().map(|x| f(*x)).collect()
}

#[allow(dead_code)]
fn rows(v: &[Vec<f32>]) -> Vec<Vec<Scalar>> {
    v.iter().map(|x| ss(x)).collect()
}

impl Arithmetic for Machine {
    fn sub(&self, a: Scalar, b: Scalar) -> Scalar {
        s(f(a) - f(b))
    }

    fn add(&self, a: Scalar, b: Scalar) -> Scalar {
        s(f(a) + f(b))
    }

    fn mul(&self, a: Scalar, b: Scalar) -> Scalar {
        s(f(a) * f(b))
    }

    fn div(&self, a: Scalar, b: Scalar) -> Scalar {
        s(f(a) / f(b))
    }

    fn sqrt(&self, a: Scalar) -> Scalar {
        s(f(a).sqrt())
    }

    fn of_count(&self, n: usize) -> Scalar {
        s(n as f32)
    }
}

#[test]
fn roundtrip_basic() {
    let q = Quantizer::new(ss(&[0.0, -1.0]), ss(&[1.0, 1.0])).expect("new");
    let v = ss(&[0.5, 0.0]);
    let quantized = q.quantize_vector(&v, &Machine).expect("quantize");
    assert_eq!(quantized, vec![127, 127]);
    let deq = ff(&q.dequantize_vector(&quantized, &Machine).expect("dequantize"));
    assert!((deq[0] - 0.498).abs() < 0.01);
    assert!((deq[1] - (-0.0039)).abs() < 0.01);
}

#[test]
fn clamp_out_of_range() {
    let q = Quantizer::new(ss(&[0.0]), ss(&[1.0])).expect("new");
    let high = q.quantize_vector(&ss(&[2.0]), &Machine).expect("q");
    assert_eq!(high[0], 255);
    let low = q.quantize_vector(&ss(&[-1.0]), &Machine).expect("q");
    assert_eq!(low[0], 0);
}

#[test]
fn degenerate_range() {
    let q = Quantizer::new(ss(&[5.0]), ss(&[5.0])).expect("new");
    let out = q.quantize_vector(&ss(&[5.0]), &Machine).expect("q");
    assert_eq!(out[0], 0);
    let deq = q.dequantize_vector(&out, &Machine).expect("dq");
    assert_eq!(f(deq[0]), 5.0);
}

#[test]
fn calibrate_simple() {
    let data = rows(&[vec![0.0, 10.0], vec![1.0, 20.0], vec![-1.0, 15.0]]);
    let q = Quantizer::calibrate(&data).expect("calibrate");
    assert_eq!(ff(q.min_bounds()), &[-1.0, 10.0]);
    assert_eq!(ff(q.max_bounds()), &[1.0, 20.0]);
}

#[test]
fn degenerate_range_above_the_bound() {
    let q = Quantizer::new(ss(&[5.0]), ss(&[5.0])).expect("new");
    assert_eq!(q.quantize_vector(&ss(&[6.0]), &Machine).expect("q"), vec![255]);
    assert_eq!(q.quantize_vector(&ss(&[4.0]), &Machine).expect("q"), vec![0]);
    let mut out = [9u8];
    q.quantize_into(&ss(&[6.0]), &mut out, &Machine).expect("into");
    assert_eq!(out, [0]);
}

#[test]
fn bytes_follow_the_order_of_values() {
    let q = Quantizer::new(ss(&[-3.0]), ss(&[7.0])).expect("new");
    let mut last = 0u8;
    for i in 0..200 {
        let v = -5.0 + i as f32 * 0.07;
        let b = q.quantize_vector(&ss(&[v]), &Machine).expect("q")[0];
        assert!(b >= last);
        last = b;
    }
    assert_eq!(last, 255);
}

#[test]
fn bounds_are_checked() {
    let e = Quantizer::new(ss(&[0.0]), ss(&[])).err().expect("lengths");
    assert!(matches!(e, CompactError::DimensionMismatch { expected: 1, found: 0 }));
    let e = Quantizer::new(ss(&[]), ss(&[])).err().expect("empty");
    assert!(matches!(e, CompactError::InvalidHeader(_)));
    let e = Quantizer::new(ss(&[0.0, 2.0]), ss(&[1.0, 1.0])).err().expect("order");
    assert!(matches!(e, CompactError::InvalidHeader(HeaderFault::InvertedBounds { dimension: 1, .. })));
    let e = Quantizer::new(ss(&[f32::NAN]), ss(&[1.0])).err().expect("nan");
    match e {
        CompactError::QuantizationOverflow { dimension: 0, reason, .. } => {
            assert_eq!(reason, "non-finite bound")
        }
        _ => panic!("another error"),
    }
}

#[test]
fn vectors_are_checked() {
    let q = Quantizer::new(ss(&[0.0, 0.0]), ss(&[1.0, 1.0])).expect("new");
    let e = q.quantize_vector(&ss(&[0.5]), &Machine).err().expect("short");
    assert!(matches!(e, CompactError::DimensionMismatch { expected: 2, found: 1 }));
    let e = q.quantize_vector(&ss(&[0.5, f32::INFINITY]), &Machine).err().expect("inf");
    match e {
        CompactError::QuantizationOverflow { dimension: 1, reason, .. } => {
            assert_eq!(reason, "non-finite input value")
        }
        _ => panic!("another error"),
    }
    let e = q.dequantize_vector(&[1], &Machine).err().expect("short");
    assert!(matches!(e, CompactError::DimensionMismatch { expected: 2, found: 1 }));
    let wide = Quantizer::new(ss(&[-3e38]), ss(&[3e38])).expect("wide");
    let e = wide.dequantize_vector(&[255], &Machine).err().expect("overflow");
    match e {
        CompactError::QuantizationOverflow { dimension: 0, reason, .. } => {
            assert_eq!(reason, "non-finite dequantized value")
        }
        _ => panic!("another error"),
    }
}

#[test]
fn batches_keep_their_order() {
    let q = Quantizer::new(ss(&[0.0]), ss(&[255.0])).expect("new");
    let batch = rows(&[vec![3.0], vec![200.0]]);
    let bytes = q.quantize_batch(&batch, &Machine).expect("batch");
    assert_eq!(bytes, vec![vec![3], vec![200]]);
    let back = q.dequantize_batch(&bytes, &Machine).expect("back");
    assert_eq!(ff(&back[1]), vec![200.0]);
    let mut out = ss(&[0.0]);
    q.dequantize_into(&[51], &mut out, &Machine).expect("into");
    assert!((f(out[0]) - 51.0).abs() < 1e-4);
}

#[test]
fn global_bounds_span_all_dimensions() {
    let data = rows(&[vec![0.0, 10.0], vec![-4.0, 3.0]]);
    let q = Quantizer::calibrate_global(&data).expect("global");
    assert_eq!(ff(q.min_bounds()), vec![-4.0, -4.0]);
    assert_eq!(ff(q.max_bounds()), vec![10.0, 10.0]);
}

#[test]
fn percentiles_clip_outliers() {
    let mut data: Vec<Vec<f32>> = (0..=100).map(|i| vec![i as f32]).collect();
    data.push(vec![1000.0]);
    let q = Quantizer::calibrate_percentile(&rows(&data), s(5.0), s(95.0), &Machine)
        .expect("percentile");
    assert!(f(q.max_bounds()[0]) < 100.0);
    assert!(f(q.min_bounds()[0]) >= 5.0);
    let e = Quantizer::calibrate_percentile(&rows(&data), s(95.0), s(5.0), &Machine)
        .err()
        .expect("order");
    assert!(matches!(e, CompactError::InvalidHeader(HeaderFault::InvalidPercentiles { .. })));
}

#[test]
fn calibration_encloses_every_value() {
    let data = vec![vec![1.0, -2.0], vec![0.25, 8.0], vec![-0.5, 3.0]];
    let q = Quantizer::calibrate(&rows(&data)).expect("calibrate");
    for v in &data {
        for d in 0..2 {
            assert!(f(q.min_bounds()[d]) <= v[d] && v[d] <= f(q.max_bounds()[d]));
        }
    }
    let e = Quantizer::calibrate(&[]).err().expect("empty");
    assert!(matches!(e, CompactError::EmptyDataset));
    let e = Quantizer::calibrate(&rows(&[vec![1.0], vec![]])).err().expect("ragged");
    assert!(matches!(e, CompactError::DimensionMismatch { expected: 1, found: 0 }));
    let borrowed: Vec<Vec<Scalar>> = rows(&data);
    let slices: Vec<&[Scalar]> = borrowed.iter().map(|v| v.as_slice()).collect();
    let other = Quantizer::calibrate_slices(&slices).expect("slices");
    assert_eq!(q.min_bounds(), other.min_bounds());
    assert_eq!(q.max_bounds(), other.max_bounds());
}

#[test]
fn tags_roundtrip() {
    for t in [QuantType::RawF32, QuantType::SQ8, QuantType::ProductQ] {
        assert_eq!(QuantType::from_u16(t.as_u16()).expect("tag"), t);
    }
    for m in [DistanceMetric::L2, DistanceMetric::Cosine, DistanceMetric::InnerProduct] {
        assert_eq!(DistanceMetric::from_u16(m.as_u16()).expect("tag"), m);
    }
    assert_eq!(QuantType::SQ8.as_u16(), 1);
    assert_eq!(DistanceMetric::InnerProduct.as_u16(), 2);
    assert!(matches!(QuantType::from_u16(9), Err(CompactError::InvalidQuantType(9))));
    assert!(matches!(
        DistanceMetric::from_u16(7),
        Err(CompactError::InvalidDistanceMetric(7))
    ));
    assert_eq!(QuantType::SQ8.name(), "SQ8");
    assert_eq!(DistanceMetric::Cosine.name(), "Cosine");
}

#[test]
fn reading_back_is_off_by_a_step_at_most() {
    let (lo, hi) = (-3.0f32, 5.0f32);
    let q = Quantizer::new(ss(&[lo]), ss(&[hi])).expect("bounds");
    let step = (hi as f64 - lo as f64) / 255.0;
    for i in 0..=1000 {
        let v = lo + (hi - lo) * (i as f32 / 1000.0);
        let bytes = q.quantize_vector(&ss(&[v]), &Machine).expect("quantize");
        let back = ff(&q.dequantize_vector(&bytes, &Machine).expect("back"))[0];
        assert!((back as f64 - v as f64).abs() <= 1.1 * step);
    }
    let q = Quantizer::new(ss(&[0.7]), ss(&[0.7])).expect("bounds");
    assert_eq!(q.dequantize_vector(&[200], &Machine).expect("back"), ss(&[0.7]));
}

#[test]
fn buffers_and_vectors_hold_the_same() {
    let q = Quantizer::new(ss(&[-1.0, 0.0]), ss(&[1.0, 10.0])).expect("bounds");
    for v in [[-2.0, 3.3], [0.1, 9.99], [0.5, 11.0]] {
        let mut out = [9u8; 2];
        q.quantize_into(&ss(&v), &mut out, &Machine).expect("into");
        assert_eq!(out.to_vec(), q.quantize_vector(&ss(&v), &Machine).expect("new"));
    }
}

#[test]
fn the_formulae() {
    let q = Quantizer::new(ss(&[-1.0]), ss(&[3.0])).expect("bounds");
    for v in [-1.0f32, -0.3, 0.0, 1.7, 2.999, 3.0] {
        let byte = (((v + 1.0) / 4.0) * 255.0).floor() as u8;
        assert_eq!(q.quantize_vector(&ss(&[v]), &Machine).expect("quantize"), vec![byte]);
        let back = -1.0 + (byte as f32 / 255.0) * 4.0;
        assert_eq!(q.dequantize_vector(&[byte], &Machine).expect("back"), ss(&[back]));
    }
}

#[test]
fn percentile_bounds_are_values_between_the_extremes() {
    let data: Vec<Vec<f32>> = (0..40).map(|i| vec![((i * 17) % 40) as f32, -(i as f32)]).collect();
    let base = Quantizer::calibrate(&rows(&data)).expect("base");
    let q = Quantizer::calibrate_percentile(&rows(&data), s(12.5), s(80.0), &Machine).expect("q");
    assert_eq!(ff(q.min_bounds()), vec![4.0, -35.0]);
    assert_eq!(ff(q.max_bounds()), vec![32.0, -7.0]);
    let q = Quantizer::calibrate_percentile(&rows(&data), s(0.0), s(100.0), &Machine).expect("q");
    assert_eq!(q.min_bounds(), base.min_bounds());
    assert_eq!(q.max_bounds(), base.max_bounds());
    for (low, high) in [(50.0, 50.0), (60.0, 40.0), (-1.0, 50.0), (0.0, 101.0), (f32::NAN, 50.0)] {
        let e = Quantizer::calibrate_percentile(&rows(&data), s(low), s(high), &Machine);
        assert!(matches!(e, Err(CompactError::InvalidHeader(_))));
    }
}

#[test]
fn wide_bounds_read_back() {
    let q = Quantizer::new(ss(&[-1e38, 0.25]), ss(&[2e38, 0.25])).expect("bounds");
    for byte in 0..=255u8 {
        let back = q.dequantize_vector(&[byte, byte], &Machine).expect("finite");
        assert!(f(back[0]) >= -1e38 && f(back[0]) <= 2.0001e38);
        assert_eq!(f(back[1]), 0.25);
    }
    let low = 1.5 * 2.0f32.powi(104);
    let q = Quantizer::new(ss(&[low]), ss(&[f32::MAX])).expect("bounds");
    let top = q.quantize_vector(&ss(&[f32::MAX]), &Machine).expect("top");
    assert_eq!(top, vec![255]);
    assert!(q.dequantize_vector(&top, &Machine).is_err());
}
