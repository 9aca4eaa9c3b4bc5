use bit_compact::errors::CompactError;
use bit_compact::quant::{DistanceMetric, QuantType, Quantizer};
use bit_compact::scalar::{Arithmetic, Scalar};
use bit_compact::storage::{CompactReader, CompactWriter};
use bit_compact::validate::{quick_check, validate};

#[allow(dead_code)]
struct Machine;

#[allow(dead_code)]
fn s(v: f32) -> Scalar {
    Scalar { bits: v.to_bits() }
}

#[allow(dead_code)]
fn f(v: Scalar) -> f32 {
    f32::from_bits(v.bits)
}

#[allow(dead_code)]
fn ss(v: &[f32]) -> Vec<Scalar> {
    v.iter().map(|x| s(*x)).collect()
}

#[allow(dead_code)]
fn ff(v: &[Scalar]) -> Vec<f32> {
    v.iter().map(|x| f(*x)).collect()
}

#[allow(dead_code)]
fn rows(v: &[Vec<f32>]) -> Vec<Vec<Scalar>> {
    v.iter().map(|x| ss(x)).collect()
}

impl Arithmetic for Machine {
    fn sub(&self, a: Scalar, b: Scalar) -> Scalar {
        s(f(a) - f(b))
    }

    fn add(&self, a: Scalar, b: Scalar) -> Scalar {
        s(f(a) + f(b))
    }

    fn mul(&self, a: Scalar, b: Scalar) -> Scalar {
        s(f(a) * f(b))
    }

    fn div(&self, a: Scalar, b: Scalar) -> Scalar {
        s(f(a) / f(b))
    }

    fn sqrt(&self, a: Scalar) -> Scalar {
        s(f(a).sqrt())
    }

    fn of_count(&self, n: usize) -> Scalar {
        s(n as f32)
    }
}

/// A finished file with these vectors.
#[allow(dead_code)]
fn file_of(data: &[Vec<f32>], metric: DistanceMetric, align: bool) -> Vec<u8> {
    let data = rows(data);
    let q = Quantizer::calibrate(&data).expect("calibrate");
    let (mut writer, mut body) =
        CompactWriter::create(q, QuantType::SQ8, metric).expect("create");
    for v in &data {
        body.extend(writer.append(v, &Machine).expect("append"));
    }
    writer.finalize_with_padding(align).expect("finalize").apply(body)
}

#[allow(dead_code)]
fn reader_of(file: &[u8]) -> CompactReader {
    CompactReader::open(file).expect("open")
}

#[test]
fn validate_ok() {
    let file = file_of(&[vec![0.0, 1.0], vec![1.0, 0.0]], DistanceMetric::L2, false);
    let rep = validate("some.btcp".to_string(), &file).expect("validate");
    assert!(rep.is_valid(), "report not valid: {}", rep.summary());
    assert!(rep.checksum_valid);
}

#[test]
fn quick_check_bad() {
    let bytes = [0u8; 32];
    assert!(
        validate("p".to_string(), &bytes).is_err()
            || !validate("p".to_string(), &bytes).unwrap().is_valid()
    );
    assert!(quick_check(&bytes, 32).is_err());
}

#[test]
fn padded_files_are_valid() {
    let file = file_of(&[vec![0.0, 1.0], vec![1.0, 0.0]], DistanceMetric::L2, true);
    let rep = validate("p".to_string(), &file).expect("validate");
    assert!(rep.is_valid());
    assert_eq!(rep.footer_offset, 4096);
    assert_eq!(rep.file_size, file.len() as u64);
}

#[test]
fn every_fault_is_listed() {
    let mut file = file_of(&[vec![0.0], vec![1.0], vec![0.5]], DistanceMetric::L2, false);
    file[40] ^= 0xff;
    let ids = 43;
    file[ids..ids + 8].copy_from_slice(&9u64.to_be_bytes());
    file[32..36].copy_from_slice(&f32::NAN.to_be_bytes());
    let rep = validate("p".to_string(), &file).expect("validate");
    assert!(!rep.is_valid());
    assert!(!rep.checksum_valid);
    assert!(!rep.row_ids_monotonic);
    assert!(!rep.metadata_finite);
    assert!(rep.footer_size_ok);
    assert!(rep.warnings.len() >= 3);
    assert!(rep.summary().contains("[\""));
}

#[test]
fn quick_check_looks_at_header_and_size() {
    let file = file_of(&[vec![0.0], vec![1.0]], DistanceMetric::L2, false);
    let mut head = [0u8; 32];
    head.copy_from_slice(&file[..32]);
    assert!(quick_check(&head, file.len() as u64).expect("quick"));
    assert!(!quick_check(&head, file.len() as u64 - 1).expect("quick"));
}

#[test]
fn short_files_are_refused() {
    let e = validate("p".to_string(), &[1, 2, 3]).err().expect("short");
    assert!(matches!(e, CompactError::IoError { .. }));
}

#[test]
fn warnings_are_quoted() {
    let file = file_of(&[vec![0.0], vec![1.0]], DistanceMetric::L2, false);
    let mut rep = validate("a.btcp".to_string(), &file).expect("validate");
    let calm = rep.summary();
    rep.warnings = vec!["a \"b\"".to_string(), "c".to_string()];
    let loud = rep.summary();
    assert!(loud.contains("[\"a \\\"b\\\"\", \"c\"]"));
    assert!(calm.contains("[]"));
    assert_eq!(rep.summary_with("W"), loud.replace("[\"a \\\"b\\\"\", \"c\"]", "W"));
}
