use bit_compact::errors::{CompactError, HeaderFault, IoFailure};
use bit_compact::numerals::Numerals;
use bit_compact::scalar::{Arithmetic, Scalar};
use bit_compact::wide::Wide;

#[allow(dead_code)]
struct Machine;

#[allow(dead_code)]
fn s(v: f32) -> Scalar {
    Scalar { bits: v.to_bits() }
}

#[allow(dead_code)]
fn f(v: Scalar) -> f32 {
    f32::from_bits(v.bits)
}

#[allow(dead_code)]
fn ss(v: &[f32]) -> Vec<Scalar> {
    v.iter().map(|x| s(*x)).collect()
}

#[allow(dead_code)]
fn ff(v: &[Scalar]) -> Vec<f32> {
    v.iter().map(|x| f(*x)).collect()
}

#[allow(dead_code)]
fn rows(v: &[Vec<f32>]) -> Vec<Vec<Scalar>> {
    v.iter().map(|x| ss(x)).collect()
}

impl Arithmetic for Machine {
    fn sub(&self, a: Scalar, b: Scalar) -> Scalar {
        s(f(a) - f(b))
    }

    fn add(&self, a: Scalar, b: Scalar) -> Scalar {
        s(f(a) + f(b))
    }

    fn mul(&self, a: Scalar, b: Scalar) -> Scalar {
        s(f(a) * f(b))
    }

    fn div(&self, a: Scalar, b: Scalar) -> Scalar {
        s(f(a) / f(b))
    }

    fn sqrt(&self, a: Scalar) -> Scalar {
        s(f(a).sqrt())
    }

    fn of_count(&self, n: usize) -> Scalar {
        s(n as f32)
    }
}

impl Numerals for Machine {
    fn plain(&self, v: Scalar) -> String {
        format!("{}", f(v))
    }

    fn fixed(&self, v: Scalar, places: usize) -> String {
        format!("{:.*}", places, f(v))
    }

    fn fixed_wide(&self, v: Wide, places: usize) -> String {
        format!("{:.*}", places, f64::from_bits(v.bits))
    }

    fn parse(&self, text: &str) -> Result<Scalar, String> {
        match text.parse::<f32>() {
            Ok(v) => Ok(s(v)),
            Err(e) => Err(e.to_string()),
        }
    }
}

#[test]
fn messages() {
    let text = |e: CompactError| e.message(&Machine);
    assert_eq!(
        text(CompactError::IoError { source: IoFailure { eof: true, text: "gone".to_string() } }),
        "I/O error: gone"
    );
    assert_eq!(
        text(CompactError::InvalidMagicBytes { expected: *b"BTCP", found: [0x41, 0xff, 0x42, 0x43] }),
        "invalid magic bytes: expected [66, 84, 67, 80] (\"BTCP\"), found [65, 255, 66, 67] (\"A\u{fffd}BC\")"
    );
    assert_eq!(text(CompactError::invalid_header("x")), "invalid header: x");
    assert_eq!(text(CompactError::corrupted_footer("y")), "corrupted footer: y");
    assert_eq!(
        text(CompactError::InvalidHeader(HeaderFault::InvertedBounds {
            dimension: 3,
            min: s(2.0),
            max: s(-1.5),
        })),
        "invalid header: max < min at dim 3: max -1.5 < min 2"
    );
    assert_eq!(
        text(CompactError::InvalidHeader(HeaderFault::InvalidPercentiles {
            low: s(-1.0),
            high: s(50.0),
        })),
        "invalid header: invalid percentiles low=-1 high=50"
    );
    assert_eq!(
        text(CompactError::DimensionMismatch { expected: 3, found: 10 }),
        "dimension mismatch: expected 3, found 10"
    );
    assert_eq!(
        text(CompactError::ChecksumMismatch { expected: [0xab; 32], found: [1; 32] }),
        "checksum mismatch: expected [ab, ab, ab, ab, ab, ab, ab, ab], found [01, 01, 01, 01, 01, 01, 01, 01]"
    );
    assert_eq!(
        text(CompactError::IndexOutOfBounds { index: 7, count: 7 }),
        "index out of bounds: index 7 >= count 7"
    );
    assert_eq!(
        text(CompactError::QuantizationOverflow {
            dimension: 1,
            value: s(f32::INFINITY),
            min: s(0.0),
            max: s(1.0),
            reason: "non-finite input value",
        }),
        "quantization overflow at dim 1: value inf not in [0, 1] (non-finite input value)"
    );
    assert_eq!(text(CompactError::InvalidQuantType(9)), "invalid quantization type tag: 9");
    assert_eq!(text(CompactError::InvalidDistanceMetric(8)), "invalid distance metric tag: 8");
    assert_eq!(
        text(CompactError::EmptyDataset),
        "empty dataset: no vectors to calibrate or store"
    );
    assert_eq!(text(CompactError::CorruptedData("z".to_string())), "corrupted data block: z");
}

#[test]
fn failures_of_the_system() {
    let e = CompactError::IoError { source: IoFailure { eof: false, text: String::new() } };
    assert!(e.is_io());
    assert!(!CompactError::EmptyDataset.is_io());
}

#[test]
fn the_failure_behind_an_error() {
    let e = CompactError::IoError { source: IoFailure { eof: true, text: "gone".to_string() } };
    let f = e.source().expect("source");
    assert!(f.eof);
    assert_eq!(f.text, "gone");
    assert!(CompactError::EmptyDataset.source().is_none());
}
