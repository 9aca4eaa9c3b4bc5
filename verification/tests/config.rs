use bit_compact::config::{CompactConfig, ReaderConfig, WriterConfig};
use bit_compact::numerals::Numerals;
use bit_compact::quant::{DistanceMetric, QuantType};
use bit_compact::scalar::{Arithmetic, Scalar};
use bit_compact::wide::Wide;

#[allow(dead_code)]
struct Machine;

#[allow(dead_code)]
fn s(v: f32) -> Scalar {
    Scalar { bits: v.to_bits() }
}

#[allow(dead_code)]
fn f(v: Scalar) -> f32 {
    f32::from_bits(v.bits)
}

#[allow(dead_code)]
fn ss(v: &[f32]) -> Vec<Scalar> {
    v.iter().map(|x| s(*x)).collect()
}

#[allow(dead_code)]
fn ff(v: &[Scalar]) -> Vec<f32> {
    v.iter().map(|x| f(*x)).collect()
}

#[allow(dead_code)]
fn rows(v: &[Vec<f32>]) -> Vec<Vec<Scalar>> {
    v.iter().map(|x| ss(x)).collect()
}

impl Arithmetic for Machine {
    fn sub(&self, a: Scalar, b: Scalar) -> Scalar {
        s(f(a) - f(b))
    }

    fn add(&self, a: Scalar, b: Scalar) -> Scalar {
        s(f(a) + f(b))
    }

    fn mul(&self, a: Scalar, b: Scalar) -> Scalar {
        s(f(a) * f(b))
    }

    fn div(&self, a: Scalar, b: Scalar) -> Scalar {
        s(f(a) / f(b))
    }

    fn sqrt(&self, a: Scalar) -> Scalar {
        s(f(a).sqrt())
    }

    fn of_count(&self, n: usize) -> Scalar {
        s(n as f32)
    }
}

impl Numerals for Machine {
    fn plain(&self, v: Scalar) -> String {
        format!("{}", f(v))
    }

    fn fixed(&self, v: Scalar, places: usize) -> String {
        format!("{:.*}", places, f(v))
    }

    fn fixed_wide(&self, v: Wide, places: usize) -> String {
        format!("{:.*}", places, f64::from_bits(v.bits))
    }

    fn parse(&self, text: &str) -> Result<Scalar, String> {
        match text.parse::<f32>() {
            Ok(v) => Ok(s(v)),
            Err(e) => Err(e.to_string()),
        }
    }
}

#[test]
fn builder_ok() {
    let cfg = CompactConfig::builder(128, QuantType::SQ8, DistanceMetric::L2)
        .version(1, 0)
        .align_disk_blocks(true)
        .build()
        .expect("build");
    assert_eq!(cfg.dims, 128);
    assert!(cfg.align_disk_blocks);
}

#[test]
fn zero_dims_rejected() {
    let err = CompactConfig::builder(0, QuantType::SQ8, DistanceMetric::L2)
        .build()
        .expect_err("should fail");
    assert!(err.message(&Machine).contains("dims"));
}

#[test]
fn exceeds_u16_rejected() {
    let err = CompactConfig::builder(70000, QuantType::SQ8, DistanceMetric::L2)
        .build()
        .expect_err("should fail");
    assert!(err.message(&Machine).contains("u16"));
}

#[test]
fn builder_settings() {
    let cfg = CompactConfig::builder(4, QuantType::SQ8, DistanceMetric::L2)
        .version(3, 7)
        .verify_on_open(false)
        .quant_type(QuantType::RawF32)
        .distance(DistanceMetric::Cosine)
        .build()
        .expect("build");
    assert_eq!((cfg.major, cfg.minor), (3, 7));
    assert!(!cfg.verify_on_open);
    assert_eq!(cfg.quant_type, QuantType::RawF32);
    assert_eq!(cfg.distance, DistanceMetric::Cosine);
    assert_eq!(cfg.header_dims_u16().expect("dims"), 4);
    let w = WriterConfig::from_base(cfg).pad_to_block(true).batch_capacity(9);
    assert!(w.pad_to_block);
    assert_eq!(w.batch_capacity, 9);
    let r = ReaderConfig::default().without_verification().with_prefetch(2);
    assert!(!r.verify_checksum);
    assert_eq!(r.prefetch_blocks, 2);
}
