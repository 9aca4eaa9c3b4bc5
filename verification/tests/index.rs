use bit_compact::export::{export_csv, export_json};
use bit_compact::index::SimpleIndex;
use bit_compact::numerals::Numerals;
use bit_compact::quant::{DistanceMetric, QuantType, Quantizer};
use bit_compact::scalar::{Arithmetic, Scalar};
use bit_compact::storage::{CompactReader, CompactWriter};
use bit_compact::wide::{Wide, WideArithmetic};

#[allow(dead_code)]
struct Machine;

#[allow(dead_code)]
fn s(v: f32) -> Scalar {
    Scalar { bits: v.to_bits() }
}

#[allow(dead_code)]
fn f(v: Scalar) -> f32 {
    f32::from_bits(v.bits)
}

#[allow(dead_code)]
fn ss(v: &[f32]) -> Vec<Scalar> {
    v.iter().map(|x| s(*x)).collect()
}

#[allow(dead_code)]
fn ff(v: &[Scalar]) -> Vec<f32> {
    v.iter().map(|x| f(*x)).collect()
}

#[allow(dead_code)]
fn rows(v: &[Vec<f32>]) -> Vec<Vec<Scalar>> {
    v.iter().map(|x| ss(x)).collect()
}

impl Arithmetic for Machine {
    fn sub(&self, a: Scalar, b: Scalar) -> Scalar {
        s(f(a) - f(b))
    }

    fn add(&self, a: Scalar, b: Scalar) -> Scalar {
        s(f(a) + f(b))
    }

    fn mul(&self, a: Scalar, b: Scalar) -> Scalar {
        s(f(a) * f(b))
    }

    fn div(&self, a: Scalar, b: Scalar) -> Scalar {
        s(f(a) / f(b))
    }

    fn sqrt(&self, a: Scalar) -> Scalar {
        s(f(a).sqrt())
    }

    fn of_count(&self, n: usize) -> Scalar {
        s(n as f32)
    }
}

#[allow(dead_code)]
fn w(v: f64) -> Wide {
    Wide { bits: v.to_bits() }
}

#[allow(dead_code)]
fn d(v: Wide) -> f64 {
    f64::from_bits(v.bits)
}

impl WideArithmetic for Machine {
    fn widen(&self, a: Scalar) -> Wide {
        w(f(a) as f64)
    }

    fn narrow(&self, a: Wide) -> Scalar {
        s(d(a) as f32)
    }

    fn wide_count(&self, n: u64) -> Wide {
        w(n as f64)
    }

    fn plus(&self, a: Wide, b: Wide) -> Wide {
        w(d(a) + d(b))
    }

    fn minus(&self, a: Wide, b: Wide) -> Wide {
        w(d(a) - d(b))
    }

    fn times(&self, a: Wide, b: Wide) -> Wide {
        w(d(a) * d(b))
    }

    fn over(&self, a: Wide, b: Wide) -> Wide {
        w(d(a) / d(b))
    }

    fn log10(&self, a: Wide) -> Wide {
        w(d(a).log10())
    }
}

impl Numerals for Machine {
    fn plain(&self, v: Scalar) -> String {
        format!("{}", f(v))
    }

    fn fixed(&self, v: Scalar, places: usize) -> String {
        format!("{:.*}", places, f(v))
    }

    fn fixed_wide(&self, v: Wide, places: usize) -> String {
        format!("{:.*}", places, f64::from_bits(v.bits))
    }

    fn parse(&self, text: &str) -> Result<Scalar, String> {
        match text.parse::<f32>() {
            Ok(v) => Ok(s(v)),
            Err(e) => Err(e.to_string()),
        }
    }
}

/// A finished file with these vectors.
#[allow(dead_code)]
fn file_of(data: &[Vec<f32>], metric: DistanceMetric, align: bool) -> Vec<u8> {
    let data = rows(data);
    let q = Quantizer::calibrate(&data).expect("calibrate");
    let (mut writer, mut body) =
        CompactWriter::create(q, QuantType::SQ8, metric).expect("create");
    for v in &data {
        body.extend(writer.append(v, &Machine).expect("append"));
    }
    writer.finalize_with_padding(align).expect("finalize").apply(body)
}

#[allow(dead_code)]
fn reader_of(file: &[u8]) -> CompactReader {
    CompactReader::open(file).expect("open")
}

#[test]
fn index_build() {
    let data = vec![vec![0.0, 0.0], vec![1.0, 1.0], vec![0.5, 0.5]];
    let file = file_of(&data, DistanceMetric::L2, false);
    let r = reader_of(&file);
    let idx = SimpleIndex::build(&r, &file).unwrap();
    assert_eq!(idx.dims(), 2);
}

#[test]
fn lists_of_an_index() {
    let data = vec![vec![0.0, 0.0], vec![1.0, 1.0], vec![0.0, 1.0]];
    let file = file_of(&data, DistanceMetric::L2, false);
    let r = reader_of(&file);
    let idx = SimpleIndex::build(&r, &file).unwrap();
    assert_eq!(idx.lookup(0, 0), Some(&[0u64, 2][..]));
    assert_eq!(idx.lookup(0, 255), Some(&[1u64][..]));
    assert_eq!(idx.lookup(1, 255), Some(&[1u64, 2][..]));
    assert_eq!(idx.lookup(0, 7), None);
    assert_eq!(idx.lookup(2, 0), None);
    assert_eq!(idx.count(), 6);
    assert_eq!(idx.stats(&Machine, &Machine), "dims=2 total_postings=6 avg_per_dim=3.0");
    assert_eq!(SimpleIndex::default().dims(), 0);
    assert!(SimpleIndex::build(&r, &file[..50]).is_err());
}

#[test]
fn export_roundtrip() {
    let data = vec![vec![0.0, 1.0], vec![1.0, 0.0]];
    let file = file_of(&data, DistanceMetric::L2, false);
    let r = reader_of(&file);
    let out = export_json(&r, &file, &Machine, &Machine).unwrap();
    assert!(!out.is_empty());
}

#[test]
fn exported_texts() {
    let data = vec![vec![0.0, 1.0], vec![1.0, 0.0]];
    let file = file_of(&data, DistanceMetric::L2, false);
    let r = reader_of(&file);
    assert_eq!(
        export_json(&r, &file, &Machine, &Machine).unwrap(),
        "[\n  [0.000000, 1.000000],\n  [1.000000, 0.000000]\n]\n"
    );
    assert_eq!(
        export_csv(&r, &file, &Machine, &Machine).unwrap(),
        "0.000000,1.000000\n1.000000,0.000000\n"
    );
    assert!(export_csv(&r, &file[..50], &Machine, &Machine).is_err());
}
