use bit_compact::cache::{CachedReader, LruCache};
use bit_compact::quant::{DistanceMetric, QuantType, Quantizer};
use bit_compact::scalar::{Arithmetic, Scalar};
use bit_compact::storage::{CompactReader, CompactWriter};
use bit_compact::wide::{Wide, WideArithmetic};

#[allow(dead_code)]
struct Machine;

#[allow(dead_code)]
fn s(v: f32) -> Scalar {
    Scalar { bits: v.to_bits() }
}

#[allow(dead_code)]
fn f(v: Scalar) -> f32 {
    f32::from_bits(v.bits)
}

#[allow(dead_code)]
fn ss(v: &[f32]) -> Vec<Scalar> {
    v.iter().map(|x| s(*x)).collect()
}

#[allow(dead_code)]
fn ff(v: &[Scalar]) -> Vec<f32> {
    v.iter().map(|x| f(*x)).collect()
}

#[allow(dead_code)]
fn rows(v: &[Vec<f32>]) -> Vec<Vec<Scalar>> {
    v.iter().map(|x| ss(x)).collect()
}

impl Arithmetic for Machine {
    fn sub(&self, a: Scalar, b: Scalar) -> Scalar {
        s(f(a) - f(b))
    }

    fn add(&self, a: Scalar, b: Scalar) -> Scalar {
        s(f(a) + f(b))
    }

    fn mul(&self, a: Scalar, b: Scalar) -> Scalar {
        s(f(a) * f(b))
    }

    fn div(&self, a: Scalar, b: Scalar) -> Scalar {
        s(f(a) / f(b))
    }

    fn sqrt(&self, a: Scalar) -> Scalar {
        s(f(a).sqrt())
    }

    fn of_count(&self, n: usize) -> Scalar {
        s(n as f32)
    }
}

#[allow(dead_code)]
fn w(v: f64) -> Wide {
    Wide { bits: v.to_bits() }
}

#[allow(dead_code)]
fn d(v: Wide) -> f64 {
    f64::from_bits(v.bits)
}

impl WideArithmetic for Machine {
    fn widen(&self, a: Scalar) -> Wide {
        w(f(a) as f64)
    }

    fn narrow(&self, a: Wide) -> Scalar {
        s(d(a) as f32)
    }

    fn wide_count(&self, n: u64) -> Wide {
        w(n as f64)
    }

    fn plus(&self, a: Wide, b: Wide) -> Wide {
        w(d(a) + d(b))
    }

    fn minus(&self, a: Wide, b: Wide) -> Wide {
        w(d(a) - d(b))
    }

    fn times(&self, a: Wide, b: Wide) -> Wide {
        w(d(a) * d(b))
    }

    fn over(&self, a: Wide, b: Wide) -> Wide {
        w(d(a) / d(b))
    }

    fn log10(&self, a: Wide) -> Wide {
        w(d(a).log10())
    }
}

/// A finished file with these vectors.
#[allow(dead_code)]
fn file_of(data: &[Vec<f32>], metric: DistanceMetric, align: bool) -> Vec<u8> {
    let data = rows(data);
    let q = Quantizer::calibrate(&data).expect("calibrate");
    let (mut writer, mut body) =
        CompactWriter::create(q, QuantType::SQ8, metric).expect("create");
    for v in &data {
        body.extend(writer.append(v, &Machine).expect("append"));
    }
    writer.finalize_with_padding(align).expect("finalize").apply(body)
}

#[allow(dead_code)]
fn reader_of(file: &[u8]) -> CompactReader {
    CompactReader::open(file).expect("open")
}

fn three() -> Vec<Vec<f32>> {
    vec![vec![0.0, 1.0], vec![1.0, 0.0], vec![0.5, 0.5]]
}

#[test]
fn lru_basic() {
    let mut c = LruCache::new(2);
    c.put(0, ss(&[1.0]));
    c.put(1, ss(&[2.0]));
    assert_eq!(c.len(), 2);
    c.put(2, ss(&[3.0]));
    assert!(!c.contains(0));
    assert!(c.contains(1));
    assert!(c.contains(2));
    let _ = c.get(1);
    c.put(3, ss(&[4.0]));
    assert!(!c.contains(2));
    assert!(c.contains(1));
}

#[test]
fn cached_reader_hit() {
    let file = file_of(&three(), DistanceMetric::L2, false);
    let r = reader_of(&file);
    let mut cr = CachedReader::new(2);
    let v0 = cr.get(&r, &file, 0, &Machine).expect("get");
    assert_eq!(cr.cache_len(), 1);
    let v0b = cr.get(&r, &file, 0, &Machine).expect("get2");
    assert_eq!(v0, v0b);
    assert!(d(cr.hit_rate(&Machine)) > 0.0);
}

#[test]
fn cached_answers_are_those_of_the_file() {
    let file = file_of(&three(), DistanceMetric::L2, false);
    let r = reader_of(&file);
    let mut cr = CachedReader::new(2);
    assert_eq!(d(cr.hit_rate(&Machine)), 0.0);
    let ids = [0u64, 1, 0, 2, 1, 0, 2, 2];
    let got = cr.get_batch(&r, &file, &ids, &Machine).expect("batch");
    for (id, v) in ids.iter().zip(got.iter()) {
        assert_eq!(v, &r.get_vector(&file, *id, &Machine).expect("get"));
    }
    assert_eq!(cr.cache_len(), 2);
    assert_eq!(cr.hit_counts(), (2, 8));
    assert_eq!(d(cr.hit_rate(&Machine)), 0.25);
    cr.clear_cache();
    assert_eq!(cr.cache_len(), 0);
    assert!(cr.get_batch(&r, &file, &[1, 7], &Machine).is_err());
    assert_eq!(cr.hit_counts(), (2, 10));
}

#[test]
fn a_cache_holds_at_least_one() {
    let mut c = LruCache::new(0);
    assert_eq!(c.capacity(), 1);
    assert!(c.is_empty());
    c.put(4, ss(&[1.0]));
    c.put(4, ss(&[2.0]));
    assert_eq!(c.get(4), Some(ss(&[2.0])));
    assert_eq!(c.get(5), None);
    c.clear();
    assert_eq!(c.len(), 0);
}

#[test]
fn rate_of_hits() {
    let c = LruCache::new(1);
    assert_eq!(d(c.hit_rate(3, 4, &Machine)), 0.75);
    assert_eq!(d(c.hit_rate(0, 4, &Machine)), 0.0);
    assert_eq!(d(c.hit_rate(0, 0, &Machine)), 0.0);
}
