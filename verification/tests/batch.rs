use bit_compact::batch::{parallel_batch_search, parallel_calibrate, BatchWriter, ChunkedReader};
use bit_compact::errors::CompactError;
use bit_compact::quant::{DistanceMetric, QuantType, Quantizer};
use bit_compact::scalar::{Arithmetic, Scalar};
use bit_compact::storage::{CompactReader, CompactWriter};

#[allow(dead_code)]
struct Machine;

#[allow(dead_code)]
fn s(v: f32) -> Scalar {
    Scalar { bits: v.to_bits() }
}

#[allow(dead_code)]
fn f(v: Scalar) -> f32 {
    f32::from_bits(v.bits)
}

#[allow(dead_code)]
fn ss(v: &[f32]) -> Vec<Scalar> {
    v.iter().map(|x| s(*x)).collect()
}

#[allow(dead_code)]
fn ff(v: &[Scalar]) -> Vec<f32> {
    v.iter().map(|x| f(*x)).collect()
}

#[allow(dead_code)]
fn rows(v: &[Vec<f32>]) -> Vec<Vec<Scalar>> {
    v.iter().map(|x| ss(x)).collect()
}

impl Arithmetic for Machine {
    fn sub(&self, a: Scalar, b: Scalar) -> Scalar {
        s(f(a) - f(b))
    }

    fn add(&self, a: Scalar, b: Scalar) -> Scalar {
        s(f(a) + f(b))
    }

    fn mul(&self, a: Scalar, b: Scalar) -> Scalar {
        s(f(a) * f(b))
    }

    fn div(&self, a: Scalar, b: Scalar) -> Scalar {
        s(f(a) / f(b))
    }

    fn sqrt(&self, a: Scalar) -> Scalar {
        s(f(a).sqrt())
    }

    fn of_count(&self, n: usize) -> Scalar {
        s(n as f32)
    }
}

/// A finished file with these vectors.
#[allow(dead_code)]
fn file_of(data: &[Vec<f32>], metric: DistanceMetric, align: bool) -> Vec<u8> {
    let data = rows(data);
    let q = Quantizer::calibrate(&data).expect("calibrate");
    let (mut writer, mut body) =
        CompactWriter::create(q, QuantType::SQ8, metric).expect("create");
    for v in &data {
        body.extend(writer.append(v, &Machine).expect("append"));
    }
    writer.finalize_with_padding(align).expect("finalize").apply(body)
}

#[allow(dead_code)]
fn reader_of(file: &[u8]) -> CompactReader {
    CompactReader::open(file).expect("open")
}

#[test]
fn batch_writer_flush() {
    let data = rows(&[vec![0.0, 1.0], vec![1.0, 0.0], vec![0.5, 0.5]]);
    let q = Quantizer::calibrate(&data).expect("cal");
    let (mut writer, mut body) =
        CompactWriter::create(q, QuantType::SQ8, DistanceMetric::L2).expect("create");
    let mut bw = BatchWriter::new(2);
    for v in data.clone() {
        bw.push(v);
        if bw.should_flush() {
            bw.flush_to(&mut writer, &Machine, &mut body).expect("flush");
        }
    }
    bw.finish(&mut writer, &Machine, &mut body).expect("finish");
    let file = writer.finalize().expect("fin").apply(body);
    let r = reader_of(&file);
    assert_eq!(r.len(), 3);
}

#[test]
fn parallel_calibrate_matches() {
    let data: Vec<Vec<f32>> = (0..20).map(|i| vec![i as f32, i as f32 * 2.0]).collect();
    let data = rows(&data);
    let q1 = Quantizer::calibrate(&data).expect("cal");
    let q2 = parallel_calibrate(&data, 4, 1).expect("par");
    assert_eq!(q1.min_bounds(), q2.min_bounds());
    assert_eq!(q1.max_bounds(), q2.max_bounds());
}

#[test]
fn chunked_reader() {
    let data = vec![vec![0.0, 0.0], vec![1.0, 1.0], vec![2.0, 2.0], vec![3.0, 3.0]];
    let file = file_of(&data, DistanceMetric::L2, false);
    let r = reader_of(&file);
    let mut iter = ChunkedReader::new(&r, 2);
    let b1 = iter.next(&r, &file, &Machine).unwrap().expect("b1");
    assert_eq!(b1.len(), 2);
    let b2 = iter.next(&r, &file, &Machine).unwrap().expect("b2");
    assert_eq!(b2.len(), 2);
    assert!(iter.next(&r, &file, &Machine).is_none());
}

#[test]
fn the_last_chunk_may_be_short() {
    let data = vec![vec![0.0], vec![1.0], vec![2.0]];
    let file = file_of(&data, DistanceMetric::L2, false);
    let r = reader_of(&file);
    let mut iter = ChunkedReader::new(&r, 2);
    assert_eq!(iter.next(&r, &file, &Machine).unwrap().expect("a").len(), 2);
    assert_eq!(iter.next(&r, &file, &Machine).unwrap().expect("b").len(), 1);
    assert!(iter.next(&r, &file, &Machine).is_none());
    let mut one = ChunkedReader::new(&r, 0);
    assert_eq!(one.next(&r, &file, &Machine).unwrap().expect("c").len(), 1);
}

#[test]
fn buffers_fill_and_empty() {
    let mut bw = BatchWriter::with_capacity(8, 0);
    assert!(bw.is_empty());
    assert!(!bw.should_flush());
    bw.push(ss(&[1.0]));
    assert!(bw.should_flush());
    assert_eq!(bw.len(), 1);
    assert_eq!(bw.drain(), rows(&[vec![1.0]]));
    assert!(bw.is_empty());
}

#[test]
fn calibration_in_parts_reports_faults() {
    assert!(matches!(parallel_calibrate(&[], 4, 1), Err(CompactError::EmptyDataset)));
    let data = rows(&[vec![f32::NAN, 1.0], vec![f32::NAN, 2.0]]);
    assert!(parallel_calibrate(&data, 1, 1).is_err());
    let data = rows(&[vec![f32::NAN], vec![1.0], vec![3.0]]);
    let q = parallel_calibrate(&data, 2, 1).expect("par");
    assert_eq!((f(q.min_bounds()[0]), f(q.max_bounds()[0])), (1.0, 3.0));
}

#[test]
fn many_queries_in_parts() {
    let data: Vec<Vec<f32>> = (0..10).map(|i| vec![i as f32]).collect();
    let file = file_of(&data, DistanceMetric::L2, false);
    let r = reader_of(&file);
    let queries = rows(&[vec![2.0], vec![7.0], vec![9.0]]);
    let res = parallel_batch_search(&r, &file, &queries, 1, 2, 1, &Machine).expect("many");
    let ids: Vec<u64> = res.iter().map(|h| h[0].id).collect();
    assert_eq!(ids, vec![2, 7, 9]);
}
