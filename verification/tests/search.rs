use bit_compact::distance::l2_squared;
use bit_compact::errors::CompactError;
use bit_compact::quant::{DistanceMetric, QuantType, Quantizer};
use bit_compact::scalar::{Arithmetic, Scalar};
use bit_compact::search::{
    batch_search, brute_force_search, brute_force_search_quantized, parallel_search, ScanIter,
    SearchResult,
};
use bit_compact::storage::{CompactReader, CompactWriter};

#[allow(dead_code)]
struct Machine;

#[allow(dead_code)]
fn s(v: f32) -> Scalar {
    Scalar { bits: v.to_bits() }
}

#[allow(dead_code)]
fn f(v: Scalar) -> f32 {
    f32::from_bits(v.bits)
}

#[allow(dead_code)]
fn ss(v: &[f32]) -> Vec<Scalar> {
    v.iter().map(|x| s(*x)).collect()
}

#[allow(dead_code)]
fn ff(v: &[Scalar]) -> Vec<f32> {
    v.iter().map(|x| f(*x)).collect()
}

#[allow(dead_code)]
fn rows(v: &[Vec<f32>]) -> Vec<Vec<Scalar>> {
    v.iter().map(|x| ss(x)).collect()
}

impl Arithmetic for Machine {
    fn sub(&self, a: Scalar, b: Scalar) -> Scalar {
        s(f(a) - f(b))
    }

    fn add(&self, a: Scalar, b: Scalar) -> Scalar {
        s(f(a) + f(b))
    }

    fn mul(&self, a: Scalar, b: Scalar) -> Scalar {
        s(f(a) * f(b))
    }

    fn div(&self, a: Scalar, b: Scalar) -> Scalar {
        s(f(a) / f(b))
    }

    fn sqrt(&self, a: Scalar) -> Scalar {
        s(f(a).sqrt())
    }

    fn of_count(&self, n: usize) -> Scalar {
        s(n as f32)
    }
}

/// A finished file with these vectors.
#[allow(dead_code)]
fn file_of(data: &[Vec<f32>], metric: DistanceMetric, align: bool) -> Vec<u8> {
    let data = rows(data);
    let q = Quantizer::calibrate(&data).expect("calibrate");
    let (mut writer, mut body) =
        CompactWriter::create(q, QuantType::SQ8, metric).expect("create");
    for v in &data {
        body.extend(writer.append(v, &Machine).expect("append"));
    }
    writer.finalize_with_padding(align).expect("finalize").apply(body)
}

#[allow(dead_code)]
fn reader_of(file: &[u8]) -> CompactReader {
    CompactReader::open(file).expect("open")
}

fn by_square(a: &[Scalar], b: &[Scalar]) -> bit_compact::Result<Scalar> {
    l2_squared(a, b, &Machine)
}

#[test]
fn top_k_brute() {
    let data = vec![vec![0.0, 0.0], vec![1.0, 0.0], vec![0.0, 1.0], vec![10.0, 10.0]];
    let file = file_of(&data, DistanceMetric::L2, false);
    let r = reader_of(&file);
    let query = ss(&[0.1, 0.1]);
    let res = brute_force_search(&r, &file, &query, 2, by_square, &Machine).expect("search");
    assert_eq!(res.len(), 2);
    assert_eq!(res[0].id, 0);
}

#[test]
fn parallel_matches_single() {
    let data: Vec<Vec<f32>> = (0..20).map(|i| vec![i as f32, i as f32 * 0.5]).collect();
    let file = file_of(&data, DistanceMetric::L2, false);
    let r = reader_of(&file);
    let query = ss(&[5.1, 2.6]);
    let single = brute_force_search(&r, &file, &query, 3, by_square, &Machine).expect("single");
    let parallel =
        parallel_search(&r, &file, &query, 3, 4, 1, by_square, &Machine).expect("par");
    assert_eq!(single, parallel);
}

#[test]
fn scan_iter() {
    let data = vec![vec![1.0, 2.0], vec![3.0, 4.0]];
    let file = file_of(&data, DistanceMetric::L2, false);
    let r = reader_of(&file);
    let mut it = ScanIter::new(&r);
    let mut collected = Vec::new();
    while let Some(item) = it.next(&r, &file, &Machine) {
        collected.push(item.expect("iter"));
    }
    assert_eq!(collected.len(), 2);
    assert_eq!(collected[0].0, 0);
}

#[test]
fn results_come_by_ascending_distance() {
    let data: Vec<Vec<f32>> = (0..30).map(|i| vec![((i * 7) % 30) as f32]).collect();
    let file = file_of(&data, DistanceMetric::L2, false);
    let r = reader_of(&file);
    for k in [1usize, 5, 30, 100] {
        let res = r.search(&file, &ss(&[11.0]), k, &Machine).expect("search");
        assert_eq!(res.len(), k.min(30));
        for pair in res.windows(2) {
            assert!(f(pair[0].distance) <= f(pair[1].distance));
        }
        for threads in [0usize, 1, 3, 50] {
            let par =
                r.search_parallel(&file, &ss(&[11.0]), k, threads, 2, &Machine).expect("par");
            assert_eq!(par, res);
        }
    }
}

#[test]
fn ties_go_to_the_smaller_identifier() {
    let data = vec![vec![1.0], vec![0.0], vec![1.0], vec![1.0]];
    let file = file_of(&data, DistanceMetric::L2, false);
    let r = reader_of(&file);
    let res = r.search(&file, &ss(&[1.0]), 2, &Machine).expect("search");
    assert_eq!((res[0].id, res[1].id), (0, 2));
}

#[test]
fn queries_are_checked() {
    let file = file_of(&[vec![0.0, 1.0], vec![1.0, 0.0]], DistanceMetric::Cosine, false);
    let r = reader_of(&file);
    let e = r.search(&file, &ss(&[1.0]), 1, &Machine).err().expect("dims");
    assert!(matches!(e, CompactError::DimensionMismatch { expected: 2, found: 1 }));
    assert!(r.search(&file, &ss(&[1.0, 0.0]), 0, &Machine).expect("none").is_empty());
}

#[test]
fn failures_end_one_scan_and_are_skipped_by_many() {
    let file = file_of(&[vec![0.0], vec![1.0], vec![2.0]], DistanceMetric::L2, false);
    let r = reader_of(&file);
    let picky = |a: &[Scalar], b: &[Scalar]| {
        if f(b[0]) > 0.5 && f(b[0]) < 1.5 {
            Err(CompactError::EmptyDataset)
        } else {
            l2_squared(a, b, &Machine)
        }
    };
    let q = ss(&[0.0]);
    assert!(brute_force_search(&r, &file, &q, 3, picky, &Machine).is_err());
    let res = parallel_search(&r, &file, &q, 3, 2, 1, picky, &Machine).expect("par");
    assert_eq!(res.iter().map(|h| h.id).collect::<Vec<u64>>(), vec![0, 2]);
}

#[test]
fn batches_and_rounded_queries() {
    let data = vec![vec![0.0, 0.0], vec![10.0, 10.0], vec![5.0, 5.0]];
    let file = file_of(&data, DistanceMetric::L2, false);
    let r = reader_of(&file);
    let queries = rows(&[vec![9.0, 9.0], vec![1.0, 1.0]]);
    let res = batch_search(&r, &file, &queries, 1, by_square, &Machine).expect("batch");
    assert_eq!((res[0][0].id, res[1][0].id), (1, 0));
    let bad = rows(&[vec![9.0, 9.0], vec![1.0]]);
    assert!(batch_search(&r, &file, &bad, 1, by_square, &Machine).is_err());
    let q = r.quantizer();
    let near = brute_force_search_quantized(
        &r, &file, q, &ss(&[4.9, 5.1]), 1, DistanceMetric::L2, &Machine,
    )
    .expect("rounded");
    assert_eq!(near[0].id, 2);
}

#[test]
fn walks_count_down() {
    let file = file_of(&[vec![1.0], vec![2.0]], DistanceMetric::L2, false);
    let r = reader_of(&file);
    let mut it = r.iter();
    assert_eq!(it.remaining(), 2);
    assert_eq!(it.advance(), Some(0));
    assert_eq!(it.remaining(), 1);
    assert_eq!(it.advance(), Some(1));
    assert_eq!(it.advance(), None);
}

#[test]
fn results_compare_by_distance() {
    let a = SearchResult::new(1, s(0.5));
    let b = SearchResult::new(2, s(0.75));
    assert!(a < b);
    assert_eq!(a.by_distance(&b), std::cmp::Ordering::Less);
}
