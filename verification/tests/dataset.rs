use bit_compact::dataset::{format_vector, Dataset};
use bit_compact::errors::CompactError;
use bit_compact::numerals::Numerals;
use bit_compact::scalar::{Arithmetic, Scalar};
use bit_compact::wide::{Wide, WideArithmetic};

#[allow(dead_code)]
struct Machine;

#[allow(dead_code)]
fn s(v: f32) -> Scalar {
    Scalar { bits: v.to_bits() }
}

#[allow(dead_code)]
fn f(v: Scalar) -> f32 {
    f32::from_bits(v.bits)
}

#[allow(dead_code)]
fn ss(v: &[f32]) -> Vec<Scalar> {
    v.iter().map(|x| s(*x)).collect()
}

#[allow(dead_code)]
fn ff(v: &[Scalar]) -> Vec<f32> {
    v.iter().map(|x| f(*x)).collect()
}

#[allow(dead_code)]
fn rows(v: &[Vec<f32>]) -> Vec<Vec<Scalar>> {
    v.iter().map(|x| ss(x)).collect()
}

impl Arithmetic for Machine {
    fn sub(&self, a: Scalar, b: Scalar) -> Scalar {
        s(f(a) - f(b))
    }

    fn add(&self, a: Scalar, b: Scalar) -> Scalar {
        s(f(a) + f(b))
    }

    fn mul(&self, a: Scalar, b: Scalar) -> Scalar {
        s(f(a) * f(b))
    }

    fn div(&self, a: Scalar, b: Scalar) -> Scalar {
        s(f(a) / f(b))
    }

    fn sqrt(&self, a: Scalar) -> Scalar {
        s(f(a).sqrt())
    }

    fn of_count(&self, n: usize) -> Scalar {
        s(n as f32)
    }
}

#[allow(dead_code)]
fn w(v: f64) -> Wide {
    Wide { bits: v.to_bits() }
}

#[allow(dead_code)]
fn d(v: Wide) -> f64 {
    f64::from_bits(v.bits)
}

impl WideArithmetic for Machine {
    fn widen(&self, a: Scalar) -> Wide {
        w(f(a) as f64)
    }

    fn narrow(&self, a: Wide) -> Scalar {
        s(d(a) as f32)
    }

    fn wide_count(&self, n: u64) -> Wide {
        w(n as f64)
    }

    fn plus(&self, a: Wide, b: Wide) -> Wide {
        w(d(a) + d(b))
    }

    fn minus(&self, a: Wide, b: Wide) -> Wide {
        w(d(a) - d(b))
    }

    fn times(&self, a: Wide, b: Wide) -> Wide {
        w(d(a) * d(b))
    }

    fn over(&self, a: Wide, b: Wide) -> Wide {
        w(d(a) / d(b))
    }

    fn log10(&self, a: Wide) -> Wide {
        w(d(a).log10())
    }
}

impl Numerals for Machine {
    fn plain(&self, v: Scalar) -> String {
        format!("{}", f(v))
    }

    fn fixed(&self, v: Scalar, places: usize) -> String {
        format!("{:.*}", places, f(v))
    }

    fn fixed_wide(&self, v: Wide, places: usize) -> String {
        format!("{:.*}", places, f64::from_bits(v.bits))
    }

    fn parse(&self, text: &str) -> Result<Scalar, String> {
        match text.parse::<f32>() {
            Ok(v) => Ok(s(v)),
            Err(e) => Err(e.to_string()),
        }
    }
}

fn read(text: &str) -> Option<bit_compact::Result<Dataset>> {
    Dataset::try_from_json_array(text, &Machine)
}

fn message(text: &str) -> String {
    read(text).expect("balanced").err().expect("refused").message(&Machine)
}

#[test]
fn synthetic() {
    let ds = Dataset::synthetic_uniform(10, 4, s(-1.0), s(1.0), 42, &Machine, &Machine);
    assert_eq!(ds.len(), 10);
    assert_eq!(ds.dims, 4);
    assert!(ds.vectors.iter().all(|v| v.iter().all(|&x| f(x) >= -1.0 && f(x) < 1.0)));
}

#[test]
fn json_parse() {
    let ds = Dataset::from_json_array("[[0, 1, 2], [3,4,5]]", &Machine).expect("parse");
    assert_eq!(ds.len(), 2);
    assert_eq!(ff(&ds.vectors[0]), vec![0.0, 1.0, 2.0]);
}

#[test]
fn clustered() {
    let ds = Dataset::synthetic_clustered(20, 8, 3, s(0.1), 123, &Machine, &Machine);
    assert_eq!(ds.len(), 20);
    assert_eq!(ds.dims, 8);
}

#[test]
fn the_first_number_drawn() {
    let mut state = 42u64;
    state ^= state << 13;
    state ^= state >> 7;
    state ^= state << 17;
    let u = (state as f64 / u64::MAX as f64) as f32;
    let ds = Dataset::synthetic_uniform(1, 1, s(2.0), s(6.0), 42, &Machine, &Machine);
    assert_eq!(f(ds.vectors[0][0]), 2.0 + u * 4.0);
    let zero = Dataset::synthetic_uniform(2, 2, s(0.0), s(1.0), 0, &Machine, &Machine);
    let one = Dataset::synthetic_uniform(2, 2, s(0.0), s(1.0), 1, &Machine, &Machine);
    assert_eq!(zero.vectors, one.vectors);
}

#[test]
fn the_upper_end_is_never_drawn() {
    let high = 1.0f32 + f32::EPSILON;
    let ds = Dataset::synthetic_uniform(50, 4, s(1.0), s(high), 7, &Machine, &Machine);
    assert!(ds.vectors.iter().all(|v| v.iter().all(|&x| f(x) == 1.0)));
    let ds = Dataset::synthetic_uniform(5, 4, s(f32::MIN), s(f32::MAX), 7, &Machine, &Machine);
    assert!(ds.vectors.iter().all(|v| v.iter().all(|&x| f(x) < f32::MAX)));
    let same = Dataset::synthetic_uniform(1, 2, s(3.0), s(3.0), 7, &Machine, &Machine);
    assert_eq!(same.vectors, vec![vec![s(3.0), s(3.0)]]);
}

#[test]
fn vectors_lie_around_their_centers() {
    let centers = Dataset::synthetic_uniform(3, 4, s(-1.0), s(1.0), 9, &Machine, &Machine);
    let ds = Dataset::synthetic_clustered(7, 4, 3, s(0.1), 9, &Machine, &Machine);
    for (i, v) in ds.vectors.iter().enumerate() {
        for d in 0..4 {
            assert!((f(v[d]) - f(centers.vectors[i % 3][d])).abs() <= 0.1001);
        }
    }
    assert!(Dataset::synthetic_clustered(0, 4, 0, s(0.1), 9, &Machine, &Machine).is_empty());
}

#[test]
fn vectors_of_one_length() {
    let e = Dataset::new(Vec::new()).err().expect("empty");
    assert!(matches!(e, CompactError::EmptyDataset));
    let e = Dataset::new(rows(&[vec![]])).err().expect("flat");
    assert_eq!(e.message(&Machine), "invalid header: dataset dims 0");
    let e = Dataset::new(rows(&[vec![1.0], vec![1.0, 2.0]])).err().expect("ragged");
    assert!(matches!(e, CompactError::DimensionMismatch { expected: 1, found: 2 }));
    let ds = Dataset::new(rows(&[vec![1.0], vec![2.0], vec![3.0]])).expect("new");
    assert_eq!(ds.sample(2), rows(&[vec![1.0], vec![2.0]]));
    assert_eq!(ds.sample(9).len(), 3);
    assert_eq!(ds.to_vec(), rows(&[vec![1.0], vec![2.0], vec![3.0]]));
}

#[test]
fn lists_that_are_read() {
    let ds = read("  [[1, [2]], [-3.5 , 4e1]]\n").expect("balanced").expect("read");
    assert_eq!(ds.vectors, rows(&[vec![1.0, 2.0], vec![-3.5, 40.0]]));
    let ds = read("[[1 2]]").expect("balanced").expect("read");
    assert_eq!(ds.vectors, rows(&[vec![12.0]]));
}

#[test]
fn lists_that_are_refused() {
    assert_eq!(message("1, 2"), "invalid header: json must start with [");
    assert_eq!(message(""), "invalid header: json must start with [");
    assert_eq!(message("[[1, x y]]"), "invalid header: bad float xy");
    assert_eq!(message("[1, 2]"), "empty dataset: no vectors to calibrate or store");
    assert_eq!(message("[[]]"), "invalid header: dataset dims 0");
    assert_eq!(message("[[1],[1,2]]"), "dimension mismatch: expected 1, found 2");
    assert!(read("[[1]]]").is_none());
    assert_eq!(message("[[q]]]"), "invalid header: bad float q");
}

#[test]
fn vectors_as_text() {
    assert_eq!(format_vector(&ss(&[1.0, -0.5, 2.25]), 2, &Machine), "1.0000, -0.5000");
    assert_eq!(format_vector(&ss(&[1.0]), 2, &Machine), "1.0000");
    assert_eq!(format_vector(&[], 2, &Machine), "");
}
