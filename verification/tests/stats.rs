use bit_compact::numerals::Numerals;
use bit_compact::quant::Quantizer;
use bit_compact::scalar::{Arithmetic, Scalar};
use bit_compact::stats::{
    compression_ratio, evaluate, mae, max_abs_error, mse, snr_db, theoretical_max_error,
    theoretical_mse_uniform,
};
use bit_compact::wide::{Wide, WideArithmetic};

#[allow(dead_code)]
struct Machine;

#[allow(dead_code)]
fn s(v: f32) -> Scalar {
    Scalar { bits: v.to_bits() }
}

#[allow(dead_code)]
fn f(v: Scalar) -> f32 {
    f32::from_bits(v.bits)
}

#[allow(dead_code)]
fn ss(v: &[f32]) -> Vec<Scalar> {
    v.iter().map(|x| s(*x)).collect()
}

#[allow(dead_code)]
fn ff(v: &[Scalar]) -> Vec<f32> {
    v.iter().map(|x| f(*x)).collect()
}

#[allow(dead_code)]
fn rows(v: &[Vec<f32>]) -> Vec<Vec<Scalar>> {
    v.iter().map(|x| ss(x)).collect()
}

impl Arithmetic for Machine {
    fn sub(&self, a: Scalar, b: Scalar) -> Scalar {
        s(f(a) - f(b))
    }

    fn add(&self, a: Scalar, b: Scalar) -> Scalar {
        s(f(a) + f(b))
    }

    fn mul(&self, a: Scalar, b: Scalar) -> Scalar {
        s(f(a) * f(b))
    }

    fn div(&self, a: Scalar, b: Scalar) -> Scalar {
        s(f(a) / f(b))
    }

    fn sqrt(&self, a: Scalar) -> Scalar {
        s(f(a).sqrt())
    }

    fn of_count(&self, n: usize) -> Scalar {
        s(n as f32)
    }
}

#[allow(dead_code)]
fn w(v: f64) -> Wide {
    Wide { bits: v.to_bits() }
}

#[allow(dead_code)]
fn d(v: Wide) -> f64 {
    f64::from_bits(v.bits)
}

impl WideArithmetic for Machine {
    fn widen(&self, a: Scalar) -> Wide {
        w(f(a) as f64)
    }

    fn narrow(&self, a: Wide) -> Scalar {
        s(d(a) as f32)
    }

    fn wide_count(&self, n: u64) -> Wide {
        w(n as f64)
    }

    fn plus(&self, a: Wide, b: Wide) -> Wide {
        w(d(a) + d(b))
    }

    fn minus(&self, a: Wide, b: Wide) -> Wide {
        w(d(a) - d(b))
    }

    fn times(&self, a: Wide, b: Wide) -> Wide {
        w(d(a) * d(b))
    }

    fn over(&self, a: Wide, b: Wide) -> Wide {
        w(d(a) / d(b))
    }

    fn log10(&self, a: Wide) -> Wide {
        w(d(a).log10())
    }
}

impl Numerals for Machine {
    fn plain(&self, v: Scalar) -> String {
        format!("{}", f(v))
    }

    fn fixed(&self, v: Scalar, places: usize) -> String {
        format!("{:.*}", places, f(v))
    }

    fn fixed_wide(&self, v: Wide, places: usize) -> String {
        format!("{:.*}", places, f64::from_bits(v.bits))
    }

    fn parse(&self, text: &str) -> Result<Scalar, String> {
        match text.parse::<f32>() {
            Ok(v) => Ok(s(v)),
            Err(e) => Err(e.to_string()),
        }
    }
}

#[test]
fn mse_zero_for_identical() {
    let a = ss(&[1.0, 2.0, 3.0]);
    let b = ss(&[1.0, 2.0, 3.0]);
    assert!(f(mse(&a, &b, &Machine)).abs() < 1e-6);
    assert!(d(snr_db(&a, &b, &Machine)).is_infinite());
}

#[test]
fn mae_basic() {
    let a = ss(&[0.0, 0.0]);
    let b = ss(&[1.0, 1.0]);
    assert!((f(mae(&a, &b, &Machine)) - 1.0).abs() < 1e-6);
}

#[test]
fn evaluate_report() {
    let data = rows(&[vec![0.0, 0.0], vec![1.0, 1.0], vec![0.5, 0.5]]);
    let q = Quantizer::calibrate(&data).expect("calibrate");
    let rep = evaluate(&q, &data, &Machine, &Machine).expect("evaluate");
    assert_eq!(rep.dims, 2);
    assert_eq!(rep.num_vectors, 3);
    assert!(d(rep.mse) < 0.01);
    assert!((d(rep.compression_ratio) - 4.0).abs() < 1e-6);
    assert!(d(rep.snr_db) > 20.0);
}

#[test]
fn compression_ratio_4x() {
    assert!((d(compression_ratio(400, 100, &Machine)) - 4.0).abs() < 1e-9);
}

#[test]
fn errors_of_two_vectors() {
    let a = ss(&[1.0, -2.0, 4.0]);
    let b = ss(&[1.5, 0.0, 4.0]);
    assert_eq!(f(mse(&a, &b, &Machine)), ((0.25 + 4.0) / 3.0) as f32);
    assert_eq!(f(mae(&a, &b, &Machine)), (2.5f64 / 3.0) as f32);
    assert_eq!(f(max_abs_error(&a, &b, &Machine)), 2.0);
    assert_eq!(f(max_abs_error(&a, &b[..1], &Machine)), 0.5);
    let expected = 10.0 * ((21.0f64 / 3.0) / (4.25 / 3.0)).log10();
    assert_eq!(d(snr_db(&a, &b, &Machine)), expected);
    assert_eq!(d(snr_db(&ss(&[0.0]), &ss(&[1.0]), &Machine)), 0.0);
    assert_eq!(f(mse(&[], &[], &Machine)), 0.0);
    assert!(d(snr_db(&[], &[], &Machine)).is_infinite());
    assert!(d(compression_ratio(3, 0, &Machine)).is_infinite());
}

#[test]
fn exact_report() {
    let q = Quantizer::new(ss(&[0.0, 0.0]), ss(&[255.0, 255.0])).expect("new");
    let data = rows(&[vec![1.5, 2.0], vec![3.0, 4.25]]);
    let rep = evaluate(&q, &data, &Machine, &Machine).expect("evaluate");
    assert_eq!(rep.original_bytes, 16);
    assert_eq!(rep.compressed_bytes, 4);
    assert_eq!(ff(&rep.per_dim_range), vec![255.0, 255.0]);
    assert!((f(rep.max_abs_error) - 0.5).abs() < 1e-4);
    assert!((d(rep.mse) - (0.25 + 0.0625) / 4.0).abs() < 1e-4);
    assert!((d(rep.mae) - 0.75 / 4.0).abs() < 1e-4);
    assert!((d(rep.per_dim_mse[0]) - 0.125).abs() < 1e-4);
    assert!((d(rep.per_dim_mse[1]) - 0.03125).abs() < 1e-4);
    let text = rep.summary(&Machine);
    assert!(text.starts_with("dims=2 n=2 mse=0.0781"));
    assert!(text.ends_with("dB ratio=4.00x (16B -> 4B)"));
}

#[test]
fn a_report_on_nothing() {
    let q = Quantizer::new(ss(&[0.0]), ss(&[2.0])).expect("new");
    let rep = evaluate(&q, &[], &Machine, &Machine).expect("evaluate");
    assert_eq!(rep.num_vectors, 0);
    assert_eq!(d(rep.compression_ratio), 0.0);
    assert!(d(rep.snr_db).is_infinite());
    assert_eq!(rep.per_dim_mse.len(), 1);
    assert_eq!(ff(&rep.per_dim_range), vec![2.0]);
}

#[test]
fn theory() {
    assert_eq!(f(theoretical_max_error(s(51.0), &Machine)), 0.2);
    let step = 51.0f64 / 255.0;
    assert_eq!(d(theoretical_mse_uniform(s(51.0), &Machine)), step * step / 12.0);
}
