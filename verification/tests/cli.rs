use bit_compact::cli::{
    check_query, create_file, created_message, describe, describe_sizes, find_metric,
    only_argument, parse_command, parse_create, parse_metric, parse_number, parse_search,
    parse_serve, parse_vector, two_arguments, Command,
};
use bit_compact::numerals::Numerals;
use bit_compact::quant::{DistanceMetric, QuantType, Quantizer};
use bit_compact::scalar::{Arithmetic, Scalar};
use bit_compact::storage::{CompactReader, CompactWriter};
use bit_compact::wide::{Wide, WideArithmetic};

#[allow(dead_code)]
struct Machine;

#[allow(dead_code)]
fn s(v: f32) -> Scalar {
    Scalar { bits: v.to_bits() }
}

#[allow(dead_code)]
fn f(v: Scalar) -> f32 {
    f32::from_bits(v.bits)
}

#[allow(dead_code)]
fn ss(v: &[f32]) -> Vec<Scalar> {
    v.iter().map(|x| s(*x)).collect()
}

#[allow(dead_code)]
fn ff(v: &[Scalar]) -> Vec<f32> {
    v.iter().map(|x| f(*x)).collect()
}

#[allow(dead_code)]
fn rows(v: &[Vec<f32>]) -> Vec<Vec<Scalar>> {
    v.iter().map(|x| ss(x)).collect()
}

impl Arithmetic for Machine {
    fn sub(&self, a: Scalar, b: Scalar) -> Scalar {
        s(f(a) - f(b))
    }

    fn add(&self, a: Scalar, b: Scalar) -> Scalar {
        s(f(a) + f(b))
    }

    fn mul(&self, a: Scalar, b: Scalar) -> Scalar {
        s(f(a) * f(b))
    }

    fn div(&self, a: Scalar, b: Scalar) -> Scalar {
        s(f(a) / f(b))
    }

    fn sqrt(&self, a: Scalar) -> Scalar {
        s(f(a).sqrt())
    }

    fn of_count(&self, n: usize) -> Scalar {
        s(n as f32)
    }
}

#[allow(dead_code)]
fn w(v: f64) -> Wide {
    Wide { bits: v.to_bits() }
}

#[allow(dead_code)]
fn d(v: Wide) -> f64 {
    f64::from_bits(v.bits)
}

impl WideArithmetic for Machine {
    fn widen(&self, a: Scalar) -> Wide {
        w(f(a) as f64)
    }

    fn narrow(&self, a: Wide) -> Scalar {
        s(d(a) as f32)
    }

    fn wide_count(&self, n: u64) -> Wide {
        w(n as f64)
    }

    fn plus(&self, a: Wide, b: Wide) -> Wide {
        w(d(a) + d(b))
    }

    fn minus(&self, a: Wide, b: Wide) -> Wide {
        w(d(a) - d(b))
    }

    fn times(&self, a: Wide, b: Wide) -> Wide {
        w(d(a) * d(b))
    }

    fn over(&self, a: Wide, b: Wide) -> Wide {
        w(d(a) / d(b))
    }

    fn log10(&self, a: Wide) -> Wide {
        w(d(a).log10())
    }
}

impl Numerals for Machine {
    fn plain(&self, v: Scalar) -> String {
        format!("{}", f(v))
    }

    fn fixed(&self, v: Scalar, places: usize) -> String {
        format!("{:.*}", places, f(v))
    }

    fn fixed_wide(&self, v: Wide, places: usize) -> String {
        format!("{:.*}", places, f64::from_bits(v.bits))
    }

    fn parse(&self, text: &str) -> Result<Scalar, String> {
        match text.parse::<f32>() {
            Ok(v) => Ok(s(v)),
            Err(e) => Err(e.to_string()),
        }
    }
}

/// A finished file with these vectors.
#[allow(dead_code)]
fn file_of(data: &[Vec<f32>], metric: DistanceMetric, align: bool) -> Vec<u8> {
    let data = rows(data);
    let q = Quantizer::calibrate(&data).expect("calibrate");
    let (mut writer, mut body) =
        CompactWriter::create(q, QuantType::SQ8, metric).expect("create");
    for v in &data {
        body.extend(writer.append(v, &Machine).expect("append"));
    }
    writer.finalize_with_padding(align).expect("finalize").apply(body)
}

#[allow(dead_code)]
fn reader_of(file: &[u8]) -> CompactReader {
    CompactReader::open(file).expect("open")
}

fn args(text: &str) -> Vec<String> {
    text.split_whitespace().map(|t| t.to_string()).collect()
}

#[test]
fn names_of_metrics_in_any_case() {
    assert!(matches!(parse_metric("L2"), Ok(DistanceMetric::L2)));
    assert!(matches!(parse_metric("CoSiNe"), Ok(DistanceMetric::Cosine)));
    assert!(matches!(parse_metric("IP"), Ok(DistanceMetric::InnerProduct)));
}

#[test]
fn commands() {
    assert_eq!(parse_command("create"), Ok(Command::Create));
    assert_eq!(parse_command("-h"), Ok(Command::Help));
    assert_eq!(parse_command("serve"), Ok(Command::Serve));
    assert_eq!(parse_command("make"), Err("unknown command make".to_string()));
}

#[test]
fn metrics_in_any_case() {
    assert_eq!(parse_metric("L2"), Ok(DistanceMetric::L2));
    assert_eq!(parse_metric("Euclidean"), Ok(DistanceMetric::L2));
    assert_eq!(parse_metric("COS"), Ok(DistanceMetric::Cosine));
    assert_eq!(parse_metric("InnerProduct"), Ok(DistanceMetric::InnerProduct));
    assert_eq!(
        parse_metric("\u{c4}X"),
        Err("unknown metric \u{e4}x (L2|cosine|ip)".to_string())
    );
    assert!(find_metric("L2").is_err());
    assert_eq!(find_metric("ip"), Ok(DistanceMetric::InnerProduct));
}

#[test]
fn numbers() {
    assert_eq!(parse_number("+42", 100), Ok(42));
    assert_eq!(parse_number("", 100), Err("cannot parse integer from empty string".to_string()));
    assert_eq!(parse_number("4x", 100), Err("invalid digit found in string".to_string()));
    assert_eq!(
        parse_number("101", 100),
        Err("number too large to fit in target type".to_string())
    );
    for text in ["", "+", "-1", "007", "65536", "99999999999999999999", "1_0", "12"] {
        let ours = parse_number(text, 65535).map(|v| v as u16);
        let theirs = text.parse::<u16>().map_err(|e| e.to_string());
        assert_eq!(ours, theirs);
    }
    assert_eq!(parse_vector("1, 2.5", &Machine), Ok(ss(&[1.0, 2.5])));
    assert_eq!(parse_vector("1,x", &Machine), Err("invalid float literal".to_string()));
}

#[test]
fn arguments_of_create() {
    let o = parse_create(&args("f.btcp --dims 3 --metric cosine --align")).expect("create");
    assert_eq!((o.file.as_str(), o.dims, o.align), ("f.btcp", 3, true));
    assert_eq!(o.metric, DistanceMetric::Cosine);
    assert_eq!(created_message(&o), "created f.btcp dims=3 metric=Cosine align=true");
    let o = parse_create(&args("f.btcp")).expect("create");
    assert_eq!((o.dims, o.align, o.metric), (8, false, DistanceMetric::L2));
    let message = |t: &str| parse_create(&args(t)).err().expect("refused");
    assert_eq!(message(""), "create <file> [--dims N] [--metric M] [--align]");
    assert_eq!(message("f --dims"), "--dims needs value");
    assert_eq!(message("f --metric"), "--metric needs value");
    assert_eq!(message("f --dims x"), "invalid digit found in string");
    assert_eq!(message("f --dims 0"), "dims must be 1..65535");
    assert_eq!(message("f --dims 65536"), "dims must be 1..65535");
    assert_eq!(message("f --what"), "unknown flag --what");
    assert_eq!(message("f --metric manhattan"), "unknown metric manhattan (L2|cosine|ip)");
}

#[test]
fn arguments_of_search() {
    let o = parse_search(&args("f --query 0.5,1 --k 2"), &Machine).expect("search");
    assert_eq!((o.file.as_str(), o.k), ("f", 2));
    assert_eq!(ff(&o.query), vec![0.5, 1.0]);
    let o = parse_search(&args("f --query 3"), &Machine).expect("search");
    assert_eq!(o.k, 5);
    let message = |t: &str| parse_search(&args(t), &Machine).err().expect("refused");
    assert_eq!(message("f --query"), "search <file> --query x,y,z --k K");
    assert_eq!(message("f --k 3"), "--query required");
    assert_eq!(message("f --k 3 --query"), "--query needs value");
    assert_eq!(message("f --query 1 --k"), "--k needs value");
    assert_eq!(message("f --query a --k b"), "invalid float literal");
    assert_eq!(message("f --query 1 --k b"), "invalid digit found in string");
    assert_eq!(message("f g h"), "unknown flag g");
    assert_eq!(check_query(2, 2), Ok(()));
    assert_eq!(check_query(1, 2), Err("query dims 1 != file dims 2".to_string()));
}

#[test]
fn arguments_of_serve() {
    let o = parse_serve(&args("")).expect("serve");
    assert_eq!((o.file, o.host.as_str(), o.port), (None, "127.0.0.1", 8080));
    let o = parse_serve(&args("--port 80 f --host ::1")).expect("serve");
    assert_eq!((o.file, o.host.as_str(), o.port), (Some("f".to_string()), "::1", 80));
    let message = |t: &str| parse_serve(&args(t)).err().expect("refused");
    assert_eq!(message("--port"), "--port needs value");
    assert_eq!(message("--host"), "--host needs value");
    assert_eq!(message("--port 65536"), "number too large to fit in target type");
    assert_eq!(message("--x"), "unknown flag --x");
    assert_eq!(message("f g"), "extra arg g");
}

#[test]
fn fixed_numbers_of_arguments() {
    assert_eq!(only_argument(&args("f"), "info <file>"), Ok("f".to_string()));
    assert_eq!(only_argument(&args(""), "info <file>"), Err("info <file>".to_string()));
    assert_eq!(
        two_arguments(&args("f 3"), "get <file> <id>"),
        Ok(("f".to_string(), "3".to_string()))
    );
    assert!(two_arguments(&args("f"), "get <file> <id>").is_err());
}

#[test]
fn new_files_open() {
    for align in [false, true] {
        let file = create_file(3, DistanceMetric::Cosine, align).expect("create");
        let r = reader_of(&file);
        assert_eq!((r.dims(), r.len()), (3, 0));
        assert_eq!(r.distance_metric(), DistanceMetric::Cosine);
        assert_eq!(r.footer_offset() % 4096 == 0, align);
        assert_eq!(ff(r.quantizer().max_bounds()), vec![1.0; 3]);
    }
}

#[test]
fn descriptions() {
    let file = file_of(&[vec![0.0, 1.0], vec![1.0, 0.0]], DistanceMetric::L2, false);
    let r = reader_of(&file);
    assert_eq!(
        describe("f", &r),
        "file: f\n  dims: 2\n  count: 2\n  quant: SQ8\n  distance: L2\n  footer_offset: 52\n  header: Header { major: 1, minor: 0, dims: 2, quant_type: SQ8, distance_metric: L2, vector_count: 2, footer_offset: 52 }"
    );
    assert!(describe("f", &r).ends_with(&format!("{:?}", r.header())));
    assert_eq!(
        describe_sizes("f", &r, 100, &Machine, &Machine),
        "file: f\n  file_size: 100 B\n  data_bytes (quantized): 4 B\n  original_bytes (f32): 16 B\n  ratio: 4.00x\n  dims: 2 count: 2"
    );
}
