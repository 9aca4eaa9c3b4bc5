use bit_compact::errors::IoFailure;
use bit_compact::numerals::Numerals;
use bit_compact::quant::{DistanceMetric, QuantType, Quantizer};
use bit_compact::scalar::{Arithmetic, Scalar};
use bit_compact::server::wire::{
    json_error, json_escape, parse_query, parse_request, response_header, url_decode,
};
use bit_compact::server::{is_servable, plan_request, plan_text, run_job, Image, Job, Plan, Task};
use bit_compact::storage::{CompactReader, CompactWriter};
use bit_compact::wide::{Wide, WideArithmetic};

#[allow(dead_code)]
struct Machine;

#[allow(dead_code)]
fn s(v: f32) -> Scalar {
    Scalar { bits: v.to_bits() }
}

#[allow(dead_code)]
fn f(v: Scalar) -> f32 {
    f32::from_bits(v.bits)
}

#[allow(dead_code)]
fn ss(v: &[f32]) -> Vec<Scalar> {
    v.iter().map(|x| s(*x)).collect()
}

#[allow(dead_code)]
fn ff(v: &[Scalar]) -> Vec<f32> {
    v.iter().map(|x| f(*x)).collect()
}

#[allow(dead_code)]
fn rows(v: &[Vec<f32>]) -> Vec<Vec<Scalar>> {
    v.iter().map(|x| ss(x)).collect()
}

impl Arithmetic for Machine {
    fn sub(&self, a: Scalar, b: Scalar) -> Scalar {
        s(f(a) - f(b))
    }

    fn add(&self, a: Scalar, b: Scalar) -> Scalar {
        s(f(a) + f(b))
    }

    fn mul(&self, a: Scalar, b: Scalar) -> Scalar {
        s(f(a) * f(b))
    }

    fn div(&self, a: Scalar, b: Scalar) -> Scalar {
        s(f(a) / f(b))
    }

    fn sqrt(&self, a: Scalar) -> Scalar {
        s(f(a).sqrt())
    }

    fn of_count(&self, n: usize) -> Scalar {
        s(n as f32)
    }
}

#[allow(dead_code)]
fn w(v: f64) -> Wide {
    Wide { bits: v.to_bits() }
}

#[allow(dead_code)]
fn d(v: Wide) -> f64 {
    f64::from_bits(v.bits)
}

impl WideArithmetic for Machine {
    fn widen(&self, a: Scalar) -> Wide {
        w(f(a) as f64)
    }

    fn narrow(&self, a: Wide) -> Scalar {
        s(d(a) as f32)
    }

    fn wide_count(&self, n: u64) -> Wide {
        w(n as f64)
    }

    fn plus(&self, a: Wide, b: Wide) -> Wide {
        w(d(a) + d(b))
    }

    fn minus(&self, a: Wide, b: Wide) -> Wide {
        w(d(a) - d(b))
    }

    fn times(&self, a: Wide, b: Wide) -> Wide {
        w(d(a) * d(b))
    }

    fn over(&self, a: Wide, b: Wide) -> Wide {
        w(d(a) / d(b))
    }

    fn log10(&self, a: Wide) -> Wide {
        w(d(a).log10())
    }
}

impl Numerals for Machine {
    fn plain(&self, v: Scalar) -> String {
        format!("{}", f(v))
    }

    fn fixed(&self, v: Scalar, places: usize) -> String {
        format!("{:.*}", places, f(v))
    }

    fn fixed_wide(&self, v: Wide, places: usize) -> String {
        format!("{:.*}", places, f64::from_bits(v.bits))
    }

    fn parse(&self, text: &str) -> Result<Scalar, String> {
        match text.parse::<f32>() {
            Ok(v) => Ok(s(v)),
            Err(e) => Err(e.to_string()),
        }
    }
}

/// A finished file with these vectors.
#[allow(dead_code)]
fn file_of(data: &[Vec<f32>], metric: DistanceMetric, align: bool) -> Vec<u8> {
    let data = rows(data);
    let q = Quantizer::calibrate(&data).expect("calibrate");
    let (mut writer, mut body) =
        CompactWriter::create(q, QuantType::SQ8, metric).expect("create");
    for v in &data {
        body.extend(writer.append(v, &Machine).expect("append"));
    }
    writer.finalize_with_padding(align).expect("finalize").apply(body)
}

#[allow(dead_code)]
fn reader_of(file: &[u8]) -> CompactReader {
    CompactReader::open(file).expect("open")
}

fn chars(t: &str) -> Vec<char> {
    t.chars().collect()
}

fn decoded(t: &str) -> String {
    url_decode(&chars(t))
}

fn refusal(request: &str, default: Option<&str>) -> (String, String) {
    match plan_text(request, default, &Machine) {
        Plan::Answer(a) => (a.status.to_string(), a.body),
        _ => panic!("not refused"),
    }
}

fn job(request: &str, default: Option<&str>) -> Job {
    match plan_text(request, default, &Machine) {
        Plan::Job(j) => j,
        _ => panic!("no job"),
    }
}

fn ask(request: &str, file: &[u8]) -> (String, String) {
    let j = job(request, Some("a\"b.btcp"));
    assert!(is_servable(&j.task, file));
    let a = run_job(&j, &Image::Bytes(file.to_vec()), 77, &Machine, &Machine, &Machine);
    (a.status.to_string(), a.body)
}

fn sample() -> Vec<u8> {
    file_of(&[vec![0.0, 1.0], vec![1.0, 0.0]], DistanceMetric::L2, false)
}

#[test]
fn urls_are_decoded() {
    assert_eq!(decoded("a+b%20c"), "a b c");
    assert_eq!(decoded("%41%e9"), "A\u{e9}");
    assert_eq!(decoded("%zz!"), "!");
    assert_eq!(decoded("%4"), "@");
    assert_eq!(decoded("x%"), "x\u{0}");
    assert_eq!(decoded("%+f"), "\u{f}");
    assert_eq!(decoded("%f+"), "");
}

#[test]
fn queries_are_pairs() {
    let q = chars("a=1&&b&a=2%263&c=d=e");
    let p = parse_query(Some(&q));
    assert_eq!(p.get("a"), Some("2&3"));
    assert_eq!(p.get("b"), Some(""));
    assert_eq!(p.get("c"), Some("d=e"));
    assert_eq!(p.get("d"), None);
    assert_eq!(parse_query(None).get("a"), None);
}

#[test]
fn json_texts() {
    assert_eq!(json_escape("a\"b\\c\n\r\t\u{1}\u{85}z"), "a\\\"b\\\\c\\n\\r\\t\\u0001\\u0085z");
    assert_eq!(json_error("no \"x\""), "{\"error\":\"no \\\"x\\\"\"}");
}

#[test]
fn request_lines() {
    let r = parse_request("  GET   /api/get?id=3&x HTTP/1.1\r\nHost: h\r\n\r\n");
    assert_eq!(r.method, "GET");
    assert_eq!(r.path, "/api/get");
    assert_eq!(r.params.get("id"), Some("3"));
    let r = parse_request("GET");
    assert_eq!(r.path, "/");
    let r = parse_request("\nGET /x");
    assert_eq!(r.method, "");
}

#[test]
fn reply_headers() {
    assert_eq!(
        response_header("200 OK", "text/css; charset=utf-8", 12),
        "HTTP/1.1 200 OK\r\nContent-Type: text/css; charset=utf-8\r\nContent-Length: 12\r\nAccess-Control-Allow-Origin: *\r\nConnection: close\r\n\r\n"
    );
}

#[test]
fn routes() {
    assert!(matches!(plan_text("GET / HTTP/1.1", None, &Machine), Plan::Page));
    assert!(matches!(plan_text("GET /index.html", None, &Machine), Plan::Page));
    assert!(matches!(plan_text("GET /style.css?v=1", None, &Machine), Plan::Style));
    assert_eq!(
        refusal("GET /api/health", None),
        ("200 OK".to_string(), "{\"status\":\"ok\"}".to_string())
    );
    assert_eq!(
        refusal("POST / HTTP/1.1", None),
        ("405 Method Not Allowed".to_string(), "{\"error\":\"only GET\"}".to_string())
    );
    assert_eq!(refusal("GET /nowhere", None).0, "404 Not Found");
    let bytes = [b'G', b'E', b'T', b' ', b'/', 0xff];
    match plan_request(&bytes, None, &Machine) {
        Plan::Answer(a) => assert_eq!(a.status, "404 Not Found"),
        _ => panic!("not refused"),
    }
    assert!(matches!(plan_request(b"GET /index.html", None, &Machine), Plan::Page));
}

#[test]
fn missing_parameters() {
    let body = |r: &str, d: Option<&str>| {
        let (status, body) = refusal(r, d);
        assert_eq!(status, "400 Bad Request");
        body
    };
    assert!(body("GET /api/info", None).contains("no file specified; start server with `bitcompact"));
    assert_eq!(body("GET /api/stats", None), "{\"error\":\"no file\"}");
    assert_eq!(body("GET /api/get", Some("f")), "{\"error\":\"missing id\"}");
    assert_eq!(body("GET /api/get?id=-1", Some("f")), "{\"error\":\"invalid id\"}");
    assert_eq!(
        body("GET /api/search", Some("f")),
        "{\"error\":\"missing query (comma-separated floats)\"}"
    );
    assert_eq!(
        body("GET /api/search?query=a,b", Some("f")),
        "{\"error\":\"query empty or not floats\"}"
    );
}

#[test]
fn jobs() {
    let j = job("GET /api/info?file=x%2Fy", Some("z"));
    assert_eq!(j.path, "x/y");
    assert!(matches!(j.task, Task::Info));
    let j = job("GET /api/get?id=%2B12", Some("z"));
    assert_eq!(j.path, "z");
    assert!(matches!(j.task, Task::Get { id: 12 }));
    match job("GET /api/search?query=1,+x,+2.5&k=two", Some("z")).task {
        Task::Search { query, k } => {
            assert_eq!(ff(&query), vec![1.0, 2.5]);
            assert_eq!(k, 5);
        }
        _ => panic!("another task"),
    }
    match job("GET /api/search?query=1&k=9", Some("z")).task {
        Task::Search { k, .. } => assert_eq!(k, 9),
        _ => panic!("another task"),
    }
}

#[test]
fn answers_about_a_file() {
    let file = sample();
    let (status, body) = ask("GET /api/info", &file);
    assert_eq!(status, "200 OK");
    assert!(body.starts_with("{\"path\":\"a\\\"b.btcp\",\"dims\":2,\"count\":2,\"quant\":\"SQ8\",\"distance\":\"L2\",\"major\":1,\"minor\":0,\"footer_offset\":52,\"checksum\":\""));
    assert!(body.ends_with("\u{2026}\",\"file_size\":77}"));
    let (_, body) = ask("GET /api/get?id=1", &file);
    assert_eq!(
        body,
        "{\"id\":1,\"quantized\":[255,0],\"vector\":[1.000000,0.000000]}"
    );
    let (status, body) = ask("GET /api/get?id=2", &file);
    assert_eq!(status, "404 Not Found");
    assert_eq!(body, "{\"error\":\"id 2 out of range 2\"}");
    let (_, body) = ask("GET /api/search?query=0,1&k=1", &file);
    assert_eq!(
        body,
        "{\"query\":[0.000000,1.000000],\"k\":1,\"hits\":[{\"id\":0,\"distance\":0.000000}]}"
    );
    let (status, body) = ask("GET /api/search?query=0", &file);
    assert_eq!(status, "400 Bad Request");
    assert_eq!(body, "{\"error\":\"query dims 1 != file dims 2\"}");
    let (_, body) = ask("GET /api/stats", &file);
    assert_eq!(
        body,
        "{\"path\":\"a\\\"b.btcp\",\"dims\":2,\"count\":2,\"file_size\":77,\"data_bytes\":4,\"original_bytes\":16,\"ratio\":4.00}"
    );
    let (_, body) = ask("GET /api/validate", &file);
    assert_eq!(
        body,
        "{\"path\":\"a\\\"b.btcp\",\"dims\":2,\"count\":2,\"footer_offset\":52,\"file_size\":100,\"checksum_valid\":true,\"row_ids_monotonic\":true,\"metadata_finite\":true,\"is_valid\":true,\"warnings\":[]}"
    );
}

#[test]
fn answers_about_bad_files() {
    let mut file = sample();
    file[48] ^= 1;
    let (status, body) = ask("GET /api/info", &file);
    assert_eq!(status, "500 Internal Server Error");
    assert!(body.starts_with("{\"error\":\"checksum mismatch"));
    let (status, body) = ask("GET /api/validate", &file);
    assert_eq!(status, "200 OK");
    assert!(body.contains("\"checksum_valid\":false") && body.contains("\"is_valid\":false"));
    let j = job("GET /api/info", Some("f"));
    let gone = Image::Unreadable(IoFailure { eof: false, text: "not here".to_string() });
    let a = run_job(&j, &gone, 0, &Machine, &Machine, &Machine);
    assert_eq!(a.status, "500 Internal Server Error");
    assert_eq!(a.body, "{\"error\":\"I/O error: not here\"}");
}

#[test]
fn files_whose_sizes_do_not_fit() {
    let mut file = sample();
    file[16..24].copy_from_slice(&u64::MAX.to_be_bytes());
    file[24..32].copy_from_slice(&u64::MAX.to_be_bytes());
    assert!(!is_servable(&Task::Info, &file));
    assert!(!is_servable(&Task::Validate, &file));
    assert!(is_servable(&Task::Stats, &sample()));
    assert!(is_servable(&Task::Info, &[]));
}
