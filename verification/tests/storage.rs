use bit_compact::config::{CompactConfig, ReaderConfig, WriterConfig};
use bit_compact::errors::CompactError;
use bit_compact::numerals::Numerals;
use bit_compact::quant::{DistanceMetric, QuantType, Quantizer};
use bit_compact::scalar::{Arithmetic, Scalar};
use bit_compact::storage::io::{serve, IoRequest};
use bit_compact::storage::{CompactReader, CompactWriter};
use bit_compact::storage::{read_header, Header, OpenProgress, OpenSession};
use bit_compact::wide::Wide;

#[allow(dead_code)]
struct Machine;

#[allow(dead_code)]
fn s(v: f32) -> Scalar {
    Scalar { bits: v.to_bits() }
}

#[allow(dead_code)]
fn f(v: Scalar) -> f32 {
    f32::from_bits(v.bits)
}

#[allow(dead_code)]
fn ss(v: &[f32]) -> Vec<Scalar> {
    v.iter().map(|x| s(*x)).collect()
}

#[allow(dead_code)]
fn ff(v: &[Scalar]) -> Vec<f32> {
    v.iter().map(|x| f(*x)).collect()
}

#[allow(dead_code)]
fn rows(v: &[Vec<f32>]) -> Vec<Vec<Scalar>> {
    v.iter().map(|x| ss(x)).collect()
}

impl Arithmetic for Machine {
    fn sub(&self, a: Scalar, b: Scalar) -> Scalar {
        s(f(a) - f(b))
    }

    fn add(&self, a: Scalar, b: Scalar) -> Scalar {
        s(f(a) + f(b))
    }

    fn mul(&self, a: Scalar, b: Scalar) -> Scalar {
        s(f(a) * f(b))
    }

    fn div(&self, a: Scalar, b: Scalar) -> Scalar {
        s(f(a) / f(b))
    }

    fn sqrt(&self, a: Scalar) -> Scalar {
        s(f(a).sqrt())
    }

    fn of_count(&self, n: usize) -> Scalar {
        s(n as f32)
    }
}

impl Numerals for Machine {
    fn plain(&self, v: Scalar) -> String {
        format!("{}", f(v))
    }

    fn fixed(&self, v: Scalar, places: usize) -> String {
        format!("{:.*}", places, f(v))
    }

    fn fixed_wide(&self, v: Wide, places: usize) -> String {
        format!("{:.*}", places, f64::from_bits(v.bits))
    }

    fn parse(&self, text: &str) -> Result<Scalar, String> {
        match text.parse::<f32>() {
            Ok(v) => Ok(s(v)),
            Err(e) => Err(e.to_string()),
        }
    }
}

/// A finished file with these vectors.
#[allow(dead_code)]
fn file_of(data: &[Vec<f32>], metric: DistanceMetric, align: bool) -> Vec<u8> {
    let data = rows(data);
    let q = Quantizer::calibrate(&data).expect("calibrate");
    let (mut writer, mut body) =
        CompactWriter::create(q, QuantType::SQ8, metric).expect("create");
    for v in &data {
        body.extend(writer.append(v, &Machine).expect("append"));
    }
    writer.finalize_with_padding(align).expect("finalize").apply(body)
}

#[allow(dead_code)]
fn reader_of(file: &[u8]) -> CompactReader {
    CompactReader::open(file).expect("open")
}

#[test]
fn header_roundtrip() {
    let h = Header::new(1, 0, 128, QuantType::SQ8, DistanceMetric::L2, 42, 9999);
    let bytes = h.to_bytes();
    assert_eq!(bytes.len(), 32);
    let parsed = Header::from_bytes(&bytes).expect("parse");
    assert_eq!(h, parsed);
}

#[test]
fn writer_reader_roundtrip() {
    let data = vec![vec![0.0, 1.0, 2.0], vec![3.0, 4.0, 5.0], vec![-1.0, 0.5, 10.0]];
    let file = file_of(&data, DistanceMetric::L2, false);
    let r = reader_of(&file);
    assert_eq!(r.len(), 3);
    assert_eq!(r.dims(), 3);
    for (i, orig) in data.iter().enumerate() {
        let deq = ff(&r.get_vector(&file, i as u64, &Machine).expect("get"));
        for (a, b) in orig.iter().zip(deq.iter()) {
            assert!((a - b).abs() < 0.05, "dim mismatch: {a} vs {b}");
        }
    }
    let mut buf = vec![0u8; 3];
    r.get_quantized_into(&file, 1, &mut buf).expect("q_into");
    assert_eq!(buf.len(), 3);
    r.verify_checksum(&file).expect("checksum");
}

#[test]
fn padding_alignment() {
    let data = vec![vec![1.0, 2.0]; 5];
    let file = file_of(&data, DistanceMetric::Cosine, true);
    let r = reader_of(&file);
    assert_eq!(r.footer_offset() % 4096, 0);
}

#[test]
fn invalid_magic_rejected() {
    let err = CompactReader::open(&[0u8; 32]).err().expect("should fail");
    assert!(err.message(&Machine).contains("magic"));
}

#[test]
fn end_to_end_4x_reduction() {
    let dims = 128usize;
    let count = 100u64;
    let dataset: Vec<Vec<f32>> = (0..count)
        .map(|i| {
            (0..dims)
                .map(|d| ((i * dims as u64 + d as u64) % 200) as f32 / 100.0 - 1.0)
                .collect()
        })
        .collect();
    let f32_bytes = count as usize * dims * 4;
    let file = file_of(&dataset, DistanceMetric::Cosine, false);
    let file_bytes = file.len();
    let expected_data = count as usize * dims;
    let overhead = 32 + 2 * dims * 4 + count as usize * 8 + 32;
    assert_eq!(file_bytes, expected_data + overhead);
    assert_eq!(f32_bytes / expected_data, 4);
    let reader = reader_of(&file);
    assert_eq!(reader.len(), count);
    let v = reader.get_vector(&file, 42, &Machine).expect("get");
    assert_eq!(v.len(), dims);
    assert_eq!(reader.estimated_file_size(), file_bytes as u64);
}

#[test]
fn file_layout_is_big_endian() {
    let file = file_of(&[vec![0.0, 2.0], vec![1.0, 4.0]], DistanceMetric::Cosine, false);
    assert_eq!(&file[..4], b"BTCP");
    assert_eq!(&file[4..10], &[0, 1, 0, 0, 0, 2]);
    assert_eq!(&file[10..16], &[0, 1, 0, 1, 0, 0]);
    assert_eq!(&file[16..24], &2u64.to_be_bytes());
    assert_eq!(&file[24..32], &52u64.to_be_bytes());
    assert_eq!(&file[32..36], &0f32.to_be_bytes());
    assert_eq!(&file[36..40], &2f32.to_be_bytes());
    assert_eq!(&file[40..44], &1f32.to_be_bytes());
    assert_eq!(&file[44..48], &4f32.to_be_bytes());
    assert_eq!(&file[48..52], &[0, 0, 255, 255]);
    assert_eq!(&file[52..60], &0u64.to_be_bytes());
    assert_eq!(&file[60..68], &1u64.to_be_bytes());
    assert_eq!(&file[68..], &bit_compact::sha::sha256(&[0, 0, 255, 255]));
}

#[test]
fn reading_gives_back_the_bytes_that_appending_produced() {
    let data = rows(&[vec![0.0, 1.0], vec![1.0, 0.0], vec![0.25, 0.75]]);
    let q = Quantizer::calibrate(&data).expect("calibrate");
    let (mut writer, mut body) =
        CompactWriter::create(q, QuantType::SQ8, DistanceMetric::L2).expect("create");
    let mut produced = Vec::new();
    for v in &data {
        let b = writer.append(v, &Machine).expect("append");
        body.extend(&b);
        produced.push(b);
    }
    let file = writer.finalize().expect("finalize").apply(body);
    let r = reader_of(&file);
    for (i, b) in produced.iter().enumerate() {
        assert_eq!(&r.get_quantized(&file, i as u64).expect("get"), b);
    }
    let mut flat = vec![0u8; 4];
    r.get_batch_quantized_into(&file, &[2, 0], &mut flat).expect("flat");
    assert_eq!(&flat[..2], produced[2].as_slice());
    assert_eq!(&flat[2..], produced[0].as_slice());
    let mut seen = Vec::new();
    r.scan_quantized(&file, &mut seen).expect("scan");
    assert_eq!(seen, produced);
    let batch = r.get_batch(&file, &[1, 1], &Machine).expect("batch");
    assert_eq!(batch[0], batch[1]);
}

#[test]
fn altered_data_is_refused() {
    let mut file = file_of(&[vec![0.0], vec![1.0]], DistanceMetric::L2, false);
    file[40] ^= 1;
    let e = CompactReader::open(&file).err().expect("refused");
    assert!(matches!(e, CompactError::ChecksumMismatch { .. }));
    assert!(e.message(&Machine).starts_with("checksum mismatch: expected ["));
    let r = CompactReader::open_unverified(&file).expect("unverified");
    assert!(r.verify_checksum(&file).is_err());
    let config = ReaderConfig::default().without_verification();
    assert!(CompactReader::open_with_config(&file, config).is_ok());
}

#[test]
fn truncated_files_are_refused() {
    let file = file_of(&[vec![0.0], vec![1.0]], DistanceMetric::L2, false);
    let n = file.len();
    let text = |len: usize| CompactReader::open(&file[..len]).err().expect("refused").message(&Machine);
    assert_eq!(text(10), "I/O error: failed to fill whole buffer");
    assert_eq!(text(35), "I/O error: failed to fill whole buffer");
    assert_eq!(text(n - 1), "corrupted footer: truncated checksum: failed to fill whole buffer");
    assert_eq!(
        text(n - 33),
        "corrupted footer: truncated row-id array: failed to fill whole buffer"
    );
}

#[test]
fn misplaced_footers_are_refused() {
    let q = |x: u64| {
        let h = Header::new(1, 0, 2, QuantType::SQ8, DistanceMetric::L2, 3, x);
        let mut file = h.to_bytes().to_vec();
        file.extend(vec![0u8; 200]);
        let text = CompactReader::open(&file).err().expect("refused").message(&Machine);
        let e = CompactReader::open_unverified(&file).err().expect("refused");
        assert_eq!(e.message(&Machine), text);
        let config = ReaderConfig::default().without_verification();
        let e = CompactReader::open_with_config(&file, config).err().expect("refused");
        assert_eq!(e.message(&Machine), text);
        text
    };
    assert_eq!(q(40), "corrupted footer: footer_offset 40 before end of data block");
    assert_eq!(
        q(50),
        "corrupted footer: footer_offset 50 < minimum 54 (truncated data block?)"
    );
}

#[test]
fn indices_and_lengths_are_checked() {
    let file = file_of(&[vec![0.0, 1.0], vec![1.0, 0.0]], DistanceMetric::L2, false);
    let r = reader_of(&file);
    let e = r.get_quantized(&file, 2).err().expect("index");
    assert!(matches!(e, CompactError::IndexOutOfBounds { index: 2, count: 2 }));
    let mut short = [0u8; 1];
    let e = r.get_quantized_into(&file, 0, &mut short).err().expect("length");
    assert!(matches!(e, CompactError::DimensionMismatch { expected: 2, found: 1 }));
    let mut flat = [7u8; 4];
    let e = r.get_batch_quantized_into(&file, &[1, 9], &mut flat).err().expect("index");
    assert!(matches!(e, CompactError::IndexOutOfBounds { index: 9, count: 2 }));
    assert_eq!(&flat[2..], &[7, 7]);
    let e = r.get_batch_quantized_into(&file, &[1], &mut flat).err().expect("length");
    assert!(matches!(e, CompactError::DimensionMismatch { expected: 2, found: 4 }));
    assert_eq!(r.vector_offset(1).expect("offset"), 32 + 16 + 2);
    assert!(r.get_batch(&file, &[0, 5], &Machine).is_err());
    let mut out = vec![s(0.0); 2];
    r.get_dequantized_into(&file, 1, &mut out, &Machine).expect("into");
    assert_eq!(out, r.get_dequantized(&file, 1, &Machine).expect("get"));
}

#[test]
fn opening_asks_for_one_piece_after_another() {
    let file = file_of(&[vec![0.0, 1.0], vec![1.0, 0.0]], DistanceMetric::L2, false);
    let mut session = OpenSession::new(true);
    let mut at = 0u64;
    let mut reads = Vec::new();
    let reader = loop {
        let request = session.request();
        match request {
            IoRequest::Seek { offset } => reads.push((offset, 0)),
            IoRequest::Read { len } => reads.push((at, len)),
        }
        let event = serve(&file, at, request);
        match request {
            IoRequest::Seek { offset } => at = offset,
            IoRequest::Read { len } => at += len as u64,
        }
        match session.supply(event) {
            OpenProgress::Opened(r) => break r,
            OpenProgress::Refused(_) => panic!("refused"),
            OpenProgress::Pending(next) => session = next,
        }
    };
    assert_eq!(reads[0], (0, 32));
    assert_eq!(reads[1], (32, 16));
    assert_eq!(reads[2], (52, 0));
    assert_eq!(reads.last(), Some(&(48, 4)));
    assert_eq!(reader.row_ids(), &[0, 1]);
}

#[test]
fn writers_check_what_they_take() {
    let q = Quantizer::new(ss(&[0.0, 0.0]), ss(&[1.0, 1.0])).expect("new");
    let (mut w, mut body) =
        CompactWriter::create(q, QuantType::SQ8, DistanceMetric::L2).expect("create");
    assert!(w.is_empty());
    assert!(matches!(
        w.append(&ss(&[1.0]), &Machine),
        Err(CompactError::DimensionMismatch { expected: 2, found: 1 })
    ));
    assert!(matches!(
        w.append_quantized(&[1, 2, 3]),
        Err(CompactError::DimensionMismatch { expected: 2, found: 3 })
    ));
    w.append_quantized(&[4, 5]).expect("raw");
    body.extend([4, 5]);
    let mut more = Vec::new();
    let bad = rows(&[vec![0.0, 1.0], vec![f32::NAN, 0.0], vec![1.0, 1.0]]);
    assert!(w.append_many(&bad, &Machine, &mut more).is_err());
    assert_eq!(more, vec![0, 255]);
    body.extend(more);
    assert_eq!(w.len(), 2);
    assert_eq!(w.data_bytes(), 4);
    assert_eq!(w.estimated_file_size(), 32 + 16 + 4 + 16 + 32);
    let file = w.finalize().expect("finalize").apply(body);
    assert_eq!(reader_of(&file).get_quantized(&file, 0).expect("get"), vec![4, 5]);
}

#[test]
fn settings_reach_the_file() {
    let base = CompactConfig::builder(1, QuantType::RawF32, DistanceMetric::InnerProduct)
        .version(2, 5)
        .build()
        .expect("build");
    let q = Quantizer::new(ss(&[0.0]), ss(&[1.0])).expect("new");
    let config = WriterConfig::from_base(base).pad_to_block(true);
    let (w, body) = CompactWriter::create_with_config(q, config).expect("create");
    let file = w.finalize().expect("finalize").apply(body);
    let h = read_header(&file).expect("header");
    assert_eq!((h.major, h.minor), (2, 5));
    assert_eq!(h.quant_type, QuantType::RawF32);
    assert_eq!(h.distance_metric, DistanceMetric::InnerProduct);
    assert_eq!(h.footer_offset, 4096);
    assert_eq!(file.len(), 4096 + 32);
}

#[test]
fn too_many_dimensions_for_a_file() {
    let e = Quantizer::new(vec![s(0.0); 65536], vec![s(1.0); 65536]).err().expect("refused");
    assert_eq!(
        e.message(&Machine),
        "invalid header: dimensions 65536 exceeds u16::MAX (65535)"
    );
}
