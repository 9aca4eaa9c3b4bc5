use bit_compact::errors::CompactError;
use bit_compact::header::Header;
use bit_compact::quant::{DistanceMetric, QuantType};

#[test]
fn roundtrip() {
    let h = Header::new(1, 2, 128, QuantType::SQ8, DistanceMetric::Cosine, 10, 5000);
    let b = h.to_bytes();
    assert_eq!(b.len(), 32);
    let p = Header::from_bytes(&b).expect("parse");
    assert_eq!(h, p);
}

#[test]
fn bad_magic() {
    let mut b = Header::new(1, 0, 8, QuantType::SQ8, DistanceMetric::L2, 0, 0).to_bytes();
    b[0] = 0;
    assert!(Header::from_bytes(&b).is_err());
}

#[test]
fn fields_are_checked() {
    let good = Header::new(1, 0, 8, QuantType::SQ8, DistanceMetric::L2, 0, 0).to_bytes();
    let with = |at: usize, v: u8| {
        let mut b = good;
        b[at] = v;
        Header::from_bytes(&b).err()
    };
    assert!(matches!(with(1, b'X'), Some(CompactError::InvalidMagicBytes { .. })));
    assert!(matches!(with(9, 0), Some(CompactError::InvalidHeader(_))));
    assert!(matches!(with(11, 9), Some(CompactError::InvalidQuantType(9))));
    assert!(matches!(with(13, 9), Some(CompactError::InvalidDistanceMetric(9))));
    assert!(with(31, 1).is_none());
}

#[test]
fn sizes_of_a_header() {
    let h = Header::new(1, 0, 8, QuantType::SQ8, DistanceMetric::L2, 3, 120);
    assert_eq!(h.metadata_len(), 64);
    assert_eq!(h.data_len(), 24);
    assert!(h.validate_footer(120 + 24 + 32).is_ok());
    assert!(h.validate_footer(120 + 24 + 31).is_err());
}
