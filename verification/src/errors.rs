//! Failures of the library and their texts.
use crate::numerals::{plain_reads, plain_text, Numerals};
use crate::scalar::Scalar;
use crate::text::{decimal, decimal_list, hex_list, push_decimal, push_decimal_list, push_hex_list};
use vstd::prelude::*;

verus! {

/// Result of every fallible operation of the library.
pub type Result<T> = std::result::Result<T, CompactError>;

/// A failed input or output operation, as reported by the operating system.
#[derive(Debug)]
pub struct IoFailure {
    /// Whether the end of the file came before all the bytes asked for.
    pub eof: bool,
    /// The system's description.
    pub text: String,
}

/// What is wrong with a header field or a parameter. Numbers are kept as they are, and written
/// out with the message.
#[derive(Debug)]
#[allow(inconsistent_fields)]
pub enum HeaderFault {
    /// A complaint without numbers of single precision.
    Text(String),
    /// The upper bound of a dimension lies below its lower bound.
    InvertedBounds { dimension: usize, min: Scalar, max: Scalar },
    /// Percentiles outside `0..=100`, or not in ascending order.
    InvalidPercentiles { low: Scalar, high: Scalar },
}

/// Everything that can go wrong.
#[derive(Debug)]
#[allow(inconsistent_fields)]
pub enum CompactError {
    /// Underlying input or output failure.
    IoError { source: IoFailure },
    /// The file does not begin with the magic bytes.
    InvalidMagicBytes { expected: [u8; 4], found: [u8; 4] },
    /// A header field or a parameter violates an invariant.
    InvalidHeader(HeaderFault),
    /// Vector dimensionality does not match.
    DimensionMismatch { expected: usize, found: usize },
    /// The footer cannot be parsed or is inconsistent.
    CorruptedFooter(String),
    /// The data block does not hash to the stored checksum.
    ChecksumMismatch { expected: [u8; 32], found: [u8; 32] },
    /// A vector index at or past the number of vectors.
    IndexOutOfBounds { index: u64, count: u64 },
    /// A value that is not finite, or cannot be placed between the bounds.
    QuantizationOverflow {
        dimension: usize,
        value: Scalar,
        min: Scalar,
        max: Scalar,
        reason: &'static str,
    },
    /// Unknown quantization tag.
    InvalidQuantType(u16),
    /// Unknown distance tag.
    InvalidDistanceMetric(u16),
    /// No vectors where at least one is needed.
    EmptyDataset,
    /// The data block is damaged.
    CorruptedData(String),
}

/// A complaint with its text as a sequence.
#[allow(inconsistent_fields)]
pub ghost enum HeaderModel {
    Text(Seq<char>),
    InvertedBounds { dimension: nat, min: Scalar, max: Scalar },
    InvalidPercentiles { low: Scalar, high: Scalar },
}

impl View for HeaderFault {
    type V = HeaderModel;

    open spec fn view(&self) -> HeaderModel {
        match *self {
            HeaderFault::Text(text) => HeaderModel::Text(text@),
            HeaderFault::InvertedBounds { dimension, min, max } => HeaderModel::InvertedBounds {
                dimension: dimension as nat,
                min,
                max,
            },
            HeaderFault::InvalidPercentiles { low, high } => HeaderModel::InvalidPercentiles {
                low,
                high,
            },
        }
    }
}

/// An error with its texts and byte arrays as sequences.
#[allow(inconsistent_fields)]
pub ghost enum ErrorModel {
    IoError { eof: bool, text: Seq<char> },
    InvalidMagicBytes { expected: Seq<u8>, found: Seq<u8> },
    InvalidHeader(HeaderModel),
    DimensionMismatch { expected: nat, found: nat },
    CorruptedFooter(Seq<char>),
    ChecksumMismatch { expected: Seq<u8>, found: Seq<u8> },
    IndexOutOfBounds { index: nat, count: nat },
    QuantizationOverflow {
        dimension: nat,
        value: Scalar,
        min: Scalar,
        max: Scalar,
        reason: Seq<char>,
    },
    InvalidQuantType(u16),
    InvalidDistanceMetric(u16),
    EmptyDataset,
    CorruptedData(Seq<char>),
}

impl View for CompactError {
    type V = ErrorModel;

    open spec fn view(&self) -> ErrorModel {
        match *self {
            CompactError::IoError { source } => ErrorModel::IoError {
                eof: source.eof,
                text: source.text@,
            },
            CompactError::InvalidMagicBytes { expected, found } => ErrorModel::InvalidMagicBytes {
                expected: expected@,
                found: found@,
            },
            CompactError::InvalidHeader(fault) => ErrorModel::InvalidHeader(fault@),
            CompactError::DimensionMismatch { expected, found } => ErrorModel::DimensionMismatch {
                expected: expected as nat,
                found: found as nat,
            },
            CompactError::CorruptedFooter(text) => ErrorModel::CorruptedFooter(text@),
            CompactError::ChecksumMismatch { expected, found } => ErrorModel::ChecksumMismatch {
                expected: expected@,
                found: found@,
            },
            CompactError::IndexOutOfBounds { index, count } => ErrorModel::IndexOutOfBounds {
                index: index as nat,
                count: count as nat,
            },
            CompactError::QuantizationOverflow { dimension, value, min, max, reason } => {
                ErrorModel::QuantizationOverflow {
                    dimension: dimension as nat,
                    value,
                    min,
                    max,
                    reason: reason@,
                }
            },
            CompactError::InvalidQuantType(tag) => ErrorModel::InvalidQuantType(tag),
            CompactError::InvalidDistanceMetric(tag) => ErrorModel::InvalidDistanceMetric(tag),
            CompactError::EmptyDataset => ErrorModel::EmptyDataset,
            CompactError::CorruptedData(text) => ErrorModel::CorruptedData(text@),
        }
    }
}

/// What `String::from_utf8_lossy` makes of a byte sequence.
pub uninterp spec fn lossy_text(bytes: Seq<u8>) -> Seq<char>;

/// `String::from_utf8_lossy`, copied into an owned string. The text depends on the bytes
/// alone, and bytes below 128 stand for the characters with the same codes.
#[verifier::external_body]
pub(crate) fn lossy(bytes: &[u8]) -> (s: String)
    ensures
        s@ == lossy_text(bytes@),
        (forall|i: int| 0 <= i < bytes@.len() ==> bytes@[i] < 128) ==> s@ == Seq::new(
            bytes@.len(),
            |i: int| bytes@[i] as char,
        ),
{
    String::from_utf8_lossy(bytes).into_owned()
}

/// Text of bounds in the wrong order.
pub open spec fn inverted_reads<N: Numerals>(
    dimension: nat,
    min: Scalar,
    max: Scalar,
    n: &N,
    text: Seq<char>,
) -> bool {
    exists|lo: Seq<char>, hi: Seq<char>| #[trigger]
        plain_reads(n, min, lo) && #[trigger] plain_reads(n, max, hi) && text
            == "max < min at dim "@ + decimal(dimension) + ": max "@ + hi + " < min "@ + lo
}

/// Text of unusable percentiles.
pub open spec fn percentiles_read<N: Numerals>(
    low: Scalar,
    high: Scalar,
    n: &N,
    text: Seq<char>,
) -> bool {
    exists|lo: Seq<char>, hi: Seq<char>| #[trigger]
        plain_reads(n, low, lo) && #[trigger] plain_reads(n, high, hi) && text
            == "invalid percentiles low="@ + lo + " high="@ + hi
}

/// `text` is the text of `fault`, with its numbers written by `n`.
pub open spec fn fault_reads<N: Numerals>(fault: HeaderModel, n: &N, text: Seq<char>) -> bool {
    match fault {
        HeaderModel::Text(t) => text == t,
        HeaderModel::InvertedBounds { dimension, min, max } => inverted_reads(
            dimension,
            min,
            max,
            n,
            text,
        ),
        HeaderModel::InvalidPercentiles { low, high } => percentiles_read(low, high, n, text),
    }
}

/// `text` is the message of an invalid header.
pub open spec fn header_reads<N: Numerals>(fault: HeaderModel, n: &N, text: Seq<char>) -> bool {
    exists|t: Seq<char>| #[trigger] fault_reads(fault, n, t) && text == "invalid header: "@ + t
}

/// Message of a value that cannot be quantized or reconstructed.
pub open spec fn overflow_reads<N: Numerals>(
    dimension: nat,
    value: Scalar,
    min: Scalar,
    max: Scalar,
    reason: Seq<char>,
    n: &N,
    text: Seq<char>,
) -> bool {
    exists|v: Seq<char>, lo: Seq<char>, hi: Seq<char>| #[trigger]
        plain_reads(n, value, v) && #[trigger] plain_reads(n, min, lo) && #[trigger] plain_reads(n, max, hi)
            && text == "quantization overflow at dim "@ + decimal(dimension) + ": value "@ + v
            + " not in ["@ + lo + ", "@ + hi + "] ("@ + reason + ")"@
}

/// `text` is the message of `error`, with its numbers written by `n`.
pub open spec fn reads_as<N: Numerals>(
    error: ErrorModel,
    n: &N,
    text: Seq<char>,
) -> bool {
    match error {
        ErrorModel::IoError { eof, text: t } => text == "I/O error: "@ + t,
        ErrorModel::InvalidMagicBytes { expected, found } => text
            == "invalid magic bytes: expected "@ + decimal_list(expected) + " (\""@ + lossy_text(
            expected,
        ) + "\"), found "@ + decimal_list(found) + " (\""@ + lossy_text(found) + "\")"@,
        ErrorModel::InvalidHeader(fault) => header_reads(fault, n, text),
        ErrorModel::DimensionMismatch { expected, found } => text
            == "dimension mismatch: expected "@ + decimal(expected) + ", found "@ + decimal(found),
        ErrorModel::CorruptedFooter(msg) => text == "corrupted footer: "@ + msg,
        ErrorModel::ChecksumMismatch { expected, found } => text
            == "checksum mismatch: expected "@ + hex_list(expected.take(8)) + ", found "@
            + hex_list(found.take(8)),
        ErrorModel::IndexOutOfBounds { index, count } => text
            == "index out of bounds: index "@ + decimal(index) + " >= count "@ + decimal(count),
        ErrorModel::QuantizationOverflow { dimension, value, min, max, reason } => overflow_reads(
            dimension,
            value,
            min,
            max,
            reason,
            n,
            text,
        ),
        ErrorModel::InvalidQuantType(tag) => text == "invalid quantization type tag: "@ + decimal(
            tag as nat,
        ),
        ErrorModel::InvalidDistanceMetric(tag) => text == "invalid distance metric tag: "@
            + decimal(tag as nat),
        ErrorModel::EmptyDataset => text == "empty dataset: no vectors to calibrate or store"@,
        ErrorModel::CorruptedData(msg) => text == "corrupted data block: "@ + msg,
    }
}

impl HeaderFault {
    /// The text of the complaint.
    pub fn text<N: Numerals>(&self, n: &N) -> (s: String)
        ensures
            fault_reads(self@, n, s@),
    {
        let mut s: String = String::new();
        match self {
            HeaderFault::Text(text) => {
                s.append(text.as_str());
                assert(s@ =~= text@);
            },
            HeaderFault::InvertedBounds { dimension, min, max } => {
                let hi = plain_text(*max, n);
                let lo = plain_text(*min, n);
                s.append("max < min at dim ");
                push_decimal(&mut s, *dimension as u64);
                s.append(": max ");
                s.append(hi.as_str());
                s.append(" < min ");
                s.append(lo.as_str());
                assert(plain_reads(n, *min, lo@) && plain_reads(n, *max, hi@));
                assert(s@ =~= "max < min at dim "@ + decimal(*dimension as nat) + ": max "@ + hi@
                    + " < min "@ + lo@);
            },
            HeaderFault::InvalidPercentiles { low, high } => {
                let lo = plain_text(*low, n);
                let hi = plain_text(*high, n);
                s.append("invalid percentiles low=");
                s.append(lo.as_str());
                s.append(" high=");
                s.append(hi.as_str());
                assert(plain_reads(n, *low, lo@) && plain_reads(n, *high, hi@));
                assert(s@ =~= "invalid percentiles low="@ + lo@ + " high="@ + hi@);
            },
        }
        s
    }
}

impl CompactError {
    /// The failure of the system behind this error, if there is one.
    pub fn source(&self) -> (r: Option<&IoFailure>)
        ensures
            match self {
                CompactError::IoError { source } => r == Some(source),
                _ => r is None,
            },
    {
        match self {
            CompactError::IoError { source } => Some(source),
            _ => None,
        }
    }

    /// The message shown to users.
    pub fn message<N: Numerals>(&self, n: &N) -> (s: String)
        ensures
            reads_as(self@, n, s@),
    {
        let mut s: String = String::new();
        match self {
            CompactError::IoError { source } => {
                s.append("I/O error: ");
                s.append(source.text.as_str());
                assert(s@ =~= "I/O error: "@ + source.text@);
            },
            CompactError::InvalidMagicBytes { expected, found } => {
                s.append("invalid magic bytes: expected ");
                push_decimal_list(&mut s, expected.as_slice());
                s.append(" (\"");
                s.append(lossy(expected.as_slice()).as_str());
                s.append("\"), found ");
                push_decimal_list(&mut s, found.as_slice());
                s.append(" (\"");
                s.append(lossy(found.as_slice()).as_str());
                s.append("\")");
                assert(s@ =~= "invalid magic bytes: expected "@ + decimal_list(expected@)
                    + " (\""@ + lossy_text(expected@) + "\"), found "@ + decimal_list(found@)
                    + " (\""@ + lossy_text(found@) + "\")"@);
            },
            CompactError::InvalidHeader(fault) => {
                let t = fault.text(n);
                s.append("invalid header: ");
                s.append(t.as_str());
                assert(fault_reads(fault@, n, t@));
                assert(s@ =~= "invalid header: "@ + t@);
            },
            CompactError::DimensionMismatch { expected, found } => {
                s.append("dimension mismatch: expected ");
                push_decimal(&mut s, *expected as u64);
                s.append(", found ");
                push_decimal(&mut s, *found as u64);
                assert(s@ =~= "dimension mismatch: expected "@ + decimal(*expected as nat)
                    + ", found "@ + decimal(*found as nat));
            },
            CompactError::CorruptedFooter(msg) => {
                s.append("corrupted footer: ");
                s.append(msg.as_str());
                assert(s@ =~= "corrupted footer: "@ + msg@);
            },
            CompactError::ChecksumMismatch { expected, found } => {
                s.append("checksum mismatch: expected ");
                push_hex_list(&mut s, &expected.as_slice()[0..8]);
                s.append(", found ");
                push_hex_list(&mut s, &found.as_slice()[0..8]);
                assert(expected@.take(8) =~= expected@.subrange(0, 8));
                assert(found@.take(8) =~= found@.subrange(0, 8));
                assert(s@ =~= "checksum mismatch: expected "@ + hex_list(expected@.take(8))
                    + ", found "@ + hex_list(found@.take(8)));
            },
            CompactError::IndexOutOfBounds { index, count } => {
                s.append("index out of bounds: index ");
                push_decimal(&mut s, *index);
                s.append(" >= count ");
                push_decimal(&mut s, *count);
                assert(s@ =~= "index out of bounds: index "@ + decimal(*index as nat)
                    + " >= count "@ + decimal(*count as nat));
            },
            CompactError::QuantizationOverflow { dimension, value, min, max, reason } => {
                let v = plain_text(*value, n);
                let lo = plain_text(*min, n);
                let hi = plain_text(*max, n);
                s.append("quantization overflow at dim ");
                push_decimal(&mut s, *dimension as u64);
                s.append(": value ");
                s.append(v.as_str());
                s.append(" not in [");
                s.append(lo.as_str());
                s.append(", ");
                s.append(hi.as_str());
                s.append("] (");
                s.append(reason);
                s.append(")");
                assert(plain_reads(n, *value, v@) && plain_reads(n, *min, lo@) && plain_reads(n, *max, hi@));
                assert(s@ =~= "quantization overflow at dim "@ + decimal(*dimension as nat)
                    + ": value "@ + v@ + " not in ["@ + lo@ + ", "@ + hi@ + "] ("@ + reason@
                    + ")"@);
            },
            CompactError::InvalidQuantType(tag) => {
                s.append("invalid quantization type tag: ");
                push_decimal(&mut s, *tag as u64);
                assert(s@ =~= "invalid quantization type tag: "@ + decimal(*tag as nat));
            },
            CompactError::InvalidDistanceMetric(tag) => {
                s.append("invalid distance metric tag: ");
                push_decimal(&mut s, *tag as u64);
                assert(s@ =~= "invalid distance metric tag: "@ + decimal(*tag as nat));
            },
            CompactError::EmptyDataset => {
                s.append("empty dataset: no vectors to calibrate or store");
                assert(s@ =~= "empty dataset: no vectors to calibrate or store"@);
            },
            CompactError::CorruptedData(msg) => {
                s.append("corrupted data block: ");
                s.append(msg.as_str());
                assert(s@ =~= "corrupted data block: "@ + msg@);
            },
        }
        s
    }

    /// An invalid header with the given text.
    pub fn invalid_header(msg: &str) -> (e: CompactError)
        ensures
            e@ == ErrorModel::InvalidHeader(HeaderModel::Text(msg@)),
    {
        CompactError::InvalidHeader(HeaderFault::Text(msg.to_owned()))
    }

    /// A corrupted footer with the given text.
    pub fn corrupted_footer(msg: &str) -> (e: CompactError)
        ensures
            e@ == ErrorModel::CorruptedFooter(msg@),
    {
        CompactError::CorruptedFooter(msg.to_owned())
    }

    /// Whether this is an input or output failure.
    pub fn is_io(&self) -> (r: bool)
        ensures
            r == (self@ is IoError),
    {
        match self {
            CompactError::IoError { .. } => true,
            _ => false,
        }
    }
}

/// Outcome of an operation, with its error modelled.
pub open spec fn outcome<T>(r: Result<T>) -> std::result::Result<T, ErrorModel> {
    match r {
        Ok(v) => Ok(v),
        Err(e) => Err(e@),
    }
}

} // verus!
