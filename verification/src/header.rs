//! The fixed-size file header.
use crate::bytes::{array_of, be, equal, push_all, push_be, read_be, unbe};
use crate::bytes::{law_be_of_unbe, law_unbe_of_be, lemma_capacities};
use crate::errors::{outcome, CompactError, ErrorModel, HeaderModel, Result};
use crate::quant::{DistanceMetric, QuantType};
use crate::text::{decimal, push_decimal};
use vstd::prelude::*;

verus! {

/// First bytes of every file: `BTCP`.
pub const MAGIC: [u8; 4] = [66, 84, 67, 80];

/// Length of the header in bytes.
pub const HEADER_SIZE: usize = 32;

/// Size of a disk block.
pub const DISK_BLOCK_SIZE: usize = 4096;

/// The header of a file, stored in 32 bytes, every number most significant byte first:
/// magic 4, major 2, minor 2, dims 2, quantization tag 2, distance tag 2, reserved 2,
/// vector count 8, footer offset 8.
#[derive(Debug, Clone, Copy, PartialEq, Eq, Structural)]
pub struct Header {
    pub major: u16,
    pub minor: u16,
    pub dims: u16,
    pub quant_type: QuantType,
    pub distance_metric: DistanceMetric,
    pub vector_count: u64,
    pub footer_offset: u64,
}

/// The number in `width` bytes of `b` from position `from`.
pub open spec fn field(b: Seq<u8>, from: int, width: int) -> nat {
    unbe(b.subrange(from, from + width))
}

/// The header that 32 bytes hold, or the first complaint about them; `no_dims` is the
/// complaint about a dimensionality of zero.
pub open spec fn parsed(b: Seq<u8>, no_dims: Seq<char>) -> std::result::Result<
    Header,
    ErrorModel,
> {
    if b.subrange(0, 4) != MAGIC@ {
        Err(ErrorModel::InvalidMagicBytes { expected: MAGIC@, found: b.subrange(0, 4) })
    } else if field(b, 8, 2) == 0 {
        Err(ErrorModel::InvalidHeader(HeaderModel::Text(no_dims)))
    } else {
        match (
            QuantType::of_tag(field(b, 10, 2) as u16),
            DistanceMetric::of_tag(field(b, 12, 2) as u16),
        ) {
            (Err(e), _) => Err(e),
            (_, Err(e)) => Err(e),
            (Ok(quant_type), Ok(distance_metric)) => Ok(
                Header {
                    major: field(b, 4, 2) as u16,
                    minor: field(b, 6, 2) as u16,
                    dims: field(b, 8, 2) as u16,
                    quant_type,
                    distance_metric,
                    vector_count: field(b, 16, 8) as u64,
                    footer_offset: field(b, 24, 8) as u64,
                },
            ),
        }
    }
}

/// Parse 32 bytes; `no_dims` is the complaint about a dimensionality of zero.
pub(crate) fn parse(bytes: &[u8; HEADER_SIZE], no_dims: &str) -> (r: Result<Header>)
    ensures
        outcome(r) == parsed(bytes@, no_dims@),
        r matches Ok(h) ==> h.dims > 0,
{
    let b: &[u8] = bytes.as_slice();
    proof {
        lemma_capacities();
    }
    let found: [u8; 4] = array_of(&b[0..4]);
    if !equal(found.as_slice(), MAGIC.as_slice()) {
        return Err(CompactError::InvalidMagicBytes { expected: MAGIC, found });
    }
    let major: u64 = read_be(b, 4, 2);
    let minor: u64 = read_be(b, 6, 2);
    let dims: u64 = read_be(b, 8, 2);
    if dims == 0 {
        return Err(CompactError::invalid_header(no_dims));
    }
    let quant_tag: u64 = read_be(b, 10, 2);
    let distance_tag: u64 = read_be(b, 12, 2);
    let vector_count: u64 = read_be(b, 16, 8);
    let footer_offset: u64 = read_be(b, 24, 8);
    let quant_type = match QuantType::from_u16(quant_tag as u16) {
        Ok(t) => t,
        Err(e) => return Err(e),
    };
    let distance_metric = match DistanceMetric::from_u16(distance_tag as u16) {
        Ok(t) => t,
        Err(e) => return Err(e),
    };
    Ok(
        Header {
            major: major as u16,
            minor: minor as u16,
            dims: dims as u16,
            quant_type,
            distance_metric,
            vector_count,
            footer_offset,
        },
    )
}

/// Complaint about a dimensionality of zero.
pub open spec fn no_dims_text() -> Seq<char> {
    "dims must be > 0"@
}

impl Header {
    /// The 32 bytes of the header.
    pub open spec fn encoded(self) -> Seq<u8> {
        MAGIC@ + be(self.major as nat, 2) + be(self.minor as nat, 2) + be(self.dims as nat, 2)
            + be(self.quant_type.tag() as nat, 2) + be(self.distance_metric.tag() as nat, 2) + be(
            0,
            2,
        ) + be(self.vector_count as nat, 8) + be(self.footer_offset as nat, 8)
    }

    /// Length of the data block.
    pub open spec fn data_size(self) -> nat {
        (self.vector_count * self.dims) as nat
    }

    /// First position after header, bounds and data.
    pub open spec fn data_end(self) -> nat {
        (32 + 8 * self.dims + self.data_size()) as nat
    }

    /// Length of the footer: one row identifier per vector and the checksum.
    pub open spec fn footer_size(self) -> nat {
        (8 * self.vector_count + 32) as nat
    }

    /// A header with the given fields.
    pub fn new(
        major: u16,
        minor: u16,
        dims: u16,
        quant_type: QuantType,
        distance_metric: DistanceMetric,
        vector_count: u64,
        footer_offset: u64,
    ) -> (h: Header)
        ensures
            h == (Header {
                major,
                minor,
                dims,
                quant_type,
                distance_metric,
                vector_count,
                footer_offset,
            }),
    {
        Header { major, minor, dims, quant_type, distance_metric, vector_count, footer_offset }
    }

    /// The 32 bytes stored on disk.
    pub fn to_bytes(&self) -> (r: [u8; HEADER_SIZE])
        ensures
            r@ == self.encoded(),
    {
        proof {
            lemma_encoded_fields(*self);
        }
        let mut out: Vec<u8> = Vec::new();
        push_all(&mut out, MAGIC.as_slice());
        push_be(&mut out, self.major as u64, 2);
        push_be(&mut out, self.minor as u64, 2);
        push_be(&mut out, self.dims as u64, 2);
        push_be(&mut out, self.quant_type.as_u16() as u64, 2);
        push_be(&mut out, self.distance_metric.as_u16() as u64, 2);
        push_be(&mut out, 0, 2);
        push_be(&mut out, self.vector_count, 8);
        push_be(&mut out, self.footer_offset, 8);
        assert(out@ =~= self.encoded());
        array_of(out.as_slice())
    }

    /// Parse the 32 bytes stored on disk.
    pub fn from_bytes(bytes: &[u8; HEADER_SIZE]) -> (r: Result<Header>)
        ensures
            outcome(r) == parsed(bytes@, no_dims_text()),
    {
        parse(bytes, "dims must be > 0")
    }

    /// Length of the block of bounds: two single-precision numbers per dimension.
    pub fn metadata_len(&self) -> (r: usize)
        ensures
            r == 8 * self.dims,
    {
        self.dims as usize * 8
    }

    /// Length of the data block.
    pub fn data_len(&self) -> (r: u64)
        requires
            self.data_size() <= u64::MAX,
        ensures
            r == self.data_size(),
    {
        self.vector_count * self.dims as u64
    }

    /// Check that the footer lies after the data and inside a file of `file_len` bytes.
    pub fn validate_footer(&self, file_len: u64) -> (r: Result<()>)
        requires
            self.data_end() <= u64::MAX,
            self.footer_offset >= self.data_end() ==> self.footer_offset + self.footer_size()
                <= u64::MAX,
        ensures
            outcome(r) == (if self.footer_offset < self.data_end() {
                Err(
                    ErrorModel::CorruptedFooter(
                        "footer "@ + decimal(self.footer_offset as nat) + " < min "@ + decimal(
                            self.data_end(),
                        ),
                    ),
                )
            } else if self.footer_offset + self.footer_size() > file_len {
                Err(
                    ErrorModel::CorruptedFooter(
                        "footer extends beyond file: offset "@ + decimal(self.footer_offset as nat)
                            + " + size "@ + decimal(self.footer_size()) + " > file "@ + decimal(
                            file_len as nat,
                        ),
                    ),
                )
            } else {
                Ok(())
            }),
    {
        let min_footer: u64 = HEADER_SIZE as u64 + self.metadata_len() as u64 + self.data_len();
        if self.footer_offset < min_footer {
            let mut s: String = "footer ".to_owned();
            push_decimal(&mut s, self.footer_offset);
            s.append(" < min ");
            push_decimal(&mut s, min_footer);
            return Err(CompactError::CorruptedFooter(s));
        }
        let footer_size: u64 = self.vector_count * 8 + 32;
        if self.footer_offset + footer_size > file_len {
            let mut s: String = "footer extends beyond file: offset ".to_owned();
            push_decimal(&mut s, self.footer_offset);
            s.append(" + size ");
            push_decimal(&mut s, footer_size);
            s.append(" > file ");
            push_decimal(&mut s, file_len);
            return Err(CompactError::CorruptedFooter(s));
        }
        Ok(())
    }
}

/// Where each field of an encoded header stands.
pub proof fn lemma_encoded_fields(h: Header)
    ensures
        h.encoded().len() == 32,
        h.encoded().subrange(0, 4) == MAGIC@,
        field(h.encoded(), 4, 2) == h.major,
        field(h.encoded(), 6, 2) == h.minor,
        field(h.encoded(), 8, 2) == h.dims,
        field(h.encoded(), 10, 2) == h.quant_type.tag(),
        field(h.encoded(), 12, 2) == h.distance_metric.tag(),
        field(h.encoded(), 14, 2) == 0,
        field(h.encoded(), 16, 8) == h.vector_count,
        field(h.encoded(), 24, 8) == h.footer_offset,
{
    lemma_capacities();
    law_unbe_of_be(h.major as nat, 2);
    law_unbe_of_be(h.minor as nat, 2);
    law_unbe_of_be(h.dims as nat, 2);
    law_unbe_of_be(h.quant_type.tag() as nat, 2);
    law_unbe_of_be(h.distance_metric.tag() as nat, 2);
    law_unbe_of_be(0, 2);
    law_unbe_of_be(h.vector_count as nat, 8);
    law_unbe_of_be(h.footer_offset as nat, 8);
    let b = h.encoded();
    assert(MAGIC@.len() == 4);
    assert(b.subrange(0, 4) =~= MAGIC@);
    assert(b.subrange(4, 6) =~= be(h.major as nat, 2));
    assert(b.subrange(6, 8) =~= be(h.minor as nat, 2));
    assert(b.subrange(8, 10) =~= be(h.dims as nat, 2));
    assert(b.subrange(10, 12) =~= be(h.quant_type.tag() as nat, 2));
    assert(b.subrange(12, 14) =~= be(h.distance_metric.tag() as nat, 2));
    assert(b.subrange(14, 16) =~= be(0, 2));
    assert(b.subrange(16, 24) =~= be(h.vector_count as nat, 8));
    assert(b.subrange(24, 32) =~= be(h.footer_offset as nat, 8));
}

/// A header that was parsed has dimensions.
pub proof fn law_parsed_has_dims(b: Seq<u8>, no_dims: Seq<char>)
    requires
        b.len() == 32,
    ensures
        parsed(b, no_dims) matches Ok(h) ==> h.dims > 0,
{
    lemma_capacities();
    law_be_of_unbe(b.subrange(8, 10));
}

/// Parsing what `to_bytes` wrote gives the header back, whenever it has dimensions.
pub proof fn law_header_roundtrip(h: Header, no_dims: Seq<char>)
    requires
        h.dims > 0,
    ensures
        parsed(h.encoded(), no_dims) == Ok::<Header, ErrorModel>(h),
{
    lemma_encoded_fields(h);
}

/// Writing a header that was parsed gives the same bytes, whenever the reserved bytes are zero.
pub proof fn law_header_bytes_roundtrip(b: Seq<u8>, no_dims: Seq<char>)
    requires
        b.len() == 32,
        field(b, 14, 2) == 0,
    ensures
        parsed(b, no_dims) matches Ok(h) ==> h.encoded() == b,
{
    if parsed(b, no_dims) is Ok {
        let h = parsed(b, no_dims)->Ok_0;
        lemma_capacities();
        law_be_of_unbe(b.subrange(4, 6));
        law_be_of_unbe(b.subrange(6, 8));
        law_be_of_unbe(b.subrange(8, 10));
        law_be_of_unbe(b.subrange(10, 12));
        law_be_of_unbe(b.subrange(12, 14));
        law_be_of_unbe(b.subrange(14, 16));
        law_be_of_unbe(b.subrange(16, 24));
        law_be_of_unbe(b.subrange(24, 32));
        lemma_encoded_fields(h);
        assert(h.encoded() =~= b);
    }
}

} // verus!
