//! Reading and writing files.
use crate::errors::{CompactError, ErrorModel, Result};
use crate::header::{self, parsed, HEADER_SIZE};
use crate::quant::{DistanceMetric, QuantType};
use vstd::prelude::*;

pub mod check;
pub mod io;
pub mod laws;
pub mod layout;
pub mod open;
pub mod reader;
pub mod writer;

pub use open::{OpenProgress, OpenSession};
pub use reader::CompactReader;
pub use writer::{CompactWriter, Finish, CHECKSUM_SIZE};

verus! {

/// The header of a stored file.
#[derive(Debug, Clone, Copy, PartialEq, Eq, Structural)]
pub struct Header {
    pub major: u16,
    pub minor: u16,
    pub dims: u16,
    pub quant_type: QuantType,
    pub distance_metric: DistanceMetric,
    pub vector_count: u64,
    pub footer_offset: u64,
}

/// Complaint about a stored dimensionality of zero.
pub open spec fn no_dims_text() -> Seq<char> {
    "dimensions must be > 0"@
}

/// The stored header in 32 bytes, or the first complaint about them.
pub open spec fn stored(b: Seq<u8>) -> std::result::Result<header::Header, ErrorModel> {
    parsed(b, no_dims_text())
}

/// Outcome of parsing, over the plain header.
pub open spec fn parsing(r: Result<Header>) -> std::result::Result<header::Header, ErrorModel> {
    match r {
        Ok(h) => Ok(h.plain()),
        Err(e) => Err(e@),
    }
}

impl Header {
    /// The same fields.
    pub open spec fn plain(self) -> header::Header {
        header::Header {
            major: self.major,
            minor: self.minor,
            dims: self.dims,
            quant_type: self.quant_type,
            distance_metric: self.distance_metric,
            vector_count: self.vector_count,
            footer_offset: self.footer_offset,
        }
    }

    fn to_plain(&self) -> (h: header::Header)
        ensures
            h == self.plain(),
    {
        header::Header {
            major: self.major,
            minor: self.minor,
            dims: self.dims,
            quant_type: self.quant_type,
            distance_metric: self.distance_metric,
            vector_count: self.vector_count,
            footer_offset: self.footer_offset,
        }
    }

    fn of_plain(h: header::Header) -> (r: Header)
        ensures
            r.plain() == h,
    {
        Header {
            major: h.major,
            minor: h.minor,
            dims: h.dims,
            quant_type: h.quant_type,
            distance_metric: h.distance_metric,
            vector_count: h.vector_count,
            footer_offset: h.footer_offset,
        }
    }

    /// A header with the given fields.
    pub fn new(
        major: u16,
        minor: u16,
        dims: u16,
        quant_type: QuantType,
        distance_metric: DistanceMetric,
        vector_count: u64,
        footer_offset: u64,
    ) -> (h: Header)
        ensures
            h == (Header {
                major,
                minor,
                dims,
                quant_type,
                distance_metric,
                vector_count,
                footer_offset,
            }),
    {
        Header { major, minor, dims, quant_type, distance_metric, vector_count, footer_offset }
    }

    /// The 32 bytes stored on disk.
    pub fn to_bytes(&self) -> (r: [u8; HEADER_SIZE])
        ensures
            r@ == self.plain().encoded(),
    {
        self.to_plain().to_bytes()
    }

    /// Parse the 32 bytes stored on disk.
    pub fn from_bytes(bytes: &[u8; HEADER_SIZE]) -> (r: Result<Header>)
        ensures
            parsing(r) == stored(bytes@),
    {
        match header::parse(bytes, "dimensions must be > 0") {
            Ok(h) => Ok(Header::of_plain(h)),
            Err(e) => Err(e),
        }
    }

    /// Length of the block of bounds.
    pub fn metadata_len(&self) -> (r: usize)
        ensures
            r == 8 * self.dims,
    {
        self.to_plain().metadata_len()
    }

    /// Length of the data block.
    pub fn data_len(&self) -> (r: u64)
        requires
            self.plain().data_size() <= u64::MAX,
        ensures
            r == self.plain().data_size(),
    {
        self.to_plain().data_len()
    }
}

/// The header at the start of a file.
pub fn read_header(file: &[u8]) -> (r: Result<Header>)
    ensures
        parsing(r) == (if file@.len() < 32 {
            Err(io::eof_error())
        } else {
            stored(file@.take(32))
        }),
{
    match io::read_at(file, 0, HEADER_SIZE) {
        Ok(b) => {
            assert(file@.subrange(0, 32) =~= file@.take(32));
            Header::from_bytes(&crate::bytes::array_of(b.as_slice()))
        },
        Err(f) => Err(CompactError::IoError { source: f }),
    }
}

} // verus!
