//! An opened file: what its header, bounds and footer say, and where its vectors are.
use crate::bins::{byte_rows, dequantized, dequantizes_to, dequantizing_fails, stands_for};
use crate::errors::{outcome, CompactError, ErrorModel, Result};
use crate::header::{self, HEADER_SIZE};
use crate::quant::{Bounds, DistanceMetric, QuantType, Quantizer};
use crate::scalar::{Arithmetic, Scalar};
use crate::storage::check::{data_verdict, DataCheck, DataProgress};
use crate::storage::io::{eof_error, read_at, serve, IoRequest};
use crate::storage::{Header, CHECKSUM_SIZE};
use vstd::prelude::*;

verus! {

/// What an opened file says.
pub ghost struct ReaderModel {
    pub header: header::Header,
    pub bounds: Bounds,
    pub row_ids: Seq<u64>,
    pub checksum: Seq<u8>,
}

impl ReaderModel {
    /// Valid bounds, one per dimension, and one row identifier per vector.
    pub open spec fn valid(self) -> bool {
        &&& self.bounds.valid()
        &&& self.bounds.dims() == self.header.dims
        &&& self.row_ids.len() == self.header.vector_count
        &&& self.checksum.len() == 32
    }

    /// Position of vector `index`.
    pub open spec fn offset(self, index: nat) -> nat {
        (32 + 8 * self.header.dims + index * self.header.dims) as nat
    }

    /// Every position in the data block fits in 64 bits.
    pub open spec fn addressable(self) -> bool {
        self.header.data_end() <= u64::MAX
    }

    /// Why vector `index` cannot be read into `len` bytes, if it cannot.
    pub open spec fn read_fault(self, index: u64, len: nat) -> Option<ErrorModel> {
        if len != self.header.dims {
            Some(ErrorModel::DimensionMismatch { expected: self.header.dims as nat, found: len })
        } else if index >= self.header.vector_count {
            Some(
                ErrorModel::IndexOutOfBounds {
                    index: index as nat,
                    count: self.header.vector_count as nat,
                },
            )
        } else {
            None
        }
    }

    /// The bytes of vector `index` of a file, or why they cannot be had.
    pub open spec fn vector_bytes(self, file: Seq<u8>, index: u64) -> std::result::Result<
        Seq<u8>,
        ErrorModel,
    > {
        let at = self.offset(index as nat) as int;
        match self.read_fault(index, self.header.dims as nat) {
            Some(e) => Err(e),
            None => if at + self.header.dims > file.len() {
                Err(eof_error())
            } else {
                Ok(file.subrange(at, at + self.header.dims))
            },
        }
    }
}

/// Outcome over the bytes.
pub open spec fn bytes_outcome(r: Result<Vec<u8>>) -> std::result::Result<Seq<u8>, ErrorModel> {
    match r {
        Ok(v) => Ok(v@),
        Err(e) => Err(e@),
    }
}

/// Reading vector `index` of a file back may come out as `r`.
pub open spec fn vector_read<A: Arithmetic>(
    x: &A,
    m: ReaderModel,
    file: Seq<u8>,
    index: u64,
    r: Result<Vec<Scalar>>,
) -> bool {
    match m.vector_bytes(file, index) {
        Ok(b) => dequantized(x, m.bounds, b, r),
        Err(e) => r matches Err(f) && f@ == e,
    }
}

/// Vector `index` of a file can be read back.
pub open spec fn vector_readable<A: Arithmetic>(
    x: &A,
    m: ReaderModel,
    file: Seq<u8>,
    index: u64,
) -> bool {
    exists|v: Seq<Scalar>|
        m.vector_bytes(file, index) is Ok && #[trigger] dequantizes_to(
            x,
            m.bounds,
            m.vector_bytes(file, index)->Ok_0,
            v,
        )
}

/// Reading vector `index` of a file back may fail with `e`.
pub open spec fn vector_fails<A: Arithmetic>(
    x: &A,
    m: ReaderModel,
    file: Seq<u8>,
    index: u64,
    e: ErrorModel,
) -> bool {
    match m.vector_bytes(file, index) {
        Ok(b) => dequantizing_fails(x, m.bounds, b, e),
        Err(f) => e == f,
    }
}

/// Reading several vectors back may fail with `e`, at the one numbered `i`.
pub open spec fn batch_read_fails_at<A: Arithmetic>(
    x: &A,
    m: ReaderModel,
    file: Seq<u8>,
    indices: Seq<u64>,
    i: int,
    e: ErrorModel,
) -> bool {
    &&& 0 <= i < indices.len()
    &&& vector_fails(x, m, file, indices[i], e)
    &&& forall|j: int|
        0 <= j < i ==> vector_readable(x, m, file, #[trigger] indices[j])
}

/// Bytes `k * dims` up to `(k + 1) * dims` of a flat buffer.
pub open spec fn slot(out: Seq<u8>, dims: nat, k: nat) -> Seq<u8> {
    out.subrange((k * dims) as int, (k * dims + dims) as int)
}

/// `out` is `old` with the bytes of the first `n` vectors of `indices` in their slots.
pub open spec fn slots_filled(
    m: ReaderModel,
    file: Seq<u8>,
    indices: Seq<u64>,
    n: nat,
    old: Seq<u8>,
    out: Seq<u8>,
) -> bool {
    let dims = m.header.dims as nat;
    &&& n <= indices.len()
    &&& out.len() == old.len()
    &&& out.skip((n * dims) as int) == old.skip((n * dims) as int)
    &&& forall|k: nat|
        k < n ==> m.vector_bytes(file, indices[k as int]) == Ok::<Seq<u8>, ErrorModel>(
            #[trigger] slot(out, dims, k),
        )
}

/// Vector number `n` of `indices` is the first that cannot be read, for the reason `e`; those
/// before it are in their slots.
pub open spec fn slots_stop(
    m: ReaderModel,
    file: Seq<u8>,
    indices: Seq<u64>,
    n: nat,
    old: Seq<u8>,
    out: Seq<u8>,
    e: ErrorModel,
) -> bool {
    &&& n < indices.len()
    &&& slots_filled(m, file, indices, n, old, out)
    &&& m.vector_bytes(file, indices[n as int]) == Err::<Seq<u8>, ErrorModel>(e)
}

/// The bytes of the first `n` vectors of a file, in order.
pub open spec fn scanned(m: ReaderModel, file: Seq<u8>, n: nat, seen: Seq<Seq<u8>>) -> bool {
    seen.len() == n && forall|i: int|
        0 <= i < n ==> m.vector_bytes(file, i as u64) == Ok::<Seq<u8>, ErrorModel>(
            #[trigger] seen[i],
        )
}

/// A scan of a file saw `seen` and came out as `r`.
pub open spec fn scan_ends(
    m: ReaderModel,
    file: Seq<u8>,
    seen: Seq<Seq<u8>>,
    r: Result<()>,
) -> bool {
    match r {
        Ok(()) => scanned(m, file, m.header.vector_count as nat, seen),
        Err(e) => seen.len() < m.header.vector_count && scanned(m, file, seen.len(), seen)
            && m.vector_bytes(file, seen.len() as u64) == Err::<Seq<u8>, ErrorModel>(e@),
    }
}

proof fn lemma_slot_filled(
    m: ReaderModel,
    file: Seq<u8>,
    indices: Seq<u64>,
    n: nat,
    old: Seq<u8>,
    before: Seq<u8>,
    bytes: Seq<u8>,
    out: Seq<u8>,
)
    requires
        n < indices.len(),
        old.len() == indices.len() * m.header.dims,
        slots_filled(m, file, indices, n, old, before),
        m.vector_bytes(file, indices[n as int]) == Ok::<Seq<u8>, ErrorModel>(bytes),
        out.len() == before.len(),
        bytes.len() == m.header.dims,
        forall|i: int|
            0 <= i < out.len() ==> #[trigger] out[i] == (if n * m.header.dims <= i < n
                * m.header.dims + m.header.dims {
                bytes[i - n * m.header.dims]
            } else {
                before[i]
            }),
    ensures
        slots_filled(m, file, indices, n + 1, old, out),
{
    let dims = m.header.dims as nat;
    let at = n * dims;
    assert((n + 1) * dims == at + dims) by (nonlinear_arith)
        requires
            at == n * dims,
    ;
    assert((n + 1) * dims <= indices.len() * dims) by (nonlinear_arith)
        requires
            n < indices.len(),
    ;
    assert(out.skip((at + dims) as int) =~= old.skip((at + dims) as int)) by {
        assert forall|i: int| at + dims <= i < out.len() implies out[i] == old[i] by {
            assert(before.skip(at as int)[i - at] == old.skip(at as int)[i - at]);
        }
    }
    assert forall|k: nat| k < n + 1 implies m.vector_bytes(file, indices[k as int]) == Ok::<
        Seq<u8>,
        ErrorModel,
    >(#[trigger] slot(out, dims, k)) by {
        if k < n {
            assert(k * dims + dims <= at) by (nonlinear_arith)
                requires
                    k < n,
                    at == n * dims,
            ;
            assert(slot(out, dims, k) =~= slot(before, dims, k));
        } else {
            assert(slot(out, dims, k) =~= bytes);
        }
    }
}

/// A buffer `out` that held `before` when reading `bytes` back stopped with `e`: the coordinates
/// before the one complained of are read, the others are as they were.
pub open spec fn partly_read<A: Arithmetic>(
    x: &A,
    b: Bounds,
    bytes: Seq<u8>,
    e: ErrorModel,
    before: Seq<Scalar>,
    out: Seq<Scalar>,
) -> bool {
    e matches ErrorModel::QuantizationOverflow { dimension, .. } && forall|k: int|
        0 <= k < b.dims() ==> if k < dimension {
            (#[trigger] out[k]).finite() && stands_for(x, bytes[k], b.min[k], b.max[k], out[k])
        } else {
            out[k] == before[k]
        }
}

/// Reader of one file. Its view is what the file says.
pub struct CompactReader {
    header: header::Header,
    quantizer: Quantizer,
    row_ids: Vec<u64>,
    checksum: [u8; 32],
}

impl View for CompactReader {
    type V = ReaderModel;

    closed spec fn view(&self) -> ReaderModel {
        ReaderModel {
            header: self.header,
            bounds: self.quantizer@,
            row_ids: self.row_ids@,
            checksum: self.checksum@,
        }
    }
}

impl CompactReader {
    #[verifier::type_invariant]
    spec fn wf(self) -> bool {
        self@.valid()
    }

    /// A reader of a file with these parts.
    pub(crate) fn assemble(
        header: header::Header,
        quantizer: Quantizer,
        row_ids: Vec<u64>,
        checksum: [u8; 32],
    ) -> (r: CompactReader)
        requires
            quantizer@.valid(),
            quantizer@.dims() == header.dims,
            row_ids@.len() == header.vector_count,
        ensures
            r@ == (ReaderModel {
                header,
                bounds: quantizer@,
                row_ids: row_ids@,
                checksum: checksum@,
            }),
            r@.valid(),
    {
        CompactReader { header, quantizer, row_ids, checksum }
    }

    /// The header.
    pub fn header(&self) -> (r: Header)
        ensures
            r.plain() == self@.header,
            self@.valid(),
    {
        proof {
            use_type_invariant(self);
        }
        Header {
            major: self.header.major,
            minor: self.header.minor,
            dims: self.header.dims,
            quant_type: self.header.quant_type,
            distance_metric: self.header.distance_metric,
            vector_count: self.header.vector_count,
            footer_offset: self.header.footer_offset,
        }
    }

    /// The quantizer.
    pub fn quantizer(&self) -> (r: &Quantizer)
        ensures
            r@ == self@.bounds,
            self@.valid(),
    {
        proof {
            use_type_invariant(self);
        }
        &self.quantizer
    }

    /// Number of vectors.
    pub fn len(&self) -> (r: u64)
        ensures
            r == self@.header.vector_count,
            self@.valid(),
    {
        proof {
            use_type_invariant(self);
        }
        self.header.vector_count
    }

    /// Whether there are no vectors.
    pub fn is_empty(&self) -> (r: bool)
        ensures
            r == (self@.header.vector_count == 0),
    {
        self.header.vector_count == 0
    }

    /// Number of dimensions.
    pub fn dims(&self) -> (r: usize)
        ensures
            r == self@.header.dims,
            self@.valid(),
    {
        proof {
            use_type_invariant(self);
        }
        self.header.dims as usize
    }

    /// Position of the footer.
    pub fn footer_offset(&self) -> (r: u64)
        ensures
            r == self@.header.footer_offset,
    {
        self.header.footer_offset
    }

    /// Row identifiers.
    pub fn row_ids(&self) -> (r: &[u64])
        ensures
            r@ == self@.row_ids,
    {
        self.row_ids.as_slice()
    }

    /// Stored checksum.
    pub fn checksum(&self) -> (r: &[u8; 32])
        ensures
            r@ == self@.checksum,
    {
        &self.checksum
    }

    /// Quantization of the data block.
    pub fn quant_type(&self) -> (r: QuantType)
        ensures
            r == self@.header.quant_type,
    {
        self.header.quant_type
    }

    /// Metric that the file was written for.
    pub fn distance_metric(&self) -> (r: DistanceMetric)
        ensures
            r == self@.header.distance_metric,
    {
        self.header.distance_metric
    }

    /// Number of vectors that a full scan reads.
    pub fn remaining(&self) -> (r: u64)
        ensures
            r == self@.header.vector_count,
    {
        self.header.vector_count
    }

    /// Whether every position in the data block fits in 64 bits.
    pub fn is_addressable(&self) -> (r: bool)
        ensures
            r == self@.addressable(),
    {
        crate::storage::open::layout_fits(&self.header)
    }

    /// Length of the data block.
    pub fn data_len(&self) -> (r: u64)
        requires
            self@.addressable(),
        ensures
            r == self@.header.data_size(),
    {
        self.header.data_len()
    }

    /// Size of the file without padding.
    pub fn estimated_file_size(&self) -> (r: u64)
        requires
            self@.header.data_end() + self@.header.footer_size() <= u64::MAX,
        ensures
            r == self@.header.data_end() + self@.header.footer_size(),
    {
        proof {
            use_type_invariant(self);
        }
        HEADER_SIZE as u64 + self.header.metadata_len() as u64 + self.data_len()
            + self.row_ids.len() as u64 * 8 + CHECKSUM_SIZE as u64
    }

    /// Position of the first byte of vector `index`.
    pub fn vector_offset(&self, index: u64) -> (r: Result<u64>)
        requires
            self@.addressable(),
        ensures
            match r {
                Ok(at) => index < self@.header.vector_count && at == self@.offset(index as nat),
                Err(e) => index >= self@.header.vector_count && e@
                    == (ErrorModel::IndexOutOfBounds {
                    index: index as nat,
                    count: self@.header.vector_count as nat,
                }),
            },
    {
        if index >= self.header.vector_count {
            return Err(
                CompactError::IndexOutOfBounds { index, count: self.header.vector_count },
            );
        }
        proof {
            assert(index * self.header.dims <= self.header.vector_count * self.header.dims)
                by (nonlinear_arith)
                requires
                    index < self.header.vector_count,
            ;
        }
        Ok(
            HEADER_SIZE as u64 + self.header.metadata_len() as u64 + index
                * self.header.dims as u64,
        )
    }

    /// Where the one read that fetches vector `index` into `len` bytes starts.
    pub fn read_position(&self, index: u64, len: usize) -> (r: Result<u64>)
        requires
            self@.addressable(),
        ensures
            match self@.read_fault(index, len as nat) {
                Some(e) => r matches Err(f) && f@ == e,
                None => r matches Ok(at) && at == self@.offset(index as nat),
            },
    {
        if len != self.header.dims as usize {
            return Err(
                CompactError::DimensionMismatch {
                    expected: self.header.dims as usize,
                    found: len,
                },
            );
        }
        self.vector_offset(index)
    }

    /// Fetch the bytes of vector `index` of a file held in memory into a buffer.
    pub fn get_quantized_into(&self, file: &[u8], index: u64, out: &mut [u8]) -> (r: Result<()>)
        requires
            self@.addressable(),
        ensures
            final(out)@.len() == old(out)@.len(),
            match self@.read_fault(index, old(out)@.len()) {
                Some(e) => r matches Err(f) && f@ == e && final(out)@ == old(out)@,
                None => match self@.vector_bytes(file@, index) {
                    Ok(b) => r is Ok && final(out)@ == b,
                    Err(e) => r matches Err(f) && f@ == e && final(out)@ == old(out)@,
                },
            },
    {
        let len: usize = out.len();
        let at: u64 = match self.read_position(index, len) {
            Ok(at) => at,
            Err(e) => return Err(e),
        };
        match read_at(file, at, len) {
            Ok(b) => {
                let mut i: usize = 0;
                while i < len
                    invariant
                        i <= len == out@.len() == b@.len() == old(out)@.len(),
                        forall|k: int| 0 <= k < i ==> out@[k] == b@[k],
                    decreases len - i,
                {
                    out[i] = b[i];
                    i += 1;
                }
                assert(out@ =~= b@);
                Ok(())
            },
            Err(f) => Err(CompactError::IoError { source: f }),
        }
    }

    /// The bytes of vector `index` of a file held in memory.
    pub fn get_quantized(&self, file: &[u8], index: u64) -> (r: Result<Vec<u8>>)
        requires
            self@.addressable(),
        ensures
            bytes_outcome(r) == self@.vector_bytes(file@, index),
    {
        let len: usize = self.header.dims as usize;
        let at: u64 = match self.read_position(index, len) {
            Ok(at) => at,
            Err(e) => return Err(e),
        };
        match read_at(file, at, len) {
            Ok(b) => Ok(b),
            Err(f) => Err(CompactError::IoError { source: f }),
        }
    }

    /// Vector `index` of a file held in memory, read back.
    pub fn get_vector<A: Arithmetic>(&self, file: &[u8], index: u64, x: &A) -> (r: Result<
        Vec<Scalar>,
    >)
        requires
            self@.addressable(),
        ensures
            vector_read(x, self@, file@, index, r),
    {
        match self.get_quantized(file, index) {
            Ok(q) => self.quantizer.dequantize_vector(q.as_slice(), x),
            Err(e) => Err(e),
        }
    }

    /// Another name of [`CompactReader::get_vector`].
    pub fn get_dequantized<A: Arithmetic>(&self, file: &[u8], index: u64, x: &A) -> (r: Result<
        Vec<Scalar>,
    >)
        requires
            self@.addressable(),
        ensures
            vector_read(x, self@, file@, index, r),
    {
        self.get_vector(file, index, x)
    }

    /// Vector `index` of a file held in memory, read back into a buffer. On a number that is not
    /// finite, the coordinates before it are already stored; on other errors nothing is.
    pub fn get_dequantized_into<A: Arithmetic>(
        &self,
        file: &[u8],
        index: u64,
        out: &mut [Scalar],
        x: &A,
    ) -> (r: Result<()>)
        requires
            self@.addressable(),
        ensures
            final(out)@.len() == old(out)@.len(),
            match r {
                Ok(()) => {
                    &&& old(out)@.len() == self@.header.dims
                    &&& self@.vector_bytes(file@, index) is Ok
                    &&& dequantizes_to(
                        x,
                        self@.bounds,
                        self@.vector_bytes(file@, index)->Ok_0,
                        final(out)@,
                    )
                },
                Err(e) => match self@.read_fault(index, old(out)@.len()) {
                    Some(f) => e@ == f && final(out)@ == old(out)@,
                    None => {
                        &&& vector_fails(x, self@, file@, index, e@)
                        &&& match self@.vector_bytes(file@, index) {
                            Ok(bytes) => partly_read(
                                x,
                                self@.bounds,
                                bytes,
                                e@,
                                old(out)@,
                                final(out)@,
                            ),
                            Err(_) => final(out)@ == old(out)@,
                        }
                    },
                },
            },
    {
        proof {
            use_type_invariant(self);
        }
        let dims: usize = self.header.dims as usize;
        if out.len() != dims {
            return Err(CompactError::DimensionMismatch { expected: dims, found: out.len() });
        }
        match self.get_quantized(file, index) {
            Ok(q) => self.quantizer.dequantize_into(q.as_slice(), out, x),
            Err(e) => Err(e),
        }
    }

    /// Several vectors of a file held in memory, up to the first that cannot be read.
    pub fn get_batch<A: Arithmetic>(&self, file: &[u8], indices: &[u64], x: &A) -> (r: Result<
        Vec<Vec<Scalar>>,
    >)
        requires
            self@.addressable(),
        ensures
            match r {
                Ok(out) => {
                    &&& out@.len() == indices@.len()
                    &&& forall|i: int|
                        0 <= i < indices@.len() ==> self@.vector_bytes(
                            file@,
                            indices@[i],
                        ) is Ok && dequantizes_to(
                            x,
                            self@.bounds,
                            self@.vector_bytes(file@, indices@[i])->Ok_0,
                            (#[trigger] out@[i])@,
                        )
                },
                Err(e) => exists|i: int| #[trigger]
                    batch_read_fails_at(x, self@, file@, indices@, i, e@),
            },
    {
        let mut out: Vec<Vec<Scalar>> = Vec::new();
        let mut i: usize = 0;
        while i < indices.len()
            invariant
                self@.addressable(),
                i <= indices@.len(),
                out@.len() == i,
                forall|k: int|
                    0 <= k < i ==> self@.vector_bytes(file@, indices@[k]) is Ok && dequantizes_to(
                        x,
                        self@.bounds,
                        self@.vector_bytes(file@, indices@[k])->Ok_0,
                        (#[trigger] out@[k])@,
                    ),
                forall|k: int|
                    0 <= k < i ==> vector_readable(x, self@, file@, #[trigger] indices@[k]),
            decreases indices@.len() - i,
        {
            match self.get_vector(file, indices[i], x) {
                Ok(v) => {
                    assert(vector_readable(x, self@, file@, indices@[i as int])) by {
                        assert(dequantizes_to(
                            x,
                            self@.bounds,
                            self@.vector_bytes(file@, indices@[i as int])->Ok_0,
                            v@,
                        ));
                    }
                    out.push(v);
                },
                Err(e) => {
                    assert(batch_read_fails_at(x, self@, file@, indices@, i as int, e@));
                    return Err(e);
                },
            }
            i += 1;
        }
        Ok(out)
    }

    /// Check that a flat buffer of `len` bytes takes exactly `count` vectors.
    pub fn check_flat_len(&self, count: usize, len: usize) -> (r: Result<()>)
        requires
            count * self@.header.dims <= usize::MAX,
        ensures
            match r {
                Ok(()) => len == count * self@.header.dims,
                Err(e) => len != count * self@.header.dims && e@
                    == (ErrorModel::DimensionMismatch {
                    expected: (count * self@.header.dims) as nat,
                    found: len as nat,
                }),
            },
    {
        let expected: usize = count * self.header.dims as usize;
        if len != expected {
            return Err(CompactError::DimensionMismatch { expected, found: len });
        }
        Ok(())
    }

    /// Fetch the bytes of several vectors of a file held in memory into a flat buffer, up to the
    /// first that cannot be read.
    pub fn get_batch_quantized_into(&self, file: &[u8], indices: &[u64], out: &mut [u8]) -> (r:
        Result<()>)
        requires
            self@.addressable(),
            indices@.len() * self@.header.dims <= usize::MAX,
        ensures
            final(out)@.len() == old(out)@.len(),
            match r {
                Ok(()) => old(out)@.len() == indices@.len() * self@.header.dims && slots_filled(
                    self@,
                    file@,
                    indices@,
                    indices@.len(),
                    old(out)@,
                    final(out)@,
                ),
                Err(e) => if old(out)@.len() != indices@.len() * self@.header.dims {
                    final(out)@ == old(out)@ && e@ == (ErrorModel::DimensionMismatch {
                        expected: (indices@.len() * self@.header.dims) as nat,
                        found: old(out)@.len(),
                    })
                } else {
                    exists|n: nat| #[trigger]
                        slots_stop(self@, file@, indices@, n, old(out)@, final(out)@, e@)
                },
            },
    {
        match self.check_flat_len(indices.len(), out.len()) {
            Ok(()) => {},
            Err(e) => return Err(e),
        }
        let dims: usize = self.header.dims as usize;
        let ghost m = self@;
        let ghost start = out@;
        let mut i: usize = 0;
        assert(0 * dims == 0) by (nonlinear_arith);
        while i < indices.len()
            invariant
                m == self@,
                m.addressable(),
                dims == m.header.dims,
                start == old(out)@,
                i <= indices@.len(),
                start.len() == indices@.len() * dims,
                start.len() <= usize::MAX,
                slots_filled(m, file@, indices@, i as nat, start, out@),
            decreases indices@.len() - i,
        {
            let b = match self.get_quantized(file, indices[i]) {
                Ok(b) => b,
                Err(e) => {
                    assert(slots_stop(m, file@, indices@, i as nat, start, out@, e@));
                    return Err(e);
                },
            };
            let ghost before = out@;
            proof {
                assert(i * dims + dims <= indices@.len() * dims) by (nonlinear_arith)
                    requires
                        i < indices@.len(),
                ;
            }
            let at: usize = i * dims;
            let mut d: usize = 0;
            while d < dims
                invariant
                    d <= dims == b@.len(),
                    out@.len() == before.len(),
                    at + dims <= out@.len() <= usize::MAX,
                    forall|k: int|
                        0 <= k < out@.len() ==> #[trigger] out@[k] == (if at <= k < at + d {
                            b@[k - at]
                        } else {
                            before[k]
                        }),
                decreases dims - d,
            {
                out[at + d] = b[d];
                d += 1;
            }
            proof {
                lemma_slot_filled(m, file@, indices@, i as nat, start, before, b@, out@);
            }
            i += 1;
        }
        Ok(())
    }

    /// The bytes of all vectors of a file held in memory in order, up to the first that cannot
    /// be read; they go to the end of `seen`.
    pub fn scan_quantized(&self, file: &[u8], seen: &mut Vec<Vec<u8>>) -> (r: Result<()>)
        requires
            self@.addressable(),
            old(seen)@.len() == 0,
        ensures
            scan_ends(self@, file@, byte_rows(final(seen)@), r),
    {
        let count: u64 = self.header.vector_count;
        let ghost m = self@;
        let mut i: u64 = 0;
        while i < count
            invariant
                m == self@,
                m.addressable(),
                count == m.header.vector_count,
                i <= count,
                seen@.len() == i,
                scanned(m, file@, i as nat, byte_rows(seen@)),
            decreases count - i,
        {
            match self.get_quantized(file, i) {
                Ok(b) => {
                    let ghost before = byte_rows(seen@);
                    seen.push(b);
                    assert forall|k: int| 0 <= k < i + 1 implies m.vector_bytes(file@, k as u64)
                        == Ok::<Seq<u8>, ErrorModel>(#[trigger] byte_rows(seen@)[k]) by {
                        if k < i {
                            assert(byte_rows(seen@)[k] == before[k]);
                        }
                    }
                },
                Err(e) => return Err(e),
            }
            i += 1;
        }
        Ok(())
    }

    /// Verify the data block of a file held in memory against the stored checksum.
    pub fn verify_checksum(&self, file: &[u8]) -> (r: Result<()>)
        requires
            self@.addressable(),
        ensures
            outcome(r) == data_verdict(self@.header, self@.checksum, file@),
    {
        let mut check = self.start_check();
        let mut at: u64 = 0;
        let size: usize = file.len();
        loop
            invariant
                size == file@.len(),
                check.wf(),
                check.wants() is Read ==> check.at() == at,
                check.ahead(file@) == data_verdict(self@.header, self@.checksum, file@),
            decreases check.left(),
        {
            let request = check.request();
            let event = serve(file, at, request);
            let ghost came = event;
            match check.supply(event) {
                DataProgress::Done(r) => return r,
                DataProgress::Pending(next) => {
                    assert(came !is Failed);
                    match request {
                        IoRequest::Seek { offset } => {
                            at = offset;
                        },
                        IoRequest::Read { len } => {
                            at = at + len as u64;
                        },
                    }
                    check = next;
                },
            }
        }
    }

    /// Start verifying the data block against the stored checksum.
    pub fn start_check(&self) -> (c: DataCheck)
        requires
            self@.addressable(),
        ensures
            c.wf(),
            c.header() == self@.header,
            c.wants() is Seek,
            forall|file: Seq<u8>| #[trigger]
                c.ahead(file) == data_verdict(self@.header, self@.checksum, file),
    {
        DataCheck::new(self.header, self.checksum)
    }
}

/// First eight bytes in hexadecimal, and an ellipsis.
pub fn hex_preview(bytes: &[u8; 32]) -> (s: String)
    ensures
        s@ == crate::text::hex_run(bytes@.take(8)).push('\u{2026}'),
{
    let mut s: String = String::new();
    crate::text::push_hex_run(&mut s, &bytes.as_slice()[0..8]);
    assert(bytes@.subrange(0, 8) =~= bytes@.take(8));
    s.push('\u{2026}');
    assert(s@ =~= crate::text::hex_run(bytes@.take(8)).push('\u{2026}'));
    s
}

} // verus!
