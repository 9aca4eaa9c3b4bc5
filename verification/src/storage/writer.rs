//! Writing a file. The writer decides which bytes go where; the caller moves them.
use crate::aligned::{align_up_u64, rounded_up};
use crate::bins::{input_fault, quantized, quantizes_to};
use crate::bytes::push_all;
use crate::config::WriterConfig;
use crate::errors::{CompactError, ErrorModel, HeaderFault, HeaderModel, Result};
use crate::header::{lemma_encoded_fields, Header, DISK_BLOCK_SIZE, HEADER_SIZE};
use crate::quant::{rows, slice_rows, Bounds, DistanceMetric, QuantType, Quantizer};
use crate::scalar::{Arithmetic, Scalar};
use crate::sha::{digest, zeros, Sha256};
use crate::storage::layout::{
    bounds_be, counting, ids_be, image, push_counting, push_scalars, vector_in,
};
use crate::text::{decimal, push_decimal};
use vstd::prelude::*;

verus! {

/// Length of the checksum in bytes.
pub const CHECKSUM_SIZE: usize = 32;

/// What a writer stands for: its settings, and the data block so far.
pub ghost struct WriterModel {
    pub bounds: Bounds,
    pub quant_type: QuantType,
    pub distance_metric: DistanceMetric,
    pub major: u16,
    pub minor: u16,
    pub pad_to_block: bool,
    pub count: nat,
    pub data: Seq<u8>,
}

impl WriterModel {
    pub open spec fn dims(self) -> nat {
        self.bounds.dims()
    }

    /// Valid bounds of at most 65535 dimensions, and one byte per coordinate of every vector.
    pub open spec fn valid(self) -> bool {
        &&& self.bounds.valid()
        &&& self.dims() <= 65535
        &&& self.count <= u64::MAX
        &&& self.data.len() == self.count * self.dims()
    }

    /// The model after one more vector.
    pub open spec fn appended(self, bytes: Seq<u8>) -> WriterModel {
        WriterModel { count: self.count + 1, data: self.data + bytes, ..self }
    }

    /// First position after the data block.
    pub open spec fn data_end(self) -> nat {
        32 + 8 * self.dims() + self.data.len()
    }

    /// Bytes between data block and footer.
    pub open spec fn padding(self, align: bool) -> nat {
        if align {
            ((4096 - self.data_end() % 4096) % 4096) as nat
        } else {
            0
        }
    }

    /// The header of the file with `count` vectors and the footer at `footer_offset`.
    pub open spec fn header(self, count: nat, footer_offset: nat) -> Header {
        Header {
            major: self.major,
            minor: self.minor,
            dims: self.dims() as u16,
            quant_type: self.quant_type,
            distance_metric: self.distance_metric,
            vector_count: count as u64,
            footer_offset: footer_offset as u64,
        }
    }

    /// The header of the finished file.
    pub open spec fn final_header(self, align: bool) -> Header {
        self.header(self.count, self.data_end() + self.padding(align))
    }

    /// What stands before the data block while the file is written: a header without vectors,
    /// and the bounds.
    pub open spec fn prefix(self) -> Seq<u8> {
        self.header(0, 0).encoded() + bounds_be(self.bounds)
    }

    /// The row identifiers and the checksum.
    pub open spec fn footer(self) -> Seq<u8> {
        ids_be(counting(self.count)) + digest(self.data)
    }

    /// The finished file.
    pub open spec fn file(self, align: bool) -> Seq<u8> {
        image(
            self.final_header(align),
            self.bounds,
            self.data,
            self.padding(align),
            counting(self.count),
            digest(self.data),
        )
    }
}

/// `m1` is `m0` after the first `n` vectors of `data` went in as the bytes `added`.
pub open spec fn appended_first<A: Arithmetic>(
    x: &A,
    m0: WriterModel,
    data: Seq<Seq<Scalar>>,
    n: nat,
    added: Seq<u8>,
    m1: WriterModel,
) -> bool {
    &&& n <= data.len()
    &&& m1 == (WriterModel { count: m0.count + n, data: m0.data + added, ..m0 })
    &&& added.len() == n * m0.dims()
    &&& forall|i: int|
        0 <= i < n ==> input_fault(m0.bounds, #[trigger] data[i]) is None && quantizes_to(
            x,
            m0.bounds,
            data[i],
            vector_in(added, m0.dims(), i as nat),
        )
}

/// Why one more vector is refused, if it is.
pub open spec fn append_fault(m: WriterModel, v: Seq<Scalar>) -> Option<ErrorModel> {
    if input_fault(m.bounds, v) is Some {
        input_fault(m.bounds, v)
    } else if m.count == u64::MAX {
        Some(ErrorModel::CorruptedFooter("vector count overflow"@))
    } else {
        None
    }
}

/// Appending the vectors of `data` may end with `r`, after `added` went in.
pub open spec fn appended_all<A: Arithmetic>(
    x: &A,
    m0: WriterModel,
    data: Seq<Seq<Scalar>>,
    added: Seq<u8>,
    m1: WriterModel,
    r: Result<()>,
) -> bool {
    match r {
        Ok(()) => appended_first(x, m0, data, data.len(), added, m1),
        Err(e) => exists|n: nat|
            n < data.len() && #[trigger] appended_first(x, m0, data, n, added, m1)
                && append_fault(m1, data[n as int]) == Some(e@),
    }
}

/// What remains to be written when a file is finished: `padding` and `footer` after the data,
/// and `header` over the first bytes.
pub struct Finish {
    pub padding: Vec<u8>,
    pub footer: Vec<u8>,
    pub header: [u8; HEADER_SIZE],
}

impl Finish {
    /// These are the last pieces of the file of `m`.
    pub open spec fn completes(&self, m: WriterModel, align: bool) -> bool {
        &&& self.padding@ == zeros(m.padding(align))
        &&& self.footer@ == m.footer()
        &&& self.header@ == m.final_header(align).encoded()
    }

    /// Complete a file held in memory.
    pub fn apply(self, body: Vec<u8>) -> (r: Vec<u8>)
        requires
            body@.len() >= 32,
        ensures
            r@ == self.header@ + body@.skip(32) + self.padding@ + self.footer@,
    {
        let mut r: Vec<u8> = Vec::new();
        push_all(&mut r, self.header.as_slice());
        let n: usize = body.len();
        push_all(&mut r, &body.as_slice()[32..n]);
        assert(body@.subrange(32, n as int) =~= body@.skip(32));
        push_all(&mut r, self.padding.as_slice());
        push_all(&mut r, self.footer.as_slice());
        r
    }
}

/// The placeholder prefix, the data block and the last pieces make up the finished file.
pub proof fn law_pieces_make_the_file(m: WriterModel, align: bool)
    requires
        m.valid(),
    ensures
        m.final_header(align).encoded() + (m.prefix() + m.data).skip(32) + zeros(m.padding(align))
            + m.footer() == m.file(align),
{
    lemma_encoded_fields(m.header(0, 0));
    assert((m.prefix() + m.data).skip(32) =~= bounds_be(m.bounds) + m.data);
    assert(m.final_header(align).encoded() + (m.prefix() + m.data).skip(32) + zeros(
        m.padding(align),
    ) + m.footer() =~= m.file(align));
}

/// Writer of one file. Its view is the model of the file so far.
pub struct CompactWriter {
    quantizer: Quantizer,
    quant_type: QuantType,
    distance_metric: DistanceMetric,
    major: u16,
    minor: u16,
    dims: usize,
    vector_count: u64,
    hasher: Sha256,
    pad_to_block: bool,
    finalized: bool,
}

impl View for CompactWriter {
    type V = WriterModel;

    closed spec fn view(&self) -> WriterModel {
        WriterModel {
            bounds: self.quantizer@,
            quant_type: self.quant_type,
            distance_metric: self.distance_metric,
            major: self.major,
            minor: self.minor,
            pad_to_block: self.pad_to_block,
            count: self.vector_count as nat,
            data: self.hasher@,
        }
    }
}

/// The model of a file without vectors.
pub open spec fn fresh(
    bounds: Bounds,
    quant_type: QuantType,
    distance_metric: DistanceMetric,
    major: u16,
    minor: u16,
    pad_to_block: bool,
) -> WriterModel {
    WriterModel {
        bounds,
        quant_type,
        distance_metric,
        major,
        minor,
        pad_to_block,
        count: 0,
        data: seq![],
    }
}

/// Making a writer came out as `r`: a fresh writer and what to write first, unless there are
/// too many dimensions.
pub open spec fn creates(m: WriterModel, r: Result<(CompactWriter, Vec<u8>)>) -> bool {
    match r {
        Ok((w, prefix)) => {
            &&& m.dims() <= 65535
            &&& w.wf()
            &&& !w.done()
            &&& w@ == m
            &&& prefix@ == m.prefix()
        },
        Err(e) => m.dims() > 65535 && e@ == ErrorModel::InvalidHeader(
            HeaderModel::Text("invalid dims "@ + decimal(m.dims()) + " for writer"@),
        ),
    }
}

impl CompactWriter {
    /// The fields agree with each other.
    pub closed spec fn wf(&self) -> bool {
        &&& self@.valid()
        &&& self.dims == self@.dims()
    }

    /// Whether the last pieces were handed out.
    pub closed spec fn done(&self) -> bool {
        self.finalized
    }

    /// A writer of version 1.0, and what to write first.
    pub fn create(
        quantizer: Quantizer,
        quant_type: QuantType,
        distance_metric: DistanceMetric,
    ) -> (r: Result<(CompactWriter, Vec<u8>)>)
        ensures
            creates(fresh(quantizer@, quant_type, distance_metric, 1, 0, false), r),
    {
        CompactWriter::create_with_version(quantizer, quant_type, distance_metric, 1, 0)
    }

    /// A writer of the given version, and what to write first.
    pub fn create_with_version(
        quantizer: Quantizer,
        quant_type: QuantType,
        distance_metric: DistanceMetric,
        major: u16,
        minor: u16,
    ) -> (r: Result<(CompactWriter, Vec<u8>)>)
        ensures
            creates(fresh(quantizer@, quant_type, distance_metric, major, minor, false), r),
    {
        let dims: usize = quantizer.dims();
        if dims == 0 || dims > 65535 {
            let mut s: String = "invalid dims ".to_owned();
            push_decimal(&mut s, dims as u64);
            s.append(" for writer");
            return Err(CompactError::InvalidHeader(HeaderFault::Text(s)));
        }
        let header = Header::new(major, minor, dims as u16, quant_type, distance_metric, 0, 0);
        let mut prefix: Vec<u8> = Vec::new();
        push_all(&mut prefix, header.to_bytes().as_slice());
        push_scalars(&mut prefix, quantizer.min_bounds());
        push_scalars(&mut prefix, quantizer.max_bounds());
        let ghost m = fresh(quantizer@, quant_type, distance_metric, major, minor, false);
        assert(prefix@ =~= m.prefix());
        let w = CompactWriter {
            quantizer,
            quant_type,
            distance_metric,
            major,
            minor,
            dims,
            vector_count: 0,
            hasher: Sha256::new(),
            pad_to_block: false,
            finalized: false,
        };
        assert(w@.data =~= m.data);
        assert(m.count * m.dims() == 0) by (nonlinear_arith)
            requires
                m.count == 0,
        ;
        Ok((w, prefix))
    }

    /// A writer with the given settings, and what to write first.
    pub fn create_with_config(quantizer: Quantizer, config: WriterConfig) -> (r: Result<
        (CompactWriter, Vec<u8>),
    >)
        ensures
            creates(
                fresh(
                    quantizer@,
                    config.base.quant_type,
                    config.base.distance,
                    config.base.major,
                    config.base.minor,
                    config.pad_to_block,
                ),
                r,
            ),
    {
        let base = config.base;
        match CompactWriter::create_with_version(
            quantizer,
            base.quant_type,
            base.distance,
            base.major,
            base.minor,
        ) {
            Ok((w, prefix)) => Ok((CompactWriter { pad_to_block: config.pad_to_block, ..w }, prefix)),
            Err(e) => Err(e),
        }
    }

    /// Number of dimensions.
    pub fn dims(&self) -> (r: usize)
        requires
            self.wf(),
        ensures
            r == self@.dims(),
            self@.valid(),
    {
        self.dims
    }

    /// Number of vectors so far.
    pub fn len(&self) -> (r: u64)
        ensures
            r == self@.count,
    {
        self.vector_count
    }

    /// Whether there are no vectors yet.
    pub fn is_empty(&self) -> (r: bool)
        ensures
            r == (self@.count == 0),
    {
        self.vector_count == 0
    }

    /// The quantizer.
    pub fn quantizer(&self) -> (r: &Quantizer)
        ensures
            r@ == self@.bounds,
    {
        &self.quantizer
    }

    /// The bytes of a vector, to be written at the end of the data block and then handed to
    /// [`CompactWriter::commit`].
    pub fn encode<A: Arithmetic>(&self, vector: &[Scalar], x: &A) -> (r: Result<Vec<u8>>)
        requires
            self.wf(),
        ensures
            quantized(x, self@.bounds, vector@, r),
    {
        self.quantizer.quantize_vector(vector, x)
    }

    /// Count the bytes of a vector as written.
    pub fn commit(&mut self, raw: &[u8]) -> (r: Result<()>)
        requires
            old(self).wf(),
            raw@.len() == old(self)@.dims(),
        ensures
            final(self).wf(),
            final(self).done() == old(self).done(),
            match r {
                Ok(()) => final(self)@ == old(self)@.appended(raw@),
                Err(e) => final(self)@ == old(self)@ && old(self)@.count == u64::MAX && e@
                    == ErrorModel::CorruptedFooter("vector count overflow"@),
            },
    {
        if self.vector_count == u64::MAX {
            return Err(CompactError::corrupted_footer("vector count overflow"));
        }
        self.hasher.update(raw);
        self.vector_count = self.vector_count + 1;
        proof {
            let m = old(self)@;
            assert((m.count + 1) * m.dims() == m.count * m.dims() + m.dims()) by (nonlinear_arith);
        }
        Ok(())
    }

    /// Add a vector; the result is what to write at the end of the data block.
    pub fn append<A: Arithmetic>(&mut self, vector: &[Scalar], x: &A) -> (r: Result<Vec<u8>>)
        requires
            old(self).wf(),
        ensures
            final(self).wf(),
            final(self).done() == old(self).done(),
            match r {
                Ok(bytes) => {
                    &&& append_fault(old(self)@, vector@) is None
                    &&& quantizes_to(x, old(self)@.bounds, vector@, bytes@)
                    &&& final(self)@ == old(self)@.appended(bytes@)
                },
                Err(e) => append_fault(old(self)@, vector@) == Some(e@) && final(self)@ == old(
                    self,
                )@,
            },
    {
        let bytes = match self.encode(vector, x) {
            Ok(bytes) => bytes,
            Err(e) => return Err(e),
        };
        match self.commit(bytes.as_slice()) {
            Ok(()) => Ok(bytes),
            Err(e) => Err(e),
        }
    }

    /// Add a vector that is quantized already.
    pub fn append_quantized(&mut self, raw: &[u8]) -> (r: Result<()>)
        requires
            old(self).wf(),
        ensures
            final(self).wf(),
            final(self).done() == old(self).done(),
            match r {
                Ok(()) => raw@.len() == old(self)@.dims() && old(self)@.count < u64::MAX
                    && final(self)@ == old(self)@.appended(raw@),
                Err(e) => final(self)@ == old(self)@ && e@ == (if raw@.len() != old(
                    self,
                )@.dims() {
                    ErrorModel::DimensionMismatch {
                        expected: old(self)@.dims(),
                        found: raw@.len(),
                    }
                } else {
                    ErrorModel::CorruptedFooter("vector count overflow"@)
                }) && (raw@.len() == old(self)@.dims() ==> old(self)@.count == u64::MAX),
            },
    {
        if raw.len() != self.dims {
            return Err(
                CompactError::DimensionMismatch { expected: self.dims, found: raw.len() },
            );
        }
        self.commit(raw)
    }

    /// Add borrowed vectors up to the first bad one; their bytes go to the end of `out`.
    pub fn append_batch<A: Arithmetic>(
        &mut self,
        batch: &[&[Scalar]],
        x: &A,
        out: &mut Vec<u8>,
    ) -> (r: Result<()>)
        requires
            old(self).wf(),
        ensures
            final(self).wf(),
            final(self).done() == old(self).done(),
            final(out)@.len() >= old(out)@.len(),
            final(out)@.take(old(out)@.len() as int) == old(out)@,
            appended_all(
                x,
                old(self)@,
                slice_rows(batch@),
                final(out)@.skip(old(out)@.len() as int),
                final(self)@,
                r,
            ),
    {
        let ghost data = slice_rows(batch@);
        let ghost m0 = self@;
        let ghost start = out@;
        let mut added: Vec<u8> = Vec::new();
        let mut i: usize = 0;
        proof {
            assert(m0.data + added@ =~= m0.data);
        }
        while i < batch.len()
            invariant
                self.wf(),
                self.done() == old(self).done(),
                data == slice_rows(batch@),
                i <= batch@.len(),
                m0 == old(self)@,
                m0.valid(),
                start == old(out)@,
                out@ == start + added@,
                appended_first(x, m0, data, i as nat, added@, self@),
            decreases batch@.len() - i,
        {
            let ghost m = self@;
            let ghost before = added@;
            assert(data[i as int] == batch@[i as int]@);
            match self.append(batch[i], x) {
                Ok(bytes) => {
                    push_all(out, bytes.as_slice());
                    push_all(&mut added, bytes.as_slice());
                    proof {
                        lemma_one_more(x, m0, data, i as nat, before, m, bytes@, self@);
                        assert(out@ =~= start + added@);
                    }
                },
                Err(e) => {
                    proof {
                        assert(out@.take(start.len() as int) =~= start);
                        assert(out@.skip(start.len() as int) =~= added@);
                    }
                    return Err(e);
                },
            }
            i += 1;
        }
        proof {
            assert(out@.take(start.len() as int) =~= start);
            assert(out@.skip(start.len() as int) =~= added@);
        }
        Ok(())
    }

    /// Add vectors up to the first bad one; their bytes go to the end of `out`.
    pub fn append_many<A: Arithmetic>(
        &mut self,
        vectors: &[Vec<Scalar>],
        x: &A,
        out: &mut Vec<u8>,
    ) -> (r: Result<()>)
        requires
            old(self).wf(),
        ensures
            final(self).wf(),
            final(self).done() == old(self).done(),
            final(out)@.len() >= old(out)@.len(),
            final(out)@.take(old(out)@.len() as int) == old(out)@,
            appended_all(
                x,
                old(self)@,
                rows(vectors@),
                final(out)@.skip(old(out)@.len() as int),
                final(self)@,
                r,
            ),
    {
        let borrowed = crate::quant::borrow_all(vectors);
        self.append_batch(borrowed.as_slice(), x, out)
    }

    /// The last pieces of the file, padded as the settings say.
    pub fn finalize(self) -> (r: Result<Finish>)
        requires
            self.wf(),
            !self.done(),
            self@.data_end() + self@.padding(self@.pad_to_block) <= u64::MAX,
            self@.pad_to_block ==> self@.data_end() + 4095 <= u64::MAX,
        ensures
            r matches Ok(f) && f.completes(self@, self@.pad_to_block),
    {
        let mut w = self;
        let pad: bool = w.pad_to_block;
        w.finalize_internal(pad)
    }

    /// The last pieces of the file; with `align`, the footer starts at a disk block.
    pub fn finalize_with_padding(self, align: bool) -> (r: Result<Finish>)
        requires
            self.wf(),
            !self.done(),
            self@.data_end() <= u64::MAX,
            align ==> self@.data_end() + 4095 <= u64::MAX,
        ensures
            r matches Ok(f) && f.completes(self@, align),
    {
        let mut w = self;
        w.finalize_internal(align)
    }

    fn finalize_internal(&mut self, align: bool) -> (r: Result<Finish>)
        requires
            old(self).wf(),
            old(self)@.data_end() <= u64::MAX,
            align ==> old(self)@.data_end() + 4095 <= u64::MAX,
        ensures
            final(self).wf(),
            final(self).done(),
            final(self)@ == old(self)@,
            match r {
                Ok(f) => !old(self).done() && f.completes(old(self)@, align),
                Err(e) => old(self).done() && e@ == ErrorModel::CorruptedFooter(
                    "finalize called twice"@,
                ),
            },
    {
        if self.finalized {
            return Err(CompactError::corrupted_footer("finalize called twice"));
        }
        let ghost m = self@;
        let data_len: u64 = self.data_bytes();
        let end: u64 = HEADER_SIZE as u64 + 8 * self.dims as u64 + data_len;
        let mut padding: Vec<u8> = Vec::new();
        let mut footer_offset: u64 = end;
        if align {
            let aligned: u64 = align_up_u64(end, DISK_BLOCK_SIZE as u64);
            proof {
                lemma_padding(m, aligned as int);
            }
            let pad: u64 = aligned - end;
            push_zeros(&mut padding, pad);
            footer_offset = aligned;
        }
        assert(padding@ =~= zeros(m.padding(align)));
        let checksum = self.hasher.clone().finalize();
        let mut footer: Vec<u8> = Vec::new();
        push_counting(&mut footer, self.vector_count);
        push_all(&mut footer, checksum.as_slice());
        assert(footer@ =~= m.footer());
        let header = Header::new(
            self.major,
            self.minor,
            self.dims as u16,
            self.quant_type,
            self.distance_metric,
            self.vector_count,
            footer_offset,
        );
        self.finalized = true;
        Ok(Finish { padding, footer, header: header.to_bytes() })
    }

    /// Size of the file if it were finished now, without padding.
    pub fn estimated_file_size(&self) -> (r: u64)
        requires
            self.wf(),
            self@.data_end() + 8 * self@.count + 32 <= u64::MAX,
        ensures
            r == self@.data_end() + 8 * self@.count + 32,
    {
        HEADER_SIZE as u64 + 8 * self.dims as u64 + self.data_bytes() + self.vector_count * 8
            + CHECKSUM_SIZE as u64
    }

    /// Size of the data block.
    pub fn data_bytes(&self) -> (r: u64)
        requires
            self.wf(),
            self@.data.len() <= u64::MAX,
        ensures
            r == self@.data.len(),
    {
        self.vector_count * self.dims as u64
    }
}

/// Append `n` bytes of zero.
fn push_zeros(out: &mut Vec<u8>, n: u64)
    ensures
        final(out)@ == old(out)@ + zeros(n as nat),
{
    let ghost start = out@;
    let mut i: u64 = 0;
    assert(out@ =~= start + zeros(0));
    while i < n
        invariant
            i <= n,
            out@ == start + zeros(i as nat),
        decreases n - i,
    {
        out.push(0);
        i += 1;
        assert(out@ =~= start + zeros(i as nat));
    }
}

proof fn lemma_padding(m: WriterModel, aligned: int)
    requires
        rounded_up(m.data_end() as int, 4096, aligned),
    ensures
        aligned - m.data_end() == m.padding(true),
{
}

proof fn lemma_one_more<A: Arithmetic>(
    x: &A,
    m0: WriterModel,
    data: Seq<Seq<Scalar>>,
    n: nat,
    added: Seq<u8>,
    m1: WriterModel,
    bytes: Seq<u8>,
    m2: WriterModel,
)
    requires
        m0.valid(),
        n < data.len(),
        appended_first(x, m0, data, n, added, m1),
        input_fault(m0.bounds, data[n as int]) is None,
        quantizes_to(x, m0.bounds, data[n as int], bytes),
        m2 == m1.appended(bytes),
    ensures
        appended_first(x, m0, data, n + 1, added + bytes, m2),
{
    let dims = m0.dims();
    let more = added + bytes;
    assert((n + 1) * dims == n * dims + dims) by (nonlinear_arith);
    assert(m0.data + more =~= m1.data + bytes);
    assert forall|i: int| 0 <= i < n + 1 implies input_fault(m0.bounds, #[trigger] data[i]) is None
        && quantizes_to(x, m0.bounds, data[i], vector_in(more, dims, i as nat)) by {
        if i < n {
            assert(i * dims + dims <= n * dims) by (nonlinear_arith)
                requires
                    0 <= i < n,
            ;
            assert(i * dims >= 0) by (nonlinear_arith)
                requires
                    0 <= i,
            ;
            assert(vector_in(more, dims, i as nat) =~= vector_in(added, dims, i as nat));
        } else {
            assert(vector_in(more, dims, n) =~= bytes);
        }
    }
}

} // verus!
