//! What reading gives back of writing.
use crate::bins::dequantized;
use crate::errors::ErrorModel;
use crate::header::{law_header_roundtrip, lemma_encoded_fields};
use crate::quant::{bounds_outcome, law_bounds_accepted, Bounds};
use crate::scalar::{Arithmetic, Scalar};
use crate::sha::{digest, lemma_digest_len};
use crate::storage::io::span;
use crate::storage::layout::{
    bounds_in, counting, ids_be, ids_in, image, law_ids_roundtrip, law_scalars_roundtrip,
    scalars_be, vector_in,
};
use crate::storage::no_dims_text;
use crate::storage::open::{footer_fault, measurable, verdict};
use crate::storage::reader::{vector_read, ReaderModel};
use crate::storage::writer::WriterModel;
use vstd::prelude::*;

verus! {

/// What the finished file of `m` says.
pub open spec fn written(m: WriterModel, align: bool) -> ReaderModel {
    ReaderModel {
        header: m.final_header(align),
        bounds: m.bounds,
        row_ids: counting(m.count),
        checksum: digest(m.data),
    }
}

/// Every position in the finished file of `m` fits in 64 bits.
pub open spec fn storable(m: WriterModel, align: bool) -> bool {
    m.valid() && m.data_end() + m.padding(align) + 8 * m.count + 32 <= u64::MAX
}

/// Where each piece of a file stands.
pub proof fn lemma_pieces(m: WriterModel, align: bool, data: Seq<u8>)
    requires
        storable(m, align),
        data.len() == m.data.len(),
    ensures
        ({
            let h = m.final_header(align);
            let file = image(
                h,
                m.bounds,
                data,
                m.padding(align),
                counting(m.count),
                digest(m.data),
            );
            let dims = m.dims() as int;
            let footer = m.data_end() + m.padding(align);
            &&& h.dims == dims
            &&& h.vector_count == m.count
            &&& h.footer_offset == footer
            &&& h.data_end() == m.data_end()
            &&& h.data_size() == m.data.len()
            &&& file.len() == footer + 8 * m.count + 32
            &&& file.take(32) == h.encoded()
            &&& bounds_in(file, dims) == m.bounds
            &&& span(file, 32 + 8 * dims, m.data_end() as int) == data
            &&& m.count > 0 ==> ids_in(
                file.subrange(footer as int, (footer + 8 * m.count) as int),
            ) == counting(m.count)
            &&& file.subrange(
                (footer + 8 * m.count) as int,
                (footer + 8 * m.count + 32) as int,
            ) == digest(m.data)
        }),
{
    let h = m.final_header(align);
    let dims = m.dims() as int;
    let pad = m.padding(align);
    let ids = counting(m.count);
    let file = image(h, m.bounds, data, pad, ids, digest(m.data));
    let footer = m.data_end() + pad;
    lemma_encoded_fields(h);
    lemma_digest_len(m.data);
    assert(h.data_size() == m.data.len());
    assert(file.take(32) =~= h.encoded());
    assert(file.subrange(32, 32 + 4 * dims) =~= scalars_be(m.bounds.min));
    assert(file.subrange(32 + 4 * dims, 32 + 8 * dims) =~= scalars_be(m.bounds.max));
    law_scalars_roundtrip(m.bounds.min);
    law_scalars_roundtrip(m.bounds.max);
    assert(span(file, 32 + 8 * dims, m.data_end() as int) =~= data);
    assert(file.subrange(footer as int, (footer + 8 * m.count) as int) =~= ids_be(ids));
    law_ids_roundtrip(ids);
    assert(file.subrange((footer + 8 * m.count) as int, (footer + 8 * m.count + 32) as int)
        =~= digest(m.data));
}

/// The verdict on a finished file whose data block was replaced by one of the same length.
proof fn lemma_verdict(m: WriterModel, align: bool, data: Seq<u8>, verify: bool)
    requires
        storable(m, align),
        data.len() == m.data.len(),
    ensures
        verdict(
            image(
                m.final_header(align),
                m.bounds,
                data,
                m.padding(align),
                counting(m.count),
                digest(m.data),
            ),
            verify,
        ) == (if verify && digest(data) != digest(m.data) {
            Err(
                ErrorModel::ChecksumMismatch { expected: digest(m.data), found: digest(data) },
            )
        } else {
            Ok(written(m, align))
        }),
{
    let h = m.final_header(align);
    let file = image(h, m.bounds, data, m.padding(align), counting(m.count), digest(m.data));
    lemma_pieces(m, align, data);
    law_header_roundtrip(h, no_dims_text());
    law_bounds_accepted(m.bounds);
    assert(bounds_outcome(m.bounds) == Ok::<Bounds, ErrorModel>(m.bounds));
    assert(footer_fault(h) is None);
    assert(seq![] + counting(m.count) =~= counting(m.count));
    if m.count == 0 {
        assert(counting(m.count) =~= seq![]);
    }
}

/// A finished file opens, verified or not, and says what was written.
pub proof fn law_written_file_opens(m: WriterModel, align: bool, verify: bool)
    requires
        storable(m, align),
    ensures
        verdict(m.file(align), verify) == Ok::<ReaderModel, ErrorModel>(written(m, align)),
        written(m, align).valid(),
        measurable(m.final_header(align)),
        written(m, align).addressable(),
{
    lemma_verdict(m, align, m.data, verify);
    lemma_pieces(m, align, m.data);
    lemma_digest_len(m.data);
}

/// A file whose data block was altered is refused by a verifying reader, unless the alteration
/// has the same digest.
pub proof fn law_altered_data_is_refused(m: WriterModel, align: bool, data: Seq<u8>)
    requires
        storable(m, align),
        data.len() == m.data.len(),
        digest(data) != digest(m.data),
    ensures
        verdict(
            image(
                m.final_header(align),
                m.bounds,
                data,
                m.padding(align),
                counting(m.count),
                digest(m.data),
            ),
            true,
        ) == Err::<ReaderModel, ErrorModel>(
            ErrorModel::ChecksumMismatch { expected: digest(m.data), found: digest(data) },
        ),
{
    lemma_verdict(m, align, data, true);
}

/// Every vector of a finished file is where the reader looks for it, with one read of as many
/// bytes as there are dimensions.
pub proof fn law_vectors_read_back(m: WriterModel, align: bool, i: u64)
    requires
        storable(m, align),
        i < m.count,
    ensures
        written(m, align).vector_bytes(m.file(align), i) == Ok::<Seq<u8>, ErrorModel>(
            vector_in(m.data, m.dims(), i as nat),
        ),
{
    let file = m.file(align);
    let dims = m.dims() as int;
    lemma_pieces(m, align, m.data);
    let start = 32 + 8 * dims;
    assert(0 <= i * dims && i * dims + dims <= m.count * dims) by (nonlinear_arith)
        requires
            0 <= i < m.count,
            dims >= 0,
    ;
    assert(span(file, start, m.data_end() as int).subrange(i * dims, i * dims + dims)
        =~= file.subrange(start + i * dims, start + i * dims + dims));
}

/// What comes back of an appended vector is what its bytes stand for: reading vector `n` of the
/// finished file dequantizes the very bytes that appending it produced.
pub proof fn law_append_then_read<A: Arithmetic>(
    x: &A,
    before: WriterModel,
    bytes: Seq<u8>,
    more: Seq<u8>,
    after: WriterModel,
    align: bool,
)
    requires
        before.valid(),
        bytes.len() == before.dims(),
        after == (WriterModel {
            count: after.count,
            data: before.data + bytes + more,
            ..before
        }),
        before.count < after.count,
        storable(after, align),
    ensures
        written(after, align).vector_bytes(after.file(align), before.count as u64) == Ok::<
            Seq<u8>,
            ErrorModel,
        >(bytes),
        forall|r: crate::errors::Result<Vec<Scalar>>| #[trigger]
            vector_read(x, written(after, align), after.file(align), before.count as u64, r)
                <==> dequantized(x, before.bounds, bytes, r),
{
    law_vectors_read_back(after, align, before.count as u64);
    assert(vector_in(after.data, before.dims(), before.count) =~= bytes);
}

/// With padding, the footer starts at a disk block.
pub proof fn law_padding_aligns(m: WriterModel)
    requires
        storable(m, true),
    ensures
        m.final_header(true).footer_offset % 4096 == 0,
        m.data_end() <= m.final_header(true).footer_offset < m.data_end() + 4096,
{
}

/// A finished file without padding is one byte per coordinate, and a fixed overhead per file,
/// dimension and vector.
pub proof fn law_file_size(m: WriterModel)
    requires
        storable(m, false),
    ensures
        m.file(false).len() == 32 + 8 * m.dims() + m.count * m.dims() + 8 * m.count + 32,
{
    lemma_pieces(m, false, m.data);
}

} // verus!
