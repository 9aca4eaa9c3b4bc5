//! How inspection relates to writing and opening.
use crate::errors::ErrorModel;
use crate::header::{law_header_roundtrip, no_dims_text, parsed, Header};
use crate::quant::{bounds_outcome, law_bounds_accepted};
use crate::scalar::Scalar;
use crate::storage::check::data_verdict;
use crate::storage::io::span;
use crate::storage::layout::{bounds_in, counting, ids_in, scalars_in};
use crate::storage::laws::{lemma_pieces, storable};
use crate::storage::open::{footer_fault, verdict};
use crate::storage::writer::WriterModel;
use crate::storage::stored;
use crate::validate::{
    all_finite, bound_warnings, checksum_notes, data_notes, first_notes, footer_in_place,
    footer_notes, id_notes, id_warning, id_warnings, increasing, inspection, list_notes, max_notes,
    min_notes, pair_notes, tail_notes,
};
use vstd::prelude::*;

verus! {

proof fn lemma_no_bound_warnings(s: Seq<Scalar>, what: Seq<char>)
    requires
        all_finite(s),
    ensures
        bound_warnings(s, what).len() == 0,
    decreases s.len(),
{
    if s.len() > 0 {
        assert(s.last() == s[s.len() - 1]);
        assert forall|i: int| 0 <= i < s.drop_last().len() implies (
        #[trigger] s.drop_last()[i]).finite() by {
            assert(s[i].finite());
        }
        lemma_no_bound_warnings(s.drop_last(), what);
    }
}

proof fn lemma_no_id_warnings(n: nat)
    requires
        n <= u64::MAX,
    ensures
        id_warnings(counting(n)).len() == 0,
        increasing(counting(n)),
    decreases n,
{
    if n > 0 {
        lemma_no_id_warnings((n - 1) as nat);
        assert(counting(n).drop_last() =~= counting((n - 1) as nat));
        assert(id_warning(counting(n), n - 1).len() == 0);
    }
}

/// The findings about a file that is long enough for header, bounds and footer.
proof fn lemma_whole(path: Seq<char>, file: Seq<u8>, h: Header)
    requires
        h.dims > 0,
        footer_in_place(h, file.len()),
    ensures
        ({
            let size = file.len();
            let b = bounds_in(file, h.dims as int);
            let at = h.footer_offset as int;
            let ids = ids_in(span(file, at, at + 8 * h.vector_count));
            let n0 = first_notes(h, size);
            let n1 = list_notes(n0, b.min, "non-finite min "@, false, "truncated min bounds"@);
            let n2 = list_notes(n1, b.max, "non-finite max "@, false, "truncated max bounds"@);
            let n3 = id_notes(pair_notes(n2, b), ids, false);
            let sum = file.subrange(at + 8 * h.vector_count, at + 8 * h.vector_count + 32);
            min_notes(n0, h, size, seq![], file) == data_notes(n3, data_verdict(h, sum, file))
        }),
{
    reveal(min_notes);
    reveal(max_notes);
    reveal(tail_notes);
    reveal(footer_notes);
    reveal(checksum_notes);
    let b = bounds_in(file, h.dims as int);
    let dims = h.dims as int;
    assert(seq![] + scalars_in(span(file, 32, 32 + 4 * dims)) =~= b.min);
    assert(seq![] + scalars_in(span(file, 32 + 4 * dims, 32 + 4 * dims + 4 * dims)) =~= b.max);
    let at = h.footer_offset as int;
    let ids = ids_in(span(file, at, at + 8 * h.vector_count));
    assert(seq![] + ids =~= ids);
}

/// A finished file passes inspection.
pub proof fn law_written_file_is_valid(path: Seq<char>, m: WriterModel, align: bool)
    requires
        storable(m, align),
    ensures
        inspection(path, m.file(align).len(), m.file(align)) matches Ok(r) && r.valid(),
{
    let file = m.file(align);
    let h = m.final_header(align);
    lemma_pieces(m, align, m.data);
    law_header_roundtrip(h, no_dims_text());
    lemma_whole(path, file, h);
    law_bounds_accepted(m.bounds);
    reveal(first_notes);
    reveal(list_notes);
    reveal(pair_notes);
    reveal(id_notes);
    reveal(data_notes);
    assert forall|i: int| 0 <= i < m.bounds.max.len() implies (
    #[trigger] m.bounds.max[i]).finite() by {
        assert(m.bounds.min[i].finite());
    }
    lemma_no_bound_warnings(m.bounds.min, "non-finite min "@);
    lemma_no_bound_warnings(m.bounds.max, "non-finite max "@);
    lemma_no_id_warnings(m.count);
    let at = h.footer_offset as int;
    if m.count == 0 {
        assert(ids_in(span(file, at, at)) =~= counting(0));
    }
}

/// A file that passes inspection opens and verifies.
pub proof fn law_valid_file_opens(path: Seq<char>, file: Seq<u8>)
    ensures
        (inspection(path, file.len(), file) matches Ok(r) && r.valid()) ==> verdict(
            file,
            true,
        ) is Ok,
{
    if inspection(path, file.len(), file) is Ok && (inspection(
        path,
        file.len(),
        file,
    )->Ok_0).valid() {
        let b32 = file.take(32);
        let h = parsed(b32, no_dims_text())->Ok_0;
        crate::header::law_parsed_has_dims(b32, no_dims_text());
        assert(stored(b32) == Ok::<Header, ErrorModel>(h));
        lemma_whole(path, file, h);
        reveal(list_notes);
        reveal(pair_notes);
        reveal(id_notes);
        reveal(data_notes);
        let b = bounds_in(file, h.dims as int);
        law_bounds_accepted(b);
        let at = h.footer_offset as int;
        let sum = file.subrange(at + 8 * h.vector_count, at + 8 * h.vector_count + 32);
        assert(data_verdict(h, sum, file) is Ok);
        assert(bounds_outcome(b) is Ok);
        assert(footer_fault(h) is None);
    }
}

} // verus!
