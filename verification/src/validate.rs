//! Inspection of a file: everything that is wrong with it, not only the first thing.
use crate::bytes::{array_of, read_be};
use crate::bytes::lemma_capacities;
use crate::errors::{outcome, CompactError, ErrorModel, IoFailure, Result};
use crate::header::{self, no_dims_text, parsed, Header, HEADER_SIZE};
use crate::quant::{bounds_outcome, Bounds, Quantizer};
use crate::scalar::Scalar;
use crate::storage::check::{data_verdict, DataCheck, DataProgress};
use crate::storage::io::{answers, eof_error, fits, read_at, serve, span, IoEvent, IoRequest};
use crate::storage::layout::{ids_in, scalars_in};
use crate::storage::open::layout_fits;
use crate::text::{
    bool_text, decimal, hex_list, join, push_bool, push_decimal, push_hex_list, push_join, views,
};
use vstd::prelude::*;

pub mod laws;

verus! {

// ---------------------------------------------------------------------------
// The report
// ---------------------------------------------------------------------------

/// What an inspection found.
#[derive(Debug, Clone)]
pub struct ValidationReport {
    pub path: String,
    pub header: Header,
    pub dims: usize,
    pub count: u64,
    pub footer_offset: u64,
    pub file_size: u64,
    pub checksum_valid: bool,
    pub row_ids_monotonic: bool,
    pub metadata_finite: bool,
    pub footer_size_ok: bool,
    pub warnings: Vec<String>,
}

/// A report with its texts as sequences.
#[verifier::ext_equal]
pub ghost struct ReportModel {
    pub path: Seq<char>,
    pub header: Header,
    pub dims: nat,
    pub count: nat,
    pub footer_offset: nat,
    pub file_size: nat,
    pub checksum_valid: bool,
    pub row_ids_monotonic: bool,
    pub metadata_finite: bool,
    pub footer_size_ok: bool,
    pub warnings: Seq<Seq<char>>,
}

impl View for ValidationReport {
    type V = ReportModel;

    open spec fn view(&self) -> ReportModel {
        ReportModel {
            path: self.path@,
            header: self.header,
            dims: self.dims as nat,
            count: self.count as nat,
            footer_offset: self.footer_offset as nat,
            file_size: self.file_size as nat,
            checksum_valid: self.checksum_valid,
            row_ids_monotonic: self.row_ids_monotonic,
            metadata_finite: self.metadata_finite,
            footer_size_ok: self.footer_size_ok,
            warnings: views(self.warnings@),
        }
    }
}

impl ReportModel {
    /// Nothing is wrong.
    pub open spec fn valid(self) -> bool {
        &&& self.checksum_valid
        &&& self.row_ids_monotonic
        &&& self.metadata_finite
        &&& self.footer_size_ok
        &&& self.warnings.len() == 0
    }
}

/// How `{:?}` writes a string.
pub uninterp spec fn quoted_text(s: Seq<char>) -> Seq<char>;

/// `format!` with `{:?}` on a string. The text depends on the string alone.
#[verifier::external_body]
fn quoted(s: &str) -> (r: String)
    ensures
        r@ == quoted_text(s@),
{
    format!("{s:?}")
}

/// Each string as `{:?}` writes it.
pub open spec fn quoted_items(items: Seq<Seq<char>>) -> Seq<Seq<char>> {
    Seq::new(items.len(), |i: int| quoted_text(items[i]))
}

/// The one-line summary of a report, its warnings already written as `warnings`.
pub open spec fn summary_text(r: ReportModel, warnings: Seq<char>) -> Seq<char> {
    "file="@ + r.path + " dims="@ + decimal(r.dims) + " count="@ + decimal(r.count)
        + " footer="@ + decimal(r.footer_offset) + " size="@ + decimal(r.file_size) + " valid="@
        + bool_text(r.valid()) + " checksum="@ + bool_text(r.checksum_valid)
        + " rows_monotonic="@ + bool_text(r.row_ids_monotonic) + " meta_finite="@ + bool_text(
        r.metadata_finite,
    ) + " warnings="@ + warnings
}

impl ValidationReport {
    /// Whether nothing is wrong.
    pub fn is_valid(&self) -> (r: bool)
        ensures
            r == self@.valid(),
    {
        self.checksum_valid && self.row_ids_monotonic && self.metadata_finite
            && self.footer_size_ok && self.warnings.len() == 0
    }

    /// The one-line summary, with the warnings written as given.
    pub fn summary_with(&self, warnings: &str) -> (s: String)
        ensures
            s@ == summary_text(self@, warnings@),
    {
        let mut s: String = "file=".to_owned();
        s.append(self.path.as_str());
        s.append(" dims=");
        push_decimal(&mut s, self.dims as u64);
        s.append(" count=");
        push_decimal(&mut s, self.count);
        s.append(" footer=");
        push_decimal(&mut s, self.footer_offset);
        s.append(" size=");
        push_decimal(&mut s, self.file_size);
        s.append(" valid=");
        push_bool(&mut s, self.is_valid());
        s.append(" checksum=");
        push_bool(&mut s, self.checksum_valid);
        s.append(" rows_monotonic=");
        push_bool(&mut s, self.row_ids_monotonic);
        s.append(" meta_finite=");
        push_bool(&mut s, self.metadata_finite);
        s.append(" warnings=");
        s.append(warnings);
        assert(s@ =~= summary_text(self@, warnings@));
        s
    }

    /// The one-line summary.
    pub fn summary(&self) -> (s: String)
        ensures
            s@ == summary_text(
                self@,
                "["@ + join(quoted_items(self@.warnings), ", "@) + "]"@,
            ),
    {
        let mut items: Vec<String> = Vec::new();
        let mut i: usize = 0;
        while i < self.warnings.len()
            invariant
                i <= self.warnings@.len(),
                items@.len() == i,
                forall|k: int|
                    0 <= k < i ==> (#[trigger] items@[k])@ == quoted_text(self.warnings@[k]@),
            decreases self.warnings@.len() - i,
        {
            items.push(quoted(self.warnings[i].as_str()));
            i += 1;
        }
        assert(views(items@) =~= quoted_items(self@.warnings));
        let mut t: String = "[".to_owned();
        push_join(&mut t, &items, ", ");
        t.append("]");
        self.summary_with(t.as_str())
    }
}

// ---------------------------------------------------------------------------
// What there is to say about a file
// ---------------------------------------------------------------------------

/// Text of a number that is not finite.
pub open spec fn special_text(v: Scalar) -> Seq<char> {
    if v.nan() {
        "NaN"@
    } else if v.negative() {
        "-inf"@
    } else {
        "inf"@
    }
}

/// One warning, or none.
pub open spec fn warn_if(c: bool, text: Seq<char>) -> Seq<Seq<char>> {
    if c {
        seq![text]
    } else {
        seq![]
    }
}

/// One warning for every bound that is not finite.
pub open spec fn bound_warnings(s: Seq<Scalar>, what: Seq<char>) -> Seq<Seq<char>>
    decreases s.len(),
{
    if s.len() == 0 {
        seq![]
    } else {
        bound_warnings(s.drop_last(), what) + warn_if(
            !s.last().finite(),
            what + special_text(s.last()),
        )
    }
}

pub open spec fn all_finite(s: Seq<Scalar>) -> bool {
    forall|i: int| 0 <= i < s.len() ==> (#[trigger] s[i]).finite()
}

/// The warnings about row identifier `i`.
pub open spec fn id_warning(ids: Seq<u64>, i: int) -> Seq<Seq<char>> {
    warn_if(
        i > 0 && ids[i] <= ids[i - 1],
        "row ids not strictly increasing: "@ + decimal(ids[i - 1] as nat) + " -> "@ + decimal(
            ids[i] as nat,
        ) + " at "@ + decimal(i as nat),
    ) + warn_if(
        ids[i] != i,
        "row id "@ + decimal(ids[i] as nat) + " != expected "@ + decimal(i as nat),
    )
}

/// The warnings about all row identifiers.
pub open spec fn id_warnings(ids: Seq<u64>) -> Seq<Seq<char>>
    decreases ids.len(),
{
    if ids.len() == 0 {
        seq![]
    } else {
        id_warnings(ids.drop_last()) + id_warning(ids, ids.len() - 1)
    }
}

/// Every row identifier is larger than those before.
pub open spec fn increasing(ids: Seq<u64>) -> bool {
    forall|i: int, j: int| 0 <= i < j < ids.len() ==> ids[i] < ids[j]
}

/// How many of `n` items of `width` bytes a file holds from position `at` on.
pub open spec fn available(file: Seq<u8>, at: int, width: int, n: int) -> int {
    if at + width * n <= file.len() {
        n
    } else if at >= file.len() {
        0
    } else {
        (file.len() - at) / width
    }
}

/// The footer lies after the data and inside the file.
pub open spec fn footer_in_place(h: Header, size: nat) -> bool {
    h.footer_offset >= h.data_end() && h.footer_offset + h.footer_size() <= size
}

/// The warning about the position of the footer.
pub open spec fn footer_warning(h: Header, size: nat) -> Seq<char> {
    "footer offset "@ + decimal(h.footer_offset as nat) + " not in ["@ + decimal(h.data_end())
        + ", "@ + decimal(
        if h.footer_size() <= size {
            (size - h.footer_size()) as nat
        } else {
            0
        },
    ) + "]"@
}

/// No position computed for this header exceeds 64 bits.
pub open spec fn inspectable(h: Header) -> bool {
    &&& h.data_end() <= u64::MAX
    &&& h.footer_size() <= u64::MAX
    &&& h.footer_offset >= h.data_end() ==> h.footer_offset + h.footer_size() <= u64::MAX
}

/// Findings so far.
#[verifier::ext_equal]
pub ghost struct Notes {
    pub checksum_valid: bool,
    pub row_ids_monotonic: bool,
    pub metadata_finite: bool,
    pub warnings: Seq<Seq<char>>,
}

/// The report with these findings.
pub open spec fn report(path: Seq<char>, h: Header, size: nat, n: Notes) -> ReportModel {
    ReportModel {
        path,
        header: h,
        dims: h.dims as nat,
        count: h.vector_count as nat,
        footer_offset: h.footer_offset as nat,
        file_size: size,
        checksum_valid: n.checksum_valid,
        row_ids_monotonic: n.row_ids_monotonic,
        metadata_finite: n.metadata_finite,
        footer_size_ok: footer_in_place(h, size),
        warnings: n.warnings,
    }
}

/// Findings about the data block, given the stored checksum.
#[verifier::opaque]
pub open spec fn data_notes(
    n: Notes,
    verdict: std::result::Result<(), ErrorModel>,
) -> Notes {
    match verdict {
        Ok(()) => n,
        Err(ErrorModel::ChecksumMismatch { expected, found }) => Notes {
            checksum_valid: false,
            warnings: n.warnings.push(
                "checksum mismatch expected "@ + hex_list(expected.take(4)) + ".. found "@
                    + hex_list(found.take(4)) + ".."@,
            ),
            ..n
        },
        Err(_) => Notes {
            checksum_valid: false,
            warnings: n.warnings.push("truncated data block during checksum"@),
            ..n
        },
    }
}

/// Findings about checksum and data block.
#[verifier::opaque]
pub open spec fn checksum_notes(n: Notes, h: Header, file: Seq<u8>) -> Notes {
    let at = h.footer_offset + 8 * h.vector_count;
    if file.len() < at + 32 {
        Notes { checksum_valid: false, warnings: n.warnings.push("truncated checksum"@), ..n }
    } else {
        data_notes(n, data_verdict(h, file.subrange(at, at + 32), file))
    }
}

/// Findings about the row identifiers `ids`, after which `cut` of them could not be read.
#[verifier::opaque]
pub open spec fn id_notes(n: Notes, ids: Seq<u64>, cut: bool) -> Notes {
    Notes {
        row_ids_monotonic: n.row_ids_monotonic && increasing(ids) && !cut,
        warnings: n.warnings + id_warnings(ids) + warn_if(
            cut,
            "truncated row id at "@ + decimal(ids.len()),
        ),
        ..n
    }
}

/// Findings about the footer, once the row identifiers `ids` are read.
#[verifier::opaque]
pub open spec fn footer_notes(n: Notes, h: Header, ids: Seq<u64>, file: Seq<u8>) -> Notes {
    let at = h.footer_offset + 8 * ids.len();
    let left = h.vector_count - ids.len();
    let k = available(file, at, 8, left);
    let all = ids + ids_in(span(file, at, at + 8 * k));
    checksum_notes(id_notes(n, all, k < left), h, file)
}

/// Findings about the footer, or none of it where it is out of place.
#[verifier::opaque]
pub open spec fn tail_notes(n: Notes, h: Header, size: nat, file: Seq<u8>) -> Notes {
    if footer_in_place(h, size) {
        footer_notes(n, h, seq![], file)
    } else {
        Notes { checksum_valid: false, row_ids_monotonic: false, ..n }
    }
}

/// Findings about one list of bounds, of which `cut` could not be read.
#[verifier::opaque]
pub open spec fn list_notes(
    n: Notes,
    s: Seq<Scalar>,
    what: Seq<char>,
    cut: bool,
    cut_text: Seq<char>,
) -> Notes {
    Notes {
        metadata_finite: n.metadata_finite && all_finite(s) && !cut,
        warnings: n.warnings + bound_warnings(s, what) + warn_if(cut, cut_text),
        ..n
    }
}

/// Findings about the bounds as a pair.
#[verifier::opaque]
pub open spec fn pair_notes(n: Notes, b: Bounds) -> Notes {
    if bounds_outcome(b) is Err {
        Notes {
            metadata_finite: false,
            warnings: n.warnings.push(
                "quantizer bounds invalid (max < min or dims mismatch)"@,
            ),
            ..n
        }
    } else {
        n
    }
}

/// Findings once the lower bounds and some upper bounds are read.
#[verifier::opaque]
pub open spec fn max_notes(
    n: Notes,
    h: Header,
    size: nat,
    mins: Seq<Scalar>,
    maxs: Seq<Scalar>,
    file: Seq<u8>,
) -> Notes {
    let at = 32 + 4 * h.dims + 4 * maxs.len();
    let left = h.dims - maxs.len();
    let k = available(file, at, 4, left);
    let all = maxs + scalars_in(span(file, at, at + 4 * k));
    tail_notes(
        pair_notes(
            list_notes(n, all, "non-finite max "@, k < left, "truncated max bounds"@),
            Bounds { min: mins, max: all },
        ),
        h,
        size,
        file,
    )
}

/// Findings once some lower bounds are read.
#[verifier::opaque]
pub open spec fn min_notes(n: Notes, h: Header, size: nat, mins: Seq<Scalar>, file: Seq<u8>) -> Notes {
    let at = 32 + 4 * mins.len();
    let left = h.dims - mins.len();
    let k = available(file, at as int, 4, left);
    let all = mins + scalars_in(span(file, at as int, at + 4 * k));
    max_notes(
        list_notes(n, all, "non-finite min "@, k < left, "truncated min bounds"@),
        h,
        size,
        all,
        seq![],
        file,
    )
}

/// Findings once the header is read.
#[verifier::opaque]
pub open spec fn first_notes(h: Header, size: nat) -> Notes {
    Notes {
        checksum_valid: true,
        row_ids_monotonic: true,
        metadata_finite: true,
        warnings: warn_if(!footer_in_place(h, size), footer_warning(h, size)),
    }
}

/// The report on a file of these contents and this size, or why there is none.
pub open spec fn inspection(
    path: Seq<char>,
    size: nat,
    file: Seq<u8>,
) -> std::result::Result<ReportModel, ErrorModel> {
    if file.len() < 32 {
        Err(eof_error())
    } else {
        match parsed(file.take(32), no_dims_text()) {
            Ok(h) => Ok(
                report(path, h, size, min_notes(first_notes(h, size), h, size, seq![], file)),
            ),
            Err(e) => Err(e),
        }
    }
}

// ---------------------------------------------------------------------------
// The inspection, step by step
// ---------------------------------------------------------------------------

/// Findings so far.
struct Findings {
    checksum_valid: bool,
    row_ids_monotonic: bool,
    metadata_finite: bool,
    warnings: Vec<String>,
}

impl View for Findings {
    type V = Notes;

    closed spec fn view(&self) -> Notes {
        Notes {
            checksum_valid: self.checksum_valid,
            row_ids_monotonic: self.row_ids_monotonic,
            metadata_finite: self.metadata_finite,
            warnings: views(self.warnings@),
        }
    }
}

/// Add a warning.
fn warn(warnings: &mut Vec<String>, text: String)
    ensures
        views(final(warnings)@) == views(old(warnings)@).push(text@),
{
    warnings.push(text);
    assert(views(warnings@) =~= views(old(warnings)@).push(text@));
}

/// Text of a number that is not finite.
fn special(v: Scalar) -> (s: &'static str)
    ensures
        s@ == special_text(v),
{
    if v.is_nan() {
        "NaN"
    } else if v.bits >= 0x8000_0000 {
        "-inf"
    } else {
        "inf"
    }
}

/// Note what is wrong with one list of bounds.
fn note_list(f: Findings, s: &Vec<Scalar>, what: &str, cut: bool, cut_text: &str) -> (r: Findings)
    ensures
        r@ == list_notes(f@, s@, what@, cut, cut_text@),
{
    proof {
        reveal(list_notes);
    }
    let ghost n = f@;
    let mut f = f;
    let mut i: usize = 0;
    let mut finite: bool = true;
    assert(n.warnings + bound_warnings(s@.take(0), what@) =~= n.warnings);
    while i < s.len()
        invariant
            i <= s@.len(),
            n.checksum_valid == f.checksum_valid,
            n.row_ids_monotonic == f.row_ids_monotonic,
            n.metadata_finite == f.metadata_finite,
            finite == all_finite(s@.take(i as int)),
            views(f.warnings@) == n.warnings + bound_warnings(s@.take(i as int), what@),
        decreases s@.len() - i,
    {
        let v = s[i];
        let ghost some = s@.take(i + 1);
        proof {
            assert(some.drop_last() =~= s@.take(i as int));
            assert(some.last() == v);
            assert(all_finite(some) == (all_finite(s@.take(i as int)) && v.finite())) by {
                if all_finite(some) {
                    assert forall|k: int| 0 <= k < i implies (#[trigger] s@.take(
                        i as int,
                    )[k]).finite() by {
                        assert(some[k].finite());
                    }
                    assert(some[i as int].finite());
                }
                if all_finite(s@.take(i as int)) && v.finite() {
                    assert forall|k: int| 0 <= k < some.len() implies (
                    #[trigger] some[k]).finite() by {
                        if k < i {
                            assert(s@.take(i as int)[k].finite());
                        }
                    }
                }
            }
        }
        if !v.is_finite() {
            finite = false;
            let mut t: String = what.to_owned();
            t.append(special(v));
            let ghost before = views(f.warnings@);
            warn(&mut f.warnings, t);
            assert(before.push(what@ + special_text(v)) =~= n.warnings + bound_warnings(
                some,
                what@,
            ));
        } else {
            assert(bound_warnings(some, what@) =~= bound_warnings(s@.take(i as int), what@));
        }
        i += 1;
    }
    assert(s@.take(i as int) =~= s@);
    let ghost before = views(f.warnings@);
    if cut {
        warn(&mut f.warnings, cut_text.to_owned());
        assert(before.push(cut_text@) =~= before + warn_if(cut, cut_text@));
    } else {
        assert(before =~= before + warn_if(cut, cut_text@));
    }
    Findings { metadata_finite: f.metadata_finite && finite && !cut, ..f }
}

/// Note whether the bounds make a quantizer.
fn note_pair(f: Findings, mins: Vec<Scalar>, maxs: Vec<Scalar>) -> (r: Findings)
    ensures
        r@ == pair_notes(f@, Bounds { min: mins@, max: maxs@ }),
{
    proof {
        reveal(pair_notes);
    }
    let mut f = f;
    match Quantizer::new(mins, maxs) {
        Ok(_) => f,
        Err(_) => {
            warn(
                &mut f.warnings,
                "quantizer bounds invalid (max < min or dims mismatch)".to_owned(),
            );
            Findings { metadata_finite: false, ..f }
        },
    }
}

proof fn lemma_one_more_id(n: Notes, ids: Seq<u64>, id: u64, w: Seq<Seq<char>>)
    requires
        w == id_notes(n, ids, false).warnings + id_warning(ids.push(id), ids.len() as int),
    ensures
        w == id_notes(n, ids.push(id), false).warnings,
        increasing(ids.push(id)) <==> increasing(ids) && (ids.len() > 0 ==> ids.last() < id),
{
    reveal(id_notes);
    let all = ids.push(id);
    assert(all.drop_last() =~= ids);
    assert(id_warnings(all) == id_warnings(ids) + id_warning(all, ids.len() as int));
    assert(w =~= n.warnings + id_warnings(all) + seq![]);
    let n = ids.len() as int;
    if increasing(all) {
        assert forall|i: int, j: int| 0 <= i < j < n implies ids[i] < ids[j] by {
            assert(all[i] < all[j]);
        }
        if n > 0 {
            assert(all[n - 1] < all[n]);
        }
    }
    if increasing(ids) && (n > 0 ==> ids.last() < id) {
        assert forall|i: int, j: int| 0 <= i < j < n + 1 implies all[i] < all[j] by {
            if j < n {
                assert(ids[i] < ids[j]);
            } else if i < n - 1 {
                assert(ids[i] < ids[n - 1]);
            }
        }
    }
}

/// Note what is wrong with the next row identifier, `prev` being the one before.
fn note_id(f: Findings, n: Ghost<Notes>, ids: Ghost<Seq<u64>>, i: u64, prev: u64, id: u64) -> (r:
    Findings)
    requires
        f@ == id_notes(n@, ids@, false),
        i == ids@.len(),
        i > 0 ==> prev == ids@.last(),
    ensures
        r@ == id_notes(n@, ids@.push(id), false),
{
    proof {
        reveal(id_notes);
    }
    let ghost all = ids@.push(id);
    let mut f = f;
    let mut monotonic: bool = f.row_ids_monotonic;
    let ghost w0 = views(f.warnings@);
    if i > 0 && id <= prev {
        monotonic = false;
        let mut t: String = "row ids not strictly increasing: ".to_owned();
        push_decimal(&mut t, prev);
        t.append(" -> ");
        push_decimal(&mut t, id);
        t.append(" at ");
        push_decimal(&mut t, i);
        warn(&mut f.warnings, t);
    }
    let ghost w1 = views(f.warnings@);
    if id != i {
        let mut t: String = "row id ".to_owned();
        push_decimal(&mut t, id);
        t.append(" != expected ");
        push_decimal(&mut t, i);
        warn(&mut f.warnings, t);
    }
    proof {
        let w2 = views(f.warnings@);
        assert(w2 =~= w0 + id_warning(all, i as int));
        lemma_one_more_id(n@, ids@, id, w2);
    }
    Findings { row_ids_monotonic: monotonic, ..f }
}

/// Note that row identifier `i` could not be read.
fn note_cut_ids(f: Findings, n: Ghost<Notes>, ids: Ghost<Seq<u64>>, i: u64) -> (r: Findings)
    requires
        f@ == id_notes(n@, ids@, false),
        i == ids@.len(),
    ensures
        r@ == id_notes(n@, ids@, true),
{
    proof {
        reveal(id_notes);
    }
    let mut f = f;
    let ghost w0 = views(f.warnings@);
    let mut t: String = "truncated row id at ".to_owned();
    push_decimal(&mut t, i);
    warn(&mut f.warnings, t);
    assert(views(f.warnings@) =~= n@.warnings + id_warnings(ids@) + warn_if(
        true,
        "truncated row id at "@ + decimal(ids@.len()),
    ));
    Findings { row_ids_monotonic: false, ..f }
}

/// Note what became of the verification of the data block.
fn note_data(f: Findings, r: Result<()>) -> (g: Findings)
    ensures
        g@ == data_notes(f@, outcome(r)),
{
    proof {
        reveal(data_notes);
    }
    let mut f = f;
    match r {
        Ok(()) => f,
        Err(CompactError::ChecksumMismatch { expected, found }) => {
            let mut t: String = "checksum mismatch expected ".to_owned();
            push_hex_list(&mut t, &expected.as_slice()[0..4]);
            t.append(".. found ");
            push_hex_list(&mut t, &found.as_slice()[0..4]);
            t.append("..");
            assert(expected@.subrange(0, 4) =~= expected@.take(4));
            assert(found@.subrange(0, 4) =~= found@.take(4));
            warn(&mut f.warnings, t);
            Findings { checksum_valid: false, ..f }
        },
        Err(_) => {
            warn(&mut f.warnings, "truncated data block during checksum".to_owned());
            Findings { checksum_valid: false, ..f }
        },
    }
}

enum Stage {
    Header,
    BoundsSeek(Header, Findings),
    Mins(Header, Findings, Vec<Scalar>),
    Maxs(Header, Findings, Vec<Scalar>, Vec<Scalar>),
    FooterSeek(Header, Findings),
    RowIds(Header, Findings, u64, u64, Ghost<Notes>, Ghost<Seq<u64>>),
    Checksum(Header, Findings),
    Data(Header, Findings, DataCheck),
}

/// An inspection in progress.
pub struct ValidateSession {
    path: String,
    size: u64,
    stage: Stage,
}

/// What became of an inspection after an event.
pub enum ValidateProgress {
    /// More is to be read.
    Pending(ValidateSession),
    /// The inspection is complete.
    Reported(ValidationReport),
    /// The file cannot be inspected.
    Refused(CompactError),
}

/// Outcome of an inspection, over the report.
pub open spec fn inspecting(r: Result<ValidationReport>) -> std::result::Result<
    ReportModel,
    ErrorModel,
> {
    match r {
        Ok(r) => Ok(r@),
        Err(e) => Err(e@),
    }
}

impl ValidateSession {
    pub closed spec fn wf(&self) -> bool {
        match self.stage {
            Stage::Header => true,
            Stage::BoundsSeek(h, f) => h.dims > 0 && inspectable(h),
            Stage::Mins(h, f, mins) => mins@.len() < h.dims && inspectable(h),
            Stage::Maxs(h, f, mins, maxs) => maxs@.len() < h.dims && inspectable(h),
            Stage::FooterSeek(h, f) => footer_in_place(h, self.size as nat) && inspectable(h),
            Stage::RowIds(h, f, i, prev, n, ids) => {
                &&& footer_in_place(h, self.size as nat) && inspectable(h)
                &&& i == ids@.len()
                &&& i < h.vector_count
                &&& i > 0 ==> prev == ids@.last()
                &&& f@ == id_notes(n@, ids@, false)
            },
            Stage::Checksum(h, f) => footer_in_place(h, self.size as nat) && inspectable(h),
            Stage::Data(h, f, check) => {
                &&& footer_in_place(h, self.size as nat) && inspectable(h)
                &&& check.wf()
                &&& check.header() == h
            },
        }
    }

    /// Whether nothing was read yet.
    pub closed spec fn at_start(&self) -> bool {
        self.stage is Header
    }

    /// The next request.
    pub closed spec fn wants(&self) -> IoRequest {
        match self.stage {
            Stage::Header => IoRequest::Read { len: 32 },
            Stage::BoundsSeek(h, f) => IoRequest::Seek { offset: 32 },
            Stage::Mins(h, f, mins) => IoRequest::Read { len: 4 },
            Stage::Maxs(h, f, mins, maxs) => IoRequest::Read { len: 4 },
            Stage::FooterSeek(h, f) => IoRequest::Seek { offset: h.footer_offset },
            Stage::RowIds(h, f, i, prev, n, ids) => IoRequest::Read { len: 8 },
            Stage::Checksum(h, f) => IoRequest::Read { len: 32 },
            Stage::Data(h, f, check) => check.wants(),
        }
    }

    /// The position of the next read.
    pub closed spec fn at(&self) -> nat {
        match self.stage {
            Stage::Header => 0,
            Stage::BoundsSeek(h, f) => 32,
            Stage::Mins(h, f, mins) => (32 + 4 * mins@.len()) as nat,
            Stage::Maxs(h, f, mins, maxs) => (32 + 4 * h.dims + 4 * maxs@.len()) as nat,
            Stage::FooterSeek(h, f) => h.footer_offset as nat,
            Stage::RowIds(h, f, i, prev, n, ids) => (h.footer_offset + 8 * i) as nat,
            Stage::Checksum(h, f) => (h.footer_offset + 8 * h.vector_count) as nat,
            Stage::Data(h, f, check) => check.at(),
        }
    }

    /// The report still to come, if the rest is read from `file`.
    pub closed spec fn ahead(&self, file: Seq<u8>) -> std::result::Result<ReportModel, ErrorModel> {
        let size = self.size as nat;
        match self.stage {
            Stage::Header => inspection(self.path@, size, file),
            Stage::BoundsSeek(h, f) => Ok(
                report(self.path@, h, size, min_notes(f@, h, size, seq![], file)),
            ),
            Stage::Mins(h, f, mins) => Ok(
                report(self.path@, h, size, min_notes(f@, h, size, mins@, file)),
            ),
            Stage::Maxs(h, f, mins, maxs) => Ok(
                report(self.path@, h, size, max_notes(f@, h, size, mins@, maxs@, file)),
            ),
            Stage::FooterSeek(h, f) => Ok(
                report(self.path@, h, size, footer_notes(f@, h, seq![], file)),
            ),
            Stage::RowIds(h, f, i, prev, n, ids) => Ok(
                report(self.path@, h, size, footer_notes(n@, h, ids@, file)),
            ),
            Stage::Checksum(h, f) => Ok(report(self.path@, h, size, checksum_notes(f@, h, file))),
            Stage::Data(h, f, check) => Ok(
                report(self.path@, h, size, data_notes(f@, check.ahead(file))),
            ),
        }
    }

    /// How many stages are left, and how much is left of this one.
    pub closed spec fn left(&self) -> (nat, nat) {
        match self.stage {
            Stage::Header => (7, 0),
            Stage::BoundsSeek(h, f) => (6, 0),
            Stage::Mins(h, f, mins) => (5, (h.dims - mins@.len()) as nat),
            Stage::Maxs(h, f, mins, maxs) => (4, (h.dims - maxs@.len()) as nat),
            Stage::FooterSeek(h, f) => (3, 0),
            Stage::RowIds(h, f, i, prev, n, ids) => (2, (h.vector_count - i) as nat),
            Stage::Checksum(h, f) => (1, 0),
            Stage::Data(h, f, check) => (0, check.left()),
        }
    }

    /// `p` is what the rest of `file` leads to.
    pub open spec fn leads_to(&self, file: Seq<u8>, p: ValidateProgress) -> bool {
        match p {
            ValidateProgress::Pending(s) => s.ahead(file) == self.ahead(file),
            ValidateProgress::Reported(r) => self.ahead(file) == Ok::<ReportModel, ErrorModel>(r@),
            ValidateProgress::Refused(e) => self.ahead(file) == Err::<ReportModel, ErrorModel>(e@),
        }
    }

    /// Progress keeps the session in order, with less to do.
    pub open spec fn advances_to(&self, p: ValidateProgress) -> bool {
        p matches ValidateProgress::Pending(s) ==> {
            &&& s.wf()
            &&& !s.at_start()
            &&& s.left().0 < self.left().0 || (s.left().0 == self.left().0 && s.left().1
                < self.left().1)
        }
    }

    /// Start inspecting the file at `path`, of `file_size` bytes.
    pub fn new(path: String, file_size: u64) -> (s: ValidateSession)
        ensures
            s.wf(),
            s.at_start(),
            s.at() == 0,
            s.wants() == (IoRequest::Read { len: 32 }),
            forall|file: Seq<u8>| #[trigger]
                s.ahead(file) == inspection(path@, file_size as nat, file),
    {
        ValidateSession { path, size: file_size, stage: Stage::Header }
    }

    /// The next request.
    pub fn request(&self) -> (r: IoRequest)
        requires
            self.wf(),
        ensures
            r == self.wants(),
    {
        match &self.stage {
            Stage::Header => IoRequest::Read { len: HEADER_SIZE },
            Stage::BoundsSeek(h, f) => IoRequest::Seek { offset: 32 },
            Stage::Mins(h, f, mins) => IoRequest::Read { len: 4 },
            Stage::Maxs(h, f, mins, maxs) => IoRequest::Read { len: 4 },
            Stage::FooterSeek(h, f) => IoRequest::Seek { offset: h.footer_offset },
            Stage::RowIds(h, f, i, prev, n, ids) => IoRequest::Read { len: 8 },
            Stage::Checksum(h, f) => IoRequest::Read { len: 32 },
            Stage::Data(h, f, check) => check.request(),
        }
    }

    /// The position of the next read.
    pub fn position(&self) -> (r: u64)
        requires
            self.wf(),
        ensures
            r == self.at(),
    {
        match &self.stage {
            Stage::Header => 0,
            Stage::BoundsSeek(h, f) => 32,
            Stage::Mins(h, f, mins) => 32 + 4 * mins.len() as u64,
            Stage::Maxs(h, f, mins, maxs) => 32 + 4 * h.dims as u64 + 4 * maxs.len() as u64,
            Stage::FooterSeek(h, f) => h.footer_offset,
            Stage::RowIds(h, f, i, prev, n, ids) => h.footer_offset + 8 * *i,
            Stage::Checksum(h, f) => h.footer_offset + 8 * h.vector_count,
            Stage::Data(h, f, check) => check.position(),
        }
    }

    /// Take in what came of the request. Where header or position cannot be had, the file is
    /// refused; any other failure is noted like the end of the file.
    pub fn supply(self, event: IoEvent) -> (p: ValidateProgress)
        requires
            self.wf(),
            fits(self.wants(), event),
            self.at_start() ==> (event matches IoEvent::Bytes(b) ==> (parsed(
                b@,
                no_dims_text(),
            ) matches Ok(h) ==> inspectable(h))),
        ensures
            self.advances_to(p),
            event matches IoEvent::Failed(f) ==> if self.at_start() || self.wants() is Seek {
                p == ValidateProgress::Refused(CompactError::IoError { source: f })
            } else {
                forall|file: Seq<u8>|
                    #![trigger self.ahead(file)]
                    self.at() + self.wants()->len > file.len() ==> self.leads_to(file, p)
            },
            forall|file: Seq<u8>|
                #![trigger self.ahead(file)]
                answers(file, self.at(), self.wants(), event) ==> self.leads_to(file, p),
    {
        match event {
            IoEvent::Failed(f) => self.fail(f),
            IoEvent::Sought => self.supply_position(),
            IoEvent::Bytes(b) => self.supply_bytes(b),
        }
    }

    fn fail(self, f: IoFailure) -> (p: ValidateProgress)
        requires
            self.wf(),
        ensures
            self.advances_to(p),
            if self.at_start() || self.wants() is Seek {
                p == ValidateProgress::Refused(CompactError::IoError { source: f })
            } else {
                forall|file: Seq<u8>|
                    #![trigger self.ahead(file)]
                    self.at() + self.wants()->len > file.len() ==> self.leads_to(file, p)
            },
    {
        let ghost this = self;
        let path = self.path;
        let size: u64 = self.size;
        match self.stage {
            Stage::Mins(h, found, mins) => {
                let p = end_mins(path, size, h, found, mins, true);
                assert forall|file: Seq<u8>|
                    #![trigger this.ahead(file)]
                    this.at() + 4 > file.len() implies this.leads_to(file, p) by {
                    lemma_min_end(found@, h, size as nat, mins@, true, file);
                }
                p
            },
            Stage::Maxs(h, found, mins, maxs) => {
                let p = end_maxs(path, size, h, found, mins, maxs, true);
                assert forall|file: Seq<u8>|
                    #![trigger this.ahead(file)]
                    this.at() + 4 > file.len() implies this.leads_to(file, p) by {
                    lemma_max_end(found@, h, size as nat, mins@, maxs@, true, file);
                    lemma_ended(path@, h, size as nat, found@, mins@, maxs@, true, file);
                }
                p
            },
            Stage::RowIds(h, found, i, prev, n, ids) => {
                let found = note_cut_ids(found, n, ids, i);
                let p = ValidateProgress::Pending(
                    ValidateSession { path, size, stage: Stage::Checksum(h, found) },
                );
                assert forall|file: Seq<u8>|
                    #![trigger this.ahead(file)]
                    this.at() + 8 > file.len() implies this.leads_to(file, p) by {
                    lemma_id_end(n@, h, ids@, true, file);
                }
                p
            },
            Stage::Checksum(h, found) => {
                proof {
                    reveal(checksum_notes);
                }
                let mut found = found;
                warn(&mut found.warnings, "truncated checksum".to_owned());
                let found = Findings { checksum_valid: false, ..found };
                ValidateProgress::Reported(finish(path, size, h, found))
            },
            Stage::Data(h, found, check) => {
                let request = check.request();
                if let IoRequest::Seek { offset } = request {
                    ValidateProgress::Refused(CompactError::IoError { source: f })
                } else {
                    let e = CompactError::IoError { source: f };
                    let ghost short = check;
                    proof {
                        reveal(data_notes);
                    }
                    assert forall|file: Seq<u8>|
                        #![trigger short.ahead(file)]
                        short.at() + short.wants()->len > file.len() implies short.ahead(file)
                        == Err::<(), ErrorModel>(eof_error()) by {
                        short.lemma_short(file);
                    }
                    let found = note_data(found, Err(e));
                    ValidateProgress::Reported(finish(path, size, h, found))
                }
            },
            _ => ValidateProgress::Refused(CompactError::IoError { source: f }),
        }
    }

    fn supply_position(self) -> (p: ValidateProgress)
        requires
            self.wf(),
            self.wants() is Seek,
        ensures
            self.advances_to(p),
            forall|file: Seq<u8>| #![trigger self.ahead(file)] self.leads_to(file, p),
    {
        let path = self.path;
        let size: u64 = self.size;
        let ghost this = self;
        match self.stage {
            Stage::BoundsSeek(h, found) => ValidateProgress::Pending(
                ValidateSession { path, size, stage: Stage::Mins(h, found, Vec::new()) },
            ),
            Stage::FooterSeek(h, found) => {
                let ghost n = found@;
                let ghost none = Seq::<u64>::empty();
                proof {
                    lemma_no_ids(n);
                    assert(none =~= seq![]);
                }
                if h.vector_count == 0 {
                    let p = ValidateProgress::Pending(
                        ValidateSession { path, size, stage: Stage::Checksum(h, found) },
                    );
                    assert forall|file: Seq<u8>|
                        #![trigger this.ahead(file)]
                        this.leads_to(file, p) by {
                        lemma_id_end(n, h, none, false, file);
                    }
                    p
                } else {
                    ValidateProgress::Pending(
                        ValidateSession {
                            path,
                            size,
                            stage: Stage::RowIds(h, found, 0, 0, Ghost(n), Ghost(none)),
                        },
                    )
                }
            },
            Stage::Data(h, found, check) => proceed(path, size, h, found, check, IoEvent::Sought),
            other => ValidateProgress::Pending(ValidateSession { path, size, stage: other }),
        }
    }

    fn supply_bytes(self, b: Vec<u8>) -> (p: ValidateProgress)
        requires
            self.wf(),
            self.wants() matches IoRequest::Read { len } && b@.len() == len,
            self.at_start() ==> (parsed(b@, no_dims_text()) matches Ok(h) ==> inspectable(h)),
        ensures
            self.advances_to(p),
            forall|file: Seq<u8>|
                #![trigger self.ahead(file)]
                self.at() + b@.len() <= file.len() && b@ == file.subrange(
                    self.at() as int,
                    (self.at() + b@.len()) as int,
                ) ==> self.leads_to(file, p),
    {
        let path = self.path;
        let size: u64 = self.size;
        match self.stage {
            Stage::Header => take_header(path, size, b),
            Stage::Mins(h, found, mins) => take_min(path, size, h, found, mins, b),
            Stage::Maxs(h, found, mins, maxs) => take_max(path, size, h, found, mins, maxs, b),
            Stage::RowIds(h, found, i, prev, n, ids) => take_id(
                path,
                size,
                h,
                found,
                i,
                prev,
                n,
                ids,
                b,
            ),
            Stage::Checksum(h, found) => {
                proof {
                    reveal(checksum_notes);
                }
                let check = DataCheck::new(h, array_of(b.as_slice()));
                ValidateProgress::Pending(
                    ValidateSession { path, size, stage: Stage::Data(h, found, check) },
                )
            },
            Stage::Data(h, found, check) => proceed(path, size, h, found, check, IoEvent::Bytes(b)),
            other => ValidateProgress::Pending(ValidateSession { path, size, stage: other }),
        }
    }
}

/// The report with these findings.
fn finish(path: String, size: u64, h: Header, found: Findings) -> (r: ValidationReport)
    requires
        inspectable(h),
    ensures
        r@ == report(path@, h, size as nat, found@),
{
    let in_place: bool = footer_ok(&h, size);
    ValidationReport {
        path,
        header: h,
        dims: h.dims as usize,
        count: h.vector_count,
        footer_offset: h.footer_offset,
        file_size: size,
        checksum_valid: found.checksum_valid,
        row_ids_monotonic: found.row_ids_monotonic,
        metadata_finite: found.metadata_finite,
        footer_size_ok: in_place,
        warnings: found.warnings,
    }
}

/// Whether the footer lies after the data and inside the file.
fn footer_ok(h: &Header, size: u64) -> (r: bool)
    requires
        inspectable(*h),
    ensures
        r == footer_in_place(*h, size as nat),
{
    let min_footer: u64 = 32 + 8 * h.dims as u64 + h.data_len();
    h.footer_offset >= min_footer && h.footer_offset + (h.vector_count * 8 + 32) <= size
}

/// The first number of a run, and the rest.
proof fn lemma_next_scalar(file: Seq<u8>, at: int, n: int, v: Scalar)
    requires
        at >= 0,
        n > 0,
        at + 4 <= file.len(),
        v.bits == crate::bytes::unbe(file.subrange(at, at + 4)),
    ensures
        ({
            let k = available(file, at, 4, n);
            let j = available(file, at + 4, 4, n - 1);
            &&& k == j + 1
            &&& scalars_in(span(file, at, at + 4 * k)) == seq![v] + scalars_in(
                span(file, at + 4, at + 4 + 4 * j),
            )
        }),
{
    let k = available(file, at, 4, n);
    let j = available(file, at + 4, 4, n - 1);
    assert(k == j + 1);
    let all = span(file, at, at + 4 * k);
    let rest = span(file, at + 4, at + 4 + 4 * j);
    assert(all.subrange(0, 4) =~= file.subrange(at, at + 4));
    assert forall|i: int| 1 <= i < k implies #[trigger] scalars_in(all)[i] == scalars_in(rest)[i
        - 1] by {
        assert(all.subrange(4 * i, 4 * i + 4) =~= rest.subrange(4 * (i - 1), 4 * (i - 1) + 4));
    }
    assert(scalars_in(all) =~= seq![v] + scalars_in(rest));
}

/// The first identifier of a run, and the rest.
proof fn lemma_next_id(file: Seq<u8>, at: int, n: int, v: u64)
    requires
        at >= 0,
        n > 0,
        at + 8 <= file.len(),
        v == crate::bytes::unbe(file.subrange(at, at + 8)),
    ensures
        ({
            let k = available(file, at, 8, n);
            let j = available(file, at + 8, 8, n - 1);
            &&& k == j + 1
            &&& ids_in(span(file, at, at + 8 * k)) == seq![v] + ids_in(
                span(file, at + 8, at + 8 + 8 * j),
            )
        }),
{
    let k = available(file, at, 8, n);
    let j = available(file, at + 8, 8, n - 1);
    assert(k == j + 1);
    let all = span(file, at, at + 8 * k);
    let rest = span(file, at + 8, at + 8 + 8 * j);
    assert(all.subrange(0, 8) =~= file.subrange(at, at + 8));
    assert forall|i: int| 1 <= i < k implies #[trigger] ids_in(all)[i] == ids_in(rest)[i - 1] by {
        assert(all.subrange(8 * i, 8 * i + 8) =~= rest.subrange(8 * (i - 1), 8 * (i - 1) + 8));
    }
    assert(ids_in(all) =~= seq![v] + ids_in(rest));
}

/// One more lower bound read leaves the findings to come as they were.
proof fn lemma_min_step(n: Notes, h: Header, size: nat, mins: Seq<Scalar>, v: Scalar, file: Seq<u8>)
    requires
        mins.len() < h.dims,
        32 + 4 * mins.len() + 4 <= file.len(),
        v.bits == crate::bytes::unbe(
            file.subrange(32 + 4 * mins.len() as int, 32 + 4 * mins.len() as int + 4),
        ),
    ensures
        min_notes(n, h, size, mins, file) == min_notes(n, h, size, mins.push(v), file),
{
    reveal(min_notes);
    let at = 32 + 4 * mins.len() as int;
    let left = h.dims - mins.len();
    lemma_next_scalar(file, at, left, v);
    let j = available(file, at + 4, 4, left - 1);
    let rest = scalars_in(span(file, at + 4, at + 4 + 4 * j));
    assert(mins + (seq![v] + rest) =~= mins.push(v) + rest);
}

/// All lower bounds are read, or the file ends.
proof fn lemma_min_end(n: Notes, h: Header, size: nat, mins: Seq<Scalar>, cut: bool, file: Seq<u8>)
    requires
        mins.len() <= h.dims,
        cut ==> mins.len() < h.dims && 32 + 4 * mins.len() + 4 > file.len(),
        !cut ==> mins.len() == h.dims,
    ensures
        min_notes(n, h, size, mins, file) == max_notes(
            list_notes(n, mins, "non-finite min "@, cut, "truncated min bounds"@),
            h,
            size,
            mins,
            seq![],
            file,
        ),
{
    reveal(min_notes);
    let at = 32 + 4 * mins.len() as int;
    assert(available(file, at, 4, h.dims - mins.len()) == 0);
    assert(mins + scalars_in(span(file, at, at)) =~= mins);
}

/// One more upper bound read leaves the findings to come as they were.
proof fn lemma_max_step(
    n: Notes,
    h: Header,
    size: nat,
    mins: Seq<Scalar>,
    maxs: Seq<Scalar>,
    v: Scalar,
    file: Seq<u8>,
)
    requires
        maxs.len() < h.dims,
        32 + 4 * h.dims + 4 * maxs.len() + 4 <= file.len(),
        v.bits == crate::bytes::unbe(
            file.subrange(
                32 + 4 * h.dims + 4 * maxs.len() as int,
                32 + 4 * h.dims + 4 * maxs.len() as int + 4,
            ),
        ),
    ensures
        max_notes(n, h, size, mins, maxs, file) == max_notes(
            n,
            h,
            size,
            mins,
            maxs.push(v),
            file,
        ),
{
    reveal(max_notes);
    let at = 32 + 4 * h.dims + 4 * maxs.len() as int;
    let left = h.dims - maxs.len();
    lemma_next_scalar(file, at, left, v);
    let j = available(file, at + 4, 4, left - 1);
    let rest = scalars_in(span(file, at + 4, at + 4 + 4 * j));
    assert(maxs + (seq![v] + rest) =~= maxs.push(v) + rest);
}

/// All upper bounds are read, or the file ends.
proof fn lemma_max_end(
    n: Notes,
    h: Header,
    size: nat,
    mins: Seq<Scalar>,
    maxs: Seq<Scalar>,
    cut: bool,
    file: Seq<u8>,
)
    requires
        maxs.len() <= h.dims,
        cut ==> maxs.len() < h.dims && 32 + 4 * h.dims + 4 * maxs.len() + 4 > file.len(),
        !cut ==> maxs.len() == h.dims,
    ensures
        max_notes(n, h, size, mins, maxs, file) == tail_notes(
            pair_notes(
                list_notes(n, maxs, "non-finite max "@, cut, "truncated max bounds"@),
                Bounds { min: mins, max: maxs },
            ),
            h,
            size,
            file,
        ),
{
    reveal(max_notes);
    let at = 32 + 4 * h.dims + 4 * maxs.len() as int;
    assert(available(file, at, 4, h.dims - maxs.len()) == 0);
    assert(maxs + scalars_in(span(file, at, at)) =~= maxs);
}

/// One more row identifier read leaves the findings to come as they were.
proof fn lemma_id_step(n: Notes, h: Header, ids: Seq<u64>, id: u64, file: Seq<u8>)
    requires
        ids.len() < h.vector_count,
        h.footer_offset + 8 * ids.len() + 8 <= file.len(),
        id == crate::bytes::unbe(
            file.subrange(
                h.footer_offset + 8 * ids.len() as int,
                h.footer_offset + 8 * ids.len() as int + 8,
            ),
        ),
    ensures
        footer_notes(n, h, ids, file) == footer_notes(n, h, ids.push(id), file),
{
    reveal(footer_notes);
    let at = h.footer_offset + 8 * ids.len() as int;
    let left = h.vector_count - ids.len();
    lemma_next_id(file, at, left, id);
    let j = available(file, at + 8, 8, left - 1);
    let rest = ids_in(span(file, at + 8, at + 8 + 8 * j));
    assert(ids + (seq![id] + rest) =~= ids.push(id) + rest);
}

/// All row identifiers are read, or the file ends.
proof fn lemma_id_end(n: Notes, h: Header, ids: Seq<u64>, cut: bool, file: Seq<u8>)
    requires
        ids.len() <= h.vector_count,
        cut ==> ids.len() < h.vector_count && h.footer_offset + 8 * ids.len() + 8 > file.len(),
        !cut ==> ids.len() == h.vector_count,
    ensures
        footer_notes(n, h, ids, file) == checksum_notes(id_notes(n, ids, cut), h, file),
{
    reveal(footer_notes);
    let at = h.footer_offset + 8 * ids.len() as int;
    assert(available(file, at, 8, h.vector_count - ids.len()) == 0);
    assert(ids + ids_in(span(file, at, at)) =~= ids);
}

/// No row identifiers, nothing to note.
proof fn lemma_no_ids(n: Notes)
    ensures
        id_notes(n, seq![], false) == n,
{
    reveal(id_notes);
    let none = Seq::<u64>::empty();
    assert(n.warnings + id_warnings(none) + warn_if(
        false,
        "truncated row id at "@ + decimal(none.len()),
    ) =~= n.warnings);
    assert(id_notes(n, seq![], false) =~= n);
}

/// Go on verifying the data block.
fn proceed(path: String, size: u64, h: Header, found: Findings, check: DataCheck, event: IoEvent)
    -> (p: ValidateProgress)
    requires
        (ValidateSession { path, size, stage: Stage::Data(h, found, check) }).wf(),
        fits(check.wants(), event),
        event !is Failed,
    ensures
        ({
            let s = ValidateSession { path, size, stage: Stage::Data(h, found, check) };
            &&& s.advances_to(p)
            &&& forall|file: Seq<u8>|
                #![trigger s.ahead(file)]
                answers(file, s.at(), s.wants(), event) ==> s.leads_to(file, p)
        }),
{
    let ghost s = ValidateSession { path, size, stage: Stage::Data(h, found, check) };
    let ghost was = check;
    let ghost came = event;
    match check.supply(event) {
        DataProgress::Pending(next) => {
            let p = ValidateProgress::Pending(
                ValidateSession { path, size, stage: Stage::Data(h, found, next) },
            );
            assert forall|file: Seq<u8>|
                #![trigger s.ahead(file)]
                answers(file, s.at(), s.wants(), came) implies s.leads_to(file, p) by {
                assert(was.ahead(file) == next.ahead(file));
            }
            p
        },
        DataProgress::Done(r) => {
            let ghost verdict = outcome(r);
            let found = note_data(found, r);
            let p = ValidateProgress::Reported(finish(path, size, h, found));
            assert forall|file: Seq<u8>|
                #![trigger s.ahead(file)]
                answers(file, s.at(), s.wants(), came) implies s.leads_to(file, p) by {
                assert(was.ahead(file) == verdict);
            }
            p
        },
    }
}

/// Take in the header.
fn take_header(path: String, size: u64, b: Vec<u8>) -> (p: ValidateProgress)
    requires
        b@.len() == 32,
        parsed(b@, no_dims_text()) matches Ok(h) ==> inspectable(h),
    ensures
        ({
            let s = ValidateSession { path, size, stage: Stage::Header };
            &&& s.advances_to(p)
            &&& forall|file: Seq<u8>|
                #![trigger s.ahead(file)]
                32 <= file.len() && b@ == file.subrange(0, 32) ==> s.leads_to(file, p)
        }),
{
    proof {
        reveal(first_notes);
    }
    let ghost s = ValidateSession { path, size, stage: Stage::Header };
    assert forall|file: Seq<u8>|
        #![trigger s.ahead(file)]
        32 <= file.len() && b@ == file.subrange(0, 32) implies b@ == file.take(32) by {
        assert(file.subrange(0, 32) =~= file.take(32));
    }
    let h = match header::parse(&array_of(b.as_slice()), "dims must be > 0") {
        Ok(h) => h,
        Err(e) => return ValidateProgress::Refused(e),
    };
    let mut warnings: Vec<String> = Vec::new();
    assert(views(warnings@) =~= seq![]);
    if !footer_ok(&h, size) {
        let min_footer: u64 = 32 + 8 * h.dims as u64 + h.data_len();
        let footer_size: u64 = h.vector_count * 8 + 32;
        let mut t: String = "footer offset ".to_owned();
        push_decimal(&mut t, h.footer_offset);
        t.append(" not in [");
        push_decimal(&mut t, min_footer);
        t.append(", ");
        push_decimal(
            &mut t,
            if footer_size <= size {
                size - footer_size
            } else {
                0
            },
        );
        t.append("]");
        assert(t@ == footer_warning(h, size as nat));
        warn(&mut warnings, t);
        assert(views(warnings@) =~= warn_if(true, footer_warning(h, size as nat)));
    }
    let found = Findings {
        checksum_valid: true,
        row_ids_monotonic: true,
        metadata_finite: true,
        warnings,
    };
    assert(found@ =~= first_notes(h, size as nat));
    ValidateProgress::Pending(
        ValidateSession { path, size, stage: Stage::BoundsSeek(h, found) },
    )
}

/// The lower bounds are complete, or were cut off.
fn end_mins(
    path: String,
    size: u64,
    h: Header,
    found: Findings,
    mins: Vec<Scalar>,
    cut: bool,
) -> (p: ValidateProgress)
    requires
        h.dims > 0,
        inspectable(h),
    ensures
        p matches ValidateProgress::Pending(s) && s.wf() && !s.at_start() && s.left().0 == 4
            && forall|file: Seq<u8>| #[trigger]
            s.ahead(file) == Ok::<ReportModel, ErrorModel>(
                report(
                    path@,
                    h,
                    size as nat,
                    max_notes(
                        list_notes(
                            found@,
                            mins@,
                            "non-finite min "@,
                            cut,
                            "truncated min bounds"@,
                        ),
                        h,
                        size as nat,
                        mins@,
                        seq![],
                        file,
                    ),
                ),
            ),
{
    let found = note_list(found, &mins, "non-finite min ", cut, "truncated min bounds");
    ValidateProgress::Pending(
        ValidateSession { path, size, stage: Stage::Maxs(h, found, mins, Vec::new()) },
    )
}

/// The upper bounds are complete, or were cut off.
fn end_maxs(
    path: String,
    size: u64,
    h: Header,
    found: Findings,
    mins: Vec<Scalar>,
    maxs: Vec<Scalar>,
    cut: bool,
) -> (p: ValidateProgress)
    requires
        inspectable(h),
    ensures
        match p {
            ValidateProgress::Pending(s) => s.wf() && !s.at_start() && s.left().0 == 3,
            ValidateProgress::Reported(r) => true,
            ValidateProgress::Refused(e) => false,
        },
        forall|file: Seq<u8>| #[trigger]
            ended(
                path@,
                h,
                size as nat,
                pair_notes(
                    list_notes(found@, maxs@, "non-finite max "@, cut, "truncated max bounds"@),
                    Bounds { min: mins@, max: maxs@ },
                ),
                file,
            ) == (match p {
                ValidateProgress::Pending(s) => s.ahead(file),
                ValidateProgress::Reported(r) => Ok::<ReportModel, ErrorModel>(r@),
                ValidateProgress::Refused(e) => Err(e@),
            }),
{
    proof {
        reveal(tail_notes);
    }
    let found = note_list(found, &maxs, "non-finite max ", cut, "truncated max bounds");
    let found = note_pair(found, mins, maxs);
    if footer_ok(&h, size) {
        ValidateProgress::Pending(
            ValidateSession { path, size, stage: Stage::FooterSeek(h, found) },
        )
    } else {
        let found = Findings { checksum_valid: false, row_ids_monotonic: false, ..found };
        ValidateProgress::Reported(finish(path, size, h, found))
    }
}

/// The report once all bounds are read.
spec fn ended(path: Seq<char>, h: Header, size: nat, n: Notes, file: Seq<u8>) -> std::result::Result<
    ReportModel,
    ErrorModel,
> {
    Ok(report(path, h, size, tail_notes(n, h, size, file)))
}

proof fn lemma_ended(
    path: Seq<char>,
    h: Header,
    size: nat,
    n: Notes,
    mins: Seq<Scalar>,
    maxs: Seq<Scalar>,
    cut: bool,
    file: Seq<u8>,
)
    ensures
        ended(
            path,
            h,
            size,
            pair_notes(
                list_notes(n, maxs, "non-finite max "@, cut, "truncated max bounds"@),
                Bounds { min: mins, max: maxs },
            ),
            file,
        ) == Ok::<ReportModel, ErrorModel>(
            report(
                path,
                h,
                size,
                tail_notes(
                    pair_notes(
                        list_notes(n, maxs, "non-finite max "@, cut, "truncated max bounds"@),
                        Bounds { min: mins, max: maxs },
                    ),
                    h,
                    size,
                    file,
                ),
            ),
        ),
{
}

/// Take in one lower bound.
fn take_min(
    path: String,
    size: u64,
    h: Header,
    found: Findings,
    mins: Vec<Scalar>,
    b: Vec<u8>,
) -> (p: ValidateProgress)
    requires
        (ValidateSession { path, size, stage: Stage::Mins(h, found, mins) }).wf(),
        b@.len() == 4,
    ensures
        ({
            let s = ValidateSession { path, size, stage: Stage::Mins(h, found, mins) };
            &&& s.advances_to(p)
            &&& forall|file: Seq<u8>|
                #![trigger s.ahead(file)]
                s.at() + 4 <= file.len() && b@ == file.subrange(s.at() as int, s.at() as int + 4)
                    ==> s.leads_to(file, p)
        }),
{
    let ghost s = ValidateSession { path, size, stage: Stage::Mins(h, found, mins) };
    let ghost before = mins@;
    let mut mins = mins;
    let v = scalar_of(b.as_slice());
    mins.push(v);
    let ghost n = found@;
    let ghost after = mins@;
    assert forall|file: Seq<u8>|
        #![trigger s.ahead(file)]
        s.at() + 4 <= file.len() && b@ == file.subrange(
            s.at() as int,
            s.at() as int + 4,
        ) implies min_notes(n, h, size as nat, before, file) == min_notes(
        n,
        h,
        size as nat,
        after,
        file,
    ) by {
        lemma_min_step(n, h, size as nat, before, v, file);
    }
    if mins.len() == h.dims as usize {
        let p = end_mins(path, size, h, found, mins, false);
        assert forall|file: Seq<u8>|
            #![trigger s.ahead(file)]
            s.at() + 4 <= file.len() && b@ == file.subrange(
                s.at() as int,
                s.at() as int + 4,
            ) implies s.leads_to(file, p) by {
            lemma_min_end(n, h, size as nat, after, false, file);
        }
        p
    } else {
        ValidateProgress::Pending(
            ValidateSession { path, size, stage: Stage::Mins(h, found, mins) },
        )
    }
}

/// Take in one upper bound.
fn take_max(
    path: String,
    size: u64,
    h: Header,
    found: Findings,
    mins: Vec<Scalar>,
    maxs: Vec<Scalar>,
    b: Vec<u8>,
) -> (p: ValidateProgress)
    requires
        (ValidateSession { path, size, stage: Stage::Maxs(h, found, mins, maxs) }).wf(),
        b@.len() == 4,
    ensures
        ({
            let s = ValidateSession { path, size, stage: Stage::Maxs(h, found, mins, maxs) };
            &&& s.advances_to(p)
            &&& forall|file: Seq<u8>|
                #![trigger s.ahead(file)]
                s.at() + 4 <= file.len() && b@ == file.subrange(s.at() as int, s.at() as int + 4)
                    ==> s.leads_to(file, p)
        }),
{
    let ghost s = ValidateSession { path, size, stage: Stage::Maxs(h, found, mins, maxs) };
    let ghost before = maxs@;
    let ghost n = found@;
    let mut maxs = maxs;
    let v = scalar_of(b.as_slice());
    maxs.push(v);
    let ghost after = maxs@;
    assert forall|file: Seq<u8>|
        #![trigger s.ahead(file)]
        s.at() + 4 <= file.len() && b@ == file.subrange(
            s.at() as int,
            s.at() as int + 4,
        ) implies max_notes(n, h, size as nat, mins@, before, file) == max_notes(
        n,
        h,
        size as nat,
        mins@,
        after,
        file,
    ) by {
        lemma_max_step(n, h, size as nat, mins@, before, v, file);
    }
    if maxs.len() == h.dims as usize {
        let ghost lows = mins@;
        let ghost name = path@;
        let p = end_maxs(path, size, h, found, mins, maxs, false);
        assert forall|file: Seq<u8>|
            #![trigger s.ahead(file)]
            s.at() + 4 <= file.len() && b@ == file.subrange(
                s.at() as int,
                s.at() as int + 4,
            ) implies s.leads_to(file, p) by {
            lemma_max_end(n, h, size as nat, lows, after, false, file);
            lemma_ended(name, h, size as nat, n, lows, after, false, file);
        }
        p
    } else {
        ValidateProgress::Pending(
            ValidateSession { path, size, stage: Stage::Maxs(h, found, mins, maxs) },
        )
    }
}

/// The number in four bytes.
fn scalar_of(b: &[u8]) -> (v: Scalar)
    requires
        b@.len() == 4,
    ensures
        v.bits == crate::bytes::unbe(b@),
{
    proof {
        lemma_capacities();
        assert(b@.subrange(0, 4) =~= b@);
    }
    let n: u64 = read_be(b, 0, 4);
    Scalar { bits: n as u32 }
}

/// Take in one row identifier.
fn take_id(
    path: String,
    size: u64,
    h: Header,
    found: Findings,
    i: u64,
    prev: u64,
    n: Ghost<Notes>,
    ids: Ghost<Seq<u64>>,
    b: Vec<u8>,
) -> (p: ValidateProgress)
    requires
        (ValidateSession { path, size, stage: Stage::RowIds(h, found, i, prev, n, ids) }).wf(),
        b@.len() == 8,
    ensures
        ({
            let s = ValidateSession {
                path,
                size,
                stage: Stage::RowIds(h, found, i, prev, n, ids),
            };
            &&& s.advances_to(p)
            &&& forall|file: Seq<u8>|
                #![trigger s.ahead(file)]
                s.at() + 8 <= file.len() && b@ == file.subrange(s.at() as int, s.at() as int + 8)
                    ==> s.leads_to(file, p)
        }),
{
    let ghost s = ValidateSession { path, size, stage: Stage::RowIds(h, found, i, prev, n, ids) };
    let id: u64 = read_be(b.as_slice(), 0, 8);
    assert(b@.subrange(0, 8) =~= b@);
    let found = note_id(found, n, ids, i, prev, id);
    let ghost after = ids@.push(id);
    assert forall|file: Seq<u8>|
        #![trigger s.ahead(file)]
        s.at() + 8 <= file.len() && b@ == file.subrange(
            s.at() as int,
            s.at() as int + 8,
        ) implies footer_notes(n@, h, ids@, file) == footer_notes(n@, h, after, file) by {
        lemma_id_step(n@, h, ids@, id, file);
    }
    if i + 1 == h.vector_count {
        let p = ValidateProgress::Pending(
            ValidateSession { path, size, stage: Stage::Checksum(h, found) },
        );
        assert forall|file: Seq<u8>|
            #![trigger s.ahead(file)]
            s.at() + 8 <= file.len() && b@ == file.subrange(
                s.at() as int,
                s.at() as int + 8,
            ) implies s.leads_to(file, p) by {
            lemma_id_end(n@, h, after, false, file);
        }
        p
    } else {
        ValidateProgress::Pending(
            ValidateSession {
                path,
                size,
                stage: Stage::RowIds(h, found, i + 1, id, n, Ghost(after)),
            },
        )
    }
}

/// The header of this file is inspectable, if there is one.
pub open spec fn file_inspectable(file: Seq<u8>) -> bool {
    file.len() >= 32 ==> (parsed(file.take(32), no_dims_text()) matches Ok(h) ==> inspectable(h))
}

/// Whether the header of this file is inspectable, if there is one.
pub fn is_inspectable(file: &[u8]) -> (r: bool)
    ensures
        r == file_inspectable(file@),
{
    match read_at(file, 0, HEADER_SIZE) {
        Ok(b) => {
            assert(file@.subrange(0, 32) =~= file@.take(32));
            match Header::from_bytes(&array_of(b.as_slice())) {
                Ok(h) => {
                    if !layout_fits(&h) {
                        return false;
                    }
                    let end: u64 = 32 + 8 * h.dims as u64 + h.data_len();
                    let footer: u128 = 8 * (h.vector_count as u128) + 32;
                    let top: u128 = 0xffff_ffff_ffff_ffff;
                    footer <= top && (h.footer_offset < end || h.footer_offset as u128 + footer
                        <= top)
                },
                Err(_) => true,
            }
        },
        Err(_) => true,
    }
}

/// Inspect a file held in memory.
pub fn validate(path: String, file: &[u8]) -> (r: Result<ValidationReport>)
    requires
        file_inspectable(file@),
    ensures
        inspecting(r) == inspection(path@, file@.len(), file@),
{
    let ghost name = path@;
    let mut session = ValidateSession::new(path, file.len() as u64);
    loop
        invariant
            name == path@,
            session.wf(),
            session.at_start() ==> session.at() == 0 && session.wants() == (IoRequest::Read {
                len: 32,
            }),
            session.ahead(file@) == inspection(name, file@.len(), file@),
            file_inspectable(file@),
        decreases session.left().0, session.left().1,
    {
        let request = session.request();
        let event = serve(file, session.position(), request);
        let ghost was = session;
        proof {
            if session.at_start() && event is Bytes {
                assert(file@.subrange(0, 32) =~= file@.take(32));
            }
        }
        match session.supply(event) {
            ValidateProgress::Reported(r) => {
                assert(was.leads_to(file@, ValidateProgress::Reported(r)));
                return Ok(r);
            },
            ValidateProgress::Refused(e) => {
                assert(was.leads_to(file@, ValidateProgress::Refused(e)));
                return Err(e);
            },
            ValidateProgress::Pending(next) => {
                assert(was.leads_to(file@, ValidateProgress::Pending(next)));
                session = next;
            },
        }
    }
}

/// Whether the header at the start of a file puts the footer inside a file of `file_len` bytes.
pub fn quick_check(bytes: &[u8; HEADER_SIZE], file_len: u64) -> (r: Result<bool>)
    requires
        parsed(bytes@, no_dims_text()) matches Ok(h) ==> inspectable(h),
    ensures
        match parsed(bytes@, no_dims_text()) {
            Ok(h) => r matches Ok(ok) && ok == footer_in_place(h, file_len as nat),
            Err(e) => r matches Err(f) && f@ == e,
        },
{
    match Header::from_bytes(bytes) {
        Ok(h) => Ok(h.validate_footer(file_len).is_ok()),
        Err(e) => Err(e),
    }
}

} // verus!
