//! Opening a file: which bytes to read in which order, and what to make of them.
use crate::bytes::{array_of, read_be};
use crate::config::ReaderConfig;
use crate::errors::{CompactError, ErrorModel, IoFailure, Result};
use crate::header::{self, Header, HEADER_SIZE};
use crate::quant::{bounds_outcome, law_bounds_accepted, Bounds, Quantizer};
use crate::storage::check::{data_verdict, DataCheck, DataProgress};
use crate::storage::io::{
    answers, eof_error, eof_text, fits, moved, serve, IoEvent, IoRequest,
};
use crate::storage::layout::{bounds_in, ids_in, read_scalars};
use crate::storage::reader::{CompactReader, ReaderModel};
use crate::storage::{read_header, stored};
use crate::text::{decimal, push_decimal};
use vstd::prelude::*;

verus! {

/// What a file says, or why it is refused.
pub type Verdict = std::result::Result<ReaderModel, ErrorModel>;

/// The footer would start inside header or bounds.
pub open spec fn footer_too_early(h: Header) -> bool {
    h.vector_count > 0 && h.footer_offset < 32 + 8 * h.dims
}

/// The complaint about the position of the footer, if any.
pub open spec fn footer_fault(h: Header) -> Option<ErrorModel> {
    if footer_too_early(h) {
        Some(
            ErrorModel::CorruptedFooter(
                "footer_offset "@ + decimal(h.footer_offset as nat)
                    + " before end of data block"@,
            ),
        )
    } else if h.footer_offset < h.data_end() {
        Some(
            ErrorModel::CorruptedFooter(
                "footer_offset "@ + decimal(h.footer_offset as nat) + " < minimum "@ + decimal(
                    h.data_end(),
                ) + " (truncated data block?)"@,
            ),
        )
    } else {
        None
    }
}

/// What a failed read of the footer is reported as: a verifying reader says what was cut off.
pub open spec fn footer_failure(
    verify: bool,
    what: Seq<char>,
    eof: bool,
    text: Seq<char>,
) -> ErrorModel {
    if verify && eof {
        ErrorModel::CorruptedFooter(what + text)
    } else {
        ErrorModel::IoError { eof, text }
    }
}

/// The verdict once everything but the data block is read.
pub open spec fn after_checksum(m: ReaderModel, file: Seq<u8>, verify: bool) -> Verdict {
    if !verify {
        Ok(m)
    } else {
        match data_verdict(m.header, m.checksum, file) {
            Ok(()) => Ok(m),
            Err(e) => Err(e),
        }
    }
}

/// The verdict once header, bounds and row identifiers are read.
pub open spec fn after_ids(
    h: Header,
    b: Bounds,
    ids: Seq<u64>,
    file: Seq<u8>,
    verify: bool,
) -> Verdict {
    let at = h.footer_offset + 8 * h.vector_count;
    if file.len() < at + 32 {
        Err(footer_failure(verify, "truncated checksum: "@, true, eof_text()))
    } else {
        after_checksum(
            ReaderModel { header: h, bounds: b, row_ids: ids, checksum: file.subrange(at, at + 32) },
            file,
            verify,
        )
    }
}

/// The verdict once header, bounds and some row identifiers are read.
pub open spec fn after_some_ids(
    h: Header,
    b: Bounds,
    ids: Seq<u64>,
    file: Seq<u8>,
    verify: bool,
) -> Verdict {
    let from = h.footer_offset + 8 * ids.len();
    let to = h.footer_offset + 8 * h.vector_count;
    if from < to && file.len() < to {
        Err(footer_failure(verify, "truncated row-id array: "@, true, eof_text()))
    } else if from < to {
        after_ids(h, b, ids + ids_in(file.subrange(from, to)), file, verify)
    } else {
        after_ids(h, b, ids, file, verify)
    }
}

/// The verdict once the header is read and accepted.
pub open spec fn after_header(h: Header, file: Seq<u8>, verify: bool) -> Verdict {
    if file.len() < 32 + 8 * h.dims {
        Err(eof_error())
    } else {
        match bounds_outcome(bounds_in(file, h.dims as int)) {
            Ok(b) => after_some_ids(h, b, seq![], file, verify),
            Err(e) => Err(e),
        }
    }
}

/// The verdict on a whole file. The position of the footer is verified in any case, the checksum
/// only with `verify`.
pub open spec fn verdict(file: Seq<u8>, verify: bool) -> Verdict {
    if file.len() < 32 {
        Err(eof_error())
    } else {
        match stored(file.take(32)) {
            Ok(h) => if footer_fault(h) is Some {
                Err(footer_fault(h)->Some_0)
            } else {
                after_header(h, file, verify)
            },
            Err(e) => Err(e),
        }
    }
}

/// No position computed for this header exceeds 64 bits.
pub open spec fn measurable(h: Header) -> bool {
    footer_too_early(h) || h.data_end() <= u64::MAX
}

/// Whether the data block of a header ends at a position of 64 bits.
pub fn layout_fits(h: &Header) -> (r: bool)
    ensures
        r == (h.data_end() <= u64::MAX),
{
    proof {
        assert(h.vector_count * h.dims <= 0xffff_ffff_ffff_ffff * 0xffff) by (nonlinear_arith)
            requires
                h.vector_count <= 0xffff_ffff_ffff_ffff,
                h.dims <= 0xffff,
        ;
    }
    let data: u128 = h.vector_count as u128 * h.dims as u128;
    32 + 8 * (h.dims as u128) + data <= 0xffff_ffff_ffff_ffff
}

enum Stage {
    Header,
    Bounds(Header),
    FooterSeek(Header, Quantizer),
    RowIds(Header, Quantizer, Vec<u64>),
    Checksum(Header, Quantizer, Vec<u64>),
    Data(CompactReader, DataCheck),
}

/// A file being opened.
pub struct OpenSession {
    verify: bool,
    stage: Stage,
}

/// What became of an opening after an event.
pub enum OpenProgress {
    /// More is to be read.
    Pending(OpenSession),
    /// The file is open.
    Opened(CompactReader),
    /// The file is refused.
    Refused(CompactError),
}

impl OpenSession {
    pub closed spec fn wf(&self) -> bool {
        match self.stage {
            Stage::Header => true,
            Stage::Bounds(h) => h.dims > 0 && footer_fault(h) is None && h.data_end()
                <= u64::MAX,
            Stage::FooterSeek(h, q) => {
                &&& q@.valid() && q@.dims() == h.dims
                &&& footer_fault(h) is None && h.data_end() <= u64::MAX
            },
            Stage::RowIds(h, q, ids) => {
                &&& q@.valid() && q@.dims() == h.dims
                &&& footer_fault(h) is None && h.data_end() <= u64::MAX
                &&& ids@.len() < h.vector_count
            },
            Stage::Checksum(h, q, ids) => {
                &&& q@.valid() && q@.dims() == h.dims
                &&& footer_fault(h) is None && h.data_end() <= u64::MAX
                &&& ids@.len() == h.vector_count
            },
            Stage::Data(reader, check) => self.verify && check.wf() && check.header()
                == reader@.header,
        }
    }

    /// Whether the checksum is verified.
    pub closed spec fn verifies(&self) -> bool {
        self.verify
    }

    /// Whether nothing was read yet.
    pub closed spec fn at_start(&self) -> bool {
        self.stage is Header
    }

    /// The next request.
    pub closed spec fn wants(&self) -> IoRequest {
        match self.stage {
            Stage::Header => IoRequest::Read { len: 32 },
            Stage::Bounds(h) => IoRequest::Read { len: (8 * h.dims) as usize },
            Stage::FooterSeek(h, q) => IoRequest::Seek { offset: h.footer_offset },
            Stage::RowIds(h, q, ids) => IoRequest::Read { len: 8 },
            Stage::Checksum(h, q, ids) => IoRequest::Read { len: 32 },
            Stage::Data(reader, check) => check.wants(),
        }
    }

    /// The position of the next read.
    pub closed spec fn at(&self) -> nat {
        match self.stage {
            Stage::Header => 0,
            Stage::Bounds(h) => 32,
            Stage::FooterSeek(h, q) => h.footer_offset as nat,
            Stage::RowIds(h, q, ids) => (h.footer_offset + 8 * ids@.len()) as nat,
            Stage::Checksum(h, q, ids) => (h.footer_offset + 8 * h.vector_count) as nat,
            Stage::Data(reader, check) => check.at(),
        }
    }

    /// The verdict still to come, if the rest is read from `file`.
    pub closed spec fn ahead(&self, file: Seq<u8>) -> Verdict {
        match self.stage {
            Stage::Header => verdict(file, self.verify),
            Stage::Bounds(h) => after_header(h, file, self.verify),
            Stage::FooterSeek(h, q) => after_some_ids(h, q@, seq![], file, self.verify),
            Stage::RowIds(h, q, ids) => after_some_ids(h, q@, ids@, file, self.verify),
            Stage::Checksum(h, q, ids) => after_ids(h, q@, ids@, file, self.verify),
            Stage::Data(reader, check) => match check.ahead(file) {
                Ok(()) => Ok(reader@),
                Err(e) => Err(e),
            },
        }
    }

    /// What a failed request is reported as.
    pub closed spec fn failure(&self, eof: bool, text: Seq<char>) -> ErrorModel {
        match self.stage {
            Stage::RowIds(h, q, ids) => footer_failure(
                self.verify,
                "truncated row-id array: "@,
                eof,
                text,
            ),
            Stage::Checksum(h, q, ids) => footer_failure(
                self.verify,
                "truncated checksum: "@,
                eof,
                text,
            ),
            _ => ErrorModel::IoError { eof, text },
        }
    }

    /// How many stages are left, and how much is left of this one.
    pub closed spec fn left(&self) -> (nat, nat) {
        match self.stage {
            Stage::Header => (5, 0),
            Stage::Bounds(h) => (4, 0),
            Stage::FooterSeek(h, q) => (3, 0),
            Stage::RowIds(h, q, ids) => (2, (h.vector_count - ids@.len()) as nat),
            Stage::Checksum(h, q, ids) => (1, 0),
            Stage::Data(reader, check) => (0, check.left()),
        }
    }

    /// Start opening a file.
    pub fn new(verify: bool) -> (s: OpenSession)
        ensures
            s.wf(),
            s.verifies() == verify,
            s.at_start(),
            s.at() == 0,
            forall|file: Seq<u8>| #[trigger] s.ahead(file) == verdict(file, verify),
    {
        OpenSession { verify, stage: Stage::Header }
    }

    /// The next request.
    pub fn request(&self) -> (r: IoRequest)
        requires
            self.wf(),
        ensures
            r == self.wants(),
    {
        match &self.stage {
            Stage::Header => IoRequest::Read { len: HEADER_SIZE },
            Stage::Bounds(h) => IoRequest::Read { len: h.metadata_len() },
            Stage::FooterSeek(h, q) => IoRequest::Seek { offset: h.footer_offset },
            Stage::RowIds(h, q, ids) => IoRequest::Read { len: 8 },
            Stage::Checksum(h, q, ids) => IoRequest::Read { len: 32 },
            Stage::Data(reader, check) => check.request(),
        }
    }

    /// `p` is what the rest of `file` leads to.
    pub open spec fn leads_to(&self, file: Seq<u8>, p: OpenProgress) -> bool {
        match p {
            OpenProgress::Pending(s) => s.ahead(file) == self.ahead(file),
            OpenProgress::Opened(r) => self.ahead(file) == Ok::<ReaderModel, ErrorModel>(r@),
            OpenProgress::Refused(e) => self.ahead(file) == Err::<ReaderModel, ErrorModel>(e@),
        }
    }

    /// Progress keeps the session in order: it has read what it asked for, and has less to do.
    pub open spec fn advances_to(&self, p: OpenProgress) -> bool {
        p matches OpenProgress::Pending(s) ==> {
            &&& s.wf()
            &&& s.verifies() == self.verifies()
            &&& !s.at_start()
            &&& s.wants() is Read ==> s.at() == moved(self.at(), self.wants())
            &&& s.left().0 < self.left().0 || (s.left().0 == self.left().0 && s.left().1
                < self.left().1)
        }
    }

    /// Take in what came of the request.
    pub fn supply(self, event: IoEvent) -> (p: OpenProgress)
        requires
            self.wf(),
            fits(self.wants(), event),
            self.at_start() ==> (event matches IoEvent::Bytes(b) ==> (stored(b@) matches Ok(h)
                ==> measurable(h))),
        ensures
            event matches IoEvent::Failed(f) ==> (p matches OpenProgress::Refused(e) && e@
                == self.failure(f.eof, f.text@)),
            self.advances_to(p),
            forall|file: Seq<u8>|
                #![trigger self.ahead(file)]
                answers(file, self.at(), self.wants(), event) ==> self.leads_to(file, p),
    {
        match event {
            IoEvent::Failed(f) => self.fail(f),
            IoEvent::Sought => self.supply_position(),
            IoEvent::Bytes(b) => self.supply_bytes(b),
        }
    }

    fn fail(self, f: IoFailure) -> (p: OpenProgress)
        requires
            self.wf(),
        ensures
            p matches OpenProgress::Refused(e) && e@ == self.failure(f.eof, f.text@),
            f.eof && f.text@ == eof_text() && self.wants() is Read ==> forall|file: Seq<u8>|
                #![trigger self.ahead(file)]
                self.at() + self.wants()->len > file.len() ==> self.leads_to(file, p),
    {
        let verify: bool = self.verify;
        match self.stage {
            Stage::RowIds(h, q, ids) => OpenProgress::Refused(
                cut_off(verify, "truncated row-id array: ", f),
            ),
            Stage::Checksum(h, q, ids) => OpenProgress::Refused(
                cut_off(verify, "truncated checksum: ", f),
            ),
            Stage::Data(reader, check) => match check.supply(IoEvent::Failed(f)) {
                DataProgress::Done(Err(e)) => OpenProgress::Refused(e),
                _ => OpenProgress::Opened(reader),
            },
            _ => OpenProgress::Refused(CompactError::IoError { source: f }),
        }
    }

    fn supply_position(self) -> (p: OpenProgress)
        requires
            self.wf(),
            self.wants() is Seek,
        ensures
            self.advances_to(p),
            forall|file: Seq<u8>| #![trigger self.ahead(file)] self.leads_to(file, p),
    {
        let verify: bool = self.verify;
        match self.stage {
            Stage::FooterSeek(h, q) => {
                let ids: Vec<u64> = Vec::new();
                if h.vector_count == 0 {
                    OpenProgress::Pending(
                        OpenSession { verify, stage: Stage::Checksum(h, q, ids) },
                    )
                } else {
                    OpenProgress::Pending(OpenSession { verify, stage: Stage::RowIds(h, q, ids) })
                }
            },
            Stage::Data(reader, check) => proceed(verify, reader, check, IoEvent::Sought),
            other => OpenProgress::Pending(OpenSession { verify, stage: other }),
        }
    }

    fn supply_bytes(self, b: Vec<u8>) -> (p: OpenProgress)
        requires
            self.wf(),
            self.wants() matches IoRequest::Read { len } && b@.len() == len,
            self.at_start() ==> (stored(b@) matches Ok(h) ==> measurable(h)),
        ensures
            self.advances_to(p),
            forall|file: Seq<u8>|
                #![trigger self.ahead(file)]
                self.at() + b@.len() <= file.len() && b@ == file.subrange(
                    self.at() as int,
                    (self.at() + b@.len()) as int,
                ) ==> self.leads_to(file, p),
    {
        let verify: bool = self.verify;
        match self.stage {
            Stage::Header => take_header(verify, b),
            Stage::Bounds(h) => take_bounds(verify, h, b),
            Stage::RowIds(h, q, ids) => take_id(verify, h, q, ids, b),
            Stage::Checksum(h, q, ids) => take_checksum(verify, h, q, ids, b),
            Stage::Data(reader, check) => proceed(verify, reader, check, IoEvent::Bytes(b)),
            other => OpenProgress::Pending(OpenSession { verify, stage: other }),
        }
    }
}

/// The complaint about a failed read of the footer.
fn cut_off(verify: bool, what: &str, f: IoFailure) -> (e: CompactError)
    ensures
        e@ == footer_failure(verify, what@, f.eof, f.text@),
{
    if verify && f.eof {
        let mut s: String = what.to_owned();
        s.append(f.text.as_str());
        CompactError::CorruptedFooter(s)
    } else {
        CompactError::IoError { source: f }
    }
}

/// Go on verifying the data block.
fn proceed(verify: bool, reader: CompactReader, check: DataCheck, event: IoEvent) -> (p:
    OpenProgress)
    requires
        verify,
        check.wf(),
        check.header() == reader@.header,
        fits(check.wants(), event),
        event !is Failed,
    ensures
        ({
            let s = OpenSession { verify, stage: Stage::Data(reader, check) };
            &&& s.advances_to(p)
            &&& forall|file: Seq<u8>|
                #![trigger s.ahead(file)]
                answers(file, s.at(), s.wants(), event) ==> s.leads_to(file, p)
        }),
{
    let ghost s = OpenSession { verify, stage: Stage::Data(reader, check) };
    let ghost was = check;
    let ghost came = event;
    match check.supply(event) {
        DataProgress::Pending(next) => {
            let p = OpenProgress::Pending(
                OpenSession { verify, stage: Stage::Data(reader, next) },
            );
            assert forall|file: Seq<u8>|
                #![trigger s.ahead(file)]
                answers(file, s.at(), s.wants(), came) implies s.leads_to(file, p) by {
                assert(was.ahead(file) == next.ahead(file));
            }
            p
        },
        DataProgress::Done(Ok(())) => {
            let p = OpenProgress::Opened(reader);
            assert forall|file: Seq<u8>|
                #![trigger s.ahead(file)]
                answers(file, s.at(), s.wants(), came) implies s.leads_to(file, p) by {
                assert(was.ahead(file) is Ok);
            }
            p
        },
        DataProgress::Done(Err(e)) => {
            let p = OpenProgress::Refused(e);
            assert forall|file: Seq<u8>|
                #![trigger s.ahead(file)]
                answers(file, s.at(), s.wants(), came) implies s.leads_to(file, p) by {
                assert(was.ahead(file) == Err::<(), ErrorModel>(e@));
            }
            p
        },
    }
}

/// Take in the header.
fn take_header(verify: bool, b: Vec<u8>) -> (p: OpenProgress)
    requires
        b@.len() == 32,
        stored(b@) matches Ok(h) ==> measurable(h),
    ensures
        ({
            let s = OpenSession { verify, stage: Stage::Header };
            &&& s.advances_to(p)
            &&& forall|file: Seq<u8>|
                #![trigger s.ahead(file)]
                32 <= file.len() && b@ == file.subrange(0, 32) ==> s.leads_to(file, p)
        }),
{
    let ghost s = OpenSession { verify, stage: Stage::Header };
    assert forall|file: Seq<u8>|
        #![trigger s.ahead(file)]
        32 <= file.len() && b@ == file.subrange(0, 32) implies b@ == file.take(32) by {
        assert(file.subrange(0, 32) =~= file.take(32));
    }
    let h = match header::parse(&array_of(b.as_slice()), "dimensions must be > 0") {
        Ok(h) => h,
        Err(e) => return OpenProgress::Refused(e),
    };
    if h.vector_count > 0 && h.footer_offset < 32 + 8 * h.dims as u64 {
        let mut t: String = "footer_offset ".to_owned();
        push_decimal(&mut t, h.footer_offset);
        t.append(" before end of data block");
        return OpenProgress::Refused(CompactError::CorruptedFooter(t));
    }
    let min_footer: u64 = 32 + 8 * h.dims as u64 + h.data_len();
    if h.footer_offset < min_footer {
        let mut t: String = "footer_offset ".to_owned();
        push_decimal(&mut t, h.footer_offset);
        t.append(" < minimum ");
        push_decimal(&mut t, min_footer);
        t.append(" (truncated data block?)");
        return OpenProgress::Refused(CompactError::CorruptedFooter(t));
    }
    OpenProgress::Pending(OpenSession { verify, stage: Stage::Bounds(h) })
}

/// Take in the bounds.
fn take_bounds(verify: bool, h: Header, b: Vec<u8>) -> (p: OpenProgress)
    requires
        (OpenSession { verify, stage: Stage::Bounds(h) }).wf(),
        b@.len() == 8 * h.dims,
    ensures
        ({
            let s = OpenSession { verify, stage: Stage::Bounds(h) };
            &&& s.advances_to(p)
            &&& forall|file: Seq<u8>|
                #![trigger s.ahead(file)]
                32 + b@.len() <= file.len() && b@ == file.subrange(32, (32 + b@.len()) as int)
                    ==> s.leads_to(file, p)
        }),
{
    let ghost s = OpenSession { verify, stage: Stage::Bounds(h) };
    let half: usize = 4 * h.dims as usize;
    let all: usize = b.len();
    let mins = read_scalars(&b.as_slice()[0..half]);
    let maxs = read_scalars(&b.as_slice()[half..all]);
    let ghost bounds = Bounds { min: mins@, max: maxs@ };
    assert forall|file: Seq<u8>|
        #![trigger s.ahead(file)]
        32 + b@.len() <= file.len() && b@ == file.subrange(
            32,
            (32 + b@.len()) as int,
        ) implies bounds_in(file, h.dims as int) == bounds by {
        assert(b@.subrange(0, half as int) =~= file.subrange(32, 32 + 4 * h.dims));
        assert(b@.subrange(half as int, all as int) =~= file.subrange(
            32 + 4 * h.dims,
            32 + 8 * h.dims,
        ));
    }
    proof {
        law_bounds_accepted(bounds);
    }
    match Quantizer::new(mins, maxs) {
        Ok(q) => OpenProgress::Pending(OpenSession { verify, stage: Stage::FooterSeek(h, q) }),
        Err(e) => OpenProgress::Refused(e),
    }
}

proof fn lemma_next_id(h: Header, b: Bounds, ids: Seq<u64>, id: u64, file: Seq<u8>, verify: bool)
    requires
        ids.len() < h.vector_count,
        h.footer_offset + 8 * ids.len() + 8 <= file.len(),
        id == crate::bytes::unbe(
            file.subrange(
                h.footer_offset + 8 * ids.len(),
                h.footer_offset + 8 * ids.len() + 8,
            ),
        ),
    ensures
        after_some_ids(h, b, ids, file, verify) == after_some_ids(
            h,
            b,
            ids.push(id),
            file,
            verify,
        ),
{
    let from = h.footer_offset + 8 * ids.len();
    let to = h.footer_offset + 8 * h.vector_count;
    if file.len() >= to {
        let rest = file.subrange(from, to);
        assert(rest.subrange(0, 8) =~= file.subrange(from, from + 8));
        if from + 8 < to {
            let tail = file.subrange(from + 8, to);
            assert forall|i: int| 0 <= i < tail.len() / 8 implies ids_in(rest)[i + 1] == ids_in(
                tail,
            )[i] by {
                assert(rest.subrange(8 * (i + 1), 8 * (i + 1) + 8) =~= tail.subrange(
                    8 * i,
                    8 * i + 8,
                ));
            }
            assert(ids + ids_in(rest) =~= ids.push(id) + ids_in(tail));
        } else {
            assert(ids + ids_in(rest) =~= ids.push(id));
        }
    }
}

/// Take in one row identifier.
fn take_id(verify: bool, h: Header, q: Quantizer, ids: Vec<u64>, b: Vec<u8>) -> (p: OpenProgress)
    requires
        (OpenSession { verify, stage: Stage::RowIds(h, q, ids) }).wf(),
        b@.len() == 8,
    ensures
        ({
            let s = OpenSession { verify, stage: Stage::RowIds(h, q, ids) };
            &&& s.advances_to(p)
            &&& forall|file: Seq<u8>|
                #![trigger s.ahead(file)]
                s.at() + 8 <= file.len() && b@ == file.subrange(s.at() as int, s.at() as int + 8)
                    ==> s.leads_to(file, p)
        }),
{
    let ghost s = OpenSession { verify, stage: Stage::RowIds(h, q, ids) };
    let ghost before = ids@;
    let mut ids = ids;
    let id: u64 = read_be(b.as_slice(), 0, 8);
    assert(b@.subrange(0, 8) =~= b@);
    ids.push(id);
    assert forall|file: Seq<u8>|
        #![trigger s.ahead(file)]
        s.at() + 8 <= file.len() && b@ == file.subrange(
            s.at() as int,
            s.at() as int + 8,
        ) implies s.ahead(file) == after_some_ids(h, q@, ids@, file, verify) by {
        lemma_next_id(h, q@, before, id, file, verify);
    }
    if ids.len() as u64 == h.vector_count {
        OpenProgress::Pending(OpenSession { verify, stage: Stage::Checksum(h, q, ids) })
    } else {
        OpenProgress::Pending(OpenSession { verify, stage: Stage::RowIds(h, q, ids) })
    }
}

/// Take in the checksum.
fn take_checksum(verify: bool, h: Header, q: Quantizer, ids: Vec<u64>, b: Vec<u8>) -> (p:
    OpenProgress)
    requires
        (OpenSession { verify, stage: Stage::Checksum(h, q, ids) }).wf(),
        b@.len() == 32,
    ensures
        ({
            let s = OpenSession { verify, stage: Stage::Checksum(h, q, ids) };
            &&& s.advances_to(p)
            &&& forall|file: Seq<u8>|
                #![trigger s.ahead(file)]
                s.at() + 32 <= file.len() && b@ == file.subrange(s.at() as int, s.at() as int + 32)
                    ==> s.leads_to(file, p)
        }),
{
    let checksum: [u8; 32] = array_of(b.as_slice());
    let reader = CompactReader::assemble(h, q, ids, checksum);
    if verify {
        let check = DataCheck::new(h, checksum);
        OpenProgress::Pending(OpenSession { verify, stage: Stage::Data(reader, check) })
    } else {
        OpenProgress::Opened(reader)
    }
}

/// Outcome of opening, over what the file says.
pub open spec fn opening(r: Result<CompactReader>) -> Verdict {
    match r {
        Ok(reader) => Ok(reader@),
        Err(e) => Err(e@),
    }
}

/// The stored header of this file is measurable, if there is one.
pub open spec fn file_measurable(file: Seq<u8>) -> bool {
    file.len() >= 32 ==> (stored(file.take(32)) matches Ok(h) ==> measurable(h))
}

/// Whether the stored header of this file is measurable, if there is one.
pub fn is_measurable(file: &[u8]) -> (r: bool)
    ensures
        r == file_measurable(file@),
{
    match read_header(file) {
        Ok(h) => {
            let plain = h.to_plain();
            (plain.vector_count > 0 && plain.footer_offset < 32 + 8 * plain.dims as u64)
                || layout_fits(&plain)
        },
        Err(_) => true,
    }
}

/// The footer of a file that opens, verified or not, lies behind the data block, and every
/// position in the data block fits in 64 bits.
pub proof fn law_opened_file_has_its_footer_in_place(file: Seq<u8>, verify: bool)
    ensures
        verdict(file, verify) matches Ok(m) ==> m.header.data_end() <= m.header.footer_offset
            && m.addressable(),
{
}

/// A file that opens verified holds its whole data block.
pub proof fn law_opened_file_holds_its_data(file: Seq<u8>)
    ensures
        verdict(file, true) matches Ok(m) ==> m.addressable() && m.header.data_end()
            <= file.len(),
{
}

/// Open a file held in memory.
fn open_image(file: &[u8], verify: bool) -> (r: Result<CompactReader>)
    requires
        file_measurable(file@),
    ensures
        opening(r) == verdict(file@, verify),
{
    let mut session = OpenSession::new(verify);
    let mut at: u64 = 0;
    let size: usize = file.len();
    loop
        invariant
            size == file@.len(),
            session.wf(),
            session.verifies() == verify,
            session.at_start() ==> session.at() == 0,
            session.wants() is Read ==> session.at() == at,
            session.ahead(file@) == verdict(file@, verify),
            file_measurable(file@),
        decreases session.left().0, session.left().1,
    {
        let request = session.request();
        let event = serve(file, at, request);
        let ghost came = event;
        let ghost was = session;
        proof {
            session.lemma_start();
            if session.at_start() && came is Bytes {
                assert(file@.subrange(0, 32) =~= file@.take(32));
            }
        }
        match session.supply(event) {
            OpenProgress::Opened(r) => {
                assert(was.leads_to(file@, OpenProgress::Opened(r)));
                return Ok(r);
            },
            OpenProgress::Refused(e) => {
                assert(was.leads_to(file@, OpenProgress::Refused(e)));
                return Err(e);
            },
            OpenProgress::Pending(next) => {
                assert(was.leads_to(file@, OpenProgress::Pending(next)));
                assert(came !is Failed);
                match request {
                    IoRequest::Seek { offset } => {
                        at = offset;
                    },
                    IoRequest::Read { len } => {
                        at = at + len as u64;
                    },
                }
                session = next;
            },
        }
    }
}

impl OpenSession {
    proof fn lemma_start(&self)
        ensures
            self.at_start() ==> self.wants() == (IoRequest::Read { len: 32 }),
    {
    }
}

impl CompactReader {
    /// Open a file held in memory, and verify the position of its footer and its checksum.
    pub fn open(file: &[u8]) -> (r: Result<CompactReader>)
        requires
            file_measurable(file@),
        ensures
            opening(r) == verdict(file@, true),
    {
        open_image(file, true)
    }

    /// Open a file held in memory, and verify the position of its footer, but not its checksum.
    pub fn open_unverified(file: &[u8]) -> (r: Result<CompactReader>)
        requires
            file_measurable(file@),
        ensures
            opening(r) == verdict(file@, false),
    {
        open_image(file, false)
    }

    /// Open a file held in memory; the settings say whether to verify the checksum.
    pub fn open_with_config(file: &[u8], config: ReaderConfig) -> (r: Result<CompactReader>)
        requires
            file_measurable(file@),
        ensures
            opening(r) == verdict(file@, config.verify_checksum),
    {
        open_image(file, config.verify_checksum)
    }
}

} // verus!
