//! Verification of a data block against its checksum, chunk by chunk.
use crate::bytes::equal;
use crate::errors::{outcome, CompactError, ErrorModel, Result};
use crate::header::Header;
use crate::sha::{digest, Sha256};
use crate::storage::io::{answers, eof_error, fits, moved, span, IoEvent, IoRequest};
use vstd::prelude::*;

verus! {

/// Largest number of bytes hashed at a time.
pub const CHUNK: usize = 65536;

/// Whether data hashes to the checksum.
pub open spec fn judged(data: Seq<u8>, checksum: Seq<u8>) -> std::result::Result<(), ErrorModel> {
    if digest(data) == checksum {
        Ok(())
    } else {
        Err(ErrorModel::ChecksumMismatch { expected: checksum, found: digest(data) })
    }
}

/// The verdict on the data block of a file with header `h`.
pub open spec fn data_verdict(
    h: Header,
    checksum: Seq<u8>,
    file: Seq<u8>,
) -> std::result::Result<(), ErrorModel> {
    if h.data_size() > 0 && file.len() < h.data_end() {
        Err(eof_error())
    } else {
        judged(span(file, 32 + 8 * h.dims, h.data_end() as int), checksum)
    }
}

/// A verification in progress.
pub struct DataCheck {
    header: Header,
    checksum: [u8; 32],
    hasher: Sha256,
    remaining: u64,
    sought: bool,
}

/// What became of a verification after an event.
pub enum DataProgress {
    Pending(DataCheck),
    Done(Result<()>),
}

impl DataCheck {
    pub closed spec fn wf(&self) -> bool {
        &&& self.header.data_end() <= u64::MAX
        &&& self.hasher@.len() + self.remaining == self.header.data_size()
        &&& self.sought ==> self.remaining > 0
        &&& !self.sought ==> self.hasher@.len() == 0
    }

    /// The header whose data block is verified.
    pub closed spec fn header(&self) -> Header {
        self.header
    }

    /// The position of the next read.
    pub closed spec fn at(&self) -> nat {
        (self.header.data_end() - self.remaining) as nat
    }

    /// The next request.
    pub closed spec fn wants(&self) -> IoRequest {
        if !self.sought {
            IoRequest::Seek { offset: (32 + 8 * self.header.dims) as u64 }
        } else if self.remaining < 65536 {
            IoRequest::Read { len: self.remaining as usize }
        } else {
            IoRequest::Read { len: 65536 }
        }
    }

    /// The verdict still to come, if the rest is read from `file`.
    pub closed spec fn ahead(&self, file: Seq<u8>) -> std::result::Result<(), ErrorModel> {
        if self.remaining > 0 && file.len() < self.header.data_end() {
            Err(eof_error())
        } else {
            judged(
                self.hasher@ + span(file, self.at() as int, self.header.data_end() as int),
                self.checksum@,
            )
        }
    }

    /// What is left to do.
    pub closed spec fn left(&self) -> nat {
        if self.sought {
            self.remaining as nat
        } else {
            (self.remaining + 1) as nat
        }
    }

    /// A file too short for the next read fails the verification.
    pub proof fn lemma_short(&self, file: Seq<u8>)
        requires
            self.wf(),
            self.wants() is Read,
            self.at() + self.wants()->len > file.len(),
        ensures
            self.ahead(file) == Err::<(), ErrorModel>(eof_error()),
    {
    }

    /// Start verifying a data block.
    pub fn new(header: Header, checksum: [u8; 32]) -> (c: DataCheck)
        requires
            header.data_end() <= u64::MAX,
        ensures
            c.wf(),
            c.header() == header,
            c.wants() == (IoRequest::Seek { offset: (32 + 8 * header.dims) as u64 }),
            forall|file: Seq<u8>| #[trigger]
                c.ahead(file) == data_verdict(header, checksum@, file),
    {
        let c = DataCheck {
            header,
            checksum,
            hasher: Sha256::new(),
            remaining: header.data_len(),
            sought: false,
        };
        assert forall|file: Seq<u8>| #[trigger] c.ahead(file) == data_verdict(
            header,
            checksum@,
            file,
        ) by {
            assert(c.hasher@ + span(file, c.at() as int, header.data_end() as int) =~= span(
                file,
                32 + 8 * header.dims,
                header.data_end() as int,
            ));
        }
        c
    }

    /// The next request.
    pub fn request(&self) -> (r: IoRequest)
        requires
            self.wf(),
        ensures
            r == self.wants(),
    {
        if !self.sought {
            IoRequest::Seek { offset: 32 + 8 * self.header.dims as u64 }
        } else if self.remaining < CHUNK as u64 {
            IoRequest::Read { len: self.remaining as usize }
        } else {
            IoRequest::Read { len: CHUNK }
        }
    }

    /// The position of the next read.
    pub fn position(&self) -> (r: u64)
        requires
            self.wf(),
        ensures
            r == self.at(),
    {
        32 + 8 * self.header.dims as u64 + (self.header.data_len() - self.remaining)
    }

    fn finish(self) -> (r: Result<()>)
        requires
            self.remaining == 0,
        ensures
            outcome(r) == judged(self.hasher@, self.checksum@),
    {
        let found = self.hasher.finalize();
        if equal(found.as_slice(), self.checksum.as_slice()) {
            Ok(())
        } else {
            Err(CompactError::ChecksumMismatch { expected: self.checksum, found })
        }
    }

    /// Take in what came of the request. A failure ends the verification with it.
    pub fn supply(self, event: IoEvent) -> (p: DataProgress)
        requires
            self.wf(),
            fits(self.wants(), event),
        ensures
            event matches IoEvent::Failed(f) ==> p == DataProgress::Done(
                Err::<(), CompactError>(CompactError::IoError { source: f }),
            ),
            p matches DataProgress::Pending(c) ==> {
                &&& event !is Failed
                &&& c.wf()
                &&& c.header() == self.header()
                &&& c.left() < self.left()
                &&& c.at() == moved(self.at(), self.wants())
            },
            forall|file: Seq<u8>|
                #![trigger self.ahead(file)]
                answers(file, self.at(), self.wants(), event) ==> match p {
                    DataProgress::Pending(c) => c.ahead(file) == self.ahead(file),
                    DataProgress::Done(r) => outcome(r) == self.ahead(file),
                },
    {
        let ghost this = self;
        match event {
            IoEvent::Failed(f) => DataProgress::Done(Err(CompactError::IoError { source: f })),
            IoEvent::Sought => {
                if self.remaining == 0 {
                    let r = self.finish();
                    assert forall|file: Seq<u8>| outcome(r) == #[trigger] this.ahead(file) by {
                        lemma_at_end(this, file);
                    }
                    DataProgress::Done(r)
                } else {
                    DataProgress::Pending(DataCheck { sought: true, ..self })
                }
            },
            IoEvent::Bytes(b) => {
                let mut hasher = self.hasher;
                hasher.update(b.as_slice());
                let c = DataCheck {
                    header: self.header,
                    checksum: self.checksum,
                    hasher,
                    remaining: self.remaining - b.len() as u64,
                    sought: true,
                };
                let ghost next = c;
                assert forall|file: Seq<u8>|
                    #![trigger this.ahead(file)]
                    answers(file, this.at(), this.wants(), event) implies next.ahead(file)
                    == this.ahead(file) by {
                    lemma_chunk(this, next, file, b@);
                }
                if c.remaining == 0 {
                    let r = c.finish();
                    assert forall|file: Seq<u8>|
                        #![trigger this.ahead(file)]
                        answers(file, this.at(), this.wants(), event) implies outcome(r)
                        == this.ahead(file) by {
                        lemma_at_end(next, file);
                    }
                    DataProgress::Done(r)
                } else {
                    DataProgress::Pending(c)
                }
            },
        }
    }
}

proof fn lemma_at_end(c: DataCheck, file: Seq<u8>)
    requires
        c.remaining == 0,
    ensures
        c.ahead(file) == judged(c.hasher@, c.checksum@),
{
    let end = c.header.data_end() as int;
    assert(c.hasher@ + span(file, end, end) =~= c.hasher@);
}

proof fn lemma_chunk(c: DataCheck, next: DataCheck, file: Seq<u8>, b: Seq<u8>)
    requires
        c.wf(),
        b.len() <= c.remaining,
        c.remaining > 0,
        next.header == c.header,
        next.checksum == c.checksum,
        next.hasher@ == c.hasher@ + b,
        next.remaining == c.remaining - b.len(),
        c.at() + b.len() <= file.len(),
        b == file.subrange(c.at() as int, (c.at() + b.len()) as int),
    ensures
        next.ahead(file) == c.ahead(file),
{
    let end = c.header.data_end() as int;
    let at = c.at() as int;
    if file.len() >= end {
        assert(c.hasher@ + span(file, at, end) =~= next.hasher@ + span(
            file,
            next.at() as int,
            end,
        ));
    }
}

} // verus!
