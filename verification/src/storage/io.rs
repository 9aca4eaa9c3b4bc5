//! Input as requests and events: what a reader asks of a file, and what came of it.
use crate::errors::{ErrorModel, IoFailure};
use vstd::prelude::*;

verus! {

/// What to do with the file next.
#[derive(Debug, Clone, Copy)]
pub enum IoRequest {
    /// Move to an absolute position.
    Seek { offset: u64 },
    /// Read exactly this many bytes, and move past them.
    Read { len: usize },
}

/// What came of a request.
#[derive(Debug)]
pub enum IoEvent {
    /// The position was reached.
    Sought,
    /// The bytes asked for.
    Bytes(Vec<u8>),
    /// The system refused.
    Failed(IoFailure),
}

/// The event can follow the request: the right kind, and the right number of bytes.
pub open spec fn fits(request: IoRequest, event: IoEvent) -> bool {
    match event {
        IoEvent::Sought => request is Seek,
        IoEvent::Bytes(b) => request matches IoRequest::Read { len } && b@.len() == len,
        IoEvent::Failed(_) => true,
    }
}

/// Description of a read past the end of a file.
pub open spec fn eof_text() -> Seq<char> {
    "failed to fill whole buffer"@
}

/// The failure of a read past the end of a file.
pub open spec fn eof_error() -> ErrorModel {
    ErrorModel::IoError { eof: true, text: eof_text() }
}

/// The bytes of a file between two positions; none where they are not in order.
pub open spec fn span(file: Seq<u8>, from: int, to: int) -> Seq<u8> {
    if from < to {
        file.subrange(from, to)
    } else {
        seq![]
    }
}

/// What a request at position `at` of a file of these contents gives.
pub open spec fn answers(file: Seq<u8>, at: nat, request: IoRequest, event: IoEvent) -> bool {
    match request {
        IoRequest::Seek { offset } => event is Sought,
        IoRequest::Read { len } => if at + len <= file.len() {
            event matches IoEvent::Bytes(b) && b@ == file.subrange(at as int, at + len)
        } else {
            event matches IoEvent::Failed(f) && f.eof && f.text@ == eof_text()
        },
    }
}

/// The position after a request was answered at position `at`.
pub open spec fn moved(at: nat, request: IoRequest) -> nat {
    match request {
        IoRequest::Seek { offset } => offset as nat,
        IoRequest::Read { len } => at + len as nat,
    }
}

/// A copy of `file[at..at + len]`, or the failure of a read past the end.
pub fn read_at(file: &[u8], at: u64, len: usize) -> (r: std::result::Result<Vec<u8>, IoFailure>)
    ensures
        match r {
            Ok(b) => at + len <= file@.len() && b@ == file@.subrange(at as int, at + len),
            Err(f) => at + len > file@.len() && f.eof && f.text@ == eof_text(),
        },
{
    let size: usize = file.len();
    if at > size as u64 || len > size - at as usize {
        return Err(
            IoFailure { eof: true, text: "failed to fill whole buffer".to_owned() },
        );
    }
    let from: usize = at as usize;
    let mut b: Vec<u8> = Vec::new();
    crate::bytes::push_all(&mut b, &file[from..from + len]);
    assert(b@ =~= file@.subrange(at as int, at + len));
    Ok(b)
}

/// Answer a request at position `at` of a file held in memory.
pub fn serve(file: &[u8], at: u64, request: IoRequest) -> (event: IoEvent)
    ensures
        answers(file@, at as nat, request, event),
        fits(request, event),
{
    match request {
        IoRequest::Seek { offset } => IoEvent::Sought,
        IoRequest::Read { len } => match read_at(file, at, len) {
            Ok(b) => IoEvent::Bytes(b),
            Err(f) => IoEvent::Failed(f),
        },
    }
}

} // verus!
