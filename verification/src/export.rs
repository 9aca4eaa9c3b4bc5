//! Files as text.
use crate::cache::reads_back;
use crate::errors::{ErrorModel, Result};
use crate::numerals::{list_reads, list_text, Numerals};
use crate::scalar::{Arithmetic, Scalar};
use crate::storage::reader::{vector_fails, CompactReader, ReaderModel};
use vstd::prelude::*;

verus! {

/// The shape of an exported text.
#[derive(Debug, Clone, Copy, PartialEq, Eq, Structural)]
pub enum Layout {
    /// A list of lists.
    Json,
    /// One vector to a line, with commas.
    Csv,
}

/// `text` may be the line of a vector, with the end of the line.
pub open spec fn line_reads<N: Numerals>(
    n: &N,
    layout: Layout,
    v: Seq<Scalar>,
    last: bool,
    text: Seq<char>,
) -> bool {
    match layout {
        Layout::Json => json_line_reads(n, v, last, text),
        Layout::Csv => csv_line_reads(n, v, text),
    }
}

/// `text` may be a vector in brackets; a comma follows unless it is the last.
pub open spec fn json_line_reads<N: Numerals>(
    n: &N,
    v: Seq<Scalar>,
    last: bool,
    text: Seq<char>,
) -> bool {
    exists|list: Seq<char>| #[trigger]
        list_reads(n, v, 6, ", "@, list) && text == "  ["@ + list + "]"@ + (if last {
            ""@
        } else {
            ","@
        }) + "\n"@
}

/// `text` may be a vector with commas in between.
pub open spec fn csv_line_reads<N: Numerals>(n: &N, v: Seq<Scalar>, text: Seq<char>) -> bool {
    exists|list: Seq<char>| #[trigger] list_reads(n, v, 6, ","@, list) && text == list + "\n"@
}

/// The line of a vector.
pub fn export_line<N: Numerals>(layout: Layout, v: &[Scalar], last: bool, n: &N) -> (s: String)
    ensures
        line_reads(n, layout, v@, last, s@),
{
    match layout {
        Layout::Json => {
            let list = list_text(v, 6, ", ", n);
            let mut s: String = "  [".to_owned();
            s.append(list.as_str());
            s.append("]");
            if !last {
                s.append(",");
            }
            s.append("\n");
            proof {
                reveal_strlit("");
                assert(list_reads(n, v@, 6, ", "@, list@));
                assert(s@ =~= "  ["@ + list@ + "]"@ + (if last {
                    ""@
                } else {
                    ","@
                }) + "\n"@);
            }
            s
        },
        Layout::Csv => {
            let list = list_text(v, 6, ",", n);
            let mut s: String = String::new();
            s.append(list.as_str());
            s.append("\n");
            assert(list_reads(n, v@, 6, ","@, list@));
            assert(s@ =~= list@ + "\n"@);
            s
        },
    }
}

/// What stands before the vectors.
pub open spec fn preamble(layout: Layout) -> Seq<char> {
    match layout {
        Layout::Json => "[\n"@,
        Layout::Csv => ""@,
    }
}

/// What stands after the vectors.
pub open spec fn ending(layout: Layout) -> Seq<char> {
    match layout {
        Layout::Json => "]\n"@,
        Layout::Csv => ""@,
    }
}

/// What stands before the vectors.
pub fn export_start(layout: Layout) -> (s: &'static str)
    ensures
        s@ == preamble(layout),
{
    match layout {
        Layout::Json => "[\n",
        Layout::Csv => "",
    }
}

/// What stands after the vectors.
pub fn export_end(layout: Layout) -> (s: &'static str)
    ensures
        s@ == ending(layout),
{
    match layout {
        Layout::Json => "]\n",
        Layout::Csv => "",
    }
}

/// `text` may be the line of vector `i` of a file.
pub open spec fn vector_line<A: Arithmetic, N: Numerals>(
    x: &A,
    n: &N,
    layout: Layout,
    m: ReaderModel,
    file: Seq<u8>,
    i: u64,
    text: Seq<char>,
) -> bool {
    exists|v: Seq<Scalar>| #[trigger]
        reads_back(x, m, file, i, v) && line_reads(
            n,
            layout,
            v,
            i + 1 == m.header.vector_count,
            text,
        )
}

/// `text` may be the lines of the first `k` vectors of a file.
pub open spec fn vector_lines<A: Arithmetic, N: Numerals>(
    x: &A,
    n: &N,
    layout: Layout,
    m: ReaderModel,
    file: Seq<u8>,
    k: nat,
    text: Seq<char>,
) -> bool
    decreases k,
{
    if k == 0 {
        text == Seq::<char>::empty()
    } else {
        exists|before: Seq<char>, line: Seq<char>|
            vector_lines(x, n, layout, m, file, (k - 1) as nat, before) && #[trigger] vector_line(
                x,
                n,
                layout,
                m,
                file,
                (k - 1) as u64,
                line,
            ) && text == #[trigger] (before + line)
    }
}

proof fn lemma_one_more_line<A: Arithmetic, N: Numerals>(
    x: &A,
    n: &N,
    layout: Layout,
    m: ReaderModel,
    file: Seq<u8>,
    k: nat,
    before: Seq<char>,
    line: Seq<char>,
)
    requires
        k > 0,
        vector_lines(x, n, layout, m, file, (k - 1) as nat, before),
        vector_line(x, n, layout, m, file, (k - 1) as u64, line),
    ensures
        vector_lines(x, n, layout, m, file, k, before + line),
{
}

/// `text` may be a whole file.
pub open spec fn exports<A: Arithmetic, N: Numerals>(
    x: &A,
    n: &N,
    layout: Layout,
    m: ReaderModel,
    file: Seq<u8>,
    text: Seq<char>,
) -> bool {
    exists|lines: Seq<char>| #[trigger]
        vector_lines(x, n, layout, m, file, m.header.vector_count as nat, lines) && text
            == preamble(layout) + lines + ending(layout)
}

/// Vector `i` may be read.
pub open spec fn exportable<A: Arithmetic>(
    x: &A,
    m: ReaderModel,
    file: Seq<u8>,
    i: u64,
) -> bool {
    exists|v: Seq<Scalar>| #[trigger] reads_back(x, m, file, i, v)
}

/// Vector `i` is the first that may fail, with `e`.
pub open spec fn export_fails_at<A: Arithmetic>(
    x: &A,
    m: ReaderModel,
    file: Seq<u8>,
    i: u64,
    e: ErrorModel,
) -> bool {
    &&& i < m.header.vector_count
    &&& vector_fails(x, m, file, i, e)
    &&& forall|j: u64| j < i ==> #[trigger] exportable(x, m, file, j)
}

/// All vectors of a file held in memory as text.
pub fn export<A: Arithmetic, N: Numerals>(
    layout: Layout,
    reader: &CompactReader,
    file: &[u8],
    x: &A,
    n: &N,
) -> (r: Result<String>)
    requires
        reader@.addressable(),
    ensures
        match r {
            Ok(s) => exports(x, n, layout, reader@, file@, s@),
            Err(e) => exists|i: u64| #[trigger] export_fails_at(x, reader@, file@, i, e@),
        },
{
    let ghost m = reader@;
    let count: u64 = reader.len();
    let mut s: String = export_start(layout).to_owned();
    let ghost mut lines: Seq<char> = Seq::empty();
    let mut i: u64 = 0;
    assert(s@ =~= preamble(layout) + lines);
    while i < count
        invariant
            m == reader@,
            m.addressable(),
            count == m.header.vector_count,
            i <= count,
            s@ == preamble(layout) + lines,
            vector_lines(x, n, layout, m, file@, i as nat, lines),
            forall|j: u64| j < i ==> #[trigger] exportable(x, m, file@, j),
        decreases count - i,
    {
        match reader.get_vector(file, i, x) {
            Ok(v) => {
                let line = export_line(layout, v.as_slice(), i + 1 == count, n);
                s.append(line.as_str());
                proof {
                    assert(reads_back(x, m, file@, i, v@));
                    assert(exportable(x, m, file@, i));
                    assert(vector_line(x, n, layout, m, file@, i, line@));
                    lemma_one_more_line(x, n, layout, m, file@, (i + 1) as nat, lines, line@);
                    assert(s@ =~= preamble(layout) + (lines + line@));
                    lines = lines + line@;
                }
            },
            Err(e) => {
                assert(export_fails_at(x, m, file@, i, e@));
                return Err(e);
            },
        }
        i += 1;
    }
    s.append(export_end(layout));
    assert(vector_lines(x, n, layout, m, file@, m.header.vector_count as nat, lines));
    assert(s@ =~= preamble(layout) + lines + ending(layout));
    Ok(s)
}

/// All vectors of a file held in memory as a list of lists.
pub fn export_json<A: Arithmetic, N: Numerals>(
    reader: &CompactReader,
    file: &[u8],
    x: &A,
    n: &N,
) -> (r: Result<String>)
    requires
        reader@.addressable(),
    ensures
        match r {
            Ok(s) => exports(x, n, Layout::Json, reader@, file@, s@),
            Err(e) => exists|i: u64| #[trigger] export_fails_at(x, reader@, file@, i, e@),
        },
{
    export(Layout::Json, reader, file, x, n)
}

/// All vectors of a file held in memory, one to a line.
pub fn export_csv<A: Arithmetic, N: Numerals>(
    reader: &CompactReader,
    file: &[u8],
    x: &A,
    n: &N,
) -> (r: Result<String>)
    requires
        reader@.addressable(),
    ensures
        match r {
            Ok(s) => exports(x, n, Layout::Csv, reader@, file@, s@),
            Err(e) => exists|i: u64| #[trigger] export_fails_at(x, reader@, file@, i, e@),
        },
{
    export(Layout::Csv, reader, file, x, n)
}

} // verus!
