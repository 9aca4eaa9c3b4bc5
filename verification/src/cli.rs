//! The command line: what is asked for, and the texts that are shown.
use crate::errors::Result;
use crate::header::lemma_encoded_fields;
use crate::numerals::{parse_text, parses, unparsed, wide_reads, wide_text, Numerals};
use crate::quant::{repeated, Bounds, DistanceMetric, QuantType, Quantizer};
use crate::scalar::{one, zero, Scalar};
use crate::server::ratio_of;
use crate::server::{data_ratio, query_dims_message, query_dims_text};
use crate::storage::laws::law_written_file_opens;
use crate::storage::open::verdict;
use crate::storage::reader::{CompactReader, ReaderModel};
use crate::storage::writer::{fresh, law_pieces_make_the_file, CompactWriter, WriterModel};
use crate::text::{
    bool_text, chars_of, decimal, parse_uint, push_bool, push_decimal, rows, same, split,
    split_at_char, string_of, trim, trimmed, uint_value, views, IntFault,
};
use crate::wide::{Wide, WideArithmetic};
use vstd::prelude::*;

verus! {

/// Outcome of reading the command line: a value, or a message.
pub type Outcome<T> = std::result::Result<T, String>;

/// The commands.
#[derive(Debug, Clone, Copy, PartialEq, Eq, Structural)]
pub enum Command {
    Create,
    Info,
    Get,
    Search,
    Validate,
    Stats,
    Serve,
    Help,
}

/// The command of this name.
pub open spec fn command_named(name: Seq<char>) -> Option<Command> {
    if name == "create"@ {
        Some(Command::Create)
    } else if name == "info"@ {
        Some(Command::Info)
    } else if name == "get"@ {
        Some(Command::Get)
    } else if name == "search"@ {
        Some(Command::Search)
    } else if name == "validate"@ {
        Some(Command::Validate)
    } else if name == "stats"@ {
        Some(Command::Stats)
    } else if name == "serve"@ {
        Some(Command::Serve)
    } else if name == "help"@ || name == "--help"@ || name == "-h"@ {
        Some(Command::Help)
    } else {
        None
    }
}

/// Two texts, one after the other.
fn joined(a: &str, b: &str) -> (s: String)
    ensures
        s@ == a@ + b@,
{
    let mut s: String = a.to_owned();
    s.append(b);
    s
}

/// The command of this name.
pub fn parse_command(name: &str) -> (r: Outcome<Command>)
    ensures
        match r {
            Ok(c) => command_named(name@) == Some(c),
            Err(m) => command_named(name@) is None && m@ == "unknown command "@ + name@,
        },
{
    if same(name, "create") {
        Ok(Command::Create)
    } else if same(name, "info") {
        Ok(Command::Info)
    } else if same(name, "get") {
        Ok(Command::Get)
    } else if same(name, "search") {
        Ok(Command::Search)
    } else if same(name, "validate") {
        Ok(Command::Validate)
    } else if same(name, "stats") {
        Ok(Command::Stats)
    } else if same(name, "serve") {
        Ok(Command::Serve)
    } else if same(name, "help") || same(name, "--help") || same(name, "-h") {
        Ok(Command::Help)
    } else {
        Err(joined("unknown command ", name))
    }
}

// ---------------------------------------------------------------------------
// Metrics and numbers
// ---------------------------------------------------------------------------

/// What `str::to_lowercase` makes of a text.
pub uninterp spec fn lowercase_text(s: Seq<char>) -> Seq<char>;

/// The lower-case letter of an ASCII capital; other characters as they are.
pub open spec fn ascii_lower(c: char) -> char {
    if 65 <= c as int <= 90 {
        (c as int + 32) as char
    } else {
        c
    }
}

/// `str::to_lowercase`. The result depends on the text alone; in a text of ASCII characters,
/// every capital becomes its small letter and everything else stays.
#[verifier::external_body]
fn lowercase(s: &str) -> (r: String)
    ensures
        r@ == lowercase_text(s@),
        (forall|i: int| 0 <= i < s@.len() ==> (#[trigger] s@[i] as int) < 128) ==> r@ == Seq::new(
            s@.len(),
            |i: int| ascii_lower(s@[i]),
        ),
{
    s.to_lowercase()
}

/// The metric of a name in lower case.
pub open spec fn metric_named(lower: Seq<char>) -> Option<DistanceMetric> {
    if lower == "l2"@ || lower == "euclidean"@ {
        Some(DistanceMetric::L2)
    } else if lower == "cosine"@ || lower == "cos"@ {
        Some(DistanceMetric::Cosine)
    } else if lower == "ip"@ || lower == "inner"@ || lower == "innerproduct"@ {
        Some(DistanceMetric::InnerProduct)
    } else {
        None
    }
}

/// The metric of a name in lower case, or a message.
pub open spec fn metric_outcome(lower: Seq<char>) -> std::result::Result<
    DistanceMetric,
    Seq<char>,
> {
    match metric_named(lower) {
        Some(m) => Ok(m),
        None => Err("unknown metric "@ + lower + " (L2|cosine|ip)"@),
    }
}

/// An outcome with its message as a sequence.
pub open spec fn told<T>(r: Outcome<T>) -> std::result::Result<T, Seq<char>> {
    match r {
        Ok(v) => Ok(v),
        Err(m) => Err(m@),
    }
}

/// The metric of a name in lower case.
pub fn find_metric(lower: &str) -> (r: Outcome<DistanceMetric>)
    ensures
        told(r) == metric_outcome(lower@),
{
    if same(lower, "l2") || same(lower, "euclidean") {
        Ok(DistanceMetric::L2)
    } else if same(lower, "cosine") || same(lower, "cos") {
        Ok(DistanceMetric::Cosine)
    } else if same(lower, "ip") || same(lower, "inner") || same(lower, "innerproduct") {
        Ok(DistanceMetric::InnerProduct)
    } else {
        let mut m: String = "unknown metric ".to_owned();
        m.append(lower);
        m.append(" (L2|cosine|ip)");
        assert(m@ =~= "unknown metric "@ + lower@ + " (L2|cosine|ip)"@);
        Err(m)
    }
}

/// The metric of a name, in upper or lower case.
pub fn parse_metric(s: &str) -> (r: Outcome<DistanceMetric>)
    ensures
        told(r) == metric_outcome(lowercase_text(s@)),
        (forall|i: int| 0 <= i < s@.len() ==> (#[trigger] s@[i] as int) < 128) ==> told(r)
            == metric_outcome(Seq::new(s@.len(), |i: int| ascii_lower(s@[i]))),
{
    let lower = lowercase(s);
    find_metric(lower.as_str())
}

/// What is said of a text that is no integer of the wanted range.
pub open spec fn fault_text(f: IntFault) -> Seq<char> {
    match f {
        IntFault::Empty => "cannot parse integer from empty string"@,
        IntFault::InvalidDigit => "invalid digit found in string"@,
        IntFault::PosOverflow => "number too large to fit in target type"@,
    }
}

/// An unsigned integer not above `max`, or a message.
pub open spec fn number_outcome(s: Seq<char>, max: nat) -> std::result::Result<nat, Seq<char>> {
    match uint_value(s, max) {
        Ok(v) => Ok(v),
        Err(f) => Err(fault_text(f)),
    }
}

/// Read an unsigned integer not above `max`.
pub fn parse_number(s: &str, max: u64) -> (r: Outcome<u64>)
    ensures
        match r {
            Ok(v) => number_outcome(s@, max as nat) == Ok::<nat, Seq<char>>(v as nat) && v <= max,
            Err(m) => number_outcome(s@, max as nat) == Err::<nat, Seq<char>>(m@),
        },
{
    let chars = chars_of(s);
    match parse_uint(chars.as_slice(), max) {
        Ok(v) => Ok(v),
        Err(IntFault::Empty) => Err("cannot parse integer from empty string".to_owned()),
        Err(IntFault::InvalidDigit) => Err("invalid digit found in string".to_owned()),
        Err(IntFault::PosOverflow) => Err("number too large to fit in target type".to_owned()),
    }
}

/// The first `upto` pieces may be read as the numbers `q`.
pub open spec fn pieces_read<N: Numerals>(
    n: &N,
    pieces: Seq<Seq<char>>,
    upto: nat,
    q: Seq<Scalar>,
) -> bool {
    q.len() == upto && forall|i: int|
        0 <= i < upto ==> parses(n, trim(pieces[i]), #[trigger] q[i])
}

/// Piece `i` is the first that may be no number, with the complaint `msg`.
pub open spec fn piece_bad<N: Numerals>(
    n: &N,
    pieces: Seq<Seq<char>>,
    i: nat,
    q: Seq<Scalar>,
    msg: Seq<char>,
) -> bool {
    i < pieces.len() && pieces_read(n, pieces, i, q) && unparsed(n, trim(pieces[i as int]), msg)
}

/// Some piece may be no number, with the complaint `msg`.
pub open spec fn some_piece_bad<N: Numerals>(
    n: &N,
    pieces: Seq<Seq<char>>,
    msg: Seq<char>,
) -> bool {
    exists|i: nat, q: Seq<Scalar>| #[trigger] piece_bad(n, pieces, i, q, msg)
}

/// Numbers with commas in between may be read as `r`.
pub open spec fn vector_read_as<N: Numerals>(
    n: &N,
    text: Seq<char>,
    r: std::result::Result<Seq<Scalar>, Seq<char>>,
) -> bool {
    let pieces = split(text, ',');
    match r {
        Ok(q) => pieces_read(n, pieces, pieces.len(), q),
        Err(msg) => some_piece_bad(n, pieces, msg),
    }
}

/// An outcome over the numbers read.
pub open spec fn numbers_told(r: Outcome<Vec<Scalar>>) -> std::result::Result<
    Seq<Scalar>,
    Seq<char>,
> {
    match r {
        Ok(v) => Ok(v@),
        Err(m) => Err(m@),
    }
}

/// Read numbers with commas in between.
pub fn parse_vector<N: Numerals>(text: &str, n: &N) -> (r: Outcome<Vec<Scalar>>)
    ensures
        vector_read_as(n, text@, numbers_told(r)),
{
    let chars = chars_of(text);
    let pieces = split_at_char(chars.as_slice(), ',');
    let ghost all = rows(pieces@);
    let mut q: Vec<Scalar> = Vec::new();
    let mut i: usize = 0;
    while i < pieces.len()
        invariant
            all == rows(pieces@),
            all == split(text@, ','),
            i <= pieces@.len(),
            pieces_read(n, all, i as nat, q@),
        decreases pieces@.len() - i,
    {
        let piece = trimmed(pieces[i].as_slice());
        let s = string_of(piece.as_slice());
        assert(s@ == trim(all[i as int]));
        match parse_text(s.as_str(), n) {
            Ok(v) => {
                q.push(v);
            },
            Err(m) => {
                assert(piece_bad(n, all, i as nat, q@, m@));
                return Err(m);
            },
        }
        i += 1;
    }
    Ok(q)
}

// ---------------------------------------------------------------------------
// Arguments
// ---------------------------------------------------------------------------

/// Settings of a new file.
#[derive(Debug)]
pub struct CreateOptions {
    pub file: String,
    pub dims: usize,
    pub metric: DistanceMetric,
    pub align: bool,
}

/// Flags read so far.
pub ghost struct CreateFlags {
    pub dims: Option<nat>,
    pub metric: DistanceMetric,
    pub align: bool,
}

/// What the arguments from position `i` on add to `f`; the first offending one decides the
/// message.
pub open spec fn create_flags(args: Seq<Seq<char>>, i: nat, f: CreateFlags) -> std::result::Result<
    CreateFlags,
    Seq<char>,
>
    decreases args.len() - i,
{
    if i >= args.len() {
        Ok(f)
    } else if args[i as int] == "--dims"@ {
        if i + 1 >= args.len() {
            Err("--dims needs value"@)
        } else {
            match number_outcome(args[i as int + 1], usize::MAX as nat) {
                Ok(d) => create_flags(args, i + 2, CreateFlags { dims: Some(d), ..f }),
                Err(m) => Err(m),
            }
        }
    } else if args[i as int] == "--metric"@ {
        if i + 1 >= args.len() {
            Err("--metric needs value"@)
        } else {
            match metric_outcome(lowercase_text(args[i as int + 1])) {
                Ok(metric) => create_flags(args, i + 2, CreateFlags { metric, ..f }),
                Err(m) => Err(m),
            }
        }
    } else if args[i as int] == "--align"@ {
        create_flags(args, i + 1, CreateFlags { align: true, ..f })
    } else {
        Err("unknown flag "@ + args[i as int])
    }
}

/// Number of dimensions: eight, unless given.
pub open spec fn wanted_dims(f: CreateFlags) -> nat {
    match f.dims {
        Some(d) => d,
        None => 8,
    }
}

/// The arguments may be read as `r`.
pub open spec fn create_read(args: Seq<Seq<char>>, r: Outcome<CreateOptions>) -> bool {
    if args.len() == 0 {
        told(r) == Err::<CreateOptions, Seq<char>>(
            "create <file> [--dims N] [--metric M] [--align]"@,
        )
    } else {
        match create_flags(
            args,
            1,
            CreateFlags { dims: None, metric: DistanceMetric::L2, align: false },
        ) {
            Err(m) => told(r) == Err::<CreateOptions, Seq<char>>(m),
            Ok(f) => if 1 <= wanted_dims(f) <= 65535 {
                r matches Ok(o) && o.file@ == args[0] && o.dims == wanted_dims(f) && o.metric
                    == f.metric && o.align == f.align
            } else {
                told(r) == Err::<CreateOptions, Seq<char>>("dims must be 1..65535"@)
            },
        }
    }
}

/// Read the arguments of `create`.
pub fn parse_create(args: &Vec<String>) -> (r: Outcome<CreateOptions>)
    ensures
        create_read(views(args@), r),
{
    let ghost all = views(args@);
    if args.len() == 0 {
        return Err("create <file> [--dims N] [--metric M] [--align]".to_owned());
    }
    let mut dims: Option<usize> = None;
    let mut metric: DistanceMetric = DistanceMetric::L2;
    let mut align: bool = false;
    let mut i: usize = 1;
    let ghost start = create_flags(
        all,
        1,
        CreateFlags { dims: None, metric: DistanceMetric::L2, align: false },
    );
    while i < args.len()
        invariant
            all == views(args@),
            all.len() > 0,
            1 <= i <= args@.len(),
            start == create_flags(
                all,
                1,
                CreateFlags { dims: None, metric: DistanceMetric::L2, align: false },
            ),
            start == create_flags(
                all,
                i as nat,
                CreateFlags {
                    dims: match dims {
                        Some(d) => Some(d as nat),
                        None => None,
                    },
                    metric,
                    align,
                },
            ),
        decreases args@.len() - i,
    {
        let arg = args[i].as_str();
        assert(all[i as int] == arg@);
        if same(arg, "--dims") {
            if args.len() - i < 2 {
                return Err("--dims needs value".to_owned());
            }
            assert(all[i + 1] == args@[i + 1]@);
            match parse_number(args[i + 1].as_str(), usize::MAX as u64) {
                Ok(d) => {
                    dims = Some(d as usize);
                },
                Err(m) => return Err(m),
            }
            i += 2;
        } else if same(arg, "--metric") {
            if args.len() - i < 2 {
                return Err("--metric needs value".to_owned());
            }
            assert(all[i + 1] == args@[i + 1]@);
            match parse_metric(args[i + 1].as_str()) {
                Ok(m) => {
                    metric = m;
                },
                Err(m) => return Err(m),
            }
            i += 2;
        } else if same(arg, "--align") {
            align = true;
            i += 1;
        } else {
            return Err(joined("unknown flag ", arg));
        }
    }
    let d: usize = match dims {
        Some(d) => d,
        None => 8,
    };
    if d == 0 || d > 65535 {
        return Err("dims must be 1..65535".to_owned());
    }
    Ok(CreateOptions { file: args[0].as_str().to_owned(), dims: d, metric, align })
}

/// A search on the command line.
#[derive(Debug)]
pub struct SearchOptions {
    pub file: String,
    pub query: Vec<Scalar>,
    pub k: usize,
}

/// Flags read so far.
pub ghost struct SearchFlags {
    pub query: Option<Seq<Scalar>>,
    pub k: nat,
}

/// What the flags amount to, or a message.
pub type SearchRead = std::result::Result<SearchFlags, Seq<char>>;

/// The arguments from position `i` on may take `f` to `r`.
pub open spec fn search_flags<N: Numerals>(
    n: &N,
    args: Seq<Seq<char>>,
    i: nat,
    f: SearchFlags,
    r: SearchRead,
) -> bool
    decreases args.len() - i,
{
    if i >= args.len() {
        r == Ok::<SearchFlags, Seq<char>>(f)
    } else if args[i as int] == "--query"@ {
        if i + 1 >= args.len() {
            r == Err::<SearchFlags, Seq<char>>("--query needs value"@)
        } else {
            exists|q: std::result::Result<Seq<Scalar>, Seq<char>>| #[trigger]
                vector_read_as(n, args[i as int + 1], q) && match q {
                    Ok(v) => search_flags(
                        n,
                        args,
                        i + 2,
                        SearchFlags { query: Some(v), ..f },
                        r,
                    ),
                    Err(m) => r == Err::<SearchFlags, Seq<char>>(m),
                }
        }
    } else if args[i as int] == "--k"@ {
        if i + 1 >= args.len() {
            r == Err::<SearchFlags, Seq<char>>("--k needs value"@)
        } else {
            match number_outcome(args[i as int + 1], usize::MAX as nat) {
                Ok(k) => search_flags(n, args, i + 2, SearchFlags { k, ..f }, r),
                Err(m) => r == Err::<SearchFlags, Seq<char>>(m),
            }
        }
    } else {
        r == Err::<SearchFlags, Seq<char>>("unknown flag "@ + args[i as int])
    }
}

/// What the flags amount to is reported as `r`.
pub open spec fn search_reported(file: Seq<char>, f: SearchRead, r: Outcome<SearchOptions>) -> bool {
    match f {
        Err(m) => told(r) == Err::<SearchOptions, Seq<char>>(m),
        Ok(f) => match f.query {
            None => told(r) == Err::<SearchOptions, Seq<char>>("--query required"@),
            Some(q) => r matches Ok(o) && o.file@ == file && o.query@ == q && o.k == f.k,
        },
    }
}

/// The flags may be read as `f`, which is reported as `r`.
pub open spec fn search_flags_read<N: Numerals>(
    n: &N,
    args: Seq<Seq<char>>,
    r: Outcome<SearchOptions>,
) -> bool {
    exists|f: SearchRead| #[trigger]
        search_flags(n, args, 1, SearchFlags { query: None, k: 5 }, f) && search_reported(
            args[0],
            f,
            r,
        )
}

/// The arguments may be read as `r`.
pub open spec fn search_read<N: Numerals>(
    n: &N,
    args: Seq<Seq<char>>,
    r: Outcome<SearchOptions>,
) -> bool {
    if args.len() < 3 {
        told(r) == Err::<SearchOptions, Seq<char>>("search <file> --query x,y,z --k K"@)
    } else {
        search_flags_read(n, args, r)
    }
}

/// The rest of the arguments lead from `f` at position `i` to whatever they lead to from `g` at
/// position `j`.
spec fn leads<N: Numerals>(
    n: &N,
    args: Seq<Seq<char>>,
    i: nat,
    f: SearchFlags,
    j: nat,
    g: SearchFlags,
) -> bool {
    forall|r: SearchRead| #[trigger]
        search_flags(n, args, j, g, r) ==> search_flags(n, args, i, f, r)
}

/// Read the arguments of `search`.
pub fn parse_search<N: Numerals>(args: &Vec<String>, n: &N) -> (r: Outcome<SearchOptions>)
    ensures
        search_read(n, views(args@), r),
{
    let ghost all = views(args@);
    if args.len() < 3 {
        return Err("search <file> --query x,y,z --k K".to_owned());
    }
    let mut query: Option<Vec<Scalar>> = None;
    let mut k: usize = 5;
    let ghost start = SearchFlags { query: None, k: 5 };
    let ghost mut flags = start;
    let mut i: usize = 1;
    while i < args.len()
        invariant
            all == views(args@),
            all.len() >= 3,
            1 <= i <= args@.len(),
            start == (SearchFlags { query: None, k: 5 }),
            flags.k == k,
            match query {
                Some(q) => flags.query == Some(q@),
                None => flags.query is None,
            },
            leads(n, all, 1, start, i as nat, flags),
        decreases args@.len() - i,
    {
        let arg = args[i].as_str();
        assert(all[i as int] == arg@);
        if same(arg, "--query") {
            if args.len() - i < 2 {
                let m: String = "--query needs value".to_owned();
                assert(search_flags(
                    n,
                    all,
                    i as nat,
                    flags,
                    Err::<SearchFlags, Seq<char>>(m@),
                ));
                assert(search_flags_read(n, all, Err(m)));
                return Err(m);
            }
            assert(all[i + 1] == args@[i + 1]@);
            let r = parse_vector(args[i + 1].as_str(), n);
            let ghost told_q = numbers_told(r);
            assert(vector_read_as(n, all[i + 1], told_q));
            match r {
                Ok(v) => {
                    let ghost next = SearchFlags { query: Some(v@), ..flags };
                    proof {
                        assert forall|o: SearchRead| #[trigger]
                            search_flags(n, all, (i + 2) as nat, next, o) implies search_flags(
                            n,
                            all,
                            1,
                            start,
                            o,
                        ) by {
                            assert(vector_read_as(n, all[i + 1], Ok(v@)));
                            assert(search_flags(n, all, i as nat, flags, o));
                        }
                        assert(leads(n, all, 1, start, (i + 2) as nat, next));
                        flags = next;
                    }
                    query = Some(v);
                },
                Err(m) => {
                    assert(search_flags(
                        n,
                        all,
                        i as nat,
                        flags,
                        Err::<SearchFlags, Seq<char>>(m@),
                    ));
                    assert(search_flags_read(n, all, Err(m)));
                    return Err(m);
                },
            }
            i += 2;
        } else if same(arg, "--k") {
            if args.len() - i < 2 {
                let m: String = "--k needs value".to_owned();
                assert(search_flags(
                    n,
                    all,
                    i as nat,
                    flags,
                    Err::<SearchFlags, Seq<char>>(m@),
                ));
                assert(search_flags_read(n, all, Err(m)));
                return Err(m);
            }
            assert(all[i + 1] == args@[i + 1]@);
            match parse_number(args[i + 1].as_str(), usize::MAX as u64) {
                Ok(v) => {
                    k = v as usize;
                    proof {
                        let next = SearchFlags { k: v as nat, ..flags };
                        assert forall|o: SearchRead| #[trigger]
                            search_flags(n, all, (i + 2) as nat, next, o) implies search_flags(
                            n,
                            all,
                            1,
                            start,
                            o,
                        ) by {
                            assert(search_flags(n, all, i as nat, flags, o));
                        }
                        assert(leads(n, all, 1, start, (i + 2) as nat, next));
                        flags = next;
                    }
                },
                Err(m) => {
                    assert(search_flags(
                        n,
                        all,
                        i as nat,
                        flags,
                        Err::<SearchFlags, Seq<char>>(m@),
                    ));
                    assert(search_flags_read(n, all, Err(m)));
                    return Err(m);
                },
            }
            i += 2;
        } else {
            let m = joined("unknown flag ", arg);
            assert(search_flags(n, all, i as nat, flags, Err::<SearchFlags, Seq<char>>(m@)));
            assert(search_flags_read(n, all, Err(m)));
            return Err(m);
        }
    }
    proof {
        assert(search_flags(n, all, i as nat, flags, Ok::<SearchFlags, Seq<char>>(flags)));
        assert(search_flags(n, all, 1, start, Ok::<SearchFlags, Seq<char>>(flags)));
    }
    let r: Outcome<SearchOptions> = match query {
        Some(query) => Ok(SearchOptions { file: args[0].as_str().to_owned(), query, k }),
        None => Err("--query required".to_owned()),
    };
    assert(search_reported(all[0], Ok::<SearchFlags, Seq<char>>(flags), r));
    r
}

/// Settings of the server.
#[derive(Debug)]
pub struct ServeOptions {
    pub file: Option<String>,
    pub host: String,
    pub port: u16,
}

/// Settings read so far.
pub ghost struct ServeFlags {
    pub file: Option<Seq<char>>,
    pub host: Seq<char>,
    pub port: nat,
}

/// Whether a text begins with two dashes.
pub open spec fn is_flag(s: Seq<char>) -> bool {
    s.len() >= 2 && s[0] == '-' && s[1] == '-'
}

/// What the arguments from position `i` on add to `f`; the first offending one decides the
/// message.
pub open spec fn serve_flags(args: Seq<Seq<char>>, i: nat, f: ServeFlags) -> std::result::Result<
    ServeFlags,
    Seq<char>,
>
    decreases args.len() - i,
{
    if i >= args.len() {
        Ok(f)
    } else if args[i as int] == "--port"@ {
        if i + 1 >= args.len() {
            Err("--port needs value"@)
        } else {
            match number_outcome(args[i as int + 1], 65535) {
                Ok(port) => serve_flags(args, i + 2, ServeFlags { port, ..f }),
                Err(m) => Err(m),
            }
        }
    } else if args[i as int] == "--host"@ {
        if i + 1 >= args.len() {
            Err("--host needs value"@)
        } else {
            serve_flags(args, i + 2, ServeFlags { host: args[i as int + 1], ..f })
        }
    } else if is_flag(args[i as int]) {
        Err("unknown flag "@ + args[i as int])
    } else if f.file is Some {
        Err("extra arg "@ + args[i as int])
    } else {
        serve_flags(args, i + 1, ServeFlags { file: Some(args[i as int]), ..f })
    }
}

/// Settings of the server as sequences.
pub open spec fn serve_view(o: ServeOptions) -> ServeFlags {
    ServeFlags {
        file: match o.file {
            Some(f) => Some(f@),
            None => None,
        },
        host: o.host@,
        port: o.port as nat,
    }
}

fn begins_with_dashes(s: &str) -> (r: bool)
    ensures
        r == is_flag(s@),
{
    let c = chars_of(s);
    c.len() >= 2 && c[0] == '-' && c[1] == '-'
}

/// Read the arguments of `serve`.
pub fn parse_serve(args: &Vec<String>) -> (r: Outcome<ServeOptions>)
    ensures
        ({
            let start = ServeFlags { file: None, host: "127.0.0.1"@, port: 8080 };
            match r {
                Ok(o) => serve_flags(views(args@), 0, start) == Ok::<ServeFlags, Seq<char>>(
                    serve_view(o),
                ),
                Err(m) => serve_flags(views(args@), 0, start) == Err::<ServeFlags, Seq<char>>(m@),
            }
        }),
{
    let ghost all = views(args@);
    let mut o = ServeOptions { file: None, host: "127.0.0.1".to_owned(), port: 8080 };
    let ghost start = ServeFlags { file: None, host: "127.0.0.1"@, port: 8080 };
    let mut i: usize = 0;
    while i < args.len()
        invariant
            all == views(args@),
            i <= args@.len(),
            start == (ServeFlags { file: None, host: "127.0.0.1"@, port: 8080 }),
            serve_flags(all, 0, start) == serve_flags(all, i as nat, serve_view(o)),
        decreases args@.len() - i,
    {
        let arg = args[i].as_str();
        assert(all[i as int] == arg@);
        if same(arg, "--port") {
            if args.len() - i < 2 {
                return Err("--port needs value".to_owned());
            }
            assert(all[i + 1] == args@[i + 1]@);
            match parse_number(args[i + 1].as_str(), 65535) {
                Ok(p) => {
                    o.port = p as u16;
                },
                Err(m) => return Err(m),
            }
            i += 2;
        } else if same(arg, "--host") {
            if args.len() - i < 2 {
                return Err("--host needs value".to_owned());
            }
            assert(all[i + 1] == args@[i + 1]@);
            o.host = args[i + 1].as_str().to_owned();
            i += 2;
        } else if begins_with_dashes(arg) {
            return Err(joined("unknown flag ", arg));
        } else {
            if o.file.is_some() {
                return Err(joined("extra arg ", arg));
            }
            o.file = Some(arg.to_owned());
            i += 1;
        }
    }
    Ok(o)
}

/// The one argument that there must be, or the usage text.
pub fn only_argument(args: &Vec<String>, usage: &str) -> (r: Outcome<String>)
    ensures
        match r {
            Ok(s) => args@.len() == 1 && s@ == args@[0]@,
            Err(m) => args@.len() != 1 && m@ == usage@,
        },
{
    if args.len() != 1 {
        return Err(usage.to_owned());
    }
    Ok(args[0].as_str().to_owned())
}

/// The two arguments that there must be, or the usage text.
pub fn two_arguments(args: &Vec<String>, usage: &str) -> (r: Outcome<(String, String)>)
    ensures
        match r {
            Ok((a, b)) => args@.len() == 2 && a@ == args@[0]@ && b@ == args@[1]@,
            Err(m) => args@.len() != 2 && m@ == usage@,
        },
{
    if args.len() != 2 {
        return Err(usage.to_owned());
    }
    Ok((args[0].as_str().to_owned(), args[1].as_str().to_owned()))
}

/// Refuse a query of the wrong length.
pub fn check_query(query: usize, dims: usize) -> (r: Outcome<()>)
    ensures
        match r {
            Ok(()) => query == dims,
            Err(m) => query != dims && m@ == query_dims_text(query as nat, dims as nat),
        },
{
    if query != dims {
        return Err(query_dims_message(query, dims));
    }
    Ok(())
}

// ---------------------------------------------------------------------------
// A new file, and what is shown
// ---------------------------------------------------------------------------

/// Bounds from zero to one in every dimension.
pub open spec fn unit_bounds(dims: nat) -> Bounds {
    Bounds { min: Seq::new(dims, |i: int| zero()), max: Seq::new(dims, |i: int| one()) }
}

/// The model of a new file.
pub open spec fn new_file(dims: nat, metric: DistanceMetric) -> WriterModel {
    fresh(unit_bounds(dims), QuantType::SQ8, metric, 1, 0, false)
}

/// The bytes of a new file without vectors.
pub fn create_file(dims: usize, metric: DistanceMetric, align: bool) -> (r: Result<Vec<u8>>)
    requires
        1 <= dims <= 65535,
    ensures
        r matches Ok(b) && b@ == new_file(dims as nat, metric).file(align),
{
    let mins = repeated(zero(), dims);
    let maxs = repeated(one(), dims);
    let ghost bounds = unit_bounds(dims as nat);
    let q = match Quantizer::new(mins, maxs) {
        Ok(q) => q,
        Err(e) => {
            proof {
                crate::quant::law_bounds_accepted(bounds);
            }
            return Err(e);
        },
    };
    proof {
        crate::quant::law_bounds_accepted(bounds);
    }
    let (w, prefix) = match CompactWriter::create_with_version(q, QuantType::SQ8, metric, 1, 0) {
        Ok(p) => p,
        Err(e) => return Err(e),
    };
    let ghost m = w@;
    proof {
        assert(m == new_file(dims as nat, metric));
        assert(bounds.valid());
        assert(0 * m.dims() == 0) by (nonlinear_arith);
        law_pieces_make_the_file(m, align);
        lemma_encoded_fields(m.header(0, 0));
        assert(m.prefix() + m.data =~= m.prefix());
    }
    match w.finalize_with_padding(align) {
        Ok(f) => Ok(f.apply(prefix)),
        Err(e) => Err(e),
    }
}

/// A new file opens, and holds no vectors.
pub proof fn law_new_file_opens(dims: nat, metric: DistanceMetric, align: bool)
    requires
        1 <= dims <= 65535,
    ensures
        verdict(new_file(dims, metric).file(align), true) matches Ok(m) && m.header.dims == dims
            && m.header.vector_count == 0 && m.header.distance_metric == metric && m.bounds
            == unit_bounds(dims),
{
    let m = new_file(dims, metric);
    assert(0 * m.dims() == 0) by (nonlinear_arith);
    law_written_file_opens(m, align, true);
}

/// What is said of a new file.
pub open spec fn created_text(file: Seq<char>, dims: nat, metric: DistanceMetric, align: bool) -> Seq<
    char,
> {
    "created "@ + file + " dims="@ + decimal(dims) + " metric="@ + metric.name_text() + " align="@
        + bool_text(align)
}

/// What is said of a new file.
pub fn created_message(o: &CreateOptions) -> (s: String)
    ensures
        s@ == created_text(o.file@, o.dims as nat, o.metric, o.align),
{
    let mut s: String = "created ".to_owned();
    s.append(o.file.as_str());
    s.append(" dims=");
    push_decimal(&mut s, o.dims as u64);
    s.append(" metric=");
    s.append(o.metric.name());
    s.append(" align=");
    push_bool(&mut s, o.align);
    assert(s@ =~= created_text(o.file@, o.dims as nat, o.metric, o.align));
    s
}

/// The fields of a header in one line.
pub open spec fn header_text(h: crate::header::Header) -> Seq<char> {
    "Header { major: "@ + decimal(h.major as nat) + ", minor: "@ + decimal(h.minor as nat)
        + ", dims: "@ + decimal(h.dims as nat) + ", quant_type: "@ + h.quant_type.name_text()
        + ", distance_metric: "@ + h.distance_metric.name_text() + ", vector_count: "@ + decimal(
        h.vector_count as nat,
    ) + ", footer_offset: "@ + decimal(h.footer_offset as nat) + " }"@
}

/// The description of a file, a line to each of its properties.
pub open spec fn info_text(path: Seq<char>, m: ReaderModel) -> Seq<char> {
    "file: "@ + path + "\n  dims: "@ + decimal(m.header.dims as nat) + "\n  count: "@ + decimal(
        m.header.vector_count as nat,
    ) + "\n  quant: "@ + m.header.quant_type.name_text() + "\n  distance: "@
        + m.header.distance_metric.name_text() + "\n  footer_offset: "@ + decimal(
        m.header.footer_offset as nat,
    ) + "\n  header: "@ + header_text(m.header)
}

fn push_header(s: &mut String, h: &crate::storage::Header)
    ensures
        final(s)@ == old(s)@ + header_text(h.plain()),
{
    s.append("Header { major: ");
    push_decimal(s, h.major as u64);
    s.append(", minor: ");
    push_decimal(s, h.minor as u64);
    s.append(", dims: ");
    push_decimal(s, h.dims as u64);
    s.append(", quant_type: ");
    s.append(h.quant_type.name());
    s.append(", distance_metric: ");
    s.append(h.distance_metric.name());
    s.append(", vector_count: ");
    push_decimal(s, h.vector_count);
    s.append(", footer_offset: ");
    push_decimal(s, h.footer_offset);
    s.append(" }");
    assert(s@ =~= old(s)@ + header_text(h.plain()));
}

/// Describe a file.
pub fn describe(path: &str, reader: &CompactReader) -> (s: String)
    ensures
        s@ == info_text(path@, reader@),
{
    let h = reader.header();
    let mut s: String = "file: ".to_owned();
    s.append(path);
    s.append("\n  dims: ");
    push_decimal(&mut s, reader.dims() as u64);
    s.append("\n  count: ");
    push_decimal(&mut s, reader.len());
    s.append("\n  quant: ");
    s.append(reader.quant_type().name());
    s.append("\n  distance: ");
    s.append(reader.distance_metric().name());
    s.append("\n  footer_offset: ");
    push_decimal(&mut s, reader.footer_offset());
    s.append("\n  header: ");
    push_header(&mut s, &h);
    assert(s@ =~= info_text(path@, reader@));
    s
}

/// The sizes of a file, a line to each.
pub open spec fn sizes_text(path: Seq<char>, m: ReaderModel, size: nat, ratio: Seq<char>) -> Seq<
    char,
> {
    "file: "@ + path + "\n  file_size: "@ + decimal(size) + " B\n  data_bytes (quantized): "@
        + decimal(m.header.data_size()) + " B\n  original_bytes (f32): "@ + decimal(
        4 * m.header.data_size(),
    ) + " B\n  ratio: "@ + ratio + "x\n  dims: "@ + decimal(m.header.dims as nat) + " count: "@
        + decimal(m.header.vector_count as nat)
}

/// `text` may show the sizes of a file.
pub open spec fn sizes_shown<N: Numerals, W: WideArithmetic>(
    n: &N,
    w: &W,
    path: Seq<char>,
    m: ReaderModel,
    size: nat,
    text: Seq<char>,
) -> bool {
    exists|r: Wide, ratio: Seq<char>| #[trigger]
        data_ratio(w, m.header.data_size(), r) && #[trigger] wide_reads(n, r, 2, ratio) && text
            == sizes_text(path, m, size, ratio)
}

/// Show the sizes of a file.
pub fn describe_sizes<N: Numerals, W: WideArithmetic>(
    path: &str,
    reader: &CompactReader,
    file_size: u64,
    n: &N,
    w: &W,
) -> (s: String)
    requires
        reader@.addressable(),
        4 * reader@.header.data_size() <= u64::MAX,
    ensures
        sizes_shown(n, w, path@, reader@, file_size as nat, s@),
{
    let data: u64 = reader.data_len();
    let r = ratio_of(data, w);
    let ratio = wide_text(r, 2, n);
    let mut s: String = "file: ".to_owned();
    s.append(path);
    s.append("\n  file_size: ");
    push_decimal(&mut s, file_size);
    s.append(" B\n  data_bytes (quantized): ");
    push_decimal(&mut s, data);
    s.append(" B\n  original_bytes (f32): ");
    push_decimal(&mut s, data * 4);
    s.append(" B\n  ratio: ");
    s.append(ratio.as_str());
    s.append("x\n  dims: ");
    push_decimal(&mut s, reader.dims() as u64);
    s.append(" count: ");
    push_decimal(&mut s, reader.len());
    proof {
        assert(data_ratio(w, reader@.header.data_size(), r) && wide_reads(n, r, 2, ratio@));
        assert(s@ =~= sizes_text(path@, reader@, file_size as nat, ratio@));
    }
    s
}

} // verus!
