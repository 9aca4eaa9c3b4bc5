//! Serving files over HTTP: what a request asks for, and what it is answered.
use crate::cache::reads_back;
use crate::errors::{lossy, lossy_text, reads_as, CompactError, ErrorModel, IoFailure, Result};
use crate::numerals::{fixed_reads, fixed_text, list_reads, list_text, parse_text, parses};
use crate::numerals::{unparsed, wide_reads, wide_text, Numerals};
use crate::ranking::SearchResult;
use crate::scalar::{Arithmetic, Scalar};
use crate::search::{by_metric, searched};
use crate::server::wire::{error_body, json_error, json_escaped, parse_request, push_json};
use crate::server::wire::{query_pairs, request_line, value_of, Pair, Params, RequestLine};
use crate::storage::open::{file_measurable, law_opened_file_holds_its_data, verdict};
use crate::storage::reader::{hex_preview, vector_fails, CompactReader, ReaderModel};
use crate::text::{
    bool_text, chars_of, decimal, decimal_items, decimal_strings, hex_run, join, parse_uint,
    push_bool, push_decimal, push_join, rows, same, split, split_at_char, string_of, trim, trimmed,
    uint_value, views,
};
use crate::validate::{file_inspectable, inspection, validate, ReportModel, ValidationReport};
use crate::wide::{share, share_of, wide_zero, Wide, WideArithmetic};
use crate::rounding::wide::{
    law_share, lemma_wide_numbers, wide_finite, wide_grain, wide_rounding, wide_speck, wide_value,
};
use crate::rounding::{lemma_divide_out, lemma_quotient, lemma_times, size};
use vstd::prelude::*;

pub mod wire;

verus! {

// ---------------------------------------------------------------------------
// What a request asks for
// ---------------------------------------------------------------------------

/// The questions that can be asked of a file.
#[derive(Debug, Clone, Copy, PartialEq, Eq, Structural)]
pub enum Api {
    Info,
    Get,
    Search,
    Validate,
    Stats,
}

/// A question with its parameters.
#[derive(Debug)]
pub enum Task {
    Info,
    Get { id: u64 },
    Search { query: Vec<Scalar>, k: usize },
    Validate,
    Stats,
}

/// A question about the file at `path`.
#[derive(Debug)]
pub struct Job {
    pub path: String,
    pub task: Task,
}

/// A reply in JSON.
#[derive(Debug)]
pub struct Answer {
    pub status: &'static str,
    pub body: String,
}

/// What to do with a request.
#[derive(Debug)]
pub enum Plan {
    /// Send the page.
    Page,
    /// Send the style sheet.
    Style,
    /// Send this reply.
    Answer(Answer),
    /// Read the file, and send what [`run_job`] says.
    Job(Job),
}

impl Answer {
    /// This status with this body.
    pub open spec fn is(&self, status: Seq<char>, body: Seq<char>) -> bool {
        self.status@ == status && self.body@ == body
    }
}

/// The reply is an error with this status.
pub open spec fn refused(plan: Plan, status: Seq<char>, msg: Seq<char>) -> bool {
    plan matches Plan::Answer(a) && a.is(status, error_body(msg))
}

/// The task is `t` for the file at `path`.
pub open spec fn asks(plan: Plan, path: Seq<char>, t: Task) -> bool {
    plan matches Plan::Job(j) && j.path@ == path && j.task == t
}

fn refuse(status: &'static str, msg: &str) -> (plan: Plan)
    ensures
        refused(plan, status@, msg@),
{
    Plan::Answer(Answer { status, body: json_error(msg) })
}

/// The file asked for: the one named in the request, or else the preloaded one.
pub open spec fn wanted(pairs: Seq<Pair>, default_file: Option<Seq<char>>) -> Option<Seq<char>> {
    match value_of(pairs, "file"@) {
        Some(p) => Some(p),
        None => default_file,
    }
}

/// What is said where there is no file.
pub open spec fn no_file_text(api: Api) -> Seq<char> {
    match api {
        Api::Info =>
            "no file specified; start server with `bitcompact serve <file>` or use ?file=path"@,
        _ => "no file"@,
    }
}

/// How many neighbours are asked for: five, unless a number is given.
pub open spec fn wanted_count(pairs: Seq<Pair>) -> usize {
    match value_of(pairs, "k"@) {
        Some(t) => match uint_value(t, usize::MAX as nat) {
            Ok(v) => v as usize,
            Err(_) => 5,
        },
        None => 5,
    }
}

/// The first `n` pieces may be read as the numbers `q`; pieces that are no numbers are left
/// out.
pub open spec fn numbers_read<N: Numerals>(
    n: &N,
    pieces: Seq<Seq<char>>,
    upto: nat,
    q: Seq<Scalar>,
) -> bool
    decreases upto,
{
    if upto == 0 {
        q == Seq::<Scalar>::empty()
    } else {
        piece_left_out(n, pieces, upto, q) || piece_read(n, pieces, upto, q)
    }
}

/// The last piece may be no number.
pub open spec fn piece_left_out<N: Numerals>(
    n: &N,
    pieces: Seq<Seq<char>>,
    upto: nat,
    q: Seq<Scalar>,
) -> bool
    decreases upto, 0int,
    when upto > 0
{
    numbers_read(n, pieces, (upto - 1) as nat, q) && exists|msg: Seq<char>| #[trigger]
        unparsed(n, trim(pieces[upto - 1]), msg)
}

/// The last piece may be the last number.
pub open spec fn piece_read<N: Numerals>(
    n: &N,
    pieces: Seq<Seq<char>>,
    upto: nat,
    q: Seq<Scalar>,
) -> bool
    decreases upto, 0int,
    when upto > 0
{
    q.len() > 0 && parses(n, trim(pieces[upto - 1]), q.last()) && numbers_read(
        n,
        pieces,
        (upto - 1) as nat,
        q.drop_last(),
    )
}

/// `text` may be read as the numbers `q`, with commas in between.
pub open spec fn query_read<N: Numerals>(n: &N, text: Seq<char>, q: Seq<Scalar>) -> bool {
    let pieces = split(text, ',');
    numbers_read(n, pieces, pieces.len(), q)
}

/// A request for a vector may be planned so.
pub open spec fn get_planned(pairs: Seq<Pair>, path: Seq<char>, plan: Plan) -> bool {
    match value_of(pairs, "id"@) {
        None => refused(plan, "400 Bad Request"@, "missing id"@),
        Some(t) => match uint_value(t, u64::MAX as nat) {
            Ok(id) => asks(plan, path, Task::Get { id: id as u64 }),
            Err(_) => refused(plan, "400 Bad Request"@, "invalid id"@),
        },
    }
}

/// A search for `q` is planned so.
pub open spec fn search_asked(
    pairs: Seq<Pair>,
    path: Seq<char>,
    q: Seq<Scalar>,
    plan: Plan,
) -> bool {
    if q.len() == 0 {
        refused(plan, "400 Bad Request"@, "query empty or not floats"@)
    } else {
        &&& plan matches Plan::Job(j)
        &&& j.path@ == path
        &&& j.task matches Task::Search { query, k }
        &&& query@ == q
        &&& k == wanted_count(pairs)
    }
}

/// A search for what `text` may stand for is planned so.
pub open spec fn search_read<N: Numerals>(
    n: &N,
    pairs: Seq<Pair>,
    path: Seq<char>,
    text: Seq<char>,
    plan: Plan,
) -> bool {
    exists|q: Seq<Scalar>| #[trigger] query_read(n, text, q) && search_asked(pairs, path, q, plan)
}

/// A search may be planned so.
pub open spec fn search_planned<N: Numerals>(
    n: &N,
    pairs: Seq<Pair>,
    path: Seq<char>,
    plan: Plan,
) -> bool {
    match value_of(pairs, "query"@) {
        None => refused(plan, "400 Bad Request"@, "missing query (comma-separated floats)"@),
        Some(text) => search_read(n, pairs, path, text, plan),
    }
}

/// A question may be planned so.
pub open spec fn api_planned<N: Numerals>(
    n: &N,
    api: Api,
    pairs: Seq<Pair>,
    default_file: Option<Seq<char>>,
    plan: Plan,
) -> bool {
    match wanted(pairs, default_file) {
        None => refused(plan, "400 Bad Request"@, no_file_text(api)),
        Some(path) => match api {
            Api::Info => asks(plan, path, Task::Info),
            Api::Validate => asks(plan, path, Task::Validate),
            Api::Stats => asks(plan, path, Task::Stats),
            Api::Get => get_planned(pairs, path, plan),
            Api::Search => search_planned(n, pairs, path, plan),
        },
    }
}

/// Where a path leads.
pub ghost enum Route {
    Page,
    Style,
    Api(Api),
    Health,
    Unknown,
}

/// Where `path` leads.
pub open spec fn route(path: Seq<char>) -> Route {
    if path == "/"@ || path == "/index.html"@ {
        Route::Page
    } else if path == "/style.css"@ {
        Route::Style
    } else if path == "/api/info"@ {
        Route::Api(Api::Info)
    } else if path == "/api/get"@ {
        Route::Api(Api::Get)
    } else if path == "/api/search"@ {
        Route::Api(Api::Search)
    } else if path == "/api/validate"@ {
        Route::Api(Api::Validate)
    } else if path == "/api/stats"@ {
        Route::Api(Api::Stats)
    } else if path == "/api/health"@ {
        Route::Health
    } else {
        Route::Unknown
    }
}

/// A request may be planned so.
pub open spec fn planned<N: Numerals>(
    n: &N,
    line: RequestLine,
    default_file: Option<Seq<char>>,
    plan: Plan,
) -> bool {
    if line.method != "GET"@ {
        refused(plan, "405 Method Not Allowed"@, "only GET"@)
    } else {
        match route(line.path) {
            Route::Page => plan is Page,
            Route::Style => plan is Style,
            Route::Api(api) => api_planned(n, api, query_pairs(line.query), default_file, plan),
            Route::Health => plan matches Plan::Answer(a) && a.is(
                "200 OK"@,
                "{\"status\":\"ok\"}"@,
            ),
            Route::Unknown => refused(plan, "404 Not Found"@, "not found"@),
        }
    }
}

/// The view of an optional text.
pub open spec fn optional_view(s: Option<&str>) -> Option<Seq<char>> {
    match s {
        Some(t) => Some(t@),
        None => None,
    }
}

proof fn lemma_piece_read<N: Numerals>(
    n: &N,
    pieces: Seq<Seq<char>>,
    upto: nat,
    q: Seq<Scalar>,
    v: Scalar,
)
    requires
        numbers_read(n, pieces, upto, q),
        parses(n, trim(pieces[upto as int]), v),
    ensures
        numbers_read(n, pieces, upto + 1, q.push(v)),
{
    assert(q.push(v).drop_last() =~= q);
    assert(piece_read(n, pieces, upto + 1, q.push(v)));
}

proof fn lemma_piece_left_out<N: Numerals>(
    n: &N,
    pieces: Seq<Seq<char>>,
    upto: nat,
    q: Seq<Scalar>,
    msg: Seq<char>,
)
    requires
        numbers_read(n, pieces, upto, q),
        unparsed(n, trim(pieces[upto as int]), msg),
    ensures
        numbers_read(n, pieces, upto + 1, q),
{
    assert(piece_left_out(n, pieces, upto + 1, q));
}

/// Read numbers with commas in between; pieces that are no numbers are left out.
pub fn read_query<N: Numerals>(text: &str, n: &N) -> (q: Vec<Scalar>)
    ensures
        query_read(n, text@, q@),
{
    let chars = chars_of(text);
    let pieces = split_at_char(chars.as_slice(), ',');
    let ghost all = rows(pieces@);
    let mut q: Vec<Scalar> = Vec::new();
    let mut i: usize = 0;
    while i < pieces.len()
        invariant
            all == rows(pieces@),
            i <= pieces@.len(),
            numbers_read(n, all, i as nat, q@),
        decreases pieces@.len() - i,
    {
        let piece = trimmed(pieces[i].as_slice());
        let s = string_of(piece.as_slice());
        assert(s@ == trim(all[i as int]));
        match parse_text(s.as_str(), n) {
            Ok(v) => {
                proof {
                    lemma_piece_read(n, all, i as nat, q@, v);
                }
                q.push(v);
            },
            Err(msg) => {
                proof {
                    lemma_piece_left_out(n, all, i as nat, q@, msg@);
                }
            },
        }
        i += 1;
    }
    q
}

fn plan_get(params: &Params, path: String) -> (plan: Plan)
    ensures
        get_planned(params@, path@, plan),
{
    match params.get("id") {
        None => refuse("400 Bad Request", "missing id"),
        Some(t) => {
            let chars = chars_of(t);
            match parse_uint(chars.as_slice(), u64::MAX) {
                Ok(id) => Plan::Job(Job { path, task: Task::Get { id } }),
                Err(_) => refuse("400 Bad Request", "invalid id"),
            }
        },
    }
}

fn count_of(params: &Params) -> (k: usize)
    ensures
        k == wanted_count(params@),
{
    match params.get("k") {
        None => 5,
        Some(t) => {
            let chars = chars_of(t);
            match parse_uint(chars.as_slice(), usize::MAX as u64) {
                Ok(k) => k as usize,
                Err(_) => 5,
            }
        },
    }
}

fn plan_search<N: Numerals>(params: &Params, path: String, n: &N) -> (plan: Plan)
    ensures
        search_planned(n, params@, path@, plan),
{
    match params.get("query") {
        None => refuse("400 Bad Request", "missing query (comma-separated floats)"),
        Some(t) => {
            let k: usize = count_of(params);
            let query = read_query(t, n);
            let ghost q = query@;
            let ghost p = path@;
            let plan = if query.len() == 0 {
                refuse("400 Bad Request", "query empty or not floats")
            } else {
                Plan::Job(Job { path, task: Task::Search { query, k } })
            };
            assert(query_read(n, t@, q) && search_asked(params@, p, q, plan));
            plan
        },
    }
}

/// Plan a question.
pub fn plan_api<N: Numerals>(api: Api, params: &Params, default_file: Option<&str>, n: &N) -> (plan:
    Plan)
    ensures
        api_planned(n, api, params@, optional_view(default_file), plan),
{
    let path: String = match params.get("file") {
        Some(p) => p.to_owned(),
        None => match default_file {
            Some(p) => p.to_owned(),
            None => {
                return match api {
                    Api::Info => refuse(
                        "400 Bad Request",
                        "no file specified; start server with `bitcompact serve <file>` or use ?file=path",
                    ),
                    _ => refuse("400 Bad Request", "no file"),
                };
            },
        },
    };
    match api {
        Api::Info => Plan::Job(Job { path, task: Task::Info }),
        Api::Validate => Plan::Job(Job { path, task: Task::Validate }),
        Api::Stats => Plan::Job(Job { path, task: Task::Stats }),
        Api::Get => plan_get(params, path),
        Api::Search => plan_search(params, path, n),
    }
}

/// Plan a request, given as text.
pub fn plan_text<N: Numerals>(text: &str, default_file: Option<&str>, n: &N) -> (plan: Plan)
    ensures
        planned(n, request_line(text@), optional_view(default_file), plan),
{
    let request = parse_request(text);
    let path = request.path.as_str();
    if !same(request.method.as_str(), "GET") {
        return refuse("405 Method Not Allowed", "only GET");
    }
    if same(path, "/") || same(path, "/index.html") {
        return Plan::Page;
    }
    if same(path, "/style.css") {
        return Plan::Style;
    }
    let api: Api = if same(path, "/api/info") {
        Api::Info
    } else if same(path, "/api/get") {
        Api::Get
    } else if same(path, "/api/search") {
        Api::Search
    } else if same(path, "/api/validate") {
        Api::Validate
    } else if same(path, "/api/stats") {
        Api::Stats
    } else if same(path, "/api/health") {
        return Plan::Answer(
            Answer { status: "200 OK", body: "{\"status\":\"ok\"}".to_owned() },
        );
    } else {
        return refuse("404 Not Found", "not found");
    };
    plan_api(api, &request.params, default_file, n)
}

/// Plan a request, given as the bytes that came in.
pub fn plan_request<N: Numerals>(bytes: &[u8], default_file: Option<&str>, n: &N) -> (plan: Plan)
    ensures
        planned(n, request_line(lossy_text(bytes@)), optional_view(default_file), plan),
{
    let text = lossy(bytes);
    plan_text(text.as_str(), default_file, n)
}

// ---------------------------------------------------------------------------
// What a question is answered
// ---------------------------------------------------------------------------

/// What became of reading a file: its bytes, or why it could not be read.
pub open spec fn image_view(image: Image) -> std::result::Result<Seq<u8>, ErrorModel> {
    match image {
        Image::Bytes(b) => Ok(b@),
        Image::Unreadable(f) => Err(ErrorModel::IoError { eof: f.eof, text: f.text@ }),
    }
}

/// What became of reading a file.
#[derive(Debug)]
pub enum Image {
    Bytes(Vec<u8>),
    Unreadable(IoFailure),
}

/// The reply reports an error.
pub open spec fn failed<N: Numerals>(n: &N, e: ErrorModel, a: Answer) -> bool {
    exists|msg: Seq<char>| #[trigger]
        reads_as(e, n, msg) && a.is("500 Internal Server Error"@, error_body(msg))
}

fn fail<N: Numerals>(e: &CompactError, n: &N) -> (a: Answer)
    ensures
        failed(n, e@, a),
{
    let msg = e.message(n);
    let a = Answer { status: "500 Internal Server Error", body: json_error(msg.as_str()) };
    assert(reads_as(e@, n, msg@));
    a
}

/// The description of a file.
pub open spec fn info_body(path: Seq<char>, m: ReaderModel, size: nat) -> Seq<char> {
    "{\"path\":\""@ + json_escaped(path) + "\",\"dims\":"@ + decimal(m.header.dims as nat)
        + ",\"count\":"@ + decimal(m.header.vector_count as nat) + ",\"quant\":\""@
        + m.header.quant_type.name_text() + "\",\"distance\":\""@
        + m.header.distance_metric.name_text() + "\",\"major\":"@ + decimal(m.header.major as nat)
        + ",\"minor\":"@ + decimal(m.header.minor as nat) + ",\"footer_offset\":"@ + decimal(
        m.header.footer_offset as nat,
    ) + ",\"checksum\":\""@ + hex_run(m.checksum.take(8)).push('\u{2026}')
        + "\",\"file_size\":"@ + decimal(size) + "}"@
}

/// Describe a file.
pub fn render_info(path: &str, reader: &CompactReader, file_size: u64) -> (s: String)
    ensures
        s@ == info_body(path@, reader@, file_size as nat),
{
    let h = reader.header();
    let mut s: String = "{\"path\":\"".to_owned();
    push_json(&mut s, path);
    s.append("\",\"dims\":");
    push_decimal(&mut s, reader.dims() as u64);
    s.append(",\"count\":");
    push_decimal(&mut s, reader.len());
    s.append(",\"quant\":\"");
    s.append(reader.quant_type().name());
    s.append("\",\"distance\":\"");
    s.append(reader.distance_metric().name());
    s.append("\",\"major\":");
    push_decimal(&mut s, h.major as u64);
    s.append(",\"minor\":");
    push_decimal(&mut s, h.minor as u64);
    s.append(",\"footer_offset\":");
    push_decimal(&mut s, reader.footer_offset());
    s.append(",\"checksum\":\"");
    s.append(hex_preview(reader.checksum()).as_str());
    s.append("\",\"file_size\":");
    push_decimal(&mut s, file_size);
    s.append("}");
    assert(s@ =~= info_body(path@, reader@, file_size as nat));
    s
}

/// A vector, as bytes and as numbers.
pub open spec fn vector_body(id: nat, bytes: Seq<u8>, numbers: Seq<char>) -> Seq<char> {
    "{\"id\":"@ + decimal(id) + ",\"quantized\":["@ + join(decimal_items(bytes), ","@)
        + "],\"vector\":["@ + numbers + "]}"@
}

/// `text` may show vector `id` stored as `bytes` and read back as `v`.
pub open spec fn vector_shown<N: Numerals>(
    n: &N,
    id: nat,
    bytes: Seq<u8>,
    v: Seq<Scalar>,
    text: Seq<char>,
) -> bool {
    exists|numbers: Seq<char>| #[trigger]
        list_reads(n, v, 6, ","@, numbers) && text == vector_body(id, bytes, numbers)
}

/// Show a vector.
pub fn render_vector<N: Numerals>(id: u64, bytes: &[u8], v: &[Scalar], n: &N) -> (s: String)
    ensures
        vector_shown(n, id as nat, bytes@, v@, s@),
{
    let numbers = list_text(v, 6, ",", n);
    let items = decimal_strings(bytes);
    let mut s: String = "{\"id\":".to_owned();
    push_decimal(&mut s, id);
    s.append(",\"quantized\":[");
    push_join(&mut s, &items, ",");
    s.append("],\"vector\":[");
    s.append(numbers.as_str());
    s.append("]}");
    assert(list_reads(n, v@, 6, ","@, numbers@));
    assert(s@ =~= vector_body(id as nat, bytes@, numbers@));
    s
}

/// The complaint about an identifier that is too large.
pub open spec fn out_of_range_text(id: nat, count: nat) -> Seq<char> {
    "id "@ + decimal(id) + " out of range "@ + decimal(count)
}

/// The question for vector `id` of a file may be answered so.
pub open spec fn get_answered<A: Arithmetic, N: Numerals>(
    x: &A,
    n: &N,
    m: ReaderModel,
    file: Seq<u8>,
    id: u64,
    a: Answer,
) -> bool {
    if id >= m.header.vector_count {
        a.is(
            "404 Not Found"@,
            error_body(out_of_range_text(id as nat, m.header.vector_count as nat)),
        )
    } else {
        vector_sent(x, n, m, file, id, a) || vector_unsent(x, n, m, file, id, a)
    }
}

/// The reply shows the vector.
pub open spec fn vector_sent<A: Arithmetic, N: Numerals>(
    x: &A,
    n: &N,
    m: ReaderModel,
    file: Seq<u8>,
    id: u64,
    a: Answer,
) -> bool {
    exists|v: Seq<Scalar>| #[trigger]
        reads_back(x, m, file, id, v) && a.status@ == "200 OK"@ && vector_shown(
            n,
            id as nat,
            m.vector_bytes(file, id)->Ok_0,
            v,
            a.body@,
        )
}

/// The reply says why the vector cannot be read.
pub open spec fn vector_unsent<A: Arithmetic, N: Numerals>(
    x: &A,
    n: &N,
    m: ReaderModel,
    file: Seq<u8>,
    id: u64,
    a: Answer,
) -> bool {
    exists|e: ErrorModel| #[trigger] vector_fails(x, m, file, id, e) && failed(n, e, a)
}

fn answer_get<A: Arithmetic, N: Numerals>(
    reader: &CompactReader,
    file: &[u8],
    id: u64,
    x: &A,
    n: &N,
) -> (a: Answer)
    requires
        reader@.addressable(),
    ensures
        get_answered(x, n, reader@, file@, id, a),
{
    if id >= reader.len() {
        let mut msg: String = "id ".to_owned();
        push_decimal(&mut msg, id);
        msg.append(" out of range ");
        push_decimal(&mut msg, reader.len());
        assert(msg@ =~= out_of_range_text(id as nat, reader@.header.vector_count as nat));
        return Answer { status: "404 Not Found", body: json_error(msg.as_str()) };
    }
    let bytes = match reader.get_quantized(file, id) {
        Ok(bytes) => bytes,
        Err(e) => {
            assert(vector_fails(x, reader@, file@, id, e@));
            return fail(&e, n);
        },
    };
    match reader.get_vector(file, id, x) {
        Ok(v) => {
            let body = render_vector(id, bytes.as_slice(), v.as_slice(), n);
            assert(reads_back(x, reader@, file@, id, v@));
            Answer { status: "200 OK", body }
        },
        Err(e) => {
            assert(vector_fails(x, reader@, file@, id, e@));
            fail(&e, n)
        },
    }
}

/// `text` may show a search result.
pub open spec fn hit_shown<N: Numerals>(n: &N, h: SearchResult, text: Seq<char>) -> bool {
    exists|d: Seq<char>| #[trigger]
        fixed_reads(n, h.distance, 6, d) && text == "{\"id\":"@ + decimal(h.id as nat)
            + ",\"distance\":"@ + d + "}"@
}

/// `items` may show search results.
pub open spec fn hits_shown<N: Numerals>(
    n: &N,
    hits: Seq<SearchResult>,
    items: Seq<Seq<char>>,
) -> bool {
    items.len() == hits.len() && forall|i: int|
        0 <= i < hits.len() ==> hit_shown(n, hits[i], #[trigger] items[i])
}

/// A search and its results.
pub open spec fn search_body(query: Seq<char>, k: nat, hits: Seq<Seq<char>>) -> Seq<char> {
    "{\"query\":["@ + query + "],\"k\":"@ + decimal(k) + ",\"hits\":["@ + join(hits, ","@) + "]}"@
}

/// `text` may show the search for `query` and its results.
pub open spec fn search_shown<N: Numerals>(
    n: &N,
    query: Seq<Scalar>,
    k: nat,
    hits: Seq<SearchResult>,
    text: Seq<char>,
) -> bool {
    exists|q: Seq<char>, items: Seq<Seq<char>>| #[trigger]
        list_reads(n, query, 6, ","@, q) && #[trigger] hits_shown(n, hits, items) && text
            == search_body(q, k, items)
}

fn show_hit<N: Numerals>(h: &SearchResult, n: &N) -> (s: String)
    ensures
        hit_shown(n, *h, s@),
{
    let d = fixed_text(h.distance, 6, n);
    let mut s: String = "{\"id\":".to_owned();
    push_decimal(&mut s, h.id);
    s.append(",\"distance\":");
    s.append(d.as_str());
    s.append("}");
    assert(fixed_reads(n, h.distance, 6, d@));
    assert(s@ =~= "{\"id\":"@ + decimal(h.id as nat) + ",\"distance\":"@ + d@ + "}"@);
    s
}

/// Show a search and its results.
pub fn render_search<N: Numerals>(query: &[Scalar], k: usize, hits: &[SearchResult], n: &N) -> (s:
    String)
    ensures
        search_shown(n, query@, k as nat, hits@, s@),
{
    let mut items: Vec<String> = Vec::new();
    let mut i: usize = 0;
    while i < hits.len()
        invariant
            i <= hits@.len(),
            items@.len() == i,
            forall|j: int| 0 <= j < i ==> hit_shown(n, hits@[j], (#[trigger] items@[j])@),
        decreases hits@.len() - i,
    {
        items.push(show_hit(&hits[i], n));
        i += 1;
    }
    let q = list_text(query, 6, ",", n);
    let mut s: String = "{\"query\":[".to_owned();
    s.append(q.as_str());
    s.append("],\"k\":");
    push_decimal(&mut s, k as u64);
    s.append(",\"hits\":[");
    push_join(&mut s, &items, ",");
    s.append("]}");
    proof {
        assert(list_reads(n, query@, 6, ","@, q@));
        assert(hits_shown(n, hits@, views(items@)));
        assert(s@ =~= search_body(q@, k as nat, views(items@)));
    }
    s
}

/// The complaint about a query of the wrong length.
pub open spec fn query_dims_text(query: nat, dims: nat) -> Seq<char> {
    "query dims "@ + decimal(query) + " != file dims "@ + decimal(dims)
}

/// The complaint about a query of the wrong length.
pub fn query_dims_message(query: usize, dims: usize) -> (s: String)
    ensures
        s@ == query_dims_text(query as nat, dims as nat),
{
    let mut s: String = "query dims ".to_owned();
    push_decimal(&mut s, query as u64);
    s.append(" != file dims ");
    push_decimal(&mut s, dims as u64);
    assert(s@ =~= query_dims_text(query as nat, dims as nat));
    s
}

/// A search that came out as `r` is answered so.
pub open spec fn search_reported<N: Numerals>(
    n: &N,
    query: Seq<Scalar>,
    k: nat,
    r: Result<Vec<SearchResult>>,
    a: Answer,
) -> bool {
    match r {
        Ok(hits) => a.status@ == "200 OK"@ && search_shown(n, query, k, hits@, a.body@),
        Err(e) => failed(n, e@, a),
    }
}

/// The search may be made and answered so.
pub open spec fn search_made<A: Arithmetic, N: Numerals>(
    x: &A,
    n: &N,
    m: ReaderModel,
    file: Seq<u8>,
    query: Seq<Scalar>,
    k: nat,
    a: Answer,
) -> bool {
    let j = by_metric(x, m.header.distance_metric, query);
    exists|r: Result<Vec<SearchResult>>| #[trigger]
        searched(x, j, m, file, false, query.len(), k, r) && search_reported(n, query, k, r, a)
}

/// The question for the nearest vectors may be answered so.
pub open spec fn search_answered<A: Arithmetic, N: Numerals>(
    x: &A,
    n: &N,
    m: ReaderModel,
    file: Seq<u8>,
    query: Seq<Scalar>,
    k: nat,
    a: Answer,
) -> bool {
    if query.len() != m.header.dims {
        a.is(
            "400 Bad Request"@,
            error_body(query_dims_text(query.len(), m.header.dims as nat)),
        )
    } else {
        search_made(x, n, m, file, query, k, a)
    }
}

fn answer_search<A: Arithmetic, N: Numerals>(
    reader: &CompactReader,
    file: &[u8],
    query: &[Scalar],
    k: usize,
    x: &A,
    n: &N,
) -> (a: Answer)
    requires
        reader@.addressable(),
    ensures
        search_answered(x, n, reader@, file@, query@, k as nat, a),
{
    if query.len() != reader.dims() {
        let msg = query_dims_message(query.len(), reader.dims());
        return Answer { status: "400 Bad Request", body: json_error(msg.as_str()) };
    }
    let r = reader.search(file, query, k, x);
    let a = match &r {
        Ok(hits) => Answer {
            status: "200 OK",
            body: render_search(query, k, hits.as_slice(), n),
        },
        Err(e) => fail(e, n),
    };
    assert(searched(
        x,
        by_metric(x, reader@.header.distance_metric, query@),
        reader@,
        file@,
        false,
        query@.len(),
        k as nat,
        r,
    ) && search_reported(n, query@, k as nat, r, a));
    a
}

/// Each text within quotes.
pub open spec fn json_strings(items: Seq<Seq<char>>) -> Seq<Seq<char>> {
    Seq::new(items.len(), |i: int| "\""@ + json_escaped(items[i]) + "\""@)
}

/// The findings of an inspection.
pub open spec fn report_body(r: ReportModel) -> Seq<char> {
    "{\"path\":\""@ + json_escaped(r.path) + "\",\"dims\":"@ + decimal(r.dims) + ",\"count\":"@
        + decimal(r.count) + ",\"footer_offset\":"@ + decimal(r.footer_offset)
        + ",\"file_size\":"@ + decimal(r.file_size) + ",\"checksum_valid\":"@ + bool_text(
        r.checksum_valid,
    ) + ",\"row_ids_monotonic\":"@ + bool_text(r.row_ids_monotonic) + ",\"metadata_finite\":"@
        + bool_text(r.metadata_finite) + ",\"is_valid\":"@ + bool_text(r.valid())
        + ",\"warnings\":["@ + join(json_strings(r.warnings), ","@) + "]}"@
}

/// Show the findings of an inspection.
pub fn render_report(r: &ValidationReport) -> (s: String)
    ensures
        s@ == report_body(r@),
{
    let mut items: Vec<String> = Vec::new();
    let mut i: usize = 0;
    while i < r.warnings.len()
        invariant
            i <= r.warnings@.len(),
            items@.len() == i,
            forall|j: int|
                0 <= j < i ==> (#[trigger] items@[j])@ == "\""@ + json_escaped(r.warnings@[j]@)
                    + "\""@,
        decreases r.warnings@.len() - i,
    {
        let mut one: String = "\"".to_owned();
        push_json(&mut one, r.warnings[i].as_str());
        one.append("\"");
        items.push(one);
        i += 1;
    }
    assert(views(items@) =~= json_strings(r@.warnings));
    let mut s: String = "{\"path\":\"".to_owned();
    push_json(&mut s, r.path.as_str());
    s.append("\",\"dims\":");
    push_decimal(&mut s, r.dims as u64);
    s.append(",\"count\":");
    push_decimal(&mut s, r.count);
    s.append(",\"footer_offset\":");
    push_decimal(&mut s, r.footer_offset);
    s.append(",\"file_size\":");
    push_decimal(&mut s, r.file_size);
    s.append(",\"checksum_valid\":");
    push_bool(&mut s, r.checksum_valid);
    s.append(",\"row_ids_monotonic\":");
    push_bool(&mut s, r.row_ids_monotonic);
    s.append(",\"metadata_finite\":");
    push_bool(&mut s, r.metadata_finite);
    s.append(",\"is_valid\":");
    push_bool(&mut s, r.is_valid());
    s.append(",\"warnings\":[");
    push_join(&mut s, &items, ",");
    s.append("]}");
    assert(s@ =~= report_body(r@));
    s
}

/// Sizes of a file: as stored, and as it would be without quantization.
pub open spec fn stats_body(path: Seq<char>, m: ReaderModel, size: nat, ratio: Seq<char>) -> Seq<
    char,
> {
    "{\"path\":\""@ + json_escaped(path) + "\",\"dims\":"@ + decimal(m.header.dims as nat)
        + ",\"count\":"@ + decimal(m.header.vector_count as nat) + ",\"file_size\":"@ + decimal(
        size,
    ) + ",\"data_bytes\":"@ + decimal(m.header.data_size()) + ",\"original_bytes\":"@ + decimal(
        4 * m.header.data_size(),
    ) + ",\"ratio\":"@ + ratio + "}"@
}

/// How many times smaller the data block is may come out as `r`; zero if it is empty.
pub open spec fn data_ratio<W: WideArithmetic>(w: &W, data: nat, r: Wide) -> bool {
    if data == 0 {
        r == wide_zero()
    } else {
        share(w, (4 * data) as u64, data as u64, r)
    }
}

/// A data block is four times smaller than what it stores, up to rounding.
pub proof fn law_data_ratio<W: WideArithmetic>(w: &W, data: nat, r: Wide)
    requires
        wide_rounding(w),
        0 < data <= 0x8_0000_0000_0000,
        data_ratio(w, data, r),
    ensures
        wide_finite(r),
        size(wide_value(r) - 4real) <= 5real * wide_grain(),
{
    lemma_wide_numbers();
    law_share(w, (4 * data) as u64, data as u64, r);
    let c = data as real;
    let q = (4 * data) as real / c;
    lemma_quotient((4 * data) as real, c);
    lemma_divide_out(q, 4real, c);
    lemma_divide_out(4real, q, c);
    lemma_times(wide_speck(), 1real, wide_grain());
}

/// How many times smaller a data block of `data` bytes is.
pub fn ratio_of<W: WideArithmetic>(data: u64, w: &W) -> (r: Wide)
    requires
        4 * data <= u64::MAX,
    ensures
        data_ratio(w, data as nat, r),
{
    if data == 0 {
        wide_zero()
    } else {
        share_of(data * 4, data, w)
    }
}

/// `text` may show the sizes of a file.
pub open spec fn stats_shown<N: Numerals, W: WideArithmetic>(
    n: &N,
    w: &W,
    path: Seq<char>,
    m: ReaderModel,
    size: nat,
    text: Seq<char>,
) -> bool {
    exists|r: Wide, ratio: Seq<char>| #[trigger]
        data_ratio(w, m.header.data_size(), r) && #[trigger] wide_reads(n, r, 2, ratio) && text
            == stats_body(path, m, size, ratio)
}

/// Show the sizes of a file.
pub fn render_stats<N: Numerals, W: WideArithmetic>(
    path: &str,
    reader: &CompactReader,
    file_size: u64,
    n: &N,
    w: &W,
) -> (s: String)
    requires
        reader@.addressable(),
        4 * reader@.header.data_size() <= u64::MAX,
    ensures
        stats_shown(n, w, path@, reader@, file_size as nat, s@),
{
    let data: u64 = reader.data_len();
    let r = ratio_of(data, w);
    let ratio = wide_text(r, 2, n);
    let mut s: String = "{\"path\":\"".to_owned();
    push_json(&mut s, path);
    s.append("\",\"dims\":");
    push_decimal(&mut s, reader.dims() as u64);
    s.append(",\"count\":");
    push_decimal(&mut s, reader.len());
    s.append(",\"file_size\":");
    push_decimal(&mut s, file_size);
    s.append(",\"data_bytes\":");
    push_decimal(&mut s, data);
    s.append(",\"original_bytes\":");
    push_decimal(&mut s, data * 4);
    s.append(",\"ratio\":");
    s.append(ratio.as_str());
    s.append("}");
    proof {
        assert(data_ratio(w, reader@.header.data_size(), r) && wide_reads(n, r, 2, ratio@));
        assert(s@ =~= stats_body(path@, reader@, file_size as nat, ratio@));
    }
    s
}

/// A question about an opened file may be answered so.
pub open spec fn opened_answered<A: Arithmetic, N: Numerals, W: WideArithmetic>(
    x: &A,
    n: &N,
    w: &W,
    job: Job,
    m: ReaderModel,
    file: Seq<u8>,
    size: nat,
    a: Answer,
) -> bool {
    match job.task {
        Task::Info => a.is("200 OK"@, info_body(job.path@, m, size)),
        Task::Get { id } => get_answered(x, n, m, file, id, a),
        Task::Search { query, k } => search_answered(x, n, m, file, query@, k as nat, a),
        Task::Stats => a.status@ == "200 OK"@ && stats_shown(n, w, job.path@, m, size, a.body@),
        Task::Validate => false,
    }
}

/// A question about a file may be answered so.
pub open spec fn job_answered<A: Arithmetic, N: Numerals, W: WideArithmetic>(
    x: &A,
    n: &N,
    w: &W,
    job: Job,
    image: std::result::Result<Seq<u8>, ErrorModel>,
    size: nat,
    a: Answer,
) -> bool {
    match image {
        Err(e) => failed(n, e, a),
        Ok(file) => match job.task {
            Task::Validate => match inspection(job.path@, file.len(), file) {
                Ok(r) => a.is("200 OK"@, report_body(r)),
                Err(e) => failed(n, e, a),
            },
            _ => match verdict(file, true) {
                Ok(m) => opened_answered(x, n, w, job, m, file, size, a),
                Err(e) => failed(n, e, a),
            },
        },
    }
}

/// No position computed for this file exceeds 64 bits.
pub open spec fn servable(task: Task, file: Seq<u8>) -> bool {
    match task {
        Task::Validate => file_inspectable(file),
        Task::Stats => file_measurable(file) && 4 * file.len() <= u64::MAX,
        _ => file_measurable(file),
    }
}

/// Whether no position computed for this file exceeds 64 bits.
pub fn is_servable(task: &Task, file: &[u8]) -> (r: bool)
    ensures
        r == servable(*task, file@),
{
    match task {
        Task::Validate => crate::validate::is_inspectable(file),
        Task::Stats => crate::storage::open::is_measurable(file) && file.len() as u64
            <= u64::MAX / 4,
        _ => crate::storage::open::is_measurable(file),
    }
}

/// Answer a question about a file of which `image` was read, and whose size is given as
/// `file_size`.
pub fn run_job<A: Arithmetic, N: Numerals, W: WideArithmetic>(
    job: &Job,
    image: &Image,
    file_size: u64,
    x: &A,
    n: &N,
    w: &W,
) -> (a: Answer)
    requires
        image matches Image::Bytes(b) ==> servable(job.task, b@),
    ensures
        job_answered(x, n, w, *job, image_view(*image), file_size as nat, a),
{
    let file: &[u8] = match image {
        Image::Bytes(b) => b.as_slice(),
        Image::Unreadable(f) => {
            let e = CompactError::IoError {
                source: IoFailure { eof: f.eof, text: f.text.as_str().to_owned() },
            };
            return fail(&e, n);
        },
    };
    if let Task::Validate = job.task {
        return match validate(job.path.as_str().to_owned(), file) {
            Ok(r) => Answer { status: "200 OK", body: render_report(&r) },
            Err(e) => fail(&e, n),
        };
    }
    let reader = match CompactReader::open(file) {
        Ok(r) => r,
        Err(e) => return fail(&e, n),
    };
    proof {
        law_opened_file_holds_its_data(file@);
    }
    match &job.task {
        Task::Info => Answer {
            status: "200 OK",
            body: render_info(job.path.as_str(), &reader, file_size),
        },
        Task::Get { id } => answer_get(&reader, file, *id, x, n),
        Task::Search { query, k } => answer_search(&reader, file, query.as_slice(), *k, x, n),
        _ => Answer {
            status: "200 OK",
            body: render_stats(job.path.as_str(), &reader, file_size, n, w),
        },
    }
}

} // verus!
