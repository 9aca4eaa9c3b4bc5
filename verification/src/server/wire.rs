//! Requests and replies as text: URL decoding, query strings, JSON and reply headers.
use crate::text::{
    chars_of, code, control, decimal, find, find_char, hex_byte, is_control_char, is_space,
    push_decimal, push_hex_byte, rows, same, space, split, split_at_char, string_of, subrange,
};
use vstd::prelude::*;

verus! {

// ---------------------------------------------------------------------------
// URL decoding
// ---------------------------------------------------------------------------

/// The value of a hexadecimal digit, upper or lower case.
pub open spec fn hex_value(c: char) -> Option<int> {
    let n = c as int;
    if 48 <= n <= 57 {
        Some(n - 48)
    } else if 97 <= n <= 102 {
        Some(n - 87)
    } else if 65 <= n <= 70 {
        Some(n - 55)
    } else {
        None
    }
}

/// The byte written as `hi` and `lo`; a plus sign in place of the first digit is ignored.
pub open spec fn escape_value(hi: char, lo: char) -> Option<u8> {
    match (hex_value(hi), hex_value(lo)) {
        (Some(h), Some(l)) => Some((16 * h + l) as u8),
        (None, Some(l)) => if hi == '+' {
            Some(l as u8)
        } else {
            None
        },
        _ => None,
    }
}

/// A decoded byte as text; nothing if the escape is malformed.
pub open spec fn escape_text(hi: char, lo: char) -> Seq<char> {
    match escape_value(hi, lo) {
        Some(b) => seq![b as char],
        None => seq![],
    }
}

/// Character `i`, or a zero digit past the end.
pub open spec fn digit_at(s: Seq<char>, i: int) -> char {
    if i < s.len() {
        s[i]
    } else {
        '0'
    }
}

/// The rest of `s` from position `i`, if there is any.
pub open spec fn rest(s: Seq<char>, i: int) -> Seq<char> {
    if i < s.len() {
        s.skip(i)
    } else {
        seq![]
    }
}

/// `s` with plus signs as spaces and percent escapes as the characters with these codes.
pub open spec fn url_decoded(s: Seq<char>) -> Seq<char>
    decreases s.len(),
{
    if s.len() == 0 {
        seq![]
    } else if s[0] == '%' {
        escape_text(digit_at(s, 1), digit_at(s, 2)) + url_decoded(rest(s, 3))
    } else if s[0] == '+' {
        seq![' '] + url_decoded(rest(s, 1))
    } else {
        seq![s[0]] + url_decoded(rest(s, 1))
    }
}

fn hex_digit(c: char) -> (r: Option<u8>)
    ensures
        match r {
            Some(v) => hex_value(c) == Some(v as int) && v < 16,
            None => hex_value(c) is None,
        },
{
    let n: u32 = code(c);
    if 48 <= n && n <= 57 {
        Some((n - 48) as u8)
    } else if 97 <= n && n <= 102 {
        Some((n - 87) as u8)
    } else if 65 <= n && n <= 70 {
        Some((n - 55) as u8)
    } else {
        None
    }
}

fn escaped_byte(hi: char, lo: char) -> (r: Option<u8>)
    ensures
        r == escape_value(hi, lo),
{
    match (hex_digit(hi), hex_digit(lo)) {
        (Some(h), Some(l)) => Some(16 * h + l),
        (None, Some(l)) => if hi == '+' {
            Some(l)
        } else {
            None
        },
        _ => None,
    }
}

/// Decode percent escapes and plus signs.
pub fn url_decode(s: &[char]) -> (out: String)
    ensures
        out@ == url_decoded(s@),
{
    let mut out: String = String::new();
    let n: usize = s.len();
    let mut i: usize = 0;
    assert(out@ + url_decoded(rest(s@, 0)) =~= url_decoded(s@)) by {
        assert(rest(s@, 0) =~= s@);
    }
    while i < n
        invariant
            n == s@.len(),
            i <= n,
            out@ + url_decoded(rest(s@, i as int)) == url_decoded(s@),
        decreases n - i,
    {
        let c = s[i];
        let ghost before = out@;
        let ghost now = rest(s@, i as int);
        assert(now[0] == c);
        if c == '%' {
            let hi = if n - i > 1 {
                s[i + 1]
            } else {
                '0'
            };
            let lo = if n - i > 2 {
                s[i + 2]
            } else {
                '0'
            };
            proof {
                assert(digit_at(now, 1) == hi);
                assert(digit_at(now, 2) == lo);
                assert(rest(now, 3) =~= rest(s@, i + 3));
            }
            match escaped_byte(hi, lo) {
                Some(b) => {
                    out.push(b as char);
                },
                None => {},
            }
            assert(out@ =~= before + escape_text(hi, lo));
            assert(before + url_decoded(now) =~= out@ + url_decoded(rest(s@, i + 3)));
            if n - i > 3 {
                i += 3;
            } else {
                assert(rest(s@, i + 3) =~= rest(s@, n as int));
                i = n;
            }
        } else {
            assert(rest(now, 1) =~= rest(s@, i + 1));
            if c == '+' {
                out.push(' ');
            } else {
                out.push(c);
            }
            assert(before + url_decoded(now) =~= out@ + url_decoded(rest(s@, i + 1)));
            i += 1;
        }
    }
    assert(out@ =~= url_decoded(s@));
    out
}

// ---------------------------------------------------------------------------
// Query strings
// ---------------------------------------------------------------------------

/// A name and its value.
pub ghost struct Pair {
    pub name: Seq<char>,
    pub value: Seq<char>,
}

/// A piece of a query string: what stands before the first equals sign, and what after.
pub open spec fn pair_of(piece: Seq<char>) -> Pair {
    let i = find(piece, '=', 0);
    if i < piece.len() {
        Pair { name: url_decoded(piece.take(i)), value: url_decoded(piece.skip(i + 1)) }
    } else {
        Pair { name: url_decoded(piece), value: url_decoded(seq![]) }
    }
}

/// The pairs of the pieces that are not empty.
pub open spec fn pairs_of(pieces: Seq<Seq<char>>) -> Seq<Pair>
    decreases pieces.len(),
{
    if pieces.len() == 0 {
        seq![]
    } else {
        let before = pairs_of(pieces.drop_last());
        if pieces.last().len() == 0 {
            before
        } else {
            before.push(pair_of(pieces.last()))
        }
    }
}

/// The pairs of a query string.
pub open spec fn query_pairs(query: Option<Seq<char>>) -> Seq<Pair> {
    match query {
        Some(q) => pairs_of(split(q, '&')),
        None => seq![],
    }
}

/// The value of `name`: that of its last pair.
pub open spec fn value_of(pairs: Seq<Pair>, name: Seq<char>) -> Option<Seq<char>>
    decreases pairs.len(),
{
    if pairs.len() == 0 {
        None
    } else if pairs.last().name == name {
        Some(pairs.last().value)
    } else {
        value_of(pairs.drop_last(), name)
    }
}

/// Parameters of a request, in the order in which they were given. Its view is the pairs.
#[derive(Debug)]
pub struct Params {
    pairs: Vec<(String, String)>,
}

impl View for Params {
    type V = Seq<Pair>;

    closed spec fn view(&self) -> Seq<Pair> {
        Seq::new(
            self.pairs@.len(),
            |i: int| Pair { name: self.pairs@[i].0@, value: self.pairs@[i].1@ },
        )
    }
}

impl Params {
    /// The value of a parameter; the last one, if it was given several times.
    pub fn get(&self, name: &str) -> (r: Option<&str>)
        ensures
            match r {
                Some(v) => value_of(self@, name@) == Some(v@),
                None => value_of(self@, name@) is None,
            },
    {
        let mut i: usize = self.pairs.len();
        assert(self@.take(i as int) =~= self@);
        while i > 0
            invariant
                i <= self.pairs@.len(),
                value_of(self@, name@) == value_of(self@.take(i as int), name@),
            decreases i,
        {
            let ghost now = self@.take(i as int);
            assert(now.drop_last() =~= self@.take(i - 1));
            assert(now.last() == self@[i - 1]);
            if same(self.pairs[i - 1].0.as_str(), name) {
                return Some(self.pairs[i - 1].1.as_str());
            }
            i -= 1;
        }
        None
    }

    fn add(&mut self, piece: &[char])
        ensures
            final(self)@ == old(self)@.push(pair_of(piece@)),
    {
        let at: usize = find_char(piece, '=');
        let n: usize = piece.len();
        let ghost before = self@;
        if at < n {
            assert(piece@.subrange(0, at as int) =~= piece@.take(at as int));
            assert(piece@.subrange(at + 1, n as int) =~= piece@.skip(at + 1));
            let name = url_decode(&piece[0..at]);
            let value = url_decode(&piece[at + 1..n]);
            self.pairs.push((name, value));
        } else {
            let name = url_decode(piece);
            let empty: Vec<char> = Vec::new();
            let value = url_decode(empty.as_slice());
            assert(empty@ =~= seq![]);
            self.pairs.push((name, value));
        }
        assert(self@ =~= before.push(pair_of(piece@)));
    }
}

/// The parameters of a query string.
pub fn parse_query(query: Option<&[char]>) -> (p: Params)
    ensures
        p@ == query_pairs(
            match query {
                Some(q) => Some(q@),
                None => None,
            },
        ),
{
    let mut p = Params { pairs: Vec::new() };
    assert(p@ =~= Seq::<Pair>::empty());
    match query {
        None => p,
        Some(q) => {
            let pieces = split_at_char(q, '&');
            let ghost all = rows(pieces@);
            let mut i: usize = 0;
            assert(all.take(0) =~= seq![]);
            while i < pieces.len()
                invariant
                    all == rows(pieces@),
                    i <= pieces@.len(),
                    p@ == pairs_of(all.take(i as int)),
                decreases pieces@.len() - i,
            {
                let ghost next = all.take(i + 1);
                assert(next.drop_last() =~= all.take(i as int));
                assert(next.last() == pieces@[i as int]@);
                if pieces[i].len() > 0 {
                    p.add(pieces[i].as_slice());
                }
                i += 1;
            }
            assert(all.take(i as int) =~= all);
            p
        },
    }
}

// ---------------------------------------------------------------------------
// JSON
// ---------------------------------------------------------------------------

/// A character within a JSON string.
pub open spec fn json_char(c: char) -> Seq<char> {
    if c == '"' {
        "\\\""@
    } else if c == '\\' {
        "\\\\"@
    } else if c == '\n' {
        "\\n"@
    } else if c == '\r' {
        "\\r"@
    } else if c == '\t' {
        "\\t"@
    } else if is_control_char(c) {
        "\\u00"@ + hex_byte(c as u8)
    } else {
        seq![c]
    }
}

/// A text within a JSON string.
pub open spec fn json_escaped(s: Seq<char>) -> Seq<char>
    decreases s.len(),
{
    if s.len() == 0 {
        seq![]
    } else {
        json_escaped(s.drop_last()) + json_char(s.last())
    }
}

fn push_json_char(out: &mut String, c: char)
    ensures
        final(out)@ == old(out)@ + json_char(c),
{
    if c == '"' {
        out.append("\\\"");
    } else if c == '\\' {
        out.append("\\\\");
    } else if c == '\n' {
        out.append("\\n");
    } else if c == '\r' {
        out.append("\\r");
    } else if c == '\t' {
        out.append("\\t");
    } else if control(c) {
        let n: u32 = code(c);
        out.append("\\u00");
        push_hex_byte(out, n as u8);
        assert(out@ =~= old(out)@ + json_char(c));
    } else {
        out.push(c);
        assert(out@ =~= old(out)@ + json_char(c));
    }
}

/// Append a text within a JSON string.
pub fn push_json(out: &mut String, s: &str)
    ensures
        final(out)@ == old(out)@ + json_escaped(s@),
{
    let chars = chars_of(s);
    let ghost start = out@;
    let mut i: usize = 0;
    assert(out@ =~= start + json_escaped(chars@.take(0)));
    while i < chars.len()
        invariant
            i <= chars@.len(),
            out@ == start + json_escaped(chars@.take(i as int)),
        decreases chars@.len() - i,
    {
        let ghost before = out@;
        push_json_char(out, chars[i]);
        i += 1;
        assert(chars@.take(i as int).drop_last() =~= chars@.take(i - 1));
        assert(out@ =~= start + json_escaped(chars@.take(i as int)));
    }
    assert(chars@.take(i as int) =~= chars@);
}

/// A text within a JSON string.
pub fn json_escape(s: &str) -> (out: String)
    ensures
        out@ == json_escaped(s@),
{
    let mut out: String = String::new();
    push_json(&mut out, s);
    assert(out@ =~= json_escaped(s@));
    out
}

/// The body of a reply that reports an error.
pub open spec fn error_body(msg: Seq<char>) -> Seq<char> {
    "{\"error\":\""@ + json_escaped(msg) + "\"}"@
}

/// The body of a reply that reports an error.
pub fn json_error(msg: &str) -> (s: String)
    ensures
        s@ == error_body(msg@),
{
    let mut s: String = "{\"error\":\"".to_owned();
    push_json(&mut s, msg);
    s.append("\"}");
    assert(s@ =~= error_body(msg@));
    s
}

proof fn lemma_escaped_is_plain(s: Seq<char>)
    ensures
        forall|i: int|
            0 <= i < json_escaped(s).len() ==> !is_control_char(#[trigger] json_escaped(s)[i]),
    decreases s.len(),
{
    if s.len() > 0 {
        lemma_escaped_is_plain(s.drop_last());
        let c = s.last();
        reveal_strlit("\\\"");
        reveal_strlit("\\\\");
        reveal_strlit("\\n");
        reveal_strlit("\\r");
        reveal_strlit("\\t");
        reveal_strlit("\\u00");
        let e = json_char(c);
        assert forall|i: int| 0 <= i < e.len() implies !is_control_char(#[trigger] e[i]) by {
            if is_control_char(c) && c != '\n' && c != '\r' && c != '\t' {
                let h = hex_byte(c as u8);
                if i >= 4 {
                    assert(e[i] == h[i - 4]);
                }
            }
        }
        let before = json_escaped(s.drop_last());
        assert forall|i: int| 0 <= i < json_escaped(s).len() implies !is_control_char(
            #[trigger] json_escaped(s)[i],
        ) by {
            if i < before.len() {
                assert(json_escaped(s)[i] == before[i]);
            } else {
                assert(json_escaped(s)[i] == e[i - before.len()]);
            }
        }
    }
}

/// The characters of `s` as percent escapes of their codes.
pub open spec fn percent_escaped(s: Seq<char>) -> Seq<char>
    decreases s.len(),
{
    if s.len() == 0 {
        seq![]
    } else {
        seq!['%'] + hex_byte(s[0] as u8) + percent_escaped(s.drop_first())
    }
}

proof fn lemma_escape(c: char)
    requires
        (c as int) < 256,
    ensures
        hex_byte(c as u8).len() == 2,
        escape_text(hex_byte(c as u8)[0], hex_byte(c as u8)[1]) == seq![c],
{
    let n = c as u8;
    let h = n as int / 16;
    let l = n as int % 16;
    assert(hex_value(hex_byte(n)[0]) == Some(h));
    assert(hex_value(hex_byte(n)[1]) == Some(l));
    assert(16 * h + l == n);
    assert(n as char == c);
}

/// Text of characters with codes below 256 comes back from its percent escapes, and text without
/// percent and plus signs is left as it is.
pub proof fn law_url_decoding(s: Seq<char>)
    ensures
        (forall|i: int| 0 <= i < s.len() ==> (#[trigger] s[i] as int) < 256) ==> url_decoded(
            percent_escaped(s),
        ) == s,
        (forall|i: int| 0 <= i < s.len() ==> #[trigger] s[i] != '%' && s[i] != '+')
            ==> url_decoded(s) == s,
    decreases s.len(),
{
    if s.len() > 0 {
        let t = s.drop_first();
        law_url_decoding(t);
        assert(s =~= seq![s[0]] + t);
        if forall|i: int| 0 <= i < s.len() ==> (#[trigger] s[i] as int) < 256 {
            assert forall|i: int| 0 <= i < t.len() implies (#[trigger] t[i] as int) < 256 by {
                assert((s[i + 1] as int) < 256);
            }
            let e = percent_escaped(s);
            let h = hex_byte(s[0] as u8);
            lemma_escape(s[0]);
            assert(e[0] == '%' && e[1] == h[0] && e[2] == h[1]);
            assert(rest(e, 3) =~= percent_escaped(t));
        }
        if forall|i: int| 0 <= i < s.len() ==> #[trigger] s[i] != '%' && s[i] != '+' {
            assert forall|i: int| 0 <= i < t.len() implies #[trigger] t[i] != '%' && t[i]
                != '+' by {
                assert(s[i + 1] != '%' && s[i + 1] != '+');
            }
            assert(rest(s, 1) =~= t);
        }
    }
}

/// A text within a JSON string holds no control characters.
pub proof fn law_json_holds_no_control_characters(s: Seq<char>)
    ensures
        forall|i: int|
            0 <= i < json_escaped(s).len() ==> !is_control_char(#[trigger] json_escaped(s)[i]),
{
    lemma_escaped_is_plain(s);
}

// ---------------------------------------------------------------------------
// HTTP
// ---------------------------------------------------------------------------

/// The first position at or after `i` that holds no white space, or the length.
pub open spec fn past_spaces(s: Seq<char>, i: int) -> int
    decreases s.len() - i,
{
    if i < 0 || i >= s.len() {
        s.len() as int
    } else if is_space(s[i]) {
        past_spaces(s, i + 1)
    } else {
        i
    }
}

/// The first position at or after `i` that holds white space, or the length.
pub open spec fn word_end(s: Seq<char>, i: int) -> int
    decreases s.len() - i,
{
    if i < 0 || i >= s.len() {
        s.len() as int
    } else if is_space(s[i]) {
        i
    } else {
        word_end(s, i + 1)
    }
}

/// A request line: the method, the path, and the query string after a question mark.
pub ghost struct RequestLine {
    pub method: Seq<char>,
    pub path: Seq<char>,
    pub query: Option<Seq<char>>,
}

/// The line before the first line feed.
pub open spec fn first_line(text: Seq<char>) -> Seq<char> {
    text.take(find(text, '\n', 0))
}

/// The first two words of a line; the second is a slash if it is missing.
pub open spec fn two_words(line: Seq<char>) -> (Seq<char>, Seq<char>) {
    let a = past_spaces(line, 0);
    let b = word_end(line, a);
    let c = past_spaces(line, b);
    let d = word_end(line, c);
    (
        line.subrange(a, b),
        if c < line.len() {
            line.subrange(c, d)
        } else {
            "/"@
        },
    )
}

/// The request line of a text.
pub open spec fn request_line(text: Seq<char>) -> RequestLine {
    let (method, target) = two_words(first_line(text));
    let i = find(target, '?', 0);
    if i < target.len() {
        RequestLine { method, path: target.take(i), query: Some(target.skip(i + 1)) }
    } else {
        RequestLine { method, path: target, query: None }
    }
}

fn skip_spaces(s: &[char], from: usize) -> (r: usize)
    requires
        from <= s@.len(),
    ensures
        r == past_spaces(s@, from as int),
        from <= r <= s@.len(),
{
    let mut i: usize = from;
    while i < s.len() && space(s[i])
        invariant
            from <= i <= s@.len(),
            past_spaces(s@, from as int) == past_spaces(s@, i as int),
        decreases s@.len() - i,
    {
        i += 1;
    }
    i
}

fn skip_word(s: &[char], from: usize) -> (r: usize)
    requires
        from <= s@.len(),
    ensures
        r == word_end(s@, from as int),
        from <= r <= s@.len(),
{
    let mut i: usize = from;
    while i < s.len() && !space(s[i])
        invariant
            from <= i <= s@.len(),
            word_end(s@, from as int) == word_end(s@, i as int),
        decreases s@.len() - i,
    {
        i += 1;
    }
    i
}

/// The parts of a request line.
#[derive(Debug)]
pub struct Request {
    pub method: String,
    pub path: String,
    pub params: Params,
}

/// Read the request line of a text.
pub fn parse_request(text: &str) -> (r: Request)
    ensures
        ({
            let line = request_line(text@);
            &&& r.method@ == line.method
            &&& r.path@ == line.path
            &&& r.params@ == query_pairs(line.query)
        }),
{
    let all = chars_of(text);
    let end: usize = find_char(all.as_slice(), '\n');
    let line = subrange(all.as_slice(), 0, end);
    assert(all@.subrange(0, end as int) =~= first_line(text@));
    let a: usize = skip_spaces(line.as_slice(), 0);
    let b: usize = skip_word(line.as_slice(), a);
    let c: usize = skip_spaces(line.as_slice(), b);
    let d: usize = skip_word(line.as_slice(), c);
    let method = string_of(&line.as_slice()[a..b]);
    let target: Vec<char> = if c < line.len() {
        subrange(line.as_slice(), c, d)
    } else {
        chars_of("/")
    };
    let n: usize = target.len();
    let at: usize = find_char(target.as_slice(), '?');
    if at < n {
        let path = string_of(&target.as_slice()[0..at]);
        let params = parse_query(Some(&target.as_slice()[at + 1..n]));
        proof {
            assert(target@.subrange(0, at as int) =~= target@.take(at as int));
            assert(target@.subrange(at + 1, n as int) =~= target@.skip(at + 1));
        }
        Request { method, path, params }
    } else {
        let path = string_of(target.as_slice());
        let params = parse_query(None);
        Request { method, path, params }
    }
}

/// What precedes the body of a reply.
pub open spec fn reply_header(status: Seq<char>, content_type: Seq<char>, len: nat) -> Seq<char> {
    "HTTP/1.1 "@ + status + "\r\nContent-Type: "@ + content_type + "\r\nContent-Length: "@
        + decimal(len)
        + "\r\nAccess-Control-Allow-Origin: *\r\nConnection: close\r\n\r\n"@
}

/// What precedes a body of `len` bytes.
pub fn response_header(status: &str, content_type: &str, len: usize) -> (s: String)
    ensures
        s@ == reply_header(status@, content_type@, len as nat),
{
    let mut s: String = "HTTP/1.1 ".to_owned();
    s.append(status);
    s.append("\r\nContent-Type: ");
    s.append(content_type);
    s.append("\r\nContent-Length: ");
    push_decimal(&mut s, len as u64);
    s.append("\r\nAccess-Control-Allow-Origin: *\r\nConnection: close\r\n\r\n");
    assert(s@ =~= reply_header(status@, content_type@, len as nat));
    s
}

} // verus!
