//! Text building and reading: decimal and hexadecimal rendering, integer parsing,
//! splitting and trimming, all stated over sequences of characters.
use vstd::prelude::*;

pub mod laws;

verus! {

/// Appending one character to a `String`: the contents grow by exactly that character.
pub assume_specification[ String::push ](s: &mut String, c: char)
    ensures
        final(s)@ == old(s)@.push(c),
;

/// The characters of a string, in order.
pub fn chars_of(s: &str) -> (v: Vec<char>)
    ensures
        v@ == s@,
{
    let mut v: Vec<char> = Vec::new();
    for c in it: s.chars()
        invariant
            v@ == it.seq().take(it.index() as int),
            it.seq() == s@,
    {
        v.push(c);
    }
    v
}

/// A string made of the given characters.
pub fn string_of(chars: &[char]) -> (s: String)
    ensures
        s@ == chars@,
{
    let mut s: String = String::new();
    let mut i: usize = 0;
    while i < chars.len()
        invariant
            i <= chars@.len(),
            s@ == chars@.take(i as int),
        decreases chars@.len() - i,
    {
        s.push(chars[i]);
        i += 1;
        assert(chars@.take(i as int) =~= chars@.take(i - 1).push(chars@[i - 1]));
    }
    assert(chars@.take(i as int) =~= chars@);
    s
}

/// Whether two strings hold the same characters.
pub fn same(a: &str, b: &str) -> (r: bool)
    ensures
        r == (a@ == b@),
{
    let x = chars_of(a);
    let y = chars_of(b);
    if x.len() != y.len() {
        return false;
    }
    let mut i: usize = 0;
    while i < x.len()
        invariant
            x@ == a@,
            y@ == b@,
            x@.len() == y@.len(),
            i <= x@.len(),
            forall|j: int| 0 <= j < i ==> x@[j] == y@[j],
        decreases x@.len() - i,
    {
        if x[i] != y[i] {
            return false;
        }
        i += 1;
    }
    assert(a@ =~= b@);
    true
}

// ---------------------------------------------------------------------------
// Decimal and hexadecimal rendering
// ---------------------------------------------------------------------------

/// The character of a hexadecimal digit, lower case; digits below ten are decimal.
pub open spec fn digit_char(d: int) -> char {
    if d < 10 {
        (48 + d) as char
    } else {
        (87 + d) as char
    }
}

/// Decimal digits of `n`, most significant first, without leading zeros.
pub open spec fn decimal(n: nat) -> Seq<char>
    decreases n,
{
    if n < 10 {
        seq![digit_char(n as int)]
    } else {
        decimal(n / 10).push(digit_char((n % 10) as int))
    }
}

/// Two lower-case hexadecimal digits of a byte.
pub open spec fn hex_byte(b: u8) -> Seq<char> {
    seq![digit_char(b as int / 16), digit_char(b as int % 16)]
}

/// The two-digit renderings of all bytes, one after another.
pub open spec fn hex_run(bytes: Seq<u8>) -> Seq<char>
    decreases bytes.len(),
{
    if bytes.len() == 0 {
        seq![]
    } else {
        hex_run(bytes.drop_last()) + hex_byte(bytes.last())
    }
}

/// `items` with `sep` between neighbours.
pub open spec fn join(items: Seq<Seq<char>>, sep: Seq<char>) -> Seq<char>
    decreases items.len(),
{
    if items.len() == 0 {
        seq![]
    } else if items.len() == 1 {
        items[0]
    } else {
        join(items.drop_last(), sep) + sep + items.last()
    }
}

/// The two-digit rendering of each byte.
pub open spec fn hex_items(bytes: Seq<u8>) -> Seq<Seq<char>> {
    Seq::new(bytes.len(), |i: int| hex_byte(bytes[i]))
}

/// The decimal rendering of each byte.
pub open spec fn decimal_items(bytes: Seq<u8>) -> Seq<Seq<char>> {
    Seq::new(bytes.len(), |i: int| decimal(bytes[i] as nat))
}

/// Bracketed list of two-digit hexadecimal bytes, such as `[0a, ff]`.
pub open spec fn hex_list(bytes: Seq<u8>) -> Seq<char> {
    "["@ + join(hex_items(bytes), ", "@) + "]"@
}

/// Bracketed list of decimal bytes, such as `[10, 255]`.
pub open spec fn decimal_list(bytes: Seq<u8>) -> Seq<char> {
    "["@ + join(decimal_items(bytes), ", "@) + "]"@
}

/// Text of a truth value.
pub open spec fn bool_text(b: bool) -> Seq<char> {
    if b {
        "true"@
    } else {
        "false"@
    }
}

/// The views of a list of strings.
pub open spec fn views(items: Seq<String>) -> Seq<Seq<char>> {
    Seq::new(items.len(), |i: int| items[i]@)
}

fn digit(d: u8) -> (c: char)
    requires
        d < 16,
    ensures
        c == digit_char(d as int),
{
    match d {
        0 => '0',
        1 => '1',
        2 => '2',
        3 => '3',
        4 => '4',
        5 => '5',
        6 => '6',
        7 => '7',
        8 => '8',
        9 => '9',
        10 => 'a',
        11 => 'b',
        12 => 'c',
        13 => 'd',
        14 => 'e',
        _ => 'f',
    }
}

/// Append the decimal digits of `n`.
pub fn push_decimal(s: &mut String, n: u64)
    ensures
        final(s)@ == old(s)@ + decimal(n as nat),
    decreases n,
{
    if n < 10 {
        s.push(digit(n as u8));
        assert(s@ =~= old(s)@ + decimal(n as nat));
    } else {
        push_decimal(s, n / 10);
        s.push(digit((n % 10) as u8));
        assert(s@ =~= old(s)@ + decimal(n as nat));
    }
}

/// The decimal digits of `n`.
pub fn decimal_string(n: u64) -> (s: String)
    ensures
        s@ == decimal(n as nat),
{
    let mut s: String = String::new();
    push_decimal(&mut s, n);
    assert(s@ =~= decimal(n as nat));
    s
}

/// Append the two hexadecimal digits of a byte.
pub fn push_hex_byte(s: &mut String, b: u8)
    ensures
        final(s)@ == old(s)@ + hex_byte(b),
{
    s.push(digit(b / 16));
    s.push(digit(b % 16));
    assert(s@ =~= old(s)@ + hex_byte(b));
}

/// Append the hexadecimal digits of every byte.
pub fn push_hex_run(s: &mut String, bytes: &[u8])
    ensures
        final(s)@ == old(s)@ + hex_run(bytes@),
{
    let mut i: usize = 0;
    let ghost start = s@;
    assert(s@ =~= start + hex_run(bytes@.take(0)));
    while i < bytes.len()
        invariant
            i <= bytes@.len(),
            s@ == start + hex_run(bytes@.take(i as int)),
        decreases bytes@.len() - i,
    {
        push_hex_byte(s, bytes[i]);
        i += 1;
        assert(bytes@.take(i as int).drop_last() =~= bytes@.take(i - 1));
        assert(s@ =~= start + hex_run(bytes@.take(i as int)));
    }
    assert(bytes@.take(i as int) =~= bytes@);
}

/// Append `items` with `sep` between neighbours.
pub fn push_join(s: &mut String, items: &Vec<String>, sep: &str)
    ensures
        final(s)@ == old(s)@ + join(views(items@), sep@),
{
    let ghost start = s@;
    let ghost all = views(items@);
    let mut i: usize = 0;
    assert(s@ =~= start + join(all.take(0), sep@));
    while i < items.len()
        invariant
            i <= items@.len(),
            all == views(items@),
            s@ == start + join(all.take(i as int), sep@),
        decreases items@.len() - i,
    {
        if i > 0 {
            s.append(sep);
        }
        s.append(items[i].as_str());
        i += 1;
        proof {
            assert(all.take(i as int).drop_last() =~= all.take(i - 1));
            assert(all.take(i as int).last() == items@[i - 1]@);
        }
        assert(s@ =~= start + join(all.take(i as int), sep@));
    }
    assert(all.take(i as int) =~= all);
}

fn hex_strings(bytes: &[u8]) -> (items: Vec<String>)
    ensures
        views(items@) == hex_items(bytes@),
{
    let mut items: Vec<String> = Vec::new();
    let mut i: usize = 0;
    while i < bytes.len()
        invariant
            i <= bytes@.len(),
            items@.len() == i,
            forall|j: int| 0 <= j < i ==> items@[j]@ == hex_byte(#[trigger] bytes@[j]),
        decreases bytes@.len() - i,
    {
        let mut one: String = String::new();
        push_hex_byte(&mut one, bytes[i]);
        assert(one@ =~= hex_byte(bytes@[i as int]));
        items.push(one);
        i += 1;
    }
    assert(views(items@) =~= hex_items(bytes@));
    items
}

/// The decimal digits of each byte.
pub fn decimal_strings(bytes: &[u8]) -> (items: Vec<String>)
    ensures
        views(items@) == decimal_items(bytes@),
{
    let mut items: Vec<String> = Vec::new();
    let mut i: usize = 0;
    while i < bytes.len()
        invariant
            i <= bytes@.len(),
            items@.len() == i,
            forall|j: int| 0 <= j < i ==> items@[j]@ == decimal(#[trigger] bytes@[j] as nat),
        decreases bytes@.len() - i,
    {
        items.push(decimal_string(bytes[i] as u64));
        i += 1;
    }
    assert(views(items@) =~= decimal_items(bytes@));
    items
}

/// Append the bracketed hexadecimal list of `bytes`.
pub fn push_hex_list(s: &mut String, bytes: &[u8])
    ensures
        final(s)@ == old(s)@ + hex_list(bytes@),
{
    let items = hex_strings(bytes);
    s.append("[");
    push_join(s, &items, ", ");
    s.append("]");
    assert(s@ =~= old(s)@ + hex_list(bytes@));
}

/// Append the bracketed decimal list of `bytes`.
pub fn push_decimal_list(s: &mut String, bytes: &[u8])
    ensures
        final(s)@ == old(s)@ + decimal_list(bytes@),
{
    let items = decimal_strings(bytes);
    s.append("[");
    push_join(s, &items, ", ");
    s.append("]");
    assert(s@ =~= old(s)@ + decimal_list(bytes@));
}

/// Append `true` or `false`.
pub fn push_bool(s: &mut String, b: bool)
    ensures
        final(s)@ == old(s)@ + bool_text(b),
{
    if b {
        s.append("true");
    } else {
        s.append("false");
    }
}

// ---------------------------------------------------------------------------
// Character classes
// ---------------------------------------------------------------------------

/// White space as Unicode defines it.
pub open spec fn is_space(c: char) -> bool {
    let n = c as int;
    ||| 0x9 <= n <= 0xd
    ||| n == 0x20
    ||| n == 0x85
    ||| n == 0xa0
    ||| n == 0x1680
    ||| 0x2000 <= n <= 0x200a
    ||| n == 0x2028
    ||| n == 0x2029
    ||| n == 0x202f
    ||| n == 0x205f
    ||| n == 0x3000
}

/// Control characters as Unicode defines them.
pub open spec fn is_control_char(c: char) -> bool {
    let n = c as int;
    n <= 0x1f || 0x7f <= n <= 0x9f
}

/// The code point of a character.
pub fn code(c: char) -> (n: u32)
    ensures
        n == c as int,
{
    c as u32
}

/// Whether `c` is white space.
pub fn space(c: char) -> (r: bool)
    ensures
        r == is_space(c),
{
    let n: u32 = c as u32;
    (0x9 <= n && n <= 0xd) || n == 0x20 || n == 0x85 || n == 0xa0 || n == 0x1680 || (0x2000 <= n && n
        <= 0x200a) || n == 0x2028 || n == 0x2029 || n == 0x202f || n == 0x205f || n == 0x3000
}

/// Whether `c` is a control character.
pub fn control(c: char) -> (r: bool)
    ensures
        r == is_control_char(c),
{
    let n: u32 = c as u32;
    n <= 0x1f || (0x7f <= n && n <= 0x9f)
}

// ---------------------------------------------------------------------------
// Splitting and trimming
// ---------------------------------------------------------------------------

/// The pieces of `s` between occurrences of `sep`; one more than there are separators.
pub open spec fn split(s: Seq<char>, sep: char) -> Seq<Seq<char>>
    decreases s.len(),
{
    if s.len() == 0 {
        seq![seq![]]
    } else {
        let before = split(s.drop_last(), sep);
        if s.last() == sep {
            before.push(seq![])
        } else {
            before.update(before.len() - 1, before.last().push(s.last()))
        }
    }
}

/// The views of a list of character vectors.
pub open spec fn rows(items: Seq<Vec<char>>) -> Seq<Seq<char>> {
    Seq::new(items.len(), |i: int| items[i]@)
}

/// Split at every occurrence of `sep`.
pub fn split_at_char(s: &[char], sep: char) -> (pieces: Vec<Vec<char>>)
    ensures
        rows(pieces@) == split(s@, sep),
        pieces@.len() > 0,
{
    let mut done: Vec<Vec<char>> = Vec::new();
    let mut current: Vec<char> = Vec::new();
    let mut i: usize = 0;
    assert(rows(done@).push(current@) =~= split(s@.take(0), sep));
    while i < s.len()
        invariant
            i <= s@.len(),
            rows(done@).push(current@) == split(s@.take(i as int), sep),
        decreases s@.len() - i,
    {
        let c = s[i];
        let ghost before = split(s@.take(i as int), sep);
        let ghost before_done = done@;
        let ghost before_current = current@;
        i += 1;
        proof {
            assert(s@.take(i as int).drop_last() =~= s@.take(i - 1));
        }
        if c == sep {
            done.push(current);
            current = Vec::new();
            assert(rows(done@).push(current@) =~= before.push(seq![])) by {
                assert(rows(done@) =~= rows(before_done).push(before_current));
            }
        } else {
            current.push(c);
            assert(rows(done@).push(current@) =~= before.update(
                before.len() - 1,
                before.last().push(c),
            ));
        }
    }
    assert(s@.take(i as int) =~= s@);
    let ghost last_view = current@;
    let ghost before_done = done@;
    done.push(current);
    assert(rows(done@) =~= rows(before_done).push(last_view));
    done
}

/// Index of the first occurrence of `c` at or after `from`, or the length.
pub open spec fn find(s: Seq<char>, c: char, from: int) -> int
    decreases s.len() - from,
{
    if from < 0 || from >= s.len() {
        s.len() as int
    } else if s[from] == c {
        from
    } else {
        find(s, c, from + 1)
    }
}

/// Index of the first occurrence of `c`, or the length.
pub fn find_char(s: &[char], c: char) -> (at: usize)
    ensures
        at == find(s@, c, 0),
        at <= s@.len(),
        at < s@.len() ==> s@[at as int] == c,
{
    let mut i: usize = 0;
    while i < s.len()
        invariant
            i <= s@.len(),
            find(s@, c, 0) == find(s@, c, i as int),
        decreases s@.len() - i,
    {
        if s[i] == c {
            return i;
        }
        i += 1;
    }
    i
}

/// `s` without leading white space.
pub open spec fn trim_start(s: Seq<char>) -> Seq<char>
    decreases s.len(),
{
    if s.len() > 0 && is_space(s[0]) {
        trim_start(s.drop_first())
    } else {
        s
    }
}

/// `s` without trailing white space.
pub open spec fn trim_end(s: Seq<char>) -> Seq<char>
    decreases s.len(),
{
    if s.len() > 0 && is_space(s.last()) {
        trim_end(s.drop_last())
    } else {
        s
    }
}

/// `s` without white space at either end.
pub open spec fn trim(s: Seq<char>) -> Seq<char> {
    trim_end(trim_start(s))
}

/// Copy the characters in `from..to`.
pub fn subrange(s: &[char], from: usize, to: usize) -> (out: Vec<char>)
    requires
        from <= to <= s@.len(),
    ensures
        out@ == s@.subrange(from as int, to as int),
{
    let mut out: Vec<char> = Vec::new();
    let mut i: usize = from;
    while i < to
        invariant
            from <= i <= to <= s@.len(),
            out@ == s@.subrange(from as int, i as int),
        decreases to - i,
    {
        out.push(s[i]);
        i += 1;
        assert(out@ =~= s@.subrange(from as int, i as int));
    }
    out
}

/// Remove white space at both ends.
pub fn trimmed(s: &[char]) -> (out: Vec<char>)
    ensures
        out@ == trim(s@),
{
    let n: usize = s.len();
    let mut a: usize = 0;
    assert(s@.subrange(0, n as int) =~= s@);
    while a < n && space(s[a])
        invariant
            a <= n,
            n == s@.len(),
            trim_start(s@) == trim_start(s@.subrange(a as int, n as int)),
        decreases n - a,
    {
        assert(s@.subrange(a as int, n as int).drop_first() =~= s@.subrange(a + 1, n as int));
        a += 1;
    }
    assert(trim_start(s@) =~= s@.subrange(a as int, n as int));
    let mut b: usize = n;
    while b > a && space(s[b - 1])
        invariant
            a <= b <= n,
            n == s@.len(),
            trim(s@) == trim_end(s@.subrange(a as int, b as int)),
        decreases b,
    {
        assert(s@.subrange(a as int, b as int).drop_last() =~= s@.subrange(a as int, b - 1));
        b -= 1;
    }
    assert(trim(s@) =~= s@.subrange(a as int, b as int));
    subrange(s, a, b)
}

// ---------------------------------------------------------------------------
// Integers written in decimal
// ---------------------------------------------------------------------------

/// Why a text is not an integer of the wanted range.
#[derive(Clone, Copy, Debug, PartialEq, Eq, Structural)]
pub enum IntFault {
    /// There is nothing to read.
    Empty,
    /// A character is not a decimal digit.
    InvalidDigit,
    /// The value is above the largest one accepted.
    PosOverflow,
}

/// Whether `c` is a decimal digit.
pub open spec fn is_digit(c: char) -> bool {
    48 <= c as int <= 57
}

/// Read digits from left to right onto `acc`; the first offending character decides the fault.
pub open spec fn digits_value(s: Seq<char>, acc: nat, max: nat) -> Result<nat, IntFault>
    decreases s.len(),
{
    if s.len() == 0 {
        Ok(acc)
    } else if !is_digit(s[0]) {
        Err(IntFault::InvalidDigit)
    } else {
        let next = (acc * 10 + (s[0] as int - 48)) as nat;
        if next > max {
            Err(IntFault::PosOverflow)
        } else {
            digits_value(s.drop_first(), next, max)
        }
    }
}

/// An unsigned integer not above `max`: decimal digits after an optional plus sign.
pub open spec fn uint_value(s: Seq<char>, max: nat) -> Result<nat, IntFault> {
    if s.len() == 0 {
        Err(IntFault::Empty)
    } else if s[0] == '+' {
        if s.len() == 1 {
            Err(IntFault::InvalidDigit)
        } else {
            digits_value(s.drop_first(), 0, max)
        }
    } else {
        digits_value(s, 0, max)
    }
}

/// Parse an unsigned decimal integer not above `max`.
pub fn parse_uint(s: &[char], max: u64) -> (r: Result<u64, IntFault>)
    ensures
        match r {
            Ok(v) => uint_value(s@, max as nat) == Ok::<nat, IntFault>(v as nat),
            Err(e) => uint_value(s@, max as nat) == Err::<nat, IntFault>(e),
        },
        r matches Ok(v) ==> v <= max,
{
    let n: usize = s.len();
    if n == 0 {
        return Err(IntFault::Empty);
    }
    let mut i: usize = 0;
    if s[0] == '+' {
        if n == 1 {
            return Err(IntFault::InvalidDigit);
        }
        i = 1;
    }
    let mut acc: u64 = 0;
    assert(s@.subrange(0, n as int) =~= s@);
    assert(s@.subrange(1, n as int) =~= s@.drop_first());
    while i < n
        invariant
            i <= n,
            n == s@.len(),
            acc <= max,
            uint_value(s@, max as nat) == digits_value(
                s@.subrange(i as int, n as int),
                acc as nat,
                max as nat,
            ),
        decreases n - i,
    {
        let c: u32 = code(s[i]);
        let ghost rest = s@.subrange(i as int, n as int);
        assert(rest[0] == s@[i as int]);
        assert(rest.drop_first() =~= s@.subrange(i + 1, n as int));
        if c < 48 || c > 57 {
            return Err(IntFault::InvalidDigit);
        }
        let d: u64 = (c - 48) as u64;
        assert(is_digit(rest[0]) && rest[0] as int - 48 == d);
        assert((acc as nat * 10 + (rest[0] as int - 48)) as nat == acc * 10 + d);
        if acc > (u64::MAX - d) / 10 {
            assert(acc * 10 + d > u64::MAX);
            return Err(IntFault::PosOverflow);
        }
        let next: u64 = acc * 10 + d;
        if next > max {
            return Err(IntFault::PosOverflow);
        }
        acc = next;
        i += 1;
    }
    Ok(acc)
}

} // verus!
