//! Numbers as text.
use crate::scalar::Scalar;
use crate::text::{join, push_join, views};
use crate::wide::Wide;
use vstd::prelude::*;

verus! {

/// Writing and reading of numbers, as the platform at hand does it. Nothing is promised about
/// the texts.
pub trait Numerals {
    /// The shortest text that stands for `v`.
    fn plain(&self, v: Scalar) -> String;

    /// `v` with `places` digits after the point.
    fn fixed(&self, v: Scalar, places: usize) -> String;

    /// `v` with `places` digits after the point.
    fn fixed_wide(&self, v: Wide, places: usize) -> String;

    /// The number that `text` stands for, or what is wrong with it.
    fn parse(&self, text: &str) -> Result<Scalar, String>;
}

/// The shortest text of `v` may be `text`.
pub open spec fn plain_reads<N: Numerals>(n: &N, v: Scalar, text: Seq<char>) -> bool {
    exists|s: String| #[trigger] call_ensures(N::plain, (n, v), s) && s@ == text
}

/// `v` with `places` digits after the point may read `text`.
pub open spec fn fixed_reads<N: Numerals>(
    n: &N,
    v: Scalar,
    places: usize,
    text: Seq<char>,
) -> bool {
    exists|s: String| #[trigger] call_ensures(N::fixed, (n, v, places), s) && s@ == text
}

/// `v` with `places` digits after the point may read `text`.
pub open spec fn wide_reads<N: Numerals>(n: &N, v: Wide, places: usize, text: Seq<char>) -> bool {
    exists|s: String| #[trigger] call_ensures(N::fixed_wide, (n, v, places), s) && s@ == text
}

/// `text` may be read as `v`.
pub open spec fn parses<N: Numerals>(n: &N, text: Seq<char>, v: Scalar) -> bool {
    exists|s: &str| #[trigger]
        call_ensures(N::parse, (n, s), Ok::<Scalar, String>(v)) && s@ == text
}

/// `text` may be no number, with the complaint `msg`.
pub open spec fn unparsed<N: Numerals>(n: &N, text: Seq<char>, msg: Seq<char>) -> bool {
    exists|s: &str, m: String| #[trigger]
        call_ensures(N::parse, (n, s), Err::<Scalar, String>(m)) && s@ == text && m@ == msg
}

/// The shortest text of `v`.
pub fn plain_text<N: Numerals>(v: Scalar, n: &N) -> (s: String)
    ensures
        plain_reads(n, v, s@),
{
    let s = n.plain(v);
    assert(call_ensures(N::plain, (n, v), s));
    s
}

/// `v` with `places` digits after the point.
pub fn fixed_text<N: Numerals>(v: Scalar, places: usize, n: &N) -> (s: String)
    ensures
        fixed_reads(n, v, places, s@),
{
    let s = n.fixed(v, places);
    assert(call_ensures(N::fixed, (n, v, places), s));
    s
}

/// `v` with `places` digits after the point.
pub fn wide_text<N: Numerals>(v: Wide, places: usize, n: &N) -> (s: String)
    ensures
        wide_reads(n, v, places, s@),
{
    let s = n.fixed_wide(v, places);
    assert(call_ensures(N::fixed_wide, (n, v, places), s));
    s
}

/// The number that `text` stands for, or what is wrong with it.
pub fn parse_text<N: Numerals>(text: &str, n: &N) -> (r: Result<Scalar, String>)
    ensures
        match r {
            Ok(v) => parses(n, text@, v),
            Err(m) => unparsed(n, text@, m@),
        },
{
    let r = n.parse(text);
    assert(call_ensures(N::parse, (n, text), r));
    r
}

/// The coordinates of `v`, each with `places` digits after the point, may read `items`.
pub open spec fn all_read<N: Numerals>(
    n: &N,
    v: Seq<Scalar>,
    places: usize,
    items: Seq<Seq<char>>,
) -> bool {
    items.len() == v.len() && forall|i: int|
        0 <= i < v.len() ==> fixed_reads(n, v[i], places, #[trigger] items[i])
}

/// The coordinates of `v` with `sep` between them may read `text`.
pub open spec fn list_reads<N: Numerals>(
    n: &N,
    v: Seq<Scalar>,
    places: usize,
    sep: Seq<char>,
    text: Seq<char>,
) -> bool {
    exists|items: Seq<Seq<char>>| #[trigger] all_read(n, v, places, items) && text == join(
        items,
        sep,
    )
}

/// The coordinates of `v`, each with `places` digits after the point and `sep` between them.
pub fn list_text<N: Numerals>(v: &[Scalar], places: usize, sep: &str, n: &N) -> (s: String)
    ensures
        list_reads(n, v@, places, sep@, s@),
{
    let mut items: Vec<String> = Vec::new();
    let mut i: usize = 0;
    while i < v.len()
        invariant
            i <= v@.len(),
            items@.len() == i,
            forall|k: int|
                0 <= k < i ==> fixed_reads(n, v@[k], places, #[trigger] views(items@)[k]),
        decreases v@.len() - i,
    {
        let one = fixed_text(v[i], places, n);
        let ghost before = items@;
        items.push(one);
        assert forall|k: int| 0 <= k < i + 1 implies fixed_reads(
            n,
            v@[k],
            places,
            #[trigger] views(items@)[k],
        ) by {
            if k < i {
                assert(views(items@)[k] == views(before)[k]);
            }
        }
        i += 1;
    }
    let mut s: String = String::new();
    push_join(&mut s, &items, sep);
    assert(s@ =~= join(views(items@), sep@));
    assert(all_read(n, v@, places, views(items@)));
    s
}

} // verus!
