//! What reading gives back of writing, and what splitting and trimming leave.
use crate::text::{
    decimal, digit_char, digits_value, is_digit, is_space, join, split, trim, trim_end, trim_start,
    uint_value, IntFault,
};
use vstd::prelude::*;

verus! {

proof fn lemma_one_more_digit(s: Seq<char>, c: char, acc: nat, max: nat, v: nat)
    requires
        digits_value(s, acc, max) == Ok::<nat, IntFault>(v),
        is_digit(c),
        v * 10 + (c as int - 48) <= max,
    ensures
        digits_value(s.push(c), acc, max) == Ok::<nat, IntFault>(
            (v * 10 + (c as int - 48)) as nat,
        ),
    decreases s.len(),
{
    let t = s.push(c);
    if s.len() == 0 {
        assert(t[0] == c);
        let next = (acc * 10 + (c as int - 48)) as nat;
        assert(t.drop_first().len() == 0);
        assert(digits_value(t.drop_first(), next, max) == Ok::<nat, IntFault>(next));
    } else {
        assert(t[0] == s[0]);
        assert(t.drop_first() =~= s.drop_first().push(c));
        let next = (acc * 10 + (s[0] as int - 48)) as nat;
        lemma_one_more_digit(s.drop_first(), c, next, max, v);
    }
}

proof fn lemma_decimal(n: nat, max: nat)
    requires
        n <= max,
    ensures
        decimal(n).len() > 0,
        is_digit(decimal(n)[0]),
        digits_value(decimal(n), 0, max) == Ok::<nat, IntFault>(n),
    decreases n,
{
    let d = n % 10;
    assert(digit_char(d as int) as int == 48 + d);
    if n < 10 {
        let e = Seq::<char>::empty();
        assert(digits_value(e, 0, max) == Ok::<nat, IntFault>(0));
        lemma_one_more_digit(e, digit_char(n as int), 0, max, 0);
        assert(decimal(n) =~= e.push(digit_char(n as int)));
    } else {
        lemma_decimal(n / 10, max);
        lemma_one_more_digit(decimal(n / 10), digit_char(d as int), 0, max, n / 10);
        assert(decimal(n)[0] == decimal(n / 10)[0]);
    }
}

/// A number reads back from its decimal digits.
pub proof fn law_decimal_reads_back(n: nat, max: nat)
    requires
        n <= max,
    ensures
        uint_value(decimal(n), max) == Ok::<nat, IntFault>(n),
{
    lemma_decimal(n, max);
}

proof fn lemma_join_grows(items: Seq<Seq<char>>, sep: Seq<char>, c: char)
    requires
        items.len() > 0,
    ensures
        join(items.update(items.len() - 1, items.last().push(c)), sep) == join(items, sep).push(c),
        join(items.push(seq![]), sep) == join(items, sep) + sep,
{
    let more = items.update(items.len() - 1, items.last().push(c));
    if items.len() == 1 {
        assert(more[0] == items[0].push(c));
    } else {
        assert(more.drop_last() =~= items.drop_last());
        assert(join(more, sep) =~= join(items, sep).push(c));
    }
    let next = items.push(seq![]);
    assert(next.drop_last() =~= items);
    assert(join(next, sep) =~= join(items, sep) + sep);
}

/// The pieces of a text, joined by the separator, are the text, and none of them holds the
/// separator.
pub proof fn law_split_joins_back(s: Seq<char>, sep: char)
    ensures
        split(s, sep).len() > 0,
        join(split(s, sep), seq![sep]) == s,
        forall|i: int| 0 <= i < split(s, sep).len() ==> !(#[trigger] split(s, sep)[i]).contains(sep),
    decreases s.len(),
{
    let p = split(s, sep);
    if s.len() > 0 {
        let before = split(s.drop_last(), sep);
        law_split_joins_back(s.drop_last(), sep);
        lemma_join_grows(before, seq![sep], s.last());
        assert(s =~= s.drop_last().push(s.last()));
        assert(s.drop_last() + seq![s.last()] =~= s);
        assert forall|i: int| 0 <= i < p.len() implies !(#[trigger] p[i]).contains(sep) by {
            if i < before.len() {
                assert(!before[i].contains(sep));
                if p[i].contains(sep) {
                    let k = choose|k: int| 0 <= k < p[i].len() && p[i][k] == sep;
                    if p[i] == before[i] {
                        assert(before[i].contains(sep));
                    } else {
                        assert(p[i] == before[i].push(s.last()));
                        assert(before[i][k] == sep);
                    }
                }
            }
        }
    } else {
        assert(join(p, seq![sep]) =~= s);
    }
}

/// All characters of a text are white space.
pub open spec fn blank(s: Seq<char>) -> bool {
    forall|i: int| 0 <= i < s.len() ==> is_space(#[trigger] s[i])
}

proof fn lemma_trim_start(s: Seq<char>) -> (k: nat)
    ensures
        k <= s.len(),
        trim_start(s) == s.skip(k as int),
        blank(s.take(k as int)),
        k < s.len() ==> !is_space(s[k as int]),
    decreases s.len(),
{
    if s.len() > 0 && is_space(s[0]) {
        let t = s.drop_first();
        let k = lemma_trim_start(t);
        assert(t.skip(k as int) =~= s.skip(k as int + 1));
        assert forall|i: int| 0 <= i < k + 1 implies is_space(
            #[trigger] s.take(k as int + 1)[i],
        ) by {
            if i > 0 {
                assert(t.take(k as int)[i - 1] == s[i]);
            }
        }
        (k + 1) as nat
    } else {
        assert(s.skip(0) =~= s);
        0
    }
}

proof fn lemma_trim_end(s: Seq<char>) -> (k: nat)
    ensures
        k <= s.len(),
        trim_end(s) == s.take(k as int),
        blank(s.skip(k as int)),
        k > 0 ==> !is_space(s[k - 1]),
    decreases s.len(),
{
    if s.len() > 0 && is_space(s.last()) {
        let t = s.drop_last();
        let k = lemma_trim_end(t);
        assert(t.take(k as int) =~= s.take(k as int));
        assert forall|i: int| 0 <= i < s.len() - k implies is_space(
            #[trigger] s.skip(k as int)[i],
        ) by {
            if i < t.len() - k {
                assert(t.skip(k as int)[i] == s[k + i]);
            }
        }
        k
    } else {
        assert(s.take(s.len() as int) =~= s);
        s.len()
    }
}

/// Trimming takes white space off both ends and nothing else: what is left neither starts nor ends
/// with white space.
pub proof fn law_trimming(s: Seq<char>) -> (parts: (Seq<char>, Seq<char>))
    ensures
        s == parts.0 + trim(s) + parts.1,
        blank(parts.0),
        blank(parts.1),
        trim(s).len() > 0 ==> !is_space(trim(s)[0]) && !is_space(trim(s).last()),
{
    let k = lemma_trim_start(s);
    let t = trim_start(s);
    let m = lemma_trim_end(t);
    let parts = (s.take(k as int), t.skip(m as int));
    assert(s =~= parts.0 + trim(s) + parts.1);
    if trim(s).len() > 0 {
        assert(trim(s)[0] == s[k as int]);
        assert(trim(s).last() == t[m - 1]);
    }
    parts
}

} // verus!
