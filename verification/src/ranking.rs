//! Ranking of search results by distance.
use crate::scalar::Scalar;
use vstd::prelude::*;

verus! {

/// A vector found by a search, and its distance from the query.
#[derive(Debug, Clone, Copy)]
pub struct SearchResult {
    pub id: u64,
    pub distance: Scalar,
}

impl SearchResult {
    /// A result.
    pub fn new(id: u64, distance: Scalar) -> (r: SearchResult)
        ensures
            r == (SearchResult { id, distance }),
    {
        SearchResult { id, distance }
    }
}

/// Two distances are the same number; not-a-number is not the same as anything.
pub open spec fn same_distance(a: Scalar, b: Scalar) -> bool {
    a.at_most(b) && b.at_most(a)
}

impl PartialEq for SearchResult {
    fn eq(&self, other: &SearchResult) -> (r: bool) {
        self.id == other.id && self.distance.le(other.distance) && other.distance.le(self.distance)
    }
}

impl vstd::std_specs::cmp::PartialEqSpecImpl for SearchResult {
    open spec fn obeys_eq_spec() -> bool {
        true
    }

    open spec fn eq_spec(&self, other: &SearchResult) -> bool {
        self.id == other.id && same_distance(self.distance, other.distance)
    }
}

impl PartialOrd for SearchResult {
    fn partial_cmp(&self, other: &SearchResult) -> (r: Option<std::cmp::Ordering>) {
        if self.distance.lt(other.distance) {
            Some(std::cmp::Ordering::Less)
        } else if other.distance.lt(self.distance) {
            Some(std::cmp::Ordering::Greater)
        } else if self.distance.le(other.distance) {
            Some(std::cmp::Ordering::Equal)
        } else {
            None
        }
    }
}

impl vstd::std_specs::cmp::PartialOrdSpecImpl for SearchResult {
    open spec fn obeys_partial_cmp_spec() -> bool {
        true
    }

    open spec fn partial_cmp_spec(&self, other: &SearchResult) -> Option<std::cmp::Ordering> {
        if self.distance.below(other.distance) {
            Some(std::cmp::Ordering::Less)
        } else if other.distance.below(self.distance) {
            Some(std::cmp::Ordering::Greater)
        } else if self.distance.at_most(other.distance) {
            Some(std::cmp::Ordering::Equal)
        } else {
            None
        }
    }
}

impl SearchResult {
    /// Order by distance; results that cannot be compared count as equal.
    pub fn by_distance(&self, other: &SearchResult) -> (r: std::cmp::Ordering)
        ensures
            r == (if self.distance.below(other.distance) {
                std::cmp::Ordering::Less
            } else if other.distance.below(self.distance) {
                std::cmp::Ordering::Greater
            } else {
                std::cmp::Ordering::Equal
            }),
    {
        if self.distance.lt(other.distance) {
            std::cmp::Ordering::Less
        } else if other.distance.lt(self.distance) {
            std::cmp::Ordering::Greater
        } else {
            std::cmp::Ordering::Equal
        }
    }
}

/// `x` put into a list before everything farther away at its end.
pub open spec fn placed(s: Seq<SearchResult>, x: SearchResult) -> Seq<SearchResult>
    decreases s.len(),
{
    if s.len() == 0 || !x.distance.below(s.last().distance) {
        s.push(x)
    } else {
        placed(s.drop_last(), x).push(s.last())
    }
}

/// All results by ascending distance; among equals, those that came first stay first.
pub open spec fn ranked(c: Seq<SearchResult>) -> Seq<SearchResult>
    decreases c.len(),
{
    if c.len() == 0 {
        c
    } else {
        placed(ranked(c.drop_last()), c.last())
    }
}

/// At most the first `k` of a list.
pub open spec fn first(s: Seq<SearchResult>, k: nat) -> Seq<SearchResult> {
    if s.len() <= k {
        s
    } else {
        s.take(k as int)
    }
}

/// The `k` nearest of all results, by ascending distance.
pub open spec fn nearest(c: Seq<SearchResult>, k: nat) -> Seq<SearchResult> {
    first(ranked(c), k)
}

/// The `k` nearest after one more result, given the `k` nearest before it.
pub open spec fn kept(t: Seq<SearchResult>, x: SearchResult, k: nat) -> Seq<SearchResult> {
    if k == 0 {
        t
    } else if t.len() < k {
        placed(t, x)
    } else if x.distance.below(t.last().distance) {
        placed(t.drop_last(), x)
    } else {
        t
    }
}

/// The `k` nearest after all of `c`, given the `k` nearest before.
pub open spec fn kept_all(t: Seq<SearchResult>, c: Seq<SearchResult>, k: nat) -> Seq<SearchResult>
    decreases c.len(),
{
    if c.len() == 0 {
        t
    } else {
        kept(kept_all(t, c.drop_last(), k), c.last(), k)
    }
}

/// Every distance is finite.
pub open spec fn finite(s: Seq<SearchResult>) -> bool {
    forall|i: int| 0 <= i < s.len() ==> (#[trigger] s[i]).distance.finite()
}

/// By ascending distance.
pub open spec fn sorted(s: Seq<SearchResult>) -> bool {
    forall|i: int, j: int| 0 <= i <= j < s.len() ==> s[i].distance.key() <= s[j].distance.key()
}

proof fn lemma_placed(s: Seq<SearchResult>, x: SearchResult)
    requires
        finite(s),
        x.distance.finite(),
    ensures
        placed(s, x).len() == s.len() + 1,
        finite(placed(s, x)),
        placed(s, x).to_multiset() == s.to_multiset().insert(x),
        sorted(s) ==> sorted(placed(s, x)),
        s.len() > 0 ==> placed(s, x).last().distance.key() == (if x.distance.below(
            s.last().distance,
        ) {
            s.last().distance.key()
        } else {
            x.distance.key()
        }),
    decreases s.len(),
{
    broadcast use vstd::seq_lib::group_to_multiset_ensures;

    let r = placed(s, x);
    if s.len() == 0 || !x.distance.below(s.last().distance) {
        assert(s.len() > 0 ==> s.last() == s[s.len() - 1]);
    } else {
        let t = s.drop_last();
        assert forall|i: int| 0 <= i < t.len() implies (#[trigger] t[i]).distance.finite() by {
            assert(s[i].distance.finite());
        }
        lemma_placed(t, x);
        let u = placed(t, x);
        assert(s.last() == s[s.len() - 1]);
        assert(s =~= t.push(s.last()));
        assert(r.to_multiset() =~= s.to_multiset().insert(x));
        if sorted(s) {
            assert(sorted(t)) by {
                assert forall|i: int, j: int| 0 <= i <= j < t.len() implies t[i].distance.key()
                    <= t[j].distance.key() by {
                    assert(s[i].distance.key() <= s[j].distance.key());
                }
            }
            assert forall|i: int, j: int| 0 <= i <= j < r.len() implies r[i].distance.key()
                <= r[j].distance.key() by {
                if j < u.len() {
                    assert(r[i] == u[i] && r[j] == u[j]);
                } else if i < u.len() {
                    assert(r[i] == u[i]);
                    assert(u[i].distance.key() <= u[u.len() - 1].distance.key());
                    if t.len() > 0 {
                        assert(s[t.len() - 1].distance.key() <= s[s.len() - 1].distance.key());
                        assert(u.last() == u[u.len() - 1]);
                        assert(t.last() == s[t.len() - 1]);
                    }
                }
            }
        }
        assert forall|i: int| 0 <= i < r.len() implies (#[trigger] r[i]).distance.finite() by {
            if i < u.len() {
                assert(r[i] == u[i]);
            }
        }
    }
}

/// Ranking keeps all results, and puts them by ascending distance.
pub proof fn law_ranking(c: Seq<SearchResult>)
    requires
        finite(c),
    ensures
        ranked(c).len() == c.len(),
        finite(ranked(c)),
        sorted(ranked(c)),
        ranked(c).to_multiset() == c.to_multiset(),
    decreases c.len(),
{
    broadcast use vstd::seq_lib::group_to_multiset_ensures;

    if c.len() > 0 {
        let d = c.drop_last();
        assert forall|i: int| 0 <= i < d.len() implies (#[trigger] d[i]).distance.finite() by {
            assert(c[i].distance.finite());
        }
        assert(c.last() == c[c.len() - 1]);
        law_ranking(d);
        lemma_placed(ranked(d), c.last());
        assert(c =~= d.push(c.last()));
    }
}

/// Where a result is placed in a sorted list: after everything not farther away.
proof fn lemma_placed_at(s: Seq<SearchResult>, x: SearchResult, p: int)
    requires
        0 <= p <= s.len(),
        p > 0 ==> !x.distance.below(s[p - 1].distance),
        forall|i: int| p <= i < s.len() ==> x.distance.below((#[trigger] s[i]).distance),
    ensures
        placed(s, x) == s.insert(p, x),
    decreases s.len(),
{
    if p < s.len() {
        assert(x.distance.below(s[s.len() - 1].distance));
        lemma_placed_at(s.drop_last(), x, p);
        assert(placed(s, x) =~= s.insert(p, x));
    } else {
        assert(placed(s, x) =~= s.insert(p, x));
    }
}

proof fn lemma_place(s: Seq<SearchResult>, x: SearchResult) -> (p: int)
    requires
        finite(s),
        sorted(s),
        x.distance.finite(),
    ensures
        0 <= p <= s.len(),
        p > 0 ==> s[p - 1].distance.key() <= x.distance.key(),
        forall|i: int| 0 <= i < p ==> (#[trigger] s[i]).distance.key() <= x.distance.key(),
        forall|i: int| p <= i < s.len() ==> x.distance.key() < (#[trigger] s[i]).distance.key(),
        placed(s, x) == s.insert(p, x),
    decreases s.len(),
{
    if s.len() == 0 {
        assert(placed(s, x) =~= s.insert(0, x));
        0
    } else if !x.distance.below(s.last().distance) {
        assert(s.last() == s[s.len() - 1]);
        assert(placed(s, x) =~= s.insert(s.len() as int, x));
        assert forall|i: int| 0 <= i < s.len() implies (#[trigger] s[i]).distance.key()
            <= x.distance.key() by {
            assert(s[i].distance.key() <= s[s.len() - 1].distance.key());
        }
        s.len() as int
    } else {
        let t = s.drop_last();
        assert(s.last() == s[s.len() - 1]);
        assert forall|i: int| 0 <= i < t.len() implies (#[trigger] t[i]).distance.finite() by {
            assert(s[i].distance.finite());
        }
        assert forall|i: int, j: int| 0 <= i <= j < t.len() implies t[i].distance.key()
            <= t[j].distance.key() by {
            assert(s[i].distance.key() <= s[j].distance.key());
        }
        let p = lemma_place(t, x);
        assert forall|i: int| 0 <= i < p implies (#[trigger] s[i]).distance.key()
            <= x.distance.key() by {
            assert(t[i] == s[i]);
        }
        assert forall|i: int| p <= i < s.len() implies x.distance.key() < (
        #[trigger] s[i]).distance.key() by {
            if i < t.len() {
                assert(t[i] == s[i]);
            }
        }
        assert(placed(s, x) =~= s.insert(p, x));
        p
    }
}

/// Keeping the `k` nearest one by one is keeping the `k` nearest of all.
proof fn lemma_kept_one(s: Seq<SearchResult>, x: SearchResult, k: nat)
    requires
        finite(s),
        sorted(s),
        x.distance.finite(),
    ensures
        kept(first(s, k), x, k) == first(placed(s, x), k),
{
    lemma_placed(s, x);
    let p = lemma_place(s, x);
    if k == 0 {
        assert(first(placed(s, x), k) =~= first(s, k));
    } else if s.len() < k {
    } else {
        let t = first(s, k);
        assert(t =~= s.take(k as int));
        assert(t.last() == s[k - 1]);
        if x.distance.below(t.last().distance) {
            assert(p <= k - 1);
            let u = t.drop_last();
            assert forall|i: int| p <= i < u.len() implies x.distance.below((
            #[trigger] u[i]).distance) by {
                assert(u[i] == s[i]);
            }
            if p > 0 {
                assert(u[p - 1] == s[p - 1]);
            }
            lemma_placed_at(u, x, p);
            assert(u.insert(p, x) =~= s.insert(p, x).take(k as int));
        } else {
            assert(p >= k);
            assert(s.insert(p, x).take(k as int) =~= t);
        }
    }
}

/// One scan that keeps the `k` nearest ends with the `k` nearest.
pub proof fn law_keeping_is_nearest(a: Seq<SearchResult>, c: Seq<SearchResult>, k: nat)
    requires
        finite(a),
        finite(c),
    ensures
        kept_all(nearest(a, k), c, k) == nearest(a + c, k),
    decreases c.len(),
{
    if c.len() == 0 {
        assert(a + c =~= a);
    } else {
        let d = c.drop_last();
        assert forall|i: int| 0 <= i < d.len() implies (#[trigger] d[i]).distance.finite() by {
            assert(c[i].distance.finite());
        }
        law_keeping_is_nearest(a, d, k);
        lemma_finite_sum(a, d);
        law_ranking(a + d);
        assert(c.last() == c[c.len() - 1]);
        lemma_kept_one(ranked(a + d), c.last(), k);
        assert((a + c).drop_last() =~= a + d);
        assert((a + c).last() == c.last());
    }
}

proof fn lemma_finite_sum(a: Seq<SearchResult>, b: Seq<SearchResult>)
    requires
        finite(a),
        finite(b),
    ensures
        finite(a + b),
{
    assert forall|i: int| 0 <= i < (a + b).len() implies (#[trigger] (a + b)[i]).distance.finite()
        by {
        if i < a.len() {
            assert(a[i].distance.finite());
        } else {
            assert(b[i - a.len()].distance.finite());
        }
    }
}

/// Placing two results of different distance gives the same list in either order.
proof fn lemma_places_commute(s: Seq<SearchResult>, x: SearchResult, y: SearchResult)
    requires
        finite(s),
        x.distance.finite(),
        y.distance.finite(),
        x.distance.key() < y.distance.key(),
    ensures
        placed(placed(s, x), y) == placed(placed(s, y), x),
    decreases s.len(),
{
    if s.len() > 0 {
        let l = s.last();
        let t = s.drop_last();
        assert(l == s[s.len() - 1]);
        assert forall|i: int| 0 <= i < t.len() implies (#[trigger] t[i]).distance.finite() by {
            assert(s[i].distance.finite());
        }
        lemma_places_commute(t, x, y);
        if y.distance.below(l.distance) {
            let a = placed(t, x);
            assert(placed(s, x) == a.push(l));
            assert(a.push(l).drop_last() =~= a);
            assert(placed(a.push(l), y) == placed(a, y).push(l));
            let b = placed(t, y);
            assert(placed(s, y) == b.push(l));
            assert(b.push(l).drop_last() =~= b);
            assert(placed(b.push(l), x) == placed(b, x).push(l));
        } else {
            assert(placed(s, y) == s.push(y));
            assert(s.push(y).drop_last() =~= s);
            assert(placed(s.push(y), x) == placed(s, x).push(y));
            if x.distance.below(l.distance) {
                let a = placed(t, x);
                assert(placed(s, x) == a.push(l));
                assert(placed(a.push(l), y) == a.push(l).push(y));
            } else {
                assert(placed(s, x) == s.push(x));
            }
        }
    } else {
        assert(placed(s, x) =~= seq![x]);
        assert(placed(s, y) =~= seq![y]);
        assert(placed(seq![x], y) =~= seq![x, y]);
        assert(seq![y].drop_last() =~= s);
        assert(placed(seq![y], x) =~= seq![x, y]);
    }
}

/// Ranking after placing into a sorted tail is placing after ranking.
proof fn lemma_rank_placed(a: Seq<SearchResult>, r: Seq<SearchResult>, x: SearchResult)
    requires
        finite(a),
        finite(r),
        x.distance.finite(),
    ensures
        ranked(a + placed(r, x)) == placed(ranked(a + r), x),
    decreases r.len(),
{
    if r.len() == 0 || !x.distance.below(r.last().distance) {
        assert((a + r.push(x)).drop_last() =~= a + r);
        assert((a + r.push(x)).last() == x);
    } else {
        let t = r.drop_last();
        let z = r.last();
        assert(z == r[r.len() - 1]);
        assert forall|i: int| 0 <= i < t.len() implies (#[trigger] t[i]).distance.finite() by {
            assert(r[i].distance.finite());
        }
        lemma_rank_placed(a, t, x);
        let u = placed(t, x);
        assert((a + u.push(z)).drop_last() =~= a + u);
        assert((a + u.push(z)).last() == z);
        assert(ranked(a + u.push(z)) == placed(placed(ranked(a + t), x), z));
        assert((a + r).drop_last() =~= a + t);
        assert((a + r).last() == z);
        lemma_finite_sum(a, t);
        law_ranking(a + t);
        lemma_places_commute(ranked(a + t), x, z);
    }
}

/// Ranking a part beforehand changes nothing.
proof fn lemma_rank_part(a: Seq<SearchResult>, b: Seq<SearchResult>)
    requires
        finite(a),
        finite(b),
    ensures
        ranked(a + ranked(b)) == ranked(a + b),
    decreases b.len(),
{
    if b.len() > 0 {
        let d = b.drop_last();
        assert(b.last() == b[b.len() - 1]);
        assert forall|i: int| 0 <= i < d.len() implies (#[trigger] d[i]).distance.finite() by {
            assert(b[i].distance.finite());
        }
        lemma_rank_part(a, d);
        law_ranking(d);
        lemma_rank_placed(a, ranked(d), b.last());
        assert((a + b).drop_last() =~= a + d);
        assert((a + b).last() == b.last());
    }
}

/// After at least `k` results, none farther than `bound`, the list is full and none in it is
/// farther than `bound`.
proof fn lemma_full(t: Seq<SearchResult>, c: Seq<SearchResult>, k: nat, bound: int)
    requires
        k > 0,
        finite(t),
        sorted(t),
        t.len() <= k,
        finite(c),
        forall|i: int| 0 <= i < c.len() ==> (#[trigger] c[i]).distance.key() <= bound,
    ensures
        ({
            let r = kept_all(t, c, k);
            &&& finite(r)
            &&& sorted(r)
            &&& r.len() <= k
            &&& r.len() >= c.len() || r.len() == k
            &&& within(r, bound) >= (if c.len() < k {
                c.len()
            } else {
                k
            })
        }),
    decreases c.len(),
{
    if c.len() > 0 {
        let d = c.drop_last();
        let x = c.last();
        assert(x == c[c.len() - 1]);
        assert forall|i: int| 0 <= i < d.len() implies (#[trigger] d[i]).distance.finite()
            && d[i].distance.key() <= bound by {
            assert(c[i].distance.finite());
        }
        lemma_full(t, d, k, bound);
        let r = kept_all(t, d, k);
        if r.len() < k {
            lemma_placed(r, x);
            lemma_within_placed(r, x, bound);
        } else {
            assert(r.last() == r[r.len() - 1]);
            if x.distance.below(r.last().distance) {
                let u = r.drop_last();
                assert forall|i: int| 0 <= i < u.len() implies (
                #[trigger] u[i]).distance.finite() by {
                    assert(r[i].distance.finite());
                }
                assert forall|i: int, j: int| 0 <= i <= j < u.len() implies u[i].distance.key()
                    <= u[j].distance.key() by {
                    assert(r[i].distance.key() <= r[j].distance.key());
                }
                lemma_placed(u, x);
                lemma_within_placed(u, x, bound);
                if r.last().distance.key() <= bound {
                    lemma_all_within(r, bound);
                }
            } else {
                lemma_all_within(r, bound);
            }
        }
    }
}

/// How many results lie no farther than `bound`.
spec fn within(s: Seq<SearchResult>, bound: int) -> nat
    decreases s.len(),
{
    if s.len() == 0 {
        0
    } else {
        within(s.drop_last(), bound) + (if s.last().distance.key() <= bound {
            1nat
        } else {
            0
        })
    }
}

proof fn lemma_within_placed(s: Seq<SearchResult>, x: SearchResult, bound: int)
    requires
        x.distance.key() <= bound,
    ensures
        within(placed(s, x), bound) == within(s, bound) + 1,
        within(s, bound) <= s.len(),
    decreases s.len(),
{
    if s.len() > 0 {
        lemma_within_placed(s.drop_last(), x, bound);
        if x.distance.below(s.last().distance) {
            let u = placed(s.drop_last(), x);
            assert(u.push(s.last()).drop_last() =~= u);
        } else {
            assert(s.push(x).drop_last() =~= s);
        }
    } else {
        assert(s.push(x).drop_last() =~= s);
    }
}

proof fn lemma_all_within(s: Seq<SearchResult>, bound: int)
    requires
        sorted(s),
        s.len() > 0 ==> s.last().distance.key() <= bound,
    ensures
        within(s, bound) == s.len(),
    decreases s.len(),
{
    if s.len() > 0 {
        let t = s.drop_last();
        assert forall|i: int, j: int| 0 <= i <= j < t.len() implies t[i].distance.key()
            <= t[j].distance.key() by {
            assert(s[i].distance.key() <= s[j].distance.key());
        }
        if t.len() > 0 {
            assert(s[t.len() - 1].distance.key() <= s[s.len() - 1].distance.key());
        }
        lemma_all_within(t, bound);
    }
}

proof fn lemma_within_len(s: Seq<SearchResult>, bound: int)
    requires
        sorted(s),
    ensures
        within(s, bound) <= s.len(),
        within(s, bound) == s.len() && s.len() > 0 ==> s.last().distance.key() <= bound,
    decreases s.len(),
{
    if s.len() > 0 {
        let t = s.drop_last();
        assert forall|i: int, j: int| 0 <= i <= j < t.len() implies t[i].distance.key()
            <= t[j].distance.key() by {
            assert(s[i].distance.key() <= s[j].distance.key());
        }
        lemma_within_len(t, bound);
    }
}

/// Of a sorted list, only the first `k` matter.
proof fn lemma_only_first(t: Seq<SearchResult>, r: Seq<SearchResult>, k: nat)
    requires
        finite(t),
        sorted(t),
        t.len() <= k,
        finite(r),
        sorted(r),
    ensures
        kept_all(t, r, k) == kept_all(t, first(r, k), k),
    decreases r.len(),
{
    if k == 0 {
        lemma_keep_none(t, r);
        lemma_keep_none(t, first(r, k));
    } else if r.len() > k {
        let d = r.drop_last();
        let z = r.last();
        assert(z == r[r.len() - 1]);
        assert forall|i: int| 0 <= i < d.len() implies (#[trigger] d[i]).distance.finite()
            && d[i].distance.key() <= z.distance.key() by {
            assert(r[i].distance.finite());
            assert(r[i].distance.key() <= r[r.len() - 1].distance.key());
        }
        assert forall|i: int, j: int| 0 <= i <= j < d.len() implies d[i].distance.key()
            <= d[j].distance.key() by {
            assert(r[i].distance.key() <= r[j].distance.key());
        }
        lemma_only_first(t, d, k);
        assert(first(d, k) =~= first(r, k));
        lemma_full(t, d, k, z.distance.key());
        lemma_within_len(kept_all(t, d, k), z.distance.key());
    }
}

proof fn lemma_keep_none(t: Seq<SearchResult>, c: Seq<SearchResult>)
    ensures
        kept_all(t, c, 0) == t,
    decreases c.len(),
{
    if c.len() > 0 {
        lemma_keep_none(t, c.drop_last());
    }
}

/// Merging the `k` nearest of a later part into the `k` nearest of an earlier part gives the
/// `k` nearest of both: a search split into parts finds what one scan finds.
pub proof fn law_merging_is_nearest(a: Seq<SearchResult>, b: Seq<SearchResult>, k: nat)
    requires
        finite(a),
        finite(b),
    ensures
        kept_all(nearest(a, k), nearest(b, k), k) == nearest(a + b, k),
{
    law_ranking(a);
    law_ranking(b);
    let t = nearest(a, k);
    assert forall|i: int| 0 <= i < t.len() implies (#[trigger] t[i]).distance.finite() by {
        assert(ranked(a)[i].distance.finite());
    }
    assert forall|i: int, j: int| 0 <= i <= j < t.len() implies t[i].distance.key()
        <= t[j].distance.key() by {
        assert(ranked(a)[i].distance.key() <= ranked(a)[j].distance.key());
    }
    lemma_only_first(t, ranked(b), k);
    law_keeping_is_nearest(a, ranked(b), k);
    lemma_rank_part(a, b);
}

/// The nearest results are at most `k`, by ascending distance, and all of them where there are
/// no more than `k`.
pub proof fn law_nearest(c: Seq<SearchResult>, k: nat)
    requires
        finite(c),
    ensures
        nearest(c, k).len() == (if c.len() < k {
            c.len()
        } else {
            k
        }),
        sorted(nearest(c, k)),
        c.len() <= k ==> nearest(c, k).to_multiset() == c.to_multiset(),
        forall|i: int, j: int|
            0 <= i < nearest(c, k).len() && k <= j < c.len() ==> (#[trigger] nearest(
                c,
                k,
            )[i]).distance.key() <= (#[trigger] ranked(c)[j]).distance.key(),
{
    law_ranking(c);
    let t = nearest(c, k);
    assert forall|i: int, j: int| 0 <= i <= j < t.len() implies t[i].distance.key()
        <= t[j].distance.key() by {
        assert(ranked(c)[i].distance.key() <= ranked(c)[j].distance.key());
    }
    assert forall|i: int, j: int|
        0 <= i < t.len() && k <= j < c.len() implies (#[trigger] t[i]).distance.key() <= (
    #[trigger] ranked(c)[j]).distance.key() by {
        assert(ranked(c)[i].distance.key() <= ranked(c)[j].distance.key());
    }
}

/// Keep the `k` nearest of a list and one more result.
pub fn insert_top_k(top_k: &mut Vec<SearchResult>, candidate: SearchResult, k: usize)
    requires
        old(top_k)@.len() <= k,
    ensures
        final(top_k)@ == kept(old(top_k)@, candidate, k as nat),
        final(top_k)@.len() <= k,
{
    if k == 0 {
        return;
    }
    if top_k.len() == k {
        if !candidate.distance.lt(top_k[k - 1].distance) {
            return;
        }
        let _worst = top_k.pop();
        assert(top_k@ =~= old(top_k)@.drop_last());
    }
    let ghost before = top_k@;
    let mut p: usize = top_k.len();
    while p > 0 && candidate.distance.lt(top_k[p - 1].distance)
        invariant
            p <= top_k@.len(),
            forall|i: int|
                p <= i < top_k@.len() ==> candidate.distance.below((#[trigger] top_k@[i]).distance),
        decreases p,
    {
        p -= 1;
    }
    top_k.insert(p, candidate);
    proof {
        lemma_placed_at(before, candidate, p as int);
    }
}

/// Merge results into the `k` nearest of a list.
pub fn merge_top_k(top_k: &mut Vec<SearchResult>, more: &Vec<SearchResult>, k: usize)
    requires
        old(top_k)@.len() <= k,
    ensures
        final(top_k)@ == kept_all(old(top_k)@, more@, k as nat),
        final(top_k)@.len() <= k,
{
    let ghost start = top_k@;
    let mut i: usize = 0;
    assert(more@.take(0).len() == 0);
    while i < more.len()
        invariant
            i <= more@.len(),
            top_k@.len() <= k,
            top_k@ == kept_all(start, more@.take(i as int), k as nat),
        decreases more@.len() - i,
    {
        insert_top_k(top_k, more[i], k);
        i += 1;
        proof {
            assert(more@.take(i as int).drop_last() =~= more@.take(i - 1));
            assert(more@.take(i as int).last() == more@[i - 1]);
        }
    }
    assert(more@.take(i as int) =~= more@);
}

} // verus!
