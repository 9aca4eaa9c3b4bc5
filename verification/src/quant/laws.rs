//! What holds of calibration between percentiles, under an arithmetic that rounds to nearest and
//! keeps order.
use crate::bins::error::{accurate, lemma_constants, overflow, unit};
use crate::bins::laws::ordered_quotients;
use crate::determined::deterministic;
use crate::errors::ErrorModel;
use crate::quant::{
    ascending, bounds_outcome, calibrated, clipped, clipped_to, clips_to, column, extents, highest,
    law_ascending, law_bounds_accepted, law_calibration_encloses, law_extremes, lowest,
    percentiles_ok, ranks_to, uniform, Bounds,
};
use crate::scalar::{
    counted, difference, hundred, law_order_is_value_order, one, product, quotient, zero,
    Arithmetic, Scalar,
};
use vstd::arithmetic::div_mod::lemma_div_is_ordered;
use vstd::prelude::*;

verus! {

/// Products with a finite number that is not negative do not fall when the other number rises.
pub open spec fn ordered_products<A: Arithmetic>(x: &A) -> bool {
    forall|a: Scalar, c: Scalar, b: Scalar, r: Scalar, s: Scalar|
        a.finite() && c.finite() && b.finite() && a.at_most(c) && zero().at_most(b)
            && #[trigger] product(x, a, b, r) && #[trigger] product(x, c, b, s) ==> r.at_most(s)
}

/// An arithmetic that rounds to nearest, keeps order, and has one result for every operation, up
/// to the bits of not-a-number.
pub open spec fn regular<A: Arithmetic>(x: &A) -> bool {
    accurate(x) && ordered_quotients(x) && ordered_products(x) && deterministic(x)
}

/// Zero divided or multiplied is zero, a number divided by itself is one, one multiplied by a
/// number is the number, and differences of small whole numbers are exact.
pub open spec fn exact<A: Arithmetic>(x: &A) -> bool {
    &&& forall|a: Scalar, b: Scalar, r: Scalar|
        a.key() == 0 && b.finite() && zero().below(b) && #[trigger] quotient(x, a, b, r) ==> r.key()
            == 0
    &&& forall|a: Scalar, r: Scalar|
        a.finite() && zero().below(a) && #[trigger] quotient(x, a, a, r) ==> r == one()
    &&& forall|a: Scalar, b: Scalar, r: Scalar|
        a.key() == 0 && b.finite() && #[trigger] product(x, a, b, r) ==> r.key() == 0
    &&& forall|b: Scalar, r: Scalar|
        b.finite() && #[trigger] product(x, one(), b, r) ==> r.key() == b.key()
    &&& forall|a: Scalar, b: Scalar, r: Scalar, k: int, l: int|
        a.finite() && b.finite() && a.units() == #[trigger] (k * unit()) && b.units()
            == #[trigger] (l * unit()) && 0 <= k - l <= 0x100_0000 && #[trigger] difference(
            x,
            a,
            b,
            r,
        ) ==> r.units() == (k - l) * unit()
}

proof fn lemma_sizes()
    ensures
        unit() > 0x1_0000_0000_0000,
        overflow() > 0x1_0000_0000 * unit(),
        one().units() == unit(),
        one().finite(),
        hundred().units() > unit(),
        zero().units() == 0,
{
    lemma_constants();
    law_order_is_value_order(one(), hundred());
}

/// A number that is not larger has no larger index, even rounded down against rounded up.
proof fn lemma_indices_ordered(a: Scalar, b: Scalar, last: nat)
    requires
        a.at_most(b),
    ensures
        a.index_spec(last, false) <= b.index_spec(last, true) <= last,
{
    lemma_sizes();
    let p = unit();
    if b.finite() && !b.below(zero()) {
        law_order_is_value_order(zero(), b);
        lemma_div_is_ordered(0, b.units(), p);
        vstd::arithmetic::div_mod::lemma_div_basics(p);
        if !a.below(zero()) {
            law_order_is_value_order(zero(), a);
            law_order_is_value_order(a, b);
            lemma_div_is_ordered(0, a.units(), p);
            lemma_div_is_ordered(a.units(), b.units(), p);
        }
    }
    if a.finite() && !a.below(zero()) {
        law_order_is_value_order(zero(), a);
        lemma_div_is_ordered(0, a.units(), p);
        vstd::arithmetic::div_mod::lemma_div_basics(p);
    }
}

/// The largest rank, as the arithmetic has it: finite and not negative.
proof fn lemma_last_rank<A: Arithmetic>(x: &A, count: nat, c: Scalar, last: Scalar)
    requires
        accurate(x),
        1 <= count <= 0x100_0000,
        counted(x, count as usize, c),
        difference(x, c, one(), last),
    ensures
        c.finite(),
        c.units() == count * unit(),
        last.finite(),
        zero().at_most(last),
{
    lemma_sizes();
    let p = unit();
    assert(c.units() == count * p);
    assert(p <= count * p <= 0x100_0000 * p) by (nonlinear_arith)
        requires
            1 <= count <= 0x100_0000,
            p > 0,
    ;
    assert(last.units() >= 0);
    law_order_is_value_order(zero(), last);
}

/// A share of one hundred is finite.
proof fn lemma_share<A: Arithmetic>(x: &A, percentile: Scalar, share: Scalar)
    requires
        accurate(x),
        zero().at_most(percentile),
        percentile.at_most(hundred()),
        quotient(x, percentile, hundred(), share),
    ensures
        share.finite(),
{
    lemma_sizes();
    law_order_is_value_order(zero(), percentile);
    law_order_is_value_order(percentile, hundred());
    let p = unit();
    let o = overflow();
    let a = percentile.units();
    let h = hundred().units();
    assert(0 <= a * p < o * h) by (nonlinear_arith)
        requires
            0 <= a <= h,
            h > 0,
            p > 0,
            o > 0x1_0000_0000 * p,
    ;
}

/// The rank of a smaller percentile, rounded down, is not above that of a larger one, rounded
/// up.
pub proof fn law_ranks_are_ordered<A: Arithmetic>(
    x: &A,
    low: Scalar,
    high: Scalar,
    count: nat,
    i: nat,
    j: nat,
)
    requires
        regular(x),
        percentiles_ok(low, high),
        1 <= count <= 0x100_0000,
        ranks_to(x, low, count, false, i),
        ranks_to(x, high, count, true, j),
    ensures
        i <= j < count,
{
    let (s, c, l, a) = choose|share: Scalar, c: Scalar, last: Scalar, at: Scalar| #[trigger]
        quotient(x, low, hundred(), share) && #[trigger] counted(x, count as usize, c)
            && #[trigger] difference(x, c, one(), last) && #[trigger] product(x, share, last, at)
            && i == at.index_spec((count - 1) as nat, false);
    let (t, d, m, b) = choose|share: Scalar, c: Scalar, last: Scalar, at: Scalar| #[trigger]
        quotient(x, high, hundred(), share) && #[trigger] counted(x, count as usize, c)
            && #[trigger] difference(x, c, one(), last) && #[trigger] product(x, share, last, at)
            && j == at.index_spec((count - 1) as nat, true);
    assert(c == d);
    lemma_last_rank(x, count, c, l);
    lemma_last_rank(x, count, d, m);
    assert(l == m);
    lemma_share(x, low, s);
    lemma_share(x, high, t);
    assert(zero().below(hundred()));
    assert(s.at_most(t));
    assert(a.at_most(b));
    lemma_indices_ordered(a, b, (count - 1) as nat);
}

/// The sorted values of a dimension occur in it, are in order, and lie between its extremes.
pub(crate) proof fn lemma_sorted_column(data: Seq<Seq<Scalar>>, dims: nat, d: int, i: int, j: int)
    requires
        uniform(data, dims),
        0 <= d < dims,
        0 <= i <= j < data.len(),
    ensures
        ({
            let c = column(data, d);
            let s = ascending(c);
            &&& c.contains(s[i]) && c.contains(s[j])
            &&& s[i].finite() && s[j].finite()
            &&& s[i].at_most(s[j])
            &&& lowest(c).at_most(s[i]) && s[j].at_most(highest(c))
            &&& c.contains(lowest(c)) && c.contains(highest(c))
            &&& lowest(c).finite() && highest(c).finite()
            &&& lowest(c).at_most(highest(c))
        }),
{
    broadcast use vstd::seq_lib::group_to_multiset_ensures;

    let c = column(data, d);
    assert forall|k: int| 0 <= k < c.len() implies (#[trigger] c[k]).finite() by {
        assert(data[k].len() == dims);
        assert(data[k][d].finite());
    }
    law_ascending(c);
    law_extremes(c);
    let s = ascending(c);
    assert(s.contains(s[i]) && s.contains(s[j]));
    assert(s.to_multiset().contains(s[i]) && s.to_multiset().contains(s[j]));
    assert(c.contains(s[i]) && c.contains(s[j]));
    let k = choose|k: int| 0 <= k < c.len() && c[k] == s[i];
    let l = choose|l: int| 0 <= l < c.len() && c[l] == s[j];
    let u = choose|u: int| 0 <= u < c.len() && c[u] == lowest(c);
    let v = choose|v: int| 0 <= v < c.len() && c[v] == highest(c);
    assert(lowest(c).at_most(c[k]));
    assert(c[l].at_most(highest(c)));
    assert(c[u].finite() && c[v].finite());
    assert(lowest(c).at_most(c[v]));
}

/// Calibration between percentiles succeeds wherever calibration does. Its bounds are values of
/// their dimension, in order, and between the calibrated bounds.
pub proof fn law_percentile_bounds<A: Arithmetic>(
    x: &A,
    data: Seq<Seq<Scalar>>,
    no_dims: Seq<char>,
    low: Scalar,
    high: Scalar,
    r: std::result::Result<Bounds, ErrorModel>,
)
    requires
        regular(x),
        percentiles_ok(low, high),
        data.len() <= 0x100_0000,
        calibrated(data, no_dims) is Ok,
        clips_to(x, data, low, high, r),
    ensures
        r matches Ok(b) && {
            let base = calibrated(data, no_dims)->Ok_0;
            &&& b.dims() == base.dims()
            &&& forall|d: int|
                0 <= d < b.dims() ==> {
                    &&& base.min[d].at_most(#[trigger] b.min[d])
                    &&& b.min[d].at_most(b.max[d])
                    &&& b.max[d].at_most(base.max[d])
                    &&& column(data, d).contains(b.min[d])
                    &&& column(data, d).contains(b.max[d])
                }
        },
{
    law_calibration_encloses(data, no_dims);
    let dims = data[0].len();
    let base = extents(data, dims);
    let (i, j, b) = choose|i: nat, j: nat, b: Bounds|
        ranks_to(x, low, data.len(), false, i) && ranks_to(x, high, data.len(), true, j)
            && #[trigger] clipped_to(x, data, i, j, b) && r == bounds_outcome(b);
    law_ranks_are_ordered(x, low, high, data.len(), i, j);
    assert forall|d: int| 0 <= d < dims implies {
        &&& base.min[d].at_most(#[trigger] b.min[d])
        &&& b.min[d].at_most(b.max[d])
        &&& b.max[d].at_most(base.max[d])
        &&& column(data, d).contains(b.min[d])
        &&& column(data, d).contains(b.max[d])
        &&& b.min[d].finite()
        &&& b.max[d].finite()
    } by {
        lemma_sorted_column(data, dims, d, i as int, j as int);
        let s = ascending(column(data, d));
        assert(clipped(
            x,
            s[i as int],
            s[j as int],
            (base.min[d], base.max[d]),
            (b.min[d], b.max[d]),
        ));
    }
    assert(b.valid());
    law_bounds_accepted(b);
}

proof fn lemma_first_rank<A: Arithmetic>(x: &A, low: Scalar, count: nat, i: nat)
    requires
        accurate(x),
        exact(x),
        low.key() == 0,
        1 <= count <= 0x100_0000,
        ranks_to(x, low, count, false, i),
    ensures
        i == 0,
{
    let (s, c, l, a) = choose|share: Scalar, c: Scalar, last: Scalar, at: Scalar| #[trigger]
        quotient(x, low, hundred(), share) && #[trigger] counted(x, count as usize, c)
            && #[trigger] difference(x, c, one(), last) && #[trigger] product(x, share, last, at)
            && i == at.index_spec((count - 1) as nat, false);
    lemma_last_rank(x, count, c, l);
    assert(zero().below(hundred()));
    assert(s.key() == 0);
    assert(a.key() == 0);
    lemma_sizes();
    law_order_is_value_order(a, zero());
    vstd::arithmetic::div_mod::lemma_div_basics(unit());
}

proof fn lemma_top_rank<A: Arithmetic>(x: &A, count: nat, j: nat)
    requires
        accurate(x),
        exact(x),
        1 <= count <= 0x100_0000,
        ranks_to(x, hundred(), count, true, j),
    ensures
        j == count - 1,
{
    let (s, c, l, a) = choose|share: Scalar, c: Scalar, last: Scalar, at: Scalar| #[trigger]
        quotient(x, hundred(), hundred(), share) && #[trigger] counted(x, count as usize, c)
            && #[trigger] difference(x, c, one(), last) && #[trigger] product(x, share, last, at)
            && j == at.index_spec((count - 1) as nat, true);
    lemma_last_rank(x, count, c, l);
    lemma_sizes();
    let p = unit();
    let n = count as int;
    assert(zero().below(hundred()));
    assert(s == one());
    assert(a.key() == l.key());
    assert(c.units() == n * p);
    assert(one().units() == 1 * p);
    assert(l.units() == (n - 1) * p);
    assert(a.finite());
    law_order_is_value_order(a, l);
    law_order_is_value_order(zero(), a);
    assert(0 <= (n - 1) * p) by (nonlinear_arith)
        requires
            n >= 1,
            p > 0,
    ;
    vstd::arithmetic::div_mod::lemma_div_multiples_vanish(n - 1, p);
    assert((n - 1) * p == p * (n - 1)) by (nonlinear_arith);
}

/// Calibration from the lowest to the highest percentile gives the calibrated bounds.
pub proof fn law_all_percentiles_give_the_extents<A: Arithmetic>(
    x: &A,
    data: Seq<Seq<Scalar>>,
    no_dims: Seq<char>,
    low: Scalar,
    r: std::result::Result<Bounds, ErrorModel>,
)
    requires
        regular(x),
        exact(x),
        low.key() == 0,
        data.len() <= 0x100_0000,
        calibrated(data, no_dims) is Ok,
        clips_to(x, data, low, hundred(), r),
    ensures
        r matches Ok(b) && {
            let base = calibrated(data, no_dims)->Ok_0;
            &&& b.dims() == base.dims()
            &&& forall|d: int|
                0 <= d < b.dims() ==> (#[trigger] b.min[d]).key() == base.min[d].key()
                    && b.max[d].key() == base.max[d].key()
        },
{
    law_calibration_encloses(data, no_dims);
    assert(percentiles_ok(low, hundred()));
    let n = data.len();
    let (i, j, b) = choose|i: nat, j: nat, b: Bounds|
        ranks_to(x, low, data.len(), false, i) && ranks_to(x, hundred(), data.len(), true, j)
            && #[trigger] clipped_to(x, data, i, j, b) && r == bounds_outcome(b);
    lemma_first_rank(x, low, n, i);
    lemma_top_rank(x, n, j);
    law_percentile_bounds(x, data, no_dims, low, hundred(), r);
    let base = calibrated(data, no_dims)->Ok_0;
    lemma_clipped_at_the_ends(x, data, base, b);
    assert(r->Ok_0 == b);
    assert(b.dims() == base.dims() == data[0].len());
}

/// Clipped to the first and the last of the sorted values, bounds are the extents.
proof fn lemma_clipped_at_the_ends<A: Arithmetic>(
    x: &A,
    data: Seq<Seq<Scalar>>,
    base: Bounds,
    b: Bounds,
)
    requires
        data.len() > 0,
        uniform(data, data[0].len()),
        base == extents(data, data[0].len()),
        clipped_to(x, data, 0, (data.len() - 1) as nat, b),
    ensures
        forall|d: int|
            0 <= d < data[0].len() ==> (#[trigger] b.min[d]).key() == base.min[d].key()
                && b.max[d].key() == base.max[d].key(),
{
    let dims = data[0].len();
    let n = (data.len() - 1) as nat;
    assert forall|d: int| 0 <= d < dims implies (#[trigger] b.min[d]).key() == base.min[d].key()
        && b.max[d].key() == base.max[d].key() by {
        lemma_ends(data, dims, d);
        let s = ascending(column(data, d));
        assert(base.min[d] == lowest(column(data, d)));
        assert(base.max[d] == highest(column(data, d)));
        assert(clipped(
            x,
            s[0],
            s[n as int],
            (base.min[d], base.max[d]),
            (b.min[d], b.max[d]),
        ));
    }
}

/// The first and the last of the sorted values are the extremes.
proof fn lemma_ends(data: Seq<Seq<Scalar>>, dims: nat, d: int)
    requires
        uniform(data, dims),
        0 <= d < dims,
        data.len() > 0,
    ensures
        ({
            let c = column(data, d);
            &&& ascending(c)[0].key() == lowest(c).key()
            &&& ascending(c)[data.len() - 1].key() == highest(c).key()
        }),
{
    broadcast use vstd::seq_lib::group_to_multiset_ensures;

    let c = column(data, d);
    let n = data.len() - 1;
    lemma_sorted_column(data, dims, d, 0, n);
    assert forall|k: int| 0 <= k < c.len() implies (#[trigger] c[k]).finite() by {
        assert(data[k].len() == dims);
        assert(data[k][d].finite());
    }
    law_ascending(c);
    let s = ascending(c);
    assert(s.to_multiset().contains(lowest(c)) && s.to_multiset().contains(highest(c)));
    assert(s.contains(lowest(c)) && s.contains(highest(c)));
    let u = choose|u: int| 0 <= u < s.len() && s[u] == lowest(c);
    let v = choose|v: int| 0 <= v < s.len() && s[v] == highest(c);
    assert(s[0].key() <= s[u].key());
    assert(s[v].key() <= s[n].key());
}

} // verus!
