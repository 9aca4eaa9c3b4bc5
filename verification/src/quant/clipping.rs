//! What calibration between percentiles keeps and what it clips, under an arithmetic that rounds
//! to nearest.
use crate::errors::ErrorModel;
use crate::quant::laws::lemma_sorted_column;
use crate::quant::{
    ascending, bounds_outcome, calibrated, clipped, clipped_to, clips_to, column, extents,
    global_fault, globally_calibrated, highest, joined, lemma_first_non_finite,
    law_ascending, law_bounds_accepted, law_calibration_encloses, law_extremes, lowest, ranks_to, uniform, Bounds,
};
use crate::rounding::{close, grain, rounding, size, speck, steady, value};
use crate::rounding::{
    law_order_of_values, law_signs, lemma_expand, lemma_numbers, lemma_positive, lemma_size,
    lemma_swap, lemma_thresholds, lemma_times, lemma_whole,
};
use crate::scalar::{
    counted, difference, hundred, law_order_is_value_order, millionth, one, product, quotient,
    zero, Arithmetic, Scalar,
};
use vstd::prelude::*;

verus! {

/// The numbers `c` arranged in ascending order.
pub open spec fn arranged(c: Seq<Scalar>, s: Seq<Scalar>) -> bool {
    &&& s.len() == c.len()
    &&& s.to_multiset() == c.to_multiset()
    &&& forall|i: int, j: int| 0 <= i <= j < s.len() ==> s[i].at_most(s[j])
}

/// Calibrated bounds are the smallest and the largest value of their dimension.
pub proof fn law_calibration_is_tight(data: Seq<Seq<Scalar>>, no_dims: Seq<char>)
    ensures
        calibrated(data, no_dims) matches Ok(b) ==> forall|d: int|
            0 <= d < data[0].len() ==> column(data, d).contains(#[trigger] b.min[d]) && column(
                data,
                d,
            ).contains(b.max[d]) && forall|i: int|
                0 <= i < data.len() ==> b.min[d].at_most(#[trigger] data[i][d])
                    && data[i][d].at_most(b.max[d]),
{
    if calibrated(data, no_dims) is Ok {
        law_calibration_encloses(data, no_dims);
        let b = calibrated(data, no_dims)->Ok_0;
        let dims = data[0].len();
        assert forall|d: int| 0 <= d < dims implies column(data, d).contains(#[trigger] b.min[d])
            && column(data, d).contains(b.max[d]) && forall|i: int|
            0 <= i < data.len() ==> b.min[d].at_most(#[trigger] data[i][d]) && data[i][d].at_most(
                b.max[d],
            ) by {
            lemma_sorted_column(data, dims, d, 0, 0);
        }
    }
}

/// Every number of joined vectors is a coordinate of one of them, and the other way round.
proof fn lemma_joined(data: Seq<Seq<Scalar>>)
    ensures
        forall|i: int, d: int|
            0 <= i < data.len() && 0 <= d < data[i].len() ==> joined(data).contains(
                #[trigger] data[i][d],
            ),
        forall|k: int|
            0 <= k < joined(data).len() ==> #[trigger] coordinate_of(data, joined(data)[k]),
    decreases data.len(),
{
    if data.len() > 0 {
        let t = data.drop_last();
        let u = joined(t);
        let r = joined(data);
        lemma_joined(t);
        assert(r == u + data.last());
        assert forall|i: int, d: int| 0 <= i < data.len() && 0 <= d < data[i].len() implies r.contains(
            #[trigger] data[i][d],
        ) by {
            if i < t.len() {
                assert(t[i] == data[i]);
                assert(u.contains(t[i][d]));
                let k = choose|k: int| 0 <= k < u.len() && u[k] == t[i][d];
                assert(r[k] == data[i][d]);
            } else {
                assert(r[u.len() + d] == data[i][d]);
            }
        }
        assert forall|k: int| 0 <= k < r.len() implies #[trigger] coordinate_of(data, r[k]) by {
            if k < u.len() {
                assert(coordinate_of(t, u[k]));
                let (i, d) = choose|i: int, d: int|
                    0 <= i < t.len() && 0 <= d < t[i].len() && #[trigger] t[i][d] == u[k];
                assert(data[i][d] == r[k]);
            } else {
                assert(data[data.len() - 1][k - u.len()] == r[k]);
            }
        }
    }
}

/// `v` is a coordinate of one of the vectors.
pub open spec fn coordinate_of(data: Seq<Seq<Scalar>>, v: Scalar) -> bool {
    exists|i: int, d: int| 0 <= i < data.len() && 0 <= d < data[i].len() && #[trigger] data[i][d] == v
}

proof fn lemma_global_fault(data: Seq<Seq<Scalar>>, dims: nat, from: nat)
    requires
        from <= data.len(),
    ensures
        global_fault(data, dims, from) is None ==> forall|i: int|
            from <= i < data.len() ==> (#[trigger] data[i]).len() == dims && forall|d: int|
                0 <= d < dims ==> (#[trigger] data[i][d]).finite(),
    decreases data.len() - from,
{
    if from < data.len() {
        lemma_first_non_finite(data[from as int], 0);
        lemma_global_fault(data, dims, from + 1);
        if global_fault(data, dims, from) is None {
            assert forall|i: int| from <= i < data.len() implies (#[trigger] data[i]).len() == dims
                && forall|d: int| 0 <= d < dims ==> (#[trigger] data[i][d]).finite() by {
                if i > from {
                    assert(from + 1 <= i);
                }
            }
        }
    }
}

/// Calibration with one range gives every dimension the smallest and the largest of all
/// coordinates.
pub proof fn law_global_calibration(data: Seq<Seq<Scalar>>)
    ensures
        globally_calibrated(data) matches Ok(b) ==> {
            &&& b.dims() == data[0].len()
            &&& forall|d: int|
                0 <= d < b.dims() ==> (#[trigger] b.min[d]) == b.min[0] && b.max[d] == b.max[0]
            &&& coordinate_of(data, b.min[0]) && coordinate_of(data, b.max[0])
            &&& forall|i: int, d: int|
                0 <= i < data.len() && 0 <= d < data[i].len() ==> b.min[0].at_most(
                    #[trigger] data[i][d],
                ) && data[i][d].at_most(b.max[0])
        },
{
    if globally_calibrated(data) is Ok {
        let b = globally_calibrated(data)->Ok_0;
        let all = joined(data);
        lemma_global_fault(data, data[0].len(), 0);
        lemma_joined(data);
        assert forall|k: int| 0 <= k < all.len() implies (#[trigger] all[k]).finite() by {
            assert(coordinate_of(data, all[k]));
        }
        assert(all.contains(data[0][0]));
        law_extremes(all);
        let p = choose|p: int| 0 <= p < all.len() && all[p] == lowest(all);
        let q = choose|q: int| 0 <= q < all.len() && all[q] == highest(all);
        assert(coordinate_of(data, all[p]) && coordinate_of(data, all[q]));
        assert forall|i: int, d: int|
            0 <= i < data.len() && 0 <= d < data[i].len() implies b.min[0].at_most(
            #[trigger] data[i][d],
        ) && data[i][d].at_most(b.max[0]) by {
            assert(all.contains(data[i][d]));
            let k = choose|k: int| 0 <= k < all.len() && all[k] == data[i][d];
            assert(lowest(all).at_most(all[k]));
        }
    }
}

/// How many of the numbers `c` lie below `v`.
pub open spec fn below_count(c: Seq<Scalar>, v: Scalar) -> nat
    decreases c.len(),
{
    if c.len() == 0 {
        0
    } else {
        below_count(c.drop_last(), v) + (if c.last().below(v) {
            1nat
        } else {
            0nat
        })
    }
}

/// How many of the numbers `c` lie above `v`.
pub open spec fn above_count(c: Seq<Scalar>, v: Scalar) -> nat
    decreases c.len(),
{
    if c.len() == 0 {
        0
    } else {
        above_count(c.drop_last(), v) + (if v.below(c.last()) {
            1nat
        } else {
            0nat
        })
    }
}

proof fn lemma_counts_without(s: Seq<Scalar>, k: int, v: Scalar)
    requires
        0 <= k < s.len(),
    ensures
        below_count(s, v) == below_count(s.remove(k), v) + (if s[k].below(v) {
            1nat
        } else {
            0nat
        }),
        above_count(s, v) == above_count(s.remove(k), v) + (if v.below(s[k]) {
            1nat
        } else {
            0nat
        }),
    decreases s.len(),
{
    let t = s.drop_last();
    if k == s.len() - 1 {
        assert(s.remove(k) =~= t);
    } else {
        lemma_counts_without(t, k, v);
        let r = s.remove(k);
        assert(r.drop_last() =~= t.remove(k));
        assert(r.last() == s.last());
        assert(t[k] == s[k]);
    }
}

/// Numbers in another order have the same counts.
proof fn lemma_counts_of_arranged(c: Seq<Scalar>, s: Seq<Scalar>, v: Scalar)
    requires
        c.len() == s.len(),
        c.to_multiset() == s.to_multiset(),
    ensures
        below_count(c, v) == below_count(s, v),
        above_count(c, v) == above_count(s, v),
    decreases c.len(),
{
    broadcast use vstd::seq_lib::group_to_multiset_ensures;

    if c.len() > 0 {
        let x = c.last();
        let t = c.drop_last();
        assert(c.contains(x));
        assert(c.to_multiset().contains(x));
        assert(s.to_multiset().contains(x));
        assert(s.contains(x));
        let k = choose|k: int| 0 <= k < s.len() && s[k] == x;
        let r = s.remove(k);
        assert(c =~= t.push(x));
        assert(c.to_multiset() =~= t.to_multiset().insert(x));
        vstd::seq_lib::to_multiset_remove(s, k);
        vstd::seq_lib::to_multiset_remove(c, c.len() - 1);
        assert(c.remove(c.len() - 1) =~= t);
        assert(t.to_multiset() =~= r.to_multiset());
        lemma_counts_of_arranged(t, r, v);
        lemma_counts_without(s, k, v);
    }
}

proof fn lemma_counts_of_sorted(s: Seq<Scalar>, i: int, j: int)
    requires
        0 <= i < s.len(),
        0 <= j < s.len(),
        forall|a: int, b: int| 0 <= a <= b < s.len() ==> s[a].at_most(s[b]),
    ensures
        below_count(s, s[i]) <= i,
        above_count(s, s[j]) <= s.len() - 1 - j,
{
    lemma_prefix_counts(s, s[i], s[j], i, j, s.len());
    assert(s.take(s.len() as int) =~= s);
}

proof fn lemma_prefix_counts(s: Seq<Scalar>, lo: Scalar, hi: Scalar, i: int, j: int, n: nat)
    requires
        n <= s.len(),
        0 <= i < s.len(),
        0 <= j < s.len(),
        lo == s[i],
        hi == s[j],
        forall|a: int, b: int| 0 <= a <= b < s.len() ==> s[a].at_most(s[b]),
    ensures
        below_count(s.take(n as int), lo) <= (if n < i {
            n as int
        } else {
            i
        }),
        above_count(s.take(n as int), hi) <= (if n <= j + 1 {
            0
        } else {
            n - 1 - j
        }),
    decreases n,
{
    let t = s.take(n as int);
    if n > 0 {
        lemma_prefix_counts(s, lo, hi, i, j, (n - 1) as nat);
        assert(t.drop_last() =~= s.take(n - 1));
        assert(t.last() == s[n - 1]);
        if n - 1 >= i {
            assert(s[i].at_most(s[n - 1]));
        }
        if n - 1 <= j {
            assert(s[n - 1].at_most(s[j]));
        }
    }
}

/// Between the ranks `i` and `j` at most `i` of the numbers are clipped below and at most as many
/// above as come after `j`.
pub proof fn law_few_values_are_clipped(
    c: Seq<Scalar>,
    i: nat,
    j: nat,
    min: Scalar,
    max: Scalar,
)
    requires
        i < c.len(),
        j < c.len(),
        clips_at(c, i, j, min, max),
    ensures
        exists|s: Seq<Scalar>| #[trigger]
            arranged(c, s) && (value(s[j as int]) - value(s[i as int]) >= 1real / 1_000_000real
                ==> below_count(c, min) <= i && above_count(c, max) <= c.len() - 1 - j),
{
    let s = choose|s: Seq<Scalar>| #[trigger] arranged(c, s) && bounded_by(c, s, i, j, min, max);
    lemma_counts_of_sorted(s, i as int, j as int);
    lemma_counts_of_arranged(c, s, s[i as int]);
    lemma_counts_of_arranged(c, s, s[j as int]);
    assert(arranged(c, s));
}

/// The position of percentile `p` among `n` numbers.
pub open spec fn position(p: real, n: nat) -> real {
    p / 100real * ((n - 1) as real)
}

/// How far a position may be off.
pub open spec fn slack(t: real) -> real {
    8real * (grain() * (t + 1real))
}

/// `i` is the position of percentile `p` among `n` numbers: rounded down, or with `up` rounded up.
pub open spec fn rank_of(p: real, n: nat, up: bool, i: nat) -> bool {
    let t = position(p, n);
    &&& i < n
    &&& if up {
        t - slack(t) <= i as real && (i as real) < t + slack(t) + 1real
    } else {
        i as real <= t + slack(t) && t - slack(t) < i as real + 1real
    }
}

/// A product of two values between zero and their weights, each off by a grain.
proof fn lemma_position(sh: real, la: real, v: real, l: real, g: real, s: real)
    requires
        0real <= v <= 1real,
        0real <= l <= 0x100_0000real,
        0real <= s <= 1real / 0x1_0000_0000_0000real,
        0real <= g <= 1real / 16real,
        size(sh - v) <= g * (v + s),
        size(la - l) <= g * (l + s),
    ensures
        size(sh * la - v * l) <= 4real * (g * (v * l + 1real)),
{
    let p = sh - v;
    let q = la - l;
    let a = v + s;
    let b = l + s;
    let t = v * l;
    lemma_expand(v, p, l, q);
    lemma_size(v, q);
    lemma_size(p, l);
    lemma_size(p, q);
    lemma_size(v * q, p * l);
    lemma_size(v * q + p * l, p * q);
    lemma_positive(g, a);
    lemma_positive(g, b);
    lemma_times(size(q), g * b, v);
    lemma_times(v, a, g * b);
    lemma_times(size(p), g * a, l);
    lemma_times(l, b, g * a);
    lemma_times(size(p), g * a, size(q));
    lemma_times(size(q), g * b, g * a);
    lemma_positive(a, b);
    let m = a * b;
    assert(a * (g * b) == g * m) by (nonlinear_arith)
        requires
            m == a * b,
    ;
    assert((g * a) * b == g * m) by (nonlinear_arith)
        requires
            m == a * b,
    ;
    lemma_positive(g, m);
    assert((g * a) * (g * b) == g * (g * m)) by (nonlinear_arith)
        requires
            m == a * b,
    ;
    lemma_times(g, 1real / 16real, g * m);
    assert(16real * size(sh * la - t) <= 33real * (g * m));
    // m is at most t and a little
    lemma_expand(v, s, l, s);
    lemma_times(v, 1real, s);
    lemma_times(s, 1real / 0x1_0000_0000_0000real, l);
    lemma_times(s, 1real, s);
    lemma_swap(s, l, s, l);
    assert(m <= t + 1real / 8real);
    lemma_positive(v, l);
    lemma_times(m, 33real / 32real * (t + 1real), g);
    assert(g * (33real / 32real * (t + 1real)) == 33real / 32real * (g * (t + 1real)))
        by (nonlinear_arith);
    lemma_positive(g, t + 1real);
}

/// The position of a percentile as the arithmetic has it.
proof fn lemma_product_position<A: Arithmetic>(
    x: &A,
    share: Scalar,
    last: Scalar,
    at: Scalar,
    v: real,
    l: real,
)
    requires
        rounding(x),
        0real <= v <= 1real,
        0real <= l <= 0x100_0000real,
        share.finite(),
        last.finite(),
        close(value(share), v, grain(), speck()),
        close(value(last), l, grain(), speck()),
        product(x, share, last, at),
    ensures
        at.finite(),
        size(value(at) - v * l) <= slack(v * l),
{
    lemma_numbers();
    let g = grain();
    let s = speck();
    let t = v * l;
    lemma_expand(g, 0real, v, s);
    lemma_expand(g, 0real, l, s);
    lemma_position(value(share), value(last), v, l, g, s);
    let e = value(share) * value(last);
    lemma_positive(v, l);
    lemma_times(v, 1real, l);
    let h = g * (t + 1real);
    lemma_times(g, 1real / 16real, t + 1real);
    lemma_size(e - t, t);
    assert(size(e) <= 2real * (t + 1real));
    assert(at.finite());
    lemma_times(size(e), 2real * (t + 1real), g);
    assert(g * (2real * (t + 1real)) == 2real * h) by (nonlinear_arith)
        requires
            h == g * (t + 1real),
    ;
    lemma_times(s, t + 1real, g);
    lemma_size(value(at) - e, e - t);
}

/// The index of a number that is close to a position.
proof fn lemma_index(at: Scalar, t: real, n: nat, up: bool)
    requires
        at.finite(),
        size(value(at) - t) <= slack(t),
        0real <= t <= (n - 1) as real,
        n >= 1,
    ensures
        ({
            let i = at.index_spec((n - 1) as nat, up);
            &&& i < n
            &&& if up {
                t - slack(t) <= i as real && (i as real) < t + slack(t) + 1real
            } else {
                i as real <= t + slack(t) && t - slack(t) < i as real + 1real
            }
        }),
{
    lemma_numbers();
    lemma_positive(grain(), t + 1real);
    law_order_of_values(at, zero());
    if !at.below(zero()) {
        law_order_is_value_order(at, zero());
        assert(zero().units() == 0);
        lemma_whole(at);
    }
}

/// The position of a percentile comes out within rounding.
proof fn lemma_rank<A: Arithmetic>(x: &A, p: Scalar, n: nat, up: bool, i: nat)
    requires
        rounding(x),
        p.finite(),
        0real <= value(p) <= 100real,
        1 <= n <= 0x100_0000,
        ranks_to(x, p, n, up, i),
    ensures
        rank_of(value(p), n, up, i),
{
    let (share, c, last, at) = choose|share: Scalar, c: Scalar, last: Scalar, at: Scalar| #[trigger]
        quotient(x, p, hundred(), share) && #[trigger] counted(x, n as usize, c)
            && #[trigger] difference(x, c, one(), last) && #[trigger] product(x, share, last, at)
            && i == at.index_spec((n - 1) as nat, up);
    let v = value(p) / 100real;
    let l = (n - 1) as real;
    lemma_shares(x, p, n, share, c, last);
    lemma_product_position(x, share, last, at, v, l);
    lemma_positive(v, l);
    lemma_times(v, 1real, l);
    lemma_index(at, v * l, n, up);
}

proof fn lemma_shares<A: Arithmetic>(
    x: &A,
    p: Scalar,
    n: nat,
    share: Scalar,
    c: Scalar,
    last: Scalar,
)
    requires
        rounding(x),
        p.finite(),
        0real <= value(p) <= 100real,
        1 <= n <= 0x100_0000,
        quotient(x, p, hundred(), share),
        counted(x, n as usize, c),
        difference(x, c, one(), last),
    ensures
        share.finite(),
        last.finite(),
        close(value(share), value(p) / 100real, grain(), speck()),
        close(value(last), (n - 1) as real, grain(), speck()),
{
    lemma_numbers();
    assert(value(c) == n as real);
}

/// Calibration between percentiles clips at the values of the two ranks: wherever these are at
/// least a millionth apart, they are the bounds. Where they are less than nine tenths of that
/// apart, the bounds are the smallest and the largest value.
pub proof fn law_percentiles_clip<A: Arithmetic>(
    x: &A,
    data: Seq<Seq<Scalar>>,
    no_dims: Seq<char>,
    low: Scalar,
    high: Scalar,
    b: Bounds,
) -> (ranks: (nat, nat))
    requires
        rounding(x),
        steady(x),
        calibrated(data, no_dims) is Ok,
        data.len() <= 0x100_0000,
        low.finite(),
        high.finite(),
        0real <= value(low) < value(high) <= 100real,
        clips_to(x, data, low, high, Ok(b)),
    ensures
        rank_of(value(low), data.len(), false, ranks.0),
        rank_of(value(high), data.len(), true, ranks.1),
        forall|d: int|
            0 <= d < data[0].len() ==> #[trigger] clips_at(
                column(data, d),
                ranks.0,
                ranks.1,
                b.min[d],
                b.max[d],
            ),
{
    law_calibration_encloses(data, no_dims);
    let dims = data[0].len();
    let n = data.len();
    let base = extents(data, dims);
    let (i, j, bb) = choose|i: nat, j: nat, bb: Bounds|
        ranks_to(x, low, n, false, i) && ranks_to(x, high, n, true, j) && #[trigger] clipped_to(
            x,
            data,
            i,
            j,
            bb,
        ) && Ok::<Bounds, ErrorModel>(b) == bounds_outcome(bb);
    assert(b == bb);
    lemma_rank(x, low, n, false, i);
    lemma_rank(x, high, n, true, j);
    law_bounds_accepted(bb);
    assert forall|d: int| 0 <= d < dims implies #[trigger] clips_at(
        column(data, d),
        i,
        j,
        b.min[d],
        b.max[d],
    ) by {
        let c = column(data, d);
        let s = ascending(c);
        if i <= j {
            lemma_sorted_column(data, dims, d, i as int, j as int);
        } else {
            lemma_sorted_column(data, dims, d, j as int, i as int);
        }
        lemma_arranged(data, dims, d);
        assert(base.min[d] == lowest(c) && base.max[d] == highest(c));
        assert(b.min[d] == bb.min[d]);
        assert(clipped(
            x,
            s[i as int],
            s[j as int],
            (base.min[d], base.max[d]),
            (b.min[d], b.max[d]),
        ));
        let range = choose|range: Scalar| #[trigger]
            difference(x, s[j as int], s[i as int], range) && (b.min[d], b.max[d]) == (
            if range.abs_spec().below(millionth()) {
                (base.min[d], base.max[d])
            } else {
                (s[i as int], s[j as int])
            });
        lemma_range(x, s[i as int], s[j as int], range);
        assert(!b.max[d].below(b.min[d]));
        assert(bounded_by(c, s, i, j, b.min[d], b.max[d]));
    }
    (i, j)
}

/// The bounds of the numbers `s`, which are in ascending order, between the ranks `i` and `j`.
pub open spec fn bounded_by(
    c: Seq<Scalar>,
    s: Seq<Scalar>,
    i: nat,
    j: nat,
    min: Scalar,
    max: Scalar,
) -> bool {
    let extent = value(s[j as int]) - value(s[i as int]);
    &&& extent >= 1real / 1_000_000real ==> min == s[i as int] && max == s[j as int]
    &&& extent <= 8real / 10_000_000real ==> c.contains(min) && c.contains(max) && forall|k: int|
        0 <= k < c.len() ==> min.at_most(#[trigger] c[k]) && c[k].at_most(max)
}

/// The bounds of the numbers `c` between the ranks `i` and `j`.
pub open spec fn clips_at(c: Seq<Scalar>, i: nat, j: nat, min: Scalar, max: Scalar) -> bool {
    exists|s: Seq<Scalar>| #[trigger] arranged(c, s) && bounded_by(c, s, i, j, min, max)
}

proof fn lemma_arranged(data: Seq<Seq<Scalar>>, dims: nat, d: int)
    requires
        uniform(data, dims),
        0 <= d < dims,
        data.len() > 0,
    ensures
        arranged(column(data, d), ascending(column(data, d))),
        forall|k: int|
            0 <= k < data.len() ==> lowest(column(data, d)).at_most(#[trigger] column(data, d)[k])
                && column(data, d)[k].at_most(highest(column(data, d))),
{
    let c = column(data, d);
    assert forall|k: int| 0 <= k < c.len() implies (#[trigger] c[k]).finite() by {
        assert(data[k].len() == dims);
        assert(data[k][d].finite());
    }
    law_ascending(c);
    law_extremes(c);
    let s = ascending(c);
    assert forall|i: int, j: int| 0 <= i <= j < s.len() implies s[i].at_most(s[j]) by {
        assert(s[i].finite() && s[j].finite());
        assert(s[i].key() <= s[j].key());
    }
}

proof fn lemma_range<A: Arithmetic>(x: &A, lo: Scalar, hi: Scalar, range: Scalar)
    requires
        rounding(x),
        steady(x),
        lo.finite(),
        hi.finite(),
        difference(x, hi, lo, range),
    ensures
        value(hi) - value(lo) >= 1real / 1_000_000real ==> !range.abs_spec().below(millionth()),
        value(hi) - value(lo) <= 8real / 10_000_000real ==> range.abs_spec().below(millionth())
            || hi.below(lo),
{
    lemma_numbers();
    lemma_thresholds();
    let e = value(hi) - value(lo);
    law_order_of_values(hi, lo);
    let g = grain();
    if range.finite() {
        law_signs(range);
        law_order_of_values(range.abs_spec(), millionth());
        assert(millionth().finite());
        if 0real <= e <= 8real / 10_000_000real {
            lemma_times(e, 1real, g);
            lemma_times(speck(), 1real / 0x1_0000_0000_0000_0000real, g);
            lemma_times(e, 8real / 10_000_000real, g);
            lemma_size(value(range) - e, e);
        }
    } else {
        assert(range.abs_spec().magnitude() == range.magnitude());
    }
}

} // verus!
