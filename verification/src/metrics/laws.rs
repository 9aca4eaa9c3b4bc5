//! What recall and reciprocal rank are, under an arithmetic that rounds to nearest.
use crate::metrics::{
    among, depth, hits, ids_of, metric_judging, metrics_to, query_scored, rank, rank_added,
    recall_added, recall_to, reciprocal, reciprocal_rank_to, tallied, SearchMetrics, Tally,
};
use crate::ranking::SearchResult;
use crate::rounding::wide::{
    lemma_wide_numbers, lemma_wide_one, lemma_wide_total, wide_finite, wide_grain, wide_rounding,
    wide_speck, wide_value,
};
use crate::rounding::{size, sum, within};
use crate::rounding::{
    lemma_divide_out, lemma_divided, lemma_expand, lemma_half, lemma_positive, lemma_quotient,
    lemma_size, lemma_times,
};
use crate::scalar::{Arithmetic, Scalar};
use crate::search::answered;
use crate::stats::divided;
use crate::stats::laws::{lemma_wide_drift, wide_drift};
use crate::storage::reader::ReaderModel;
use crate::wide::{
    share, wide_counted, wide_one, wide_quotient, wide_sum, wide_zero, Wide, WideArithmetic,
};
use vstd::prelude::*;

verus! {

/// One for every answer that is one of the first `n` true ones.
pub open spec fn right_answers(
    truth: Seq<u64>,
    predicted: Seq<u64>,
    n: nat,
) -> spec_fn(int) -> real {
    |i: int|
        if truth.take(n as int).contains(predicted[i]) {
            1real
        } else {
            0real
        }
}

proof fn lemma_hits_sum(truth: Seq<u64>, predicted: Seq<u64>, n: nat, upto: nat)
    requires
        n <= truth.len(),
    ensures
        hits(truth, n, predicted, upto) as real == sum(right_answers(truth, predicted, n), upto),
        hits(truth, n, predicted, upto) <= upto,
    decreases upto,
{
    if upto > 0 {
        lemma_hits_sum(truth, predicted, n, (upto - 1) as nat);
        let id = predicted[upto - 1];
        let t = truth.take(n as int);
        if among(truth, n, id) {
            let i = choose|i: int| 0 <= i < n && i < truth.len() && #[trigger] truth[i] == id;
            assert(t[i] == id);
        }
        if t.contains(id) {
            let i = choose|i: int| 0 <= i < t.len() && t[i] == id;
            assert(truth[i] == id);
        }
    }
}

/// Recall is the share of right answers among those looked at: as many as are asked for, answered
/// and true.
pub proof fn law_recall<W: WideArithmetic>(
    w: &W,
    truth: Seq<u64>,
    predicted: Seq<u64>,
    k: nat,
    n: nat,
    r: Wide,
)
    requires
        wide_rounding(w),
        recall_to(w, truth, predicted, k, r),
        0 < n <= 0x20_0000_0000_0000,
        n <= k && n <= truth.len() && n <= predicted.len(),
        n == k || n == truth.len() || n == predicted.len(),
    ensures
        wide_finite(r),
        size(wide_value(r) - sum(right_answers(truth, predicted, n), n) / n as real) <= 2real
            * wide_grain(),
{
    lemma_wide_numbers();
    assert(depth(truth.len(), predicted.len(), k) == n);
    lemma_hits_sum(truth, predicted, n, n);
    let h = hits(truth, n, predicted, n);
    let (a, b) = choose|a: Wide, b: Wide| #[trigger]
        wide_counted(w, h as u64, a) && #[trigger] wide_counted(w, n as u64, b) && wide_quotient(
            w,
            a,
            b,
            r,
        );
    let c = n as real;
    let q = h as real / c;
    lemma_quotient(h as real, c);
    lemma_divide_out(q, 1real, c);
    lemma_divide_out(0real, q, c);
    assert(wide_value(a) == h as real && wide_value(b) == c);
    lemma_times(q, 1real, wide_grain());
    lemma_times(wide_speck(), 1real, wide_grain());
}

/// Answers that are the truth itself have a recall of one, and answers of which none is true a
/// recall of zero, up to rounding.
pub proof fn law_recall_of_the_truth<W: WideArithmetic>(
    w: &W,
    truth: Seq<u64>,
    predicted: Seq<u64>,
    k: nat,
    n: nat,
    r: Wide,
)
    requires
        wide_rounding(w),
        recall_to(w, truth, predicted, k, r),
        0 < n <= 0x20_0000_0000_0000,
        n <= k && n <= truth.len() && n <= predicted.len(),
        n == k || n == truth.len() || n == predicted.len(),
    ensures
        truth == predicted ==> size(wide_value(r) - 1real) <= 2real * wide_grain(),
        (forall|i: int| 0 <= i < predicted.len() ==> !truth.contains(#[trigger] predicted[i]))
            ==> size(wide_value(r)) <= 2real * wide_grain(),
{
    law_recall(w, truth, predicted, k, n, r);
    let f = right_answers(truth, predicted, n);
    let c = n as real;
    lemma_quotient(sum(f, n), c);
    if truth == predicted {
        let t = truth.take(n as int);
        assert forall|i: int| 0 <= i < n implies #[trigger] f(i) == 1real by {
            assert(t[i] == predicted[i]);
        }
        crate::rounding::lemma_sum_constant(f, 1real, n);
        lemma_divide_out(sum(f, n) / c, 1real, c);
        lemma_divide_out(1real, sum(f, n) / c, c);
    }
    if forall|i: int| 0 <= i < predicted.len() ==> !truth.contains(#[trigger] predicted[i]) {
        let t = truth.take(n as int);
        assert forall|i: int| 0 <= i < n implies #[trigger] f(i) == 0real by {
            if t.contains(predicted[i]) {
                let j = choose|j: int| 0 <= j < t.len() && t[j] == predicted[i];
                assert(truth[j] == predicted[i]);
            }
        }
        crate::rounding::lemma_sum_constant(f, 0real, n);
        assert(c * 0real == 0real) by (nonlinear_arith);
        lemma_divide_out(sum(f, n) / c, 0real, c);
        lemma_divide_out(0real, sum(f, n) / c, c);
    }
}

proof fn lemma_rank(ids: Seq<u64>, id: u64, from: nat, p: nat)
    requires
        from <= p <= ids.len(),
        forall|i: int| from <= i < p ==> #[trigger] ids[i] != id,
        p < ids.len() ==> ids[p as int] == id,
    ensures
        rank(ids, id, from) == p,
    decreases ids.len() - from,
{
    if from < p {
        assert(ids[from as int] != id);
        lemma_rank(ids, id, from + 1, p);
    }
}

/// The reciprocal rank of an answer that comes first at position `p`, counted from zero, is one
/// over `p + 1`, up to rounding; that of one that is missing is zero.
pub proof fn law_reciprocal_rank<W: WideArithmetic>(
    w: &W,
    id: u64,
    predicted: Seq<u64>,
    p: nat,
    r: Wide,
)
    requires
        wide_rounding(w),
        reciprocal_rank_to(w, id, predicted, r),
        p <= predicted.len(),
        p <= 0x1000_0000_0000,
        forall|i: int| 0 <= i < p ==> #[trigger] predicted[i] != id,
        p < predicted.len() ==> predicted[p as int] == id,
    ensures
        p < predicted.len() ==> wide_finite(r) && size(wide_value(r) - 1real / ((p + 1) as real))
            <= 6real * wide_grain(),
        p == predicted.len() ==> r == wide_zero(),
{
    lemma_rank(predicted, id, 0, p);
    if p < predicted.len() {
        lemma_wide_numbers();
        lemma_wide_one();
        let g = wide_grain();
        let (c, d) = choose|c: Wide, d: Wide| #[trigger]
            wide_counted(w, p as u64, c) && #[trigger] wide_sum(w, c, wide_one(), d)
                && wide_quotient(w, wide_one(), d, r);
        let v = (p + 1) as real;
        assert(wide_value(c) + wide_value(wide_one()) == v);
        lemma_times(wide_speck(), v, g);
        lemma_times(g, 1real / 8real, v);
        let m = wide_value(d);
        assert(size(m - v) <= 2real * (g * v));
        let q = 1real / m;
        let z = 1real / v;
        lemma_quotient(1real, m);
        lemma_quotient(1real, v);
        // (q - z) * m == z * (v - m)
        lemma_expand(q, z, m, 0real);
        lemma_expand(z, 0real, v, m);
        lemma_size(q - z, m);
        lemma_size(z, v - m);
        lemma_size(m - v, 0real);
        lemma_divide_out(0real, z, v);
        lemma_times(size(v - m), 2real * (g * v), z);
        assert(z * (2real * (g * v)) == 2real * (g * (z * v))) by (nonlinear_arith);
        assert(size(q - z) * m <= 2real * g);
        lemma_times(1real / 2real, m, size(q - z));
        assert(size(q - z) <= 4real * g);
        lemma_divide_out(z, 1real, v);
        assert(size(q) <= 2real) by {
            lemma_size(q - z, z);
        }
        lemma_times(size(q), 1real + 4real * g, g);
        lemma_times(4real * g, 1real / 2real, g);
        lemma_size(q - z, z);
        lemma_times(wide_speck(), 1real / 4real, g);
        lemma_size(wide_value(r) - q, q - z);
        lemma_expand(g, 0real, 1real, 4real * g);
    }
}

/// Every search for one of the queries finds something, and finds the same again.
pub open spec fn repeatable<A: Arithmetic>(
    x: &A,
    m: ReaderModel,
    file: Seq<u8>,
    queries: Seq<Seq<Scalar>>,
    k: nat,
) -> bool {
    let j = metric_judging(x, m.header.distance_metric);
    forall|i: int, a: Vec<SearchResult>, b: Vec<SearchResult>|
        0 <= i < queries.len() && #[trigger] answered(x, j, m, file, queries[i], k, a)
            && #[trigger] answered(x, j, m, file, queries[i], k, b) ==> ids_of(a@) == ids_of(b@)
            && 0 < a@.len() <= 0x1000_0000_0000
}

proof fn lemma_perfect_query<A: Arithmetic, W: WideArithmetic>(
    x: &A,
    w: &W,
    m: ReaderModel,
    file: Seq<u8>,
    queries: Seq<Seq<Scalar>>,
    i: int,
    k: nat,
    t0: Tally,
    t: Tally,
) -> (r: (Wide, Wide))
    requires
        wide_rounding(w),
        repeatable(x, m, file, queries, k),
        0 <= i < queries.len(),
        k > 0,
        query_scored(x, w, m, file, queries[i], k, t0, t),
    ensures
        wide_finite(r.0),
        wide_finite(r.1),
        size(wide_value(r.0) - 1real) <= 9real * wide_grain(),
        size(wide_value(r.1) - 1real) <= 9real * wide_grain(),
        wide_sum(w, t0.recall, r.0, t.recall),
        wide_sum(w, t0.mrr, r.1, t.mrr),
{
    let j = metric_judging(x, m.header.distance_metric);
    let (truth, predicted) = choose|truth: Vec<SearchResult>, predicted: Vec<SearchResult>|
        #[trigger] answered(x, j, m, file, queries[i], k, truth) && #[trigger] answered(
            x,
            j,
            m,
            file,
            queries[i],
            k,
            predicted,
        ) && recall_added(w, ids_of(truth@), ids_of(predicted@), k, t0.recall, t.recall)
            && rank_added(w, ids_of(truth@), ids_of(predicted@), t0.mrr, t.mrr);
    let a = ids_of(truth@);
    let b = ids_of(predicted@);
    assert(a == b && a.len() > 0);
    let n = if k < a.len() {
        k
    } else {
        a.len()
    };
    let recall = choose|r: Wide| #[trigger]
        recall_to(w, a, b, k, r) && wide_sum(w, t0.recall, r, t.recall);
    law_recall(w, a, b, k, n, recall);
    law_recall_of_the_truth(w, a, b, k, n, recall);
    let mrr = choose|r: Wide| #[trigger]
        reciprocal_rank_to(w, a[0], b, r) && wide_sum(w, t0.mrr, r, t.mrr);
    law_reciprocal_rank(w, a[0], b, 0, mrr);
    let p = 0nat;
    assert((p + 1) as real == 1real);
    assert(1real / 1real == 1real);
    (recall, mrr)
}

proof fn lemma_perfect_tally<A: Arithmetic, W: WideArithmetic>(
    x: &A,
    w: &W,
    m: ReaderModel,
    file: Seq<u8>,
    queries: Seq<Seq<Scalar>>,
    k: nat,
    n: nat,
    t: Tally,
)
    requires
        wide_rounding(w),
        repeatable(x, m, file, queries, k),
        n <= queries.len(),
        n <= 0x100_0000_0000,
        k > 0,
        tallied(x, w, m, file, queries, k, n, t),
    ensures
        wide_finite(t.recall),
        wide_finite(t.mrr),
        within(wide_value(t.recall), n as real, n as real, wide_drift(n)),
        within(wide_value(t.mrr), n as real, n as real, wide_drift(n)),
    decreases n,
{
    lemma_wide_numbers();
    lemma_wide_drift(n);
    if n == 0 {
        lemma_positive(wide_drift(0), 0real);
    } else {
        let p = (n - 1) as nat;
        let t0 = choose|t0: Tally|
            tallied(x, w, m, file, queries, k, p, t0) && #[trigger] query_scored(
                x,
                w,
                m,
                file,
                queries[n - 1],
                k,
                t0,
                t,
            );
        lemma_perfect_tally(x, w, m, file, queries, k, p, t0);
        lemma_wide_drift(p);
        let (a, b) = lemma_perfect_query(x, w, m, file, queries, n - 1, k, t0, t);
        let v = p as real;
        lemma_wide_total(w, t0.recall, v, v, a, 1real, 1real, t.recall, wide_drift(p));
        lemma_wide_total(w, t0.mrr, v, v, b, 1real, 1real, t.mrr, wide_drift(p));
    }
}

/// Queries that find something, and the same again, have a recall, a precision and a mean
/// reciprocal rank of one, up to rounding.
pub proof fn law_repeated_search_is_perfect<A: Arithmetic, W: WideArithmetic>(
    x: &A,
    w: &W,
    m: ReaderModel,
    file: Seq<u8>,
    queries: Seq<Seq<Scalar>>,
    k: nat,
    s: SearchMetrics,
)
    requires
        wide_rounding(w),
        repeatable(x, m, file, queries, k),
        0 < queries.len() <= 0x100_0000_0000,
        k > 0,
        metrics_to(x, w, m, file, queries, k, s),
    ensures
        ({
            let e = wide_drift(queries.len()) + 3real * wide_grain();
            &&& wide_finite(s.recall_at_k) && size(wide_value(s.recall_at_k) - 1real) <= e
            &&& wide_finite(s.precision_at_k) && size(wide_value(s.precision_at_k) - 1real) <= e
            &&& wide_finite(s.mrr) && size(wide_value(s.mrr) - 1real) <= e
        }),
{
    let n = queries.len();
    let t = choose|t: Tally| #[trigger]
        tallied(x, w, m, file, queries, k, n, t) && divided(
            w,
            t.recall,
            n as u64,
            s.recall_at_k,
        ) && divided(w, t.recall, n as u64, s.precision_at_k) && divided(
            w,
            t.mrr,
            n as u64,
            s.mrr,
        );
    lemma_perfect_tally(x, w, m, file, queries, k, n, t);
    lemma_perfect_mean(w, t.recall, n, s.recall_at_k);
    lemma_perfect_mean(w, t.recall, n, s.precision_at_k);
    lemma_perfect_mean(w, t.mrr, n, s.mrr);
}

proof fn lemma_perfect_mean<W: WideArithmetic>(w: &W, s: Wide, n: nat, r: Wide)
    requires
        wide_rounding(w),
        wide_finite(s),
        0 < n <= 0x100_0000_0000,
        within(wide_value(s), n as real, n as real, wide_drift(n)),
        divided(w, s, n as u64, r),
    ensures
        wide_finite(r),
        size(wide_value(r) - 1real) <= wide_drift(n) + 3real * wide_grain(),
{
    lemma_wide_numbers();
    lemma_wide_drift(n);
    let c = choose|c: Wide| #[trigger] wide_counted(w, n as u64, c) && wide_quotient(w, s, c, r);
    let v = n as real;
    assert(wide_value(c) == v);
    lemma_half(wide_value(s), v, v, wide_drift(n), v);
    assert(wide_finite(r));
    lemma_positive(v, wide_speck());
    lemma_times(wide_speck(), 1real, v);
    lemma_divided(
        wide_value(s),
        v,
        v,
        wide_drift(n),
        v,
        wide_value(r),
        wide_grain(),
        wide_speck(),
    );
    lemma_quotient(v, v);
    lemma_divide_out(v / v, 1real, v);
    lemma_divide_out(1real, v / v, v);
}

} // verus!
