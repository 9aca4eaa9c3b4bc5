//! Quality of search results.
use crate::errors::Result;
use crate::quant::{rows, DistanceMetric};
use crate::ranking::SearchResult;
use crate::scalar::{Arithmetic, Scalar};
use crate::search::{answerable, answered, batch_search_fails_at, by_metric, Judge};
use crate::stats::{divide, divided};
use crate::storage::reader::{CompactReader, ReaderModel};
use crate::wide::{share, share_of, wide_counted, wide_one, wide_quotient, wide_sum, wide_zero};
use crate::wide::{Wide, WideArithmetic};
use std::collections::HashSet;
use vstd::prelude::*;

pub mod laws;

verus! {

broadcast use vstd::std_specs::hash::group_hash_axioms;

/// Averages over several queries.
#[derive(Debug, Clone, Copy)]
pub struct SearchMetrics {
    pub recall_at_k: Wide,
    pub precision_at_k: Wide,
    /// Mean reciprocal rank.
    pub mrr: Wide,
}

/// How many answers are looked at: no more than there are on either side, though at least one
/// where the truth is empty.
pub open spec fn depth(truth: nat, predicted: nat, k: nat) -> nat {
    let t: nat = if truth == 0 {
        1
    } else {
        truth
    };
    let p = if k < predicted {
        k
    } else {
        predicted
    };
    if p < t {
        p
    } else {
        t
    }
}

/// Whether `id` is among the first `n` of `truth`.
pub open spec fn among(truth: Seq<u64>, n: nat, id: u64) -> bool {
    exists|i: int| 0 <= i < n && i < truth.len() && #[trigger] truth[i] == id
}

/// How many of the first `upto` answers are among the first `n` of `truth`.
pub open spec fn hits(truth: Seq<u64>, n: nat, predicted: Seq<u64>, upto: nat) -> nat
    decreases upto,
{
    if upto == 0 {
        0
    } else {
        let before = hits(truth, n, predicted, (upto - 1) as nat);
        if among(truth, n, predicted[upto - 1]) {
            before + 1
        } else {
            before
        }
    }
}

proof fn lemma_hits_bounded(truth: Seq<u64>, n: nat, predicted: Seq<u64>, upto: nat)
    ensures
        hits(truth, n, predicted, upto) <= upto,
    decreases upto,
{
    if upto > 0 {
        lemma_hits_bounded(truth, n, predicted, (upto - 1) as nat);
    }
}

proof fn lemma_all_hit(ids: Seq<u64>, n: nat, upto: nat)
    requires
        upto <= n <= ids.len(),
    ensures
        hits(ids, n, ids, upto) == upto,
    decreases upto,
{
    if upto > 0 {
        lemma_all_hit(ids, n, (upto - 1) as nat);
        assert(among(ids, n, ids[upto - 1]));
    }
}

/// There are never more hits than answers looked at, and answers that are the truth itself hit
/// every time.
pub proof fn law_hits(truth: Seq<u64>, predicted: Seq<u64>, k: nat)
    ensures
        ({
            let n = depth(truth.len(), predicted.len(), k);
            hits(truth, n, predicted, n) <= n
        }),
        truth == predicted ==> ({
            let n = depth(truth.len(), truth.len(), k);
            hits(truth, n, truth, n) == n
        }),
{
    let n = depth(truth.len(), predicted.len(), k);
    lemma_hits_bounded(truth, n, predicted, n);
    if truth == predicted {
        lemma_all_hit(truth, n, n);
    }
}

/// The share of hits may come out as `r`; zero if nothing is asked for.
pub open spec fn recall_to<W: WideArithmetic>(
    w: &W,
    truth: Seq<u64>,
    predicted: Seq<u64>,
    k: nat,
    r: Wide,
) -> bool {
    let n = depth(truth.len(), predicted.len(), k);
    if k == 0 {
        r == wide_zero()
    } else {
        share(w, hits(truth, n, predicted, n) as u64, n as u64, r)
    }
}

/// How many answers are looked at, and how many of them hit.
pub fn count_hits(truth: &[u64], predicted: &[u64], k: usize) -> (r: (usize, usize))
    ensures
        r.0 == depth(truth@.len(), predicted@.len(), k as nat),
        r.1 == hits(truth@, r.0 as nat, predicted@, r.0 as nat),
        r.1 <= r.0,
{
    let t: usize = if truth.len() == 0 {
        1
    } else {
        truth.len()
    };
    let p: usize = if k < predicted.len() {
        k
    } else {
        predicted.len()
    };
    let n: usize = if p < t {
        p
    } else {
        t
    };
    let mut known: HashSet<u64> = HashSet::new();
    let mut i: usize = 0;
    while i < n && i < truth.len()
        invariant
            i <= n,
            i <= truth@.len(),
            forall|id: u64| #[trigger] known@.contains(id) <==> among(truth@, i as nat, id),
        decreases n - i,
    {
        let ghost before = known@;
        known.insert(truth[i]);
        proof {
            assert forall|id: u64| #[trigger] known@.contains(id) <==> among(
                truth@,
                (i + 1) as nat,
                id,
            ) by {
                if among(truth@, i as nat, id) {
                    let j = choose|j: int|
                        0 <= j < i && j < truth@.len() && #[trigger] truth@[j] == id;
                    assert(truth@[j] == id);
                }
                if id == truth@[i as int] {
                    assert(among(truth@, (i + 1) as nat, id));
                }
                assert(before.contains(id) <==> among(truth@, i as nat, id));
            }
        }
        i += 1;
    }
    proof {
        assert forall|id: u64| #[trigger] known@.contains(id) <==> among(truth@, n as nat, id) by {
            if among(truth@, n as nat, id) {
                let j = choose|j: int|
                    0 <= j < n && j < truth@.len() && #[trigger] truth@[j] == id;
                assert(truth@[j] == id && j < i);
                assert(among(truth@, i as nat, id));
            }
            if among(truth@, i as nat, id) {
                let j = choose|j: int|
                    0 <= j < i && j < truth@.len() && #[trigger] truth@[j] == id;
                assert(truth@[j] == id && j < n);
            }
        }
    }
    let mut found: usize = 0;
    let mut q: usize = 0;
    while q < n
        invariant
            q <= n <= predicted@.len(),
            found <= q,
            found == hits(truth@, n as nat, predicted@, q as nat),
            forall|id: u64| #[trigger] known@.contains(id) <==> among(truth@, n as nat, id),
        decreases n - q,
    {
        if known.contains(&predicted[q]) {
            found += 1;
        }
        q += 1;
    }
    (n, found)
}

/// Recall and precision of the first `k` answers against the true ones.
pub fn recall_precision_at_k<W: WideArithmetic>(
    truth: &[u64],
    predicted: &[u64],
    k: usize,
    w: &W,
) -> (r: (Wide, Wide))
    ensures
        recall_to(w, truth@, predicted@, k as nat, r.0),
        recall_to(w, truth@, predicted@, k as nat, r.1),
{
    if k == 0 {
        return (wide_zero(), wide_zero());
    }
    let (n, found) = count_hits(truth, predicted, k);
    let recall = share_of(found as u64, n as u64, w);
    let precision = share_of(found as u64, n as u64, w);
    (recall, precision)
}

/// The position of the first occurrence of `id` at or after `from`, or the length.
pub open spec fn rank(ids: Seq<u64>, id: u64, from: nat) -> nat
    decreases ids.len() - from,
{
    if from >= ids.len() {
        ids.len()
    } else if ids[from as int] == id {
        from
    } else {
        rank(ids, id, from + 1)
    }
}

/// One over one more than `n` may come out as `r`.
pub open spec fn reciprocal<W: WideArithmetic>(w: &W, n: u64, r: Wide) -> bool {
    exists|c: Wide, d: Wide| #[trigger]
        wide_counted(w, n, c) && #[trigger] wide_sum(w, c, wide_one(), d) && wide_quotient(
            w,
            wide_one(),
            d,
            r,
        )
}

/// The reciprocal rank may come out as `r`; zero if the true answer is missing.
pub open spec fn reciprocal_rank_to<W: WideArithmetic>(
    w: &W,
    truth_first: u64,
    predicted: Seq<u64>,
    r: Wide,
) -> bool {
    let n = rank(predicted, truth_first, 0);
    if n < predicted.len() {
        reciprocal(w, n as u64, r)
    } else {
        r == wide_zero()
    }
}

/// Reciprocal rank of the true first answer.
pub fn mrr<W: WideArithmetic>(truth_first: u64, predicted: &[u64], w: &W) -> (r: Wide)
    ensures
        reciprocal_rank_to(w, truth_first, predicted@, r),
{
    let mut i: usize = 0;
    while i < predicted.len()
        invariant
            i <= predicted@.len(),
            rank(predicted@, truth_first, 0) == rank(predicted@, truth_first, i as nat),
        decreases predicted@.len() - i,
    {
        if predicted[i] == truth_first {
            let c = w.wide_count(i as u64);
            let d = w.plus(c, wide_one());
            let r = w.over(wide_one(), d);
            assert(wide_counted(w, i as u64, c) && wide_sum(w, c, wide_one(), d) && wide_quotient(
                w,
                wide_one(),
                d,
                r,
            ));
            return r;
        }
        i += 1;
    }
    wide_zero()
}

/// The identifiers of search results.
pub open spec fn ids_of(found: Seq<SearchResult>) -> Seq<u64> {
    Seq::new(found.len(), |i: int| found[i].id)
}

fn ids(found: &Vec<SearchResult>) -> (r: Vec<u64>)
    ensures
        r@ == ids_of(found@),
{
    let mut r: Vec<u64> = Vec::new();
    let mut i: usize = 0;
    while i < found.len()
        invariant
            i <= found@.len(),
            r@.len() == i,
            forall|k: int| 0 <= k < i ==> #[trigger] r@[k] == found@[k].id,
        decreases found@.len() - i,
    {
        r.push(found[i].id);
        i += 1;
    }
    assert(r@ =~= ids_of(found@));
    r
}

/// What the metric of a file may say, for each query.
pub open spec fn metric_judging<A: Arithmetic>(x: &A, metric: DistanceMetric) -> spec_fn(
    Seq<Scalar>,
) -> Judge {
    |q: Seq<Scalar>| by_metric(x, metric, q)
}

/// `s0` and the recall of one query may add up to `s`.
pub open spec fn recall_added<W: WideArithmetic>(
    w: &W,
    truth: Seq<u64>,
    predicted: Seq<u64>,
    k: nat,
    s0: Wide,
    s: Wide,
) -> bool {
    exists|r: Wide| #[trigger] recall_to(w, truth, predicted, k, r) && wide_sum(w, s0, r, s)
}

/// `s0` and the reciprocal rank of one query may add up to `s`; nothing is added for a query
/// without a true answer.
pub open spec fn rank_added<W: WideArithmetic>(
    w: &W,
    truth: Seq<u64>,
    predicted: Seq<u64>,
    s0: Wide,
    s: Wide,
) -> bool {
    if truth.len() == 0 {
        s == s0
    } else {
        first_rank_added(w, truth[0], predicted, s0, s)
    }
}

/// `s0` and a reciprocal rank may add up to `s`.
pub open spec fn first_rank_added<W: WideArithmetic>(
    w: &W,
    first: u64,
    predicted: Seq<u64>,
    s0: Wide,
    s: Wide,
) -> bool {
    exists|r: Wide| #[trigger] reciprocal_rank_to(w, first, predicted, r) && wide_sum(w, s0, r, s)
}

/// Two sums that are kept while going over the queries.
#[derive(Debug, Clone, Copy)]
pub struct Tally {
    pub recall: Wide,
    pub mrr: Wide,
}

/// One query, searched for twice, may take the sums from `t0` to `t`.
pub open spec fn query_scored<A: Arithmetic, W: WideArithmetic>(
    x: &A,
    w: &W,
    m: ReaderModel,
    file: Seq<u8>,
    query: Seq<Scalar>,
    k: nat,
    t0: Tally,
    t: Tally,
) -> bool {
    let j = metric_judging(x, m.header.distance_metric);
    exists|truth: Vec<SearchResult>, predicted: Vec<SearchResult>| #[trigger]
        answered(x, j, m, file, query, k, truth) && #[trigger] answered(
            x,
            j,
            m,
            file,
            query,
            k,
            predicted,
        ) && recall_added(w, ids_of(truth@), ids_of(predicted@), k, t0.recall, t.recall)
            && rank_added(w, ids_of(truth@), ids_of(predicted@), t0.mrr, t.mrr)
}

/// The first `n` queries may take the sums to `t`.
pub open spec fn tallied<A: Arithmetic, W: WideArithmetic>(
    x: &A,
    w: &W,
    m: ReaderModel,
    file: Seq<u8>,
    queries: Seq<Seq<Scalar>>,
    k: nat,
    n: nat,
    t: Tally,
) -> bool
    decreases n,
{
    if n == 0 {
        t.recall == wide_zero() && t.mrr == wide_zero()
    } else {
        exists|t0: Tally|
            tallied(x, w, m, file, queries, k, (n - 1) as nat, t0) && #[trigger] query_scored(
                x,
                w,
                m,
                file,
                queries[n - 1],
                k,
                t0,
                t,
            )
    }
}

proof fn lemma_tallied_step<A: Arithmetic, W: WideArithmetic>(
    x: &A,
    w: &W,
    m: ReaderModel,
    file: Seq<u8>,
    queries: Seq<Seq<Scalar>>,
    k: nat,
    n: nat,
    t0: Tally,
    t: Tally,
)
    requires
        n > 0,
        tallied(x, w, m, file, queries, k, (n - 1) as nat, t0),
        query_scored(x, w, m, file, queries[n - 1], k, t0, t),
    ensures
        tallied(x, w, m, file, queries, k, n, t),
{
}

/// The metrics of several queries may come out as `s`.
pub open spec fn metrics_to<A: Arithmetic, W: WideArithmetic>(
    x: &A,
    w: &W,
    m: ReaderModel,
    file: Seq<u8>,
    queries: Seq<Seq<Scalar>>,
    k: nat,
    s: SearchMetrics,
) -> bool {
    if queries.len() == 0 {
        s.recall_at_k == wide_zero() && s.precision_at_k == wide_zero() && s.mrr == wide_zero()
    } else {
        exists|t: Tally| #[trigger]
            tallied(x, w, m, file, queries, k, queries.len(), t) && divided(
                w,
                t.recall,
                queries.len() as u64,
                s.recall_at_k,
            ) && divided(w, t.recall, queries.len() as u64, s.precision_at_k) && divided(
                w,
                t.mrr,
                queries.len() as u64,
                s.mrr,
            )
    }
}

fn score_query<A: Arithmetic, W: WideArithmetic>(
    reader: &CompactReader,
    file: &[u8],
    query: &[Scalar],
    k: usize,
    t0: Tally,
    x: &A,
    w: &W,
) -> (r: Result<Tally>)
    requires
        reader@.addressable(),
    ensures
        match r {
            Ok(t) => query_scored(x, w, reader@, file@, query@, k as nat, t0, t),
            Err(e) => crate::search::searched(
                x,
                metric_judging(x, reader@.header.distance_metric)(query@),
                reader@,
                file@,
                false,
                query@.len(),
                k as nat,
                Err::<Vec<SearchResult>, crate::errors::CompactError>(e),
            ),
        },
{
    let ghost j = metric_judging(x, reader@.header.distance_metric);
    let truth = match reader.search(file, query, k, x) {
        Ok(v) => v,
        Err(e) => return Err(e),
    };
    let predicted = match reader.search(file, query, k, x) {
        Ok(v) => v,
        Err(e) => return Err(e),
    };
    let truth_ids = ids(&truth);
    let predicted_ids = ids(&predicted);
    let (r, _) = recall_precision_at_k(truth_ids.as_slice(), predicted_ids.as_slice(), k, w);
    let recall = w.plus(t0.recall, r);
    assert(recall_to(w, truth_ids@, predicted_ids@, k as nat, r) && wide_sum(
        w,
        t0.recall,
        r,
        recall,
    ));
    assert(recall_added(w, truth_ids@, predicted_ids@, k as nat, t0.recall, recall));
    let mut total = t0.mrr;
    if truth_ids.len() > 0 {
        let one = mrr(truth_ids[0], predicted_ids.as_slice(), w);
        total = w.plus(total, one);
        assert(reciprocal_rank_to(w, truth_ids@[0], predicted_ids@, one) && wide_sum(
            w,
            t0.mrr,
            one,
            total,
        ));
        assert(first_rank_added(w, truth_ids@[0], predicted_ids@, t0.mrr, total));
    }
    assert(rank_added(w, truth_ids@, predicted_ids@, t0.mrr, total));
    let t = Tally { recall, mrr: total };
    proof {
        assert(answered(x, j, reader@, file@, query@, k as nat, truth));
        assert(answered(x, j, reader@, file@, query@, k as nat, predicted));
        assert(query_scored(x, w, reader@, file@, query@, k as nat, t0, t));
    }
    Ok(t)
}

/// Search a file held in memory for every query, and average recall, precision and reciprocal
/// rank of the answers against those of a second search.
pub fn evaluate_search<A: Arithmetic, W: WideArithmetic>(
    reader: &CompactReader,
    file: &[u8],
    queries: &[Vec<Scalar>],
    k: usize,
    _metric: DistanceMetric,
    x: &A,
    w: &W,
) -> (r: Result<SearchMetrics>)
    requires
        reader@.addressable(),
    ensures
        match r {
            Ok(s) => metrics_to(x, w, reader@, file@, rows(queries@), k as nat, s),
            Err(e) => exists|i: int| #[trigger]
                batch_search_fails_at(
                    x,
                    metric_judging(x, reader@.header.distance_metric),
                    reader@,
                    file@,
                    rows(queries@),
                    k as nat,
                    i,
                    e,
                ),
        },
{
    let zero = wide_zero();
    if queries.len() == 0 {
        return Ok(SearchMetrics { recall_at_k: zero, precision_at_k: zero, mrr: zero });
    }
    let ghost data = rows(queries@);
    let ghost j = metric_judging(x, reader@.header.distance_metric);
    let mut t = Tally { recall: zero, mrr: zero };
    let mut i: usize = 0;
    while i < queries.len()
        invariant
            reader@.addressable(),
            data == rows(queries@),
            j == metric_judging(x, reader@.header.distance_metric),
            i <= queries@.len(),
            tallied(x, w, reader@, file@, data, k as nat, i as nat, t),
            forall|n: int|
                0 <= n < i ==> #[trigger] answerable(x, j, reader@, file@, data, k as nat, n),
        decreases queries@.len() - i,
    {
        assert(data[i as int] == queries@[i as int]@);
        match score_query(reader, file, queries[i].as_slice(), k, t, x, w) {
            Ok(next) => {
                proof {
                    lemma_tallied_step(
                        x,
                        w,
                        reader@,
                        file@,
                        data,
                        k as nat,
                        (i + 1) as nat,
                        t,
                        next,
                    );
                    assert(answerable(x, j, reader@, file@, data, k as nat, i as int));
                }
                t = next;
            },
            Err(e) => {
                assert(batch_search_fails_at(
                    x,
                    j,
                    reader@,
                    file@,
                    data,
                    k as nat,
                    i as int,
                    e,
                ));
                return Err(e);
            },
        }
        i += 1;
    }
    let n: u64 = queries.len() as u64;
    let recall_at_k = divide(t.recall, n, w);
    let precision_at_k = divide(t.recall, n, w);
    let mrr = divide(t.mrr, n, w);
    assert(tallied(x, w, reader@, file@, data, k as nat, data.len(), t));
    Ok(SearchMetrics { recall_at_k, precision_at_k, mrr })
}

} // verus!
