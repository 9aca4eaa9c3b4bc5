//! What a search gives back, in terms of the distances of the stored vectors.
use crate::bins::dequantizes_to;
use crate::distance::distance_to;
use crate::distance::laws::{
    apart, drift, gaps, inner, law_cosine_distance, law_inner_product_distance,
    law_l2_squared_is_the_sum_of_squares, measurable, products, skew, summable, weights,
};
use crate::errors::ErrorModel;
use crate::quant::{Bounds, DistanceMetric};
use crate::ranking::{finite, law_ranking, nearest, ranked, SearchResult};
use crate::rounding::{rounding, size, sum, value};
use crate::scalar::{Arithmetic, Scalar};
use crate::search::{
    by_metric, contributes, distant, finds, hit, range_contributes, searched, vector_contributes,
    vector_unmeasured, Judge,
};
use crate::storage::reader::ReaderModel;
use vstd::prelude::*;

verus! {

/// The distances that the first vectors of a file may have. A vector may have none only where
/// failures are skipped.
pub open spec fn distances<A: Arithmetic>(
    x: &A,
    j: Judge,
    m: ReaderModel,
    file: Seq<u8>,
    skip: bool,
    far: Seq<Option<Scalar>>,
) -> bool {
    forall|id: int|
        0 <= id < far.len() ==> match #[trigger] far[id] {
            Some(d) => m.vector_bytes(file, id as u64) is Ok && distant(
                x,
                j,
                m.bounds,
                m.vector_bytes(file, id as u64)->Ok_0,
                d,
            ),
            None => skip && exists|e: ErrorModel| #[trigger]
                vector_unmeasured(x, j, m, file, id as u64, e),
        }
}

/// Vector `id` has a finite distance.
pub open spec fn eligible(far: Seq<Option<Scalar>>, id: int) -> bool {
    0 <= id < far.len() && far[id] is Some && far[id]->0.finite()
}

/// How many vectors have a finite distance.
pub open spec fn eligible_count(far: Seq<Option<Scalar>>) -> nat
    decreases far.len(),
{
    if far.len() == 0 {
        0
    } else {
        eligible_count(far.drop_last()) + (if eligible(far, far.len() - 1) {
            1nat
        } else {
            0nat
        })
    }
}

/// Vector `id` is among the results.
pub open spec fn listed(r: Seq<SearchResult>, id: int) -> bool {
    exists|i: int| 0 <= i < r.len() && #[trigger] r[i].id == id
}

/// No vector with a finite distance is left out unless there are `k` others that are not farther
/// away.
pub open spec fn nothing_nearer(
    far: Seq<Option<Scalar>>,
    k: nat,
    r: Seq<SearchResult>,
) -> bool {
    forall|id: int| #[trigger]
        eligible(far, id) && !listed(r, id) ==> r.len() == k && forall|i: int|
            0 <= i < r.len() ==> (#[trigger] r[i]).distance.at_most(far[id]->0)
}

/// Results with their finite distances, each vector once, by ascending distance.
pub open spec fn proper(far: Seq<Option<Scalar>>, r: Seq<SearchResult>) -> bool {
    &&& forall|i: int|
        0 <= i < r.len() ==> eligible(far, (#[trigger] r[i]).id as int) && far[r[i].id as int]
            == Some(r[i].distance)
    &&& forall|i: int, j: int| 0 <= i < j < r.len() ==> r[i].id != r[j].id
    &&& forall|i: int, j: int| 0 <= i < j < r.len() ==> r[i].distance.at_most(r[j].distance)
}

/// The candidates are the vectors with a finite distance, each once, in the order of the file.
spec fn gathered(far: Seq<Option<Scalar>>, c: Seq<SearchResult>) -> bool {
    &&& forall|i: int|
        0 <= i < c.len() ==> eligible(far, (#[trigger] c[i]).id as int) && far[c[i].id as int]
            == Some(c[i].distance)
    &&& forall|i: int, j: int| 0 <= i < j < c.len() ==> c[i].id < c[j].id
    &&& forall|id: int| #[trigger] eligible(far, id) ==> listed(c, id)
    &&& c.len() == eligible_count(far)
}

proof fn lemma_gathered<A: Arithmetic>(
    x: &A,
    j: Judge,
    m: ReaderModel,
    file: Seq<u8>,
    skip: bool,
    end: nat,
    c: Seq<SearchResult>,
) -> (far: Seq<Option<Scalar>>)
    requires
        end <= u64::MAX,
        range_contributes(x, j, m, file, skip, 0, end, c),
    ensures
        far.len() == end,
        distances(x, j, m, file, skip, far),
        gathered(far, c),
    decreases end,
{
    if end == 0 {
        Seq::<Option<Scalar>>::empty()
    } else {
        let id = (end - 1) as u64;
        let (c0, o) = choose|c0: Seq<SearchResult>, o: Seq<SearchResult>|
            range_contributes(x, j, m, file, skip, 0, (end - 1) as nat, c0)
                && #[trigger] vector_contributes(x, j, m, file, skip, (end - 1) as u64, o) && c
                == #[trigger] (c0 + o);
        let before = lemma_gathered(x, j, m, file, skip, (end - 1) as nat, c0);
        let measured = m.vector_bytes(file, id) is Ok && contributes(
            x,
            j,
            m.bounds,
            m.vector_bytes(file, id)->Ok_0,
            id,
            o,
        );
        let last: Option<Scalar> = if measured {
            Some(
                choose|d: Scalar| #[trigger]
                    distant(x, j, m.bounds, m.vector_bytes(file, id)->Ok_0, d) && o == hit(id, d),
            )
        } else {
            None
        };
        let far = before.push(last);
        assert(far[end - 1] == last);
        assert forall|i: int| 0 <= i < end - 1 implies far[i] == before[i] by {}
        assert forall|i: int| 0 <= i < c.len() implies eligible(far, (#[trigger] c[i]).id as int)
            && far[c[i].id as int] == Some(c[i].distance) by {
            if i < c0.len() {
                assert(c[i] == c0[i]);
            } else {
                assert(c[i] == o[i - c0.len()]);
            }
        }
        assert(far.drop_last() =~= before);
        assert forall|i: int, k: int| 0 <= i < k < c.len() implies c[i].id < c[k].id by {
            if k < c0.len() {
                assert(c[i] == c0[i] && c[k] == c0[k]);
            } else {
                assert(c[k] == o[k - c0.len()]);
                assert(i < c0.len());
                assert(c[i] == c0[i]);
                assert(eligible(before, c0[i].id as int));
            }
        }
        assert forall|i: int| #[trigger] eligible(far, i) implies listed(c, i) by {
            if i < end - 1 {
                assert(eligible(before, i));
                let k = choose|k: int| 0 <= k < c0.len() && #[trigger] c0[k].id == i;
                assert(c[k] == c0[k]);
            } else {
                assert(c[c0.len() as int] == o[0]);
                assert(c[c0.len() as int].id == i);
            }
        }
        far
    }
}

/// The smaller of two numbers.
pub open spec fn least(a: nat, b: nat) -> nat {
    if a < b {
        a
    } else {
        b
    }
}

proof fn lemma_nearest_of_gathered(
    far: Seq<Option<Scalar>>,
    c: Seq<SearchResult>,
    k: nat,
    r: Seq<SearchResult>,
)
    requires
        gathered(far, c),
        r == nearest(c, k),
    ensures
        r.len() == least(k, eligible_count(far)),
        proper(far, r),
        nothing_nearer(far, k, r),
{
    broadcast use vstd::seq_lib::group_to_multiset_ensures;

    assert forall|i: int| 0 <= i < c.len() implies (#[trigger] c[i]).distance.finite() by {
        assert(eligible(far, c[i].id as int));
    }
    law_ranking(c);
    let s = ranked(c);
    assert(c.no_duplicates());
    c.lemma_multiset_has_no_duplicates();
    s.lemma_multiset_has_no_duplicates_conv();
    assert forall|i: int| 0 <= i < s.len() implies c.contains(#[trigger] s[i]) by {
        assert(s.contains(s[i]));
        assert(s.to_multiset().contains(s[i]));
        assert(c.to_multiset().contains(s[i]));
    }
    assert forall|i: int| 0 <= i < s.len() implies eligible(far, (#[trigger] s[i]).id as int)
        && far[s[i].id as int] == Some(s[i].distance) by {
        assert(c.contains(s[i]));
    }
    assert forall|i: int, j: int| 0 <= i < j < s.len() implies s[i].id != s[j].id by {
        if s[i].id == s[j].id {
            assert(far[s[i].id as int] == Some(s[i].distance));
            assert(far[s[j].id as int] == Some(s[j].distance));
            assert(s[i] == s[j]);
        }
    }
    assert forall|i: int, j: int| 0 <= i < j < s.len() implies s[i].distance.at_most(
        s[j].distance,
    ) by {
        assert(s[i].distance.finite() && s[j].distance.finite());
        assert(s[i].distance.key() <= s[j].distance.key());
    }
    assert forall|i: int| 0 <= i < r.len() implies r[i] == s[i] by {}
    assert forall|id: int| #[trigger] eligible(far, id) && !listed(r, id) implies r.len() == k
        && forall|i: int|
        0 <= i < r.len() ==> (#[trigger] r[i]).distance.at_most(far[id]->0) by {
        assert(listed(c, id));
        let p = choose|p: int| 0 <= p < c.len() && #[trigger] c[p].id == id;
        assert(c.contains(c[p]));
        assert(c.to_multiset().contains(c[p]));
        assert(s.to_multiset().contains(c[p]));
        assert(s.contains(c[p]));
        let q = choose|q: int| 0 <= q < s.len() && s[q] == c[p];
        if q < r.len() {
            assert(r[q].id == id);
        }
        assert(far[id] == Some(s[q].distance));
        assert forall|i: int| 0 <= i < r.len() implies (#[trigger] r[i]).distance.at_most(
            far[id]->0,
        ) by {
            assert(s[i].distance.at_most(s[q].distance));
        }
    }
}

/// What a search gives back is `k` vectors of the file with their distances, or as many as have a
/// finite one, each once and by ascending distance. Every vector whose distance is finite is a candidate, whatever its sign:
/// one that is left out is not nearer than any of `k` others.
pub proof fn law_search_finds_the_nearest<A: Arithmetic>(
    x: &A,
    j: Judge,
    m: ReaderModel,
    file: Seq<u8>,
    skip: bool,
    k: nat,
    r: Seq<SearchResult>,
) -> (far: Seq<Option<Scalar>>)
    requires
        finds(x, j, m, file, skip, k, r),
    ensures
        far.len() == m.header.vector_count,
        distances(x, j, m, file, skip, far),
        r.len() == least(k, eligible_count(far)),
        proper(far, r),
        nothing_nearer(far, k, r),
{
    let n = m.header.vector_count as nat;
    let c = choose|c: Seq<SearchResult>| #[trigger]
        range_contributes(x, j, m, file, skip, 0, n, c) && r == nearest(c, k);
    let far = lemma_gathered(x, j, m, file, skip, n, c);
    lemma_nearest_of_gathered(far, c, k, r);
    far
}

/// A search that succeeds with room for results finds the nearest vectors; with no room, or no
/// vectors, it finds nothing.
pub proof fn law_search_outcome<A: Arithmetic>(
    x: &A,
    j: Judge,
    m: ReaderModel,
    file: Seq<u8>,
    skip: bool,
    query_len: nat,
    k: nat,
    v: Vec<SearchResult>,
) -> (far: Seq<Option<Scalar>>)
    requires
        searched(x, j, m, file, skip, query_len, k, Ok(v)),
    ensures
        query_len == m.header.dims,
        v@.len() == least(k, eligible_count(far)),
        k > 0 ==> far.len() == m.header.vector_count && distances(x, j, m, file, skip, far)
            && proper(far, v@) && nothing_nearer(far, k, v@),
{
    if k == 0 || m.header.vector_count == 0 {
        Seq::<Option<Scalar>>::empty()
    } else {
        law_search_finds_the_nearest(x, j, m, file, skip, k, v@)
    }
}

/// The distance of a stored vector by the metric of its file is that of the vector read back: the
/// squared Euclidean distance, the inner product with the opposite sign, or one minus the cosine,
/// up to rounding.
pub proof fn law_stored_distance<A: Arithmetic>(
    x: &A,
    metric: DistanceMetric,
    q: Seq<Scalar>,
    b: Bounds,
    bytes: Seq<u8>,
    d: Scalar,
) -> (v: Seq<Scalar>)
    requires
        rounding(x),
        distant(x, by_metric(x, metric, q), b, bytes, d),
    ensures
        dequantizes_to(x, b, bytes, v),
        q.len() == v.len(),
        metric is L2 && summable(q, v, gaps(q, v)) ==> d.finite() && size(
            value(d) - apart(q, v),
        ) <= drift(q.len()) * sum(weights(gaps(q, v)), q.len()),
        metric is InnerProduct && summable(q, v, products(q, v)) ==> d.finite() && size(
            value(d) + inner(q, v),
        ) <= drift(q.len()) * sum(weights(products(q, v)), q.len()),
        metric is Cosine ==> forall|lq: real, lv: real| #[trigger]
            angled(q, v, lq, lv) ==> d.finite() && size(
                value(d) - (1real - inner(q, v) / (lq * lv)),
            ) <= skew(q.len()),
{
    let v = choose|v: Seq<Scalar>| #[trigger]
        dequantizes_to(x, b, bytes, v) && (by_metric(x, metric, q).ok)(v, d);
    assert(distance_to(x, metric, q, v, d));
    match metric {
        DistanceMetric::L2 => {
            if summable(q, v, gaps(q, v)) {
                law_l2_squared_is_the_sum_of_squares(x, q, v, d);
            }
        },
        DistanceMetric::InnerProduct => {
            if summable(q, v, products(q, v)) {
                law_inner_product_distance(x, q, v, d);
            }
        },
        DistanceMetric::Cosine => {
            assert forall|lq: real, lv: real| #[trigger] angled(q, v, lq, lv) implies d.finite()
                && size(value(d) - (1real - inner(q, v) / (lq * lv))) <= skew(q.len()) by {
                law_cosine_distance(x, q, v, lq, lv, d);
            }
        },
    }
    v
}

/// Two vectors of lengths `la` and `lb` that have an angle.
pub open spec fn angled(a: Seq<Scalar>, b: Seq<Scalar>, la: real, lb: real) -> bool {
    &&& measurable(a) && measurable(b)
    &&& a.len() == b.len() <= 0x1_0000
    &&& la >= 0real && lb >= 0real
    &&& la * la == inner(a, a) && lb * lb == inner(b, b)
    &&& 1real / 500_000_000_000real <= la * lb
}

} // verus!
