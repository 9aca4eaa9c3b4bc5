//! Distances between vectors.
use crate::errors::{outcome, CompactError, ErrorModel, HeaderModel, Result};
use crate::quant::{rows, DistanceMetric};
use crate::scalar::{difference, product, quotient, root, total, Arithmetic, Scalar};
use crate::scalar::{minus_one, one, tiny, zero};
use vstd::prelude::*;

pub mod laws;

verus! {

/// Why two vectors have no distance, if they have none.
pub open spec fn shape_fault(a: Seq<Scalar>, b: Seq<Scalar>) -> Option<ErrorModel> {
    if a.len() != b.len() {
        Some(ErrorModel::DimensionMismatch { expected: a.len(), found: b.len() })
    } else if a.len() == 0 {
        Some(ErrorModel::InvalidHeader(HeaderModel::Text("distance: dims must be > 0"@)))
    } else {
        None
    }
}

fn check_dims(a: &[Scalar], b: &[Scalar]) -> (r: Result<()>)
    ensures
        match shape_fault(a@, b@) {
            Some(e) => outcome(r) == Err::<(), ErrorModel>(e),
            None => r is Ok,
        },
{
    if a.len() != b.len() {
        return Err(CompactError::DimensionMismatch { expected: a.len(), found: b.len() });
    }
    if a.len() == 0 {
        return Err(CompactError::invalid_header("distance: dims must be > 0"));
    }
    Ok(())
}

// ---------------------------------------------------------------------------
// Sums over coordinates, four at a time
// ---------------------------------------------------------------------------

/// What is summed up over the coordinates.
#[derive(Debug, Clone, Copy, PartialEq, Eq, Structural)]
pub enum Term {
    /// The product of the two coordinates.
    Product,
    /// The square of their difference.
    Square,
}

/// The square of `a - b` may come out as `p`.
pub open spec fn squared<A: Arithmetic>(x: &A, a: Scalar, b: Scalar, p: Scalar) -> bool {
    exists|d: Scalar| #[trigger] difference(x, a, b, d) && product(x, d, d, p)
}

/// The term of one coordinate may come out as `p`.
pub open spec fn term_to<A: Arithmetic>(
    x: &A,
    t: Term,
    a: Scalar,
    b: Scalar,
    p: Scalar,
) -> bool {
    match t {
        Term::Product => product(x, a, b, p),
        Term::Square => squared(x, a, b, p),
    }
}

/// Four terms added to `s0`, the four summed first from left to right, may come out as `s`.
pub open spec fn four_to<A: Arithmetic>(
    x: &A,
    t: Term,
    a: Seq<Scalar>,
    b: Seq<Scalar>,
    i: int,
    s0: Scalar,
    s: Scalar,
) -> bool {
    exists|p0: Scalar, p1: Scalar, p2: Scalar, p3: Scalar, t1: Scalar, t2: Scalar, t3: Scalar|
        #![trigger total(x, p0, p1, t1), total(x, t1, p2, t2), total(x, t2, p3, t3)]
        term_to(x, t, a[i], b[i], p0) && term_to(x, t, a[i + 1], b[i + 1], p1) && term_to(
            x,
            t,
            a[i + 2],
            b[i + 2],
            p2,
        ) && term_to(x, t, a[i + 3], b[i + 3], p3) && total(x, p0, p1, t1) && total(x, t1, p2, t2)
            && total(x, t2, p3, t3) && total(x, s0, t3, s)
}

/// One term added to `s0` may come out as `s`.
pub open spec fn one_to<A: Arithmetic>(
    x: &A,
    t: Term,
    a: Seq<Scalar>,
    b: Seq<Scalar>,
    i: int,
    s0: Scalar,
    s: Scalar,
) -> bool {
    exists|p: Scalar| #[trigger] term_to(x, t, a[i], b[i], p) && total(x, s0, p, s)
}

/// The sum of the terms of the first `n` coordinates may come out as `s`: as many groups of
/// four as `len` coordinates have, then one by one.
pub open spec fn sums_to<A: Arithmetic>(
    x: &A,
    t: Term,
    a: Seq<Scalar>,
    b: Seq<Scalar>,
    n: nat,
    s: Scalar,
) -> bool
    decreases n,
{
    if n == 0 {
        s == zero()
    } else if n % 4 == 0 && n <= a.len() {
        exists|s0: Scalar|
            sums_to(x, t, a, b, (n - 4) as nat, s0) && #[trigger] four_to(
                x,
                t,
                a,
                b,
                n - 4,
                s0,
                s,
            )
    } else {
        exists|s0: Scalar|
            sums_to(x, t, a, b, (n - 1) as nat, s0) && #[trigger] one_to(
                x,
                t,
                a,
                b,
                n - 1,
                s0,
                s,
            )
    }
}

proof fn lemma_four<A: Arithmetic>(
    x: &A,
    t: Term,
    a: Seq<Scalar>,
    b: Seq<Scalar>,
    n: nat,
    s0: Scalar,
    s: Scalar,
)
    requires
        4 <= n <= a.len(),
        n % 4 == 0,
        sums_to(x, t, a, b, (n - 4) as nat, s0),
        four_to(x, t, a, b, n - 4, s0, s),
    ensures
        sums_to(x, t, a, b, n, s),
{
}

proof fn lemma_one<A: Arithmetic>(
    x: &A,
    t: Term,
    a: Seq<Scalar>,
    b: Seq<Scalar>,
    n: nat,
    s0: Scalar,
    s: Scalar,
)
    requires
        n > 0,
        n % 4 != 0,
        sums_to(x, t, a, b, (n - 1) as nat, s0),
        one_to(x, t, a, b, n - 1, s0, s),
    ensures
        sums_to(x, t, a, b, n, s),
{
}

fn term<A: Arithmetic>(x: &A, t: Term, a: Scalar, b: Scalar) -> (p: Scalar)
    ensures
        term_to(x, t, a, b, p),
{
    match t {
        Term::Product => x.mul(a, b),
        Term::Square => {
            let d = x.sub(a, b);
            assert(difference(x, a, b, d));
            x.mul(d, d)
        },
    }
}

fn sum_terms<A: Arithmetic>(x: &A, t: Term, a: &[Scalar], b: &[Scalar]) -> (s: Scalar)
    requires
        a@.len() == b@.len(),
    ensures
        sums_to(x, t, a@, b@, a@.len(), s),
{
    let n: usize = a.len();
    let mut s: Scalar = zero();
    let mut i: usize = 0;
    while n - i >= 4
        invariant
            i <= n == a@.len() == b@.len(),
            i % 4 == 0,
            sums_to(x, t, a@, b@, i as nat, s),
        decreases n - i,
    {
        let p0 = term(x, t, a[i], b[i]);
        let p1 = term(x, t, a[i + 1], b[i + 1]);
        let p2 = term(x, t, a[i + 2], b[i + 2]);
        let p3 = term(x, t, a[i + 3], b[i + 3]);
        let t1 = x.add(p0, p1);
        let t2 = x.add(t1, p2);
        let t3 = x.add(t2, p3);
        let next = x.add(s, t3);
        proof {
            assert(total(x, p0, p1, t1) && total(x, t1, p2, t2) && total(x, t2, p3, t3) && total(
                x,
                s,
                t3,
                next,
            ));
            assert(four_to(x, t, a@, b@, i as int, s, next));
            lemma_four(x, t, a@, b@, (i + 4) as nat, s, next);
        }
        s = next;
        i += 4;
    }
    while i < n
        invariant
            i <= n == a@.len() == b@.len(),
            n - i < 4,
            sums_to(x, t, a@, b@, i as nat, s),
            n / 4 * 4 <= i,
        decreases n - i,
    {
        let p = term(x, t, a[i], b[i]);
        let next = x.add(s, p);
        proof {
            assert(total(x, s, p, next));
            assert(one_to(x, t, a@, b@, i as int, s, next));
            lemma_one(x, t, a@, b@, (i + 1) as nat, s, next);
        }
        s = next;
        i += 1;
    }
    s
}

// ---------------------------------------------------------------------------
// Distances
// ---------------------------------------------------------------------------

/// A distance of two vectors comes out as `r`: the complaint about their shapes, or a number
/// for which `ok` holds.
pub open spec fn measured(
    a: Seq<Scalar>,
    b: Seq<Scalar>,
    r: Result<Scalar>,
    ok: spec_fn(Scalar) -> bool,
) -> bool {
    match r {
        Ok(v) => shape_fault(a, b) is None && ok(v),
        Err(e) => shape_fault(a, b) == Some(e@),
    }
}

/// The squared Euclidean distance may come out as `v`.
pub open spec fn l2_squared_to<A: Arithmetic>(
    x: &A,
    a: Seq<Scalar>,
    b: Seq<Scalar>,
    v: Scalar,
) -> bool {
    sums_to(x, Term::Square, a, b, a.len(), v)
}

/// The Euclidean distance may come out as `v`.
pub open spec fn l2_to<A: Arithmetic>(x: &A, a: Seq<Scalar>, b: Seq<Scalar>, v: Scalar) -> bool {
    exists|s: Scalar| #[trigger] l2_squared_to(x, a, b, s) && root(x, s, v)
}

/// The inner product may come out as `v`.
pub open spec fn dot_to<A: Arithmetic>(x: &A, a: Seq<Scalar>, b: Seq<Scalar>, v: Scalar) -> bool {
    sums_to(x, Term::Product, a, b, a.len(), v)
}

/// The Euclidean length may come out as `v`.
pub open spec fn norm_to<A: Arithmetic>(x: &A, a: Seq<Scalar>, v: Scalar) -> bool {
    exists|s: Scalar| #[trigger] dot_to(x, a, a, s) && root(x, s, v)
}

/// The larger of a number and a bound; the bound where the number is not-a-number.
pub open spec fn at_least(v: Scalar, bound: Scalar) -> Scalar {
    if v.nan() || v.below(bound) {
        bound
    } else {
        v
    }
}

/// A number held between minus one and one.
pub open spec fn cosine_clamped(v: Scalar) -> Scalar {
    if v.below(minus_one()) {
        minus_one()
    } else if one().below(v) {
        one()
    } else {
        v
    }
}

/// The cosine of the angle between two vectors may come out as `c`, given their inner product.
pub open spec fn cosine_to<A: Arithmetic>(
    x: &A,
    a: Seq<Scalar>,
    b: Seq<Scalar>,
    s: Scalar,
    c: Scalar,
) -> bool {
    exists|na: Scalar, nb: Scalar, n: Scalar, q: Scalar|
        #![trigger norm_to(x, a, na), norm_to(x, b, nb), product(x, na, nb, n), quotient(x, s, at_least(n, tiny()), q)]
        norm_to(x, a, na) && norm_to(x, b, nb) && product(x, na, nb, n) && quotient(
            x,
            s,
            at_least(n, tiny()),
            q,
        ) && c == cosine_clamped(q)
}

/// The cosine distance may come out as `v`: one minus the cosine.
pub open spec fn cosine_distance_to<A: Arithmetic>(
    x: &A,
    a: Seq<Scalar>,
    b: Seq<Scalar>,
    v: Scalar,
) -> bool {
    exists|s: Scalar, c: Scalar| #[trigger]
        dot_to(x, a, b, s) && #[trigger] cosine_to(x, a, b, s, c) && difference(x, one(), c, v)
}

/// The cosine similarity may come out as `v`: one minus the cosine distance.
pub open spec fn cosine_similarity_to<A: Arithmetic>(
    x: &A,
    a: Seq<Scalar>,
    b: Seq<Scalar>,
    v: Scalar,
) -> bool {
    exists|d: Scalar| #[trigger] cosine_distance_to(x, a, b, d) && difference(x, one(), d, v)
}

/// The inner product distance may come out as `v`: the inner product with the opposite sign.
pub open spec fn inner_product_distance_to<A: Arithmetic>(
    x: &A,
    a: Seq<Scalar>,
    b: Seq<Scalar>,
    v: Scalar,
) -> bool {
    exists|s: Scalar| #[trigger] dot_to(x, a, b, s) && v == s.neg_spec()
}

/// The distance by a metric may come out as `v`.
pub open spec fn distance_to<A: Arithmetic>(
    x: &A,
    metric: DistanceMetric,
    a: Seq<Scalar>,
    b: Seq<Scalar>,
    v: Scalar,
) -> bool {
    match metric {
        DistanceMetric::L2 => l2_squared_to(x, a, b, v),
        DistanceMetric::Cosine => cosine_distance_to(x, a, b, v),
        DistanceMetric::InnerProduct => inner_product_distance_to(x, a, b, v),
    }
}

/// Squared Euclidean distance.
pub fn l2_squared<A: Arithmetic>(a: &[Scalar], b: &[Scalar], x: &A) -> (r: Result<Scalar>)
    ensures
        measured(a@, b@, r, |v: Scalar| l2_squared_to(x, a@, b@, v)),
{
    match check_dims(a, b) {
        Ok(()) => Ok(sum_terms(x, Term::Square, a, b)),
        Err(e) => Err(e),
    }
}

/// Euclidean distance.
pub fn l2<A: Arithmetic>(a: &[Scalar], b: &[Scalar], x: &A) -> (r: Result<Scalar>)
    ensures
        measured(a@, b@, r, |v: Scalar| l2_to(x, a@, b@, v)),
{
    match l2_squared(a, b, x) {
        Ok(s) => {
            let v = x.sqrt(s);
            assert(l2_squared_to(x, a@, b@, s) && root(x, s, v));
            Ok(v)
        },
        Err(e) => Err(e),
    }
}

/// Inner product.
pub fn dot<A: Arithmetic>(a: &[Scalar], b: &[Scalar], x: &A) -> (r: Result<Scalar>)
    ensures
        measured(a@, b@, r, |v: Scalar| dot_to(x, a@, b@, v)),
{
    match check_dims(a, b) {
        Ok(()) => Ok(sum_terms(x, Term::Product, a, b)),
        Err(e) => Err(e),
    }
}

/// Euclidean length.
pub fn l2_norm<A: Arithmetic>(a: &[Scalar], x: &A) -> (v: Scalar)
    ensures
        norm_to(x, a@, v),
{
    let s = sum_terms(x, Term::Product, a, a);
    let v = x.sqrt(s);
    assert(dot_to(x, a@, a@, s) && root(x, s, v));
    v
}

/// Cosine distance: one minus the cosine of the angle.
pub fn cosine_distance<A: Arithmetic>(a: &[Scalar], b: &[Scalar], x: &A) -> (r: Result<Scalar>)
    ensures
        measured(a@, b@, r, |v: Scalar| cosine_distance_to(x, a@, b@, v)),
{
    match check_dims(a, b) {
        Ok(()) => {},
        Err(e) => return Err(e),
    }
    let s = sum_terms(x, Term::Product, a, b);
    let na = l2_norm(a, x);
    let nb = l2_norm(b, x);
    let n = x.mul(na, nb);
    let denom = if n.is_nan() || n.lt(tiny()) {
        tiny()
    } else {
        n
    };
    let q = x.div(s, denom);
    let c = if q.lt(minus_one()) {
        minus_one()
    } else if one().lt(q) {
        one()
    } else {
        q
    };
    let v = x.sub(one(), c);
    proof {
        assert(dot_to(x, a@, b@, s));
        assert(product(x, na, nb, n) && quotient(x, s, at_least(n, tiny()), q));
        assert(cosine_to(x, a@, b@, s, c));
        assert(difference(x, one(), c, v));
    }
    Ok(v)
}

/// Cosine similarity: one minus the cosine distance.
pub fn cosine_similarity<A: Arithmetic>(a: &[Scalar], b: &[Scalar], x: &A) -> (r: Result<Scalar>)
    ensures
        measured(a@, b@, r, |v: Scalar| cosine_similarity_to(x, a@, b@, v)),
{
    match cosine_distance(a, b, x) {
        Ok(d) => {
            let v = x.sub(one(), d);
            assert(cosine_distance_to(x, a@, b@, d) && difference(x, one(), d, v));
            Ok(v)
        },
        Err(e) => Err(e),
    }
}

/// Inner product with the opposite sign, so that a larger product is a smaller distance.
pub fn inner_product_distance<A: Arithmetic>(a: &[Scalar], b: &[Scalar], x: &A) -> (r: Result<
    Scalar,
>)
    ensures
        measured(a@, b@, r, |v: Scalar| inner_product_distance_to(x, a@, b@, v)),
{
    match dot(a, b, x) {
        Ok(s) => {
            assert(dot_to(x, a@, b@, s));
            Ok(s.negated())
        },
        Err(e) => Err(e),
    }
}

/// Distance by a metric.
pub fn distance<A: Arithmetic>(metric: DistanceMetric, a: &[Scalar], b: &[Scalar], x: &A) -> (r:
    Result<Scalar>)
    ensures
        measured(a@, b@, r, |v: Scalar| distance_to(x, metric, a@, b@, v)),
{
    match metric {
        DistanceMetric::L2 => l2_squared(a, b, x),
        DistanceMetric::Cosine => cosine_distance(a, b, x),
        DistanceMetric::InnerProduct => inner_product_distance(a, b, x),
    }
}

/// The complaint about the first vector at or after `from` that has no distance from `query`.
pub open spec fn shapes_fault(query: Seq<Scalar>, data: Seq<Seq<Scalar>>, from: nat) -> Option<
    ErrorModel,
>
    decreases data.len() - from,
{
    if from >= data.len() {
        None
    } else if shape_fault(query, data[from as int]) is Some {
        shape_fault(query, data[from as int])
    } else {
        shapes_fault(query, data, from + 1)
    }
}

/// Distances from `query` to every vector, up to the first without one.
pub fn batch_distance<A: Arithmetic>(
    metric: DistanceMetric,
    query: &[Scalar],
    dataset: &[Vec<Scalar>],
    x: &A,
) -> (r: Result<Vec<Scalar>>)
    ensures
        match r {
            Ok(out) => {
                &&& shapes_fault(query@, rows(dataset@), 0) is None
                &&& out@.len() == dataset@.len()
                &&& forall|i: int|
                    0 <= i < dataset@.len() ==> distance_to(
                        x,
                        metric,
                        query@,
                        dataset@[i]@,
                        #[trigger] out@[i],
                    )
            },
            Err(e) => shapes_fault(query@, rows(dataset@), 0) == Some(e@),
        },
{
    let ghost data = rows(dataset@);
    let mut out: Vec<Scalar> = Vec::new();
    let mut i: usize = 0;
    while i < dataset.len()
        invariant
            data == rows(dataset@),
            i <= dataset@.len(),
            out@.len() == i,
            shapes_fault(query@, data, 0) == shapes_fault(query@, data, i as nat),
            forall|k: int|
                0 <= k < i ==> distance_to(x, metric, query@, dataset@[k]@, #[trigger] out@[k]),
        decreases dataset@.len() - i,
    {
        assert(data[i as int] == dataset@[i as int]@);
        match distance(metric, query, dataset[i].as_slice(), x) {
            Ok(v) => out.push(v),
            Err(e) => return Err(e),
        }
        i += 1;
    }
    Ok(out)
}

/// Squared Euclidean distances from `query` to every vector, up to the first without one.
pub fn batch_l2_squared<A: Arithmetic>(query: &[Scalar], dataset: &[Vec<Scalar>], x: &A) -> (r:
    Result<Vec<Scalar>>)
    ensures
        match r {
            Ok(out) => {
                &&& shapes_fault(query@, rows(dataset@), 0) is None
                &&& out@.len() == dataset@.len()
                &&& forall|i: int|
                    0 <= i < dataset@.len() ==> l2_squared_to(
                        x,
                        query@,
                        dataset@[i]@,
                        #[trigger] out@[i],
                    )
            },
            Err(e) => shapes_fault(query@, rows(dataset@), 0) == Some(e@),
        },
{
    batch_distance(DistanceMetric::L2, query, dataset, x)
}

/// Scaling to unit length may turn `a` into `b`; vectors of next to no length stay as they are.
pub open spec fn normalizes_to<A: Arithmetic>(x: &A, a: Seq<Scalar>, b: Seq<Scalar>) -> bool {
    exists|n: Scalar| #[trigger]
        norm_to(x, a, n) && b.len() == a.len() && forall|i: int|
            0 <= i < a.len() ==> if tiny().below(n) {
                quotient(x, a[i], n, #[trigger] b[i])
            } else {
                b[i] == a[i]
            }
}

/// Scale to unit length in place.
pub fn normalize<A: Arithmetic>(v: &mut [Scalar], x: &A)
    ensures
        normalizes_to(x, old(v)@, final(v)@),
{
    let n = l2_norm(&*v, x);
    assert(norm_to(x, old(v)@, n));
    if tiny().lt(n) {
        let mut i: usize = 0;
        while i < v.len()
            invariant
                i <= v@.len() == old(v)@.len(),
                forall|k: int| 0 <= k < i ==> quotient(x, old(v)@[k], n, #[trigger] v@[k]),
                forall|k: int| i <= k < v@.len() ==> #[trigger] v@[k] == old(v)@[k],
            decreases v@.len() - i,
        {
            let q = x.div(v[i], n);
            assert(quotient(x, old(v)@[i as int], n, q));
            v[i] = q;
            i += 1;
        }
    }
}

/// A vector scaled to unit length.
pub fn normalized<A: Arithmetic>(a: &[Scalar], x: &A) -> (r: Vec<Scalar>)
    ensures
        normalizes_to(x, a@, r@),
{
    let mut r = crate::quant::copy_of(a);
    normalize(r.as_mut_slice(), x);
    r
}

} // verus!
