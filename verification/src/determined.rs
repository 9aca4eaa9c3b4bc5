//! What holds where every operation of the arithmetic has one result, up to the bits of
//! not-a-number: then every outcome of the library is determined by its inputs, and two ways to
//! the same outcome give the same.
use crate::bins::{
    bins_to, dequantized, dequantizes_to, dequantizing_fails, flat, flat_bin, flat_to, linear_to,
    mixes_to, packs_to, quantized, quantizes_to, readable, stands_for, unit_clamped,
    unreadable_at,
};
use crate::cache::{
    faithful, history, law_cache_after_any_calls, law_cache_is_transparent, law_cache_stays_valid,
    request_answered, request_fails, CachedModel,
};
use crate::dataset::{between_to, draws, drawn, fraction_to, held, row_drawn, state_after, within_to};
use crate::distance::{
    at_least, cosine_clamped, cosine_to, distance_to, dot_to, four_to, norm_to, one_to,
    shape_fault, sums_to, term_to, Term,
};
use crate::errors::{outcome, ErrorModel, Result};
use crate::quant::{Bounds, DistanceMetric};
use crate::ranking::{nearest, SearchResult};
use crate::scalar::{counted, difference, product, quotient, root, total, Arithmetic, Scalar};
use crate::scalar::{one, tiny, top_bin};
use crate::search::{
    by_function, by_metric, contributes, distant, finds, hit, law_single_matches_parallel,
    measures, measuring_fails, range_contributes, scan_fails_at, searched, vector_contributes,
    vector_unmeasured, Judge,
};
use crate::storage::reader::{bytes_outcome, vector_read, ReaderModel};
use crate::wide::{narrowed, share, wide_counted, wide_quotient, Wide, WideArithmetic};
use vstd::prelude::*;

verus! {

/// The same number. Not-a-number is one number, whatever its bits.
pub open spec fn same(a: Scalar, b: Scalar) -> bool {
    a == b || a.nan() && b.nan()
}

/// The same wide number. Not-a-number is one number, whatever its bits.
pub open spec fn same_wide(a: Wide, b: Wide) -> bool {
    a == b || a.nan() && b.nan()
}

/// Every operation has one result for the same numbers, up to the bits of not-a-number.
pub open spec fn deterministic<A: Arithmetic>(x: &A) -> bool {
    &&& forall|a: Scalar, b: Scalar, c: Scalar, d: Scalar, r: Scalar, s: Scalar| #[trigger]
        difference(x, a, b, r) && #[trigger] difference(x, c, d, s) && same(a, c) && same(b, d)
            ==> same(r, s)
    &&& forall|a: Scalar, b: Scalar, c: Scalar, d: Scalar, r: Scalar, s: Scalar| #[trigger]
        total(x, a, b, r) && #[trigger] total(x, c, d, s) && same(a, c) && same(b, d) ==> same(
            r,
            s,
        )
    &&& forall|a: Scalar, b: Scalar, c: Scalar, d: Scalar, r: Scalar, s: Scalar| #[trigger]
        product(x, a, b, r) && #[trigger] product(x, c, d, s) && same(a, c) && same(b, d) ==> same(
            r,
            s,
        )
    &&& forall|a: Scalar, b: Scalar, c: Scalar, d: Scalar, r: Scalar, s: Scalar| #[trigger]
        quotient(x, a, b, r) && #[trigger] quotient(x, c, d, s) && same(a, c) && same(b, d)
            ==> same(r, s)
    &&& forall|a: Scalar, c: Scalar, r: Scalar, s: Scalar| #[trigger]
        root(x, a, r) && #[trigger] root(x, c, s) && same(a, c) ==> same(r, s)
    &&& forall|n: usize, r: Scalar, s: Scalar| #[trigger]
        counted(x, n, r) && #[trigger] counted(x, n, s) ==> r == s
}

/// Every operation that drawing numbers takes has one result, up to the bits of not-a-number.
pub open spec fn wide_deterministic<W: WideArithmetic>(w: &W) -> bool {
    &&& forall|n: u64, r: Wide, s: Wide| #[trigger]
        wide_counted(w, n, r) && #[trigger] wide_counted(w, n, s) ==> r == s
    &&& forall|a: Wide, b: Wide, r: Wide, s: Wide| #[trigger]
        wide_quotient(w, a, b, r) && #[trigger] wide_quotient(w, a, b, s) ==> same_wide(r, s)
    &&& forall|a: Wide, c: Wide, r: Scalar, s: Scalar| #[trigger]
        narrowed(w, a, r) && #[trigger] narrowed(w, c, s) && same_wide(a, c) ==> same(r, s)
}

// ---------------------------------------------------------------------------
// Bytes
// ---------------------------------------------------------------------------

proof fn lemma_linear<A: Arithmetic>(
    x: &A,
    val: Scalar,
    min: Scalar,
    r: Scalar,
    s: Scalar,
    p: u8,
    q: u8,
)
    requires
        deterministic(x),
        same(r, s),
        linear_to(x, val, min, r, p),
        linear_to(x, val, min, s, q),
    ensures
        p == q,
{
    let (a, n, t) = choose|a: Scalar, n: Scalar, t: Scalar| #[trigger]
        difference(x, val, min, a) && #[trigger] quotient(x, a, r, n) && #[trigger] product(
            x,
            unit_clamped(n),
            top_bin(),
            t,
        ) && p == t.byte_spec();
    let (b, m, u) = choose|b: Scalar, m: Scalar, u: Scalar| #[trigger]
        difference(x, val, min, b) && #[trigger] quotient(x, b, s, m) && #[trigger] product(
            x,
            unit_clamped(m),
            top_bin(),
            u,
        ) && q == u.byte_spec();
    assert(same(a, b));
    assert(same(n, m));
    assert(same(unit_clamped(n), unit_clamped(m)));
    assert(same(t, u));
}

/// A value gets one byte.
pub proof fn law_byte_is_determined<A: Arithmetic>(
    x: &A,
    val: Scalar,
    min: Scalar,
    max: Scalar,
    p: u8,
    q: u8,
)
    requires
        deterministic(x),
        bins_to(x, val, min, max, p),
        bins_to(x, val, min, max, q),
    ensures
        p == q,
{
    let r = choose|range: Scalar| #[trigger]
        difference(x, max, min, range) && if flat(range) {
            flat_to(x, val, min, max, p)
        } else {
            linear_to(x, val, min, range, p)
        };
    let s = choose|range: Scalar| #[trigger]
        difference(x, max, min, range) && if flat(range) {
            flat_to(x, val, min, max, q)
        } else {
            linear_to(x, val, min, range, q)
        };
    assert(same(r, s));
    if flat(r) {
        let a = choose|a: Scalar| #[trigger]
            difference(x, val, min, a) && p == flat_bin(val, min, max, a);
        let b = choose|b: Scalar| #[trigger]
            difference(x, val, min, b) && q == flat_bin(val, min, max, b);
        assert(same(a, b));
    } else {
        lemma_linear(x, val, min, r, s, p, q);
    }
}

/// In a dimension of some extent, storing into a buffer gives the byte that storing into a new
/// vector gives.
pub proof fn law_packed_byte_is_the_same<A: Arithmetic>(
    x: &A,
    val: Scalar,
    min: Scalar,
    max: Scalar,
    p: u8,
    q: u8,
)
    requires
        deterministic(x),
        forall|range: Scalar| #[trigger] difference(x, max, min, range) ==> !flat(range),
        packs_to(x, val, min, max, p),
        bins_to(x, val, min, max, q),
    ensures
        p == q,
{
    let r = choose|range: Scalar| #[trigger]
        difference(x, max, min, range) && if flat(range) {
            p == 0
        } else {
            linear_to(x, val, min, range, p)
        };
    let s = choose|range: Scalar| #[trigger]
        difference(x, max, min, range) && if flat(range) {
            flat_to(x, val, min, max, q)
        } else {
            linear_to(x, val, min, range, q)
        };
    assert(same(r, s));
    lemma_linear(x, val, min, r, s, p, q);
}

/// Quantizing a vector has one outcome.
pub proof fn law_quantizing_is_determined<A: Arithmetic>(
    x: &A,
    b: Bounds,
    v: Seq<Scalar>,
    r: Result<Vec<u8>>,
    s: Result<Vec<u8>>,
)
    requires
        deterministic(x),
        quantized(x, b, v, r),
        quantized(x, b, v, s),
    ensures
        bytes_outcome(r) == bytes_outcome(s),
{
    if r is Ok && s is Ok {
        let p = r->Ok_0@;
        let q = s->Ok_0@;
        assert forall|d: int| 0 <= d < b.dims() implies p[d] == q[d] by {
            law_byte_is_determined(x, v[d], b.min[d], b.max[d], p[d], q[d]);
        }
        assert(p =~= q);
    }
}

/// Where every dimension has some extent, a vector stored into a buffer is stored as it is into
/// a new vector.
pub proof fn law_storing_into_a_buffer_gives_the_same<A: Arithmetic>(
    x: &A,
    b: Bounds,
    v: Seq<Scalar>,
    bytes: Seq<u8>,
    out: Seq<u8>,
)
    requires
        deterministic(x),
        forall|d: int, range: Scalar|
            0 <= d < b.dims() && #[trigger] difference(x, b.max[d], b.min[d], range) ==> !flat(
                range,
            ),
        quantizes_to(x, b, v, bytes),
        out.len() == b.dims(),
        forall|d: int|
            0 <= d < b.dims() ==> packs_to(x, v[d], b.min[d], b.max[d], #[trigger] out[d]),
    ensures
        out == bytes,
{
    assert forall|d: int| 0 <= d < b.dims() implies out[d] == bytes[d] by {
        law_packed_byte_is_the_same(x, v[d], b.min[d], b.max[d], out[d], bytes[d]);
    }
    assert(out =~= bytes);
}

/// A byte stands for one number.
pub proof fn law_value_is_determined<A: Arithmetic>(
    x: &A,
    byte: u8,
    min: Scalar,
    max: Scalar,
    v: Scalar,
    w: Scalar,
)
    requires
        deterministic(x),
        stands_for(x, byte, min, max, v),
        stands_for(x, byte, min, max, w),
    ensures
        same(v, w),
{
    let r = choose|range: Scalar| #[trigger]
        difference(x, max, min, range) && if flat(range) {
            v == min
        } else {
            mixes_to(x, min, byte, range, v)
        };
    let s = choose|range: Scalar| #[trigger]
        difference(x, max, min, range) && if flat(range) {
            w == min
        } else {
            mixes_to(x, min, byte, range, w)
        };
    assert(same(r, s));
    if !flat(r) {
        let (c, h, g) = choose|c: Scalar, h: Scalar, g: Scalar| #[trigger]
            counted(x, byte as usize, c) && #[trigger] quotient(x, c, top_bin(), h)
                && #[trigger] product(x, h, r, g) && total(x, min, g, v);
        let (d, k, l) = choose|d: Scalar, k: Scalar, l: Scalar| #[trigger]
            counted(x, byte as usize, d) && #[trigger] quotient(x, d, top_bin(), k)
                && #[trigger] product(x, k, s, l) && total(x, min, l, w);
        assert(c == d);
        assert(same(h, k));
        assert(same(g, l));
    }
}

/// Outcome of reading a vector back, over its coordinates.
pub open spec fn vector_outcome(r: Result<Vec<Scalar>>) -> std::result::Result<
    Seq<Scalar>,
    ErrorModel,
> {
    match r {
        Ok(v) => Ok(v@),
        Err(e) => Err(e@),
    }
}

/// The same complaint, up to the bits of a number complained of.
pub open spec fn same_failure(e: ErrorModel, f: ErrorModel) -> bool {
    match (e, f) {
        (
            ErrorModel::QuantizationOverflow { dimension, value, min, max, reason },
            ErrorModel::QuantizationOverflow {
                dimension: d,
                value: v,
                min: lo,
                max: hi,
                reason: why,
            },
        ) => dimension == d && same(value, v) && min == lo && max == hi && reason == why,
        _ => e == f,
    }
}

/// The same vector, or the same complaint.
pub open spec fn same_outcome<T>(
    r: std::result::Result<T, ErrorModel>,
    s: std::result::Result<T, ErrorModel>,
) -> bool {
    match (r, s) {
        (Err(e), Err(f)) => same_failure(e, f),
        _ => r == s,
    }
}

proof fn lemma_readings_agree<A: Arithmetic>(
    x: &A,
    b: Bounds,
    bytes: Seq<u8>,
    v: Seq<Scalar>,
    w: Seq<Scalar>,
)
    requires
        deterministic(x),
        dequantizes_to(x, b, bytes, v),
        dequantizes_to(x, b, bytes, w),
    ensures
        v == w,
{
    assert forall|d: int| 0 <= d < b.dims() implies v[d] == w[d] by {
        law_value_is_determined(x, bytes[d], b.min[d], b.max[d], v[d], w[d]);
    }
    assert(v =~= w);
}

proof fn lemma_reading_or_failure<A: Arithmetic>(
    x: &A,
    b: Bounds,
    bytes: Seq<u8>,
    v: Seq<Scalar>,
    e: ErrorModel,
)
    requires
        deterministic(x),
        dequantizes_to(x, b, bytes, v),
    ensures
        !dequantizing_fails(x, b, bytes, e),
{
    if dequantizing_fails(x, b, bytes, e) {
        let (d, w) = choose|d: int, w: Scalar| #[trigger]
            unreadable_at(x, b, bytes, d, w) && e == (ErrorModel::QuantizationOverflow {
                dimension: d as nat,
                value: w,
                min: b.min[d],
                max: b.max[d],
                reason: "non-finite dequantized value"@,
            });
        assert(v[d].finite());
        law_value_is_determined(x, bytes[d], b.min[d], b.max[d], v[d], w);
    }
}

proof fn lemma_not_later<A: Arithmetic>(
    x: &A,
    b: Bounds,
    bytes: Seq<u8>,
    d: int,
    v: Scalar,
    k: int,
    w: Scalar,
)
    requires
        deterministic(x),
        unreadable_at(x, b, bytes, d, v),
        unreadable_at(x, b, bytes, k, w),
    ensures
        k <= d,
{
    if d < k {
        assert(readable(x, b, bytes, d));
        let u = choose|u: Scalar| #[trigger]
            stands_for(x, bytes[d], b.min[d], b.max[d], u) && u.finite();
        law_value_is_determined(x, bytes[d], b.min[d], b.max[d], u, v);
    }
}

proof fn lemma_failures_agree<A: Arithmetic>(
    x: &A,
    b: Bounds,
    bytes: Seq<u8>,
    e: ErrorModel,
    f: ErrorModel,
)
    requires
        deterministic(x),
        dequantizing_fails(x, b, bytes, e),
        dequantizing_fails(x, b, bytes, f),
    ensures
        same_failure(e, f),
{
    if bytes.len() == b.dims() {
        let (d, v) = choose|d: int, v: Scalar| #[trigger]
            unreadable_at(x, b, bytes, d, v) && e == (ErrorModel::QuantizationOverflow {
                dimension: d as nat,
                value: v,
                min: b.min[d],
                max: b.max[d],
                reason: "non-finite dequantized value"@,
            });
        let (k, w) = choose|k: int, w: Scalar| #[trigger]
            unreadable_at(x, b, bytes, k, w) && f == (ErrorModel::QuantizationOverflow {
                dimension: k as nat,
                value: w,
                min: b.min[k],
                max: b.max[k],
                reason: "non-finite dequantized value"@,
            });
        lemma_not_later(x, b, bytes, d, v, k, w);
        lemma_not_later(x, b, bytes, k, w, d, v);
        law_value_is_determined(x, bytes[d], b.min[d], b.max[d], v, w);
    }
}

/// Reading bytes back has one outcome.
pub proof fn law_reading_back_is_determined<A: Arithmetic>(
    x: &A,
    b: Bounds,
    bytes: Seq<u8>,
    r: Result<Vec<Scalar>>,
    s: Result<Vec<Scalar>>,
)
    requires
        deterministic(x),
        dequantized(x, b, bytes, r),
        dequantized(x, b, bytes, s),
    ensures
        same_outcome(vector_outcome(r), vector_outcome(s)),
{
    match (r, s) {
        (Ok(v), Ok(w)) => lemma_readings_agree(x, b, bytes, v@, w@),
        (Ok(v), Err(f)) => lemma_reading_or_failure(x, b, bytes, v@, f@),
        (Err(e), Ok(w)) => lemma_reading_or_failure(x, b, bytes, w@, e@),
        (Err(e), Err(f)) => lemma_failures_agree(x, b, bytes, e@, f@),
    }
}

/// Reading a vector of a file has one outcome.
pub proof fn law_reading_a_vector_is_determined<A: Arithmetic>(
    x: &A,
    m: ReaderModel,
    file: Seq<u8>,
    id: u64,
    r: Result<Vec<Scalar>>,
    s: Result<Vec<Scalar>>,
)
    requires
        deterministic(x),
        vector_read(x, m, file, id, r),
        vector_read(x, m, file, id, s),
    ensures
        same_outcome(vector_outcome(r), vector_outcome(s)),
{
    match m.vector_bytes(file, id) {
        Ok(bytes) => law_reading_back_is_determined(x, m.bounds, bytes, r, s),
        Err(_) => {},
    }
}

// ---------------------------------------------------------------------------
// Cached vectors
// ---------------------------------------------------------------------------

/// A cache without vectors holds nothing that the file does not hold.
pub proof fn law_empty_cache_is_faithful<A: Arithmetic>(
    x: &A,
    m: ReaderModel,
    file: Seq<u8>,
    s: CachedModel,
)
    requires
        s.cache.vectors == Map::<u64, Seq<Scalar>>::empty(),
    ensures
        faithful(x, m, file, s.cache),
{
}

/// What a request is answered with is what a fresh reading gives, whatever is cached.
pub proof fn law_cached_vector_is_a_fresh_one<A: Arithmetic>(
    x: &A,
    m: ReaderModel,
    file: Seq<u8>,
    s: CachedModel,
    id: u64,
    v: Seq<Scalar>,
    t: CachedModel,
    fresh: Result<Vec<Scalar>>,
)
    requires
        deterministic(x),
        faithful(x, m, file, s.cache),
        request_answered(x, m, file, s, id, v, t),
        vector_read(x, m, file, id, fresh),
    ensures
        vector_outcome(fresh) == Ok::<Seq<Scalar>, ErrorModel>(v),
        faithful(x, m, file, t.cache),
        t.cache.vectors.contains_key(id),
        t.cache.vectors[id] == v,
{
    law_cache_is_transparent(x, m, file, s, id, v, t);
    let bytes = m.vector_bytes(file, id)->Ok_0;
    match fresh {
        Ok(w) => lemma_readings_agree(x, m.bounds, bytes, v, w@),
        Err(e) => lemma_reading_or_failure(x, m.bounds, bytes, v, e@),
    }
}

/// After any calls, what a request is answered with is what a fresh reading gives.
pub proof fn law_cache_is_a_fresh_reading_after_any_calls<A: Arithmetic>(
    x: &A,
    m: ReaderModel,
    file: Seq<u8>,
    states: Seq<CachedModel>,
    id: u64,
    v: Seq<Scalar>,
    t: CachedModel,
    fresh: Result<Vec<Scalar>>,
)
    requires
        deterministic(x),
        history(x, m, file, states),
        request_answered(x, m, file, states.last(), id, v, t),
        vector_read(x, m, file, id, fresh),
    ensures
        vector_outcome(fresh) == Ok::<Seq<Scalar>, ErrorModel>(v),
        t.cache.order.len() <= states[0].cache.capacity,
        t.cache.vectors.contains_key(id),
{
    law_cache_after_any_calls(x, m, file, states);
    law_cached_vector_is_a_fresh_one(x, m, file, states.last(), id, v, t, fresh);
    law_cache_stays_valid(states.last().cache, id, v);
}

/// A request fails as a fresh reading fails, and leaves what is cached as it is.
pub proof fn law_cached_failure_is_a_fresh_one<A: Arithmetic>(
    x: &A,
    m: ReaderModel,
    file: Seq<u8>,
    s: CachedModel,
    id: u64,
    e: ErrorModel,
    t: CachedModel,
    fresh: Result<Vec<Scalar>>,
)
    requires
        deterministic(x),
        request_fails(x, m, file, s, id, e, t),
        vector_read(x, m, file, id, fresh),
    ensures
        same_outcome(vector_outcome(fresh), Err(e)),
        t.cache == s.cache,
{
    match m.vector_bytes(file, id) {
        Ok(bytes) => match fresh {
            Ok(w) => lemma_reading_or_failure(x, m.bounds, bytes, w@, e),
            Err(f) => lemma_failures_agree(x, m.bounds, bytes, e, f@),
        },
        Err(_) => {},
    }
}

/// After an answer the next request for the same vector is answered by the cache, and alike.
pub proof fn law_repeated_request_is_a_hit<A: Arithmetic>(
    x: &A,
    m: ReaderModel,
    file: Seq<u8>,
    s: CachedModel,
    id: u64,
    v: Seq<Scalar>,
    t: CachedModel,
    w: Seq<Scalar>,
    u: CachedModel,
)
    requires
        request_answered(x, m, file, s, id, v, t),
        request_answered(x, m, file, t, id, w, u),
    ensures
        w == v,
        u.hits == t.hits + 1,
        forall|e: ErrorModel, f: CachedModel| !#[trigger] request_fails(x, m, file, t, id, e, f),
{
}

// ---------------------------------------------------------------------------
// Drawn numbers
// ---------------------------------------------------------------------------

proof fn lemma_draw<A: Arithmetic, W: WideArithmetic>(
    x: &A,
    w: &W,
    low: Scalar,
    high: Scalar,
    state: u64,
    v: Scalar,
    u: Scalar,
)
    requires
        deterministic(x),
        wide_deterministic(w),
        draws(x, w, low, high, state, v),
        draws(x, w, low, high, state, u),
    ensures
        same(v, u),
        low.below(high) ==> v == u,
{
    let a = choose|a: Scalar| #[trigger]
        fraction_to(w, state, a) && within_to(x, low, high, a, v);
    let b = choose|b: Scalar| #[trigger]
        fraction_to(w, state, b) && within_to(x, low, high, b, u);
    let p = choose|p: Wide| #[trigger] share(w, state, u64::MAX, p) && narrowed(w, p, a);
    let q = choose|q: Wide| #[trigger] share(w, state, u64::MAX, q) && narrowed(w, q, b);
    assert(same_wide(p, q));
    assert(same(a, b));
    let n = choose|n: Scalar| #[trigger] between_to(x, low, high, a, n) && v == held(n, low, high);
    let m = choose|m: Scalar| #[trigger] between_to(x, low, high, b, m) && u == held(m, low, high);
    let (s, g) = choose|s: Scalar, g: Scalar| #[trigger]
        difference(x, high, low, s) && #[trigger] product(x, a, s, g) && total(x, low, g, n);
    let (t, h) = choose|t: Scalar, h: Scalar| #[trigger]
        difference(x, high, low, t) && #[trigger] product(x, b, t, h) && total(x, low, h, m);
    assert(same(s, t));
    assert(same(g, h));
    assert(same(n, m));
}

/// Equal arguments draw the same vectors, and equal ones wherever the range holds numbers.
pub proof fn law_drawing_is_determined<A: Arithmetic, W: WideArithmetic>(
    x: &A,
    w: &W,
    count: nat,
    dims: nat,
    low: Scalar,
    high: Scalar,
    start: u64,
    data: Seq<Seq<Scalar>>,
    other: Seq<Seq<Scalar>>,
)
    requires
        deterministic(x),
        wide_deterministic(w),
        drawn(x, w, count, dims, low, high, start, data),
        drawn(x, w, count, dims, low, high, start, other),
    ensures
        data.len() == other.len(),
        forall|i: int|
            0 <= i < data.len() ==> (#[trigger] data[i]).len() == other[i].len(),
        forall|i: int, d: int|
            0 <= i < data.len() && 0 <= d < data[i].len() ==> same(
                #[trigger] data[i][d],
                other[i][d],
            ),
        low.below(high) ==> data == other,
{
    assert forall|i: int| 0 <= i < count implies (#[trigger] data[i]).len() == dims
        && other[i].len() == dims by {
        assert(row_drawn(x, w, i, dims, low, high, start, data[i]));
        assert(row_drawn(x, w, i, dims, low, high, start, other[i]));
    }
    assert forall|i: int, d: int| 0 <= i < count && 0 <= d < dims implies same(
        #[trigger] data[i][d],
        other[i][d],
    ) && (low.below(high) ==> data[i][d] == other[i][d]) by {
        assert(row_drawn(x, w, i, dims, low, high, start, data[i]));
        assert(row_drawn(x, w, i, dims, low, high, start, other[i]));
        let state = state_after(start, (i * dims + d + 1) as nat);
        lemma_draw(x, w, low, high, state, data[i][d], other[i][d]);
    }
    if low.below(high) {
        assert forall|i: int| 0 <= i < count implies data[i] == other[i] by {
            assert(data[i] =~= other[i]);
        }
        assert(data =~= other);
    }
}

// ---------------------------------------------------------------------------
// Distances
// ---------------------------------------------------------------------------

proof fn lemma_term<A: Arithmetic>(x: &A, t: Term, a: Scalar, b: Scalar, p: Scalar, q: Scalar)
    requires
        deterministic(x),
        term_to(x, t, a, b, p),
        term_to(x, t, a, b, q),
    ensures
        same(p, q),
{
    match t {
        Term::Product => {},
        Term::Square => {
            let d = choose|d: Scalar| #[trigger] difference(x, a, b, d) && product(x, d, d, p);
            let e = choose|e: Scalar| #[trigger] difference(x, a, b, e) && product(x, e, e, q);
            assert(same(d, e));
        },
    }
}

proof fn lemma_four<A: Arithmetic>(
    x: &A,
    t: Term,
    a: Seq<Scalar>,
    b: Seq<Scalar>,
    i: int,
    s0: Scalar,
    u0: Scalar,
    s: Scalar,
    u: Scalar,
)
    requires
        deterministic(x),
        same(s0, u0),
        four_to(x, t, a, b, i, s0, s),
        four_to(x, t, a, b, i, u0, u),
    ensures
        same(s, u),
{
    let (p0, p1, p2, p3, t1, t2, t3) = choose|
        p0: Scalar,
        p1: Scalar,
        p2: Scalar,
        p3: Scalar,
        t1: Scalar,
        t2: Scalar,
        t3: Scalar,
    |
        #![trigger total(x, p0, p1, t1), total(x, t1, p2, t2), total(x, t2, p3, t3)]
        term_to(x, t, a[i], b[i], p0) && term_to(x, t, a[i + 1], b[i + 1], p1) && term_to(
            x,
            t,
            a[i + 2],
            b[i + 2],
            p2,
        ) && term_to(x, t, a[i + 3], b[i + 3], p3) && total(x, p0, p1, t1) && total(x, t1, p2, t2)
            && total(x, t2, p3, t3) && total(x, s0, t3, s);
    let (q0, q1, q2, q3, u1, u2, u3) = choose|
        p0: Scalar,
        p1: Scalar,
        p2: Scalar,
        p3: Scalar,
        t1: Scalar,
        t2: Scalar,
        t3: Scalar,
    |
        #![trigger total(x, p0, p1, t1), total(x, t1, p2, t2), total(x, t2, p3, t3)]
        term_to(x, t, a[i], b[i], p0) && term_to(x, t, a[i + 1], b[i + 1], p1) && term_to(
            x,
            t,
            a[i + 2],
            b[i + 2],
            p2,
        ) && term_to(x, t, a[i + 3], b[i + 3], p3) && total(x, p0, p1, t1) && total(x, t1, p2, t2)
            && total(x, t2, p3, t3) && total(x, u0, t3, u);
    lemma_term(x, t, a[i], b[i], p0, q0);
    lemma_term(x, t, a[i + 1], b[i + 1], p1, q1);
    lemma_term(x, t, a[i + 2], b[i + 2], p2, q2);
    lemma_term(x, t, a[i + 3], b[i + 3], p3, q3);
    assert(same(t1, u1));
    assert(same(t2, u2));
    assert(same(t3, u3));
}

proof fn lemma_sums<A: Arithmetic>(
    x: &A,
    t: Term,
    a: Seq<Scalar>,
    b: Seq<Scalar>,
    n: nat,
    s: Scalar,
    u: Scalar,
)
    requires
        deterministic(x),
        sums_to(x, t, a, b, n, s),
        sums_to(x, t, a, b, n, u),
    ensures
        same(s, u),
    decreases n,
{
    if n > 0 && n % 4 == 0 && n <= a.len() {
        let m = (n - 4) as nat;
        let s0 = choose|s0: Scalar|
            sums_to(x, t, a, b, m, s0) && #[trigger] four_to(x, t, a, b, n - 4, s0, s);
        let u0 = choose|u0: Scalar|
            sums_to(x, t, a, b, m, u0) && #[trigger] four_to(x, t, a, b, n - 4, u0, u);
        lemma_sums(x, t, a, b, m, s0, u0);
        lemma_four(x, t, a, b, n - 4, s0, u0, s, u);
    } else if n > 0 {
        let m = (n - 1) as nat;
        let s0 = choose|s0: Scalar|
            sums_to(x, t, a, b, m, s0) && #[trigger] one_to(x, t, a, b, n - 1, s0, s);
        let u0 = choose|u0: Scalar|
            sums_to(x, t, a, b, m, u0) && #[trigger] one_to(x, t, a, b, n - 1, u0, u);
        lemma_sums(x, t, a, b, m, s0, u0);
        let p = choose|p: Scalar| #[trigger]
            term_to(x, t, a[n - 1], b[n - 1], p) && total(x, s0, p, s);
        let q = choose|q: Scalar| #[trigger]
            term_to(x, t, a[n - 1], b[n - 1], q) && total(x, u0, q, u);
        lemma_term(x, t, a[n - 1], b[n - 1], p, q);
    }
}

proof fn lemma_norm<A: Arithmetic>(x: &A, a: Seq<Scalar>, s: Scalar, u: Scalar)
    requires
        deterministic(x),
        norm_to(x, a, s),
        norm_to(x, a, u),
    ensures
        same(s, u),
{
    let p = choose|p: Scalar| #[trigger] dot_to(x, a, a, p) && root(x, p, s);
    let q = choose|q: Scalar| #[trigger] dot_to(x, a, a, q) && root(x, q, u);
    lemma_sums(x, Term::Product, a, a, a.len(), p, q);
}

proof fn lemma_cosine<A: Arithmetic>(
    x: &A,
    a: Seq<Scalar>,
    b: Seq<Scalar>,
    s: Scalar,
    u: Scalar,
    c: Scalar,
    e: Scalar,
)
    requires
        deterministic(x),
        same(s, u),
        cosine_to(x, a, b, s, c),
        cosine_to(x, a, b, u, e),
    ensures
        same(c, e),
{
    let (na, nb, n, q) = choose|na: Scalar, nb: Scalar, n: Scalar, q: Scalar|
        #![trigger norm_to(x, a, na), norm_to(x, b, nb), product(x, na, nb, n), quotient(x, s, at_least(n, tiny()), q)]
        norm_to(x, a, na) && norm_to(x, b, nb) && product(x, na, nb, n) && quotient(
            x,
            s,
            at_least(n, tiny()),
            q,
        ) && c == cosine_clamped(q);
    let (ma, mb, m, p) = choose|na: Scalar, nb: Scalar, n: Scalar, q: Scalar|
        #![trigger norm_to(x, a, na), norm_to(x, b, nb), product(x, na, nb, n), quotient(x, u, at_least(n, tiny()), q)]
        norm_to(x, a, na) && norm_to(x, b, nb) && product(x, na, nb, n) && quotient(
            x,
            u,
            at_least(n, tiny()),
            q,
        ) && e == cosine_clamped(q);
    lemma_norm(x, a, na, ma);
    lemma_norm(x, b, nb, mb);
    assert(same(n, m));
    assert(at_least(n, tiny()) == at_least(m, tiny()));
    assert(same(q, p));
}

/// The distance between two vectors is one number.
pub proof fn law_distance_is_determined<A: Arithmetic>(
    x: &A,
    metric: DistanceMetric,
    a: Seq<Scalar>,
    b: Seq<Scalar>,
    v: Scalar,
    w: Scalar,
)
    requires
        deterministic(x),
        distance_to(x, metric, a, b, v),
        distance_to(x, metric, a, b, w),
    ensures
        same(v, w),
{
    match metric {
        DistanceMetric::L2 => lemma_sums(x, Term::Square, a, b, a.len(), v, w),
        DistanceMetric::Cosine => {
            let (s, c) = choose|s: Scalar, c: Scalar| #[trigger]
                dot_to(x, a, b, s) && #[trigger] cosine_to(x, a, b, s, c) && difference(
                    x,
                    one(),
                    c,
                    v,
                );
            let (u, e) = choose|u: Scalar, e: Scalar| #[trigger]
                dot_to(x, a, b, u) && #[trigger] cosine_to(x, a, b, u, e) && difference(
                    x,
                    one(),
                    e,
                    w,
                );
            lemma_sums(x, Term::Product, a, b, a.len(), s, u);
            lemma_cosine(x, a, b, s, u, c, e);
        },
        DistanceMetric::InnerProduct => {
            let s = choose|s: Scalar| #[trigger] dot_to(x, a, b, s) && v == s.neg_spec();
            let u = choose|u: Scalar| #[trigger] dot_to(x, a, b, u) && w == u.neg_spec();
            lemma_sums(x, Term::Product, a, b, a.len(), s, u);
        },
    }
}

// ---------------------------------------------------------------------------
// Searches
// ---------------------------------------------------------------------------

/// Of every vector, at most one thing is said.
pub open spec fn decided(j: Judge) -> bool {
    &&& forall|v: Seq<Scalar>, d: Scalar, e: Scalar| #[trigger]
        (j.ok)(v, d) && #[trigger] (j.ok)(v, e) ==> same(d, e)
    &&& forall|v: Seq<Scalar>, d: Scalar, e: ErrorModel| #[trigger]
        (j.ok)(v, d) ==> !#[trigger] (j.err)(v, e)
    &&& forall|v: Seq<Scalar>, e: ErrorModel, f: ErrorModel| #[trigger]
        (j.err)(v, e) && #[trigger] (j.err)(v, f) ==> e == f
}

/// What `f` says of two vectors depends on their coordinates alone.
pub open spec fn settled<F: Fn(&[Scalar], &[Scalar]) -> Result<Scalar>>(f: F) -> bool {
    forall|p: &[Scalar], v: &[Scalar], q: &[Scalar], w: &[Scalar], r: Result<Scalar>, s: Result<
        Scalar,
    >|
        p@ == q@ && v@ == w@ && #[trigger] call_ensures(f, (p, v), r) && #[trigger] call_ensures(
            f,
            (q, w),
            s,
        ) ==> match (r, s) {
            (Ok(d), Ok(e)) => same(d, e),
            _ => outcome(r) == outcome(s),
        }
}

/// A distance function that depends on the coordinates alone decides.
pub proof fn law_settled_function_decides<F: Fn(&[Scalar], &[Scalar]) -> Result<Scalar>>(
    f: F,
    q: Seq<Scalar>,
)
    requires
        settled(f),
    ensures
        decided(by_function(f, q)),
{
    let j = by_function(f, q);
    assert forall|v: Seq<Scalar>, d: Scalar, e: Scalar| #[trigger]
        (j.ok)(v, d) && #[trigger] (j.ok)(v, e) implies same(d, e) by {
        assert(measures(f, q, v, d) && measures(f, q, v, e));
    }
    assert forall|v: Seq<Scalar>, d: Scalar, e: ErrorModel| #[trigger]
        (j.ok)(v, d) implies !#[trigger] (j.err)(v, e) by {
        assert(measures(f, q, v, d));
        if (j.err)(v, e) {
            assert(measuring_fails(f, q, v, e));
        }
    }
    assert forall|v: Seq<Scalar>, e: ErrorModel, g: ErrorModel| #[trigger]
        (j.err)(v, e) && #[trigger] (j.err)(v, g) implies e == g by {
        assert(measuring_fails(f, q, v, e) && measuring_fails(f, q, v, g));
    }
}

/// A metric decides.
pub proof fn law_metric_decides<A: Arithmetic>(x: &A, metric: DistanceMetric, q: Seq<Scalar>)
    requires
        deterministic(x),
    ensures
        decided(by_metric(x, metric, q)),
{
    let j = by_metric(x, metric, q);
    assert forall|v: Seq<Scalar>, d: Scalar, e: Scalar| #[trigger]
        (j.ok)(v, d) && #[trigger] (j.ok)(v, e) implies same(d, e) by {
        law_distance_is_determined(x, metric, q, v, d, e);
    }
    assert forall|v: Seq<Scalar>, d: Scalar, e: ErrorModel| #[trigger]
        (j.ok)(v, d) implies !#[trigger] (j.err)(v, e) by {
        assert(shape_fault(q, v) is None);
    }
}

proof fn lemma_contribution<A: Arithmetic>(
    x: &A,
    j: Judge,
    b: Bounds,
    bytes: Seq<u8>,
    id: u64,
    o: Seq<SearchResult>,
    p: Seq<SearchResult>,
)
    requires
        deterministic(x),
        decided(j),
        contributes(x, j, b, bytes, id, o),
        contributes(x, j, b, bytes, id, p),
    ensures
        o == p,
{
    let d = choose|d: Scalar| #[trigger] distant(x, j, b, bytes, d) && o == hit(id, d);
    let e = choose|e: Scalar| #[trigger] distant(x, j, b, bytes, e) && p == hit(id, e);
    let v = choose|v: Seq<Scalar>| #[trigger] dequantizes_to(x, b, bytes, v) && (j.ok)(v, d);
    let w = choose|w: Seq<Scalar>| #[trigger] dequantizes_to(x, b, bytes, w) && (j.ok)(w, e);
    lemma_readings_agree(x, b, bytes, v, w);
}

proof fn lemma_measured_or_not<A: Arithmetic>(
    x: &A,
    j: Judge,
    m: ReaderModel,
    file: Seq<u8>,
    id: u64,
    o: Seq<SearchResult>,
    e: ErrorModel,
)
    requires
        deterministic(x),
        decided(j),
        m.vector_bytes(file, id) is Ok,
        contributes(x, j, m.bounds, m.vector_bytes(file, id)->Ok_0, id, o),
    ensures
        !vector_unmeasured(x, j, m, file, id, e),
{
    let b = m.bounds;
    let bytes = m.vector_bytes(file, id)->Ok_0;
    let d = choose|d: Scalar| #[trigger] distant(x, j, b, bytes, d) && o == hit(id, d);
    let v = choose|v: Seq<Scalar>| #[trigger] dequantizes_to(x, b, bytes, v) && (j.ok)(v, d);
    lemma_reading_or_failure(x, b, bytes, v, e);
    if vector_unmeasured(x, j, m, file, id, e) {
        let w = choose|w: Seq<Scalar>| #[trigger] dequantizes_to(x, b, bytes, w) && (j.err)(w, e);
        lemma_readings_agree(x, b, bytes, v, w);
    }
}

proof fn lemma_vector_contribution<A: Arithmetic>(
    x: &A,
    j: Judge,
    m: ReaderModel,
    file: Seq<u8>,
    skip: bool,
    id: u64,
    o: Seq<SearchResult>,
    p: Seq<SearchResult>,
)
    requires
        deterministic(x),
        decided(j),
        vector_contributes(x, j, m, file, skip, id, o),
        vector_contributes(x, j, m, file, skip, id, p),
    ensures
        o == p,
{
    let b = m.bounds;
    let bytes = m.vector_bytes(file, id)->Ok_0;
    let read = m.vector_bytes(file, id) is Ok;
    let first = read && contributes(x, j, b, bytes, id, o);
    let second = read && contributes(x, j, b, bytes, id, p);
    if first && second {
        lemma_contribution(x, j, b, bytes, id, o, p);
    } else if first {
        let e = choose|e: ErrorModel| #[trigger] vector_unmeasured(x, j, m, file, id, e);
        lemma_measured_or_not(x, j, m, file, id, o, e);
    } else if second {
        let e = choose|e: ErrorModel| #[trigger] vector_unmeasured(x, j, m, file, id, e);
        lemma_measured_or_not(x, j, m, file, id, p, e);
    }
}

proof fn lemma_range_contribution<A: Arithmetic>(
    x: &A,
    j: Judge,
    m: ReaderModel,
    file: Seq<u8>,
    skip: bool,
    start: nat,
    end: nat,
    c: Seq<SearchResult>,
    e: Seq<SearchResult>,
)
    requires
        deterministic(x),
        decided(j),
        range_contributes(x, j, m, file, skip, start, end, c),
        range_contributes(x, j, m, file, skip, start, end, e),
    ensures
        c == e,
    decreases end,
{
    if start < end {
        let n = (end - 1) as nat;
        let (c0, o) = choose|c0: Seq<SearchResult>, o: Seq<SearchResult>|
            range_contributes(x, j, m, file, skip, start, n, c0)
                && #[trigger] vector_contributes(x, j, m, file, skip, (end - 1) as u64, o) && c
                == #[trigger] (c0 + o);
        let (e0, p) = choose|e0: Seq<SearchResult>, p: Seq<SearchResult>|
            range_contributes(x, j, m, file, skip, start, n, e0)
                && #[trigger] vector_contributes(x, j, m, file, skip, (end - 1) as u64, p) && e
                == #[trigger] (e0 + p);
        lemma_range_contribution(x, j, m, file, skip, start, n, c0, e0);
        lemma_vector_contribution(x, j, m, file, skip, (end - 1) as u64, o, p);
    }
}

/// A search finds one thing.
pub proof fn law_findings_are_determined<A: Arithmetic>(
    x: &A,
    j: Judge,
    m: ReaderModel,
    file: Seq<u8>,
    skip: bool,
    k: nat,
    r: Seq<SearchResult>,
    s: Seq<SearchResult>,
)
    requires
        deterministic(x),
        decided(j),
        finds(x, j, m, file, skip, k, r),
        finds(x, j, m, file, skip, k, s),
    ensures
        r == s,
{
    let n = m.header.vector_count as nat;
    let c = choose|c: Seq<SearchResult>| #[trigger]
        range_contributes(x, j, m, file, skip, 0, n, c) && r == nearest(c, k);
    let e = choose|e: Seq<SearchResult>| #[trigger]
        range_contributes(x, j, m, file, skip, 0, n, e) && s == nearest(e, k);
    lemma_range_contribution(x, j, m, file, skip, 0, n, c, e);
}

/// Outcome of a search, over what it found.
pub open spec fn found_outcome(r: Result<Vec<SearchResult>>) -> std::result::Result<
    Seq<SearchResult>,
    ErrorModel,
> {
    match r {
        Ok(v) => Ok(v@),
        Err(e) => Err(e@),
    }
}

/// Where every vector has a distance, a search in parts comes out as one scan does: with the
/// same results in the same order, or with the same complaint about the query.
pub proof fn law_search_in_parts_is_one_scan<A: Arithmetic>(
    x: &A,
    j: Judge,
    m: ReaderModel,
    file: Seq<u8>,
    query_len: nat,
    k: nat,
    single: Result<Vec<SearchResult>>,
    parallel: Result<Vec<SearchResult>>,
)
    requires
        deterministic(x),
        decided(j),
        forall|id: u64, e: ErrorModel|
            id < m.header.vector_count ==> !#[trigger] vector_unmeasured(x, j, m, file, id, e),
        searched(x, j, m, file, false, query_len, k, single),
        searched(x, j, m, file, true, query_len, k, parallel),
    ensures
        found_outcome(single) == found_outcome(parallel),
{
    if query_len == m.header.dims && k > 0 && m.header.vector_count > 0 {
        match single {
            Ok(v) => {
                let w = parallel->Ok_0@;
                law_single_matches_parallel(x, j, m, file, k, w);
                law_findings_are_determined(x, j, m, file, false, k, v@, w);
            },
            Err(e) => {
                let (n, c) = choose|n: u64, c: Seq<SearchResult>| #[trigger]
                    scan_fails_at(x, j, m, file, n, c, e@);
                assert(vector_unmeasured(x, j, m, file, n, e@));
            },
        }
    }
}

/// By a distance function that depends on the coordinates alone and gives every stored vector a
/// distance, a search in parts comes out as one scan does.
pub proof fn law_parallel_search_is_brute_force<
    A: Arithmetic,
    F: Fn(&[Scalar], &[Scalar]) -> Result<Scalar>,
>(
    x: &A,
    f: F,
    query: Seq<Scalar>,
    m: ReaderModel,
    file: Seq<u8>,
    k: nat,
    single: Result<Vec<SearchResult>>,
    parallel: Result<Vec<SearchResult>>,
)
    requires
        deterministic(x),
        settled(f),
        forall|id: u64, e: ErrorModel|
            id < m.header.vector_count ==> !#[trigger] vector_unmeasured(
                x,
                by_function(f, query),
                m,
                file,
                id,
                e,
            ),
        searched(x, by_function(f, query), m, file, false, query.len(), k, single),
        searched(x, by_function(f, query), m, file, true, query.len(), k, parallel),
    ensures
        found_outcome(single) == found_outcome(parallel),
{
    law_settled_function_decides(f, query);
    law_search_in_parts_is_one_scan(
        x,
        by_function(f, query),
        m,
        file,
        query.len(),
        k,
        single,
        parallel,
    );
}

} // verus!
