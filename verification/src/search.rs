//! Search for the nearest vectors of a file.
use crate::bins::{dequantizes_to, dequantizing_fails, input_fault, quantizes_to};
use crate::distance::{distance, distance_to, measured, shape_fault};
use crate::errors::{CompactError, ErrorModel, Result};
use crate::plan::{partition, split, worker_count, workers};
use crate::quant::{copy_of, rows, Bounds, DistanceMetric, Quantizer};
use crate::ranking::{
    finite, insert_top_k, kept_all, law_keeping_is_nearest, law_merging_is_nearest, merge_top_k,
    nearest,
};
use crate::scalar::{Arithmetic, Scalar};
use crate::storage::reader::{vector_fails, vector_read, CompactReader, ReaderModel};
use vstd::prelude::*;

pub mod laws;

pub use crate::ranking::SearchResult;

verus! {

// ---------------------------------------------------------------------------
// What a search may find
// ---------------------------------------------------------------------------

/// What a distance function may say of a vector: a distance, or an error.
pub ghost struct Judge {
    pub ok: spec_fn(Seq<Scalar>, Scalar) -> bool,
    pub err: spec_fn(Seq<Scalar>, ErrorModel) -> bool,
}

/// `f` may measure `d` between a query of coordinates `q` and a vector of coordinates `v`.
pub open spec fn measures<F: Fn(&[Scalar], &[Scalar]) -> Result<Scalar>>(
    f: F,
    q: Seq<Scalar>,
    v: Seq<Scalar>,
    d: Scalar,
) -> bool {
    exists|p: &[Scalar], w: &[Scalar]|
        p@ == q && w@ == v && #[trigger] call_ensures(f, (p, w), Ok::<Scalar, CompactError>(d))
}

/// `f` may fail with `e` on a query of coordinates `q` and a vector of coordinates `v`.
pub open spec fn measuring_fails<F: Fn(&[Scalar], &[Scalar]) -> Result<Scalar>>(
    f: F,
    q: Seq<Scalar>,
    v: Seq<Scalar>,
    e: ErrorModel,
) -> bool {
    exists|p: &[Scalar], w: &[Scalar], err: CompactError|
        p@ == q && w@ == v && err@ == e && #[trigger] call_ensures(
            f,
            (p, w),
            Err::<Scalar, CompactError>(err),
        )
}

/// What `f` may say of the distance from `q`.
pub open spec fn by_function<F: Fn(&[Scalar], &[Scalar]) -> Result<Scalar>>(
    f: F,
    q: Seq<Scalar>,
) -> Judge {
    Judge {
        ok: |v: Seq<Scalar>, d: Scalar| measures(f, q, v, d),
        err: |v: Seq<Scalar>, e: ErrorModel| measuring_fails(f, q, v, e),
    }
}

/// What a metric may say of the distance from `q`.
pub open spec fn by_metric<A: Arithmetic>(x: &A, metric: DistanceMetric, q: Seq<Scalar>) -> Judge {
    Judge {
        ok: |v: Seq<Scalar>, d: Scalar|
            shape_fault(q, v) is None && distance_to(x, metric, q, v, d),
        err: |v: Seq<Scalar>, e: ErrorModel| shape_fault(q, v) == Some(e),
    }
}

/// Everything `a` may say, `b` may say too.
pub open spec fn allows(a: Judge, b: Judge) -> bool {
    &&& forall|v: Seq<Scalar>, d: Scalar| #[trigger] (a.ok)(v, d) ==> (b.ok)(v, d)
    &&& forall|v: Seq<Scalar>, e: ErrorModel| #[trigger] (a.err)(v, e) ==> (b.err)(v, e)
}

/// The vector stored as `bytes` may be at distance `d`.
pub open spec fn distant<A: Arithmetic>(
    x: &A,
    j: Judge,
    b: Bounds,
    bytes: Seq<u8>,
    d: Scalar,
) -> bool {
    exists|v: Seq<Scalar>| #[trigger] dequantizes_to(x, b, bytes, v) && (j.ok)(v, d)
}

/// The vector stored as `bytes` may have no distance, for the reason `e`.
pub open spec fn unmeasured<A: Arithmetic>(
    x: &A,
    j: Judge,
    b: Bounds,
    bytes: Seq<u8>,
    e: ErrorModel,
) -> bool {
    dequantizing_fails(x, b, bytes, e) || exists|v: Seq<Scalar>| #[trigger]
        dequantizes_to(x, b, bytes, v) && (j.err)(v, e)
}

/// A result, if the distance is finite.
pub open spec fn hit(id: u64, d: Scalar) -> Seq<SearchResult> {
    if d.finite() {
        seq![SearchResult { id, distance: d }]
    } else {
        seq![]
    }
}

/// The vector stored as `bytes` under `id` may contribute the results `o`.
pub open spec fn contributes<A: Arithmetic>(
    x: &A,
    j: Judge,
    b: Bounds,
    bytes: Seq<u8>,
    id: u64,
    o: Seq<SearchResult>,
) -> bool {
    exists|d: Scalar| #[trigger] distant(x, j, b, bytes, d) && o == hit(id, d)
}

/// Vector `id` of a file may have no distance, for the reason `e`.
pub open spec fn vector_unmeasured<A: Arithmetic>(
    x: &A,
    j: Judge,
    m: ReaderModel,
    file: Seq<u8>,
    id: u64,
    e: ErrorModel,
) -> bool {
    match m.vector_bytes(file, id) {
        Ok(bytes) => unmeasured(x, j, m.bounds, bytes, e),
        Err(f) => e == f,
    }
}

/// Vector `id` of a file may contribute the results `o`. Where failures are skipped, it then
/// contributes nothing.
pub open spec fn vector_contributes<A: Arithmetic>(
    x: &A,
    j: Judge,
    m: ReaderModel,
    file: Seq<u8>,
    skip: bool,
    id: u64,
    o: Seq<SearchResult>,
) -> bool {
    ||| m.vector_bytes(file, id) is Ok && contributes(
        x,
        j,
        m.bounds,
        m.vector_bytes(file, id)->Ok_0,
        id,
        o,
    )
    ||| skip && o == Seq::<SearchResult>::empty() && exists|e: ErrorModel| #[trigger]
        vector_unmeasured(x, j, m, file, id, e)
}

/// The vectors from `start` up to `end`, without `end`, may contribute the results `c`.
pub open spec fn range_contributes<A: Arithmetic>(
    x: &A,
    j: Judge,
    m: ReaderModel,
    file: Seq<u8>,
    skip: bool,
    start: nat,
    end: nat,
    c: Seq<SearchResult>,
) -> bool
    decreases end,
{
    if end <= start {
        c == Seq::<SearchResult>::empty()
    } else {
        exists|c0: Seq<SearchResult>, o: Seq<SearchResult>|
            range_contributes(x, j, m, file, skip, start, (end - 1) as nat, c0)
                && #[trigger] vector_contributes(x, j, m, file, skip, (end - 1) as u64, o) && c
                == #[trigger] (c0 + o)
    }
}

/// A scan may find `c` before vector `n`, which then fails with `e`.
pub open spec fn scan_fails_at<A: Arithmetic>(
    x: &A,
    j: Judge,
    m: ReaderModel,
    file: Seq<u8>,
    n: u64,
    c: Seq<SearchResult>,
    e: ErrorModel,
) -> bool {
    &&& n < m.header.vector_count
    &&& range_contributes(x, j, m, file, false, 0, n as nat, c)
    &&& vector_unmeasured(x, j, m, file, n, e)
}

/// The `k` nearest of what all vectors may contribute.
pub open spec fn finds<A: Arithmetic>(
    x: &A,
    j: Judge,
    m: ReaderModel,
    file: Seq<u8>,
    skip: bool,
    k: nat,
    r: Seq<SearchResult>,
) -> bool {
    exists|c: Seq<SearchResult>| #[trigger]
        range_contributes(x, j, m, file, skip, 0, m.header.vector_count as nat, c) && r == nearest(
            c,
            k,
        )
}

/// A search for the `k` nearest may come out as `r`.
pub open spec fn searched<A: Arithmetic>(
    x: &A,
    j: Judge,
    m: ReaderModel,
    file: Seq<u8>,
    skip: bool,
    query_len: nat,
    k: nat,
    r: Result<Vec<SearchResult>>,
) -> bool {
    if query_len != m.header.dims {
        r matches Err(e) && e@ == (ErrorModel::DimensionMismatch {
            expected: m.header.dims as nat,
            found: query_len,
        })
    } else if k == 0 || m.header.vector_count == 0 {
        r matches Ok(v) && v@ == Seq::<SearchResult>::empty()
    } else {
        match r {
            Ok(v) => finds(x, j, m, file, skip, k, v@),
            Err(e) => !skip && exists|n: u64, c: Seq<SearchResult>| #[trigger]
                scan_fails_at(x, j, m, file, n, c, e@),
        }
    }
}

proof fn lemma_contributes_allowed<A: Arithmetic>(
    x: &A,
    a: Judge,
    b: Judge,
    m: ReaderModel,
    file: Seq<u8>,
    skip: bool,
    id: u64,
    o: Seq<SearchResult>,
)
    requires
        allows(a, b),
        vector_contributes(x, a, m, file, skip, id, o),
    ensures
        vector_contributes(x, b, m, file, skip, id, o),
{
    if m.vector_bytes(file, id) is Ok && contributes(
        x,
        a,
        m.bounds,
        m.vector_bytes(file, id)->Ok_0,
        id,
        o,
    ) {
        let bytes = m.vector_bytes(file, id)->Ok_0;
        let d = choose|d: Scalar| #[trigger]
            distant(x, a, m.bounds, bytes, d) && o == hit(id, d);
        let v = choose|v: Seq<Scalar>| #[trigger]
            dequantizes_to(x, m.bounds, bytes, v) && (a.ok)(v, d);
        assert((b.ok)(v, d));
        assert(distant(x, b, m.bounds, bytes, d));
        assert(contributes(x, b, m.bounds, bytes, id, o));
    } else {
        let e = choose|e: ErrorModel| #[trigger] vector_unmeasured(x, a, m, file, id, e);
        lemma_unmeasured_allowed(x, a, b, m, file, id, e);
    }
}

proof fn lemma_unmeasured_allowed<A: Arithmetic>(
    x: &A,
    a: Judge,
    b: Judge,
    m: ReaderModel,
    file: Seq<u8>,
    id: u64,
    e: ErrorModel,
)
    requires
        allows(a, b),
        vector_unmeasured(x, a, m, file, id, e),
    ensures
        vector_unmeasured(x, b, m, file, id, e),
{
    if m.vector_bytes(file, id) is Ok {
        let bytes = m.vector_bytes(file, id)->Ok_0;
        if !dequantizing_fails(x, m.bounds, bytes, e) {
            let v = choose|v: Seq<Scalar>| #[trigger]
                dequantizes_to(x, m.bounds, bytes, v) && (a.err)(v, e);
            assert((b.err)(v, e));
            assert(unmeasured(x, b, m.bounds, bytes, e));
        }
    }
}

proof fn lemma_range_step<A: Arithmetic>(
    x: &A,
    j: Judge,
    m: ReaderModel,
    file: Seq<u8>,
    skip: bool,
    start: nat,
    end: nat,
    c0: Seq<SearchResult>,
    o: Seq<SearchResult>,
)
    requires
        start < end,
        range_contributes(x, j, m, file, skip, start, (end - 1) as nat, c0),
        vector_contributes(x, j, m, file, skip, (end - 1) as u64, o),
    ensures
        range_contributes(x, j, m, file, skip, start, end, c0 + o),
{
}

proof fn lemma_range_allowed<A: Arithmetic>(
    x: &A,
    a: Judge,
    b: Judge,
    m: ReaderModel,
    file: Seq<u8>,
    skip: bool,
    start: nat,
    end: nat,
    c: Seq<SearchResult>,
)
    requires
        allows(a, b),
        range_contributes(x, a, m, file, skip, start, end, c),
    ensures
        range_contributes(x, b, m, file, skip, start, end, c),
    decreases end,
{
    if start < end {
        let (c0, o) = choose|c0: Seq<SearchResult>, o: Seq<SearchResult>|
            range_contributes(x, a, m, file, skip, start, (end - 1) as nat, c0)
                && #[trigger] vector_contributes(x, a, m, file, skip, (end - 1) as u64, o) && c
                == #[trigger] (c0 + o);
        lemma_range_allowed(x, a, b, m, file, skip, start, (end - 1) as nat, c0);
        lemma_contributes_allowed(x, a, b, m, file, skip, (end - 1) as u64, o);
        lemma_range_step(x, b, m, file, skip, start, end, c0, o);
    }
}

/// A search by a distance function that says no more than `b` is a search by `b`.
proof fn lemma_searched_allowed<A: Arithmetic>(
    x: &A,
    a: Judge,
    b: Judge,
    m: ReaderModel,
    file: Seq<u8>,
    skip: bool,
    query_len: nat,
    k: nat,
    r: Result<Vec<SearchResult>>,
)
    requires
        allows(a, b),
        searched(x, a, m, file, skip, query_len, k, r),
    ensures
        searched(x, b, m, file, skip, query_len, k, r),
{
    if query_len == m.header.dims && k > 0 && m.header.vector_count > 0 {
        match r {
            Ok(v) => {
                let n = m.header.vector_count as nat;
                let c = choose|c: Seq<SearchResult>| #[trigger]
                    range_contributes(x, a, m, file, skip, 0, n, c) && v@ == nearest(c, k);
                lemma_range_allowed(x, a, b, m, file, skip, 0, n, c);
                assert(finds(x, b, m, file, skip, k, v@));
            },
            Err(e) => {
                let (n, c) = choose|n: u64, c: Seq<SearchResult>| #[trigger]
                    scan_fails_at(x, a, m, file, n, c, e@);
                lemma_range_allowed(x, a, b, m, file, false, 0, n as nat, c);
                lemma_unmeasured_allowed(x, a, b, m, file, n, e@);
                assert(scan_fails_at(x, b, m, file, n, c, e@));
            },
        }
    }
}

/// What neighbouring ranges contribute, the range of both contributes.
proof fn lemma_ranges_join<A: Arithmetic>(
    x: &A,
    j: Judge,
    m: ReaderModel,
    file: Seq<u8>,
    skip: bool,
    start: nat,
    mid: nat,
    end: nat,
    a: Seq<SearchResult>,
    b: Seq<SearchResult>,
)
    requires
        start <= mid <= end,
        range_contributes(x, j, m, file, skip, start, mid, a),
        range_contributes(x, j, m, file, skip, mid, end, b),
    ensures
        range_contributes(x, j, m, file, skip, start, end, a + b),
    decreases end,
{
    if mid < end {
        let (c0, o) = choose|c0: Seq<SearchResult>, o: Seq<SearchResult>|
            range_contributes(x, j, m, file, skip, mid, (end - 1) as nat, c0)
                && #[trigger] vector_contributes(x, j, m, file, skip, (end - 1) as u64, o) && b
                == #[trigger] (c0 + o);
        lemma_ranges_join(x, j, m, file, skip, start, mid, (end - 1) as nat, a, c0);
        lemma_range_step(x, j, m, file, skip, start, end, a + c0, o);
        assert(a + b =~= a + c0 + o);
    } else {
        assert(a + b =~= a);
    }
}

proof fn lemma_range_finite<A: Arithmetic>(
    x: &A,
    j: Judge,
    m: ReaderModel,
    file: Seq<u8>,
    skip: bool,
    start: nat,
    end: nat,
    c: Seq<SearchResult>,
)
    requires
        range_contributes(x, j, m, file, skip, start, end, c),
    ensures
        finite(c),
    decreases end,
{
    if start < end {
        let (c0, o) = choose|c0: Seq<SearchResult>, o: Seq<SearchResult>|
            range_contributes(x, j, m, file, skip, start, (end - 1) as nat, c0)
                && #[trigger] vector_contributes(x, j, m, file, skip, (end - 1) as u64, o) && c
                == #[trigger] (c0 + o);
        lemma_range_finite(x, j, m, file, skip, start, (end - 1) as nat, c0);
        assert forall|i: int| 0 <= i < c.len() implies (#[trigger] c[i]).distance.finite() by {
            if i < c0.len() {
                assert(c0[i].distance.finite());
            }
        }
    }
}

/// Whatever one scan may find, a search that skips failures may find, however it is split.
pub proof fn law_parallel_matches_single<A: Arithmetic>(
    x: &A,
    j: Judge,
    m: ReaderModel,
    file: Seq<u8>,
    k: nat,
    r: Seq<SearchResult>,
)
    requires
        finds(x, j, m, file, false, k, r),
    ensures
        finds(x, j, m, file, true, k, r),
{
    let n = m.header.vector_count as nat;
    let c = choose|c: Seq<SearchResult>| #[trigger]
        range_contributes(x, j, m, file, false, 0, n, c) && r == nearest(c, k);
    lemma_skipping_allows(x, j, m, file, 0, n, c);
}

proof fn lemma_skipping_allows<A: Arithmetic>(
    x: &A,
    j: Judge,
    m: ReaderModel,
    file: Seq<u8>,
    start: nat,
    end: nat,
    c: Seq<SearchResult>,
)
    requires
        range_contributes(x, j, m, file, false, start, end, c),
    ensures
        range_contributes(x, j, m, file, true, start, end, c),
    decreases end,
{
    if start < end {
        let (c0, o) = choose|c0: Seq<SearchResult>, o: Seq<SearchResult>|
            range_contributes(x, j, m, file, false, start, (end - 1) as nat, c0)
                && #[trigger] vector_contributes(x, j, m, file, false, (end - 1) as u64, o) && c
                == #[trigger] (c0 + o);
        lemma_skipping_allows(x, j, m, file, start, (end - 1) as nat, c0);
        assert(vector_contributes(x, j, m, file, true, (end - 1) as u64, o));
        lemma_range_step(x, j, m, file, true, start, end, c0, o);
    }
}

/// Where no vector can fail, a search that skips failures finds what one scan may find.
pub proof fn law_single_matches_parallel<A: Arithmetic>(
    x: &A,
    j: Judge,
    m: ReaderModel,
    file: Seq<u8>,
    k: nat,
    r: Seq<SearchResult>,
)
    requires
        finds(x, j, m, file, true, k, r),
        forall|id: u64, e: ErrorModel|
            id < m.header.vector_count ==> !#[trigger] vector_unmeasured(x, j, m, file, id, e),
    ensures
        finds(x, j, m, file, false, k, r),
{
    let n = m.header.vector_count as nat;
    let c = choose|c: Seq<SearchResult>| #[trigger]
        range_contributes(x, j, m, file, true, 0, n, c) && r == nearest(c, k);
    lemma_nothing_to_skip(x, j, m, file, 0, n, c);
}

proof fn lemma_nothing_to_skip<A: Arithmetic>(
    x: &A,
    j: Judge,
    m: ReaderModel,
    file: Seq<u8>,
    start: nat,
    end: nat,
    c: Seq<SearchResult>,
)
    requires
        range_contributes(x, j, m, file, true, start, end, c),
        end <= m.header.vector_count,
        forall|id: u64, e: ErrorModel|
            id < m.header.vector_count ==> !#[trigger] vector_unmeasured(x, j, m, file, id, e),
    ensures
        range_contributes(x, j, m, file, false, start, end, c),
    decreases end,
{
    if start < end {
        let (c0, o) = choose|c0: Seq<SearchResult>, o: Seq<SearchResult>|
            range_contributes(x, j, m, file, true, start, (end - 1) as nat, c0)
                && #[trigger] vector_contributes(x, j, m, file, true, (end - 1) as u64, o) && c
                == #[trigger] (c0 + o);
        lemma_nothing_to_skip(x, j, m, file, start, (end - 1) as nat, c0);
        assert(vector_contributes(x, j, m, file, false, (end - 1) as u64, o));
        lemma_range_step(x, j, m, file, false, start, end, c0, o);
    }
}

// ---------------------------------------------------------------------------
// Scanning
// ---------------------------------------------------------------------------

/// The distance function accepts every pair of vectors.
pub open spec fn accepts_all<F: Fn(&[Scalar], &[Scalar]) -> Result<Scalar>>(f: F) -> bool {
    forall|p: &[Scalar], w: &[Scalar]| #[trigger] call_requires(f, (p, w))
}

/// The results of an optional result.
pub open spec fn as_results(o: Option<SearchResult>) -> Seq<SearchResult> {
    match o {
        Some(r) => seq![r],
        None => seq![],
    }
}

/// Measure the vector stored as `bytes` under `id`; a distance that is not finite is no result.
pub fn score<A: Arithmetic, F: Fn(&[Scalar], &[Scalar]) -> Result<Scalar>>(
    quantizer: &Quantizer,
    bytes: &[u8],
    query: &[Scalar],
    id: u64,
    f: &F,
    x: &A,
) -> (r: Result<Option<SearchResult>>)
    requires
        accepts_all(*f),
    ensures
        match r {
            Ok(o) => contributes(
                x,
                by_function(*f, query@),
                quantizer@,
                bytes@,
                id,
                as_results(o),
            ),
            Err(e) => unmeasured(x, by_function(*f, query@), quantizer@, bytes@, e@),
        },
{
    let ghost j = by_function(*f, query@);
    let v = match quantizer.dequantize_vector(bytes, x) {
        Ok(v) => v,
        Err(e) => return Err(e),
    };
    assert(dequantizes_to(x, quantizer@, bytes@, v@));
    let w = v.as_slice();
    match f(query, w) {
        Ok(d) => {
            assert(measures(*f, query@, v@, d));
            assert((j.ok)(v@, d));
            assert(distant(x, j, quantizer@, bytes@, d));
            if d.is_finite() {
                let r = SearchResult::new(id, d);
                assert(as_results(Some(r)) =~= hit(id, d));
                Ok(Some(r))
            } else {
                assert(as_results(None) =~= hit(id, d));
                Ok(None)
            }
        },
        Err(e) => {
            assert(measuring_fails(*f, query@, v@, e@));
            assert((j.err)(v@, e@));
            Err(e)
        },
    }
}

/// A scan over the vectors of a file in order of their identifiers, keeping the nearest.
pub struct SearchScan {
    query: Vec<Scalar>,
    k: usize,
    next: u64,
    end: u64,
    top: Vec<SearchResult>,
    found: Ghost<Seq<SearchResult>>,
}

impl SearchScan {
    pub closed spec fn wf(&self) -> bool {
        &&& finite(self.found@)
        &&& self.top@ == nearest(self.found@, self.k as nat)
        &&& self.top@.len() <= self.k
        &&& self.next <= self.end
    }

    /// The query.
    pub closed spec fn query(&self) -> Seq<Scalar> {
        self.query@
    }

    /// How many results are kept.
    pub closed spec fn limit(&self) -> nat {
        self.k as nat
    }

    /// The next vector to measure.
    pub closed spec fn at(&self) -> u64 {
        self.next
    }

    /// The first vector not to measure.
    pub closed spec fn stop(&self) -> u64 {
        self.end
    }

    /// All results so far, in order of their identifiers.
    pub closed spec fn found(&self) -> Seq<SearchResult> {
        self.found@
    }

    /// `self` is `before` after its next vector contributed `o`.
    pub open spec fn follows(&self, before: SearchScan, o: Seq<SearchResult>) -> bool {
        &&& self.wf()
        &&& self.query() == before.query()
        &&& self.limit() == before.limit()
        &&& self.stop() == before.stop()
        &&& self.at() == before.at() + 1
        &&& self.found() == before.found() + o
    }

    /// Start a scan for the `k` nearest among the vectors from `start` up to `end`.
    pub fn new(query: &[Scalar], k: usize, start: u64, end: u64) -> (s: SearchScan)
        requires
            start <= end,
        ensures
            s.wf(),
            s.query() == query@,
            s.limit() == k,
            s.at() == start,
            s.stop() == end,
            s.found() == Seq::<SearchResult>::empty(),
    {
        let s = SearchScan {
            query: copy_of(query),
            k,
            next: start,
            end,
            top: Vec::new(),
            found: Ghost(Seq::empty()),
        };
        assert(s.top@ =~= nearest(s.found@, k as nat));
        s
    }

    /// The next vector to measure, if any is left.
    pub fn next_id(&self) -> (r: Option<u64>)
        requires
            self.wf(),
        ensures
            match r {
                Some(id) => id == self.at() && id < self.stop(),
                None => self.at() == self.stop(),
            },
    {
        if self.next < self.end {
            Some(self.next)
        } else {
            None
        }
    }

    /// Measure the next vector, stored as `bytes`. On an error nothing changes.
    pub fn absorb<A: Arithmetic, F: Fn(&[Scalar], &[Scalar]) -> Result<Scalar>>(
        &mut self,
        quantizer: &Quantizer,
        bytes: &[u8],
        f: &F,
        x: &A,
    ) -> (r: Result<()>)
        requires
            old(self).wf(),
            old(self).at() < old(self).stop(),
            accepts_all(*f),
        ensures
            match r {
                Ok(()) => exists|o: Seq<SearchResult>| #[trigger]
                    contributes(
                        x,
                        by_function(*f, old(self).query()),
                        quantizer@,
                        bytes@,
                        old(self).at(),
                        o,
                    ) && final(self).follows(*old(self), o),
                Err(e) => unmeasured(
                    x,
                    by_function(*f, old(self).query()),
                    quantizer@,
                    bytes@,
                    e@,
                ) && *final(self) == *old(self),
            },
    {
        let ghost before = self.found@;
        match score(quantizer, bytes, self.query.as_slice(), self.next, f, x) {
            Ok(Some(r)) => {
                let k: usize = self.k;
                insert_top_k(&mut self.top, r, k);
                proof {
                    let o = as_results(Some(r));
                    assert(finite(o)) by {
                        assert forall|i: int| 0 <= i < o.len() implies (
                        #[trigger] o[i]).distance.finite() by {
                            assert(o[i] == r);
                        }
                    }
                    law_keeping_is_nearest(before, o, k as nat);
                    assert(o.drop_last() =~= Seq::<SearchResult>::empty());
                    let none = Seq::<SearchResult>::empty();
                    assert(kept_all(nearest(before, k as nat), none, k as nat) == nearest(
                        before,
                        k as nat,
                    ));
                    assert(o.last() == r);
                    assert(kept_all(nearest(before, k as nat), o, k as nat) == self.top@);
                    assert(finite(before + o)) by {
                        assert forall|i: int| 0 <= i < (before + o).len() implies (#[trigger] (
                        before + o)[i]).distance.finite() by {
                            if i < before.len() {
                                assert(before[i].distance.finite());
                            }
                        }
                    }
                }
                self.found = Ghost(before + as_results(Some(r)));
                self.next = self.next + 1;
                assert(self.follows(*old(self), as_results(Some(r))));
                Ok(())
            },
            Ok(None) => {
                self.next = self.next + 1;
                assert(before + as_results(None) =~= before);
                assert(self.follows(*old(self), as_results(None)));
                Ok(())
            },
            Err(e) => Err(e),
        }
    }

    /// Pass over the next vector.
    pub fn skip(&mut self)
        requires
            old(self).wf(),
            old(self).at() < old(self).stop(),
        ensures
            final(self).follows(*old(self), Seq::empty()),
    {
        self.next = self.next + 1;
        assert(self.found@ + Seq::<SearchResult>::empty() =~= self.found@);
    }

    /// The nearest vectors, by ascending distance.
    pub fn finish(self) -> (r: Vec<SearchResult>)
        requires
            self.wf(),
        ensures
            r@ == nearest(self.found(), self.limit()),
            r@.len() <= self.limit(),
    {
        self.top
    }
}

/// Decide on a search: a complaint about the query, nothing to do, or a scan of all vectors.
pub fn start_search(reader: &CompactReader, query: &[Scalar], k: usize) -> (r: Result<
    Option<SearchScan>,
>)
    ensures
        if query@.len() != reader@.header.dims {
            r matches Err(e) && e@ == (ErrorModel::DimensionMismatch {
                expected: reader@.header.dims as nat,
                found: query@.len(),
            })
        } else if k == 0 || reader@.header.vector_count == 0 {
            r matches Ok(None)
        } else {
            r matches Ok(Some(s)) && s.wf() && s.query() == query@ && s.limit() == k && s.at() == 0
                && s.stop() == reader@.header.vector_count && s.found() == Seq::<
                SearchResult,
            >::empty()
        },
{
    let dims: usize = reader.dims();
    if query.len() != dims {
        return Err(CompactError::DimensionMismatch { expected: dims, found: query.len() });
    }
    if k == 0 || reader.is_empty() {
        return Ok(None);
    }
    Ok(Some(SearchScan::new(query, k, 0, reader.len())))
}

/// A scan from `start` on may find `c` before vector `n`, which then fails with `e`.
spec fn stops_at<A: Arithmetic>(
    x: &A,
    j: Judge,
    m: ReaderModel,
    file: Seq<u8>,
    start: nat,
    n: u64,
    c: Seq<SearchResult>,
    e: ErrorModel,
) -> bool {
    start <= n && range_contributes(x, j, m, file, false, start, n as nat, c) && vector_unmeasured(
        x,
        j,
        m,
        file,
        n,
        e,
    )
}

/// A scan from `start` up to `end` may fail with `e`.
spec fn stops<A: Arithmetic>(
    x: &A,
    j: Judge,
    m: ReaderModel,
    file: Seq<u8>,
    start: nat,
    end: nat,
    e: ErrorModel,
) -> bool {
    exists|n: u64, c: Seq<SearchResult>| n < end && #[trigger] stops_at(x, j, m, file, start, n, c, e)
}

/// Run a scan on a file held in memory. Failures end it, or are skipped.
fn run_scan<A: Arithmetic, F: Fn(&[Scalar], &[Scalar]) -> Result<Scalar>>(
    reader: &CompactReader,
    file: &[u8],
    from: SearchScan,
    skip: bool,
    f: &F,
    x: &A,
) -> (r: Result<SearchScan>)
    requires
        reader@.addressable(),
        from.wf(),
        from.found() == Seq::<SearchResult>::empty(),
        from.stop() <= reader@.header.vector_count,
        accepts_all(*f),
    ensures
        match r {
            Ok(s) => {
                &&& s.wf()
                &&& s.limit() == from.limit()
                &&& range_contributes(
                    x,
                    by_function(*f, from.query()),
                    reader@,
                    file@,
                    skip,
                    from.at() as nat,
                    from.stop() as nat,
                    s.found(),
                )
            },
            Err(e) => !skip && stops(
                x,
                by_function(*f, from.query()),
                reader@,
                file@,
                from.at() as nat,
                from.stop() as nat,
                e@,
            ),
        },
{
    let ghost m = reader@;
    let ghost j = by_function(*f, from.query());
    let ghost start = from.at() as nat;
    let ghost end = from.stop();
    let ghost limit = from.limit();
    let ghost query = from.query();
    let mut scan = from;
    loop
        invariant
            m == reader@,
            start == from.at(),
            end == from.stop(),
            query == from.query(),
            m.addressable(),
            scan.wf(),
            scan.query() == query,
            scan.limit() == limit,
            scan.stop() == end,
            end <= m.header.vector_count,
            j == by_function(*f, query),
            start <= scan.at(),
            accepts_all(*f),
            range_contributes(x, j, m, file@, skip, start, scan.at() as nat, scan.found()),
        ensures
            scan.wf(),
            scan.limit() == limit,
            range_contributes(x, j, m, file@, skip, start, end as nat, scan.found()),
        decreases end - scan.at(),
    {
        let id: u64 = match scan.next_id() {
            Some(id) => id,
            None => break,
        };
        let ghost before = scan;
        let ghost n = (id + 1) as nat;
        match reader.get_quantized(file, id) {
            Ok(bytes) => match scan.absorb(reader.quantizer(), bytes.as_slice(), f, x) {
                Ok(()) => {
                    proof {
                        let o = choose|o: Seq<SearchResult>| #[trigger]
                            contributes(x, j, m.bounds, bytes@, id, o) && scan.follows(before, o);
                        assert(vector_contributes(x, j, m, file@, skip, (n - 1) as u64, o));
                        lemma_range_step(x, j, m, file@, skip, start, n, before.found(), o);
                    }
                },
                Err(e) => {
                    assert(vector_unmeasured(x, j, m, file@, id, e@));
                    if !skip {
                        assert(stops_at(x, j, m, file@, start, id, before.found(), e@));
                        return Err(e);
                    }
                    scan.skip();
                    proof {
                        let o = Seq::<SearchResult>::empty();
                        assert(vector_contributes(x, j, m, file@, skip, (n - 1) as u64, o));
                        lemma_range_step(x, j, m, file@, skip, start, n, before.found(), o);
                    }
                },
            },
            Err(e) => {
                assert(vector_unmeasured(x, j, m, file@, id, e@));
                if !skip {
                    assert(stops_at(x, j, m, file@, start, id, before.found(), e@));
                    return Err(e);
                }
                scan.skip();
                proof {
                    let o = Seq::<SearchResult>::empty();
                    assert(vector_contributes(x, j, m, file@, skip, (n - 1) as u64, o));
                    lemma_range_step(x, j, m, file@, skip, start, n, before.found(), o);
                }
            },
        }
    }
    Ok(scan)
}

/// Search a file held in memory by a distance function: one scan, ended by the first failure.
pub fn brute_force_search<A: Arithmetic, F: Fn(&[Scalar], &[Scalar]) -> Result<Scalar>>(
    reader: &CompactReader,
    file: &[u8],
    query: &[Scalar],
    k: usize,
    f: F,
    x: &A,
) -> (r: Result<Vec<SearchResult>>)
    requires
        reader@.addressable(),
        accepts_all(f),
    ensures
        searched(
            x,
            by_function(f, query@),
            reader@,
            file@,
            false,
            query@.len(),
            k as nat,
            r,
        ),
{
    let ghost j = by_function(f, query@);
    let scan = match start_search(reader, query, k) {
        Ok(Some(scan)) => scan,
        Ok(None) => return Ok(Vec::new()),
        Err(e) => return Err(e),
    };
    match run_scan(reader, file, scan, false, &f, x) {
        Ok(scan) => {
            let ghost c = scan.found();
            let top = scan.finish();
            assert(finds(x, j, reader@, file@, false, k as nat, top@));
            Ok(top)
        },
        Err(e) => {
            proof {
                let (n, c) = choose|n: u64, c: Seq<SearchResult>|
                    n < reader@.header.vector_count && #[trigger] stops_at(
                        x,
                        j,
                        reader@,
                        file@,
                        0,
                        n,
                        c,
                        e@,
                    );
                assert(scan_fails_at(x, j, reader@, file@, n, c, e@));
            }
            Err(e)
        },
    }
}

/// The `k` nearest of what the vectors from `start` up to `end` may contribute.
pub open spec fn part_finds<A: Arithmetic>(
    x: &A,
    j: Judge,
    m: ReaderModel,
    file: Seq<u8>,
    start: nat,
    end: nat,
    k: nat,
    r: Seq<SearchResult>,
) -> bool {
    exists|c: Seq<SearchResult>| #[trigger]
        range_contributes(x, j, m, file, true, start, end, c) && r == nearest(c, k)
}

/// Search the vectors from `start` up to `end`, and skip failures.
pub fn scan_part<A: Arithmetic, F: Fn(&[Scalar], &[Scalar]) -> Result<Scalar>>(
    reader: &CompactReader,
    file: &[u8],
    query: &[Scalar],
    k: usize,
    start: u64,
    end: u64,
    f: &F,
    x: &A,
) -> (r: Vec<SearchResult>)
    requires
        reader@.addressable(),
        start <= end <= reader@.header.vector_count,
        accepts_all(*f),
    ensures
        part_finds(
            x,
            by_function(*f, query@),
            reader@,
            file@,
            start as nat,
            end as nat,
            k as nat,
            r@,
        ),
{
    let scan = SearchScan::new(query, k, start, end);
    match run_scan(reader, file, scan, true, f, x) {
        Ok(scan) => scan.finish(),
        Err(_) => {
            assert(false);
            Vec::new()
        },
    }
}

proof fn lemma_part_joined<A: Arithmetic>(
    x: &A,
    j: Judge,
    m: ReaderModel,
    file: Seq<u8>,
    at: nat,
    end: nat,
    k: nat,
    top: Seq<SearchResult>,
    local: Seq<SearchResult>,
)
    requires
        at <= end,
        part_finds(x, j, m, file, 0, at, k, top),
        part_finds(x, j, m, file, at, end, k, local),
    ensures
        part_finds(x, j, m, file, 0, end, k, kept_all(top, local, k)),
{
    let a = choose|c: Seq<SearchResult>| #[trigger]
        range_contributes(x, j, m, file, true, 0, at, c) && top == nearest(c, k);
    let b = choose|c: Seq<SearchResult>| #[trigger]
        range_contributes(x, j, m, file, true, at, end, c) && local == nearest(c, k);
    lemma_range_finite(x, j, m, file, true, 0, at, a);
    lemma_range_finite(x, j, m, file, true, at, end, b);
    law_merging_is_nearest(a, b, k);
    lemma_ranges_join(x, j, m, file, true, 0, at, end, a, b);
}

/// Search all parts, one after another, and merge what they find.
fn search_parts<A: Arithmetic, F: Fn(&[Scalar], &[Scalar]) -> Result<Scalar>>(
    reader: &CompactReader,
    file: &[u8],
    query: &[Scalar],
    k: usize,
    parts: &Vec<(u64, u64)>,
    f: &F,
    x: &A,
) -> (r: Vec<SearchResult>)
    requires
        reader@.addressable(),
        partition(parts@, reader@.header.vector_count as int),
        accepts_all(*f),
    ensures
        part_finds(
            x,
            by_function(*f, query@),
            reader@,
            file@,
            0,
            reader@.header.vector_count as nat,
            k as nat,
            r@,
        ),
{
    let ghost j = by_function(*f, query@);
    let ghost m = reader@;
    let count: u64 = reader.len();
    let mut top: Vec<SearchResult> = Vec::new();
    let mut i: usize = 0;
    proof {
        let none = Seq::<SearchResult>::empty();
        assert(range_contributes(x, j, m, file@, true, 0, 0, none));
        assert(top@ =~= nearest(none, k as nat));
    }
    while i < parts.len()
        invariant
            m == reader@,
            m.addressable(),
            accepts_all(*f),
            j == by_function(*f, query@),
            count == m.header.vector_count,
            partition(parts@, count as int),
            i <= parts@.len(),
            top@.len() <= k,
            part_finds(x, j, m, file@, 0, part_end(parts@, i as int), k as nat, top@),
        decreases parts@.len() - i,
    {
        let (start, end) = parts[i];
        proof {
            assert(parts@[i as int].0 < parts@[i as int].1);
            lemma_part_bounds(parts@, i as int, count as int);
        }
        let local = scan_part(reader, file, query, k, start, end, f, x);
        proof {
            lemma_part_joined(
                x,
                j,
                m,
                file@,
                start as nat,
                end as nat,
                k as nat,
                top@,
                local@,
            );
        }
        merge_top_k(&mut top, &local, k);
        i += 1;
    }
    assert(part_end(parts@, i as int) == m.header.vector_count as nat);
    top
}

/// Search a file held in memory in parts, as many as there are workers, and merge what they
/// find. Failures are skipped.
#[verifier::spinoff_prover]
pub fn parallel_search<A: Arithmetic, F: Fn(&[Scalar], &[Scalar]) -> Result<Scalar>>(
    reader: &CompactReader,
    file: &[u8],
    query: &[Scalar],
    k: usize,
    num_threads: usize,
    available: usize,
    f: F,
    x: &A,
) -> (r: Result<Vec<SearchResult>>)
    requires
        reader@.addressable(),
        accepts_all(f),
    ensures
        searched(
            x,
            by_function(f, query@),
            reader@,
            file@,
            true,
            query@.len(),
            k as nat,
            r,
        ),
{
    match start_search(reader, query, k) {
        Ok(Some(_)) => {},
        Ok(None) => return Ok(Vec::new()),
        Err(e) => return Err(e),
    }
    let count: u64 = reader.len();
    let parts = split(count, worker_count(num_threads, available, count));
    let top = search_parts(reader, file, query, k, &parts, &f, x);
    proof {
        lemma_all_parts_found(x, by_function(f, query@), reader@, file@, k as nat, top@);
    }
    Ok(top)
}

proof fn lemma_all_parts_found<A: Arithmetic>(
    x: &A,
    j: Judge,
    m: ReaderModel,
    file: Seq<u8>,
    k: nat,
    r: Seq<SearchResult>,
)
    requires
        part_finds(x, j, m, file, 0, m.header.vector_count as nat, k, r),
    ensures
        finds(x, j, m, file, true, k, r),
{
}

/// Where the first `i` parts end.
spec fn part_end(parts: Seq<(u64, u64)>, i: int) -> nat {
    if 0 < i <= parts.len() {
        parts[i - 1].1 as nat
    } else {
        0
    }
}

proof fn lemma_part_bounds(parts: Seq<(u64, u64)>, i: int, count: int)
    requires
        partition(parts, count),
        0 <= i < parts.len(),
    ensures
        parts[i].0 == part_end(parts, i),
        parts[i].1 <= count,
    decreases parts.len() - i,
{
    if i + 1 < parts.len() {
        lemma_part_bounds(parts, i + 1, count);
        assert(parts[i + 1].0 < parts[i + 1].1);
    }
}

/// Search a file held in memory by the metric it was written for.
fn search_by_metric<A: Arithmetic>(
    reader: &CompactReader,
    file: &[u8],
    query: &[Scalar],
    k: usize,
    metric: DistanceMetric,
    x: &A,
) -> (r: Result<Vec<SearchResult>>)
    requires
        reader@.addressable(),
    ensures
        searched(
            x,
            by_metric(x, metric, query@),
            reader@,
            file@,
            false,
            query@.len(),
            k as nat,
            r,
        ),
{
    let f = |a: &[Scalar], b: &[Scalar]| -> (r: Result<Scalar>)
        ensures
            measured(a@, b@, r, |v: Scalar| distance_to(x, metric, a@, b@, v)),
        { distance(metric, a, b, x) };
    let r = brute_force_search(reader, file, query, k, f, x);
    proof {
        let a = by_function(f, query@);
        let b = by_metric(x, metric, query@);
        assert(allows(a, b));
        lemma_searched_allowed(
            x,
            a,
            b,
            reader@,
            file@,
            false,
            query@.len(),
            k as nat,
            r,
        );
    }
    r
}

impl CompactReader {
    /// The `k` nearest vectors of a file held in memory, by the metric it was written for.
    pub fn search<A: Arithmetic>(&self, file: &[u8], query: &[Scalar], k: usize, x: &A) -> (r:
        Result<Vec<SearchResult>>)
        requires
            self@.addressable(),
        ensures
            searched(
                x,
                by_metric(x, self@.header.distance_metric, query@),
                self@,
                file@,
                false,
                query@.len(),
                k as nat,
                r,
            ),
    {
        search_by_metric(self, file, query, k, self.distance_metric(), x)
    }

    /// A walk over all vectors.
    pub fn iter(&self) -> (s: ScanIter)
        ensures
            s.wf(),
            s.at() == 0,
            s.stop() == self@.header.vector_count,
    {
        ScanIter::new(self)
    }

    /// The `k` nearest vectors of a file held in memory, searched in parts.
    pub fn search_parallel<A: Arithmetic>(
        &self,
        file: &[u8],
        query: &[Scalar],
        k: usize,
        num_threads: usize,
        available: usize,
        x: &A,
    ) -> (r: Result<Vec<SearchResult>>)
        requires
            self@.addressable(),
        ensures
            searched(
                x,
                by_metric(x, self@.header.distance_metric, query@),
                self@,
                file@,
                true,
                query@.len(),
                k as nat,
                r,
            ),
    {
        let metric = self.distance_metric();
        let f = |a: &[Scalar], b: &[Scalar]| -> (r: Result<Scalar>)
            ensures
                measured(a@, b@, r, |v: Scalar| distance_to(x, metric, a@, b@, v)),
            { distance(metric, a, b, x) };
        let r = parallel_search(self, file, query, k, num_threads, available, f, x);
        proof {
            let a = by_function(f, query@);
            let b = by_metric(x, metric, query@);
            assert(allows(a, b));
            lemma_searched_allowed(
                x,
                a,
                b,
                self@,
                file@,
                true,
                query@.len(),
                k as nat,
                r,
            );
        }
        r
    }
}

/// The query may be stored and read back as `q`.
pub open spec fn rounded<A: Arithmetic>(
    x: &A,
    b: Bounds,
    query: Seq<Scalar>,
    q: Seq<Scalar>,
) -> bool {
    exists|bytes: Seq<u8>| #[trigger]
        quantizes_to(x, b, query, bytes) && dequantizes_to(x, b, bytes, q)
}

/// The query may be stored, and then fail to be read back with `e`.
pub open spec fn rounding_fails<A: Arithmetic>(
    x: &A,
    b: Bounds,
    query: Seq<Scalar>,
    e: ErrorModel,
) -> bool {
    exists|bytes: Seq<u8>| #[trigger]
        quantizes_to(x, b, query, bytes) && dequantizing_fails(x, b, bytes, e)
}

/// Searching with a rounded query may come out as `r`.
pub open spec fn searched_rounded<A: Arithmetic>(
    x: &A,
    b: Bounds,
    query: Seq<Scalar>,
    metric: DistanceMetric,
    m: ReaderModel,
    file: Seq<u8>,
    k: nat,
    r: Result<Vec<SearchResult>>,
) -> bool {
    exists|q: Seq<Scalar>| #[trigger]
        rounded(x, b, query, q) && searched(
            x,
            by_metric(x, metric, q),
            m,
            file,
            false,
            q.len(),
            k,
            r,
        )
}

/// Search a file held in memory with the query as the quantizer stores it.
pub fn brute_force_search_quantized<A: Arithmetic>(
    reader: &CompactReader,
    file: &[u8],
    quantizer: &Quantizer,
    query: &[Scalar],
    k: usize,
    metric: DistanceMetric,
    x: &A,
) -> (r: Result<Vec<SearchResult>>)
    requires
        reader@.addressable(),
    ensures
        if query@.len() != reader@.header.dims {
            r matches Err(e) && e@ == (ErrorModel::DimensionMismatch {
                expected: reader@.header.dims as nat,
                found: query@.len(),
            })
        } else if input_fault(quantizer@, query@) is Some {
            r matches Err(e) && input_fault(quantizer@, query@) == Some(e@)
        } else {
            ||| searched_rounded(x, quantizer@, query@, metric, reader@, file@, k as nat, r)
            ||| r matches Err(e) && rounding_fails(x, quantizer@, query@, e@)
        },
{
    let dims: usize = reader.dims();
    if query.len() != dims {
        return Err(CompactError::DimensionMismatch { expected: dims, found: query.len() });
    }
    let bytes = match quantizer.quantize_vector(query, x) {
        Ok(bytes) => bytes,
        Err(e) => return Err(e),
    };
    assert(quantizes_to(x, quantizer@, query@, bytes@));
    let q = match quantizer.dequantize_vector(bytes.as_slice(), x) {
        Ok(q) => q,
        Err(e) => {
            assert(rounding_fails(x, quantizer@, query@, e@));
            return Err(e);
        },
    };
    let r = search_by_metric(reader, file, q.as_slice(), k, metric, x);
    proof {
        assert(rounded(x, quantizer@, query@, q@));
        assert(searched_rounded(x, quantizer@, query@, metric, reader@, file@, k as nat, r));
    }
    r
}

/// Query `i` may be answered with `a`.
pub open spec fn answered<A: Arithmetic>(
    x: &A,
    j: spec_fn(Seq<Scalar>) -> Judge,
    m: ReaderModel,
    file: Seq<u8>,
    query: Seq<Scalar>,
    k: nat,
    a: Vec<SearchResult>,
) -> bool {
    searched(
        x,
        j(query),
        m,
        file,
        false,
        query.len(),
        k,
        Ok::<Vec<SearchResult>, CompactError>(a),
    )
}

/// Query `i` is the first whose search may fail, with `e`.
pub open spec fn batch_search_fails_at<A: Arithmetic>(
    x: &A,
    j: spec_fn(Seq<Scalar>) -> Judge,
    m: ReaderModel,
    file: Seq<u8>,
    queries: Seq<Seq<Scalar>>,
    k: nat,
    i: int,
    e: CompactError,
) -> bool {
    &&& 0 <= i < queries.len()
    &&& searched(
        x,
        j(queries[i]),
        m,
        file,
        false,
        queries[i].len(),
        k,
        Err::<Vec<SearchResult>, CompactError>(e),
    )
    &&& forall|n: int|
        0 <= n < i ==> #[trigger] answerable(x, j, m, file, queries, k, n)
}

/// Query `n` may be answered.
pub open spec fn answerable<A: Arithmetic>(
    x: &A,
    j: spec_fn(Seq<Scalar>) -> Judge,
    m: ReaderModel,
    file: Seq<u8>,
    queries: Seq<Seq<Scalar>>,
    k: nat,
    n: int,
) -> bool {
    exists|a: Vec<SearchResult>| #[trigger] answered(x, j, m, file, queries[n], k, a)
}

/// What `f` may say, for each query.
pub open spec fn judging<F: Fn(&[Scalar], &[Scalar]) -> Result<Scalar>>(f: F) -> spec_fn(
    Seq<Scalar>,
) -> Judge {
    |q: Seq<Scalar>| by_function(f, q)
}

/// Search a file held in memory for several queries, up to the first failure.
pub fn batch_search<A: Arithmetic, F: Fn(&[Scalar], &[Scalar]) -> Result<Scalar> + Copy>(
    reader: &CompactReader,
    file: &[u8],
    queries: &[Vec<Scalar>],
    k: usize,
    f: F,
    x: &A,
) -> (r: Result<Vec<Vec<SearchResult>>>)
    requires
        reader@.addressable(),
        accepts_all(f),
    ensures
        match r {
            Ok(out) => {
                &&& out@.len() == queries@.len()
                &&& forall|i: int|
                    0 <= i < out@.len() ==> answered(
                        x,
                        judging(f),
                        reader@,
                        file@,
                        queries@[i]@,
                        k as nat,
                        #[trigger] out@[i],
                    )
            },
            Err(e) => exists|i: int| #[trigger]
                batch_search_fails_at(
                    x,
                    judging(f),
                    reader@,
                    file@,
                    rows(queries@),
                    k as nat,
                    i,
                    e,
                ),
        },
{
    let ghost j = judging(f);
    let ghost data = rows(queries@);
    let mut out: Vec<Vec<SearchResult>> = Vec::new();
    let mut i: usize = 0;
    while i < queries.len()
        invariant
            reader@.addressable(),
            accepts_all(f),
            j == judging(f),
            data == rows(queries@),
            i <= queries@.len(),
            out@.len() == i,
            forall|n: int|
                0 <= n < i ==> answered(
                    x,
                    j,
                    reader@,
                    file@,
                    queries@[n]@,
                    k as nat,
                    #[trigger] out@[n],
                ),
            forall|n: int|
                0 <= n < i ==> #[trigger] answerable(x, j, reader@, file@, data, k as nat, n),
        decreases queries@.len() - i,
    {
        assert(data[i as int] == queries@[i as int]@);
        match brute_force_search(reader, file, queries[i].as_slice(), k, f, x) {
            Ok(a) => {
                assert(answered(x, j, reader@, file@, data[i as int], k as nat, a));
                assert(answerable(x, j, reader@, file@, data, k as nat, i as int));
                out.push(a);
            },
            Err(e) => {
                assert(batch_search_fails_at(
                    x,
                    j,
                    reader@,
                    file@,
                    data,
                    k as nat,
                    i as int,
                    e,
                ));
                return Err(e);
            },
        }
        i += 1;
    }
    Ok(out)
}

/// A walk over all vectors of a file in order of their identifiers.
pub struct ScanIter {
    next_id: u64,
    end: u64,
}

impl ScanIter {
    /// The next vector.
    pub closed spec fn at(&self) -> u64 {
        self.next_id
    }

    /// The first vector not visited.
    pub closed spec fn stop(&self) -> u64 {
        self.end
    }

    pub open spec fn wf(&self) -> bool {
        self.at() <= self.stop()
    }

    /// A walk that starts at the first vector.
    pub fn new(reader: &CompactReader) -> (s: ScanIter)
        ensures
            s.wf(),
            s.at() == 0,
            s.stop() == reader@.header.vector_count,
    {
        ScanIter { next_id: 0, end: reader.len() }
    }

    /// Step to the next vector, if any is left.
    pub fn advance(&mut self) -> (r: Option<u64>)
        requires
            old(self).wf(),
        ensures
            final(self).wf(),
            final(self).stop() == old(self).stop(),
            match r {
                Some(id) => id == old(self).at() && id < old(self).stop() && final(self).at() == id
                    + 1,
                None => old(self).at() == old(self).stop() && final(self).at() == old(self).at(),
            },
    {
        if self.next_id >= self.end {
            return None;
        }
        let id: u64 = self.next_id;
        self.next_id = id + 1;
        Some(id)
    }

    /// The next vector of a file held in memory, read back, if any is left.
    pub fn next<A: Arithmetic>(&mut self, reader: &CompactReader, file: &[u8], x: &A) -> (r: Option<
        Result<(u64, Vec<Scalar>)>,
    >)
        requires
            old(self).wf(),
            reader@.addressable(),
        ensures
            final(self).wf(),
            final(self).stop() == old(self).stop(),
            match r {
                Some(item) => {
                    &&& old(self).at() < old(self).stop()
                    &&& final(self).at() == old(self).at() + 1
                    &&& match item {
                        Ok((id, v)) => id == old(self).at() && vector_read(
                            x,
                            reader@,
                            file@,
                            id,
                            Ok(v),
                        ),
                        Err(e) => vector_fails(x, reader@, file@, old(self).at(), e@),
                    }
                },
                None => old(self).at() == old(self).stop() && final(self).at() == old(self).at(),
            },
    {
        let id: u64 = match self.advance() {
            Some(id) => id,
            None => return None,
        };
        match reader.get_vector(file, id, x) {
            Ok(v) => Some(Ok((id, v))),
            Err(e) => Some(Err(e)),
        }
    }

    /// Number of vectors left.
    pub fn remaining(&self) -> (r: u64)
        requires
            self.wf(),
        ensures
            r == self.stop() - self.at(),
    {
        self.end - self.next_id
    }
}

} // verus!
