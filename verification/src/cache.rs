//! Cache of vectors in use: the least recently used one makes room for a new one.
use crate::bins::dequantizes_to;
use crate::errors::{ErrorModel, Result};
use crate::quant::{copy_of, rows};
use crate::scalar::{Arithmetic, Scalar};
use crate::storage::reader::{vector_fails, CompactReader, ReaderModel};
use crate::wide::{share, share_of, wide_zero, Wide, WideArithmetic};
use std::collections::{HashMap, VecDeque};
use vstd::prelude::*;

pub mod laws;

verus! {

broadcast use vstd::std_specs::hash::group_hash_axioms;

/// Contents of a cache: identifiers from the least to the most recently used, and their vectors.
#[verifier::ext_equal]
pub ghost struct CacheModel {
    pub capacity: nat,
    pub order: Seq<u64>,
    pub vectors: Map<u64, Seq<Scalar>>,
}

/// The first position of `id`; the length if there is none.
pub open spec fn position(order: Seq<u64>, id: u64, from: nat) -> nat
    decreases order.len() - from,
{
    if from >= order.len() {
        order.len()
    } else if order[from as int] == id {
        from
    } else {
        position(order, id, from + 1)
    }
}

/// The order after `id` was used.
pub open spec fn promoted(order: Seq<u64>, id: u64) -> Seq<u64> {
    let p = position(order, id, 0);
    if p < order.len() {
        order.remove(p as int).push(id)
    } else {
        order
    }
}

impl CacheModel {
    /// Every vector has exactly one place in the order, and there are not too many.
    pub open spec fn valid(self) -> bool {
        &&& self.capacity > 0
        &&& self.order.no_duplicates()
        &&& forall|id: u64| #[trigger] self.order.contains(id) <==> self.vectors.contains_key(id)
        &&& self.order.len() <= self.capacity
    }

    /// The cache after `id` was asked for.
    pub open spec fn used(self, id: u64) -> CacheModel {
        CacheModel { order: promoted(self.order, id), ..self }
    }

    /// The cache after `v` was stored under `id`.
    pub open spec fn stored(self, id: u64, v: Seq<Scalar>) -> CacheModel {
        if self.vectors.contains_key(id) {
            CacheModel {
                order: promoted(self.order, id),
                vectors: self.vectors.insert(id, v),
                ..self
            }
        } else if self.order.len() >= self.capacity {
            CacheModel {
                order: self.order.drop_first().push(id),
                vectors: self.vectors.remove(self.order[0]).insert(id, v),
                ..self
            }
        } else {
            CacheModel {
                order: self.order.push(id),
                vectors: self.vectors.insert(id, v),
                ..self
            }
        }
    }
}

proof fn lemma_position(order: Seq<u64>, id: u64, from: nat)
    requires
        from <= order.len(),
    ensures
        from <= position(order, id, from) <= order.len(),
        position(order, id, from) < order.len() ==> order[position(order, id, from) as int] == id,
        position(order, id, from) == order.len() ==> forall|i: int|
            from <= i < order.len() ==> #[trigger] order[i] != id,
    decreases order.len() - from,
{
    if from < order.len() && order[from as int] != id {
        lemma_position(order, id, from + 1);
    }
}

/// Using or storing a vector keeps a cache valid. What was stored is there and was used last;
/// storing removes at most the least recently used vector, and none where it replaces one.
pub proof fn law_cache_stays_valid(c: CacheModel, id: u64, v: Seq<Scalar>)
    requires
        c.valid(),
    ensures
        c.used(id).valid(),
        c.used(id).vectors == c.vectors,
        c.vectors.contains_key(id) ==> c.used(id).order.last() == id,
        c.stored(id, v).valid(),
        c.stored(id, v).vectors.contains_key(id),
        c.stored(id, v).vectors[id] == v,
        c.stored(id, v).order.len() > 0,
        c.stored(id, v).order.last() == id,
        forall|k: u64|
            k != id && c.vectors.contains_key(k) && k != c.order[0] ==> #[trigger] c.stored(
                id,
                v,
            ).vectors.contains_key(k),
        c.vectors.contains_key(id) ==> forall|k: u64| #[trigger]
            c.stored(id, v).vectors.contains_key(k) <==> c.vectors.contains_key(k),
{
    lemma_promoted(c.order, id);
    let s = c.stored(id, v);
    if c.vectors.contains_key(id) {
        assert(c.order.contains(id));
        assert forall|k: u64| #[trigger] s.order.contains(k) <==> s.vectors.contains_key(k) by {
            assert(c.order.contains(k) <==> c.vectors.contains_key(k));
        }
    } else {
        assert(!c.order.contains(id));
        if c.order.len() >= c.capacity {
            let rest = c.order.drop_first();
            let first = c.order[0];
            assert forall|k: u64| #[trigger] s.order.contains(k) <==> s.vectors.contains_key(
                k,
            ) by {
                assert(c.order.contains(k) <==> c.vectors.contains_key(k));
                if s.order.contains(k) {
                    let i = choose|i: int| 0 <= i < s.order.len() && s.order[i] == k;
                    if i < rest.len() {
                        assert(c.order[i + 1] == k);
                        assert(k != first);
                    }
                }
                if s.vectors.contains_key(k) {
                    if k == id {
                        assert(s.order[rest.len() as int] == id);
                    } else {
                        let i = choose|i: int| 0 <= i < c.order.len() && c.order[i] == k;
                        assert(i > 0);
                        assert(s.order[i - 1] == k);
                    }
                }
            }
            assert(s.order.no_duplicates()) by {
                assert forall|i: int, j: int|
                    0 <= i < s.order.len() && 0 <= j < s.order.len() && i
                        != j implies s.order[i] != s.order[j] by {
                    if i < rest.len() {
                        assert(s.order[i] == c.order[i + 1]);
                        assert(c.order.contains(c.order[i + 1]));
                    }
                    if j < rest.len() {
                        assert(s.order[j] == c.order[j + 1]);
                        assert(c.order.contains(c.order[j + 1]));
                    }
                }
            }
        } else {
            assert forall|k: u64| #[trigger] s.order.contains(k) <==> s.vectors.contains_key(
                k,
            ) by {
                assert(c.order.contains(k) <==> c.vectors.contains_key(k));
                if s.order.contains(k) {
                    let i = choose|i: int| 0 <= i < s.order.len() && s.order[i] == k;
                    if i < c.order.len() {
                        assert(c.order[i] == k);
                    }
                }
                if s.vectors.contains_key(k) {
                    if k == id {
                        assert(s.order[c.order.len() as int] == id);
                    } else {
                        let i = choose|i: int| 0 <= i < c.order.len() && c.order[i] == k;
                        assert(s.order[i] == k);
                    }
                }
            }
        }
    }
}

proof fn lemma_promoted(order: Seq<u64>, id: u64)
    requires
        order.no_duplicates(),
    ensures
        promoted(order, id).no_duplicates(),
        promoted(order, id).len() == order.len(),
        forall|k: u64| #[trigger] promoted(order, id).contains(k) <==> order.contains(k),
        order.contains(id) ==> promoted(order, id).last() == id,
{
    lemma_position(order, id, 0);
    let p = position(order, id, 0) as int;
    let r = promoted(order, id);
    if p < order.len() {
        let rest = order.remove(p);
        assert forall|k: u64| #[trigger] r.contains(k) <==> order.contains(k) by {
            if r.contains(k) {
                let i = choose|i: int| 0 <= i < r.len() && r[i] == k;
                if i < p {
                    assert(order[i] == k);
                } else if i < rest.len() {
                    assert(order[i + 1] == k);
                } else {
                    assert(order[p] == k);
                }
            }
            if order.contains(k) {
                let i = choose|i: int| 0 <= i < order.len() && order[i] == k;
                if i < p {
                    assert(r[i] == k);
                } else if i > p {
                    assert(r[i - 1] == k);
                } else {
                    assert(r[rest.len() as int] == k);
                }
            }
        }
        assert forall|i: int, j: int| 0 <= i < r.len() && 0 <= j < r.len() && i != j implies r[i]
            != r[j] by {
            let oi = if i < p {
                i
            } else if i < rest.len() {
                i + 1
            } else {
                p
            };
            let oj = if j < p {
                j
            } else if j < rest.len() {
                j + 1
            } else {
                p
            };
            assert(r[i] == order[oi] && r[j] == order[oj] && oi != oj);
        }
    } else if order.contains(id) {
        let i = choose|i: int| 0 <= i < order.len() && order[i] == id;
        assert(order[i] != id);
    }
}

/// The share of `hits` in `total` may come out as `r`; zero if there were none.
pub open spec fn rate_to<W: WideArithmetic>(w: &W, hits: u64, total: u64, r: Wide) -> bool {
    if total == 0 {
        r == wide_zero()
    } else {
        share(w, hits, total, r)
    }
}

/// The vectors of a map.
pub open spec fn contents(m: Map<u64, Vec<Scalar>>) -> Map<u64, Seq<Scalar>> {
    m.map_values(|v: Vec<Scalar>| v@)
}

/// Cache of at most `capacity` vectors.
pub struct LruCache {
    capacity: usize,
    map: HashMap<u64, Vec<Scalar>>,
    order: VecDeque<u64>,
}

impl View for LruCache {
    type V = CacheModel;

    closed spec fn view(&self) -> CacheModel {
        CacheModel {
            capacity: self.capacity as nat,
            order: self.order@,
            vectors: contents(self.map@),
        }
    }
}

impl LruCache {
    pub closed spec fn wf(&self) -> bool {
        self@.valid()
    }

    /// An empty cache for at least one vector.
    pub fn new(capacity: usize) -> (c: LruCache)
        ensures
            c.wf(),
            c@.capacity == (if capacity == 0 {
                1
            } else {
                capacity as nat
            }),
            c@.order == Seq::<u64>::empty(),
            c@.vectors == Map::<u64, Seq<Scalar>>::empty(),
    {
        let c = LruCache {
            capacity: if capacity == 0 {
                1
            } else {
                capacity
            },
            map: HashMap::new(),
            order: VecDeque::new(),
        };
        assert(c@.vectors =~= Map::<u64, Seq<Scalar>>::empty());
        c
    }

    /// Largest number of vectors.
    pub fn capacity(&self) -> (r: usize)
        ensures
            r == self@.capacity,
    {
        self.capacity
    }

    /// Number of vectors.
    pub fn len(&self) -> (r: usize)
        requires
            self.wf(),
        ensures
            r == self@.order.len(),
            r == self@.vectors.dom().len(),
    {
        proof {
            self@.order.unique_seq_to_set();
            assert(self@.order.to_set() =~= self.map@.dom()) by {
                assert forall|k: u64| #[trigger] self@.order.to_set().contains(k)
                    <==> self.map@.dom().contains(k) by {
                    assert(self@.order.contains(k) <==> self@.vectors.contains_key(k));
                }
            }
            assert(self@.vectors.dom() =~= self.map@.dom());
        }
        self.map.len()
    }

    /// Whether there are no vectors.
    pub fn is_empty(&self) -> (r: bool)
        requires
            self.wf(),
        ensures
            r == (self@.order.len() == 0),
    {
        self.len() == 0
    }

    /// Whether there is a vector under `id`.
    pub fn contains(&self, id: u64) -> (r: bool)
        ensures
            r == self@.vectors.contains_key(id),
    {
        self.map.contains_key(&id)
    }

    /// The vector under `id`, which counts as used.
    pub fn get(&mut self, id: u64) -> (r: Option<Vec<Scalar>>)
        requires
            old(self).wf(),
        ensures
            final(self).wf(),
            match r {
                Some(v) => old(self)@.vectors.contains_key(id) && v@ == old(self)@.vectors[id]
                    && final(self)@ == old(self)@.used(id),
                None => !old(self)@.vectors.contains_key(id) && final(self)@ == old(self)@,
            },
    {
        let found: Option<Vec<Scalar>> = match self.map.get(&id) {
            Some(v) => Some(copy_of(v.as_slice())),
            None => None,
        };
        if found.is_some() {
            proof {
                law_cache_stays_valid(self@, id, seq![]);
            }
            self.promote(id);
        }
        found
    }

    /// Store a vector under `id`. Where the cache is full, the least recently used one leaves.
    pub fn put(&mut self, id: u64, vec: Vec<Scalar>)
        requires
            old(self).wf(),
        ensures
            final(self).wf(),
            final(self)@ == old(self)@.stored(id, vec@),
    {
        let ghost c = self@;
        let ghost v = vec@;
        proof {
            law_cache_stays_valid(c, id, v);
        }
        if self.map.contains_key(&id) {
            self.map.insert(id, vec);
            assert(contents(self.map@) =~= c.vectors.insert(id, v));
            self.promote(id);
            return;
        }
        let full: bool = self.len() >= self.capacity;
        if full {
            match self.order.pop_front() {
                Some(lru) => {
                    self.map.remove(&lru);
                    assert(self.order@ =~= c.order.drop_first());
                    assert(contents(self.map@) =~= c.vectors.remove(c.order[0]));
                },
                None => {},
            }
        }
        let ghost kept = contents(self.map@);
        self.order.push_back(id);
        self.map.insert(id, vec);
        assert(contents(self.map@) =~= kept.insert(id, v));
        assert(self@ =~= c.stored(id, v));
    }

    /// Remove everything.
    pub fn clear(&mut self)
        requires
            old(self).wf(),
        ensures
            final(self).wf(),
            final(self)@.capacity == old(self)@.capacity,
            final(self)@.order == Seq::<u64>::empty(),
            final(self)@.vectors == Map::<u64, Seq<Scalar>>::empty(),
    {
        self.map.clear();
        self.order.clear();
        assert(self@.vectors =~= Map::<u64, Seq<Scalar>>::empty());
    }

    /// The share of `hits` in `total`; zero if there were none.
    pub fn hit_rate<W: WideArithmetic>(&self, hits: u64, total: u64, w: &W) -> (r: Wide)
        ensures
            rate_to(w, hits, total, r),
    {
        if total == 0 {
            wide_zero()
        } else {
            share_of(hits, total, w)
        }
    }

    fn promote(&mut self, id: u64)
        ensures
            final(self).capacity == old(self).capacity,
            final(self).map == old(self).map,
            final(self).order@ == promoted(old(self).order@, id),
    {
        let n: usize = self.order.len();
        let mut i: usize = 0;
        while i < n
            invariant
                self == old(self),
                i <= n == self.order@.len(),
                position(self.order@, id, 0) == position(self.order@, id, i as nat),
            decreases n - i,
        {
            if self.order[i] == id {
                self.order.remove(i);
                self.order.push_back(id);
                return;
            }
            i += 1;
        }
    }
}

/// Vector `id` of a file may read back as `v`.
pub open spec fn reads_back<A: Arithmetic>(
    x: &A,
    m: ReaderModel,
    file: Seq<u8>,
    id: u64,
    v: Seq<Scalar>,
) -> bool {
    m.vector_bytes(file, id) is Ok && dequantizes_to(
        x,
        m.bounds,
        m.vector_bytes(file, id)->Ok_0,
        v,
    )
}

/// Everything in the cache may be read back from the file.
pub open spec fn faithful<A: Arithmetic>(
    x: &A,
    m: ReaderModel,
    file: Seq<u8>,
    c: CacheModel,
) -> bool {
    forall|id: u64| #[trigger]
        c.vectors.contains_key(id) ==> reads_back(x, m, file, id, c.vectors[id])
}

/// A cache in front of a reader: its contents, how many requests there were, and how many of
/// them it answered.
#[verifier::ext_equal]
pub ghost struct CachedModel {
    pub cache: CacheModel,
    pub hits: nat,
    pub total: nat,
}

/// A request for `id` may be answered with `v`, and take the cache from `s` to `t`.
pub open spec fn request_answered<A: Arithmetic>(
    x: &A,
    m: ReaderModel,
    file: Seq<u8>,
    s: CachedModel,
    id: u64,
    v: Seq<Scalar>,
    t: CachedModel,
) -> bool {
    if s.cache.vectors.contains_key(id) {
        v == s.cache.vectors[id] && t == (CachedModel {
            cache: s.cache.used(id),
            hits: s.hits + 1,
            total: s.total + 1,
        })
    } else {
        reads_back(x, m, file, id, v) && t == (CachedModel {
            cache: s.cache.stored(id, v),
            hits: s.hits,
            total: s.total + 1,
        })
    }
}

/// A request for `id` may fail with `e`, and take the cache from `s` to `t`.
pub open spec fn request_fails<A: Arithmetic>(
    x: &A,
    m: ReaderModel,
    file: Seq<u8>,
    s: CachedModel,
    id: u64,
    e: ErrorModel,
    t: CachedModel,
) -> bool {
    &&& !s.cache.vectors.contains_key(id)
    &&& vector_fails(x, m, file, id, e)
    &&& t == (CachedModel { total: s.total + 1, ..s })
}

/// Requests for the first `n` of `ids` may be answered with `out`, and take the cache from `s`
/// to `t`.
pub open spec fn requests_answered<A: Arithmetic>(
    x: &A,
    m: ReaderModel,
    file: Seq<u8>,
    s: CachedModel,
    ids: Seq<u64>,
    n: nat,
    out: Seq<Seq<Scalar>>,
    t: CachedModel,
) -> bool
    decreases n,
{
    if n == 0 {
        out == Seq::<Seq<Scalar>>::empty() && t == s
    } else {
        out.len() == n && exists|u: CachedModel|
            requests_answered(x, m, file, s, ids, (n - 1) as nat, out.drop_last(), u)
                && #[trigger] request_answered(x, m, file, u, ids[n - 1], out.last(), t)
    }
}

/// Requests for the first `n` of `ids` may be answered, and the next one may fail with `e`; the
/// cache goes from `s` to `t`.
pub open spec fn requests_fail_at<A: Arithmetic>(
    x: &A,
    m: ReaderModel,
    file: Seq<u8>,
    s: CachedModel,
    ids: Seq<u64>,
    n: nat,
    out: Seq<Seq<Scalar>>,
    u: CachedModel,
    e: ErrorModel,
    t: CachedModel,
) -> bool {
    &&& n < ids.len()
    &&& requests_answered(x, m, file, s, ids, n, out, u)
    &&& request_fails(x, m, file, u, ids[n as int], e, t)
}

/// Requests for `ids` may fail with `e`, and take the cache from `s` to `t`.
pub open spec fn requests_fail<A: Arithmetic>(
    x: &A,
    m: ReaderModel,
    file: Seq<u8>,
    s: CachedModel,
    ids: Seq<u64>,
    e: ErrorModel,
    t: CachedModel,
) -> bool {
    exists|n: nat, out: Seq<Seq<Scalar>>, u: CachedModel| #[trigger]
        requests_fail_at(x, m, file, s, ids, n, out, u, e, t)
}

proof fn lemma_one_more_request<A: Arithmetic>(
    x: &A,
    m: ReaderModel,
    file: Seq<u8>,
    s: CachedModel,
    ids: Seq<u64>,
    n: nat,
    out: Seq<Seq<Scalar>>,
    u: CachedModel,
    v: Seq<Scalar>,
    t: CachedModel,
)
    requires
        requests_answered(x, m, file, s, ids, n, out, u),
        out.len() == n,
        request_answered(x, m, file, u, ids[n as int], v, t),
    ensures
        requests_answered(x, m, file, s, ids, n + 1, out.push(v), t),
{
    assert(out.push(v).drop_last() =~= out);
    assert(request_answered(x, m, file, u, ids[(n + 1) - 1], out.push(v).last(), t));
}

/// A cache that holds what the file holds answers as the file does, and goes on holding what
/// the file holds.
pub proof fn law_cache_is_transparent<A: Arithmetic>(
    x: &A,
    m: ReaderModel,
    file: Seq<u8>,
    s: CachedModel,
    id: u64,
    v: Seq<Scalar>,
    t: CachedModel,
)
    requires
        faithful(x, m, file, s.cache),
        request_answered(x, m, file, s, id, v, t),
    ensures
        reads_back(x, m, file, id, v),
        faithful(x, m, file, t.cache),
{
    assert forall|k: u64| #[trigger] t.cache.vectors.contains_key(k) implies reads_back(
        x,
        m,
        file,
        k,
        t.cache.vectors[k],
    ) by {
        if k != id {
            assert(s.cache.vectors.contains_key(k));
        }
    }
}

/// One call may take a cache from `s` to `t`: a request that is answered, one that fails, or
/// clearing.
pub open spec fn one_call<A: Arithmetic>(
    x: &A,
    m: ReaderModel,
    file: Seq<u8>,
    s: CachedModel,
    t: CachedModel,
) -> bool {
    ||| exists|id: u64, v: Seq<Scalar>| #[trigger] request_answered(x, m, file, s, id, v, t)
    ||| exists|id: u64, e: ErrorModel| #[trigger] request_fails(x, m, file, s, id, e, t)
    ||| t == (CachedModel {
        cache: CacheModel {
            capacity: s.cache.capacity,
            order: Seq::empty(),
            vectors: Map::empty(),
        },
        ..s
    })
}

/// The states of a cache, from an empty one on, one call after another.
pub open spec fn history<A: Arithmetic>(
    x: &A,
    m: ReaderModel,
    file: Seq<u8>,
    states: Seq<CachedModel>,
) -> bool {
    &&& states.len() > 0
    &&& states[0].cache.capacity > 0
    &&& states[0].cache.order == Seq::<u64>::empty()
    &&& states[0].cache.vectors == Map::<u64, Seq<Scalar>>::empty()
    &&& forall|i: int|
        0 <= i < states.len() - 1 ==> one_call(x, m, file, #[trigger] states[i], states[i + 1])
}

/// After any calls a cache holds what the file holds, and no more vectors than it has room for.
pub proof fn law_cache_after_any_calls<A: Arithmetic>(
    x: &A,
    m: ReaderModel,
    file: Seq<u8>,
    states: Seq<CachedModel>,
)
    requires
        history(x, m, file, states),
    ensures
        faithful(x, m, file, states.last().cache),
        states.last().cache.valid(),
        states.last().cache.capacity == states[0].cache.capacity,
    decreases states.len(),
{
    if states.len() > 1 {
        let before = states.drop_last();
        assert forall|i: int| 0 <= i < before.len() - 1 implies one_call(
            x,
            m,
            file,
            #[trigger] before[i],
            before[i + 1],
        ) by {
            assert(one_call(x, m, file, states[i], states[i + 1]));
        }
        law_cache_after_any_calls(x, m, file, before);
        let s = before.last();
        let t = states.last();
        assert(one_call(x, m, file, states[states.len() - 2], states[states.len() - 1]));
        if exists|id: u64, v: Seq<Scalar>| #[trigger] request_answered(x, m, file, s, id, v, t) {
            let (id, v) = choose|id: u64, v: Seq<Scalar>| #[trigger]
                request_answered(x, m, file, s, id, v, t);
            law_cache_is_transparent(x, m, file, s, id, v, t);
            law_cache_stays_valid(s.cache, id, v);
        }
    }
}

/// The same of several requests.
pub proof fn law_cached_batch_is_transparent<A: Arithmetic>(
    x: &A,
    m: ReaderModel,
    file: Seq<u8>,
    s: CachedModel,
    ids: Seq<u64>,
    out: Seq<Seq<Scalar>>,
    t: CachedModel,
)
    requires
        faithful(x, m, file, s.cache),
        requests_answered(x, m, file, s, ids, ids.len(), out, t),
    ensures
        out.len() == ids.len(),
        forall|i: int| 0 <= i < ids.len() ==> reads_back(x, m, file, ids[i], #[trigger] out[i]),
        faithful(x, m, file, t.cache),
{
    lemma_transparent(x, m, file, s, ids, ids.len(), out, t);
}

proof fn lemma_transparent<A: Arithmetic>(
    x: &A,
    m: ReaderModel,
    file: Seq<u8>,
    s: CachedModel,
    ids: Seq<u64>,
    n: nat,
    out: Seq<Seq<Scalar>>,
    t: CachedModel,
)
    requires
        faithful(x, m, file, s.cache),
        requests_answered(x, m, file, s, ids, n, out, t),
    ensures
        out.len() == n,
        forall|i: int| 0 <= i < n ==> reads_back(x, m, file, ids[i], #[trigger] out[i]),
        faithful(x, m, file, t.cache),
    decreases n,
{
    if n > 0 {
        let u = choose|u: CachedModel|
            requests_answered(x, m, file, s, ids, (n - 1) as nat, out.drop_last(), u)
                && #[trigger] request_answered(x, m, file, u, ids[n - 1], out.last(), t);
        lemma_transparent(x, m, file, s, ids, (n - 1) as nat, out.drop_last(), u);
        law_cache_is_transparent(x, m, file, u, ids[n - 1], out.last(), t);
        assert forall|i: int| 0 <= i < n implies reads_back(
            x,
            m,
            file,
            ids[i],
            #[trigger] out[i],
        ) by {
            if i < n - 1 {
                assert(out[i] == out.drop_last()[i]);
            }
        }
    }
}

/// A cache in front of a reader, with a count of how often it helped.
pub struct CachedReader {
    cache: LruCache,
    hits: u64,
    total: u64,
}

impl View for CachedReader {
    type V = CachedModel;

    closed spec fn view(&self) -> CachedModel {
        CachedModel { cache: self.cache@, hits: self.hits as nat, total: self.total as nat }
    }
}

impl CachedReader {
    pub closed spec fn wf(&self) -> bool {
        self.cache.wf() && self.hits <= self.total
    }

    /// An empty cache for `capacity` vectors, and at least one.
    pub fn new(capacity: usize) -> (c: CachedReader)
        ensures
            c.wf(),
            c@ == (CachedModel {
                cache: CacheModel {
                    capacity: if capacity == 0 {
                        1
                    } else {
                        capacity as nat
                    },
                    order: Seq::empty(),
                    vectors: Map::empty(),
                },
                hits: 0,
                total: 0,
            }),
    {
        let c = CachedReader { cache: LruCache::new(capacity), hits: 0, total: 0 };
        assert(c@.cache.order =~= Seq::<u64>::empty());
        c
    }

    /// Number of cached vectors.
    pub fn cache_len(&self) -> (r: usize)
        requires
            self.wf(),
        ensures
            r == self@.cache.order.len(),
    {
        self.cache.len()
    }

    /// The share of requests that the cache answered; zero if there were none.
    pub fn hit_rate<W: WideArithmetic>(&self, w: &W) -> (r: Wide)
        ensures
            self@.total == 0 ==> r == wide_zero(),
            self@.total > 0 ==> rate_to(w, self@.hits as u64, self@.total as u64, r),
    {
        self.cache.hit_rate(self.hits, self.total, w)
    }

    /// How many requests the cache answered, and how many there were.
    pub fn hit_counts(&self) -> (r: (u64, u64))
        requires
            self.wf(),
        ensures
            r.0 == self@.hits,
            r.1 == self@.total,
            r.0 <= r.1,
    {
        (self.hits, self.total)
    }

    /// Remove everything from the cache.
    pub fn clear_cache(&mut self)
        requires
            old(self).wf(),
        ensures
            final(self).wf(),
            final(self)@ == (CachedModel {
                cache: CacheModel {
                    capacity: old(self)@.cache.capacity,
                    order: Seq::empty(),
                    vectors: Map::empty(),
                },
                ..old(self)@
            }),
    {
        self.cache.clear();
        assert(self@ =~= CachedModel {
            cache: CacheModel {
                capacity: old(self)@.cache.capacity,
                order: Seq::empty(),
                vectors: Map::empty(),
            },
            ..old(self)@
        });
    }

    /// Count a request, and answer it from the cache if possible.
    pub fn lookup(&mut self, id: u64) -> (r: Option<Vec<Scalar>>)
        requires
            old(self).wf(),
            old(self)@.total < u64::MAX,
        ensures
            final(self).wf(),
            match r {
                Some(v) => {
                    &&& old(self)@.cache.vectors.contains_key(id)
                    &&& v@ == old(self)@.cache.vectors[id]
                    &&& final(self)@ == (CachedModel {
                        cache: old(self)@.cache.used(id),
                        hits: old(self)@.hits + 1,
                        total: old(self)@.total + 1,
                    })
                },
                None => {
                    &&& !old(self)@.cache.vectors.contains_key(id)
                    &&& final(self)@ == (CachedModel { total: old(self)@.total + 1, ..old(self)@ })
                },
            },
    {
        self.total = self.total + 1;
        let found = self.cache.get(id);
        if found.is_some() {
            self.hits = self.hits + 1;
        }
        found
    }

    /// Cache a vector that was read.
    pub fn fill(&mut self, id: u64, vec: &[Scalar])
        requires
            old(self).wf(),
        ensures
            final(self).wf(),
            final(self)@ == (CachedModel {
                cache: old(self)@.cache.stored(id, vec@),
                ..old(self)@
            }),
    {
        self.cache.put(id, copy_of(vec));
    }

    /// Vector `id` of a file held in memory, from the cache or else read back and cached.
    pub fn get<A: Arithmetic>(&mut self, reader: &CompactReader, file: &[u8], id: u64, x: &A) -> (r:
        Result<Vec<Scalar>>)
        requires
            old(self).wf(),
            old(self)@.total < u64::MAX,
            reader@.addressable(),
        ensures
            final(self).wf(),
            match r {
                Ok(v) => request_answered(
                    x,
                    reader@,
                    file@,
                    old(self)@,
                    id,
                    v@,
                    final(self)@,
                ),
                Err(e) => request_fails(x, reader@, file@, old(self)@, id, e@, final(self)@),
            },
    {
        match self.lookup(id) {
            Some(v) => return Ok(v),
            None => {},
        }
        match reader.get_vector(file, id, x) {
            Ok(v) => {
                self.fill(id, v.as_slice());
                Ok(v)
            },
            Err(e) => Err(e),
        }
    }

    /// Several vectors of a file held in memory, up to the first that cannot be read.
    pub fn get_batch<A: Arithmetic>(
        &mut self,
        reader: &CompactReader,
        file: &[u8],
        ids: &[u64],
        x: &A,
    ) -> (r: Result<Vec<Vec<Scalar>>>)
        requires
            old(self).wf(),
            old(self)@.total + ids@.len() <= u64::MAX,
            reader@.addressable(),
        ensures
            final(self).wf(),
            match r {
                Ok(out) => requests_answered(
                    x,
                    reader@,
                    file@,
                    old(self)@,
                    ids@,
                    ids@.len(),
                    rows(out@),
                    final(self)@,
                ),
                Err(e) => requests_fail(
                    x,
                    reader@,
                    file@,
                    old(self)@,
                    ids@,
                    e@,
                    final(self)@,
                ),
            },
    {
        let ghost s = self@;
        let mut out: Vec<Vec<Scalar>> = Vec::new();
        let mut i: usize = 0;
        assert(rows(out@) =~= Seq::<Seq<Scalar>>::empty());
        while i < ids.len()
            invariant
                self.wf(),
                reader@.addressable(),
                s == old(self)@,
                i <= ids@.len(),
                out@.len() == i,
                s.total + ids@.len() <= u64::MAX,
                self@.total == s.total + i,
                requests_answered(x, reader@, file@, s, ids@, i as nat, rows(out@), self@),
            decreases ids@.len() - i,
        {
            let ghost u = self@;
            match self.get(reader, file, ids[i], x) {
                Ok(v) => {
                    let ghost before = rows(out@);
                    let ghost view = v@;
                    out.push(v);
                    proof {
                        lemma_one_more_request(
                            x,
                            reader@,
                            file@,
                            s,
                            ids@,
                            i as nat,
                            before,
                            u,
                            view,
                            self@,
                        );
                        assert(rows(out@) =~= before.push(view));
                    }
                },
                Err(e) => {
                    assert(requests_fail_at(
                        x,
                        reader@,
                        file@,
                        s,
                        ids@,
                        i as nat,
                        rows(out@),
                        u,
                        e@,
                        self@,
                    ));
                    return Err(e);
                },
            }
            i += 1;
        }
        Ok(out)
    }
}

} // verus!
