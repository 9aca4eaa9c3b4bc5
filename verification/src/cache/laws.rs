//! Which vectors a cache keeps, and in which order.
use crate::cache::{position, promoted, rate_to, CacheModel};
use crate::rounding::wide::{
    lemma_wide_numbers, wide_finite, wide_grain, wide_rounding, wide_speck, wide_value,
};
use crate::rounding::{lemma_divide_out, lemma_quotient, lemma_times, size};
use crate::scalar::Scalar;
use crate::wide::{wide_counted, wide_quotient, Wide, WideArithmetic};
use vstd::prelude::*;

verus! {

/// `a` was used before `b`.
pub open spec fn earlier(order: Seq<u64>, a: u64, b: u64) -> bool {
    exists|i: int, j: int|
        0 <= i < j < order.len() && #[trigger] order[i] == a && #[trigger] order[j] == b
}

proof fn lemma_position_found(order: Seq<u64>, id: u64, from: nat)
    requires
        from <= order.len(),
    ensures
        position(order, id, from) <= order.len(),
        position(order, id, from) < order.len() ==> order[position(order, id, from) as int] == id,
    decreases order.len() - from,
{
    if from < order.len() && order[from as int] != id {
        lemma_position_found(order, id, from + 1);
    }
}

proof fn lemma_promoting_keeps_order(order: Seq<u64>, id: u64, a: u64, b: u64)
    requires
        a != id,
        b != id,
        earlier(order, a, b),
    ensures
        earlier(promoted(order, id), a, b),
{
    lemma_position_found(order, id, 0);
    let p = position(order, id, 0) as int;
    let r = promoted(order, id);
    let (i, j) = choose|i: int, j: int|
        0 <= i < j < order.len() && #[trigger] order[i] == a && #[trigger] order[j] == b;
    if p < order.len() {
        let ni = if i < p {
            i
        } else {
            i - 1
        };
        let nj = if j < p {
            j
        } else {
            j - 1
        };
        assert(r[ni] == a && r[nj] == b);
    }
}

/// Using a vector makes it the last one used and leaves the order of the others as it was.
pub proof fn law_using_keeps_order(c: CacheModel, id: u64, a: u64, b: u64)
    requires
        c.valid(),
        a != id,
        b != id,
        earlier(c.order, a, b),
    ensures
        earlier(c.used(id).order, a, b),
        c.used(id).capacity == c.capacity,
        c.vectors.contains_key(id) ==> earlier(c.used(id).order, b, id),
{
    lemma_promoting_keeps_order(c.order, id, a, b);
    if c.vectors.contains_key(id) {
        assert(c.order.contains(id));
        let k = choose|k: int| 0 <= k < c.order.len() && c.order[k] == id;
        lemma_position_found(c.order, id, 0);
        crate::cache::law_cache_stays_valid(c, id, seq![]);
        let r = c.used(id).order;
        let (i, j) = choose|i: int, j: int|
            0 <= i < j < r.len() && #[trigger] r[i] == a && #[trigger] r[j] == b;
        assert(r[r.len() - 1] == id);
        assert(r[j] == b && r[r.len() - 1] == id && j < r.len() - 1);
    }
}

/// Storing a vector where there is room, or under an identifier in use, removes none. Storing one
/// more in a full cache removes the least recently used vector and no other. What stays is as it
/// was, in the order in which it was used, and the stored vector was used last.
pub proof fn law_storing(c: CacheModel, id: u64, v: Seq<Scalar>)
    requires
        c.valid(),
    ensures
        ({
            let s = c.stored(id, v);
            let full = !c.vectors.contains_key(id) && c.order.len() == c.capacity;
            &&& s.capacity == c.capacity
            &&& forall|k: u64| #[trigger]
                s.vectors.contains_key(k) <==> k == id || c.vectors.contains_key(k) && !(full && k
                    == c.order[0])
            &&& s.vectors[id] == v
            &&& forall|k: u64|
                k != id && #[trigger] s.vectors.contains_key(k) ==> s.vectors[k] == c.vectors[k]
            &&& s.order.last() == id
            &&& forall|a: u64, b: u64|
                a != id && b != id && s.vectors.contains_key(a) && #[trigger] earlier(
                    c.order,
                    a,
                    b,
                ) ==> earlier(s.order, a, b)
        }),
{
    crate::cache::law_cache_stays_valid(c, id, v);
    let s = c.stored(id, v);
    let full = !c.vectors.contains_key(id) && c.order.len() == c.capacity;
    if full {
        assert(c.order.contains(c.order[0]));
    }
    assert forall|a: u64, b: u64|
        a != id && b != id && s.vectors.contains_key(a) && #[trigger] earlier(
            c.order,
            a,
            b,
        ) implies earlier(s.order, a, b) by {
        let (i, j) = choose|i: int, j: int|
            0 <= i < j < c.order.len() && #[trigger] c.order[i] == a && #[trigger] c.order[j] == b;
        if c.vectors.contains_key(id) {
            lemma_promoting_keeps_order(c.order, id, a, b);
        } else if full {
            assert(i > 0);
            assert(s.order[i - 1] == a && s.order[j - 1] == b);
        } else {
            assert(s.order[i] == a && s.order[j] == b);
        }
    }
}

/// The hit rate is the number of hits divided by the number of requests, up to rounding.
pub proof fn law_hit_rate<W: WideArithmetic>(w: &W, hits: u64, total: u64, r: Wide)
    requires
        wide_rounding(w),
        hits <= total <= 0x20_0000_0000_0000,
        0 < total,
        rate_to(w, hits, total, r),
    ensures
        wide_finite(r),
        size(wide_value(r) - hits as real / total as real) <= 2real * wide_grain(),
{
    lemma_wide_numbers();
    let (a, b) = choose|a: Wide, b: Wide| #[trigger]
        wide_counted(w, hits, a) && #[trigger] wide_counted(w, total, b) && wide_quotient(
            w,
            a,
            b,
            r,
        );
    let h = hits as real;
    let c = total as real;
    let q = h / c;
    lemma_quotient(h, c);
    lemma_divide_out(q, 1real, c);
    lemma_divide_out(0real, q, c);
    assert(wide_value(a) == h && wide_value(b) == c);
    lemma_times(q, 1real, wide_grain());
    lemma_times(wide_speck(), 1real, wide_grain());
}

} // verus!
