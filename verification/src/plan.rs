//! Splitting work into parts of neighbouring items.
use vstd::arithmetic::div_mod::{
    lemma_fundamental_div_mod, lemma_fundamental_div_mod_converse, lemma_mod_bound,
};
use vstd::prelude::*;

verus! {

/// Number of workers for `items`: as many as requested, or as are available where none is
/// requested; never more than there are items, and at least one.
pub open spec fn workers(requested: int, available: int, items: int) -> int {
    let n = if requested == 0 {
        available
    } else {
        requested
    };
    let m = if n < items {
        n
    } else {
        items
    };
    if m < 1 {
        1
    } else {
        m
    }
}

/// Number of workers for `items`.
pub fn worker_count(requested: usize, available: usize, items: u64) -> (r: u64)
    ensures
        r == workers(requested as int, available as int, items as int),
        r >= 1,
{
    let n: u64 = if requested == 0 {
        available as u64
    } else {
        requested as u64
    };
    let m: u64 = if n < items {
        n
    } else {
        items
    };
    if m < 1 {
        1
    } else {
        m
    }
}

/// The parts are not empty, follow each other, and cover exactly the items below `count`.
pub open spec fn partition(parts: Seq<(u64, u64)>, count: int) -> bool {
    &&& forall|i: int| 0 <= i < parts.len() ==> (#[trigger] parts[i]).0 < parts[i].1
    &&& parts.len() > 0 ==> parts[0].0 == 0 && parts.last().1 == count
    &&& parts.len() == 0 ==> count == 0
    &&& forall|i: int| 0 < i < parts.len() ==> (#[trigger] parts[i]).0 == parts[i - 1].1
}

/// The parts of `chunk` items each from `start` on, the last one maybe smaller.
pub open spec fn parts_from(start: int, count: int, chunk: int) -> Seq<(u64, u64)>
    decreases count - start,
{
    if start >= count || chunk <= 0 {
        seq![]
    } else if count - start <= chunk {
        seq![(start as u64, count as u64)]
    } else {
        seq![(start as u64, (start + chunk) as u64)] + parts_from(start + chunk, count, chunk)
    }
}

/// The parts of `count` items for `n` workers.
pub open spec fn parts_of(count: int, n: int) -> Seq<(u64, u64)> {
    parts_from(0, count, (count + n - 1) / n)
}

/// Division with the result rounded up.
proof fn lemma_rounded_up(a: int, b: int)
    requires
        a >= 0,
        b > 0,
    ensures
        (a + b - 1) / b == (if a % b == 0 {
            a / b
        } else {
            a / b + 1
        }),
        a % b != 0 ==> a / b < a,
{
    let q = a / b;
    let r = a % b;
    lemma_fundamental_div_mod(a, b);
    lemma_mod_bound(a, b);
    if r == 0 {
        lemma_fundamental_div_mod_converse(a + b - 1, b, q, b - 1);
    } else {
        assert(b * (q + 1) == b * q + b) by (nonlinear_arith);
        lemma_fundamental_div_mod_converse(a + b - 1, b, q + 1, r - 1);
        assert(q < a) by (nonlinear_arith)
            requires
                a == b * q + r,
                0 < r < b,
                a >= 0,
        ;
    }
}

/// Split `count` items for `n` workers into parts of equal size, the last one maybe smaller.
pub fn split(count: u64, n: u64) -> (parts: Vec<(u64, u64)>)
    requires
        n > 0,
    ensures
        parts@ == parts_of(count as int, n as int),
        partition(parts@, count as int),
        parts@.len() <= n,
{
    proof {
        lemma_rounded_up(count as int, n as int);
    }
    let whole: u64 = count / n;
    let chunk: u64 = if count % n == 0 {
        whole
    } else {
        whole + 1
    };
    let mut parts: Vec<(u64, u64)> = Vec::new();
    let mut start: u64 = 0;
    proof {
        assert(count <= n * chunk && (count > 0 ==> chunk > 0)) by (nonlinear_arith)
            requires
                n > 0,
                chunk == (count + (n - 1)) / n as int,
        ;
    }
    assert(parts@ + parts_from(0, count as int, chunk as int) =~= parts_of(count as int, n as int));
    while start < count
        invariant
            count <= n * chunk,
            count > 0 ==> chunk > 0,
            chunk == (count + n - 1) / (n as int),
            start <= count,
            start < count ==> start == parts@.len() * chunk,
            parts@.len() <= n,
            forall|i: int| 0 <= i < parts@.len() ==> (#[trigger] parts@[i]).0 < parts@[i].1,
            parts@ + parts_from(start as int, count as int, chunk as int) == parts_of(
                count as int,
                n as int,
            ),
            parts@.len() > 0 ==> parts@[0].0 == 0 && parts@.last().1 == start,
            parts@.len() == 0 ==> start == 0,
            forall|i: int| 0 < i < parts@.len() ==> (#[trigger] parts@[i]).0 == parts@[i - 1].1,
        decreases count - start,
    {
        let end: u64 = if count - start <= chunk {
            count
        } else {
            start + chunk
        };
        let ghost k = parts@.len();
        proof {
            assert(k < n) by (nonlinear_arith)
                requires
                    k * chunk < count,
                    count <= n * chunk,
                    chunk > 0,
            ;
            assert((k + 1) * chunk == k * chunk + chunk) by (nonlinear_arith);
        }
        let ghost before = parts@;
        parts.push((start, end));
        proof {
            let rest = parts_from(end as int, count as int, chunk as int);
            assert(before + (seq![(start, end)] + rest) =~= parts@ + rest);
            assert(before + parts_from(start as int, count as int, chunk as int) =~= parts@ + rest);
        }
        start = end;
    }
    assert(parts@ + parts_from(start as int, count as int, chunk as int) =~= parts@);
    parts
}

} // verus!
