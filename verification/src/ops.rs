//! Operations on whole vectors.
use crate::distance::{norm_to, squared};
use crate::errors::{outcome, CompactError, ErrorModel, Result};
use crate::quant::rows;
use crate::scalar::{counted, difference, product, quotient, total, Arithmetic, Scalar};
use crate::scalar::zero;
use vstd::prelude::*;

pub mod laws;

verus! {

/// Whether three vectors have the same length.
pub open spec fn lengths_agree(a: nat, b: nat, out: nat) -> bool {
    a == b && a == out
}

/// `out` may be `a + b`, coordinate by coordinate.
pub open spec fn sums_of<A: Arithmetic>(
    x: &A,
    a: Seq<Scalar>,
    b: Seq<Scalar>,
    out: Seq<Scalar>,
) -> bool {
    forall|i: int| 0 <= i < a.len() ==> total(x, a[i], b[i], #[trigger] out[i])
}

/// `out` may be `a - b`, coordinate by coordinate.
pub open spec fn differences_of<A: Arithmetic>(
    x: &A,
    a: Seq<Scalar>,
    b: Seq<Scalar>,
    out: Seq<Scalar>,
) -> bool {
    forall|i: int| 0 <= i < a.len() ==> difference(x, a[i], b[i], #[trigger] out[i])
}

/// `out` may be `s * a`, coordinate by coordinate.
pub open spec fn multiples_of<A: Arithmetic>(
    x: &A,
    a: Seq<Scalar>,
    s: Scalar,
    out: Seq<Scalar>,
) -> bool {
    forall|i: int| 0 <= i < a.len() ==> product(x, a[i], s, #[trigger] out[i])
}

/// `out = a + b`, coordinate by coordinate.
pub fn add<A: Arithmetic>(a: &[Scalar], b: &[Scalar], out: &mut [Scalar], x: &A) -> (r: Result<()>)
    ensures
        final(out)@.len() == old(out)@.len(),
        match r {
            Ok(()) => lengths_agree(a@.len(), b@.len(), old(out)@.len()) && sums_of(
                x,
                a@,
                b@,
                final(out)@,
            ),
            Err(e) => !lengths_agree(a@.len(), b@.len(), old(out)@.len()) && final(out)@ == old(
                out,
            )@ && e@ == (ErrorModel::DimensionMismatch { expected: a@.len(), found: b@.len() }),
        },
{
    if a.len() != b.len() || a.len() != out.len() {
        return Err(CompactError::DimensionMismatch { expected: a.len(), found: b.len() });
    }
    let mut i: usize = 0;
    while i < a.len()
        invariant
            i <= a@.len() == b@.len(),
            a@.len() == out@.len() == old(out)@.len(),
            forall|k: int| 0 <= k < i ==> total(x, a@[k], b@[k], #[trigger] out@[k]),
        decreases a@.len() - i,
    {
        let v = x.add(a[i], b[i]);
        assert(total(x, a@[i as int], b@[i as int], v));
        out[i] = v;
        i += 1;
    }
    Ok(())
}

/// `out = a - b`, coordinate by coordinate.
pub fn sub<A: Arithmetic>(a: &[Scalar], b: &[Scalar], out: &mut [Scalar], x: &A) -> (r: Result<()>)
    ensures
        final(out)@.len() == old(out)@.len(),
        match r {
            Ok(()) => lengths_agree(a@.len(), b@.len(), old(out)@.len()) && differences_of(
                x,
                a@,
                b@,
                final(out)@,
            ),
            Err(e) => !lengths_agree(a@.len(), b@.len(), old(out)@.len()) && final(out)@ == old(
                out,
            )@ && e@ == (ErrorModel::DimensionMismatch { expected: a@.len(), found: b@.len() }),
        },
{
    if a.len() != b.len() || a.len() != out.len() {
        return Err(CompactError::DimensionMismatch { expected: a.len(), found: b.len() });
    }
    let mut i: usize = 0;
    while i < a.len()
        invariant
            i <= a@.len() == b@.len(),
            a@.len() == out@.len() == old(out)@.len(),
            forall|k: int| 0 <= k < i ==> difference(x, a@[k], b@[k], #[trigger] out@[k]),
        decreases a@.len() - i,
    {
        let v = x.sub(a[i], b[i]);
        assert(difference(x, a@[i as int], b@[i as int], v));
        out[i] = v;
        i += 1;
    }
    Ok(())
}

/// `out = s * a`, coordinate by coordinate.
pub fn scale<A: Arithmetic>(a: &[Scalar], s: Scalar, out: &mut [Scalar], x: &A) -> (r: Result<()>)
    ensures
        final(out)@.len() == old(out)@.len(),
        match r {
            Ok(()) => a@.len() == old(out)@.len() && multiples_of(x, a@, s, final(out)@),
            Err(e) => a@.len() != old(out)@.len() && final(out)@ == old(out)@ && e@
                == (ErrorModel::DimensionMismatch {
                expected: a@.len(),
                found: old(out)@.len(),
            }),
        },
{
    if a.len() != out.len() {
        return Err(CompactError::DimensionMismatch { expected: a.len(), found: out.len() });
    }
    let mut i: usize = 0;
    while i < a.len()
        invariant
            i <= a@.len(),
            a@.len() == out@.len() == old(out)@.len(),
            forall|k: int| 0 <= k < i ==> product(x, a@[k], s, #[trigger] out@[k]),
        decreases a@.len() - i,
    {
        let v = x.mul(a[i], s);
        assert(product(x, a@[i as int], s, v));
        out[i] = v;
        i += 1;
    }
    Ok(())
}

/// Euclidean length.
pub fn l2_norm<A: Arithmetic>(a: &[Scalar], x: &A) -> (v: Scalar)
    ensures
        norm_to(x, a@, v),
{
    crate::distance::l2_norm(a, x)
}

/// The complaint about the first vector at or after `from` that has not `dims` coordinates.
pub open spec fn lengths_fault(data: Seq<Seq<Scalar>>, dims: nat, from: nat) -> Option<ErrorModel>
    decreases data.len() - from,
{
    if from >= data.len() {
        None
    } else if data[from as int].len() != dims {
        Some(ErrorModel::DimensionMismatch { expected: dims, found: data[from as int].len() })
    } else {
        lengths_fault(data, dims, from + 1)
    }
}

/// What is wrong with data to be averaged, if anything.
pub open spec fn average_fault(data: Seq<Seq<Scalar>>, dims: nat) -> Option<ErrorModel> {
    if data.len() == 0 {
        Some(ErrorModel::EmptyDataset)
    } else {
        lengths_fault(data, dims, 0)
    }
}

/// Coordinate `d` summed over the first `n` vectors may come out as `s`.
pub open spec fn column_sums_to<A: Arithmetic>(
    x: &A,
    data: Seq<Seq<Scalar>>,
    d: int,
    n: nat,
    s: Scalar,
) -> bool
    decreases n,
{
    if n == 0 {
        s == zero()
    } else {
        exists|s0: Scalar|
            column_sums_to(x, data, d, (n - 1) as nat, s0) && #[trigger] total(
                x,
                s0,
                data[n - 1][d],
                s,
            )
    }
}

/// `s0` and the squared deviation of one value may add up to `s`.
pub open spec fn deviation_added<A: Arithmetic>(
    x: &A,
    v: Scalar,
    mean: Scalar,
    s0: Scalar,
    s: Scalar,
) -> bool {
    exists|p: Scalar| #[trigger] squared(x, v, mean, p) && total(x, s0, p, s)
}

/// The squared deviations of coordinate `d` from `mean`, summed over the first `n` vectors, may
/// come out as `s`.
pub open spec fn deviations_to<A: Arithmetic>(
    x: &A,
    data: Seq<Seq<Scalar>>,
    mean: Scalar,
    d: int,
    n: nat,
    s: Scalar,
) -> bool
    decreases n,
{
    if n == 0 {
        s == zero()
    } else {
        exists|s0: Scalar|
            deviations_to(x, data, mean, d, (n - 1) as nat, s0) && #[trigger] deviation_added(
                x,
                data[n - 1][d],
                mean,
                s0,
                s,
            )
    }
}

/// `s` divided by `n` may come out as `v`.
pub open spec fn averages_to<A: Arithmetic>(x: &A, s: Scalar, n: usize, v: Scalar) -> bool {
    exists|c: Scalar| #[trigger] counted(x, n, c) && quotient(x, s, c, v)
}

/// The mean of coordinate `d` may come out as `v`.
pub open spec fn mean_to<A: Arithmetic>(
    x: &A,
    data: Seq<Seq<Scalar>>,
    d: int,
    v: Scalar,
) -> bool {
    exists|s: Scalar| #[trigger]
        column_sums_to(x, data, d, data.len(), s) && averages_to(x, s, data.len() as usize, v)
}

/// The variance of coordinate `d` around `mean` may come out as `v`.
pub open spec fn variance_to<A: Arithmetic>(
    x: &A,
    data: Seq<Seq<Scalar>>,
    mean: Scalar,
    d: int,
    v: Scalar,
) -> bool {
    exists|s: Scalar| #[trigger]
        deviations_to(x, data, mean, d, data.len(), s) && averages_to(
            x,
            s,
            data.len() as usize,
            v,
        )
}

fn check_lengths(vectors: &[Vec<Scalar>], dims: usize) -> (r: Result<()>)
    ensures
        match average_fault(rows(vectors@), dims as nat) {
            Some(e) => outcome(r) == Err::<(), ErrorModel>(e),
            None => r is Ok && forall|i: int|
                0 <= i < vectors@.len() ==> (#[trigger] vectors@[i])@.len() == dims,
        },
{
    let ghost data = rows(vectors@);
    if vectors.len() == 0 {
        return Err(CompactError::EmptyDataset);
    }
    let mut i: usize = 0;
    while i < vectors.len()
        invariant
            data == rows(vectors@),
            data.len() > 0,
            i <= vectors@.len(),
            lengths_fault(data, dims as nat, 0) == lengths_fault(data, dims as nat, i as nat),
            forall|k: int| 0 <= k < i ==> (#[trigger] vectors@[k])@.len() == dims,
        decreases vectors@.len() - i,
    {
        assert(data[i as int] == vectors@[i as int]@);
        if vectors[i].len() != dims {
            return Err(
                CompactError::DimensionMismatch { expected: dims, found: vectors[i].len() },
            );
        }
        i += 1;
    }
    Ok(())
}

proof fn lemma_sum_step<A: Arithmetic>(
    x: &A,
    data: Seq<Seq<Scalar>>,
    d: int,
    n: nat,
    s0: Scalar,
    s: Scalar,
)
    requires
        n > 0,
        column_sums_to(x, data, d, (n - 1) as nat, s0),
        total(x, s0, data[n - 1][d], s),
    ensures
        column_sums_to(x, data, d, n, s),
{
}

proof fn lemma_deviation_step<A: Arithmetic>(
    x: &A,
    data: Seq<Seq<Scalar>>,
    mean: Scalar,
    d: int,
    n: nat,
    s0: Scalar,
    s: Scalar,
)
    requires
        n > 0,
        deviations_to(x, data, mean, d, (n - 1) as nat, s0),
        deviation_added(x, data[n - 1][d], mean, s0, s),
    ensures
        deviations_to(x, data, mean, d, n, s),
{
}

/// The mean of every coordinate.
pub fn mean<A: Arithmetic>(vectors: &[Vec<Scalar>], x: &A) -> (r: Result<Vec<Scalar>>)
    ensures
        ({
            let data = rows(vectors@);
            match r {
                Ok(out) => {
                    &&& average_fault(data, data[0].len()) is None
                    &&& out@.len() == data[0].len()
                    &&& forall|d: int|
                        0 <= d < out@.len() ==> mean_to(x, data, d, #[trigger] out@[d])
                },
                Err(e) => average_fault(data, data[0].len()) == Some(e@),
            }
        }),
{
    let ghost data = rows(vectors@);
    if vectors.len() == 0 {
        return Err(CompactError::EmptyDataset);
    }
    let dims: usize = vectors[0].len();
    assert(data[0].len() == dims);
    match check_lengths(vectors, dims) {
        Ok(()) => {},
        Err(e) => return Err(e),
    }
    let n: usize = vectors.len();
    let mut out: Vec<Scalar> = Vec::new();
    let mut d: usize = 0;
    while d < dims
        invariant
            data == rows(vectors@),
            n == vectors@.len(),
            d <= dims,
            out@.len() == d,
            forall|k: int| 0 <= k < vectors@.len() ==> (#[trigger] vectors@[k])@.len() == dims,
            forall|k: int| 0 <= k < d ==> mean_to(x, data, k, #[trigger] out@[k]),
        decreases dims - d,
    {
        let mut s: Scalar = zero();
        let mut i: usize = 0;
        while i < n
            invariant
                data == rows(vectors@),
                n == vectors@.len(),
                d < dims,
                i <= n,
                forall|k: int| 0 <= k < vectors@.len() ==> (#[trigger] vectors@[k])@.len() == dims,
                column_sums_to(x, data, d as int, i as nat, s),
            decreases n - i,
        {
            let next = x.add(s, vectors[i][d]);
            proof {
                assert(total(x, s, data[i as int][d as int], next));
                lemma_sum_step(x, data, d as int, (i + 1) as nat, s, next);
            }
            s = next;
            i += 1;
        }
        let c = x.of_count(n);
        let v = x.div(s, c);
        proof {
            assert(counted(x, n, c) && quotient(x, s, c, v));
            assert(averages_to(x, s, n, v));
            assert(data.len() == n as nat && data.len() as usize == n);
            assert(column_sums_to(x, data, d as int, data.len(), s));
            assert(mean_to(x, data, d as int, v));
        }
        out.push(v);
        d += 1;
    }
    Ok(out)
}

/// The variance of every coordinate around the given mean.
pub fn variance<A: Arithmetic>(vectors: &[Vec<Scalar>], mean: &[Scalar], x: &A) -> (r: Result<
    Vec<Scalar>,
>)
    ensures
        ({
            let data = rows(vectors@);
            match r {
                Ok(out) => {
                    &&& average_fault(data, mean@.len()) is None
                    &&& out@.len() == mean@.len()
                    &&& forall|d: int|
                        0 <= d < out@.len() ==> variance_to(
                            x,
                            data,
                            mean@[d],
                            d,
                            #[trigger] out@[d],
                        )
                },
                Err(e) => average_fault(data, mean@.len()) == Some(e@),
            }
        }),
{
    let ghost data = rows(vectors@);
    let dims: usize = mean.len();
    match check_lengths(vectors, dims) {
        Ok(()) => {},
        Err(e) => return Err(e),
    }
    let n: usize = vectors.len();
    let mut out: Vec<Scalar> = Vec::new();
    let mut d: usize = 0;
    while d < dims
        invariant
            data == rows(vectors@),
            n == vectors@.len(),
            d <= dims == mean@.len(),
            out@.len() == d,
            forall|k: int| 0 <= k < vectors@.len() ==> (#[trigger] vectors@[k])@.len() == dims,
            forall|k: int| 0 <= k < d ==> variance_to(x, data, mean@[k], k, #[trigger] out@[k]),
        decreases dims - d,
    {
        let m = mean[d];
        let mut s: Scalar = zero();
        let mut i: usize = 0;
        while i < n
            invariant
                data == rows(vectors@),
                n == vectors@.len(),
                d < dims,
                i <= n,
                forall|k: int| 0 <= k < vectors@.len() ==> (#[trigger] vectors@[k])@.len() == dims,
                deviations_to(x, data, m, d as int, i as nat, s),
            decreases n - i,
        {
            let v = vectors[i][d];
            let diff = x.sub(v, m);
            let p = x.mul(diff, diff);
            let next = x.add(s, p);
            proof {
                assert(difference(x, v, m, diff) && product(x, diff, diff, p));
                assert(squared(x, v, m, p) && total(x, s, p, next));
                assert(deviation_added(x, data[i as int][d as int], m, s, next));
                lemma_deviation_step(x, data, m, d as int, (i + 1) as nat, s, next);
            }
            s = next;
            i += 1;
        }
        let c = x.of_count(n);
        let v = x.div(s, c);
        proof {
            assert(counted(x, n, c) && quotient(x, s, c, v));
            assert(averages_to(x, s, n, v));
            assert(data.len() == n as nat && data.len() as usize == n);
            assert(deviations_to(x, data, m, d as int, data.len(), s));
            assert(variance_to(x, data, m, d as int, v));
        }
        out.push(v);
        d += 1;
    }
    Ok(out)
}

/// `v` held between `lo` and `hi`; `lo` wins where they are not in order.
pub open spec fn clamped(v: Scalar, lo: Scalar, hi: Scalar) -> Scalar {
    if v.below(lo) {
        lo
    } else if hi.below(v) {
        hi
    } else {
        v
    }
}

/// Hold every coordinate between `lo` and `hi`.
pub fn clamp(v: &mut [Scalar], lo: Scalar, hi: Scalar)
    ensures
        final(v)@.len() == old(v)@.len(),
        forall|i: int|
            0 <= i < old(v)@.len() ==> #[trigger] final(v)@[i] == clamped(old(v)@[i], lo, hi),
{
    let mut i: usize = 0;
    while i < v.len()
        invariant
            i <= v@.len() == old(v)@.len(),
            forall|k: int| 0 <= k < i ==> #[trigger] v@[k] == clamped(old(v)@[k], lo, hi),
            forall|k: int| i <= k < v@.len() ==> #[trigger] v@[k] == old(v)@[k],
        decreases v@.len() - i,
    {
        if v[i].lt(lo) {
            v[i] = lo;
        } else if hi.lt(v[i]) {
            v[i] = hi;
        }
        i += 1;
    }
}

/// Clamping to an ordered range gives numbers in the range, and clamping again changes nothing.
pub proof fn law_clamping(v: Scalar, lo: Scalar, hi: Scalar)
    requires
        !v.nan(),
        lo.at_most(hi),
    ensures
        lo.at_most(clamped(v, lo, hi)),
        clamped(v, lo, hi).at_most(hi),
        clamped(clamped(v, lo, hi), lo, hi) == clamped(v, lo, hi),
        lo.at_most(v) && v.at_most(hi) ==> clamped(v, lo, hi) == v,
        v.below(lo) ==> clamped(v, lo, hi) == lo,
        hi.below(v) ==> clamped(v, lo, hi) == hi,
{
}

} // verus!
