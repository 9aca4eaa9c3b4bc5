//! Moving vectors to bytes and back, between the bounds of a quantizer.
use crate::errors::{CompactError, ErrorModel, Result};
use crate::quant::{
    first_non_finite, lemma_first_non_finite, rows, Bounds, Quantizer,
};
use crate::scalar::{counted, difference, product, quotient, total, Arithmetic, Scalar};
use crate::scalar::{epsilon, millionth, one, top_bin, zero};
use vstd::prelude::*;

pub mod error;
pub mod laws;
pub mod values;

verus! {

// ---------------------------------------------------------------------------
// One coordinate
// ---------------------------------------------------------------------------

/// A range too small to divide by.
pub open spec fn flat(range: Scalar) -> bool {
    range.abs_spec().below(epsilon())
}

/// A number held between zero and one.
pub open spec fn unit_clamped(n: Scalar) -> Scalar {
    if n.below(zero()) {
        zero()
    } else if one().below(n) {
        one()
    } else {
        n
    }
}

/// The byte of `val` in a dimension of no extent, `away` being its distance from the bound.
pub open spec fn flat_bin(val: Scalar, min: Scalar, max: Scalar, away: Scalar) -> u8 {
    if !away.abs_spec().below(millionth()) && !val.below(min) && max.below(val) {
        255
    } else {
        0
    }
}

/// In a dimension of no extent, `val` may get the byte `q`.
pub open spec fn flat_to<A: Arithmetic>(
    x: &A,
    val: Scalar,
    min: Scalar,
    max: Scalar,
    q: u8,
) -> bool {
    exists|away: Scalar| #[trigger]
        difference(x, val, min, away) && q == flat_bin(val, min, max, away)
}

/// In a dimension of extent `range`, `val` may get the byte `q`: the whole part of 255 times
/// its relative position, clamped.
pub open spec fn linear_to<A: Arithmetic>(
    x: &A,
    val: Scalar,
    min: Scalar,
    range: Scalar,
    q: u8,
) -> bool {
    exists|away: Scalar, n: Scalar, s: Scalar| #[trigger]
        difference(x, val, min, away) && #[trigger] quotient(x, away, range, n)
            && #[trigger] product(x, unit_clamped(n), top_bin(), s) && q == s.byte_spec()
}

/// `val` may get the byte `q` between `min` and `max`.
pub open spec fn bins_to<A: Arithmetic>(
    x: &A,
    val: Scalar,
    min: Scalar,
    max: Scalar,
    q: u8,
) -> bool {
    exists|range: Scalar| #[trigger]
        difference(x, max, min, range) && if flat(range) {
            flat_to(x, val, min, max, q)
        } else {
            linear_to(x, val, min, range, q)
        }
}

/// As [`bins_to`], but zero in a dimension of no extent.
pub open spec fn packs_to<A: Arithmetic>(
    x: &A,
    val: Scalar,
    min: Scalar,
    max: Scalar,
    q: u8,
) -> bool {
    exists|range: Scalar| #[trigger]
        difference(x, max, min, range) && if flat(range) {
            q == 0
        } else {
            linear_to(x, val, min, range, q)
        }
}

/// `min + (byte / 255) * range` may come out as `v`.
pub open spec fn mixes_to<A: Arithmetic>(
    x: &A,
    min: Scalar,
    byte: u8,
    range: Scalar,
    v: Scalar,
) -> bool {
    exists|c: Scalar, share: Scalar, part: Scalar| #[trigger]
        counted(x, byte as usize, c) && #[trigger] quotient(x, c, top_bin(), share)
            && #[trigger] product(x, share, range, part) && total(x, min, part, v)
}

/// The byte `byte` may stand for `v` between `min` and `max`.
pub open spec fn stands_for<A: Arithmetic>(
    x: &A,
    byte: u8,
    min: Scalar,
    max: Scalar,
    v: Scalar,
) -> bool {
    exists|range: Scalar| #[trigger]
        difference(x, max, min, range) && if flat(range) {
            v == min
        } else {
            mixes_to(x, min, byte, range, v)
        }
}

fn linear_bin<A: Arithmetic>(x: &A, val: Scalar, min: Scalar, range: Scalar) -> (q: u8)
    ensures
        linear_to(x, val, min, range, q),
{
    let away = x.sub(val, min);
    let n = x.div(away, range);
    let clamped = if n.lt(zero()) {
        zero()
    } else if one().lt(n) {
        one()
    } else {
        n
    };
    let s = x.mul(clamped, top_bin());
    assert(difference(x, val, min, away) && quotient(x, away, range, n) && product(
        x,
        unit_clamped(n),
        top_bin(),
        s,
    ));
    s.to_byte()
}

fn bin_of<A: Arithmetic>(x: &A, val: Scalar, min: Scalar, max: Scalar) -> (q: u8)
    ensures
        bins_to(x, val, min, max, q),
{
    let range = x.sub(max, min);
    assert(difference(x, max, min, range));
    if range.abs().lt(epsilon()) {
        let away = x.sub(val, min);
        assert(difference(x, val, min, away));
        if !away.abs().lt(millionth()) && !val.lt(min) && max.lt(val) {
            255
        } else {
            0
        }
    } else {
        linear_bin(x, val, min, range)
    }
}

fn pack_of<A: Arithmetic>(x: &A, val: Scalar, min: Scalar, max: Scalar) -> (q: u8)
    ensures
        packs_to(x, val, min, max, q),
{
    let range = x.sub(max, min);
    assert(difference(x, max, min, range));
    if range.abs().lt(epsilon()) {
        0
    } else {
        linear_bin(x, val, min, range)
    }
}

fn value_of<A: Arithmetic>(x: &A, byte: u8, min: Scalar, max: Scalar) -> (v: Scalar)
    ensures
        stands_for(x, byte, min, max, v),
{
    let range = x.sub(max, min);
    assert(difference(x, max, min, range));
    if range.abs().lt(epsilon()) {
        min
    } else {
        let c = x.of_count(byte as usize);
        let share = x.div(c, top_bin());
        let part = x.mul(share, range);
        let v = x.add(min, part);
        assert(counted(x, byte as usize, c) && quotient(x, c, top_bin(), share) && product(
            x,
            share,
            range,
            part,
        ) && total(x, min, part, v));
        v
    }
}

// ---------------------------------------------------------------------------
// Whole vectors
// ---------------------------------------------------------------------------

/// The complaint about a vector to be quantized, if any.
pub open spec fn input_fault(b: Bounds, v: Seq<Scalar>) -> Option<ErrorModel> {
    let d = first_non_finite(v, 0);
    if v.len() != b.dims() {
        Some(ErrorModel::DimensionMismatch { expected: b.dims(), found: v.len() })
    } else if d < v.len() {
        Some(
            ErrorModel::QuantizationOverflow {
                dimension: d,
                value: v[d as int],
                min: b.min[d as int],
                max: b.max[d as int],
                reason: "non-finite input value"@,
            },
        )
    } else {
        None
    }
}

/// A vector without fault may be stored as `bytes`.
pub open spec fn quantizes_to<A: Arithmetic>(
    x: &A,
    b: Bounds,
    v: Seq<Scalar>,
    bytes: Seq<u8>,
) -> bool {
    &&& bytes.len() == b.dims()
    &&& forall|d: int|
        0 <= d < b.dims() ==> bins_to(x, v[d], b.min[d], b.max[d], #[trigger] bytes[d])
}

/// Quantizing a vector may come out as `r`.
pub open spec fn quantized<A: Arithmetic>(
    x: &A,
    b: Bounds,
    v: Seq<Scalar>,
    r: Result<Vec<u8>>,
) -> bool {
    match r {
        Ok(bytes) => input_fault(b, v) is None && quantizes_to(x, b, v, bytes@),
        Err(e) => input_fault(b, v) == Some(e@),
    }
}

/// Bytes may be read back as `v`.
pub open spec fn dequantizes_to<A: Arithmetic>(
    x: &A,
    b: Bounds,
    bytes: Seq<u8>,
    v: Seq<Scalar>,
) -> bool {
    &&& bytes.len() == b.dims()
    &&& v.len() == b.dims()
    &&& forall|d: int|
        0 <= d < b.dims() ==> (#[trigger] v[d]).finite() && stands_for(
            x,
            bytes[d],
            b.min[d],
            b.max[d],
            v[d],
        )
}

/// Byte `d` may stand for a finite number.
pub open spec fn readable<A: Arithmetic>(x: &A, b: Bounds, bytes: Seq<u8>, d: int) -> bool {
    exists|v: Scalar| #[trigger]
        stands_for(x, bytes[d], b.min[d], b.max[d], v) && v.finite()
}

/// Byte `d` is the first that may stand for a number that is not finite, and came out as `v`.
pub open spec fn unreadable_at<A: Arithmetic>(
    x: &A,
    b: Bounds,
    bytes: Seq<u8>,
    d: int,
    v: Scalar,
) -> bool {
    &&& 0 <= d < b.dims()
    &&& stands_for(x, bytes[d], b.min[d], b.max[d], v)
    &&& !v.finite()
    &&& forall|j: int| 0 <= j < d ==> #[trigger] readable(x, b, bytes, j)
}

/// Reading bytes back may fail with `e`.
pub open spec fn unreadable<A: Arithmetic>(
    x: &A,
    b: Bounds,
    bytes: Seq<u8>,
    e: ErrorModel,
) -> bool {
    exists|d: int, v: Scalar| #[trigger]
        unreadable_at(x, b, bytes, d, v) && e == (ErrorModel::QuantizationOverflow {
            dimension: d as nat,
            value: v,
            min: b.min[d],
            max: b.max[d],
            reason: "non-finite dequantized value"@,
        })
}

/// Reading bytes back fails with `e`: for their number, or for what they stand for.
pub open spec fn dequantizing_fails<A: Arithmetic>(
    x: &A,
    b: Bounds,
    bytes: Seq<u8>,
    e: ErrorModel,
) -> bool {
    if bytes.len() != b.dims() {
        e == (ErrorModel::DimensionMismatch { expected: b.dims(), found: bytes.len() })
    } else {
        unreadable(x, b, bytes, e)
    }
}

/// Reading bytes back may come out as `r`.
pub open spec fn dequantized<A: Arithmetic>(
    x: &A,
    b: Bounds,
    bytes: Seq<u8>,
    r: Result<Vec<Scalar>>,
) -> bool {
    match r {
        Ok(v) => dequantizes_to(x, b, bytes, v@),
        Err(e) => dequantizing_fails(x, b, bytes, e@),
    }
}

/// The contents of each byte vector.
pub open spec fn byte_rows(batch: Seq<Vec<u8>>) -> Seq<Seq<u8>> {
    Seq::new(batch.len(), |i: int| batch[i]@)
}

/// The complaint about the first bad vector of a batch at or after `from`, if any.
pub open spec fn batch_fault(b: Bounds, batch: Seq<Seq<Scalar>>, from: nat) -> Option<ErrorModel>
    decreases batch.len() - from,
{
    if from >= batch.len() {
        None
    } else if input_fault(b, batch[from as int]) is Some {
        input_fault(b, batch[from as int])
    } else {
        batch_fault(b, batch, from + 1)
    }
}

/// Entry `i` of a batch can be read back.
pub open spec fn entry_readable<A: Arithmetic>(
    x: &A,
    b: Bounds,
    batch: Seq<Seq<u8>>,
    i: int,
) -> bool {
    exists|v: Seq<Scalar>| #[trigger] dequantizes_to(x, b, batch[i], v)
}

/// Reading a batch back may fail with `e`, at entry `i`.
pub open spec fn batch_fails_at<A: Arithmetic>(
    x: &A,
    b: Bounds,
    batch: Seq<Seq<u8>>,
    i: int,
    e: ErrorModel,
) -> bool {
    &&& 0 <= i < batch.len()
    &&& dequantizing_fails(x, b, batch[i], e)
    &&& forall|j: int| 0 <= j < i ==> #[trigger] entry_readable(x, b, batch, j)
}

impl Quantizer {
    /// Store a vector as one byte per coordinate.
    pub fn quantize_vector<A: Arithmetic>(&self, vec: &[Scalar], x: &A) -> (r: Result<Vec<u8>>)
        ensures
            quantized(x, self@, vec@, r),
    {
        let dims: usize = self.dims();
        let ghost b = self@;
        if vec.len() != dims {
            return Err(CompactError::DimensionMismatch { expected: dims, found: vec.len() });
        }
        let mins = self.min_bounds();
        let maxs = self.max_bounds();
        let mut out: Vec<u8> = Vec::new();
        let mut d: usize = 0;
        while d < dims
            invariant
                b == self@,
                b.valid(),
                mins@ == b.min,
                maxs@ == b.max,
                d <= dims == b.dims() == vec@.len(),
                out@.len() == d,
                first_non_finite(vec@, 0) == first_non_finite(vec@, d as nat),
                forall|k: int|
                    0 <= k < d ==> bins_to(x, vec@[k], b.min[k], b.max[k], #[trigger] out@[k]),
            decreases dims - d,
        {
            let val = vec[d];
            let min = mins[d];
            let max = maxs[d];
            if !val.is_finite() {
                return Err(
                    CompactError::QuantizationOverflow {
                        dimension: d,
                        value: val,
                        min,
                        max,
                        reason: "non-finite input value",
                    },
                );
            }
            out.push(bin_of(x, val, min, max));
            d += 1;
        }
        Ok(out)
    }

    /// Read a vector back from its bytes.
    pub fn dequantize_vector<A: Arithmetic>(&self, raw: &[u8], x: &A) -> (r: Result<Vec<Scalar>>)
        ensures
            dequantized(x, self@, raw@, r),
    {
        let dims: usize = self.dims();
        let ghost b = self@;
        if raw.len() != dims {
            return Err(CompactError::DimensionMismatch { expected: dims, found: raw.len() });
        }
        let mins = self.min_bounds();
        let maxs = self.max_bounds();
        let mut out: Vec<Scalar> = Vec::new();
        let mut d: usize = 0;
        while d < dims
            invariant
                b == self@,
                b.valid(),
                mins@ == b.min,
                maxs@ == b.max,
                d <= dims == b.dims() == raw@.len(),
                out@.len() == d,
                forall|k: int|
                    0 <= k < d ==> (#[trigger] out@[k]).finite() && stands_for(
                        x,
                        raw@[k],
                        b.min[k],
                        b.max[k],
                        out@[k],
                    ),
                forall|k: int| 0 <= k < d ==> #[trigger] readable(x, b, raw@, k),
            decreases dims - d,
        {
            let v = value_of(x, raw[d], mins[d], maxs[d]);
            if !v.is_finite() {
                assert(unreadable_at(x, b, raw@, d as int, v));
                return Err(
                    CompactError::QuantizationOverflow {
                        dimension: d,
                        value: v,
                        min: mins[d],
                        max: maxs[d],
                        reason: "non-finite dequantized value",
                    },
                );
            }
            assert(readable(x, b, raw@, d as int));
            out.push(v);
            d += 1;
        }
        Ok(out)
    }

    /// Store a vector into a buffer of the caller. On a number that is not finite, the bytes
    /// before it are already stored.
    pub fn quantize_into<A: Arithmetic>(&self, vec: &[Scalar], out: &mut [u8], x: &A) -> (r: Result<
        (),
    >)
        ensures
            final(out)@.len() == old(out)@.len(),
            ({
                let b = self@;
                let d = first_non_finite(vec@, 0);
                if vec@.len() == b.dims() && old(out)@.len() != b.dims() {
                    &&& r is Err
                    &&& r->Err_0@ == (ErrorModel::DimensionMismatch {
                        expected: b.dims(),
                        found: old(out)@.len(),
                    })
                    &&& final(out)@ == old(out)@
                } else {
                    &&& r is Err <==> input_fault(b, vec@) is Some
                    &&& r is Err ==> input_fault(b, vec@) == Some(r->Err_0@)
                    &&& vec@.len() != b.dims() ==> final(out)@ == old(out)@
                    &&& vec@.len() == b.dims() ==> forall|k: int|
                        0 <= k < b.dims() ==> if k < d {
                            packs_to(x, vec@[k], b.min[k], b.max[k], #[trigger] final(out)@[k])
                        } else {
                            final(out)@[k] == old(out)@[k]
                        }
                }
            }),
    {
        let dims: usize = self.dims();
        let ghost b = self@;
        if vec.len() != dims {
            return Err(CompactError::DimensionMismatch { expected: dims, found: vec.len() });
        }
        if out.len() != dims {
            return Err(CompactError::DimensionMismatch { expected: dims, found: out.len() });
        }
        let mins = self.min_bounds();
        let maxs = self.max_bounds();
        let mut d: usize = 0;
        proof {
            lemma_first_non_finite(vec@, 0);
        }
        while d < dims
            invariant
                b == self@,
                b.valid(),
                mins@ == b.min,
                maxs@ == b.max,
                d <= dims == b.dims() == vec@.len(),
                out@.len() == old(out)@.len() == dims,
                d <= first_non_finite(vec@, 0) <= dims,
                first_non_finite(vec@, 0) < dims ==> !vec@[first_non_finite(
                    vec@,
                    0,
                ) as int].finite(),
                forall|k: int|
                    0 <= k < first_non_finite(vec@, 0) ==> (#[trigger] vec@[k]).finite(),
                forall|k: int|
                    0 <= k < d ==> packs_to(x, vec@[k], b.min[k], b.max[k], #[trigger] out@[k]),
                forall|k: int| d <= k < dims ==> #[trigger] out@[k] == old(out)@[k],
            decreases dims - d,
        {
            let val = vec[d];
            let min = mins[d];
            let max = maxs[d];
            if !val.is_finite() {
                return Err(
                    CompactError::QuantizationOverflow {
                        dimension: d,
                        value: val,
                        min,
                        max,
                        reason: "non-finite input value",
                    },
                );
            }
            out[d] = pack_of(x, val, min, max);
            d += 1;
        }
        Ok(())
    }

    /// Read a vector back into a buffer of the caller. On a number that is not finite, the
    /// coordinates before it are already stored.
    pub fn dequantize_into<A: Arithmetic>(&self, raw: &[u8], out: &mut [Scalar], x: &A) -> (r:
        Result<()>)
        ensures
            final(out)@.len() == old(out)@.len(),
            match r {
                Ok(()) => old(out)@.len() == self@.dims() && dequantizes_to(
                    x,
                    self@,
                    raw@,
                    final(out)@,
                ),
                Err(e) => if raw@.len() == self@.dims() && old(out)@.len() != self@.dims() {
                    e@ == (ErrorModel::DimensionMismatch {
                        expected: self@.dims(),
                        found: old(out)@.len(),
                    }) && final(out)@ == old(out)@
                } else {
                    dequantizing_fails(x, self@, raw@, e@)
                },
            },
            r is Err && raw@.len() != self@.dims() ==> final(out)@ == old(out)@,
            r matches Err(e) ==> (e@ matches ErrorModel::QuantizationOverflow {
                dimension,
                value: _,
                min: _,
                max: _,
                reason: _,
            } ==> forall|k: int|
                0 <= k < self@.dims() ==> if k < dimension {
                    (#[trigger] final(out)@[k]).finite() && stands_for(
                        x,
                        raw@[k],
                        self@.min[k],
                        self@.max[k],
                        final(out)@[k],
                    )
                } else {
                    final(out)@[k] == old(out)@[k]
                }),
    {
        let dims: usize = self.dims();
        let ghost b = self@;
        if raw.len() != dims {
            return Err(CompactError::DimensionMismatch { expected: dims, found: raw.len() });
        }
        if out.len() != dims {
            return Err(CompactError::DimensionMismatch { expected: dims, found: out.len() });
        }
        let mins = self.min_bounds();
        let maxs = self.max_bounds();
        let mut d: usize = 0;
        while d < dims
            invariant
                b == self@,
                b.valid(),
                mins@ == b.min,
                maxs@ == b.max,
                d <= dims == b.dims() == raw@.len(),
                out@.len() == old(out)@.len() == dims,
                forall|k: int|
                    0 <= k < d ==> (#[trigger] out@[k]).finite() && stands_for(
                        x,
                        raw@[k],
                        b.min[k],
                        b.max[k],
                        out@[k],
                    ),
                forall|k: int| d <= k < dims ==> #[trigger] out@[k] == old(out)@[k],
                forall|k: int| 0 <= k < d ==> #[trigger] readable(x, b, raw@, k),
            decreases dims - d,
        {
            let v = value_of(x, raw[d], mins[d], maxs[d]);
            if !v.is_finite() {
                assert(unreadable_at(x, b, raw@, d as int, v));
                return Err(
                    CompactError::QuantizationOverflow {
                        dimension: d,
                        value: v,
                        min: mins[d],
                        max: maxs[d],
                        reason: "non-finite dequantized value",
                    },
                );
            }
            assert(readable(x, b, raw@, d as int));
            out[d] = v;
            d += 1;
        }
        Ok(())
    }

    /// Store every vector of a batch, up to the first bad one.
    pub fn quantize_batch<A: Arithmetic>(&self, batch: &[Vec<Scalar>], x: &A) -> (r: Result<
        Vec<Vec<u8>>,
    >)
        ensures
            match r {
                Ok(out) => {
                    &&& batch_fault(self@, rows(batch@), 0) is None
                    &&& out@.len() == batch@.len()
                    &&& forall|i: int|
                        0 <= i < batch@.len() ==> quantizes_to(
                            x,
                            self@,
                            batch@[i]@,
                            (#[trigger] out@[i])@,
                        )
                },
                Err(e) => batch_fault(self@, rows(batch@), 0) == Some(e@),
            },
    {
        let ghost data = rows(batch@);
        let mut out: Vec<Vec<u8>> = Vec::new();
        let mut i: usize = 0;
        while i < batch.len()
            invariant
                data == rows(batch@),
                i <= batch@.len(),
                out@.len() == i,
                batch_fault(self@, data, 0) == batch_fault(self@, data, i as nat),
                forall|k: int|
                    0 <= k < i ==> quantizes_to(x, self@, batch@[k]@, (#[trigger] out@[k])@),
            decreases batch@.len() - i,
        {
            assert(data[i as int] == batch@[i as int]@);
            match self.quantize_vector(batch[i].as_slice(), x) {
                Ok(bytes) => out.push(bytes),
                Err(e) => return Err(e),
            }
            i += 1;
        }
        Ok(out)
    }

    /// Read every vector of a batch back, up to the first failure.
    pub fn dequantize_batch<A: Arithmetic>(&self, batch: &[Vec<u8>], x: &A) -> (r: Result<
        Vec<Vec<Scalar>>,
    >)
        ensures
            match r {
                Ok(out) => {
                    &&& out@.len() == batch@.len()
                    &&& forall|i: int|
                        0 <= i < batch@.len() ==> dequantizes_to(
                            x,
                            self@,
                            batch@[i]@,
                            (#[trigger] out@[i])@,
                        )
                },
                Err(e) => exists|i: int| #[trigger]
                    batch_fails_at(x, self@, byte_rows(batch@), i, e@),
            },
    {
        let ghost data = byte_rows(batch@);
        let mut out: Vec<Vec<Scalar>> = Vec::new();
        let mut i: usize = 0;
        while i < batch.len()
            invariant
                data == byte_rows(batch@),
                i <= batch@.len(),
                out@.len() == i,
                forall|k: int|
                    0 <= k < i ==> dequantizes_to(x, self@, batch@[k]@, (#[trigger] out@[k])@),
                forall|k: int| 0 <= k < i ==> #[trigger] entry_readable(x, self@, data, k),
            decreases batch@.len() - i,
        {
            assert(data[i as int] == batch@[i as int]@);
            match self.dequantize_vector(batch[i].as_slice(), x) {
                Ok(v) => {
                    assert(entry_readable(x, self@, data, i as int)) by {
                        assert(dequantizes_to(x, self@, data[i as int], v@));
                    }
                    out.push(v);
                },
                Err(e) => {
                    assert(batch_fails_at(x, self@, data, i as int, e@));
                    return Err(e);
                },
            }
            i += 1;
        }
        Ok(out)
    }
}

} // verus!
