//! Scalar quantization: one byte per coordinate, linear between per-dimension bounds.
use crate::errors::{outcome, CompactError, ErrorModel, HeaderFault, HeaderModel, Result};
use crate::scalar::{counted, difference, product, quotient, Arithmetic, Scalar};
use crate::scalar::{hundred, infinity, millionth, neg_infinity, one, zero};
use crate::text::{decimal, push_decimal};
use vstd::prelude::*;

pub mod clipping;
pub mod laws;

verus! {

/// How the data block stores coordinates.
#[derive(Debug, Clone, Copy, PartialEq, Eq, Hash, Structural)]
pub enum QuantType {
    RawF32,
    SQ8,
    ProductQ,
}

impl QuantType {
    /// Name of the variant.
    pub open spec fn name_text(self) -> Seq<char> {
        match self {
            QuantType::RawF32 => "RawF32"@,
            QuantType::SQ8 => "SQ8"@,
            QuantType::ProductQ => "ProductQ"@,
        }
    }

    /// Name of the variant.
    pub fn name(self) -> (s: &'static str)
        ensures
            s@ == self.name_text(),
    {
        match self {
            QuantType::RawF32 => "RawF32",
            QuantType::SQ8 => "SQ8",
            QuantType::ProductQ => "ProductQ",
        }
    }

    /// Tag stored on disk.
    pub open spec fn tag(self) -> u16 {
        match self {
            QuantType::RawF32 => 0,
            QuantType::SQ8 => 1,
            QuantType::ProductQ => 2,
        }
    }

    /// The type that a tag stands for.
    pub open spec fn of_tag(v: u16) -> std::result::Result<QuantType, ErrorModel> {
        if v == 0 {
            Ok(QuantType::RawF32)
        } else if v == 1 {
            Ok(QuantType::SQ8)
        } else if v == 2 {
            Ok(QuantType::ProductQ)
        } else {
            Err(ErrorModel::InvalidQuantType(v))
        }
    }

    /// Tag stored on disk.
    pub fn as_u16(self) -> (r: u16)
        ensures
            r == self.tag(),
    {
        match self {
            QuantType::RawF32 => 0,
            QuantType::SQ8 => 1,
            QuantType::ProductQ => 2,
        }
    }

    /// The type that a tag stands for.
    pub fn from_u16(v: u16) -> (r: Result<QuantType>)
        ensures
            outcome(r) == QuantType::of_tag(v),
    {
        match v {
            0 => Ok(QuantType::RawF32),
            1 => Ok(QuantType::SQ8),
            2 => Ok(QuantType::ProductQ),
            other => Err(CompactError::InvalidQuantType(other)),
        }
    }
}

/// How two vectors are compared.
#[derive(Debug, Clone, Copy, PartialEq, Eq, Hash, Structural)]
pub enum DistanceMetric {
    L2,
    Cosine,
    InnerProduct,
}

impl DistanceMetric {
    /// Name of the variant.
    pub open spec fn name_text(self) -> Seq<char> {
        match self {
            DistanceMetric::L2 => "L2"@,
            DistanceMetric::Cosine => "Cosine"@,
            DistanceMetric::InnerProduct => "InnerProduct"@,
        }
    }

    /// Name of the variant.
    pub fn name(self) -> (s: &'static str)
        ensures
            s@ == self.name_text(),
    {
        match self {
            DistanceMetric::L2 => "L2",
            DistanceMetric::Cosine => "Cosine",
            DistanceMetric::InnerProduct => "InnerProduct",
        }
    }

    /// Tag stored on disk.
    pub open spec fn tag(self) -> u16 {
        match self {
            DistanceMetric::L2 => 0,
            DistanceMetric::Cosine => 1,
            DistanceMetric::InnerProduct => 2,
        }
    }

    /// The metric that a tag stands for.
    pub open spec fn of_tag(v: u16) -> std::result::Result<DistanceMetric, ErrorModel> {
        if v == 0 {
            Ok(DistanceMetric::L2)
        } else if v == 1 {
            Ok(DistanceMetric::Cosine)
        } else if v == 2 {
            Ok(DistanceMetric::InnerProduct)
        } else {
            Err(ErrorModel::InvalidDistanceMetric(v))
        }
    }

    /// Tag stored on disk.
    pub fn as_u16(self) -> (r: u16)
        ensures
            r == self.tag(),
    {
        match self {
            DistanceMetric::L2 => 0,
            DistanceMetric::Cosine => 1,
            DistanceMetric::InnerProduct => 2,
        }
    }

    /// The metric that a tag stands for.
    pub fn from_u16(v: u16) -> (r: Result<DistanceMetric>)
        ensures
            outcome(r) == DistanceMetric::of_tag(v),
    {
        match v {
            0 => Ok(DistanceMetric::L2),
            1 => Ok(DistanceMetric::Cosine),
            2 => Ok(DistanceMetric::InnerProduct),
            other => Err(CompactError::InvalidDistanceMetric(other)),
        }
    }
}

/// Tags and their meanings are inverse to each other.
pub proof fn law_tags_roundtrip(q: QuantType, m: DistanceMetric, v: u16)
    ensures
        QuantType::of_tag(q.tag()) == Ok::<QuantType, ErrorModel>(q),
        DistanceMetric::of_tag(m.tag()) == Ok::<DistanceMetric, ErrorModel>(m),
        QuantType::of_tag(v) matches Ok(t) ==> t.tag() == v,
        DistanceMetric::of_tag(v) matches Ok(t) ==> t.tag() == v,
{
}

// ---------------------------------------------------------------------------
// Bounds and calibration
// ---------------------------------------------------------------------------

/// The lower and upper bound of every dimension.
pub ghost struct Bounds {
    pub min: Seq<Scalar>,
    pub max: Seq<Scalar>,
}

impl Bounds {
    pub open spec fn dims(self) -> nat {
        self.min.len()
    }

    /// At least one dimension, every bound finite, and no upper bound below its lower bound.
    pub open spec fn valid(self) -> bool {
        &&& self.min.len() == self.max.len()
        &&& self.min.len() > 0
        &&& forall|i: int|
            0 <= i < self.min.len() ==> (#[trigger] self.min[i]).finite() && self.max[i].finite()
                && !self.max[i].below(self.min[i])
    }
}

/// The complaint about the bounds of dimension `i`, if any.
pub open spec fn bound_fault(min: Scalar, max: Scalar, i: nat) -> Option<ErrorModel> {
    if !min.finite() || !max.finite() {
        Some(
            ErrorModel::QuantizationOverflow {
                dimension: i,
                value: if !min.finite() {
                    min
                } else {
                    max
                },
                min,
                max,
                reason: "non-finite bound"@,
            },
        )
    } else if max.below(min) {
        Some(ErrorModel::InvalidHeader(HeaderModel::InvertedBounds { dimension: i, min, max }))
    } else {
        None
    }
}

/// The complaint about the first bad dimension at or after `from`, if any.
pub open spec fn bounds_fault(b: Bounds, from: nat) -> Option<ErrorModel>
    decreases b.min.len() - from,
{
    if from >= b.min.len() {
        None
    } else if bound_fault(b.min[from as int], b.max[from as int], from) is Some {
        bound_fault(b.min[from as int], b.max[from as int], from)
    } else {
        bounds_fault(b, from + 1)
    }
}

/// What becomes of explicit bounds: accepted as they are, or the first complaint.
pub open spec fn bounds_outcome(b: Bounds) -> std::result::Result<Bounds, ErrorModel> {
    if b.min.len() != b.max.len() {
        Err(ErrorModel::DimensionMismatch { expected: b.min.len(), found: b.max.len() })
    } else if b.min.len() == 0 {
        Err(ErrorModel::InvalidHeader(HeaderModel::Text("quantizer dimensions must be > 0"@)))
    } else if b.min.len() > 65535 {
        Err(
            ErrorModel::InvalidHeader(
                HeaderModel::Text(
                    "dimensions "@ + decimal(b.min.len()) + " exceeds u16::MAX (65535)"@,
                ),
            ),
        )
    } else {
        match bounds_fault(b, 0) {
            Some(e) => Err(e),
            None => Ok(b),
        }
    }
}

/// The bounds of dimension `i` are finite and in order.
pub open spec fn bound_ok(b: Bounds, i: int) -> bool {
    b.min[i].finite() && b.max[i].finite() && !b.max[i].below(b.min[i])
}

proof fn lemma_bounds_fault(b: Bounds, from: nat)
    requires
        b.min.len() == b.max.len(),
        from <= b.min.len(),
    ensures
        bounds_fault(b, from) is None <==> forall|i: int|
            from <= i < b.min.len() ==> #[trigger] bound_ok(b, i),
    decreases b.min.len() - from,
{
    if from < b.min.len() {
        lemma_bounds_fault(b, from + 1);
        assert(bound_fault(b.min[from as int], b.max[from as int], from) is None <==> bound_ok(
            b,
            from as int,
        ));
    }
}

/// Bounds are accepted exactly where they are valid and have at most 65535 dimensions.
pub proof fn law_bounds_accepted(b: Bounds)
    ensures
        bounds_outcome(b) is Ok <==> b.valid() && b.dims() <= 65535,
{
    if b.min.len() == b.max.len() {
        lemma_bounds_fault(b, 0);
        if b.valid() {
            assert forall|i: int| 0 <= i < b.min.len() implies #[trigger] bound_ok(b, i) by {
                assert(b.min[i].finite());
            }
        }
        if bounds_fault(b, 0) is None && b.min.len() > 0 {
            assert forall|i: int| 0 <= i < b.min.len() implies (#[trigger] b.min[i]).finite()
                && b.max[i].finite() && !b.max[i].below(b.min[i]) by {
                assert(bound_ok(b, i));
            }
        }
    }
}

/// The coordinates of each vector.
pub open spec fn rows(vectors: Seq<Vec<Scalar>>) -> Seq<Seq<Scalar>> {
    Seq::new(vectors.len(), |i: int| vectors[i]@)
}

/// The coordinates of each borrowed vector.
pub open spec fn slice_rows(vectors: Seq<&[Scalar]>) -> Seq<Seq<Scalar>> {
    Seq::new(vectors.len(), |i: int| vectors[i]@)
}

/// The first position at or after `from` whose number is not finite; the length if none.
pub open spec fn first_non_finite(v: Seq<Scalar>, from: nat) -> nat
    decreases v.len() - from,
{
    if from >= v.len() {
        v.len()
    } else if !v[from as int].finite() {
        from
    } else {
        first_non_finite(v, from + 1)
    }
}

/// The position found is the first of its kind.
pub proof fn lemma_first_non_finite(v: Seq<Scalar>, from: nat)
    requires
        from <= v.len(),
    ensures
        from <= first_non_finite(v, from) <= v.len(),
        forall|i: int| from <= i < first_non_finite(v, from) ==> (#[trigger] v[i]).finite(),
        first_non_finite(v, from) < v.len() ==> !v[first_non_finite(v, from) as int].finite(),
    decreases v.len() - from,
{
    if from < v.len() && v[from as int].finite() {
        lemma_first_non_finite(v, from + 1);
    }
}

/// The complaint about one calibration vector, if any.
pub open spec fn row_fault(row: Seq<Scalar>, dims: nat) -> Option<ErrorModel> {
    let d = first_non_finite(row, 0);
    if row.len() != dims {
        Some(ErrorModel::DimensionMismatch { expected: dims, found: row.len() })
    } else if d < row.len() {
        Some(
            ErrorModel::QuantizationOverflow {
                dimension: d,
                value: row[d as int],
                min: neg_infinity(),
                max: infinity(),
                reason: "non-finite value during calibration"@,
            },
        )
    } else {
        None
    }
}

/// The complaint about the first bad calibration vector at or after `from`, if any.
pub open spec fn rows_fault(data: Seq<Seq<Scalar>>, dims: nat, from: nat) -> Option<ErrorModel>
    decreases data.len() - from,
{
    if from >= data.len() {
        None
    } else if row_fault(data[from as int], dims) is Some {
        row_fault(data[from as int], dims)
    } else {
        rows_fault(data, dims, from + 1)
    }
}

/// Every vector has `dims` finite coordinates.
pub open spec fn uniform(data: Seq<Seq<Scalar>>, dims: nat) -> bool {
    forall|i: int|
        0 <= i < data.len() ==> (#[trigger] data[i]).len() == dims && forall|d: int|
            0 <= d < dims ==> (#[trigger] data[i][d]).finite()
}

proof fn lemma_rows_fault(data: Seq<Seq<Scalar>>, dims: nat, from: nat)
    requires
        from <= data.len(),
    ensures
        rows_fault(data, dims, from) is None ==> forall|i: int|
            from <= i < data.len() ==> (#[trigger] data[i]).len() == dims && forall|d: int|
                0 <= d < dims ==> (#[trigger] data[i][d]).finite(),
    decreases data.len() - from,
{
    if from < data.len() {
        lemma_first_non_finite(data[from as int], 0);
        lemma_rows_fault(data, dims, from + 1);
        if rows_fault(data, dims, from) is None {
            assert forall|i: int| from <= i < data.len() implies (#[trigger] data[i]).len() == dims
                && forall|d: int| 0 <= d < dims ==> (#[trigger] data[i][d]).finite() by {
                if i > from {
                    assert(from + 1 <= i);
                }
            }
        }
    }
}

/// The smallest of some numbers, the earliest among equals; infinity if there are none.
pub open spec fn lowest(s: Seq<Scalar>) -> Scalar
    decreases s.len(),
{
    if s.len() == 0 {
        infinity()
    } else if s.last().below(lowest(s.drop_last())) {
        s.last()
    } else {
        lowest(s.drop_last())
    }
}

/// The largest of some numbers, the earliest among equals; negative infinity if there are none.
pub open spec fn highest(s: Seq<Scalar>) -> Scalar
    decreases s.len(),
{
    if s.len() == 0 {
        neg_infinity()
    } else if highest(s.drop_last()).below(s.last()) {
        s.last()
    } else {
        highest(s.drop_last())
    }
}

/// Coordinate `d` of every vector.
pub open spec fn column(data: Seq<Seq<Scalar>>, d: int) -> Seq<Scalar> {
    Seq::new(data.len(), |i: int| data[i][d])
}

/// The smallest and largest value of each of `dims` dimensions.
pub open spec fn extents(data: Seq<Seq<Scalar>>, dims: nat) -> Bounds {
    Bounds {
        min: Seq::new(dims, |d: int| lowest(column(data, d))),
        max: Seq::new(dims, |d: int| highest(column(data, d))),
    }
}

/// Calibration: the extents of the vectors, or the first complaint about them; `no_dims` is
/// the complaint about vectors without coordinates.
pub open spec fn calibrated(data: Seq<Seq<Scalar>>, no_dims: Seq<char>) -> std::result::Result<
    Bounds,
    ErrorModel,
> {
    if data.len() == 0 {
        Err(ErrorModel::EmptyDataset)
    } else if data[0].len() == 0 {
        Err(ErrorModel::InvalidHeader(HeaderModel::Text(no_dims)))
    } else if data[0].len() > 65535 {
        Err(
            ErrorModel::InvalidHeader(
                HeaderModel::Text("dimensions "@ + decimal(data[0].len()) + " exceeds u16::MAX"@),
            ),
        )
    } else {
        match rows_fault(data, data[0].len(), 0) {
            Some(e) => Err(e),
            None => Ok(extents(data, data[0].len())),
        }
    }
}

/// The smallest and largest of finite numbers are among them, and enclose them all.
pub proof fn law_extremes(s: Seq<Scalar>)
    requires
        s.len() > 0,
        forall|i: int| 0 <= i < s.len() ==> (#[trigger] s[i]).finite(),
    ensures
        s.contains(lowest(s)),
        s.contains(highest(s)),
        forall|i: int|
            0 <= i < s.len() ==> lowest(s).at_most(#[trigger] s[i]) && s[i].at_most(highest(s)),
    decreases s.len(),
{
    let t = s.drop_last();
    assert(s.last() == s[s.len() - 1]);
    if t.len() > 0 {
        assert(forall|i: int| 0 <= i < t.len() ==> #[trigger] t[i] == s[i]);
        law_extremes(t);
        let i = choose|i: int| 0 <= i < t.len() && t[i] == lowest(t);
        let j = choose|j: int| 0 <= j < t.len() && t[j] == highest(t);
        assert(s[i] == lowest(t) && s[j] == highest(t));
        assert forall|k: int| 0 <= k < s.len() implies lowest(s).at_most(#[trigger] s[k])
            && s[k].at_most(highest(s)) by {
            if k < t.len() {
                assert(t[k] == s[k]);
            }
        }
    } else {
        assert(lowest(t) == infinity());
        assert(highest(t) == neg_infinity());
    }
}

/// Calibrated bounds are valid, and every coordinate of every vector lies between them.
pub proof fn law_calibration_encloses(data: Seq<Seq<Scalar>>, no_dims: Seq<char>)
    ensures
        calibrated(data, no_dims) matches Ok(b) ==> {
            &&& b.valid()
            &&& b.dims() == data[0].len()
            &&& b.dims() <= 65535
            &&& uniform(data, b.dims())
            &&& forall|i: int, d: int|
                0 <= i < data.len() && 0 <= d < b.dims() ==> b.min[d].at_most(
                    #[trigger] data[i][d],
                ) && data[i][d].at_most(b.max[d])
        },
{
    if calibrated(data, no_dims) is Ok {
        let dims = data[0].len();
        let b = extents(data, dims);
        lemma_rows_fault(data, dims, 0);
        assert(uniform(data, dims));
        assert forall|d: int| 0 <= d < dims implies (#[trigger] b.min[d]).finite()
            && b.max[d].finite() && !b.max[d].below(b.min[d]) by {
            let c = column(data, d);
            assert forall|i: int| 0 <= i < c.len() implies (#[trigger] c[i]).finite() by {
                assert(data[i][d].finite());
            }
            law_extremes(c);
            assert(lowest(c).at_most(c[0]));
        }
        assert forall|i: int, d: int| 0 <= i < data.len() && 0 <= d < dims implies b.min[d].at_most(
            #[trigger] data[i][d],
        ) && data[i][d].at_most(b.max[d]) by {
            let c = column(data, d);
            assert forall|k: int| 0 <= k < c.len() implies (#[trigger] c[k]).finite() by {
                assert(data[k][d].finite());
            }
            law_extremes(c);
            assert(c[i] == data[i][d]);
        }
    }
}

/// All vectors one after another.
pub open spec fn joined(data: Seq<Seq<Scalar>>) -> Seq<Scalar>
    decreases data.len(),
{
    if data.len() == 0 {
        seq![]
    } else {
        joined(data.drop_last()) + data.last()
    }
}

/// The complaint about the first bad vector at or after `from`, if any. A number that is not
/// finite is reported with the extremes of everything before it.
pub open spec fn global_fault(data: Seq<Seq<Scalar>>, dims: nat, from: nat) -> Option<ErrorModel>
    decreases data.len() - from,
{
    if from >= data.len() {
        None
    } else {
        let row = data[from as int];
        let d = first_non_finite(row, 0);
        let before = joined(data.take(from as int)) + row.take(d as int);
        if row.len() != dims {
            Some(ErrorModel::DimensionMismatch { expected: dims, found: row.len() })
        } else if d < row.len() {
            Some(
                ErrorModel::QuantizationOverflow {
                    dimension: 0,
                    value: row[d as int],
                    min: lowest(before),
                    max: highest(before),
                    reason: "non-finite in global calibrate"@,
                },
            )
        } else {
            global_fault(data, dims, from + 1)
        }
    }
}

/// Calibration with one range for all dimensions.
pub open spec fn globally_calibrated(data: Seq<Seq<Scalar>>) -> std::result::Result<
    Bounds,
    ErrorModel,
> {
    if data.len() == 0 {
        Err(ErrorModel::EmptyDataset)
    } else if data[0].len() == 0 {
        Err(ErrorModel::InvalidHeader(HeaderModel::Text("global calibrate: dims must be > 0"@)))
    } else {
        match global_fault(data, data[0].len(), 0) {
            Some(e) => Err(e),
            None => Ok(
                Bounds {
                    min: Seq::new(data[0].len(), |d: int| lowest(joined(data))),
                    max: Seq::new(data[0].len(), |d: int| highest(joined(data))),
                },
            ),
        }
    }
}

/// `x` put into ascending numbers, after its equals.
pub open spec fn inserted(s: Seq<Scalar>, x: Scalar) -> Seq<Scalar>
    decreases s.len(),
{
    if s.len() == 0 || !x.below(s.last()) {
        s.push(x)
    } else {
        inserted(s.drop_last(), x).push(s.last())
    }
}

/// The numbers in ascending order, equals in their given order.
pub open spec fn ascending(s: Seq<Scalar>) -> Seq<Scalar>
    decreases s.len(),
{
    if s.len() == 0 {
        s
    } else {
        inserted(ascending(s.drop_last()), s.last())
    }
}

proof fn lemma_inserted_at(s: Seq<Scalar>, x: Scalar, p: int)
    requires
        0 <= p <= s.len(),
        p > 0 ==> !x.below(s[p - 1]),
        forall|i: int| p <= i < s.len() ==> x.below(#[trigger] s[i]),
    ensures
        inserted(s, x) == s.insert(p, x),
    decreases s.len(),
{
    if p < s.len() {
        assert(x.below(s.last()));
        lemma_inserted_at(s.drop_last(), x, p);
        assert(inserted(s, x) =~= s.insert(p, x));
    } else {
        assert(inserted(s, x) =~= s.insert(p, x));
    }
}

proof fn lemma_inserted(s: Seq<Scalar>, x: Scalar)
    requires
        x.finite(),
        forall|i: int| 0 <= i < s.len() ==> (#[trigger] s[i]).finite(),
        forall|i: int, j: int| 0 <= i <= j < s.len() ==> s[i].key() <= s[j].key(),
    ensures
        inserted(s, x).len() == s.len() + 1,
        inserted(s, x).to_multiset() == s.to_multiset().insert(x),
        forall|i: int| 0 <= i < inserted(s, x).len() ==> (#[trigger] inserted(s, x)[i]).finite(),
        forall|i: int, j: int|
            0 <= i <= j < inserted(s, x).len() ==> inserted(s, x)[i].key() <= inserted(
                s,
                x,
            )[j].key(),
        forall|i: int|
            0 <= i < inserted(s, x).len() ==> (#[trigger] inserted(s, x)[i]) == x || s.contains(
                inserted(s, x)[i],
            ),
    decreases s.len(),
{
    let r = inserted(s, x);
    broadcast use vstd::seq_lib::group_to_multiset_ensures;

    if s.len() == 0 || !x.below(s.last()) {
        assert forall|i: int| 0 <= i < r.len() implies (#[trigger] r[i]) == x || s.contains(
            r[i],
        ) by {
            if i < s.len() {
                assert(s[i] == r[i]);
            }
        }
    } else {
        let t = s.drop_last();
        lemma_inserted(t, x);
        let u = inserted(t, x);
        assert(s =~= t.push(s.last()));
        assert(r =~= u.push(s.last()));
        assert(r.to_multiset() =~= s.to_multiset().insert(x));
        assert forall|i: int| 0 <= i < r.len() implies (#[trigger] r[i]) == x || s.contains(
            r[i],
        ) by {
            if i < u.len() {
                assert(u[i] == r[i]);
                if u[i] != x {
                    let k = choose|k: int| 0 <= k < t.len() && t[k] == u[i];
                    assert(s[k] == r[i]);
                }
            } else {
                assert(s[s.len() - 1] == r[i]);
            }
        }
        assert forall|i: int, j: int| 0 <= i <= j < r.len() implies r[i].key() <= r[j].key() by {
            if j < u.len() {
                assert(r[i] == u[i] && r[j] == u[j]);
            } else if i < u.len() {
                assert(r[i] == u[i]);
                if u[i] != x {
                    let k = choose|k: int| 0 <= k < t.len() && t[k] == u[i];
                    assert(s[k] == t[k]);
                    assert(s[k].key() <= s[s.len() - 1].key());
                }
            }
        }
    }
}

/// Sorting finite numbers keeps them all, and puts them into ascending order.
pub proof fn law_ascending(s: Seq<Scalar>)
    requires
        forall|i: int| 0 <= i < s.len() ==> (#[trigger] s[i]).finite(),
    ensures
        ascending(s).len() == s.len(),
        ascending(s).to_multiset() == s.to_multiset(),
        forall|i: int| 0 <= i < s.len() ==> (#[trigger] ascending(s)[i]).finite(),
        forall|i: int, j: int|
            0 <= i <= j < s.len() ==> ascending(s)[i].key() <= ascending(s)[j].key(),
    decreases s.len(),
{
    broadcast use vstd::seq_lib::group_to_multiset_ensures;

    if s.len() > 0 {
        law_ascending(s.drop_last());
        lemma_inserted(ascending(s.drop_last()), s.last());
        assert(s =~= s.drop_last().push(s.last()));
    }
}

/// The bounds of one dimension between two ranks of its sorted values, or the calibrated
/// bounds where that range is too small.
pub open spec fn clipped<A: Arithmetic>(
    x: &A,
    lo: Scalar,
    hi: Scalar,
    base: (Scalar, Scalar),
    r: (Scalar, Scalar),
) -> bool {
    exists|range: Scalar| #[trigger]
        difference(x, hi, lo, range) && r == (if range.abs_spec().below(millionth()) {
            base
        } else {
            (lo, hi)
        })
}

/// The position of a percentile among `count` numbers in ascending order may come out as `r`:
/// `(percentile / 100) * (count - 1)`, rounded down or with `up` rounded up.
pub open spec fn ranks_to<A: Arithmetic>(
    x: &A,
    percentile: Scalar,
    count: nat,
    up: bool,
    r: nat,
) -> bool {
    exists|share: Scalar, c: Scalar, last: Scalar, at: Scalar| #[trigger]
        quotient(x, percentile, hundred(), share) && #[trigger] counted(x, count as usize, c)
            && #[trigger] difference(x, c, one(), last) && #[trigger] product(x, share, last, at)
            && r == at.index_spec((count - 1) as nat, up)
}

/// `b` clips every dimension to the ranks `low` and `high`, counted from zero.
pub open spec fn clipped_to<A: Arithmetic>(
    x: &A,
    data: Seq<Seq<Scalar>>,
    low: nat,
    high: nat,
    b: Bounds,
) -> bool {
    let dims = data[0].len();
    let base = extents(data, dims);
    &&& b.min.len() == dims
    &&& b.max.len() == dims
    &&& forall|d: int|
        #![trigger b.min[d]]
        0 <= d < dims ==> clipped(
            x,
            ascending(column(data, d))[low as int],
            ascending(column(data, d))[high as int],
            (base.min[d], base.max[d]),
            (b.min[d], b.max[d]),
        )
}

/// Percentiles between zero and one hundred, in ascending order.
pub open spec fn percentiles_ok(low: Scalar, high: Scalar) -> bool {
    &&& zero().at_most(low) && low.at_most(hundred())
    &&& zero().at_most(high) && high.at_most(hundred())
    &&& !high.at_most(low)
}

/// Calibration between two percentiles may come out as `r`, given that the data calibrates.
pub open spec fn clips_to<A: Arithmetic>(
    x: &A,
    data: Seq<Seq<Scalar>>,
    low: Scalar,
    high: Scalar,
    r: std::result::Result<Bounds, ErrorModel>,
) -> bool {
    exists|i: nat, j: nat, b: Bounds|
        ranks_to(x, low, data.len(), false, i) && ranks_to(x, high, data.len(), true, j)
            && #[trigger] clipped_to(x, data, i, j, b) && r == bounds_outcome(b)
}

/// Per-dimension bounds. The view holds them.
pub struct Quantizer {
    min_bounds: Vec<Scalar>,
    max_bounds: Vec<Scalar>,
    dims: usize,
}

impl View for Quantizer {
    type V = Bounds;

    closed spec fn view(&self) -> Bounds {
        Bounds { min: self.min_bounds@, max: self.max_bounds@ }
    }
}

/// Outcome of making a quantizer, over its bounds.
pub open spec fn made(r: Result<Quantizer>) -> std::result::Result<Bounds, ErrorModel> {
    match r {
        Ok(q) => Ok(q@),
        Err(e) => Err(e@),
    }
}

/// The bounds from position `from` on are acceptable, or the first complaint about them.
fn check_bounds(min: &[Scalar], max: &[Scalar]) -> (r: Result<()>)
    requires
        min@.len() == max@.len(),
    ensures
        match bounds_fault(Bounds { min: min@, max: max@ }, 0) {
            Some(e) => outcome(r) == Err::<(), ErrorModel>(e),
            None => r is Ok,
        },
{
    let ghost b = Bounds { min: min@, max: max@ };
    let mut i: usize = 0;
    while i < min.len()
        invariant
            b == (Bounds { min: min@, max: max@ }),
            min@.len() == max@.len(),
            i <= min@.len(),
            bounds_fault(b, 0) == bounds_fault(b, i as nat),
        decreases min@.len() - i,
    {
        let lo = min[i];
        let hi = max[i];
        if !lo.is_finite() || !hi.is_finite() {
            return Err(
                CompactError::QuantizationOverflow {
                    dimension: i,
                    value: if !lo.is_finite() {
                        lo
                    } else {
                        hi
                    },
                    min: lo,
                    max: hi,
                    reason: "non-finite bound",
                },
            );
        }
        if hi.lt(lo) {
            return Err(
                CompactError::InvalidHeader(
                    HeaderFault::InvertedBounds { dimension: i, min: lo, max: hi },
                ),
            );
        }
        i += 1;
    }
    Ok(())
}

/// Complaint about a dimensionality beyond what a header can store.
fn too_many_dims(dims: usize, tail: &str) -> (e: CompactError)
    ensures
        e@ == ErrorModel::InvalidHeader(
            HeaderModel::Text("dimensions "@ + decimal(dims as nat) + tail@),
        ),
{
    let mut s: String = "dimensions ".to_owned();
    push_decimal(&mut s, dims as u64);
    s.append(tail);
    CompactError::InvalidHeader(HeaderFault::Text(s))
}

/// Check one calibration vector.
fn check_row(row: &[Scalar], dims: usize) -> (r: Result<()>)
    ensures
        match row_fault(row@, dims as nat) {
            Some(e) => outcome(r) == Err::<(), ErrorModel>(e),
            None => r is Ok,
        },
{
    if row.len() != dims {
        return Err(CompactError::DimensionMismatch { expected: dims, found: row.len() });
    }
    let mut d: usize = 0;
    while d < row.len()
        invariant
            d <= row@.len() == dims,
            first_non_finite(row@, 0) == first_non_finite(row@, d as nat),
        decreases row@.len() - d,
    {
        if !row[d].is_finite() {
            return Err(
                CompactError::QuantizationOverflow {
                    dimension: d,
                    value: row[d],
                    min: neg_infinity(),
                    max: infinity(),
                    reason: "non-finite value during calibration",
                },
            );
        }
        d += 1;
    }
    Ok(())
}

/// The smallest number of a column, among vectors that all have it.
fn column_lowest(vectors: &[&[Scalar]], d: usize) -> (r: Scalar)
    requires
        forall|i: int| 0 <= i < vectors@.len() ==> d < (#[trigger] vectors@[i])@.len(),
    ensures
        r == lowest(column(slice_rows(vectors@), d as int)),
{
    let ghost c = column(slice_rows(vectors@), d as int);
    let mut low: Scalar = infinity();
    let mut i: usize = 0;
    while i < vectors.len()
        invariant
            c == column(slice_rows(vectors@), d as int),
            forall|k: int| 0 <= k < vectors@.len() ==> d < (#[trigger] vectors@[k])@.len(),
            i <= vectors@.len(),
            low == lowest(c.take(i as int)),
        decreases vectors@.len() - i,
    {
        let v = vectors[i][d];
        proof {
            assert(c.take(i + 1).drop_last() =~= c.take(i as int));
            assert(c.take(i + 1).last() == v);
        }
        if v.lt(low) {
            low = v;
        }
        i += 1;
    }
    assert(c.take(i as int) =~= c);
    low
}

/// The largest number of a column, among vectors that all have it.
fn column_highest(vectors: &[&[Scalar]], d: usize) -> (r: Scalar)
    requires
        forall|i: int| 0 <= i < vectors@.len() ==> d < (#[trigger] vectors@[i])@.len(),
    ensures
        r == highest(column(slice_rows(vectors@), d as int)),
{
    let ghost c = column(slice_rows(vectors@), d as int);
    let mut high: Scalar = neg_infinity();
    let mut i: usize = 0;
    while i < vectors.len()
        invariant
            c == column(slice_rows(vectors@), d as int),
            forall|k: int| 0 <= k < vectors@.len() ==> d < (#[trigger] vectors@[k])@.len(),
            i <= vectors@.len(),
            high == highest(c.take(i as int)),
        decreases vectors@.len() - i,
    {
        let v = vectors[i][d];
        proof {
            assert(c.take(i + 1).drop_last() =~= c.take(i as int));
            assert(c.take(i + 1).last() == v);
        }
        if high.lt(v) {
            high = v;
        }
        i += 1;
    }
    assert(c.take(i as int) =~= c);
    high
}

/// The smallest and largest value of each of `dims` dimensions.
pub(crate) fn extents_of(vectors: &[&[Scalar]], dims: usize) -> (r: (Vec<Scalar>, Vec<Scalar>))
    requires
        forall|i: int| 0 <= i < vectors@.len() ==> dims <= (#[trigger] vectors@[i])@.len(),
    ensures
        (Bounds { min: r.0@, max: r.1@ }) == extents(slice_rows(vectors@), dims as nat),
{
    let ghost e = extents(slice_rows(vectors@), dims as nat);
    let mut min_bounds: Vec<Scalar> = Vec::new();
    let mut max_bounds: Vec<Scalar> = Vec::new();
    let mut d: usize = 0;
    while d < dims
        invariant
            e == extents(slice_rows(vectors@), dims as nat),
            forall|k: int| 0 <= k < vectors@.len() ==> dims <= (#[trigger] vectors@[k])@.len(),
            d <= dims,
            min_bounds@ == e.min.take(d as int),
            max_bounds@ == e.max.take(d as int),
        decreases dims - d,
    {
        min_bounds.push(column_lowest(vectors, d));
        max_bounds.push(column_highest(vectors, d));
        d += 1;
        assert(min_bounds@ =~= e.min.take(d as int));
        assert(max_bounds@ =~= e.max.take(d as int));
    }
    assert(min_bounds@ =~= e.min);
    assert(max_bounds@ =~= e.max);
    (min_bounds, max_bounds)
}

/// Borrow every vector of a list.
pub fn borrow_all(vectors: &[Vec<Scalar>]) -> (r: Vec<&[Scalar]>)
    ensures
        slice_rows(r@) == rows(vectors@),
{
    let mut r: Vec<&[Scalar]> = Vec::new();
    let mut i: usize = 0;
    while i < vectors.len()
        invariant
            i <= vectors@.len(),
            r@.len() == i,
            forall|k: int| 0 <= k < i ==> (#[trigger] r@[k])@ == vectors@[k]@,
        decreases vectors@.len() - i,
    {
        r.push(vectors[i].as_slice());
        i += 1;
    }
    assert(slice_rows(r@) =~= rows(vectors@));
    r
}

impl Quantizer {
    #[verifier::type_invariant]
    spec fn wf(self) -> bool {
        self@.valid() && self.dims == self.min_bounds@.len()
    }

    /// A quantizer with explicit bounds.
    pub fn new(min_bounds: Vec<Scalar>, max_bounds: Vec<Scalar>) -> (r: Result<Quantizer>)
        ensures
            made(r) == bounds_outcome(Bounds { min: min_bounds@, max: max_bounds@ }),
    {
        let ghost b = Bounds { min: min_bounds@, max: max_bounds@ };
        if min_bounds.len() != max_bounds.len() {
            return Err(
                CompactError::DimensionMismatch {
                    expected: min_bounds.len(),
                    found: max_bounds.len(),
                },
            );
        }
        let dims: usize = min_bounds.len();
        if dims == 0 {
            return Err(CompactError::invalid_header("quantizer dimensions must be > 0"));
        }
        if dims > 65535 {
            return Err(too_many_dims(dims, " exceeds u16::MAX (65535)"));
        }
        match check_bounds(min_bounds.as_slice(), max_bounds.as_slice()) {
            Ok(()) => {},
            Err(e) => return Err(e),
        }
        proof {
            law_bounds_accepted(b);
        }
        Ok(Quantizer { min_bounds, max_bounds, dims })
    }

    /// Calibrate on borrowed vectors; `no_dims` is the complaint about vectors without
    /// coordinates.
    fn calibrate_rows(vectors: &[&[Scalar]], no_dims: &str) -> (r: Result<Quantizer>)
        ensures
            made(r) == calibrated(slice_rows(vectors@), no_dims@),
    {
        let ghost data = slice_rows(vectors@);
        if vectors.len() == 0 {
            return Err(CompactError::EmptyDataset);
        }
        let dims: usize = vectors[0].len();
        assert(data[0].len() == dims);
        if dims == 0 {
            return Err(CompactError::invalid_header(no_dims));
        }
        if dims > 65535 {
            return Err(too_many_dims(dims, " exceeds u16::MAX"));
        }
        let mut i: usize = 0;
        while i < vectors.len()
            invariant
                data == slice_rows(vectors@),
                data.len() > 0,
                0 < data[0].len() == dims <= 65535,
                i <= vectors@.len(),
                rows_fault(data, dims as nat, 0) == rows_fault(data, dims as nat, i as nat),
            decreases vectors@.len() - i,
        {
            assert(data[i as int] == vectors@[i as int]@);
            match check_row(vectors[i], dims) {
                Ok(()) => {},
                Err(e) => return Err(e),
            }
            i += 1;
        }
        proof {
            law_calibration_encloses(data, no_dims@);
            assert forall|k: int| 0 <= k < vectors@.len() implies dims <= (
            #[trigger] vectors@[k])@.len() by {
                assert(data[k].len() == dims);
            }
        }
        let (min_bounds, max_bounds) = extents_of(vectors, dims);
        Ok(Quantizer { min_bounds, max_bounds, dims })
    }

    /// Calibrate on a dataset: the smallest and largest value of every dimension.
    pub fn calibrate(vectors: &[Vec<Scalar>]) -> (r: Result<Quantizer>)
        ensures
            made(r) == calibrated(
                rows(vectors@),
                "calibration vectors must have dimensionality > 0"@,
            ),
    {
        let borrowed = borrow_all(vectors);
        Quantizer::calibrate_rows(
            borrowed.as_slice(),
            "calibration vectors must have dimensionality > 0",
        )
    }

    /// Calibrate on borrowed vectors.
    pub fn calibrate_slices(vectors: &[&[Scalar]]) -> (r: Result<Quantizer>)
        ensures
            made(r) == calibrated(
                slice_rows(vectors@),
                "calibration slices must have dimensionality > 0"@,
            ),
    {
        Quantizer::calibrate_rows(vectors, "calibration slices must have dimensionality > 0")
    }

    /// Calibrate with a single range for all dimensions.
    pub fn calibrate_global(vectors: &[Vec<Scalar>]) -> (r: Result<Quantizer>)
        ensures
            made(r) == globally_calibrated(rows(vectors@)),
    {
        let ghost data = rows(vectors@);
        if vectors.len() == 0 {
            return Err(CompactError::EmptyDataset);
        }
        let dims: usize = vectors[0].len();
        assert(data[0].len() == dims);
        if dims == 0 {
            return Err(CompactError::invalid_header("global calibrate: dims must be > 0"));
        }
        let mut low: Scalar = infinity();
        let mut high: Scalar = neg_infinity();
        let mut i: usize = 0;
        assert(data.take(0).len() == 0);
        while i < vectors.len()
            invariant
                data == rows(vectors@),
                data.len() > 0,
                0 < data[0].len() == dims,
                i <= vectors@.len(),
                global_fault(data, dims as nat, 0) == global_fault(data, dims as nat, i as nat),
                forall|k: int|
                    0 <= k < joined(data.take(i as int)).len() ==> (#[trigger] joined(
                        data.take(i as int),
                    )[k]).finite(),
                joined(data.take(i as int)).len() >= i,
                low == lowest(joined(data.take(i as int))),
                high == highest(joined(data.take(i as int))),
            decreases vectors@.len() - i,
        {
            let row = vectors[i].as_slice();
            let ghost done = joined(data.take(i as int));
            assert(data[i as int] == row@);
            if row.len() != dims {
                return Err(CompactError::DimensionMismatch { expected: dims, found: row.len() });
            }
            let mut d: usize = 0;
            assert(done + row@.take(0) =~= done);
            while d < row.len()
                invariant
                    d <= row@.len() == dims,
                    first_non_finite(row@, 0) == first_non_finite(row@, d as nat),
                    0 <= i < data.len(),
                    data[i as int] == row@,
                    data.len() > 0,
                    data == rows(vectors@),
                    0 < data[0].len() == dims,
                    done == joined(data.take(i as int)),
                    global_fault(data, dims as nat, 0) == global_fault(data, dims as nat, i as nat),
                    forall|k: int| 0 <= k < d ==> (#[trigger] row@[k]).finite(),
                    low == lowest(done + row@.take(d as int)),
                    high == highest(done + row@.take(d as int)),
                decreases row@.len() - d,
            {
                let v = row[d];
                if !v.is_finite() {
                    return Err(
                        CompactError::QuantizationOverflow {
                            dimension: 0,
                            value: v,
                            min: low,
                            max: high,
                            reason: "non-finite in global calibrate",
                        },
                    );
                }
                let ghost next = done + row@.take(d + 1);
                assert(next.drop_last() =~= done + row@.take(d as int));
                assert(next.last() == v);
                if v.lt(low) {
                    low = v;
                }
                if high.lt(v) {
                    high = v;
                }
                d += 1;
            }
            proof {
                assert(row@.take(d as int) =~= row@);
                assert(data.take(i + 1).drop_last() =~= data.take(i as int));
                assert(joined(data.take(i + 1)) == done + row@);
            }
            i += 1;
        }
        assert(data.take(i as int) =~= data);
        proof {
            law_extremes(joined(data));
            assert(lowest(joined(data)).at_most(joined(data)[0]));
        }
        let min_bounds: Vec<Scalar> = repeated(low, dims);
        let max_bounds: Vec<Scalar> = repeated(high, dims);
        assert(min_bounds@ =~= Seq::new(data[0].len(), |k: int| lowest(joined(data))));
        assert(max_bounds@ =~= Seq::new(data[0].len(), |k: int| highest(joined(data))));
        Ok(Quantizer { min_bounds, max_bounds, dims })
    }

    /// Calibrate between two percentiles of every dimension, which clips outliers.
    pub fn calibrate_percentile<A: Arithmetic>(
        vectors: &[Vec<Scalar>],
        low: Scalar,
        high: Scalar,
        x: &A,
    ) -> (r: Result<Quantizer>)
        ensures
            ({
                let data = rows(vectors@);
                let base = calibrated(data, "calibration vectors must have dimensionality > 0"@);
                if data.len() == 0 {
                    made(r) == Err::<Bounds, ErrorModel>(ErrorModel::EmptyDataset)
                } else if !percentiles_ok(low, high) {
                    made(r) == Err::<Bounds, ErrorModel>(
                        ErrorModel::InvalidHeader(HeaderModel::InvalidPercentiles { low, high }),
                    )
                } else if base is Err {
                    made(r) == base
                } else {
                    clips_to(x, data, low, high, made(r))
                }
            }),
    {
        let ghost data = rows(vectors@);
        if vectors.len() == 0 {
            return Err(CompactError::EmptyDataset);
        }
        if !(zero().le(low) && low.le(hundred()) && zero().le(high) && high.le(hundred()))
            || high.le(low) {
            return Err(
                CompactError::InvalidHeader(HeaderFault::InvalidPercentiles { low, high }),
            );
        }
        let base = match Quantizer::calibrate(vectors) {
            Ok(base) => base,
            Err(e) => return Err(e),
        };
        proof {
            law_calibration_encloses(data, "calibration vectors must have dimensionality > 0"@);
            use_type_invariant(&base);
        }
        let dims: usize = base.dims;
        let n: usize = vectors.len();
        let i: usize = rank_of(low, n, false, x);
        let j: usize = rank_of(high, n, true, x);
        let mut mins: Vec<Scalar> = Vec::new();
        let mut maxs: Vec<Scalar> = Vec::new();
        let mut d: usize = 0;
        while d < dims
            invariant
                d <= dims == data[0].len(),
                data == rows(vectors@),
                uniform(data, dims as nat),
                n == data.len() > 0,
                i < n,
                j < n,
                base@ == extents(data, dims as nat),
                base.min_bounds@.len() == dims,
                base.max_bounds@.len() == dims,
                mins@.len() == d,
                maxs@.len() == d,
                forall|k: int|
                    #![trigger mins@[k]]
                    0 <= k < d ==> clipped(
                        x,
                        ascending(column(data, k))[i as int],
                        ascending(column(data, k))[j as int],
                        (base@.min[k], base@.max[k]),
                        (mins@[k], maxs@[k]),
                    ),
            decreases dims - d,
        {
            let sorted = sorted_column(vectors, d, dims);
            let lo = sorted[i];
            let hi = sorted[j];
            let range = x.sub(hi, lo);
            assert(difference(x, hi, lo, range));
            let (mn, mx) = if range.abs().lt(millionth()) {
                (base.min_bounds[d], base.max_bounds[d])
            } else {
                (lo, hi)
            };
            assert(clipped(x, lo, hi, (base@.min[d as int], base@.max[d as int]), (mn, mx)));
            mins.push(mn);
            maxs.push(mx);
            d += 1;
        }
        let ghost b = Bounds { min: mins@, max: maxs@ };
        assert(clipped_to(x, data, i as nat, j as nat, b));
        Quantizer::new(mins, maxs)
    }

    /// Number of dimensions.
    pub fn dims(&self) -> (r: usize)
        ensures
            r == self@.dims(),
            self@.valid(),
    {
        proof {
            use_type_invariant(self);
        }
        self.dims
    }

    /// Lower bounds.
    pub fn min_bounds(&self) -> (r: &[Scalar])
        ensures
            r@ == self@.min,
            self@.valid(),
    {
        proof {
            use_type_invariant(self);
        }
        self.min_bounds.as_slice()
    }

    /// Upper bounds.
    pub fn max_bounds(&self) -> (r: &[Scalar])
        ensures
            r@ == self@.max,
            self@.valid(),
    {
        proof {
            use_type_invariant(self);
        }
        self.max_bounds.as_slice()
    }
}

/// The position of a percentile among `count` numbers in ascending order.
fn rank_of<A: Arithmetic>(percentile: Scalar, count: usize, up: bool, x: &A) -> (r: usize)
    requires
        count > 0,
    ensures
        ranks_to(x, percentile, count as nat, up, r as nat),
        r < count,
{
    let share = x.div(percentile, hundred());
    let c = x.of_count(count);
    let last = x.sub(c, one());
    let at = x.mul(share, last);
    assert(quotient(x, percentile, hundred(), share) && counted(x, count, c) && difference(
        x,
        c,
        one(),
        last,
    ) && product(x, share, last, at));
    let r: usize = at.to_index(count - 1, up);
    assert(count as nat as usize == count);
    r
}

/// `n` copies of a number.
pub(crate) fn repeated(v: Scalar, n: usize) -> (r: Vec<Scalar>)
    ensures
        r@ == Seq::new(n as nat, |i: int| v),
{
    let mut r: Vec<Scalar> = Vec::new();
    while r.len() < n
        invariant
            r@.len() <= n,
            forall|i: int| 0 <= i < r@.len() ==> r@[i] == v,
        decreases n - r@.len(),
    {
        r.push(v);
    }
    assert(r@ =~= Seq::new(n as nat, |i: int| v));
    r
}

/// Coordinate `d` of every vector, in ascending order.
fn sorted_column(vectors: &[Vec<Scalar>], d: usize, dims: usize) -> (r: Vec<Scalar>)
    requires
        d < dims,
        uniform(rows(vectors@), dims as nat),
    ensures
        r@ == ascending(column(rows(vectors@), d as int)),
        r@.len() == vectors@.len(),
{
    let ghost c = column(rows(vectors@), d as int);
    assert forall|k: int| 0 <= k < c.len() implies (#[trigger] c[k]).finite() by {
        assert(rows(vectors@)[k].len() == dims);
    }
    let mut r: Vec<Scalar> = Vec::new();
    let mut i: usize = 0;
    while i < vectors.len()
        invariant
            d < dims,
            uniform(rows(vectors@), dims as nat),
            c == column(rows(vectors@), d as int),
            forall|k: int| 0 <= k < c.len() ==> (#[trigger] c[k]).finite(),
            i <= vectors@.len(),
            r@ == ascending(c.take(i as int)),
            r@.len() == i,
        decreases vectors@.len() - i,
    {
        assert(rows(vectors@)[i as int].len() == dims);
        let v = vectors[i][d];
        proof {
            law_ascending(c.take(i as int));
        }
        let ghost before = r@;
        let mut p: usize = r.len();
        while p > 0 && v.lt(r[p - 1])
            invariant
                p <= r@.len(),
                forall|k: int| p <= k < r@.len() ==> v.below(#[trigger] r@[k]),
            decreases p,
        {
            p -= 1;
        }
        r.insert(p, v);
        proof {
            lemma_inserted_at(before, v, p as int);
            assert(c.take(i + 1).drop_last() =~= c.take(i as int));
            assert(c.take(i + 1).last() == v);
        }
        i += 1;
    }
    assert(c.take(i as int) =~= c);
    r
}

impl Clone for Quantizer {
    /// A quantizer with the same bounds.
    fn clone(&self) -> (r: Quantizer)
        ensures
            r@ == self@,
    {
        proof {
            use_type_invariant(self);
        }
        Quantizer {
            min_bounds: copy_of(self.min_bounds.as_slice()),
            max_bounds: copy_of(self.max_bounds.as_slice()),
            dims: self.dims,
        }
    }
}

/// A vector with the same coordinates.
pub fn copy_of(v: &[Scalar]) -> (r: Vec<Scalar>)
    ensures
        r@ == v@,
{
    let mut r: Vec<Scalar> = Vec::new();
    let mut i: usize = 0;
    while i < v.len()
        invariant
            i <= v@.len(),
            r@ == v@.take(i as int),
        decreases v@.len() - i,
    {
        r.push(v[i]);
        i += 1;
        assert(r@ =~= v@.take(i as int));
    }
    assert(r@ =~= v@);
    r
}

} // verus!
