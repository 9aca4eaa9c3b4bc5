//! Transforms one after another, then storing as bytes and reading back.
use crate::bins::{dequantizes_to, dequantizing_fails, input_fault, quantizes_to};
use crate::errors::{CompactError, ErrorModel, Result};
use crate::quant::{copy_of, repeated, rows, Bounds, Quantizer};
use crate::scalar::zero;
use crate::scalar::{Arithmetic, Scalar};
use crate::stats::{returning_fails, returns_as};
use crate::transform::Transform;
use vstd::prelude::*;

pub mod laws;

verus! {

/// Transforms that are applied one after another to a vector, each of which keeps its number
/// of coordinates.
pub trait Stages<A: Arithmetic> {
    /// `v` may come out as `u`.
    spec fn passes(&self, x: &A, v: Seq<Scalar>, u: Seq<Scalar>) -> bool;

    /// `v` may be refused with `e`.
    spec fn blocks(&self, x: &A, v: Seq<Scalar>, e: ErrorModel) -> bool;

    /// Apply the transforms.
    fn apply(&self, v: Vec<Scalar>, x: &A) -> (r: Result<Vec<Scalar>>)
        ensures
            match r {
                Ok(u) => u@.len() == v@.len() && self.passes(x, v@, u@),
                Err(e) => self.blocks(x, v@, e@),
            },
    ;
}

/// No transforms.
#[derive(Debug, Clone, Copy)]
pub struct NoStages;

impl<A: Arithmetic> Stages<A> for NoStages {
    open spec fn passes(&self, x: &A, v: Seq<Scalar>, u: Seq<Scalar>) -> bool {
        u == v
    }

    open spec fn blocks(&self, x: &A, v: Seq<Scalar>, e: ErrorModel) -> bool {
        false
    }

    fn apply(&self, v: Vec<Scalar>, x: &A) -> (r: Result<Vec<Scalar>>) {
        Ok(v)
    }
}

/// Transforms, and one more after them.
pub struct Then<S, T> {
    pub before: S,
    pub last: T,
}

/// A transform may turn `v` into `u`, and takes vectors of this length.
pub open spec fn stage_passes<A: Arithmetic, T: Transform<A>>(
    t: T,
    x: &A,
    v: Seq<Scalar>,
    u: Seq<Scalar>,
) -> bool {
    t.size() == v.len() && u.len() == v.len() && t.maps(x, v, u)
}

/// A transform may refuse `v` with `e`: for its length first.
pub open spec fn stage_blocks<A: Arithmetic, T: Transform<A>>(
    t: T,
    x: &A,
    v: Seq<Scalar>,
    e: ErrorModel,
) -> bool {
    if t.size() != v.len() {
        e == (ErrorModel::DimensionMismatch { expected: t.size(), found: v.len() })
    } else {
        t.refuses(x, v, v.len(), e)
    }
}

/// `v` may pass `s` and then be turned into `u` by `t`.
pub open spec fn passes_then<A: Arithmetic, S: Stages<A>, T: Transform<A>>(
    s: S,
    t: T,
    x: &A,
    v: Seq<Scalar>,
    u: Seq<Scalar>,
) -> bool {
    exists|mid: Seq<Scalar>|
        mid.len() == v.len() && #[trigger] s.passes(x, v, mid) && stage_passes(t, x, mid, u)
}

/// `v` may pass `s` and then be refused by `t` with `e`.
pub open spec fn blocks_then<A: Arithmetic, S: Stages<A>, T: Transform<A>>(
    s: S,
    t: T,
    x: &A,
    v: Seq<Scalar>,
    e: ErrorModel,
) -> bool {
    exists|mid: Seq<Scalar>|
        mid.len() == v.len() && #[trigger] s.passes(x, v, mid) && stage_blocks(t, x, mid, e)
}

impl<A: Arithmetic, S: Stages<A>, T: Transform<A>> Stages<A> for Then<S, T> {
    open spec fn passes(&self, x: &A, v: Seq<Scalar>, u: Seq<Scalar>) -> bool {
        passes_then(self.before, self.last, x, v, u)
    }

    open spec fn blocks(&self, x: &A, v: Seq<Scalar>, e: ErrorModel) -> bool {
        self.before.blocks(x, v, e) || blocks_then(self.before, self.last, x, v, e)
    }

    fn apply(&self, v: Vec<Scalar>, x: &A) -> (r: Result<Vec<Scalar>>) {
        let ghost start = v@;
        let mid = match self.before.apply(v, x) {
            Ok(mid) => mid,
            Err(e) => return Err(e),
        };
        assert(self.before.passes(x, start, mid@));
        let len: usize = mid.len();
        let dims: usize = self.last.dims();
        if dims != len {
            let e = CompactError::DimensionMismatch { expected: dims, found: len };
            assert(stage_blocks(self.last, x, mid@, e@));
            assert(blocks_then(self.before, self.last, x, start, e@));
            return Err(e);
        }
        let mut out = repeated(zero(), len);
        match self.last.transform(mid.as_slice(), out.as_mut_slice(), x) {
            Ok(()) => {
                assert(stage_passes(self.last, x, mid@, out@));
                assert(passes_then(self.before, self.last, x, start, out@));
                Ok(out)
            },
            Err(e) => {
                assert(stage_blocks(self.last, x, mid@, e@));
                assert(blocks_then(self.before, self.last, x, start, e@));
                Err(e)
            },
        }
    }
}

/// Transform `i` of a list may turn `v` into `u`, and takes vectors of this length.
pub open spec fn listed_passes<A: Arithmetic>(
    list: Seq<Box<dyn Transform<A>>>,
    i: int,
    x: &A,
    v: Seq<Scalar>,
    u: Seq<Scalar>,
) -> bool {
    list[i].size() == v.len() && u.len() == v.len() && list[i].maps(x, v, u)
}

/// Transform `i` of a list may refuse `v` with `e`: for its length first.
pub open spec fn listed_blocks<A: Arithmetic>(
    list: Seq<Box<dyn Transform<A>>>,
    i: int,
    x: &A,
    v: Seq<Scalar>,
    e: ErrorModel,
) -> bool {
    if list[i].size() != v.len() {
        e == (ErrorModel::DimensionMismatch { expected: list[i].size(), found: v.len() })
    } else {
        list[i].refuses(x, v, v.len(), e)
    }
}

/// The first `n` transforms of a list may turn `v` into `u`.
pub open spec fn list_passes<A: Arithmetic>(
    list: Seq<Box<dyn Transform<A>>>,
    n: nat,
    x: &A,
    v: Seq<Scalar>,
    u: Seq<Scalar>,
) -> bool
    decreases n,
{
    if n == 0 {
        u == v
    } else {
        exists|mid: Seq<Scalar>|
            list_passes(list, (n - 1) as nat, x, v, mid) && #[trigger] listed_passes(
                list,
                n - 1,
                x,
                mid,
                u,
            )
    }
}

/// `v` may pass the first `n` transforms of a list and be refused by the next with `e`.
pub open spec fn list_blocks_at<A: Arithmetic>(
    list: Seq<Box<dyn Transform<A>>>,
    n: nat,
    x: &A,
    v: Seq<Scalar>,
    mid: Seq<Scalar>,
    e: ErrorModel,
) -> bool {
    &&& n < list.len()
    &&& list_passes(list, n, x, v, mid)
    &&& listed_blocks(list, n as int, x, mid, e)
}

/// `v` may be refused by a transform of a list with `e`.
pub open spec fn list_blocks<A: Arithmetic>(
    list: Seq<Box<dyn Transform<A>>>,
    x: &A,
    v: Seq<Scalar>,
    e: ErrorModel,
) -> bool {
    exists|n: nat, mid: Seq<Scalar>| #[trigger] list_blocks_at(list, n, x, v, mid, e)
}

/// A list of transforms that is put together while the program runs.
#[verifier::reject_recursive_types(A)]
pub struct StageList<A: Arithmetic> {
    list: Vec<Box<dyn Transform<A>>>,
}

impl<A: Arithmetic> StageList<A> {
    /// The transforms, in order.
    pub closed spec fn list(&self) -> Seq<Box<dyn Transform<A>>> {
        self.list@
    }

    /// A list without transforms.
    pub fn new() -> (s: StageList<A>)
        ensures
            s.list().len() == 0,
    {
        StageList { list: Vec::new() }
    }

    /// Add a transform at the end.
    pub fn push(&mut self, t: Box<dyn Transform<A>>)
        ensures
            final(self).list() == old(self).list().push(t),
    {
        self.list.push(t);
    }

    /// Number of transforms.
    pub fn len(&self) -> (r: usize)
        ensures
            r == self.list().len(),
    {
        self.list.len()
    }

    /// Whether there are no transforms.
    pub fn is_empty(&self) -> (r: bool)
        ensures
            r == (self.list().len() == 0),
    {
        self.list.len() == 0
    }
}

proof fn lemma_list_step<A: Arithmetic>(
    list: Seq<Box<dyn Transform<A>>>,
    n: nat,
    x: &A,
    v: Seq<Scalar>,
    mid: Seq<Scalar>,
    u: Seq<Scalar>,
)
    requires
        n > 0,
        list_passes(list, (n - 1) as nat, x, v, mid),
        listed_passes(list, n - 1, x, mid, u),
    ensures
        list_passes(list, n, x, v, u),
{
}

impl<A: Arithmetic> Stages<A> for StageList<A> {
    open spec fn passes(&self, x: &A, v: Seq<Scalar>, u: Seq<Scalar>) -> bool {
        list_passes(self.list(), self.list().len(), x, v, u)
    }

    open spec fn blocks(&self, x: &A, v: Seq<Scalar>, e: ErrorModel) -> bool {
        list_blocks(self.list(), x, v, e)
    }

    fn apply(&self, v: Vec<Scalar>, x: &A) -> (r: Result<Vec<Scalar>>) {
        let ghost start = v@;
        let ghost list = self.list();
        let len: usize = v.len();
        let mut mid = v;
        let mut i: usize = 0;
        while i < self.list.len()
            invariant
                start == v@,
                list == self.list@,
                i <= list.len(),
                mid@.len() == len,
                list_passes(list, i as nat, x, start, mid@),
            decreases list.len() - i,
        {
            let dims: usize = self.list[i].dims();
            if dims != len {
                let e = CompactError::DimensionMismatch { expected: dims, found: len };
                assert(list_blocks_at(list, i as nat, x, start, mid@, e@));
                assert(list_blocks(self.list(), x, start, e@));
                return Err(e);
            }
            let mut out = repeated(zero(), len);
            match self.list[i].transform(mid.as_slice(), out.as_mut_slice(), x) {
                Ok(()) => {
                    proof {
                        lemma_list_step(list, (i + 1) as nat, x, start, mid@, out@);
                    }
                    mid = out;
                },
                Err(e) => {
                    assert(list_blocks_at(list, i as nat, x, start, mid@, e@));
                    assert(list_blocks(self.list(), x, start, e@));
                    return Err(e);
                },
            }
            i += 1;
        }
        Ok(mid)
    }
}

/// A vector after the transforms may leave the quantizer, if there is one, as `u`.
pub open spec fn settles<A: Arithmetic>(
    x: &A,
    b: Option<Bounds>,
    v: Seq<Scalar>,
    u: Seq<Scalar>,
) -> bool {
    match b {
        None => u == v,
        Some(b) => input_fault(b, v) is None && returns_as(x, b, v, u),
    }
}

/// A vector after the transforms may be refused by the quantizer with `e`.
pub open spec fn unsettled<A: Arithmetic>(
    x: &A,
    b: Option<Bounds>,
    v: Seq<Scalar>,
    e: ErrorModel,
) -> bool {
    match b {
        None => false,
        Some(b) => match input_fault(b, v) {
            Some(f) => e == f,
            None => returning_fails(x, b, v, e),
        },
    }
}

/// `v` may come out of the pipeline as `u`.
pub open spec fn comes_out<A: Arithmetic, S: Stages<A>>(
    s: S,
    b: Option<Bounds>,
    x: &A,
    v: Seq<Scalar>,
    u: Seq<Scalar>,
) -> bool {
    exists|mid: Seq<Scalar>|
        mid.len() == v.len() && #[trigger] s.passes(x, v, mid) && settles(x, b, mid, u)
}

/// `v` may be refused by the quantizer with `e`.
pub open spec fn held_back<A: Arithmetic, S: Stages<A>>(
    s: S,
    b: Option<Bounds>,
    x: &A,
    v: Seq<Scalar>,
    e: ErrorModel,
) -> bool {
    exists|mid: Seq<Scalar>|
        mid.len() == v.len() && #[trigger] s.passes(x, v, mid) && unsettled(x, b, mid, e)
}

/// Running `v` through the pipeline may fail with `e`.
pub open spec fn run_fails<A: Arithmetic, S: Stages<A>>(
    s: S,
    b: Option<Bounds>,
    x: &A,
    v: Seq<Scalar>,
    e: ErrorModel,
) -> bool {
    s.blocks(x, v, e) || held_back(s, b, x, v, e)
}

/// Vector `n` may come out of the pipeline.
pub open spec fn runnable<A: Arithmetic, S: Stages<A>>(
    s: S,
    b: Option<Bounds>,
    x: &A,
    batch: Seq<Seq<Scalar>>,
    n: int,
) -> bool {
    exists|u: Seq<Scalar>| #[trigger] comes_out(s, b, x, batch[n], u)
}

/// Vector `i` is the first that may fail, with `e`.
pub open spec fn batch_run_fails_at<A: Arithmetic, S: Stages<A>>(
    s: S,
    b: Option<Bounds>,
    x: &A,
    batch: Seq<Seq<Scalar>>,
    i: int,
    e: ErrorModel,
) -> bool {
    &&& 0 <= i < batch.len()
    &&& run_fails(s, b, x, batch[i], e)
    &&& forall|n: int| 0 <= n < i ==> #[trigger] runnable(s, b, x, batch, n)
}

/// What comes out of a pipeline has as many coordinates as what went in.
pub proof fn law_pipeline_keeps_length<A: Arithmetic, S: Stages<A>>(
    s: S,
    b: Option<Bounds>,
    x: &A,
    v: Seq<Scalar>,
    u: Seq<Scalar>,
)
    requires
        comes_out(s, b, x, v, u),
    ensures
        u.len() == v.len(),
{
}

/// Transforms, and a quantizer at the end.
pub struct Pipeline<S> {
    stages: S,
    quantizer: Option<Quantizer>,
}

impl Pipeline<NoStages> {
    /// A pipeline that changes nothing.
    pub fn new() -> (p: Pipeline<NoStages>)
        ensures
            p.stages() == NoStages,
            p.bounds() is None,
    {
        Pipeline { stages: NoStages, quantizer: None }
    }
}

impl<A: Arithmetic> Pipeline<StageList<A>> {
    /// A pipeline of the transforms of a list.
    pub fn of_list(list: StageList<A>) -> (p: Pipeline<StageList<A>>)
        ensures
            p.stages() == list,
            p.bounds() is None,
    {
        Pipeline { stages: list, quantizer: None }
    }

    /// Add a transform after the others.
    pub fn push_transform(&mut self, t: Box<dyn Transform<A>>)
        ensures
            final(self).stages().list() == old(self).stages().list().push(t),
            final(self).bounds() == old(self).bounds(),
    {
        self.stages.list.push(t);
    }
}

impl Default for Pipeline<NoStages> {
    fn default() -> (p: Pipeline<NoStages>)
        ensures
            p.stages() == NoStages,
            p.bounds() is None,
    {
        Pipeline::new()
    }
}

impl<S> Pipeline<S> {
    /// The transforms.
    pub closed spec fn stages(&self) -> S {
        self.stages
    }

    /// The bounds of the quantizer.
    pub closed spec fn bounds(&self) -> Option<Bounds> {
        match self.quantizer {
            Some(q) => Some(q@),
            None => None,
        }
    }

    /// The same transforms with another quantizer.
    pub fn with_quantizer(self, q: Quantizer) -> (p: Pipeline<S>)
        ensures
            p.stages() == self.stages(),
            p.bounds() == Some(q@),
    {
        Pipeline { stages: self.stages, quantizer: Some(q) }
    }

    /// One more transform after the others.
    pub fn add_transform<T>(self, t: T) -> (p: Pipeline<Then<S, T>>)
        ensures
            p.stages() == (Then { before: self.stages(), last: t }),
            p.bounds() == self.bounds(),
    {
        Pipeline { stages: Then { before: self.stages, last: t }, quantizer: self.quantizer }
    }

    /// Replace the quantizer.
    pub fn set_quantizer(&mut self, q: Quantizer)
        ensures
            final(self).stages() == old(self).stages(),
            final(self).bounds() == Some(q@),
    {
        self.quantizer = Some(q);
    }

    /// Apply the transforms; if there is a quantizer, store the result as bytes and read it
    /// back.
    pub fn run<A: Arithmetic>(&self, vec: Vec<Scalar>, x: &A) -> (r: Result<Vec<Scalar>>) where
        S: Stages<A>,

        ensures
            match r {
                Ok(u) => comes_out(self.stages(), self.bounds(), x, vec@, u@),
                Err(e) => run_fails(self.stages(), self.bounds(), x, vec@, e@),
            },
    {
        let ghost start = vec@;
        let mid = match self.stages.apply(vec, x) {
            Ok(mid) => mid,
            Err(e) => return Err(e),
        };
        assert(self.stages.passes(x, start, mid@));
        match &self.quantizer {
            None => {
                assert(settles(x, self.bounds(), mid@, mid@));
                Ok(mid)
            },
            Some(q) => {
                let bytes = match q.quantize_vector(mid.as_slice(), x) {
                    Ok(bytes) => bytes,
                    Err(e) => {
                        assert(unsettled(x, self.bounds(), mid@, e@));
                        return Err(e);
                    },
                };
                match q.dequantize_vector(bytes.as_slice(), x) {
                    Ok(u) => {
                        assert(quantizes_to(x, q@, mid@, bytes@) && dequantizes_to(
                            x,
                            q@,
                            bytes@,
                            u@,
                        ));
                        assert(returns_as(x, q@, mid@, u@));
                        assert(settles(x, self.bounds(), mid@, u@));
                        Ok(u)
                    },
                    Err(e) => {
                        assert(quantizes_to(x, q@, mid@, bytes@) && dequantizing_fails(
                            x,
                            q@,
                            bytes@,
                            e@,
                        ));
                        assert(returning_fails(x, q@, mid@, e@));
                        assert(unsettled(x, self.bounds(), mid@, e@));
                        Err(e)
                    },
                }
            },
        }
    }

    /// Run every vector, up to the first that fails.
    pub fn run_batch<A: Arithmetic>(&self, batch: &[Vec<Scalar>], x: &A) -> (r: Result<
        Vec<Vec<Scalar>>,
    >) where S: Stages<A>,
        ensures
            match r {
                Ok(out) => out@.len() == batch@.len() && forall|i: int|
                    0 <= i < out@.len() ==> comes_out(
                        self.stages(),
                        self.bounds(),
                        x,
                        batch@[i]@,
                        (#[trigger] out@[i])@,
                    ),
                Err(e) => exists|i: int| #[trigger]
                    batch_run_fails_at(
                        self.stages(),
                        self.bounds(),
                        x,
                        rows(batch@),
                        i,
                        e@,
                    ),
            },
    {
        let ghost data = rows(batch@);
        let ghost s = self.stages();
        let ghost b = self.bounds();
        let mut out: Vec<Vec<Scalar>> = Vec::new();
        let mut i: usize = 0;
        while i < batch.len()
            invariant
                data == rows(batch@),
                s == self.stages(),
                b == self.bounds(),
                i <= batch@.len(),
                out@.len() == i,
                forall|n: int|
                    0 <= n < i ==> comes_out(s, b, x, batch@[n]@, (#[trigger] out@[n])@),
                forall|n: int| 0 <= n < i ==> #[trigger] runnable(s, b, x, data, n),
            decreases batch@.len() - i,
        {
            assert(data[i as int] == batch@[i as int]@);
            match self.run(copy_of(batch[i].as_slice()), x) {
                Ok(u) => {
                    assert(comes_out(s, b, x, data[i as int], u@));
                    assert(runnable(s, b, x, data, i as int));
                    out.push(u);
                },
                Err(e) => {
                    assert(batch_run_fails_at(s, b, x, data, i as int, e@));
                    return Err(e);
                },
            }
            i += 1;
        }
        Ok(out)
    }
}

} // verus!
