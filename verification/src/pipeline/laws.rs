//! The order in which a pipeline works.
use crate::pipeline::{comes_out, stage_passes, NoStages, Stages, Then};
use crate::quant::Bounds;
use crate::scalar::{Arithmetic, Scalar};
use crate::stats::returns_as;
use crate::transform::Transform;
use vstd::prelude::*;

verus! {

/// A pipeline of two transforms hands to the second what the first one gives. With a quantizer,
/// what comes out is what the second one gives, stored as bytes and read back.
pub proof fn law_stages_go_in_order<A: Arithmetic, T: Transform<A>, U: Transform<A>>(
    s: Then<Then<NoStages, T>, U>,
    b: Option<Bounds>,
    x: &A,
    v: Seq<Scalar>,
    u: Seq<Scalar>,
) -> (steps: (Seq<Scalar>, Seq<Scalar>))
    requires
        comes_out(s, b, x, v, u),
    ensures
        s.before.last.maps(x, v, steps.0),
        s.last.maps(x, steps.0, steps.1),
        b is None ==> u == steps.1,
        b matches Some(q) ==> returns_as(x, q, steps.1, u),
{
    let last = choose|last: Seq<Scalar>|
        last.len() == v.len() && #[trigger] s.passes(x, v, last) && crate::pipeline::settles(
            x,
            b,
            last,
            u,
        );
    let mid = choose|mid: Seq<Scalar>|
        mid.len() == v.len() && #[trigger] s.before.passes(x, v, mid) && stage_passes(
            s.last,
            x,
            mid,
            last,
        );
    let first = choose|first: Seq<Scalar>|
        first.len() == v.len() && #[trigger] s.before.before.passes(x, v, first) && stage_passes(
            s.before.last,
            x,
            first,
            mid,
        );
    assert(first == v);
    (mid, last)
}

} // verus!
