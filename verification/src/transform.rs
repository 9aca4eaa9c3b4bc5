//! Transforms of vectors.
use crate::distance::at_least;
use crate::errors::{CompactError, ErrorModel, HeaderModel, Result};
use crate::ops::{average_fault, mean, mean_to, variance, variance_to};
use crate::quant::{copy_of, repeated, rows};
use crate::scalar::{difference, product, quotient, root, total, Arithmetic, Scalar};
use crate::scalar::{millionth, tiny, zero};
use vstd::prelude::*;

pub mod laws;

verus! {

/// Something that works on vectors of a fixed number of coordinates.
pub trait Dimensioned {
    /// Number of coordinates.
    spec fn size(&self) -> nat;

    /// Number of coordinates.
    fn dims(&self) -> (r: usize)
        ensures
            r == self.size(),
    ;
}

/// A transform of vectors of a fixed number of coordinates, computed with the arithmetic `A`.
pub trait Transform<A: Arithmetic>: Dimensioned + Send + Sync {
    /// `input` may be turned into `output`.
    spec fn maps(&self, x: &A, input: Seq<Scalar>, output: Seq<Scalar>) -> bool;

    /// `input` may be refused with `e`, where `room` coordinates can be stored.
    spec fn refuses(
        &self,
        x: &A,
        input: Seq<Scalar>,
        room: nat,
        e: ErrorModel,
    ) -> bool;

    /// Turn `input` into `output`.
    fn transform(&self, input: &[Scalar], output: &mut [Scalar], x: &A) -> (r: Result<
        (),
    >)
        ensures
            final(output)@.len() == old(output)@.len(),
            match r {
                Ok(()) => self.maps(x, input@, final(output)@),
                Err(e) => self.refuses(x, input@, old(output)@.len(), e@),
            },
    ;

    /// The vector that `input` is turned into.
    fn transform_vector(&self, input: &[Scalar], x: &A) -> (r: Result<Vec<Scalar>>)
        ensures
            if input@.len() != self.size() {
                r matches Err(e) && e@ == (ErrorModel::DimensionMismatch {
                    expected: self.size(),
                    found: input@.len(),
                })
            } else {
                match r {
                    Ok(v) => v@.len() == self.size() && self.maps(x, input@, v@),
                    Err(e) => self.refuses(x, input@, self.size(), e@),
                }
            },
    {
        let dims: usize = self.dims();
        if input.len() != dims {
            return Err(CompactError::DimensionMismatch { expected: dims, found: input.len() });
        }
        let mut out = repeated(zero(), dims);
        match self.transform(input, out.as_mut_slice(), x) {
            Ok(()) => Ok(out),
            Err(e) => Err(e),
        }
    }
}

/// Refused for its shape: `input` and the room for the result must both have `size`
/// coordinates.
pub open spec fn shape_refused(size: nat, input: nat, room: nat, e: ErrorModel) -> bool {
    (input != size || room != size) && e == (ErrorModel::DimensionMismatch {
        expected: size,
        found: input,
    })
}

/// `input` and `output` both have `size` coordinates.
pub open spec fn shaped(size: nat, input: Seq<Scalar>, output: Seq<Scalar>) -> bool {
    input.len() == size && output.len() == size
}

/// The transform that changes nothing.
#[derive(Debug, Clone, Copy)]
pub struct Identity {
    dims: usize,
}

impl Identity {
    /// The number of coordinates it takes.
    pub closed spec fn width(&self) -> nat {
        self.dims as nat
    }

    /// A transform of vectors of `dims` coordinates.
    pub fn new(dims: usize) -> (t: Identity)
        ensures
            t.width() == dims,
            t.size() == dims,
    {
        Identity { dims }
    }
}

impl Dimensioned for Identity {
    open spec fn size(&self) -> nat {
        self.width()
    }

    fn dims(&self) -> (r: usize) {
        self.dims
    }
}

impl<A: Arithmetic> Transform<A> for Identity {
    open spec fn maps(&self, x: &A, input: Seq<Scalar>, output: Seq<Scalar>) -> bool {
        shaped(self.size(), input, output) && output == input
    }

    open spec fn refuses(
        &self,
        x: &A,
        input: Seq<Scalar>,
        room: nat,
        e: ErrorModel,
    ) -> bool {
        shape_refused(self.size(), input.len(), room, e)
    }

    fn transform(&self, input: &[Scalar], output: &mut [Scalar], x: &A) -> (r: Result<
        (),
    >)
        ensures
            r is Err ==> final(output)@ == old(output)@,
    {
        if input.len() != self.dims || output.len() != self.dims {
            return Err(
                CompactError::DimensionMismatch { expected: self.dims, found: input.len() },
            );
        }
        let mut i: usize = 0;
        while i < input.len()
            invariant
                i <= input@.len() == output@.len(),
                forall|k: int| 0 <= k < i ==> output@[k] == input@[k],
            decreases input@.len() - i,
        {
            output[i] = input[i];
            i += 1;
        }
        assert(output@ =~= input@);
        Ok(())
    }
}

/// `s0` and the square of `v` may add up to `s`.
pub open spec fn square_added<A: Arithmetic>(x: &A, v: Scalar, s0: Scalar, s: Scalar) -> bool {
    exists|p: Scalar| #[trigger] product(x, v, v, p) && total(x, s0, p, s)
}

/// The squares of the first `n` coordinates, summed one by one, may come out as `s`.
pub open spec fn squares_to<A: Arithmetic>(x: &A, a: Seq<Scalar>, n: nat, s: Scalar) -> bool
    decreases n,
{
    if n == 0 {
        s == zero()
    } else {
        exists|s0: Scalar|
            squares_to(x, a, (n - 1) as nat, s0) && #[trigger] square_added(x, a[n - 1], s0, s)
    }
}

/// The length of `a`, but at least `epsilon`, may come out as `n`.
pub open spec fn length_to<A: Arithmetic>(
    x: &A,
    a: Seq<Scalar>,
    epsilon: Scalar,
    n: Scalar,
) -> bool {
    exists|s: Scalar, r: Scalar| #[trigger]
        squares_to(x, a, a.len(), s) && #[trigger] root(x, s, r) && n == at_least(r, epsilon)
}

/// Every coordinate divided by the length, but at least `epsilon`.
pub open spec fn unit_to<A: Arithmetic>(
    x: &A,
    a: Seq<Scalar>,
    epsilon: Scalar,
    b: Seq<Scalar>,
) -> bool {
    exists|n: Scalar| #[trigger]
        length_to(x, a, epsilon, n) && forall|i: int|
            0 <= i < a.len() ==> quotient(x, a[i], n, #[trigger] b[i])
}

/// The transform to unit length.
#[derive(Debug, Clone, Copy)]
pub struct Normalizer {
    dims: usize,
    epsilon: Scalar,
}

impl Normalizer {
    /// The number of coordinates it takes.
    pub closed spec fn width(&self) -> nat {
        self.dims as nat
    }

    /// The smallest length to divide by.
    pub closed spec fn least(&self) -> Scalar {
        self.epsilon
    }

    /// A transform of vectors of `dims` coordinates.
    pub fn new(dims: usize) -> (t: Normalizer)
        ensures
            t.width() == dims,
            t.size() == dims,
            t.least() == tiny(),
    {
        Normalizer { dims, epsilon: tiny() }
    }

    /// A transform with its own smallest length.
    pub fn with_epsilon(dims: usize, eps: Scalar) -> (t: Normalizer)
        ensures
            t.width() == dims,
            t.size() == dims,
            t.least() == eps,
    {
        Normalizer { dims, epsilon: eps }
    }
}

proof fn lemma_squares_step<A: Arithmetic>(x: &A, a: Seq<Scalar>, n: nat, s0: Scalar, s: Scalar)
    requires
        n > 0,
        squares_to(x, a, (n - 1) as nat, s0),
        square_added(x, a[n - 1], s0, s),
    ensures
        squares_to(x, a, n, s),
{
}

impl Dimensioned for Normalizer {
    open spec fn size(&self) -> nat {
        self.width()
    }

    fn dims(&self) -> (r: usize) {
        self.dims
    }
}

impl<A: Arithmetic> Transform<A> for Normalizer {
    open spec fn maps(&self, x: &A, input: Seq<Scalar>, output: Seq<Scalar>) -> bool {
        shaped(self.size(), input, output) && unit_to(x, input, self.least(), output)
    }

    open spec fn refuses(
        &self,
        x: &A,
        input: Seq<Scalar>,
        room: nat,
        e: ErrorModel,
    ) -> bool {
        shape_refused(self.size(), input.len(), room, e)
    }

    fn transform(&self, input: &[Scalar], output: &mut [Scalar], x: &A) -> (r: Result<
        (),
    >)
        ensures
            r is Err ==> final(output)@ == old(output)@,
    {
        if input.len() != self.dims || output.len() != self.dims {
            return Err(
                CompactError::DimensionMismatch { expected: self.dims, found: input.len() },
            );
        }
        let mut s: Scalar = zero();
        let mut i: usize = 0;
        while i < input.len()
            invariant
                i <= input@.len(),
                squares_to(x, input@, i as nat, s),
            decreases input@.len() - i,
        {
            let v = input[i];
            let p = x.mul(v, v);
            let next = x.add(s, p);
            proof {
                assert(product(x, v, v, p) && total(x, s, p, next));
                assert(square_added(x, input@[i as int], s, next));
                lemma_squares_step(x, input@, (i + 1) as nat, s, next);
            }
            s = next;
            i += 1;
        }
        let r = x.sqrt(s);
        let n = if r.is_nan() || r.lt(self.epsilon) {
            self.epsilon
        } else {
            r
        };
        proof {
            assert(squares_to(x, input@, input@.len(), s) && root(x, s, r));
            assert(length_to(x, input@, self.least(), n));
        }
        let mut i: usize = 0;
        while i < input.len()
            invariant
                i <= input@.len() == output@.len(),
                forall|k: int| 0 <= k < i ==> quotient(x, input@[k], n, #[trigger] output@[k]),
            decreases input@.len() - i,
        {
            let q = x.div(input[i], n);
            assert(quotient(x, input@[i as int], n, q));
            output[i] = q;
            i += 1;
        }
        assert(unit_to(x, input@, self.least(), output@));
        Ok(())
    }
}

/// The transform that takes the mean off every coordinate.
#[derive(Debug)]
pub struct Centering {
    mean: Vec<Scalar>,
}

impl Centering {
    /// The mean.
    pub closed spec fn center(&self) -> Seq<Scalar> {
        self.mean@
    }

    /// Center data by its mean.
    pub fn from_data<A: Arithmetic>(data: &[Vec<Scalar>], x: &A) -> (r: Result<Centering>)
        ensures
            ({
                let d = rows(data@);
                match r {
                    Ok(t) => {
                        &&& average_fault(d, d[0].len()) is None
                        &&& t.center().len() == d[0].len()
                        &&& forall|i: int|
                            0 <= i < t.center().len() ==> mean_to(x, d, i, #[trigger] t.center()[i])
                    },
                    Err(e) => average_fault(d, d[0].len()) == Some(e@),
                }
            }),
    {
        match mean(data, x) {
            Ok(mean) => Ok(Centering { mean }),
            Err(e) => Err(e),
        }
    }

    /// Center by a given mean.
    pub fn new(mean: Vec<Scalar>) -> (r: Result<Centering>)
        ensures
            match r {
                Ok(t) => mean@.len() > 0 && t.center() == mean@,
                Err(e) => mean@.len() == 0 && e@ == ErrorModel::InvalidHeader(
                    HeaderModel::Text("centering mean empty"@),
                ),
            },
    {
        if mean.len() == 0 {
            return Err(CompactError::invalid_header("centering mean empty"));
        }
        Ok(Centering { mean })
    }

    /// The mean.
    pub fn mean(&self) -> (r: &[Scalar])
        ensures
            r@ == self.center(),
    {
        self.mean.as_slice()
    }
}

impl Clone for Centering {
    fn clone(&self) -> (r: Centering)
        ensures
            r.center() == self.center(),
    {
        Centering { mean: copy_of(self.mean.as_slice()) }
    }
}

impl Dimensioned for Centering {
    open spec fn size(&self) -> nat {
        self.center().len()
    }

    fn dims(&self) -> (r: usize) {
        self.mean.len()
    }
}

impl<A: Arithmetic> Transform<A> for Centering {
    open spec fn maps(&self, x: &A, input: Seq<Scalar>, output: Seq<Scalar>) -> bool {
        shaped(self.size(), input, output) && forall|i: int|
            0 <= i < self.size() ==> difference(
                x,
                input[i],
                self.center()[i],
                #[trigger] output[i],
            )
    }

    open spec fn refuses(
        &self,
        x: &A,
        input: Seq<Scalar>,
        room: nat,
        e: ErrorModel,
    ) -> bool {
        shape_refused(self.size(), input.len(), room, e)
    }

    fn transform(&self, input: &[Scalar], output: &mut [Scalar], x: &A) -> (r: Result<
        (),
    >)
        ensures
            r is Err ==> final(output)@ == old(output)@,
    {
        let n: usize = self.mean.len();
        if input.len() != n || output.len() != n {
            return Err(CompactError::DimensionMismatch { expected: n, found: input.len() });
        }
        let mut i: usize = 0;
        while i < n
            invariant
                i <= n == input@.len() == output@.len(),
                n == self.mean@.len(),
                forall|k: int|
                    0 <= k < i ==> difference(x, input@[k], self.mean@[k], #[trigger] output@[k]),
            decreases n - i,
        {
            let v = x.sub(input[i], self.mean[i]);
            assert(difference(x, input@[i as int], self.mean@[i as int], v));
            output[i] = v;
            i += 1;
        }
        Ok(())
    }
}

/// The deviation of coordinate `d` from its mean, but at least one millionth, may come out as
/// `s`.
pub open spec fn deviation_to<A: Arithmetic>(
    x: &A,
    data: Seq<Seq<Scalar>>,
    mean: Scalar,
    d: int,
    s: Scalar,
) -> bool {
    exists|v: Scalar, r: Scalar| #[trigger]
        variance_to(x, data, mean, d, v) && #[trigger] root(x, v, r) && s == at_least(
            r,
            millionth(),
        )
}

/// `(v - m) / s` may come out as `r`.
pub open spec fn standardizes_to<A: Arithmetic>(
    x: &A,
    v: Scalar,
    m: Scalar,
    s: Scalar,
    r: Scalar,
) -> bool {
    exists|d: Scalar| #[trigger] difference(x, v, m, d) && quotient(x, d, s, r)
}

/// The transform to mean zero and deviation one.
#[derive(Debug)]
pub struct Standardizer {
    mean: Vec<Scalar>,
    spread: Vec<Scalar>,
}

impl Standardizer {
    /// The mean.
    pub closed spec fn center(&self) -> Seq<Scalar> {
        self.mean@
    }

    /// The deviation.
    pub closed spec fn spread(&self) -> Seq<Scalar> {
        self.spread@
    }

    #[verifier::type_invariant]
    spec fn wf(self) -> bool {
        self.mean@.len() == self.spread@.len()
    }

    /// Standardize by the mean and deviation of data.
    pub fn from_data<A: Arithmetic>(data: &[Vec<Scalar>], x: &A) -> (r: Result<Standardizer>)
        ensures
            ({
                let d = rows(data@);
                match r {
                    Ok(t) => {
                        &&& average_fault(d, d[0].len()) is None
                        &&& t.center().len() == d[0].len()
                        &&& t.spread().len() == d[0].len()
                        &&& forall|i: int|
                            0 <= i < t.center().len() ==> mean_to(x, d, i, #[trigger] t.center()[i])
                        &&& forall|i: int|
                            0 <= i < t.spread().len() ==> deviation_to(
                                x,
                                d,
                                t.center()[i],
                                i,
                                #[trigger] t.spread()[i],
                            )
                    },
                    Err(e) => average_fault(d, d[0].len()) == Some(e@),
                }
            }),
    {
        let ghost d = rows(data@);
        let mean = match mean(data, x) {
            Ok(mean) => mean,
            Err(e) => return Err(e),
        };
        let var = match variance(data, mean.as_slice(), x) {
            Ok(var) => var,
            Err(e) => return Err(e),
        };
        let mut spread: Vec<Scalar> = Vec::new();
        let mut i: usize = 0;
        while i < var.len()
            invariant
                i <= var@.len() == mean@.len(),
                spread@.len() == i,
                forall|k: int|
                    0 <= k < var@.len() ==> variance_to(x, d, mean@[k], k, #[trigger] var@[k]),
                forall|k: int|
                    0 <= k < i ==> deviation_to(x, d, mean@[k], k, #[trigger] spread@[k]),
            decreases var@.len() - i,
        {
            let v = var[i];
            let r = x.sqrt(v);
            let s = if r.is_nan() || r.lt(millionth()) {
                millionth()
            } else {
                r
            };
            proof {
                assert(variance_to(x, d, mean@[i as int], i as int, v) && root(x, v, r));
                assert(deviation_to(x, d, mean@[i as int], i as int, s));
            }
            spread.push(s);
            i += 1;
        }
        Ok(Standardizer { mean, spread })
    }

    /// The mean.
    pub fn mean(&self) -> (r: &[Scalar])
        ensures
            r@ == self.center(),
    {
        self.mean.as_slice()
    }

    /// The deviation.
    pub fn deviation(&self) -> (r: &[Scalar])
        ensures
            r@ == self.spread(),
    {
        self.spread.as_slice()
    }
}

impl Clone for Standardizer {
    fn clone(&self) -> (r: Standardizer)
        ensures
            r.center() == self.center(),
            r.spread() == self.spread(),
    {
        proof {
            use_type_invariant(self);
        }
        Standardizer {
            mean: copy_of(self.mean.as_slice()),
            spread: copy_of(self.spread.as_slice()),
        }
    }
}

impl Dimensioned for Standardizer {
    open spec fn size(&self) -> nat {
        self.center().len()
    }

    fn dims(&self) -> (r: usize) {
        self.mean.len()
    }
}

impl<A: Arithmetic> Transform<A> for Standardizer {
    open spec fn maps(&self, x: &A, input: Seq<Scalar>, output: Seq<Scalar>) -> bool {
        shaped(self.size(), input, output) && forall|i: int|
            0 <= i < self.size() ==> standardizes_to(
                x,
                input[i],
                self.center()[i],
                self.spread()[i],
                #[trigger] output[i],
            )
    }

    open spec fn refuses(
        &self,
        x: &A,
        input: Seq<Scalar>,
        room: nat,
        e: ErrorModel,
    ) -> bool {
        shape_refused(self.size(), input.len(), room, e)
    }

    fn transform(&self, input: &[Scalar], output: &mut [Scalar], x: &A) -> (r: Result<
        (),
    >)
        ensures
            r is Err ==> final(output)@ == old(output)@,
    {
        proof {
            use_type_invariant(self);
        }
        let n: usize = self.mean.len();
        if input.len() != n || output.len() != n {
            return Err(CompactError::DimensionMismatch { expected: n, found: input.len() });
        }
        let mut i: usize = 0;
        while i < n
            invariant
                i <= n == input@.len() == output@.len(),
                n == self.mean@.len() == self.spread@.len(),
                forall|k: int|
                    0 <= k < i ==> standardizes_to(
                        x,
                        input@[k],
                        self.mean@[k],
                        self.spread@[k],
                        #[trigger] output@[k],
                    ),
            decreases n - i,
        {
            let d = x.sub(input[i], self.mean[i]);
            let v = x.div(d, self.spread[i]);
            assert(difference(x, input@[i as int], self.mean@[i as int], d) && quotient(
                x,
                d,
                self.spread@[i as int],
                v,
            ));
            assert(standardizes_to(
                x,
                input@[i as int],
                self.mean@[i as int],
                self.spread@[i as int],
                v,
            ));
            output[i] = v;
            i += 1;
        }
        Ok(())
    }
}

/// `a` and then `b` may turn `input` into `output`.
pub open spec fn maps_through<A: Arithmetic, T: Transform<A>, U: Transform<A>>(
    a: T,
    b: U,
    x: &A,
    input: Seq<Scalar>,
    output: Seq<Scalar>,
) -> bool {
    exists|mid: Seq<Scalar>| #[trigger] a.maps(x, input, mid) && b.maps(x, mid, output)
}

/// `b` may refuse with `e` what `a` turns `input` into.
pub open spec fn refused_later<A: Arithmetic, T: Transform<A>, U: Transform<A>>(
    a: T,
    b: U,
    x: &A,
    input: Seq<Scalar>,
    room: nat,
    e: ErrorModel,
) -> bool {
    exists|mid: Seq<Scalar>| #[trigger] a.maps(x, input, mid) && b.refuses(x, mid, room, e)
}

/// One transform after another.
pub struct Chain<T: Dimensioned, U: Dimensioned> {
    a: T,
    b: U,
}

impl<T: Dimensioned, U: Dimensioned> Chain<T, U> {
    /// The first transform.
    pub closed spec fn first(&self) -> T {
        self.a
    }

    /// The second transform.
    pub closed spec fn second(&self) -> U {
        self.b
    }

    /// Chain two transforms of the same number of coordinates.
    pub fn new(a: T, b: U) -> (r: Result<Chain<T, U>>)
        ensures
            match r {
                Ok(c) => a.size() == b.size() && c.first() == a && c.second() == b,
                Err(e) => a.size() != b.size() && e@ == (ErrorModel::DimensionMismatch {
                    expected: a.size(),
                    found: b.size(),
                }),
            },
    {
        let m: usize = a.dims();
        let n: usize = b.dims();
        if m != n {
            return Err(CompactError::DimensionMismatch { expected: m, found: n });
        }
        Ok(Chain { a, b })
    }
}

impl<T: Dimensioned, U: Dimensioned> Dimensioned for Chain<T, U> {
    open spec fn size(&self) -> nat {
        self.first().size()
    }

    fn dims(&self) -> (r: usize) {
        self.a.dims()
    }
}

impl<A: Arithmetic, T: Transform<A>, U: Transform<A>> Transform<A> for Chain<T, U> {
    open spec fn maps(&self, x: &A, input: Seq<Scalar>, output: Seq<Scalar>) -> bool {
        maps_through(self.first(), self.second(), x, input, output)
    }

    open spec fn refuses(
        &self,
        x: &A,
        input: Seq<Scalar>,
        room: nat,
        e: ErrorModel,
    ) -> bool {
        self.first().refuses(x, input, self.first().size(), e) || refused_later(
            self.first(),
            self.second(),
            x,
            input,
            room,
            e,
        )
    }

    fn transform(&self, input: &[Scalar], output: &mut [Scalar], x: &A) -> (r: Result<
        (),
    >)
        ensures
            r matches Err(e) && !refused_later(
                self.first(),
                self.second(),
                x,
                input@,
                old(output)@.len(),
                e@,
            ) ==> final(output)@ == old(output)@,
    {
        let mut mid = repeated(zero(), self.a.dims());
        match self.a.transform(input, mid.as_mut_slice(), x) {
            Ok(()) => {},
            Err(e) => return Err(e),
        }
        assert(self.a.maps(x, input@, mid@));
        match self.b.transform(mid.as_slice(), output, x) {
            Ok(()) => {
                assert(maps_through(self.a, self.b, x, input@, output@));
                Ok(())
            },
            Err(e) => {
                assert(refused_later(self.a, self.b, x, input@, old(output)@.len(), e@));
                Err(e)
            },
        }
    }
}

/// A chain hands to the second transform what the first one gives.
pub proof fn law_chain_goes_in_order<A: Arithmetic, T: Transform<A>, U: Transform<A>>(
    c: Chain<T, U>,
    x: &A,
    input: Seq<Scalar>,
    output: Seq<Scalar>,
)
    ensures
        c.maps(x, input, output) <==> exists|mid: Seq<Scalar>| #[trigger]
            c.first().maps(x, input, mid) && c.second().maps(x, mid, output),
{
}

/// Followed by the transform that changes nothing, a transform does what it does alone.
pub proof fn law_identity_adds_nothing<A: Arithmetic, T: Transform<A>>(
    c: Chain<T, Identity>,
    x: &A,
    input: Seq<Scalar>,
    output: Seq<Scalar>,
)
    ensures
        c.maps(x, input, output) <==> c.first().maps(x, input, output) && output.len()
            == c.second().width(),
{
    if c.first().maps(x, input, output) && output.len() == c.second().width() {
        assert(c.first().maps(x, input, output) && c.second().maps(x, output, output));
        assert(maps_through(c.first(), c.second(), x, input, output));
    }
}

/// A vector may be transformed into `v`.
pub open spec fn vector_maps<A: Arithmetic, T: Transform<A>>(
    t: &T,
    x: &A,
    input: Seq<Scalar>,
    v: Seq<Scalar>,
) -> bool {
    input.len() == t.size() && v.len() == t.size() && t.maps(x, input, v)
}

/// A vector may be refused with `e`.
pub open spec fn vector_refused<A: Arithmetic, T: Transform<A>>(
    t: &T,
    x: &A,
    input: Seq<Scalar>,
    e: ErrorModel,
) -> bool {
    if input.len() != t.size() {
        e == (ErrorModel::DimensionMismatch { expected: t.size(), found: input.len() })
    } else {
        t.refuses(x, input, t.size(), e)
    }
}

/// Vector `n` may be transformed.
pub open spec fn mappable<A: Arithmetic, T: Transform<A>>(
    t: &T,
    x: &A,
    data: Seq<Seq<Scalar>>,
    n: int,
) -> bool {
    exists|v: Seq<Scalar>| #[trigger] vector_maps(t, x, data[n], v)
}

/// Vector `i` is the first that may be refused, with `e`.
pub open spec fn dataset_refused_at<A: Arithmetic, T: Transform<A>>(
    t: &T,
    x: &A,
    data: Seq<Seq<Scalar>>,
    i: int,
    e: ErrorModel,
) -> bool {
    &&& 0 <= i < data.len()
    &&& vector_refused(t, x, data[i], e)
    &&& forall|n: int| 0 <= n < i ==> #[trigger] mappable(t, x, data, n)
}

/// Transform every vector, up to the first that is refused.
pub fn transform_dataset<A: Arithmetic, T: Transform<A>>(t: &T, data: &[Vec<Scalar>], x: &A) -> (r:
    Result<Vec<Vec<Scalar>>>)
    ensures
        match r {
            Ok(out) => out@.len() == data@.len() && forall|i: int|
                0 <= i < out@.len() ==> vector_maps(t, x, data@[i]@, (#[trigger] out@[i])@),
            Err(e) => exists|i: int| #[trigger] dataset_refused_at(t, x, rows(data@), i, e@),
        },
{
    let ghost d = rows(data@);
    let mut out: Vec<Vec<Scalar>> = Vec::new();
    let mut i: usize = 0;
    while i < data.len()
        invariant
            d == rows(data@),
            i <= data@.len(),
            out@.len() == i,
            forall|n: int|
                0 <= n < i ==> vector_maps(t, x, data@[n]@, (#[trigger] out@[n])@),
            forall|n: int| 0 <= n < i ==> #[trigger] mappable(t, x, d, n),
        decreases data@.len() - i,
    {
        assert(d[i as int] == data@[i as int]@);
        match t.transform_vector(data[i].as_slice(), x) {
            Ok(v) => {
                assert(vector_maps(t, x, d[i as int], v@));
                assert(mappable(t, x, d, i as int));
                out.push(v);
            },
            Err(e) => {
                assert(dataset_refused_at(t, x, d, i as int, e@));
                return Err(e);
            },
        }
        i += 1;
    }
    Ok(out)
}

} // verus!
