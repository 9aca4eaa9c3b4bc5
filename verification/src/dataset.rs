//! Datasets: made up, read from text, and sampled.
use crate::errors::{CompactError, ErrorModel, HeaderFault, HeaderModel, Result};
use crate::numerals::{list_reads, list_text, parse_text, parses, unparsed, Numerals};
use crate::ops::lengths_fault;
use crate::quant::{copy_of, rows};
use crate::scalar::{counted, difference, product, quotient, total, Arithmetic, Scalar};
use crate::scalar::{minus_one, one, thousand};
use crate::text::{chars_of, is_space, space, string_of, trim, trimmed};
use crate::wide::{narrowed, share, share_of, Wide, WideArithmetic};
use vstd::prelude::*;

pub mod laws;

verus! {

/// Vectors and their number of coordinates.
#[derive(Debug)]
pub struct Dataset {
    pub vectors: Vec<Vec<Scalar>>,
    pub dims: usize,
}

/// What keeps vectors from being a dataset, if anything.
pub open spec fn dataset_fault(data: Seq<Seq<Scalar>>) -> Option<ErrorModel> {
    if data.len() == 0 {
        Some(ErrorModel::EmptyDataset)
    } else if data[0].len() == 0 {
        Some(ErrorModel::InvalidHeader(HeaderModel::Text("dataset dims 0"@)))
    } else {
        lengths_fault(data, data[0].len(), 0)
    }
}

impl Dataset {
    /// The vectors.
    pub open spec fn data(&self) -> Seq<Seq<Scalar>> {
        rows(self.vectors@)
    }

    /// A dataset of vectors of the same, positive number of coordinates.
    pub fn new(vectors: Vec<Vec<Scalar>>) -> (r: Result<Dataset>)
        ensures
            match r {
                Ok(d) => dataset_fault(rows(vectors@)) is None && d.vectors@ == vectors@ && d.dims
                    == vectors@[0]@.len(),
                Err(e) => dataset_fault(rows(vectors@)) == Some(e@),
            },
    {
        let ghost data = rows(vectors@);
        if vectors.len() == 0 {
            return Err(CompactError::EmptyDataset);
        }
        let dims: usize = vectors[0].len();
        if dims == 0 {
            return Err(CompactError::invalid_header("dataset dims 0"));
        }
        let mut i: usize = 0;
        while i < vectors.len()
            invariant
                data == rows(vectors@),
                data.len() > 0,
                dims == data[0].len(),
                dims > 0,
                i <= vectors@.len(),
                lengths_fault(data, dims as nat, 0) == lengths_fault(data, dims as nat, i as nat),
            decreases vectors@.len() - i,
        {
            if vectors[i].len() != dims {
                return Err(
                    CompactError::DimensionMismatch { expected: dims, found: vectors[i].len() },
                );
            }
            i += 1;
        }
        Ok(Dataset { vectors, dims })
    }

    /// Number of vectors.
    pub fn len(&self) -> (r: usize)
        ensures
            r == self.data().len(),
    {
        self.vectors.len()
    }

    /// Whether there are no vectors.
    pub fn is_empty(&self) -> (r: bool)
        ensures
            r == (self.data().len() == 0),
    {
        self.vectors.len() == 0
    }

    /// The vectors.
    pub fn to_vec(self) -> (r: Vec<Vec<Scalar>>)
        ensures
            r@ == self.vectors@,
    {
        self.vectors
    }

    /// The first `n` vectors, or all if there are fewer.
    pub fn sample(&self, n: usize) -> (r: Vec<Vec<Scalar>>)
        ensures
            rows(r@) == (if n < self.data().len() {
                self.data().take(n as int)
            } else {
                self.data()
            }),
    {
        let mut r: Vec<Vec<Scalar>> = Vec::new();
        let mut i: usize = 0;
        while i < n && i < self.vectors.len()
            invariant
                i <= n,
                i <= self.vectors@.len(),
                r@.len() == i,
                forall|k: int| 0 <= k < i ==> (#[trigger] r@[k])@ == self.vectors@[k]@,
            decreases self.vectors@.len() - i,
        {
            r.push(copy_of(self.vectors[i].as_slice()));
            i += 1;
        }
        if n < self.vectors.len() {
            assert(rows(r@) =~= self.data().take(n as int));
        } else {
            assert(rows(r@) =~= self.data());
        }
        r
    }
}

/// The first `max` coordinates, each with four digits after the point and commas in between.
pub fn format_vector<N: Numerals>(v: &[Scalar], max: usize, n: &N) -> (s: String)
    ensures
        list_reads(
            n,
            if v@.len() > max {
                v@.take(max as int)
            } else {
                v@
            },
            4,
            ", "@,
            s@,
        ),
{
    if v.len() > max {
        assert(v@.subrange(0, max as int) =~= v@.take(max as int));
        list_text(&v[0..max], 4, ", ", n)
    } else {
        list_text(v, 4, ", ", n)
    }
}

// ---------------------------------------------------------------------------
// Made-up vectors
// ---------------------------------------------------------------------------

/// The state after `s`: three shifts, each combined by exclusive or.
pub open spec fn next_state(s: u64) -> u64 {
    let a = s ^ (s << 13);
    let b = a ^ (a >> 7);
    b ^ (b << 17)
}

/// The state `n` steps after `s`.
pub open spec fn state_after(s: u64, n: nat) -> u64
    decreases n,
{
    if n == 0 {
        s
    } else {
        next_state(state_after(s, (n - 1) as nat))
    }
}

fn advance(s: u64) -> (r: u64)
    ensures
        r == next_state(s),
{
    let a: u64 = s ^ (s << 13);
    let b: u64 = a ^ (a >> 7);
    b ^ (b << 17)
}

/// A state as a fraction of the largest one may come out as `u`.
pub open spec fn fraction_to<W: WideArithmetic>(w: &W, state: u64, u: Scalar) -> bool {
    exists|q: Wide| #[trigger] share(w, state, u64::MAX, q) && narrowed(w, q, u)
}

/// The number that a fraction `u` of the way from `low` to `high` may come out as.
pub open spec fn between_to<A: Arithmetic>(
    x: &A,
    low: Scalar,
    high: Scalar,
    u: Scalar,
    v: Scalar,
) -> bool {
    exists|range: Scalar, p: Scalar| #[trigger]
        difference(x, high, low, range) && #[trigger] product(x, u, range, p) && total(x, low, p, v)
}

/// A number held in the interval from `low` up to, but without, `high`; as it is if there is
/// nothing in the interval.
pub open spec fn held(v: Scalar, low: Scalar, high: Scalar) -> Scalar {
    if !low.below(high) {
        v
    } else if !low.at_most(v) {
        low
    } else if !v.below(high) {
        high.previous_spec()
    } else {
        v
    }
}

fn hold(v: Scalar, low: Scalar, high: Scalar) -> (r: Scalar)
    ensures
        r == held(v, low, high),
        low.below(high) ==> low.at_most(r) && r.below(high),
{
    if !low.lt(high) {
        v
    } else if !low.le(v) {
        low
    } else if !v.lt(high) {
        high.previous()
    } else {
        v
    }
}

/// A fraction `u` of the way from `low` to `high`, held in the interval, may come out as `v`.
pub open spec fn within_to<A: Arithmetic>(
    x: &A,
    low: Scalar,
    high: Scalar,
    u: Scalar,
    v: Scalar,
) -> bool {
    exists|n: Scalar| #[trigger] between_to(x, low, high, u, n) && v == held(n, low, high)
}

/// In a state, the number drawn between `low` and `high` may come out as `v`.
pub open spec fn draws<A: Arithmetic, W: WideArithmetic>(
    x: &A,
    w: &W,
    low: Scalar,
    high: Scalar,
    state: u64,
    v: Scalar,
) -> bool {
    exists|u: Scalar| #[trigger] fraction_to(w, state, u) && within_to(x, low, high, u, v)
}

fn draw<A: Arithmetic, W: WideArithmetic>(low: Scalar, high: Scalar, state: u64, x: &A, w: &W) -> (v:
    Scalar)
    ensures
        draws(x, w, low, high, state, v),
        low.below(high) ==> low.at_most(v) && v.below(high),
{
    let q = share_of(state, u64::MAX, w);
    let u = w.narrow(q);
    let range = x.sub(high, low);
    let p = x.mul(u, range);
    let n = x.add(low, p);
    let v = hold(n, low, high);
    proof {
        assert(share(w, state, u64::MAX, q) && narrowed(w, q, u));
        assert(fraction_to(w, state, u));
        assert(difference(x, high, low, range) && product(x, u, range, p) && total(x, low, p, n));
        assert(between_to(x, low, high, u, n));
        assert(within_to(x, low, high, u, v));
    }
    v
}

/// `data` may be `count` vectors of `dims` numbers drawn one after another from `start`.
pub open spec fn drawn<A: Arithmetic, W: WideArithmetic>(
    x: &A,
    w: &W,
    count: nat,
    dims: nat,
    low: Scalar,
    high: Scalar,
    start: u64,
    data: Seq<Seq<Scalar>>,
) -> bool {
    &&& data.len() == count
    &&& forall|i: int|
        0 <= i < count ==> #[trigger] row_drawn(x, w, i, dims, low, high, start, data[i])
}

/// `row` may be vector `i` of those drawn from `start`.
pub open spec fn row_drawn<A: Arithmetic, W: WideArithmetic>(
    x: &A,
    w: &W,
    i: int,
    dims: nat,
    low: Scalar,
    high: Scalar,
    start: u64,
    row: Seq<Scalar>,
) -> bool {
    &&& row.len() == dims
    &&& forall|d: int|
        0 <= d < dims ==> draws(
            x,
            w,
            low,
            high,
            state_after(start, (i * dims + d + 1) as nat),
            #[trigger] row[d],
        )
}

/// The state that drawing starts from.
pub open spec fn first_state(seed: u64) -> u64 {
    if seed == 0 {
        1
    } else {
        seed
    }
}

/// A thousandth part of the state's remainder, less one and times `spread`, may come out as
/// `n`.
pub open spec fn noise_to<A: Arithmetic>(x: &A, state: u64, spread: Scalar, n: Scalar) -> bool {
    exists|c: Scalar, q: Scalar, d: Scalar| #[trigger]
        counted(x, (state % 2000) as usize, c) && #[trigger] quotient(x, c, thousand(), q)
            && #[trigger] difference(x, q, one(), d) && product(x, d, spread, n)
}

/// `center` with noise may come out as `v`.
pub open spec fn scatters<A: Arithmetic>(
    x: &A,
    center: Scalar,
    state: u64,
    spread: Scalar,
    v: Scalar,
) -> bool {
    exists|n: Scalar| #[trigger] noise_to(x, state, spread, n) && total(x, center, n, v)
}

fn scatter<A: Arithmetic>(center: Scalar, state: u64, spread: Scalar, x: &A) -> (v: Scalar)
    ensures
        scatters(x, center, state, spread, v),
{
    let c = x.of_count((state % 2000) as usize);
    let q = x.div(c, thousand());
    let d = x.sub(q, one());
    let n = x.mul(d, spread);
    let v = x.add(center, n);
    proof {
        assert(counted(x, (state % 2000) as usize, c) && quotient(x, c, thousand(), q)
            && difference(x, q, one(), d) && product(x, d, spread, n));
        assert(noise_to(x, state, spread, n) && total(x, center, n, v));
    }
    v
}

/// `row` may be vector `i` of those scattered around their centers from `start`.
pub open spec fn row_scattered<A: Arithmetic>(
    x: &A,
    i: int,
    dims: nat,
    center: Seq<Scalar>,
    spread: Scalar,
    start: u64,
    row: Seq<Scalar>,
) -> bool {
    &&& row.len() == dims
    &&& forall|d: int|
        0 <= d < dims ==> scatters(
            x,
            center[d],
            state_after(start, (i * dims + d + 1) as nat),
            spread,
            #[trigger] row[d],
        )
}

/// `data` may be `count` vectors around the centers in turn.
pub open spec fn scattered<A: Arithmetic>(
    x: &A,
    count: nat,
    dims: nat,
    centers: Seq<Seq<Scalar>>,
    spread: Scalar,
    start: u64,
    data: Seq<Seq<Scalar>>,
) -> bool {
    &&& data.len() == count
    &&& forall|i: int|
        0 <= i < count ==> #[trigger] row_scattered(
            x,
            i,
            dims,
            centers[i % centers.len() as int],
            spread,
            start,
            data[i],
        )
}

/// `data` may be a clustered dataset.
pub open spec fn clustered<A: Arithmetic, W: WideArithmetic>(
    x: &A,
    w: &W,
    count: nat,
    dims: nat,
    clusters: nat,
    spread: Scalar,
    seed: u64,
    data: Seq<Seq<Scalar>>,
) -> bool {
    exists|centers: Seq<Seq<Scalar>>| #[trigger]
        drawn(x, w, clusters, dims, minus_one(), one(), first_state(seed), centers) && scattered(
            x,
            count,
            dims,
            centers,
            spread,
            seed.wrapping_mul(0x9e37_79b9_7f4a_7c15),
            data,
        )
}

impl Dataset {
    /// `count` vectors of `dims` numbers from `low` up to, but without, `high`, determined by
    /// `seed`.
    pub fn synthetic_uniform<A: Arithmetic, W: WideArithmetic>(
        count: usize,
        dims: usize,
        low: Scalar,
        high: Scalar,
        seed: u64,
        x: &A,
        w: &W,
    ) -> (r: Dataset)
        ensures
            r.dims == dims,
            drawn(x, w, count as nat, dims as nat, low, high, first_state(seed), r.data()),
            low.below(high) ==> forall|i: int, d: int|
                0 <= i < count && 0 <= d < dims ==> low.at_most(#[trigger] r.data()[i][d])
                    && r.data()[i][d].below(high),
    {
        let start: u64 = if seed == 0 {
            1
        } else {
            seed
        };
        let mut state: u64 = start;
        let mut vectors: Vec<Vec<Scalar>> = Vec::new();
        assert(0 * dims == 0) by (nonlinear_arith);
        while vectors.len() < count
            invariant
                vectors@.len() <= count,
                state == state_after(start, (vectors@.len() * dims) as nat),
                forall|i: int|
                    0 <= i < vectors@.len() ==> #[trigger] row_drawn(
                        x,
                        w,
                        i,
                        dims as nat,
                        low,
                        high,
                        start,
                        rows(vectors@)[i],
                    ),
                low.below(high) ==> forall|i: int, d: int|
                    0 <= i < vectors@.len() && 0 <= d < dims ==> low.at_most(
                        #[trigger] rows(vectors@)[i][d],
                    ) && rows(vectors@)[i][d].below(high),
            decreases count - vectors@.len(),
        {
            let ghost i = vectors@.len();
            let mut v: Vec<Scalar> = Vec::new();
            while v.len() < dims
                invariant
                    v@.len() <= dims,
                    state == state_after(start, (i * dims + v@.len()) as nat),
                    forall|d: int|
                        0 <= d < v@.len() ==> draws(
                            x,
                            w,
                            low,
                            high,
                            state_after(start, (i * dims + d + 1) as nat),
                            #[trigger] v@[d],
                        ),
                    low.below(high) ==> forall|d: int|
                        0 <= d < v@.len() ==> low.at_most(#[trigger] v@[d]) && v@[d].below(high),
                decreases dims - v@.len(),
            {
                let ghost d = v@.len();
                assert((i * dims + d + 1) - 1 == i * dims + d);
                state = advance(state);
                assert(state == state_after(start, (i * dims + d + 1) as nat));
                v.push(draw(low, high, state, x, w));
            }
            let ghost before = vectors@;
            let ghost row = v@;
            vectors.push(v);
            proof {
                assert(i * dims + dims == (i + 1) * dims) by (nonlinear_arith);
                assert(row_drawn(x, w, i as int, dims as nat, low, high, start, row));
                assert forall|k: int| 0 <= k < i + 1 implies #[trigger] row_drawn(
                    x,
                    w,
                    k,
                    dims as nat,
                    low,
                    high,
                    start,
                    rows(vectors@)[k],
                ) by {
                    if k < i {
                        assert(rows(vectors@)[k] == rows(before)[k]);
                    } else {
                        assert(rows(vectors@)[k] == row);
                    }
                }
                if low.below(high) {
                    assert forall|k: int, d: int| 0 <= k < i + 1 && 0 <= d < dims implies low.at_most(
                        #[trigger] rows(vectors@)[k][d],
                    ) && rows(vectors@)[k][d].below(high) by {
                        if k < i {
                            assert(rows(vectors@)[k][d] == rows(before)[k][d]);
                        } else {
                            assert(rows(vectors@)[k][d] == row[d]);
                        }
                    }
                }
            }
        }
        Dataset { vectors, dims }
    }

    /// `count` vectors scattered around `clusters` centers in turn, determined by `seed`.
    pub fn synthetic_clustered<A: Arithmetic, W: WideArithmetic>(
        count: usize,
        dims: usize,
        clusters: usize,
        spread: Scalar,
        seed: u64,
        x: &A,
        w: &W,
    ) -> (r: Dataset)
        requires
            clusters > 0 || count == 0,
        ensures
            r.dims == dims,
            clustered(
                x,
                w,
                count as nat,
                dims as nat,
                clusters as nat,
                spread,
                seed,
                r.data(),
            ),
    {
        let centers = Dataset::synthetic_uniform(clusters, dims, minus_one(), one(), seed, x, w);
        let ghost all = centers.data();
        let start: u64 = seed.wrapping_mul(0x9e37_79b9_7f4a_7c15);
        let mut state: u64 = start;
        let mut vectors: Vec<Vec<Scalar>> = Vec::new();
        assert(0 * dims == 0) by (nonlinear_arith);
        while vectors.len() < count
            invariant
                clusters > 0 || count == 0,
                all == centers.data(),
                drawn(
                    x,
                    w,
                    clusters as nat,
                    dims as nat,
                    minus_one(),
                    one(),
                    first_state(seed),
                    all,
                ),
                vectors@.len() <= count,
                state == state_after(start, (vectors@.len() * dims) as nat),
                forall|i: int|
                    0 <= i < vectors@.len() ==> #[trigger] row_scattered(
                        x,
                        i,
                        dims as nat,
                        all[i % all.len() as int],
                        spread,
                        start,
                        rows(vectors@)[i],
                    ),
            decreases count - vectors@.len(),
        {
            let at: usize = vectors.len() % clusters;
            let center = centers.vectors[at].as_slice();
            let ghost i = vectors@.len();
            proof {
                assert(all[at as int] == center@);
                assert(row_drawn(
                    x,
                    w,
                    at as int,
                    dims as nat,
                    minus_one(),
                    one(),
                    first_state(seed),
                    all[at as int],
                ));
            }
            let mut v: Vec<Scalar> = Vec::new();
            while v.len() < dims
                invariant
                    v@.len() <= dims == center@.len(),
                    state == state_after(start, (i * dims + v@.len()) as nat),
                    forall|d: int|
                        0 <= d < v@.len() ==> scatters(
                            x,
                            center@[d],
                            state_after(start, (i * dims + d + 1) as nat),
                            spread,
                            #[trigger] v@[d],
                        ),
                decreases dims - v@.len(),
            {
                let ghost d = v@.len();
                assert((i * dims + d + 1) - 1 == i * dims + d);
                state = advance(state);
                assert(state == state_after(start, (i * dims + d + 1) as nat));
                v.push(scatter(center[v.len()], state, spread, x));
            }
            let ghost before = vectors@;
            let ghost row = v@;
            vectors.push(v);
            proof {
                assert(i * dims + dims == (i + 1) * dims) by (nonlinear_arith);
                assert(row_scattered(x, i as int, dims as nat, center@, spread, start, row));
                assert forall|k: int| 0 <= k < i + 1 implies #[trigger] row_scattered(
                    x,
                    k,
                    dims as nat,
                    all[k % all.len() as int],
                    spread,
                    start,
                    rows(vectors@)[k],
                ) by {
                    if k < i {
                        assert(rows(vectors@)[k] == rows(before)[k]);
                    } else {
                        assert(rows(vectors@)[k] == row);
                    }
                }
            }
        }
        proof {
            assert(scattered(x, count as nat, dims as nat, all, spread, start, rows(vectors@)));
        }
        Dataset { vectors, dims }
    }
}

// ---------------------------------------------------------------------------
// Nested lists of numbers
// ---------------------------------------------------------------------------

/// How far a nested list has been read.
#[verifier::ext_equal]
pub ghost struct Reading {
    /// Vectors that are complete.
    pub done: Seq<Seq<Scalar>>,
    /// Brackets that are open.
    pub depth: nat,
    /// Numbers of the vector being read.
    pub row: Seq<Scalar>,
    /// Characters of the number being read.
    pub number: Seq<char>,
    /// Whether a vector is being read.
    pub inside: bool,
}

/// What one more character leads to.
pub ghost enum Step {
    Going(Reading),
    /// A text that is not a number.
    BadNumber(Seq<char>),
    /// More brackets closed than opened.
    Unopened,
}

/// Nothing read yet.
pub open spec fn nothing_read() -> Reading {
    Reading {
        done: Seq::empty(),
        depth: 0,
        row: Seq::empty(),
        number: Seq::empty(),
        inside: false,
    }
}

/// The end of a number may lead to `s`; outside of a vector, and without characters, there is
/// no number.
pub open spec fn number_ends<N: Numerals>(n: &N, p: Reading, s: Step) -> bool {
    if !p.inside || p.number.len() == 0 {
        s == Step::Going(p)
    } else {
        number_read(n, p, s) || number_unread(n, p.number) && s == Step::BadNumber(p.number)
    }
}

/// The number may be read, which leads to `s`.
pub open spec fn number_read<N: Numerals>(n: &N, p: Reading, s: Step) -> bool {
    exists|v: Scalar| #[trigger] parses(n, p.number, v) && s == Step::Going(
        Reading { row: p.row.push(v), number: Seq::empty(), ..p },
    )
}

/// A text may be no number.
pub open spec fn number_unread<N: Numerals>(n: &N, text: Seq<char>) -> bool {
    exists|msg: Seq<char>| #[trigger] unparsed(n, text, msg)
}

/// An opening bracket; the second one begins a vector.
pub open spec fn opened(p: Reading) -> Reading {
    if p.depth + 1 == 2 {
        Reading { depth: 2, row: Seq::empty(), inside: true, ..p }
    } else {
        Reading { depth: p.depth + 1, ..p }
    }
}

/// A closing bracket; the second one from outside completes a vector.
pub open spec fn closed(p: Reading) -> Step {
    let q = if p.depth == 2 && p.inside {
        Reading { done: p.done.push(p.row), inside: false, ..p }
    } else {
        p
    };
    if q.depth == 0 {
        Step::Unopened
    } else {
        Step::Going(Reading { depth: (q.depth - 1) as nat, ..q })
    }
}

/// A closing bracket after the end of a number.
pub open spec fn closed_after(s: Step) -> Step {
    match s {
        Step::Going(p) => closed(p),
        _ => s,
    }
}

/// A number may end and a bracket close, which leads to `s`.
pub open spec fn closes<N: Numerals>(n: &N, p: Reading, s: Step) -> bool {
    exists|t: Step| #[trigger] number_ends(n, p, t) && s == closed_after(t)
}

/// The character `c` may lead to `s`.
pub open spec fn step_to<N: Numerals>(n: &N, p: Reading, c: char, s: Step) -> bool {
    if c == '[' {
        s == Step::Going(opened(p))
    } else if c == ']' {
        closes(n, p, s)
    } else if c == ',' {
        number_ends(n, p, s)
    } else if is_space(c) {
        s == Step::Going(p)
    } else {
        s == Step::Going(Reading { number: p.number.push(c), ..p })
    }
}

/// The first `k` characters may be read up to `p`.
pub open spec fn reads_to<N: Numerals>(n: &N, t: Seq<char>, k: nat, p: Reading) -> bool
    decreases k,
{
    if k == 0 {
        p == nothing_read()
    } else {
        exists|q: Reading|
            reads_to(n, t, (k - 1) as nat, q) && #[trigger] step_to(
                n,
                q,
                t[k - 1],
                Step::Going(p),
            )
    }
}

/// Reading may stop at character `k` for the reason `s`.
pub open spec fn stops_at<N: Numerals>(
    n: &N,
    t: Seq<char>,
    k: nat,
    q: Reading,
    s: Step,
) -> bool {
    &&& k < t.len()
    &&& reads_to(n, t, k, q)
    &&& step_to(n, q, t[k as int], s)
    &&& s !is Going
}

/// Reading may stop for the reason `s`.
pub open spec fn stops<N: Numerals>(n: &N, t: Seq<char>, s: Step) -> bool {
    exists|k: nat, q: Reading| #[trigger] stops_at(n, t, k, q, s)
}

/// The whole text may be read as the vectors `data`.
pub open spec fn reads_whole<N: Numerals>(n: &N, t: Seq<char>, data: Seq<Seq<Scalar>>) -> bool {
    exists|p: Reading| #[trigger] reads_to(n, t, t.len(), p) && p.done == data
}

/// A text within brackets.
pub open spec fn bracketed(t: Seq<char>) -> bool {
    t.len() > 0 && t[0] == '[' && t.last() == ']'
}

/// Reading `t` may fail with `e`.
pub open spec fn list_fails<N: Numerals>(n: &N, t: Seq<char>, e: ErrorModel) -> bool {
    if !bracketed(t) {
        e == ErrorModel::InvalidHeader(HeaderModel::Text("json must start with ["@))
    } else {
        bad_number(n, t, e) || unusable(n, t, e)
    }
}

/// A number of `t` may be unreadable, which is reported as `e`.
pub open spec fn bad_number<N: Numerals>(n: &N, t: Seq<char>, e: ErrorModel) -> bool {
    exists|text: Seq<char>| #[trigger]
        stops(n, t, Step::BadNumber(text)) && e == ErrorModel::InvalidHeader(
            HeaderModel::Text("bad float "@ + text),
        )
}

/// The vectors of `t` may be no dataset, which is reported as `e`.
pub open spec fn unusable<N: Numerals>(n: &N, t: Seq<char>, e: ErrorModel) -> bool {
    exists|data: Seq<Seq<Scalar>>| #[trigger]
        reads_whole(n, t, data) && dataset_fault(data) == Some(e)
}

/// More brackets may be closed than opened.
pub open spec fn unopened<N: Numerals>(n: &N, t: Seq<char>) -> bool {
    bracketed(t) && stops(n, t, Step::Unopened)
}

/// Open brackets after the first `k` characters, closed ones taken off.
pub open spec fn open_brackets(t: Seq<char>, k: nat) -> int
    decreases k,
{
    if k == 0 {
        0
    } else if t[k - 1] == '[' {
        open_brackets(t, (k - 1) as nat) + 1
    } else if t[k - 1] == ']' {
        open_brackets(t, (k - 1) as nat) - 1
    } else {
        open_brackets(t, (k - 1) as nat)
    }
}

proof fn lemma_depth<N: Numerals>(n: &N, t: Seq<char>, k: nat, p: Reading)
    requires
        k <= t.len(),
        reads_to(n, t, k, p),
    ensures
        p.depth == open_brackets(t, k),
    decreases k,
{
    if k > 0 {
        let q = choose|q: Reading|
            reads_to(n, t, (k - 1) as nat, q) && #[trigger] step_to(
                n,
                q,
                t[k - 1],
                Step::Going(p),
            );
        lemma_depth(n, t, (k - 1) as nat, q);
    }
}

/// Where no bracket is closed before it is opened, reading never finds one.
pub proof fn law_nested_lists_are_read<N: Numerals>(n: &N, t: Seq<char>)
    requires
        forall|k: nat| k <= t.len() ==> #[trigger] open_brackets(t, k) >= 0,
    ensures
        !unopened(n, t),
{
    if unopened(n, t) {
        let (k, q) = choose|k: nat, q: Reading| #[trigger] stops_at(n, t, k, q, Step::Unopened);
        lemma_depth(n, t, k, q);
        assert(open_brackets(t, k + 1) == open_brackets(t, k) - 1);
        assert(open_brackets(t, k + 1) >= 0);
    }
}

/// A nested list as far as it has been read.
struct Partial {
    done: Vec<Vec<Scalar>>,
    depth: usize,
    row: Vec<Scalar>,
    number: Vec<char>,
    inside: bool,
}

impl View for Partial {
    type V = Reading;

    closed spec fn view(&self) -> Reading {
        Reading {
            done: rows(self.done@),
            depth: self.depth as nat,
            row: self.row@,
            number: self.number@,
            inside: self.inside,
        }
    }
}

/// What a character leads to.
enum Next {
    Going(Partial),
    BadNumber(Vec<char>),
    Unopened,
}

spec fn step_of(next: Next) -> Step {
    match next {
        Next::Going(p) => Step::Going(p@),
        Next::BadNumber(text) => Step::BadNumber(text@),
        Next::Unopened => Step::Unopened,
    }
}

fn end_number<N: Numerals>(p: Partial, n: &N) -> (next: Next)
    ensures
        number_ends(n, p@, step_of(next)),
        next !is Unopened,
        next matches Next::Going(q) ==> q.depth == p.depth,
{
    let ghost before = p@;
    if !p.inside || p.number.len() == 0 {
        return Next::Going(p);
    }
    let text = string_of(p.number.as_slice());
    match parse_text(text.as_str(), n) {
        Ok(v) => {
            let mut q = p;
            q.row.push(v);
            q.number = Vec::new();
            assert(parses(n, before.number, v));
            assert(q@ =~= Reading {
                row: before.row.push(v),
                number: Seq::empty(),
                ..before
            });
            Next::Going(q)
        },
        Err(msg) => {
            assert(unparsed(n, before.number, msg@));
            Next::BadNumber(p.number)
        },
    }
}

fn close(p: Partial) -> (next: Next)
    ensures
        step_of(next) == closed(p@),
        next !is BadNumber,
        next matches Next::Going(q) ==> q.depth == p.depth - 1,
{
    let mut q = p;
    let ghost before = p@;
    if q.depth == 2 && q.inside {
        let row = copy_of(q.row.as_slice());
        let ghost done = q.done@;
        q.done.push(row);
        q.inside = false;
        assert(rows(q.done@) =~= rows(done).push(row@));
        assert(q@ =~= Reading { done: before.done.push(before.row), inside: false, ..before });
    }
    if q.depth == 0 {
        return Next::Unopened;
    }
    q.depth = q.depth - 1;
    Next::Going(q)
}

fn take<N: Numerals>(p: Partial, c: char, n: &N) -> (next: Next)
    requires
        p.depth < usize::MAX,
    ensures
        step_to(n, p@, c, step_of(next)),
        next matches Next::Going(q) ==> q.depth <= p.depth + 1,
{
    let ghost before = p@;
    if c == '[' {
        let mut q = p;
        q.depth = q.depth + 1;
        if q.depth == 2 {
            q.row = Vec::new();
            q.inside = true;
        }
        assert(q@ =~= opened(before));
        Next::Going(q)
    } else if c == ']' {
        match end_number(p, n) {
            Next::Going(q) => {
                let ghost mid = q@;
                let next = close(q);
                assert(number_ends(n, before, Step::Going(mid)));
                assert(closes(n, before, step_of(next)));
                next
            },
            Next::BadNumber(text) => {
                assert(number_ends(n, before, Step::BadNumber(text@)));
                assert(closes(n, before, Step::BadNumber(text@)));
                Next::BadNumber(text)
            },
            Next::Unopened => Next::Unopened,
        }
    } else if c == ',' {
        end_number(p, n)
    } else if space(c) {
        Next::Going(p)
    } else {
        let mut q = p;
        q.number.push(c);
        assert(q@ =~= Reading { number: before.number.push(c), ..before });
        Next::Going(q)
    }
}

proof fn lemma_reads_step<N: Numerals>(n: &N, t: Seq<char>, k: nat, q: Reading, p: Reading)
    requires
        k > 0,
        reads_to(n, t, (k - 1) as nat, q),
        step_to(n, q, t[k - 1], Step::Going(p)),
    ensures
        reads_to(n, t, k, p),
{
}

impl Dataset {
    /// Read a list of lists of numbers, such as `[[0, 1], [2, 3]]`; nothing where a bracket is
    /// closed that was not opened.
    pub fn try_from_json_array<N: Numerals>(s: &str, n: &N) -> (r: Option<Result<Dataset>>)
        ensures
            match r {
                None => unopened(n, trim(s@)),
                Some(Ok(d)) => {
                    &&& bracketed(trim(s@))
                    &&& reads_whole(n, trim(s@), d.data())
                    &&& dataset_fault(d.data()) is None
                    &&& d.dims == d.data()[0].len()
                },
                Some(Err(e)) => list_fails(n, trim(s@), e@),
            },
    {
        let all = chars_of(s);
        let t = trimmed(all.as_slice());
        let len: usize = t.len();
        if len == 0 || t[0] != '[' || t[len - 1] != ']' {
            return Some(Err(CompactError::invalid_header("json must start with [")));
        }
        let mut p = Partial {
            done: Vec::new(),
            depth: 0,
            row: Vec::new(),
            number: Vec::new(),
            inside: false,
        };
        assert(p@ =~= nothing_read()) by {
            assert(rows(p.done@) =~= Seq::<Seq<Scalar>>::empty());
        }
        let mut i: usize = 0;
        while i < len
            invariant
                len == t@.len(),
                t@ == trim(s@),
                bracketed(t@),
                i <= len,
                p.depth <= i,
                reads_to(n, t@, i as nat, p@),
            decreases len - i,
        {
            let ghost q = p@;
            match take(p, t[i], n) {
                Next::Going(next) => {
                    p = next;
                    proof {
                        lemma_reads_step(n, t@, (i + 1) as nat, q, p@);
                    }
                },
                Next::BadNumber(text) => {
                    let mut msg: String = "bad float ".to_owned();
                    let shown = string_of(text.as_slice());
                    msg.append(shown.as_str());
                    proof {
                        assert(stops_at(n, t@, i as nat, q, Step::BadNumber(text@)));
                        assert(stops(n, t@, Step::BadNumber(text@)));
                        assert(bad_number(n, t@, ErrorModel::InvalidHeader(HeaderModel::Text(msg@))));
                    }
                    return Some(Err(CompactError::InvalidHeader(HeaderFault::Text(msg))));
                },
                Next::Unopened => {
                    assert(stops_at(n, t@, i as nat, q, Step::Unopened));
                    return None;
                },
            }
            i += 1;
        }
        let ghost data = rows(p.done@);
        assert(reads_to(n, t@, t@.len(), p@) && p@.done == data);
        assert(reads_whole(n, t@, data));
        let made = Dataset::new(p.done);
        match made {
            Ok(d) => {
                assert(d.data() =~= data);
                Some(Ok(d))
            },
            Err(e) => {
                assert(unusable(n, t@, e@));
                Some(Err(e))
            },
        }
    }

    /// Read a list of lists of numbers in which no bracket is closed that was not opened.
    pub fn from_json_array<N: Numerals>(s: &str, n: &N) -> (r: Result<Dataset>)
        requires
            !unopened(n, trim(s@)),
        ensures
            match r {
                Ok(d) => {
                    &&& bracketed(trim(s@))
                    &&& reads_whole(n, trim(s@), d.data())
                    &&& dataset_fault(d.data()) is None
                    &&& d.dims == d.data()[0].len()
                },
                Err(e) => list_fails(n, trim(s@), e@),
            },
    {
        match Dataset::try_from_json_array(s, n) {
            Some(r) => r,
            None => Err(CompactError::EmptyDataset),
        }
    }
}

} // verus!
