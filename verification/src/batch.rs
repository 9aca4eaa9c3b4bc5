//! Working on many vectors at a time: buffered writing, calibration in parts, reading in
//! chunks, and many queries.
use crate::bins::dequantizes_to;
use crate::cache::reads_back;
use crate::errors::{CompactError, ErrorModel, Result};
use crate::plan::{parts_of, partition, split, worker_count, workers};
use crate::quant::{
    bounds_outcome, calibrated, column, extents, highest, law_bounds_accepted,
    law_calibration_encloses, lowest, made, rows, Bounds, Quantizer,
};
use crate::ranking::SearchResult;
use crate::scalar::{infinity, neg_infinity, Arithmetic, Scalar};
use crate::search::{by_metric, searched};
use crate::storage::reader::{vector_fails, vector_readable, CompactReader, ReaderModel};
use crate::storage::writer::{appended_all, CompactWriter};
use vstd::prelude::*;

verus! {

// ---------------------------------------------------------------------------
// Buffered writing
// ---------------------------------------------------------------------------

/// What a buffer holds.
pub ghost struct BufferModel {
    pub vectors: Seq<Seq<Scalar>>,
    pub bytes: nat,
    pub threshold: nat,
}

/// Buffer of vectors to be written together.
pub struct BatchWriter {
    batch: Vec<Vec<Scalar>>,
    batch_bytes: usize,
    flush_threshold: usize,
}

impl View for BatchWriter {
    type V = BufferModel;

    closed spec fn view(&self) -> BufferModel {
        BufferModel {
            vectors: rows(self.batch@),
            bytes: self.batch_bytes as nat,
            threshold: self.flush_threshold as nat,
        }
    }
}

/// A number, but at least one.
pub open spec fn one_or_more(n: usize) -> nat {
    if n == 0 {
        1
    } else {
        n as nat
    }
}

impl BatchWriter {
    /// An empty buffer that wants to be flushed at `flush_threshold` vectors, at least one.
    pub fn new(flush_threshold: usize) -> (b: BatchWriter)
        ensures
            b@.vectors == Seq::<Seq<Scalar>>::empty(),
            b@.bytes == 0,
            b@.threshold == one_or_more(flush_threshold),
    {
        let b = BatchWriter {
            batch: Vec::new(),
            batch_bytes: 0,
            flush_threshold: if flush_threshold == 0 {
                1
            } else {
                flush_threshold
            },
        };
        assert(b@.vectors =~= Seq::<Seq<Scalar>>::empty());
        b
    }

    /// An empty buffer with room for `cap` vectors.
    pub fn with_capacity(cap: usize, threshold: usize) -> (b: BatchWriter)
        ensures
            b@.vectors == Seq::<Seq<Scalar>>::empty(),
            b@.bytes == 0,
            b@.threshold == one_or_more(threshold),
    {
        let b = BatchWriter {
            batch: Vec::with_capacity(cap),
            batch_bytes: 0,
            flush_threshold: if threshold == 0 {
                1
            } else {
                threshold
            },
        };
        assert(b@.vectors =~= Seq::<Seq<Scalar>>::empty());
        b
    }

    /// Add a vector to the buffer.
    pub fn push(&mut self, vec: Vec<Scalar>)
        requires
            old(self)@.bytes + 4 * vec@.len() <= usize::MAX,
        ensures
            final(self)@.vectors == old(self)@.vectors.push(vec@),
            final(self)@.bytes == old(self)@.bytes + 4 * vec@.len(),
            final(self)@.threshold == old(self)@.threshold,
    {
        self.batch_bytes = self.batch_bytes + vec.len() * 4;
        self.batch.push(vec);
        assert(self@.vectors =~= old(self)@.vectors.push(vec@));
    }

    /// Number of buffered vectors.
    pub fn len(&self) -> (r: usize)
        ensures
            r == self@.vectors.len(),
    {
        self.batch.len()
    }

    /// Whether the buffer is empty.
    pub fn is_empty(&self) -> (r: bool)
        ensures
            r == (self@.vectors.len() == 0),
    {
        self.batch.len() == 0
    }

    /// Whether the buffer wants to be flushed.
    pub fn should_flush(&self) -> (r: bool)
        ensures
            r == (self@.vectors.len() >= self@.threshold),
    {
        self.batch.len() >= self.flush_threshold
    }

    /// Take everything out of the buffer, to be appended to a writer.
    pub fn drain(&mut self) -> (r: Vec<Vec<Scalar>>)
        ensures
            rows(r@) == old(self)@.vectors,
            final(self)@.vectors == Seq::<Seq<Scalar>>::empty(),
            final(self)@.bytes == 0,
            final(self)@.threshold == old(self)@.threshold,
    {
        let mut r: Vec<Vec<Scalar>> = Vec::new();
        std::mem::swap(&mut r, &mut self.batch);
        self.batch_bytes = 0;
        assert(self@.vectors =~= Seq::<Seq<Scalar>>::empty());
        r
    }

    /// Append everything to a writer, up to the first bad vector, and empty the buffer. The
    /// bytes to be written go to the end of `out`.
    pub fn flush_to<A: Arithmetic>(
        &mut self,
        writer: &mut CompactWriter,
        x: &A,
        out: &mut Vec<u8>,
    ) -> (r: Result<()>)
        requires
            old(writer).wf(),
        ensures
            final(writer).wf(),
            final(writer).done() == old(writer).done(),
            final(self)@.vectors == Seq::<Seq<Scalar>>::empty(),
            final(self)@.threshold == old(self)@.threshold,
            r is Ok ==> final(self)@.bytes == 0,
            r is Err ==> final(self)@.bytes == old(self)@.bytes,
            final(out)@.len() >= old(out)@.len(),
            final(out)@.take(old(out)@.len() as int) == old(out)@,
            appended_all(
                x,
                old(writer)@,
                old(self)@.vectors,
                final(out)@.skip(old(out)@.len() as int),
                final(writer)@,
                r,
            ),
    {
        let bytes: usize = self.batch_bytes;
        let vectors = self.drain();
        let r = writer.append_many(vectors.as_slice(), x, out);
        if r.is_err() {
            self.batch_bytes = bytes;
        }
        r
    }

    /// Append what is left to a writer; the bytes to be written go to the end of `out`.
    pub fn finish<A: Arithmetic>(
        &mut self,
        writer: &mut CompactWriter,
        x: &A,
        out: &mut Vec<u8>,
    ) -> (r: Result<()>)
        requires
            old(writer).wf(),
        ensures
            final(writer).wf(),
            final(writer).done() == old(writer).done(),
            final(self)@.vectors == Seq::<Seq<Scalar>>::empty(),
            final(self)@.threshold == old(self)@.threshold,
            old(self)@.vectors.len() == 0 ==> r is Ok && final(writer)@ == old(writer)@
                && final(out)@ == old(out)@ && final(self)@.bytes == old(self)@.bytes,
            old(self)@.vectors.len() > 0 && r is Ok ==> final(self)@.bytes == 0,
            old(self)@.vectors.len() > 0 && r is Err ==> final(self)@.bytes == old(self)@.bytes,
            final(out)@.len() >= old(out)@.len(),
            final(out)@.take(old(out)@.len() as int) == old(out)@,
            old(self)@.vectors.len() > 0 ==> appended_all(
                x,
                old(writer)@,
                old(self)@.vectors,
                final(out)@.skip(old(out)@.len() as int),
                final(writer)@,
                r,
            ),
    {
        if self.is_empty() {
            assert(self@.vectors =~= Seq::<Seq<Scalar>>::empty());
            assert(out@.take(out@.len() as int) =~= out@);
            return Ok(());
        }
        self.flush_to(writer, x, out)
    }
}

// ---------------------------------------------------------------------------
// Calibration in parts
// ---------------------------------------------------------------------------

/// Coordinate `d` of every vector that has it.
pub open spec fn present(data: Seq<Seq<Scalar>>, d: int) -> Seq<Scalar>
    decreases data.len(),
{
    if data.len() == 0 {
        seq![]
    } else if d < data.last().len() {
        present(data.drop_last(), d).push(data.last()[d])
    } else {
        present(data.drop_last(), d)
    }
}

/// The smallest and largest value of each of `dims` dimensions, of the vectors that have it.
pub open spec fn present_extents(data: Seq<Seq<Scalar>>, dims: nat) -> Bounds {
    Bounds {
        min: Seq::new(dims, |d: int| lowest(present(data, d))),
        max: Seq::new(dims, |d: int| highest(present(data, d))),
    }
}

/// No vector has more than `dims` coordinates.
pub open spec fn not_longer(data: Seq<Seq<Scalar>>, dims: nat) -> bool {
    forall|i: int| 0 <= i < data.len() ==> (#[trigger] data[i]).len() <= dims
}

/// The vectors of all parts, without the parts that hold a vector of more than `dims`
/// coordinates.
pub open spec fn surviving(data: Seq<Seq<Scalar>>, dims: nat, parts: Seq<(u64, u64)>) -> Seq<
    Seq<Scalar>,
>
    decreases parts.len(),
{
    if parts.len() == 0 {
        seq![]
    } else {
        let part = data.subrange(parts.last().0 as int, parts.last().1 as int);
        let before = surviving(data, dims, parts.drop_last());
        if not_longer(part, dims) {
            before + part
        } else {
            before
        }
    }
}

/// Calibration in parts.
pub open spec fn calibrated_in_parts(data: Seq<Seq<Scalar>>, parts: Seq<(u64, u64)>) ->
    std::result::Result<Bounds, ErrorModel> {
    if data.len() == 0 {
        Err(ErrorModel::EmptyDataset)
    } else {
        let dims = data[0].len();
        bounds_outcome(present_extents(surviving(data, dims, parts), dims))
    }
}

proof fn lemma_lowest_sum(a: Seq<Scalar>, b: Seq<Scalar>)
    ensures
        lowest(a + b) == (if lowest(b).below(lowest(a)) {
            lowest(b)
        } else {
            lowest(a)
        }),
    decreases b.len(),
{
    if b.len() == 0 {
        assert(a + b =~= a);
        lemma_lowest_not_nan(a);
    } else {
        assert((a + b).drop_last() =~= a + b.drop_last());
        assert((a + b).last() == b.last());
        lemma_lowest_sum(a, b.drop_last());
        lemma_lowest_not_nan(a);
        lemma_lowest_not_nan(b.drop_last());
    }
}

proof fn lemma_lowest_not_nan(s: Seq<Scalar>)
    ensures
        !lowest(s).nan(),
        !infinity().below(lowest(s)),
    decreases s.len(),
{
    if s.len() > 0 {
        lemma_lowest_not_nan(s.drop_last());
    }
}

proof fn lemma_highest_sum(a: Seq<Scalar>, b: Seq<Scalar>)
    ensures
        highest(a + b) == (if highest(a).below(highest(b)) {
            highest(b)
        } else {
            highest(a)
        }),
    decreases b.len(),
{
    if b.len() == 0 {
        assert(a + b =~= a);
        lemma_highest_not_nan(a);
    } else {
        assert((a + b).drop_last() =~= a + b.drop_last());
        assert((a + b).last() == b.last());
        lemma_highest_sum(a, b.drop_last());
        lemma_highest_not_nan(a);
        lemma_highest_not_nan(b.drop_last());
    }
}

proof fn lemma_highest_not_nan(s: Seq<Scalar>)
    ensures
        !highest(s).nan(),
        !highest(s).below(neg_infinity()),
    decreases s.len(),
{
    if s.len() > 0 {
        lemma_highest_not_nan(s.drop_last());
    }
}

proof fn lemma_present_sum(a: Seq<Seq<Scalar>>, b: Seq<Seq<Scalar>>, d: int)
    ensures
        present(a + b, d) == present(a, d) + present(b, d),
    decreases b.len(),
{
    if b.len() == 0 {
        assert(a + b =~= a);
        assert(present(a, d) + present(b, d) =~= present(a, d));
    } else {
        assert((a + b).drop_last() =~= a + b.drop_last());
        assert((a + b).last() == b.last());
        lemma_present_sum(a, b.drop_last(), d);
        assert(present(a + b, d) =~= present(a, d) + present(b, d));
    }
}

proof fn lemma_present_all(data: Seq<Seq<Scalar>>, dims: nat, d: int)
    requires
        0 <= d < dims,
        forall|i: int| 0 <= i < data.len() ==> (#[trigger] data[i]).len() == dims,
    ensures
        present(data, d) == column(data, d),
    decreases data.len(),
{
    if data.len() > 0 {
        let rest = data.drop_last();
        assert forall|i: int| 0 <= i < rest.len() implies (#[trigger] rest[i]).len() == dims by {
            assert(data[i].len() == dims);
        }
        lemma_present_all(rest, dims, d);
        assert(data.last() == data[data.len() - 1]);
        assert(present(data, d) =~= column(data, d));
    } else {
        assert(present(data, d) =~= column(data, d));
    }
}

proof fn lemma_surviving_all(data: Seq<Seq<Scalar>>, dims: nat, parts: Seq<(u64, u64)>, n: int)
    requires
        not_longer(data, dims),
        partition(parts, data.len() as int),
        0 <= n <= parts.len(),
    ensures
        surviving(data, dims, parts.take(n)) == data.take(
            if n == 0 {
                0
            } else {
                parts[n - 1].1 as int
            },
        ),
        n > 0 ==> parts[n - 1].1 <= data.len(),
    decreases n,
{
    if n > 0 {
        lemma_surviving_all(data, dims, parts, n - 1);
        lemma_parts_inside(parts, n - 1, data.len() as int);
        let some = parts.take(n);
        assert(some.drop_last() =~= parts.take(n - 1));
        assert(some.last() == parts[n - 1]);
        let part = data.subrange(parts[n - 1].0 as int, parts[n - 1].1 as int);
        assert(parts[n - 1].0 < parts[n - 1].1);
        assert forall|i: int| 0 <= i < part.len() implies (#[trigger] part[i]).len() <= dims by {
            assert(data[parts[n - 1].0 + i].len() <= dims);
        }
        assert(surviving(data, dims, some) =~= data.take(parts[n - 1].1 as int));
    } else {
        assert(surviving(data, dims, parts.take(0)) =~= data.take(0));
    }
}

proof fn lemma_parts_inside(parts: Seq<(u64, u64)>, i: int, count: int)
    requires
        partition(parts, count),
        0 <= i < parts.len(),
    ensures
        parts[i].1 <= count,
        i == 0 ==> parts[i].0 == 0,
        i > 0 ==> parts[i].0 == parts[i - 1].1,
    decreases parts.len() - i,
{
    if i + 1 < parts.len() {
        lemma_parts_inside(parts, i + 1, count);
        assert(parts[i + 1].0 < parts[i + 1].1);
    }
}

/// Where calibration succeeds, calibration in parts gives the same bounds, however the data is
/// split.
pub proof fn law_parallel_calibration_matches(
    data: Seq<Seq<Scalar>>,
    no_dims: Seq<char>,
    parts: Seq<(u64, u64)>,
)
    requires
        partition(parts, data.len() as int),
        calibrated(data, no_dims) is Ok,
    ensures
        calibrated_in_parts(data, parts) == calibrated(data, no_dims),
{
    let dims = data[0].len();
    law_calibration_encloses(data, no_dims);
    assert(not_longer(data, dims));
    lemma_surviving_all(data, dims, parts, parts.len() as int);
    assert(parts.take(parts.len() as int) =~= parts);
    assert(data.take(data.len() as int) =~= data);
    let b = extents(data, dims);
    let p = present_extents(data, dims);
    assert forall|d: int| 0 <= d < dims implies p.min[d] == b.min[d] && p.max[d] == b.max[d] by {
        lemma_present_all(data, dims, d);
    }
    assert(p.min =~= b.min);
    assert(p.max =~= b.max);
    law_bounds_accepted(b);
}

/// The extents of the vectors `from..to`; `None` if one has more than `dims` coordinates.
pub fn partial_extents(vectors: &[Vec<Scalar>], from: usize, to: usize, dims: usize) -> (r: Option<
    (Vec<Scalar>, Vec<Scalar>),
>)
    requires
        from <= to <= vectors@.len(),
    ensures
        ({
            let part = rows(vectors@).subrange(from as int, to as int);
            match r {
                Some((mins, maxs)) => not_longer(part, dims as nat) && (Bounds {
                    min: mins@,
                    max: maxs@,
                }) == present_extents(part, dims as nat),
                None => !not_longer(part, dims as nat),
            }
        }),
{
    let ghost part = rows(vectors@).subrange(from as int, to as int);
    let mut i: usize = from;
    while i < to
        invariant
            from <= i <= to <= vectors@.len(),
            part == rows(vectors@).subrange(from as int, to as int),
            forall|k: int| 0 <= k < i - from ==> (#[trigger] part[k]).len() <= dims,
        decreases to - i,
    {
        assert(part[i - from] == vectors@[i as int]@);
        if vectors[i].len() > dims {
            return None;
        }
        i += 1;
    }
    let ghost e = present_extents(part, dims as nat);
    let mut mins: Vec<Scalar> = Vec::new();
    let mut maxs: Vec<Scalar> = Vec::new();
    let mut d: usize = 0;
    while d < dims
        invariant
            from <= to <= vectors@.len(),
            part == rows(vectors@).subrange(from as int, to as int),
            e == present_extents(part, dims as nat),
            d <= dims,
            mins@ == e.min.take(d as int),
            maxs@ == e.max.take(d as int),
        decreases dims - d,
    {
        let mut low: Scalar = infinity();
        let mut high: Scalar = neg_infinity();
        let mut i: usize = from;
        assert(part.take(0).len() == 0);
        while i < to
            invariant
                from <= i <= to <= vectors@.len(),
                part == rows(vectors@).subrange(from as int, to as int),
                low == lowest(present(part.take(i - from), d as int)),
                high == highest(present(part.take(i - from), d as int)),
            decreases to - i,
        {
            let ghost more = part.take(i + 1 - from);
            proof {
                assert(part[i - from] == vectors@[i as int]@);
                assert(more.drop_last() =~= part.take(i - from));
                assert(more.last() == vectors@[i as int]@);
            }
            if d < vectors[i].len() {
                let v = vectors[i][d];
                let ghost s = present(part.take(i - from), d as int);
                assert(s.push(v).drop_last() =~= s);
                if v.lt(low) {
                    low = v;
                }
                if high.lt(v) {
                    high = v;
                }
            }
            i += 1;
        }
        assert(part.take(i - from) =~= part);
        mins.push(low);
        maxs.push(high);
        d += 1;
        assert(mins@ =~= e.min.take(d as int));
        assert(maxs@ =~= e.max.take(d as int));
    }
    assert(mins@ =~= e.min);
    assert(maxs@ =~= e.max);
    Some((mins, maxs))
}

/// Widen `mins` and `maxs` to enclose the extents of another part.
pub fn merge_extents(
    mins: &mut Vec<Scalar>,
    maxs: &mut Vec<Scalar>,
    part_mins: &Vec<Scalar>,
    part_maxs: &Vec<Scalar>,
)
    requires
        old(mins)@.len() == part_mins@.len(),
        old(maxs)@.len() == part_maxs@.len(),
    ensures
        final(mins)@ == Seq::new(
            old(mins)@.len(),
            |d: int|
                if part_mins@[d].below(old(mins)@[d]) {
                    part_mins@[d]
                } else {
                    old(mins)@[d]
                },
        ),
        final(maxs)@ == Seq::new(
            old(maxs)@.len(),
            |d: int|
                if old(maxs)@[d].below(part_maxs@[d]) {
                    part_maxs@[d]
                } else {
                    old(maxs)@[d]
                },
        ),
{
    let ghost lows = mins@;
    let ghost highs = maxs@;
    let mut d: usize = 0;
    while d < mins.len()
        invariant
            d <= mins@.len() == lows.len() == part_mins@.len(),
            forall|k: int|
                0 <= k < d ==> #[trigger] mins@[k] == (if part_mins@[k].below(lows[k]) {
                    part_mins@[k]
                } else {
                    lows[k]
                }),
            forall|k: int| d <= k < mins@.len() ==> #[trigger] mins@[k] == lows[k],
        decreases mins@.len() - d,
    {
        if part_mins[d].lt(mins[d]) {
            mins.set(d, part_mins[d]);
        }
        d += 1;
    }
    let mut d: usize = 0;
    while d < maxs.len()
        invariant
            d <= maxs@.len() == highs.len() == part_maxs@.len(),
            forall|k: int|
                0 <= k < d ==> #[trigger] maxs@[k] == (if highs[k].below(part_maxs@[k]) {
                    part_maxs@[k]
                } else {
                    highs[k]
                }),
            forall|k: int| d <= k < maxs@.len() ==> #[trigger] maxs@[k] == highs[k],
        decreases maxs@.len() - d,
    {
        if maxs[d].lt(part_maxs[d]) {
            maxs.set(d, part_maxs[d]);
        }
        d += 1;
    }
    assert(mins@ =~= Seq::new(
        lows.len(),
        |d: int|
            if part_mins@[d].below(lows[d]) {
                part_mins@[d]
            } else {
                lows[d]
            },
    ));
    assert(maxs@ =~= Seq::new(
        highs.len(),
        |d: int|
            if highs[d].below(part_maxs@[d]) {
                part_maxs@[d]
            } else {
                highs[d]
            },
    ));
}

/// Calibrate in as many parts as there are workers, and merge what they find. A part with a
/// vector that is too long counts for nothing.
pub fn parallel_calibrate(vectors: &[Vec<Scalar>], num_threads: usize, available: usize) -> (r:
    Result<Quantizer>)
    ensures
        made(r) == calibrated_in_parts(
            rows(vectors@),
            parts_of(
                vectors@.len() as int,
                workers(num_threads as int, available as int, vectors@.len() as int),
            ),
        ),
        ({
            let whole = calibrated(
                rows(vectors@),
                "calibration vectors must have dimensionality > 0"@,
            );
            whole is Ok ==> made(r) == whole
        }),
{
    let ghost data = rows(vectors@);
    if vectors.len() == 0 {
        return Err(CompactError::EmptyDataset);
    }
    let n: usize = vectors.len();
    let dims: usize = vectors[0].len();
    assert(data[0].len() == dims);
    let parts = split(n as u64, worker_count(num_threads, available, n as u64));
    let mut mins: Vec<Scalar> = Vec::new();
    let mut maxs: Vec<Scalar> = Vec::new();
    while mins.len() < dims
        invariant
            mins@.len() <= dims,
            maxs@.len() == mins@.len(),
            forall|k: int| 0 <= k < mins@.len() ==> #[trigger] mins@[k] == infinity(),
            forall|k: int| 0 <= k < maxs@.len() ==> #[trigger] maxs@[k] == neg_infinity(),
        decreases dims - mins@.len(),
    {
        mins.push(infinity());
        maxs.push(neg_infinity());
    }
    let mut i: usize = 0;
    proof {
        let none = surviving(data, dims as nat, parts@.take(0));
        assert(parts@.take(0).len() == 0);
        assert(mins@ =~= present_extents(none, dims as nat).min);
        assert(maxs@ =~= present_extents(none, dims as nat).max);
    }
    while i < parts.len()
        invariant
            data == rows(vectors@),
            n == vectors@.len(),
            partition(parts@, n as int),
            i <= parts@.len(),
            (Bounds { min: mins@, max: maxs@ }) == present_extents(
                surviving(data, dims as nat, parts@.take(i as int)),
                dims as nat,
            ),
        decreases parts@.len() - i,
    {
        let (from, to) = parts[i];
        proof {
            lemma_parts_inside(parts@, i as int, n as int);
            assert(parts@[i as int].0 < parts@[i as int].1);
            assert(parts@.take(i + 1).drop_last() =~= parts@.take(i as int));
            assert(parts@.take(i + 1).last() == parts@[i as int]);
        }
        let ghost before = surviving(data, dims as nat, parts@.take(i as int));
        let ghost part = data.subrange(from as int, to as int);
        match partial_extents(vectors, from as usize, to as usize, dims) {
            Some((part_mins, part_maxs)) => {
                merge_extents(&mut mins, &mut maxs, &part_mins, &part_maxs);
                proof {
                    let all = present_extents(before + part, dims as nat);
                    assert forall|d: int| 0 <= d < dims implies mins@[d] == #[trigger] all.min[d] by {
                        lemma_present_sum(before, part, d);
                        lemma_lowest_sum(present(before, d), present(part, d));
                    }
                    assert forall|d: int| 0 <= d < dims implies maxs@[d] == #[trigger] all.max[d] by {
                        lemma_present_sum(before, part, d);
                        lemma_highest_sum(present(before, d), present(part, d));
                    }
                    assert(mins@ =~= all.min);
                    assert(maxs@ =~= all.max);
                }
            },
            None => {},
        }
        i += 1;
    }
    assert(parts@.take(i as int) =~= parts@);
    proof {
        let no_dims = "calibration vectors must have dimensionality > 0"@;
        if calibrated(data, no_dims) is Ok {
            law_parallel_calibration_matches(data, no_dims, parts@);
        }
    }
    Quantizer::new(mins, maxs)
}

// ---------------------------------------------------------------------------
// Reading in chunks
// ---------------------------------------------------------------------------

/// The vectors from `start` on may read back as `batch`.
pub open spec fn chunk_reads<A: Arithmetic>(
    x: &A,
    m: ReaderModel,
    file: Seq<u8>,
    start: u64,
    batch: Seq<Vec<Scalar>>,
) -> bool {
    forall|i: int|
        0 <= i < batch.len() ==> reads_back(
            x,
            m,
            file,
            (start + i) as u64,
            (#[trigger] batch[i])@,
        )
}

proof fn lemma_chunk_push<A: Arithmetic>(
    x: &A,
    m: ReaderModel,
    file: Seq<u8>,
    start: u64,
    batch: Seq<Vec<Scalar>>,
    v: Vec<Scalar>,
    id: u64,
)
    requires
        chunk_reads(x, m, file, start, batch),
        id == start + batch.len(),
        reads_back(x, m, file, id, v@),
    ensures
        chunk_reads(x, m, file, start, batch.push(v)),
{
    let more = batch.push(v);
    assert forall|i: int| 0 <= i < more.len() implies reads_back(
        x,
        m,
        file,
        (start + i) as u64,
        (#[trigger] more[i])@,
    ) by {
        if i < batch.len() {
            assert(more[i] == batch[i]);
        } else {
            assert((start + i) as u64 == id);
        }
    }
}

/// Number of vectors in the next chunk.
pub open spec fn chunk_len(at: int, stop: int, size: int) -> int {
    if stop - at < size {
        stop - at
    } else {
        size
    }
}

/// A walk over all vectors of a file, several at a time.
pub struct ChunkedReader {
    next: u64,
    end: u64,
    batch_size: usize,
}

impl ChunkedReader {
    /// The next vector.
    pub closed spec fn at(&self) -> u64 {
        self.next
    }

    /// The first vector not visited.
    pub closed spec fn stop(&self) -> u64 {
        self.end
    }

    /// Number of vectors in a full chunk.
    pub closed spec fn size(&self) -> nat {
        self.batch_size as nat
    }

    pub open spec fn wf(&self) -> bool {
        self.at() <= self.stop() && self.size() > 0
    }

    /// A walk that starts at the first vector, `batch_size` at a time, at least one.
    pub fn new(reader: &CompactReader, batch_size: usize) -> (c: ChunkedReader)
        ensures
            c.wf(),
            c.at() == 0,
            c.stop() == reader@.header.vector_count,
            c.size() == one_or_more(batch_size),
    {
        ChunkedReader {
            next: 0,
            end: reader.len(),
            batch_size: if batch_size == 0 {
                1
            } else {
                batch_size
            },
        }
    }

    /// The vectors of the next chunk, first and end, if any is left.
    pub fn range(&self) -> (r: Option<(u64, u64)>)
        requires
            self.wf(),
        ensures
            match r {
                Some((from, to)) => from == self.at() && from < self.stop() && to == from
                    + chunk_len(self.at() as int, self.stop() as int, self.size() as int),
                None => self.at() == self.stop(),
            },
    {
        if self.next >= self.end {
            return None;
        }
        let left: u64 = self.end - self.next;
        let to: u64 = if left < self.batch_size as u64 {
            self.end
        } else {
            self.next + self.batch_size as u64
        };
        Some((self.next, to))
    }

    /// Move past one vector.
    pub fn step(&mut self)
        requires
            old(self).wf(),
            old(self).at() < old(self).stop(),
        ensures
            final(self).wf(),
            final(self).at() == old(self).at() + 1,
            final(self).stop() == old(self).stop(),
            final(self).size() == old(self).size(),
    {
        self.next = self.next + 1;
    }

    /// The next chunk of a file held in memory, read back, if any is left. On a failure the walk
    /// stands at the vector that failed.
    pub fn next<A: Arithmetic>(&mut self, reader: &CompactReader, file: &[u8], x: &A) -> (r: Option<
        Result<Vec<Vec<Scalar>>>,
    >)
        requires
            old(self).wf(),
            reader@.addressable(),
        ensures
            final(self).wf(),
            final(self).stop() == old(self).stop(),
            final(self).size() == old(self).size(),
            match r {
                Some(Ok(batch)) => {
                    &&& old(self).at() < old(self).stop()
                    &&& batch@.len() == chunk_len(
                        old(self).at() as int,
                        old(self).stop() as int,
                        old(self).size() as int,
                    )
                    &&& final(self).at() == old(self).at() + batch@.len()
                    &&& chunk_reads(x, reader@, file@, old(self).at(), batch@)
                },
                Some(Err(e)) => {
                    &&& old(self).at() <= final(self).at() < old(self).at() + chunk_len(
                        old(self).at() as int,
                        old(self).stop() as int,
                        old(self).size() as int,
                    )
                    &&& vector_fails(x, reader@, file@, final(self).at(), e@)
                    &&& forall|id: u64|
                        old(self).at() <= id < final(self).at() ==> #[trigger] vector_readable(
                            x,
                            reader@,
                            file@,
                            id,
                        )
                },
                None => old(self).at() == old(self).stop() && final(self).at() == old(self).at(),
            },
    {
        let (from, to) = match self.range() {
            Some(range) => range,
            None => return None,
        };
        let mut batch: Vec<Vec<Scalar>> = Vec::new();
        while self.next < to
            invariant
                reader@.addressable(),
                self.wf(),
                self.stop() == old(self).stop(),
                self.size() == old(self).size(),
                from == old(self).at(),
                to <= self.stop(),
                to == from + chunk_len(
                    old(self).at() as int,
                    old(self).stop() as int,
                    old(self).size() as int,
                ),
                from <= self.next <= to,
                batch@.len() == self.next - from,
                chunk_reads(x, reader@, file@, from, batch@),
                forall|id: u64|
                    from <= id < self.next ==> #[trigger] vector_readable(
                        x,
                        reader@,
                        file@,
                        id,
                    ),
            decreases to - self.next,
        {
            match reader.get_vector(file, self.next, x) {
                Ok(v) => {
                    assert(vector_readable(x, reader@, file@, self.next)) by {
                        assert(dequantizes_to(
                            x,
                            reader@.bounds,
                            reader@.vector_bytes(file@, self.next)->Ok_0,
                            v@,
                        ));
                    }
                    let ghost before = batch@;
                    batch.push(v);
                    proof {
                        lemma_chunk_push(x, reader@, file@, from, before, v, self.next);
                    }
                },
                Err(e) => return Some(Err(e)),
            }
            self.next = self.next + 1;
        }
        Some(Ok(batch))
    }
}

// ---------------------------------------------------------------------------
// Many queries
// ---------------------------------------------------------------------------

/// A query may be answered with `a`, which is empty where the search fails.
pub open spec fn answered_or_nothing<A: Arithmetic>(
    x: &A,
    m: ReaderModel,
    file: Seq<u8>,
    query: Seq<Scalar>,
    k: nat,
    a: Vec<SearchResult>,
) -> bool {
    exists|r: Result<Vec<SearchResult>>| #[trigger]
        searched(
            x,
            by_metric(x, m.header.distance_metric, query),
            m,
            file,
            false,
            query.len(),
            k,
            r,
        ) && match r {
            Ok(v) => a == v,
            Err(e) => a@ == Seq::<SearchResult>::empty(),
        }
}

/// Search a file held in memory for the queries `from..to`; a failed search finds nothing.
pub fn search_part<A: Arithmetic>(
    reader: &CompactReader,
    file: &[u8],
    queries: &[Vec<Scalar>],
    from: usize,
    to: usize,
    k: usize,
    x: &A,
) -> (out: Vec<Vec<SearchResult>>)
    requires
        from <= to <= queries@.len(),
        reader@.addressable(),
    ensures
        out@.len() == to - from,
        forall|i: int|
            0 <= i < out@.len() ==> answered_or_nothing(
                x,
                reader@,
                file@,
                queries@[from + i]@,
                k as nat,
                #[trigger] out@[i],
            ),
{
    let mut out: Vec<Vec<SearchResult>> = Vec::new();
    let mut i: usize = from;
    while i < to
        invariant
            from <= i <= to <= queries@.len(),
            reader@.addressable(),
            out@.len() == i - from,
            forall|n: int|
                0 <= n < out@.len() ==> answered_or_nothing(
                    x,
                    reader@,
                    file@,
                    queries@[from + n]@,
                    k as nat,
                    #[trigger] out@[n],
                ),
        decreases to - i,
    {
        let q = queries[i].as_slice();
        let r = reader.search(file, q, k, x);
        let ghost came = r;
        let a = match r {
            Ok(v) => v,
            Err(_) => Vec::new(),
        };
        assert(searched(
            x,
            by_metric(x, reader@.header.distance_metric, q@),
            reader@,
            file@,
            false,
            q@.len(),
            k as nat,
            came,
        ));
        assert(answered_or_nothing(x, reader@, file@, queries@[from + (i - from)]@, k as nat, a));
        out.push(a);
        i += 1;
    }
    out
}

/// Search a file held in memory for many queries, split among workers. The answers come in the
/// order of the queries, and a failed search finds nothing.
pub fn parallel_batch_search<A: Arithmetic>(
    reader: &CompactReader,
    file: &[u8],
    queries: &[Vec<Scalar>],
    k: usize,
    num_threads: usize,
    available: usize,
    x: &A,
) -> (r: Result<Vec<Vec<SearchResult>>>)
    requires
        reader@.addressable(),
    ensures
        r matches Ok(out) && out@.len() == queries@.len() && forall|i: int|
            0 <= i < out@.len() ==> answered_or_nothing(
                x,
                reader@,
                file@,
                queries@[i]@,
                k as nat,
                #[trigger] out@[i],
            ),
{
    let n: usize = queries.len();
    if n == 0 {
        return Ok(Vec::new());
    }
    let parts = split(n as u64, worker_count(num_threads, available, n as u64));
    let mut out: Vec<Vec<SearchResult>> = Vec::new();
    let mut i: usize = 0;
    while i < parts.len()
        invariant
            reader@.addressable(),
            n == queries@.len(),
            partition(parts@, n as int),
            i <= parts@.len(),
            out@.len() == (if i == 0 {
                0
            } else {
                parts@[i - 1].1 as nat
            }),
            forall|q: int|
                0 <= q < out@.len() ==> answered_or_nothing(
                    x,
                    reader@,
                    file@,
                    queries@[q]@,
                    k as nat,
                    #[trigger] out@[q],
                ),
        decreases parts@.len() - i,
    {
        let (from, to) = parts[i];
        proof {
            lemma_parts_inside(parts@, i as int, n as int);
            assert(parts@[i as int].0 < parts@[i as int].1);
        }
        let mut local = search_part(reader, file, queries, from as usize, to as usize, k, x);
        let ghost before = out@;
        let ghost more = local@;
        out.append(&mut local);
        assert forall|q: int| 0 <= q < out@.len() implies answered_or_nothing(
            x,
            reader@,
            file@,
            queries@[q]@,
            k as nat,
            #[trigger] out@[q],
        ) by {
            if q >= before.len() {
                assert(out@[q] == more[q - before.len()]);
                assert(from + (q - before.len()) == q);
            } else {
                assert(out@[q] == before[q]);
            }
        }
        i += 1;
    }
    Ok(out)
}

} // verus!
