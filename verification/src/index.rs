//! Inverted index: for every dimension and byte, the vectors that have it there.
use crate::bins::byte_rows;
use crate::errors::{CompactError, ErrorModel, Result};
use crate::numerals::{wide_reads, wide_text, Numerals};
use crate::storage::reader::{scan_ends, scanned, CompactReader, ReaderModel};
use crate::text::{decimal, push_decimal};
use crate::wide::{share, share_of, Wide, WideArithmetic};
use std::collections::HashMap;
use vstd::prelude::*;

verus! {

broadcast use vstd::std_specs::hash::group_hash_axioms;

/// The vectors with byte `b` in dimension `d`, in order.
pub open spec fn ids_with(data: Seq<Seq<u8>>, d: int, b: u8) -> Seq<u64>
    decreases data.len(),
{
    if data.len() == 0 {
        seq![]
    } else {
        let before = ids_with(data.drop_last(), d, b);
        if data.last()[d] == b {
            before.push((data.len() - 1) as u64)
        } else {
            before
        }
    }
}

/// The list of `ids`; none if there are none.
pub open spec fn listed(m: Map<u8, Seq<u64>>, b: u8) -> Option<Seq<u64>> {
    if m.contains_key(b) {
        Some(m[b])
    } else {
        None
    }
}

/// The lists of dimension `d` of an index of `data`: a byte that occurs nowhere has no list.
pub open spec fn lists_of(data: Seq<Seq<u8>>, d: int) -> Map<u8, Seq<u64>> {
    Map::new(
        |b: u8| ids_with(data, d, b).len() > 0,
        |b: u8| ids_with(data, d, b),
    )
}

/// The contents of the lists of one dimension.
pub open spec fn contents(m: Map<u8, Vec<u64>>) -> Map<u8, Seq<u64>> {
    m.map_values(|v: Vec<u64>| v@)
}

/// The lists of every dimension.
pub open spec fn all_contents(maps: Seq<HashMap<u8, Vec<u64>>>) -> Seq<Map<u8, Seq<u64>>> {
    Seq::new(maps.len(), |d: int| contents(maps[d]@))
}

/// An index of `data` with `dims` dimensions.
pub open spec fn index_of(data: Seq<Seq<u8>>, dims: nat) -> Seq<Map<u8, Seq<u64>>> {
    Seq::new(dims, |d: int| lists_of(data, d))
}

/// Entries under the bytes below `upto`.
pub open spec fn entries(m: Map<u8, Seq<u64>>, upto: nat) -> nat
    decreases upto,
{
    if upto == 0 {
        0
    } else {
        let b = (upto - 1) as u8;
        entries(m, (upto - 1) as nat) + if m.contains_key(b) {
            m[b].len()
        } else {
            0
        }
    }
}

/// Entries in the first `n` dimensions.
pub open spec fn total_entries(lists: Seq<Map<u8, Seq<u64>>>, n: nat) -> nat
    decreases n,
{
    if n == 0 {
        0
    } else {
        total_entries(lists, (n - 1) as nat) + entries(lists[n - 1], 256)
    }
}

proof fn lemma_entries(data: Seq<Seq<u8>>, d: int, upto: nat)
    requires
        upto <= 256,
    ensures
        data.len() == 0 ==> entries(lists_of(data, d), upto) == 0,
        data.len() > 0 ==> entries(lists_of(data, d), upto) == entries(
            lists_of(data.drop_last(), d),
            upto,
        ) + (if data.last()[d] < upto {
            1int
        } else {
            0
        }),
    decreases upto,
{
    if upto > 0 {
        lemma_entries(data, d, (upto - 1) as nat);
    }
}

proof fn lemma_dimension_total(data: Seq<Seq<u8>>, d: int)
    ensures
        entries(lists_of(data, d), 256) == data.len(),
    decreases data.len(),
{
    lemma_entries(data, d, 256);
    if data.len() > 0 {
        lemma_dimension_total(data.drop_last(), d);
    }
}

proof fn lemma_total(data: Seq<Seq<u8>>, dims: nat, n: nat)
    requires
        n <= dims,
    ensures
        total_entries(index_of(data, dims), n) == n * data.len(),
    decreases n,
{
    if n > 0 {
        lemma_total(data, dims, (n - 1) as nat);
        lemma_dimension_total(data, n - 1);
        let k = (n - 1) as nat;
        assert(k * data.len() + data.len() == (k + 1) * data.len()) by (nonlinear_arith);
    } else {
        assert(0 * data.len() == 0) by (nonlinear_arith);
    }
}

/// Every vector has exactly one entry in every dimension.
pub proof fn law_every_vector_is_listed_once(data: Seq<Seq<u8>>, dims: nat)
    ensures
        total_entries(index_of(data, dims), dims) == dims * data.len(),
{
    lemma_total(data, dims, dims);
}

proof fn lemma_ids_with(data: Seq<Seq<u8>>, d: int, b: u8, i: nat)
    requires
        i < data.len() <= u64::MAX,
    ensures
        ids_with(data, d, b).contains(i as u64) <==> data[i as int][d] == b,
    decreases data.len(),
{
    let before = ids_with(data.drop_last(), d, b);
    let last = (data.len() - 1) as u64;
    lemma_ids_bounded(data.drop_last(), d, b);
    if i < data.len() - 1 {
        lemma_ids_with(data.drop_last(), d, b, i);
        if before.contains(i as u64) {
            let k = before.index_of(i as u64);
            assert(ids_with(data, d, b)[k] == i);
        }
    } else {
        if data.last()[d] == b {
            assert(before.push(last)[before.len() as int] == last);
        }
    }
}

proof fn lemma_ids_bounded(data: Seq<Seq<u8>>, d: int, b: u8)
    requires
        data.len() <= u64::MAX,
    ensures
        forall|k: int| 0 <= k < ids_with(data, d, b).len() ==> (#[trigger] ids_with(data, d, b)[k])
            < data.len(),
    decreases data.len(),
{
    if data.len() > 0 {
        lemma_ids_bounded(data.drop_last(), d, b);
        let before = ids_with(data.drop_last(), d, b);
        assert forall|k: int| 0 <= k < ids_with(data, d, b).len() implies (#[trigger] ids_with(
            data,
            d,
            b,
        )[k]) < data.len() by {
            if k < before.len() {
                assert(ids_with(data, d, b)[k] == before[k]);
            }
        }
    }
}

/// A vector is in the list of a byte exactly if it has that byte there.
pub proof fn law_lists_are_exact(data: Seq<Seq<u8>>, dims: nat, d: int, b: u8, i: nat)
    requires
        0 <= d < dims,
        i < data.len() <= u64::MAX,
    ensures
        data[i as int][d] == b <==> (listed(index_of(data, dims)[d], b) matches Some(ids)
            && ids.contains(i as u64)),
{
    lemma_ids_with(data, d, b, i);
}

/// Reading all vectors of a file fails with `e`.
pub open spec fn unreadable_file(m: ReaderModel, file: Seq<u8>, e: CompactError) -> bool {
    exists|seen: Seq<Seq<u8>>| #[trigger] scan_ends(m, file, seen, Err(e))
}

/// Inverted index. Its view is the lists of every dimension.
#[derive(Debug)]
pub struct SimpleIndex {
    dims: usize,
    postings: Vec<HashMap<u8, Vec<u64>>>,
}

impl View for SimpleIndex {
    type V = Seq<Map<u8, Seq<u64>>>;

    closed spec fn view(&self) -> Seq<Map<u8, Seq<u64>>> {
        all_contents(self.postings@)
    }
}

impl Default for SimpleIndex {
    /// An index without dimensions.
    fn default() -> (r: SimpleIndex)
        ensures
            r@ == Seq::<Map<u8, Seq<u64>>>::empty(),
    {
        let r = SimpleIndex { dims: 0, postings: Vec::new() };
        assert(r@ =~= Seq::<Map<u8, Seq<u64>>>::empty());
        r
    }
}

/// List the vectors under their bytes in dimension `d`.
fn list_dimension(data: &Vec<Vec<u8>>, d: usize) -> (m: HashMap<u8, Vec<u64>>)
    requires
        forall|i: int| 0 <= i < data@.len() ==> (#[trigger] data@[i])@.len() > d,
    ensures
        contents(m@) == lists_of(byte_rows(data@), d as int),
{
    let ghost all = byte_rows(data@);
    let mut m: HashMap<u8, Vec<u64>> = HashMap::new();
    let mut i: usize = 0;
    assert(contents(m@) =~= lists_of(all.take(0), d as int));
    while i < data.len()
        invariant
            all == byte_rows(data@),
            forall|k: int| 0 <= k < data@.len() ==> (#[trigger] data@[k])@.len() > d,
            i <= data@.len(),
            contents(m@) == lists_of(all.take(i as int), d as int),
        decreases data@.len() - i,
    {
        assert(data@[i as int]@.len() > d);
        let b: u8 = data[i][d];
        let ghost before = contents(m@);
        let ghost prefix = all.take(i as int);
        let mut list: Vec<u64> = match m.remove(&b) {
            Some(list) => list,
            None => Vec::new(),
        };
        proof {
            assert(list@ == ids_with(prefix, d as int, b)) by {
                if before.contains_key(b) {
                    assert(list@ == before[b]);
                } else {
                    assert(!lists_of(prefix, d as int).contains_key(b));
                    assert(ids_with(prefix, d as int, b) =~= seq![]);
                }
            }
        }
        list.push(i as u64);
        m.insert(b, list);
        i += 1;
        proof {
            let longer = all.take(i as int);
            assert(longer.drop_last() =~= prefix);
            assert(longer.last()[d as int] == b);
            assert forall|c: u8| #[trigger] contents(m@).contains_key(c) <==> lists_of(
                longer,
                d as int,
            ).contains_key(c) by {
                if c != b {
                    assert(before.contains_key(c) <==> contents(m@).contains_key(c));
                    assert(before.contains_key(c) <==> lists_of(prefix, d as int).contains_key(c));
                }
            }
            assert forall|c: u8| #[trigger] contents(m@).contains_key(c) implies contents(m@)[c]
                == lists_of(longer, d as int)[c] by {
                if c != b {
                    assert(before.contains_key(c));
                    assert(contents(m@)[c] == before[c]);
                    assert(before[c] == lists_of(prefix, d as int)[c]);
                }
            }
            assert(contents(m@) =~= lists_of(longer, d as int));
        }
    }
    assert(all.take(i as int) =~= all);
    m
}

impl SimpleIndex {
    #[verifier::type_invariant]
    spec fn wf(self) -> bool {
        self.dims == self.postings@.len()
    }

    /// An index of all vectors of a file held in memory.
    pub fn build(reader: &CompactReader, file: &[u8]) -> (r: Result<SimpleIndex>)
        requires
            reader@.addressable(),
        ensures
            match r {
                Ok(index) => exists|data: Seq<Seq<u8>>| #[trigger]
                    scanned(reader@, file@, reader@.header.vector_count as nat, data) && index@
                        == index_of(data, reader@.header.dims as nat),
                Err(e) => unreadable_file(reader@, file@, e),
            },
    {
        let dims: usize = reader.dims();
        let mut data: Vec<Vec<u8>> = Vec::new();
        match reader.scan_quantized(file, &mut data) {
            Ok(()) => {},
            Err(e) => {
                assert(scan_ends(reader@, file@, byte_rows(data@), Err(e)));
                return Err(e);
            },
        }
        let ghost all = byte_rows(data@);
        proof {
            assert(scanned(reader@, file@, reader@.header.vector_count as nat, all));
            assert forall|k: int| 0 <= k < data@.len() implies (#[trigger] data@[k])@.len()
                == dims by {
                assert(reader@.vector_bytes(file@, k as u64) == Ok::<Seq<u8>, ErrorModel>(all[k]));
            }
        }
        let mut postings: Vec<HashMap<u8, Vec<u64>>> = Vec::new();
        while postings.len() < dims
            invariant
                all == byte_rows(data@),
                forall|k: int| 0 <= k < data@.len() ==> (#[trigger] data@[k])@.len() == dims,
                postings@.len() <= dims,
                forall|d: int|
                    0 <= d < postings@.len() ==> contents((#[trigger] postings@[d])@) == lists_of(
                        all,
                        d,
                    ),
            decreases dims - postings@.len(),
        {
            let d: usize = postings.len();
            let m = list_dimension(&data, d);
            postings.push(m);
        }
        let index = SimpleIndex { dims, postings };
        assert(index@ =~= index_of(all, dims as nat));
        Ok(index)
    }

    /// Number of dimensions.
    pub fn dims(&self) -> (r: usize)
        ensures
            r == self@.len(),
    {
        proof {
            use_type_invariant(self);
        }
        self.dims
    }

    /// The vectors with byte `byte` in dimension `dim`, if there are any.
    pub fn lookup(&self, dim: usize, byte: u8) -> (r: Option<&[u64]>)
        ensures
            match r {
                Some(ids) => dim < self@.len() && listed(self@[dim as int], byte) == Some(ids@),
                None => dim >= self@.len() || listed(self@[dim as int], byte) is None,
            },
    {
        if dim >= self.postings.len() {
            return None;
        }
        match self.postings[dim].get(&byte) {
            Some(v) => Some(v.as_slice()),
            None => None,
        }
    }

    /// Number of entries in the lists of dimension `d`.
    fn count_dimension(&self, d: usize) -> (r: usize)
        requires
            d < self@.len(),
            entries(self@[d as int], 256) <= usize::MAX,
        ensures
            r == entries(self@[d as int], 256),
    {
        let ghost m = self@[d as int];
        let mut total: usize = 0;
        let mut b: usize = 0;
        while b < 256
            invariant
                d < self@.len(),
                m == self@[d as int],
                b <= 256,
                total == entries(m, b as nat),
                entries(m, 256) <= usize::MAX,
            decreases 256 - b,
        {
            proof {
                lemma_entries_grow(m, (b + 1) as nat, 256);
            }
            match self.postings[d].get(&(b as u8)) {
                Some(v) => {
                    total = total + v.len();
                },
                None => {},
            }
            b += 1;
        }
        total
    }

    /// Number of entries.
    pub fn count(&self) -> (r: usize)
        requires
            total_entries(self@, self@.len()) <= usize::MAX,
        ensures
            r == total_entries(self@, self@.len()),
    {
        proof {
            use_type_invariant(self);
        }
        let mut total: usize = 0;
        let mut d: usize = 0;
        while d < self.dims
            invariant
                self.dims == self@.len(),
                d <= self.dims,
                total == total_entries(self@, d as nat),
                total_entries(self@, self@.len()) <= usize::MAX,
            decreases self.dims - d,
        {
            proof {
                lemma_total_grows(self@, (d + 1) as nat, self@.len());
            }
            total = total + self.count_dimension(d);
            d += 1;
        }
        total
    }

    /// The index in one line.
    pub fn stats<N: Numerals, W: WideArithmetic>(&self, n: &N, w: &W) -> (s: String)
        requires
            total_entries(self@, self@.len()) <= usize::MAX,
        ensures
            stats_read(n, w, self@.len(), total_entries(self@, self@.len()), s@),
    {
        let dims: usize = self.dims();
        let total: usize = self.count();
        let average = share_of(total as u64, dims as u64, w);
        let shown = wide_text(average, 1, n);
        let mut s: String = "dims=".to_owned();
        push_decimal(&mut s, dims as u64);
        s.append(" total_postings=");
        push_decimal(&mut s, total as u64);
        s.append(" avg_per_dim=");
        s.append(shown.as_str());
        proof {
            assert(share(w, total as u64, dims as u64, average) && wide_reads(
                n,
                average,
                1,
                shown@,
            ));
            assert(s@ =~= "dims="@ + decimal(dims as nat) + " total_postings="@ + decimal(
                total as nat,
            ) + " avg_per_dim="@ + shown@);
        }
        s
    }
}

/// `text` may be the line on an index of `dims` dimensions and `total` entries.
pub open spec fn stats_read<N: Numerals, W: WideArithmetic>(
    n: &N,
    w: &W,
    dims: nat,
    total: nat,
    text: Seq<char>,
) -> bool {
    exists|average: Wide, shown: Seq<char>| #[trigger]
        share(w, total as u64, dims as u64, average) && #[trigger] wide_reads(n, average, 1, shown)
            && text == "dims="@ + decimal(dims) + " total_postings="@ + decimal(total)
            + " avg_per_dim="@ + shown
}

proof fn lemma_entries_grow(m: Map<u8, Seq<u64>>, a: nat, b: nat)
    requires
        a <= b,
    ensures
        entries(m, a) <= entries(m, b),
    decreases b,
{
    if a < b {
        lemma_entries_grow(m, a, (b - 1) as nat);
    }
}

proof fn lemma_total_grows(lists: Seq<Map<u8, Seq<u64>>>, a: nat, b: nat)
    requires
        a <= b,
    ensures
        total_entries(lists, a) <= total_entries(lists, b),
    decreases b,
{
    if a < b {
        lemma_total_grows(lists, a, (b - 1) as nat);
    }
}

} // verus!
