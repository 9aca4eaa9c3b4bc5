//! Layout of a file: header, bounds, data, optional padding, row identifiers, checksum.
use crate::bytes::{be, push_be, read_be, unbe};
use crate::bytes::{law_unbe_of_be, lemma_be_len, lemma_capacities};
use crate::header::Header;
use crate::quant::Bounds;
use crate::scalar::Scalar;
use crate::sha::zeros;
use vstd::prelude::*;

verus! {

/// Four bytes per number, most significant first.
pub open spec fn scalars_be(s: Seq<Scalar>) -> Seq<u8> {
    Seq::new(4 * s.len(), |j: int| be(s[j / 4].bits as nat, 4)[j % 4])
}

/// The numbers stored in a run of bytes.
pub open spec fn scalars_in(b: Seq<u8>) -> Seq<Scalar> {
    Seq::new(
        b.len() / 4,
        |i: int| Scalar { bits: unbe(b.subrange(4 * i, 4 * i + 4)) as u32 },
    )
}

/// Eight bytes per identifier, most significant first.
pub open spec fn ids_be(s: Seq<u64>) -> Seq<u8> {
    Seq::new(8 * s.len(), |j: int| be(s[j / 8] as nat, 8)[j % 8])
}

/// The identifiers stored in a run of bytes.
pub open spec fn ids_in(b: Seq<u8>) -> Seq<u64> {
    Seq::new(b.len() / 8, |i: int| unbe(b.subrange(8 * i, 8 * i + 8)) as u64)
}

/// The identifiers zero, one, and so on.
pub open spec fn counting(n: nat) -> Seq<u64> {
    Seq::new(n, |i: int| i as u64)
}

/// The block of bounds.
pub open spec fn bounds_be(b: Bounds) -> Seq<u8> {
    scalars_be(b.min) + scalars_be(b.max)
}

/// The bounds stored after the header of a file.
pub open spec fn bounds_in(file: Seq<u8>, dims: int) -> Bounds {
    Bounds {
        min: scalars_in(file.subrange(32, 32 + 4 * dims)),
        max: scalars_in(file.subrange(32 + 4 * dims, 32 + 8 * dims)),
    }
}

/// A whole file.
pub open spec fn image(
    h: Header,
    b: Bounds,
    data: Seq<u8>,
    padding: nat,
    ids: Seq<u64>,
    checksum: Seq<u8>,
) -> Seq<u8> {
    h.encoded() + bounds_be(b) + data + zeros(padding) + ids_be(ids) + checksum
}

/// The bytes of vector `i` in a data block.
pub open spec fn vector_in(data: Seq<u8>, dims: nat, i: nat) -> Seq<u8> {
    data.subrange((i * dims) as int, (i * dims + dims) as int)
}

/// Numbers read back from their bytes are the same.
pub proof fn law_scalars_roundtrip(s: Seq<Scalar>)
    ensures
        scalars_in(scalars_be(s)) == s,
{
    let b = scalars_be(s);
    assert forall|i: int| 0 <= i < s.len() implies #[trigger] scalars_in(b)[i] == s[i] by {
        lemma_be_len(s[i].bits as nat, 4);
        assert(b.subrange(4 * i, 4 * i + 4) =~= be(s[i].bits as nat, 4));
        lemma_capacities();
        law_unbe_of_be(s[i].bits as nat, 4);
    }
    assert(scalars_in(b) =~= s);
}

/// Identifiers read back from their bytes are the same.
pub proof fn law_ids_roundtrip(s: Seq<u64>)
    ensures
        ids_in(ids_be(s)) == s,
{
    let b = ids_be(s);
    assert forall|i: int| 0 <= i < s.len() implies #[trigger] ids_in(b)[i] == s[i] by {
        lemma_be_len(s[i] as nat, 8);
        assert(b.subrange(8 * i, 8 * i + 8) =~= be(s[i] as nat, 8));
        lemma_capacities();
        law_unbe_of_be(s[i] as nat, 8);
    }
    assert(ids_in(b) =~= s);
}

/// Append the bytes of some numbers.
pub fn push_scalars(out: &mut Vec<u8>, s: &[Scalar])
    ensures
        final(out)@ == old(out)@ + scalars_be(s@),
{
    let ghost start = out@;
    let mut i: usize = 0;
    assert(out@ =~= start + scalars_be(s@.take(0)));
    while i < s.len()
        invariant
            i <= s@.len(),
            out@ == start + scalars_be(s@.take(i as int)),
        decreases s@.len() - i,
    {
        push_be(out, s[i].bits as u64, 4);
        i += 1;
        proof {
            lemma_be_len(s@[i - 1].bits as nat, 4);
            assert(scalars_be(s@.take(i as int)) =~= scalars_be(s@.take(i - 1)) + be(
                s@[i - 1].bits as nat,
                4,
            ));
            assert(out@ =~= start + scalars_be(s@.take(i as int)));
        }
    }
    assert(s@.take(i as int) =~= s@);
}

/// The numbers stored in a run of bytes.
pub fn read_scalars(b: &[u8]) -> (r: Vec<Scalar>)
    ensures
        r@ == scalars_in(b@),
{
    let n: usize = b.len() / 4;
    let mut r: Vec<Scalar> = Vec::new();
    let mut i: usize = 0;
    proof {
        lemma_capacities();
    }
    while i < n
        invariant
            i <= n == b@.len() / 4,
            b@.len() <= usize::MAX,
            crate::bytes::capacity(4) == 0x1_0000_0000,
            r@ == scalars_in(b@).take(i as int),
        decreases n - i,
    {
        let v: u64 = read_be(b, 4 * i, 4);
        r.push(Scalar { bits: v as u32 });
        i += 1;
        assert(r@ =~= scalars_in(b@).take(i as int));
    }
    assert(r@ =~= scalars_in(b@));
    r
}

/// Append the bytes of the identifiers zero up to `n`, without `n`.
pub fn push_counting(out: &mut Vec<u8>, n: u64)
    ensures
        final(out)@ == old(out)@ + ids_be(counting(n as nat)),
{
    let ghost start = out@;
    let mut i: u64 = 0;
    assert(out@ =~= start + ids_be(counting(0)));
    while i < n
        invariant
            i <= n,
            out@ == start + ids_be(counting(i as nat)),
        decreases n - i,
    {
        push_be(out, i, 8);
        i += 1;
        proof {
            lemma_be_len((i - 1) as nat, 8);
            assert(ids_be(counting(i as nat)) =~= ids_be(counting((i - 1) as nat)) + be(
                (i - 1) as nat,
                8,
            ));
            assert(out@ =~= start + ids_be(counting(i as nat)));
        }
    }
}

} // verus!
