//! Big-endian integers in byte sequences.
use vstd::prelude::*;

verus! {

/// The `width` low-order bytes of `n`, most significant first.
pub open spec fn be(n: nat, width: nat) -> Seq<u8>
    decreases width,
{
    if width == 0 {
        seq![]
    } else {
        be(n / 256, (width - 1) as nat).push((n % 256) as u8)
    }
}

/// The number written in `s`, most significant byte first.
pub open spec fn unbe(s: Seq<u8>) -> nat
    decreases s.len(),
{
    if s.len() == 0 {
        0
    } else {
        unbe(s.drop_last()) * 256 + s.last() as nat
    }
}

/// `256` to the power `width`.
pub open spec fn capacity(width: nat) -> nat
    decreases width,
{
    if width == 0 {
        1
    } else {
        256 * capacity((width - 1) as nat)
    }
}

pub proof fn lemma_be_len(n: nat, width: nat)
    ensures
        be(n, width).len() == width,
    decreases width,
{
    if width > 0 {
        lemma_be_len(n / 256, (width - 1) as nat);
    }
}

/// Reading back a number that fits in `width` bytes gives the number.
pub proof fn law_unbe_of_be(n: nat, width: nat)
    requires
        n < capacity(width),
    ensures
        be(n, width).len() == width,
        unbe(be(n, width)) == n,
    decreases width,
{
    if width > 0 {
        assert(n / 256 < capacity((width - 1) as nat)) by (nonlinear_arith)
            requires
                n < 256 * capacity((width - 1) as nat),
        ;
        law_unbe_of_be(n / 256, (width - 1) as nat);
        let s = be(n, width);
        assert(s.drop_last() =~= be(n / 256, (width - 1) as nat));
        assert(s.last() == (n % 256) as u8);
    }
}

/// Writing the number read from a byte sequence gives that sequence.
pub proof fn law_be_of_unbe(s: Seq<u8>)
    ensures
        unbe(s) < capacity(s.len()),
        be(unbe(s), s.len()) == s,
    decreases s.len(),
{
    if s.len() > 0 {
        law_be_of_unbe(s.drop_last());
        assert(unbe(s) / 256 == unbe(s.drop_last()));
        assert(unbe(s) % 256 == s.last() as nat);
        assert(be(unbe(s), s.len()) =~= s);
    }
}

pub proof fn lemma_capacities()
    ensures
        capacity(2) == 0x1_0000,
        capacity(4) == 0x1_0000_0000,
        capacity(8) == 0x1_0000_0000_0000_0000,
{
    reveal_with_fuel(capacity, 9);
}

/// Append the `width` low-order bytes of `v`, most significant first.
pub fn push_be(out: &mut Vec<u8>, v: u64, width: usize)
    ensures
        final(out)@ == old(out)@ + be(v as nat, width as nat),
    decreases width,
{
    if width > 0 {
        push_be(out, v / 256, width - 1);
        out.push((v % 256) as u8);
    }
    assert(out@ =~= old(out)@ + be(v as nat, width as nat));
}

/// The number written in `bytes[from..from + width]`, most significant byte first.
pub fn read_be(bytes: &[u8], from: usize, width: usize) -> (v: u64)
    requires
        width <= 8,
        from + width <= bytes@.len(),
    ensures
        v == unbe(bytes@.subrange(from as int, from + width)),
        v < capacity(width as nat),
{
    let len: usize = bytes.len();
    let mut v: u64 = 0;
    let mut i: usize = 0;
    while i < width
        invariant
            i <= width <= 8,
            from + width <= len == bytes@.len(),
            v == unbe(bytes@.subrange(from as int, from + i)),
            v < capacity(i as nat),
        decreases width - i,
    {
        let ghost s = bytes@.subrange(from as int, from + i + 1);
        proof {
            assert(s.drop_last() =~= bytes@.subrange(from as int, from + i));
            reveal_with_fuel(capacity, 9);
            assert(capacity(i as nat) <= capacity(7));
            assert(v * 256 + 255 < capacity((i + 1) as nat));
        }
        v = v * 256 + bytes[from + i] as u64;
        i += 1;
    }
    v
}

/// Append a copy of `src`.
pub fn push_all(out: &mut Vec<u8>, src: &[u8])
    ensures
        final(out)@ == old(out)@ + src@,
{
    let ghost start = out@;
    let mut i: usize = 0;
    assert(out@ =~= start + src@.take(0));
    while i < src.len()
        invariant
            i <= src@.len(),
            out@ == start + src@.take(i as int),
        decreases src@.len() - i,
    {
        out.push(src[i]);
        i += 1;
        assert(out@ =~= start + src@.take(i as int));
    }
    assert(src@.take(i as int) =~= src@);
}

/// Whether two byte slices are equal.
pub fn equal(a: &[u8], b: &[u8]) -> (r: bool)
    ensures
        r == (a@ == b@),
{
    if a.len() != b.len() {
        return false;
    }
    let mut i: usize = 0;
    while i < a.len()
        invariant
            a@.len() == b@.len(),
            i <= a@.len(),
            forall|j: int| 0 <= j < i ==> a@[j] == b@[j],
        decreases a@.len() - i,
    {
        if a[i] != b[i] {
            return false;
        }
        i += 1;
    }
    assert(a@ =~= b@);
    true
}

/// The first `N` bytes as an array.
pub fn array_of<const N: usize>(bytes: &[u8]) -> (r: [u8; N])
    requires
        bytes@.len() == N,
    ensures
        r@ == bytes@,
{
    let mut r: [u8; N] = [0u8; N];
    let mut i: usize = 0;
    while i < N
        invariant
            i <= N,
            bytes@.len() == N,
            forall|j: int| 0 <= j < i ==> r@[j] == bytes@[j],
        decreases N - i,
    {
        r[i] = bytes[i];
        i += 1;
    }
    assert(r@ =~= bytes@);
    r
}

} // verus!
