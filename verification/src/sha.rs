//! SHA-256 (FIPS 180-4).
use crate::bytes::{be, push_be, read_be, unbe};
use crate::bytes::{lemma_be_len, lemma_capacities};
use vstd::arithmetic::div_mod::*;
use vstd::prelude::*;

verus! {

/// Round constants.
pub const K: [u32; 64] = [
    0x428a2f98, 0x71374491, 0xb5c0fbcf, 0xe9b5dba5, 0x3956c25b, 0x59f111f1, 0x923f82a4, 0xab1c5ed5,
    0xd807aa98, 0x12835b01, 0x243185be, 0x550c7dc3, 0x72be5d74, 0x80deb1fe, 0x9bdc06a7, 0xc19bf174,
    0xe49b69c1, 0xefbe4786, 0x0fc19dc6, 0x240ca1cc, 0x2de92c6f, 0x4a7484aa, 0x5cb0a9dc, 0x76f988da,
    0x983e5152, 0xa831c66d, 0xb00327c8, 0xbf597fc7, 0xc6e00bf3, 0xd5a79147, 0x06ca6351, 0x14292967,
    0x27b70a85, 0x2e1b2138, 0x4d2c6dfc, 0x53380d13, 0x650a7354, 0x766a0abb, 0x81c2c92e, 0x92722c85,
    0xa2bfe8a1, 0xa81a664b, 0xc24b8b70, 0xc76c51a3, 0xd192e819, 0xd6990624, 0xf40e3585, 0x106aa070,
    0x19a4c116, 0x1e376c08, 0x2748774c, 0x34b0bcb5, 0x391c0cb3, 0x4ed8aa4a, 0x5b9cca4f, 0x682e6ff3,
    0x748f82ee, 0x78a5636f, 0x84c87814, 0x8cc70208, 0x90befffa, 0xa4506ceb, 0xbef9a3f7, 0xc67178f2,
];

/// The eight working words.
#[derive(Debug, Clone, Copy, PartialEq, Eq, Structural)]
pub struct Words {
    pub a: u32,
    pub b: u32,
    pub c: u32,
    pub d: u32,
    pub e: u32,
    pub f: u32,
    pub g: u32,
    pub h: u32,
}

/// The words before the first block.
#[verifier::allow_in_spec]
pub fn initial() -> Words
    returns
        (Words {
            a: 0x6a09e667,
            b: 0xbb67ae85,
            c: 0x3c6ef372,
            d: 0xa54ff53a,
            e: 0x510e527f,
            f: 0x9b05688c,
            g: 0x1f83d9ab,
            h: 0x5be0cd19,
        }),
{
    Words {
        a: 0x6a09e667,
        b: 0xbb67ae85,
        c: 0x3c6ef372,
        d: 0xa54ff53a,
        e: 0x510e527f,
        f: 0x9b05688c,
        g: 0x1f83d9ab,
        h: 0x5be0cd19,
    }
}

/// `x` rotated right by `n` bits, for `n` between one and 31.
pub open spec fn rotr(x: u32, n: u32) -> u32 {
    (x >> n) | (x << ((32 - n) as u32))
}

pub open spec fn small_sigma0(x: u32) -> u32 {
    rotr(x, 7) ^ rotr(x, 18) ^ (x >> 3u32)
}

pub open spec fn small_sigma1(x: u32) -> u32 {
    rotr(x, 17) ^ rotr(x, 19) ^ (x >> 10u32)
}

pub open spec fn big_sigma0(x: u32) -> u32 {
    rotr(x, 2) ^ rotr(x, 13) ^ rotr(x, 22)
}

pub open spec fn big_sigma1(x: u32) -> u32 {
    rotr(x, 6) ^ rotr(x, 11) ^ rotr(x, 25)
}

pub open spec fn choice(e: u32, f: u32, g: u32) -> u32 {
    (e & f) ^ ((!e) & g)
}

pub open spec fn majority(a: u32, b: u32, c: u32) -> u32 {
    (a & b) ^ (a & c) ^ (b & c)
}

/// Sum modulo two to the power 32.
pub open spec fn plus(a: u32, b: u32) -> u32 {
    ((a + b) % 0x1_0000_0000) as u32
}

/// Word `t` of the message schedule of a block.
pub open spec fn schedule(block: Seq<u8>, t: nat) -> u32
    decreases t,
{
    if t < 16 {
        unbe(block.subrange(4 * t as int, 4 * t as int + 4)) as u32
    } else {
        plus(
            plus(
                plus(schedule(block, (t - 16) as nat), small_sigma0(schedule(block, (t - 15) as nat))),
                schedule(block, (t - 7) as nat),
            ),
            small_sigma1(schedule(block, (t - 2) as nat)),
        )
    }
}

/// One round with round constant `k` and schedule word `w`.
pub open spec fn round(s: Words, k: u32, w: u32) -> Words {
    let t1 = plus(plus(plus(plus(s.h, big_sigma1(s.e)), choice(s.e, s.f, s.g)), k), w);
    let t2 = plus(big_sigma0(s.a), majority(s.a, s.b, s.c));
    Words {
        a: plus(t1, t2),
        b: s.a,
        c: s.b,
        d: s.c,
        e: plus(s.d, t1),
        f: s.e,
        g: s.f,
        h: s.g,
    }
}

/// The words after the first `n` rounds on a block.
pub open spec fn rounds(s: Words, block: Seq<u8>, n: nat) -> Words
    decreases n,
{
    if n == 0 {
        s
    } else {
        round(rounds(s, block, (n - 1) as nat), K@[n - 1], schedule(block, (n - 1) as nat))
    }
}

/// The words after one block of 64 bytes.
#[verifier::opaque]
pub open spec fn compressed(s: Words, block: Seq<u8>) -> Words {
    let r = rounds(s, block, 64);
    Words {
        a: plus(s.a, r.a),
        b: plus(s.b, r.b),
        c: plus(s.c, r.c),
        d: plus(s.d, r.d),
        e: plus(s.e, r.e),
        f: plus(s.f, r.f),
        g: plus(s.g, r.g),
        h: plus(s.h, r.h),
    }
}

/// The words after all blocks of `m`, whose length is a multiple of 64.
pub open spec fn chain(m: Seq<u8>) -> Words
    decreases m.len(),
{
    if m.len() < 64 {
        initial()
    } else {
        compressed(chain(m.take(m.len() - 64)), m.skip(m.len() - 64))
    }
}

/// `n` bytes of zero.
pub open spec fn zeros(n: nat) -> Seq<u8> {
    Seq::new(n, |i: int| 0u8)
}

/// The message followed by a one bit, zeros up to eight bytes before the end of a block, and
/// its length in bits.
pub open spec fn padded(m: Seq<u8>) -> Seq<u8> {
    m + seq![0x80u8] + zeros(((119 - m.len() as int % 64) % 64) as nat) + be(
        ((8 * m.len()) % 0x1_0000_0000_0000_0000) as nat,
        8,
    )
}

/// The eight words, most significant byte first.
pub open spec fn words_bytes(s: Words) -> Seq<u8> {
    be(s.a as nat, 4) + be(s.b as nat, 4) + be(s.c as nat, 4) + be(s.d as nat, 4) + be(
        s.e as nat,
        4,
    ) + be(s.f as nat, 4) + be(s.g as nat, 4) + be(s.h as nat, 4)
}

/// The SHA-256 digest of a message.
#[verifier::opaque]
pub open spec fn digest(m: Seq<u8>) -> Seq<u8> {
    words_bytes(chain(padded(m)))
}

/// A digest has 32 bytes.
pub proof fn lemma_digest_len(m: Seq<u8>)
    ensures
        digest(m).len() == 32,
{
    reveal(digest);
    let s = chain(padded(m));
    lemma_be_len(s.a as nat, 4);
    lemma_be_len(s.b as nat, 4);
    lemma_be_len(s.c as nat, 4);
    lemma_be_len(s.d as nat, 4);
    lemma_be_len(s.e as nat, 4);
    lemma_be_len(s.f as nat, 4);
    lemma_be_len(s.g as nat, 4);
    lemma_be_len(s.h as nat, 4);
}

fn rotate(x: u32, n: u32) -> (r: u32)
    requires
        1 <= n <= 31,
    ensures
        r == rotr(x, n),
{
    (x >> n) | (x << (32 - n))
}

fn sum(a: u32, b: u32) -> (r: u32)
    ensures
        r == plus(a, b),
{
    a.wrapping_add(b)
}

/// The message schedule of a block.
fn expand(block: &[u8; 64]) -> (w: [u32; 64])
    ensures
        forall|t: int| 0 <= t < 64 ==> #[trigger] w@[t] == schedule(block@, t as nat),
{
    let mut w: [u32; 64] = [0u32; 64];
    proof {
        lemma_capacities();
    }
    let mut i: usize = 0;
    while i < 16
        invariant
            i <= 16,
            crate::bytes::capacity(4) == 0x1_0000_0000,
            forall|t: int| 0 <= t < i ==> #[trigger] w@[t] == schedule(block@, t as nat),
        decreases 16 - i,
    {
        w[i] = read_be(block.as_slice(), 4 * i, 4) as u32;
        i += 1;
    }
    while i < 64
        invariant
            16 <= i <= 64,
            forall|t: int| 0 <= t < i ==> #[trigger] w@[t] == schedule(block@, t as nat),
        decreases 64 - i,
    {
        let x: u32 = w[i - 15];
        let y: u32 = w[i - 2];
        let s0: u32 = rotate(x, 7) ^ rotate(x, 18) ^ (x >> 3u32);
        let s1: u32 = rotate(y, 17) ^ rotate(y, 19) ^ (y >> 10u32);
        w[i] = sum(sum(sum(w[i - 16], s0), w[i - 7]), s1);
        i += 1;
    }
    w
}

/// The words after one block.
fn compress(s: Words, block: &[u8; 64]) -> (r: Words)
    ensures
        r == compressed(s, block@),
{
    proof {
        reveal(compressed);
    }
    let w = expand(block);
    let mut v: Words = s;
    let mut i: usize = 0;
    while i < 64
        invariant
            i <= 64,
            v == rounds(s, block@, i as nat),
            forall|t: int| 0 <= t < 64 ==> #[trigger] w@[t] == schedule(block@, t as nat),
        decreases 64 - i,
    {
        let s1: u32 = rotate(v.e, 6) ^ rotate(v.e, 11) ^ rotate(v.e, 25);
        let ch: u32 = (v.e & v.f) ^ ((!v.e) & v.g);
        let t1: u32 = sum(sum(sum(sum(v.h, s1), ch), K[i]), w[i]);
        let s0: u32 = rotate(v.a, 2) ^ rotate(v.a, 13) ^ rotate(v.a, 22);
        let maj: u32 = (v.a & v.b) ^ (v.a & v.c) ^ (v.b & v.c);
        let t2: u32 = sum(s0, maj);
        assert(w@[i as int] == schedule(block@, i as nat));
        v = Words {
            a: sum(t1, t2),
            b: v.a,
            c: v.b,
            d: v.c,
            e: sum(v.d, t1),
            f: v.e,
            g: v.f,
            h: v.g,
        };
        i += 1;
    }
    Words {
        a: sum(s.a, v.a),
        b: sum(s.b, v.b),
        c: sum(s.c, v.c),
        d: sum(s.d, v.d),
        e: sum(s.e, v.e),
        f: sum(s.f, v.f),
        g: sum(s.g, v.g),
        h: sum(s.h, v.h),
    }
}

/// A hash in progress; its view is everything absorbed so far.
pub struct Sha256 {
    words: Words,
    buf: [u8; 64],
    buf_len: usize,
    total_len: u64,
    absorbed: Ghost<Seq<u8>>,
}

impl View for Sha256 {
    type V = Seq<u8>;

    closed spec fn view(&self) -> Seq<u8> {
        self.absorbed@
    }
}

/// The words stand for all full blocks of `m`, and the first `held` bytes of `buf` for the rest.
spec fn holds(words: Words, buf: Seq<u8>, held: nat, m: Seq<u8>) -> bool {
    &&& held < 64
    &&& held == m.len() % 64
    &&& buf.len() == 64
    &&& words == chain(m.take(m.len() - held))
    &&& buf.take(held as int) == m.skip(m.len() - held)
}

proof fn lemma_absorb(words: Words, buf: Seq<u8>, held: nat, m: Seq<u8>, x: u8)
    requires
        holds(words, buf, held, m),
    ensures
        held < 63 ==> holds(words, buf.update(held as int, x), held + 1, m.push(x)),
        held == 63 ==> holds(
            compressed(words, buf.update(held as int, x)),
            buf.update(held as int, x),
            0,
            m.push(x),
        ),
{
    let b = buf.update(held as int, x);
    let next = m.push(x);
    let from = m.len() - held;
    assert(next.take(from) =~= m.take(from));
    assert(b.take(held as int + 1) =~= next.skip(from)) by {
        assert forall|j: int| 0 <= j < held implies b[j] == #[trigger] next.skip(from)[j] by {
            assert(buf.take(held as int)[j] == m.skip(from)[j]);
        }
    }
    if held == 63 {
        assert(next.take(next.len() as int) =~= next);
        assert(b.take(64) =~= b);
        assert(b.take(0) =~= next.skip(next.len() as int));
        assert(chain(next) == compressed(chain(next.take(from)), next.skip(from)));
    }
}

/// A partial block followed by a one bit and zeros.
spec fn closing(buf: Seq<u8>, held: nat) -> Seq<u8> {
    buf.take(held as int) + seq![0x80u8] + zeros((63 - held) as nat)
}

/// How the padded message ends: one block, or two where the length does not fit after the
/// one bit.
proof fn lemma_last_blocks(words: Words, buf: Seq<u8>, held: nat, m: Seq<u8>)
    requires
        holds(words, buf, held, m),
    ensures
        ({
            let bits = be(((8 * m.len()) % 0x1_0000_0000_0000_0000) as nat, 8);
            let first = closing(buf, held);
            &&& held + 1 <= 56 ==> chain(padded(m)) == compressed(words, first.take(56) + bits)
            &&& held + 1 > 56 ==> chain(padded(m)) == compressed(
                compressed(words, first),
                zeros(56) + bits,
            )
        }),
{
    let count = ((8 * m.len()) % 0x1_0000_0000_0000_0000) as nat;
    let bits = be(count, 8);
    lemma_be_len(count, 8);
    let all = padded(m);
    let n = all.len();
    let from = m.len() - held;
    let first = closing(buf, held);
    assert(forall|j: int| 0 <= j < held ==> #[trigger] buf[j] == m[from + j]) by {
        assert forall|j: int| 0 <= j < held implies #[trigger] buf[j] == m[from + j] by {
            assert(buf.take(held as int)[j] == m.skip(from)[j]);
        }
    }
    if held + 1 <= 56 {
        assert(n == from + 64);
        assert(all.take(n - 64) =~= m.take(from));
        assert(all.skip(n - 64) =~= first.take(56) + bits);
    } else {
        assert(n == from + 128);
        let head = all.take(n - 64);
        assert(head.take(head.len() - 64) =~= m.take(from));
        assert(head.skip(head.len() - 64) =~= first);
        assert(chain(head) == compressed(words, first));
        assert(all.skip(n - 64) =~= zeros(56) + bits);
    }
}

impl Sha256 {
    #[verifier::type_invariant]
    spec fn wf(self) -> bool {
        &&& holds(self.words, self.buf@, self.buf_len as nat, self.absorbed@)
        &&& self.total_len == self.absorbed@.len() % 0x1_0000_0000_0000_0000
    }

    /// A hash of nothing yet.
    pub fn new() -> (r: Sha256)
        ensures
            r@ == Seq::<u8>::empty(),
    {
        let buf: [u8; 64] = [0u8; 64];
        let ghost none = Seq::<u8>::empty();
        assert(buf@.take(0) =~= none.skip(0));
        assert(none.take(0).len() == 0);
        Sha256 { words: initial(), buf, buf_len: 0, total_len: 0, absorbed: Ghost(none) }
    }

    /// Absorb `data` after everything absorbed before.
    pub fn update(&mut self, data: &[u8])
        ensures
            final(self)@ == old(self)@ + data@,
    {
        proof {
            use_type_invariant(&*self);
        }
        let ghost start = self.absorbed@;
        let mut words: Words = self.words;
        let mut buf: [u8; 64] = self.buf;
        let mut held: usize = self.buf_len;
        let total: u64 = self.total_len.wrapping_add(data.len() as u64);
        proof {
            lemma_add_mod_noop(
                start.len() as int,
                data@.len() as int,
                0x1_0000_0000_0000_0000,
            );
        }
        let mut i: usize = 0;
        assert(start + data@.take(0) =~= start);
        while i < data.len()
            invariant
                i <= data@.len(),
                holds(words, buf@, held as nat, start + data@.take(i as int)),
            decreases data@.len() - i,
        {
            proof {
                lemma_absorb(
                    words,
                    buf@,
                    held as nat,
                    start + data@.take(i as int),
                    data@[i as int],
                );
                assert(start + data@.take(i + 1) =~= (start + data@.take(i as int)).push(
                    data@[i as int],
                ));
            }
            buf[held] = data[i];
            held += 1;
            if held == 64 {
                words = compress(words, &buf);
                held = 0;
            }
            i += 1;
        }
        assert(data@.take(i as int) =~= data@);
        *self = Sha256 {
            words,
            buf,
            buf_len: held,
            total_len: total,
            absorbed: Ghost(start + data@),
        };
    }

    /// The digest of everything absorbed.
    pub fn finalize(self) -> (r: [u8; 32])
        ensures
            r@ == digest(self@),
    {
        proof {
            use_type_invariant(&self);
        }
        let ghost m = self.absorbed@;
        let ghost bits = ((8 * m.len()) % 0x1_0000_0000_0000_0000) as nat;
        let bit_len: u64 = self.total_len.wrapping_mul(8);
        proof {
            lemma_mul_mod_noop_left(m.len() as int, 8, 0x1_0000_0000_0000_0000);
            assert(bit_len == bits);
            lemma_be_len(bits, 8);
        }
        let mut words: Words = self.words;
        let mut block: [u8; 64] = self.buf;
        let held: usize = self.buf_len;
        block[held] = 0x80;
        clear(&mut block, held + 1, 64);
        proof {
            lemma_last_blocks(words, self.buf@, held as nat, m);
            assert(block@ =~= closing(self.buf@, held as nat));
        }
        if held + 1 > 56 {
            words = compress(words, &block);
            block = [0u8; 64];
            assert(block@.take(56) =~= zeros(56));
        }
        let mut length: Vec<u8> = Vec::new();
        push_be(&mut length, bit_len, 8);
        assert(length@ =~= be(bits, 8));
        put_length(&mut block, &length);
        words = compress(words, &block);
        let mut out: Vec<u8> = Vec::new();
        push_be(&mut out, words.a as u64, 4);
        push_be(&mut out, words.b as u64, 4);
        push_be(&mut out, words.c as u64, 4);
        push_be(&mut out, words.d as u64, 4);
        push_be(&mut out, words.e as u64, 4);
        push_be(&mut out, words.f as u64, 4);
        push_be(&mut out, words.g as u64, 4);
        push_be(&mut out, words.h as u64, 4);
        proof {
            reveal(digest);
            assert(out@ =~= digest(m));
            lemma_digest_len(m);
        }
        crate::bytes::array_of(out.as_slice())
    }
}

impl Clone for Sha256 {
    /// A second hash that has absorbed the same.
    fn clone(&self) -> (r: Sha256)
        ensures
            r@ == self@,
    {
        proof {
            use_type_invariant(self);
        }
        Sha256 {
            words: self.words,
            buf: self.buf,
            buf_len: self.buf_len,
            total_len: self.total_len,
            absorbed: Ghost(self.absorbed@),
        }
    }
}

/// Put the message length at the end of a block.
fn put_length(block: &mut [u8; 64], length: &Vec<u8>)
    requires
        length@.len() == 8,
    ensures
        final(block)@ == old(block)@.take(56) + length@,
{
    let mut i: usize = 0;
    while i < 8
        invariant
            i <= 8,
            length@.len() == 8,
            forall|j: int| 0 <= j < 56 ==> block@[j] == old(block)@[j],
            forall|j: int| 56 <= j < 56 + i ==> #[trigger] block@[j] == length@[j - 56],
        decreases 8 - i,
    {
        block[56 + i] = length[i];
        i += 1;
    }
    assert(block@ =~= old(block)@.take(56) + length@);
}

/// Set the bytes `from..to` of a block to zero.
fn clear(block: &mut [u8; 64], from: usize, to: usize)
    requires
        from <= to <= 64,
    ensures
        final(block)@ == old(block)@.take(from as int) + zeros((to - from) as nat) + old(
            block,
        )@.skip(to as int),
{
    let mut i: usize = from;
    while i < to
        invariant
            from <= i <= to <= 64,
            forall|j: int| 0 <= j < from ==> block@[j] == old(block)@[j],
            forall|j: int| from <= j < i ==> block@[j] == 0,
            forall|j: int| i <= j < 64 ==> block@[j] == old(block)@[j],
        decreases to - i,
    {
        block[i] = 0;
        i += 1;
    }
    assert(block@ =~= old(block)@.take(from as int) + zeros((to - from) as nat) + old(block)@.skip(
        to as int,
    ));
}

/// The digest of one contiguous message.
pub fn sha256(data: &[u8]) -> (r: [u8; 32])
    ensures
        r@ == digest(data@),
{
    let mut h = Sha256::new();
    h.update(data);
    assert(h@ =~= data@);
    h.finalize()
}

} // verus!
