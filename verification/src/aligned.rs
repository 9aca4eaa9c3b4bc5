//! Aligned buffers and rounding to alignment boundaries.
use vstd::arithmetic::div_mod::*;
use vstd::arithmetic::power2::*;
use vstd::bits::*;
use vstd::prelude::*;

verus! {

/// Size of a cache line.
pub const CACHE_LINE: usize = 64;

/// Size of a disk block.
pub const DISK_BLOCK: usize = 4096;

/// Whether `n` is a power of two.
pub open spec fn power_of_two(n: nat) -> bool
    decreases n,
{
    n == 1 || (n > 0 && n % 2 == 0 && power_of_two(n / 2))
}

/// `r` is the least multiple of `align` that is not below `pos`.
pub open spec fn rounded_up(pos: int, align: int, r: int) -> bool {
    r % align == 0 && pos <= r < pos + align
}

proof fn lemma_power_of_two(n: nat) -> (k: nat)
    requires
        power_of_two(n),
    ensures
        n == pow2(k),
    decreases n,
{
    lemma2_to64();
    if n == 1 {
        0
    } else {
        let k = lemma_power_of_two(n / 2);
        lemma_pow2_unfold(k + 1);
        k + 1
    }
}

/// Whether an address is a multiple of `align`.
pub fn is_aligned(addr: usize, align: usize) -> (r: bool)
    requires
        align != 0,
    ensures
        r == (addr % align == 0),
{
    addr % align == 0
}

/// Whether an address is a multiple of the cache line size.
pub fn is_cache_aligned(addr: usize) -> (r: bool)
    ensures
        r == (addr % 64 == 0),
{
    is_aligned(addr, CACHE_LINE)
}

/// Whether an address is a multiple of the disk block size.
pub fn is_block_aligned(addr: usize) -> (r: bool)
    ensures
        r == (addr % 4096 == 0),
{
    is_aligned(addr, DISK_BLOCK)
}

fn is_power_of_two(n: usize) -> (r: bool)
    ensures
        r == power_of_two(n as nat),
    decreases n,
{
    if n == 0 {
        false
    } else if n == 1 {
        true
    } else {
        n % 2 == 0 && is_power_of_two(n / 2)
    }
}

/// Round `pos` up to a multiple of `align`, a power of two; zero leaves `pos` as it is.
pub fn align_up(pos: usize, align: usize) -> (r: usize)
    requires
        align > 0 ==> pos + align - 1 <= usize::MAX,
    ensures
        align == 0 ==> r == pos,
        align > 0 ==> r == ((pos + align - 1) as usize) & !((align - 1) as usize),
        power_of_two(align as nat) ==> rounded_up(pos as int, align as int, r as int),
{
    if align == 0 {
        pos
    } else {
        let x: usize = pos + (align - 1);
        let m: usize = align - 1;
        proof {
            assert(x & !m == x - (x & m)) by (bit_vector);
            if power_of_two(align as nat) {
                let k = lemma_power_of_two(align as nat);
                if k >= usize::BITS {
                    lemma_usize_pow2_no_overflow_bound(k);
                }
                lemma_usize_low_bits_mask_is_mod(x, k);
                lemma_rounding(x as int, align as int);
            }
        }
        x & !m
    }
}

proof fn lemma_usize_pow2_no_overflow_bound(k: nat)
    requires
        k >= usize::BITS,
    ensures
        pow2(k) > usize::MAX,
{
    lemma2_to64();
    lemma2_to64_rest();
    if k > usize::BITS {
        lemma_pow2_strictly_increases(usize::BITS as nat, k);
    }
}

/// Taking off the remainder gives a multiple.
proof fn lemma_rounding(x: int, align: int)
    requires
        align > 0,
    ensures
        (x - x % align) % align == 0,
        x - align < x - x % align <= x,
        x - x % align == x / align * align,
{
    lemma_fundamental_div_mod(x, align);
    lemma_mod_bound(x, align);
    vstd::arithmetic::mul::lemma_mul_is_commutative(align, x / align);
    lemma_mod_multiples_basic(x / align, align);
}

/// Round `pos` up to a multiple of `align`; zero leaves `pos` as it is.
pub fn align_up_u64(pos: u64, align: u64) -> (r: u64)
    requires
        align > 0 ==> pos + align - 1 <= u64::MAX,
    ensures
        align == 0 ==> r == pos,
        align > 0 ==> rounded_up(pos as int, align as int, r as int),
{
    if align == 0 {
        pos
    } else {
        proof {
            lemma_rounding(pos + align - 1, align as int);
        }
        (pos + (align - 1)) / align * align
    }
}

/// The address of the first byte a vector holds, from `Vec::as_ptr`. It may be any address
/// from which the contents end before the last one: no allocation wraps around.
#[verifier::external_body]
fn address(v: &Vec<u8>) -> (a: usize)
    ensures
        a + v@.len() <= usize::MAX,
{
    v.as_ptr() as usize
}

/// Size of the layout for `len` bytes: no layout is empty.
pub open spec fn layout_bytes(len: int) -> int {
    if len == 0 {
        1
    } else {
        len
    }
}

/// There is a layout for `len` bytes at a multiple of `align`: `align` is a power of two, and the
/// size rounded up to a multiple of it does not exceed `isize::MAX`.
pub open spec fn allocatable(len: int, align: int) -> bool {
    align > 0 && power_of_two(align as nat) && (layout_bytes(len) + align - 1) / align * align
        <= isize::MAX
}

/// The allocator may grant (`granted`) or refuse `size` bytes: `Vec::try_reserve` may answer so
/// when asked for them by an empty vector.
pub open spec fn may_reserve(size: usize, granted: bool) -> bool {
    exists|v: &mut Vec<u8>, r: std::result::Result<(), std::collections::TryReserveError>| #[trigger]
        call_ensures(Vec::<u8>::try_reserve, (v, size), r) && v@.len() == 0 && r is Ok == granted
}

fn layout_size(len: usize) -> (r: usize)
    ensures
        r == layout_bytes(len as int),
{
    if len == 0 {
        1
    } else {
        len
    }
}

/// A heap buffer whose first byte lies at a multiple of `ALIGN`. Its view is its bytes.
pub struct AlignedBuffer<const ALIGN: usize> {
    store: Vec<u8>,
    base: usize,
    offset: usize,
    len: usize,
}

/// Buffer aligned to cache lines.
pub type CacheAlignedBuffer = AlignedBuffer<64>;

/// Buffer aligned to disk blocks.
pub type BlockAlignedBuffer = AlignedBuffer<4096>;

impl<const ALIGN: usize> View for AlignedBuffer<ALIGN> {
    type V = Seq<u8>;

    closed spec fn view(&self) -> Seq<u8> {
        self.store@.subrange(self.offset as int, self.offset + self.len)
    }
}

impl<const ALIGN: usize> AlignedBuffer<ALIGN> {
    /// The bytes lie inside the allocation and start at a multiple of `ALIGN`.
    pub closed spec fn wf(&self) -> bool {
        &&& power_of_two(ALIGN as nat)
        &&& self.offset + self.len <= self.store@.len()
        &&& self.base + self.offset <= usize::MAX
        &&& (self.base + self.offset) % (ALIGN as int) == 0
    }

    /// The address of the first byte.
    pub closed spec fn start(&self) -> int {
        self.base + self.offset
    }

    /// A buffer of `len` zero bytes. `None` if there is no such layout, and else exactly where
    /// the allocator refuses the bytes asked for.
    pub fn new(len: usize) -> (r: Option<AlignedBuffer<ALIGN>>)
        ensures
            match r {
                Some(b) => {
                    &&& allocatable(len as int, ALIGN as int)
                    &&& may_reserve((len + ALIGN - 1) as usize, true)
                    &&& b.wf()
                    &&& b@ == Seq::new(len as nat, |i: int| 0u8)
                    &&& b.start() % (ALIGN as int) == 0
                },
                None => allocatable(len as int, ALIGN as int) ==> may_reserve(
                    (len + ALIGN - 1) as usize,
                    false,
                ),
            },
    {
        let size: usize = match AlignedBuffer::<ALIGN>::storage_size(len) {
            Some(size) => size,
            None => return None,
        };
        let mut store: Vec<u8> = Vec::new();
        let reserved = store.try_reserve(size);
        if reserved.is_ok() {
            AlignedBuffer::from_storage(len, Some(store))
        } else {
            AlignedBuffer::from_storage(len, None)
        }
    }

    /// Number of bytes that hold `len` bytes at a multiple of `ALIGN`, wherever they start;
    /// `None` if there is no such layout.
    fn storage_size(len: usize) -> (r: Option<usize>)
        ensures
            match r {
                Some(size) => allocatable(len as int, ALIGN as int) && size == len + ALIGN - 1,
                None => !allocatable(len as int, ALIGN as int),
            },
    {
        if !is_power_of_two(ALIGN) {
            return None;
        }
        let align: u128 = ALIGN as u128;
        let sum: u128 = layout_size(len) as u128 + (align - 1);
        let rounds: u128 = sum / align;
        proof {
            lemma_rounding(sum as int, align as int);
        }
        let rounded: u128 = rounds * align;
        if rounded > isize::MAX as u128 {
            return None;
        }
        proof {
            assert(rounded >= align) by (nonlinear_arith)
                requires
                    rounded == rounds * align,
                    rounded > 0,
                    rounds >= 0,
                    align > 0,
            ;
        }
        Some(len + (ALIGN - 1))
    }

    /// A buffer of `len` zero bytes in the storage that the allocator granted, if it did.
    pub fn from_storage(len: usize, storage: Option<Vec<u8>>) -> (r: Option<AlignedBuffer<ALIGN>>)
        ensures
            r is Some <==> allocatable(len as int, ALIGN as int) && storage is Some,
            r matches Some(b) ==> b.wf() && b@ == Seq::new(len as nat, |i: int| 0u8) && b.start()
                % (ALIGN as int) == 0,
    {
        let size: usize = match AlignedBuffer::<ALIGN>::storage_size(len) {
            Some(size) => size,
            None => return None,
        };
        let mut store: Vec<u8> = match storage {
            Some(store) => store,
            None => return None,
        };
        store.clear();
        while store.len() < size
            invariant
                store@.len() <= size,
                forall|i: int| 0 <= i < store@.len() ==> store@[i] == 0,
            decreases size - store@.len(),
        {
            store.push(0);
        }
        Some(AlignedBuffer::place(store, len))
    }

    /// A buffer of `len` zero bytes.
    pub fn new_zeroed(len: usize) -> (b: AlignedBuffer<ALIGN>)
        requires
            power_of_two(ALIGN as nat),
            len + ALIGN - 1 <= isize::MAX,
        ensures
            b.wf(),
            b@ == Seq::new(len as nat, |i: int| 0u8),
            b.start() % (ALIGN as int) == 0,
    {
        let store: Vec<u8> = vec![0u8; len + (ALIGN - 1)];
        AlignedBuffer::place(store, len)
    }

    /// Lay `len` bytes into zeroed storage that has room for them wherever it starts.
    fn place(store: Vec<u8>, len: usize) -> (b: AlignedBuffer<ALIGN>)
        requires
            power_of_two(ALIGN as nat),
            store@.len() == len + ALIGN - 1,
            forall|i: int| 0 <= i < store@.len() ==> store@[i] == 0,
        ensures
            b.wf(),
            b@ == Seq::new(len as nat, |i: int| 0u8),
            b.start() % (ALIGN as int) == 0,
    {
        let base: usize = address(&store);
        let over: usize = base % ALIGN;
        let offset: usize = if over == 0 {
            0
        } else {
            ALIGN - over
        };
        proof {
            lemma_offset(base as int, ALIGN as int);
        }
        let b = AlignedBuffer { store, base, offset, len };
        assert(b@ =~= Seq::new(len as nat, |i: int| 0u8));
        b
    }

    /// A buffer of `len` bytes: those of `from` as far as both reach, then zeros; `None` as in
    /// `new`.
    fn with_prefix(from: &[u8], len: usize) -> (r: Option<AlignedBuffer<ALIGN>>)
        ensures
            match r {
                Some(b) => {
                    &&& allocatable(len as int, ALIGN as int)
                    &&& may_reserve((len + ALIGN - 1) as usize, true)
                    &&& b.wf()
                    &&& b@ == Seq::new(
                        len as nat,
                        |i: int|
                            if i < from@.len() {
                                from@[i]
                            } else {
                                0u8
                            },
                    )
                    &&& b.start() % (ALIGN as int) == 0
                },
                None => allocatable(len as int, ALIGN as int) ==> may_reserve(
                    (len + ALIGN - 1) as usize,
                    false,
                ),
            },
    {
        let mut b = match AlignedBuffer::<ALIGN>::new(len) {
            Some(b) => b,
            None => return None,
        };
        let keep: usize = if from.len() < len {
            from.len()
        } else {
            len
        };
        let ghost fresh = b;
        let size: usize = b.store.len();
        assert(fresh@.len() == len);
        assert forall|p: int| fresh.offset <= p < fresh.offset + len implies #[trigger] b.store@[p]
            == 0 by {
            assert(fresh@[p - fresh.offset] == 0);
        }
        let mut i: usize = 0;
        while i < keep
            invariant
                i <= keep <= from@.len(),
                keep <= len,
                fresh.wf(),
                fresh@ == Seq::new(len as nat, |j: int| 0u8),
                fresh.len == len,
                b.base == fresh.base,
                b.offset == fresh.offset,
                b.len == fresh.len,
                size == b.store@.len() == fresh.store@.len(),
                forall|p: int|
                    fresh.offset <= p < fresh.offset + i ==> #[trigger] b.store@[p] == from@[p
                        - fresh.offset],
                forall|p: int|
                    fresh.offset + i <= p < fresh.offset + len ==> #[trigger] b.store@[p] == 0,
            decreases keep - i,
        {
            let at: usize = b.offset + i;
            b.store.set(at, from[i]);
            i += 1;
        }
        assert(b@ =~= Seq::new(
            len as nat,
            |j: int|
                if j < from@.len() {
                    from@[j]
                } else {
                    0u8
                },
        ));
        Some(b)
    }

    /// Number of bytes.
    pub fn len(&self) -> (r: usize)
        requires
            self.wf(),
        ensures
            r == self@.len(),
    {
        self.len
    }

    /// Whether there are no bytes.
    pub fn is_empty(&self) -> (r: bool)
        requires
            self.wf(),
        ensures
            r == (self@.len() == 0),
    {
        self.len == 0
    }

    /// The address of the first byte.
    pub fn as_ptr(&self) -> (r: usize)
        requires
            self.wf(),
        ensures
            r == self.start(),
            r % ALIGN == 0,
    {
        self.base + self.offset
    }

    /// The address of the first byte.
    pub fn as_mut_ptr(&mut self) -> (r: usize)
        requires
            old(self).wf(),
        ensures
            *final(self) == *old(self),
            r == old(self).start(),
            r % ALIGN == 0,
    {
        self.base + self.offset
    }

    /// The bytes.
    pub fn as_slice(&self) -> (r: &[u8])
        requires
            self.wf(),
        ensures
            r@ == self@,
    {
        let size: usize = self.store.len();
        let end: usize = self.offset + self.len;
        &self.store.as_slice()[self.offset..end]
    }

    /// The bytes, to be changed in place.
    pub fn as_mut_slice(&mut self) -> (r: &mut [u8])
        requires
            old(self).wf(),
        ensures
            r@ == old(self)@,
            final(r)@.len() == r@.len() ==> final(self).wf() && final(self)@ == final(r)@
                && final(self).start() == old(self).start(),
    {
        let (_, rest) = self.store.as_mut_slice().split_at_mut(self.offset);
        let (bytes, _) = rest.split_at_mut(self.len);
        bytes
    }

    /// Change the number of bytes, keeping the leading ones and filling up with zeros;
    /// `false`, and nothing changed, if there is no such layout, and else exactly where the
    /// allocator refuses the bytes asked for.
    pub fn resize(&mut self, new_len: usize) -> (r: bool)
        requires
            old(self).wf(),
        ensures
            final(self).wf(),
            !r ==> *final(self) == *old(self),
            r ==> final(self)@ == Seq::new(
                new_len as nat,
                |i: int|
                    if i < old(self)@.len() {
                        old(self)@[i]
                    } else {
                        0u8
                    },
            ),
            new_len == old(self)@.len() ==> r && *final(self) == *old(self),
            new_len != old(self)@.len() ==> if r {
                allocatable(new_len as int, ALIGN as int) && may_reserve(
                    (new_len + ALIGN - 1) as usize,
                    true,
                )
            } else {
                allocatable(new_len as int, ALIGN as int) ==> may_reserve(
                    (new_len + ALIGN - 1) as usize,
                    false,
                )
            },
    {
        if new_len == self.len {
            assert(self@ =~= Seq::new(
                new_len as nat,
                |i: int|
                    if i < old(self)@.len() {
                        old(self)@[i]
                    } else {
                        0u8
                    },
            ));
            return true;
        }
        match AlignedBuffer::<ALIGN>::with_prefix(self.as_slice(), new_len) {
            Some(b) => {
                *self = b;
                true
            },
            None => false,
        }
    }
}

/// The distance to the next multiple.
proof fn lemma_offset(base: int, align: int)
    requires
        base >= 0,
        align > 0,
    ensures
        base % align == 0 ==> (base + 0) % align == 0,
        base % align != 0 ==> (base + (align - base % align)) % align == 0,
{
    lemma_fundamental_div_mod(base, align);
    if base % align != 0 {
        assert(base + (align - base % align) == (base / align + 1) * align) by (nonlinear_arith)
            requires
                base == align * (base / align) + base % align,
        ;
        lemma_mod_multiples_basic(base / align + 1, align);
    }
}

/// `size` zero bytes.
pub fn alloc_aligned_vec(size: usize, _align: usize) -> (v: Vec<u8>)
    ensures
        v@ == Seq::new(size as nat, |i: int| 0u8),
{
    let v: Vec<u8> = vec![0u8; size];
    assert(v@ =~= Seq::new(size as nat, |i: int| 0u8));
    v
}

} // verus!
