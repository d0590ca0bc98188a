use vstd::prelude::*;

use crate::cursor::{Cursor, Lens};
use crate::iterator::Iter;
use crate::layout::{Layout, Lense};
use crate::prim::{bytes_of, native_order, pow256, splice, value_of, ByteOrder};

verus! {

/// Whether `n` is a power of two.
pub open spec fn is_pow2(n: nat) -> bool
    decreases n,
{
    if n == 1 {
        true
    } else if n == 0 || n % 2 == 1 {
        false
    } else {
        is_pow2(n / 2)
    }
}

/// `n` rounded up to a power of two (`1` for `0`).
pub open spec fn pow2_ceil(n: nat) -> nat
    decreases n,
{
    if n <= 1 {
        1
    } else {
        2 * pow2_ceil(((n + 1) / 2) as nat)
    }
}

/// `n / m`, rounded up.
pub open spec fn ceil_div(n: nat, m: nat) -> nat {
    if n % m == 0 {
        n / m
    } else {
        n / m + 1
    }
}

/// Rounding up to a power of two gives a power of two, no smaller than `n`.
pub proof fn lemma_pow2_ceil(n: nat)
    ensures
        n <= pow2_ceil(n),
        is_pow2(pow2_ceil(n)),
    decreases n,
{
    if n > 1 {
        let m = ((n + 1) / 2) as nat;
        lemma_pow2_ceil(m);
        let p = pow2_ceil(m);
        assert((2 * p) / 2 == p);
        assert((2 * p) % 2 == 0);
    }
}

/// `n / m`, rounded up.
pub(crate) fn div_up(n: usize, m: usize) -> (r: usize)
    requires
        m > 0,
    ensures
        r == ceil_div(n as nat, m as nat),
        r * m >= n,
        r * m < n + m,
{
    let q = n / m;
    proof {
        vstd::arithmetic::div_mod::lemma_fundamental_div_mod(n as int, m as int);
        assert(q * m + n % m == n) by (nonlinear_arith)
            requires
                n == m * q + n % m,
        ;
        if n % m != 0 {
            assert(q < n) by (nonlinear_arith)
                requires
                    q * m + n % m == n,
                    n % m > 0,
                    m > 0,
            ;
            assert((q + 1) * m == q * m + m) by (nonlinear_arith);
        }
    }
    if n % m == 0 {
        q
    } else {
        q + 1
    }
}

/// `n` rounded up to a power of two.
fn round_up_pow2(n: usize) -> (r: usize)
    requires
        pow2_ceil(n as nat) <= usize::MAX,
    ensures
        r == pow2_ceil(n as nat),
    decreases n,
{
    if n <= 1 {
        1
    } else {
        let half = n / 2 + n % 2;
        assert(half == (n + 1) / 2);
        2 * round_up_pow2(half)
    }
}

/// Copies the leading bytes of `src` over those of `bytes`, at most `limit`
/// of them; returns how many were copied.
pub(crate) fn copy_prefix(bytes: &mut Vec<u8>, src: &[u8], limit: usize) -> (r: usize)
    requires
        limit <= old(bytes)@.len(),
    ensures
        r == if src@.len() < limit { src@.len() } else { limit as nat },
        final(bytes)@ == splice(old(bytes)@, 0, src@.take(r as int)),
{
    let n = if src.len() < limit {
        src.len()
    } else {
        limit
    };
    let mut i: usize = 0;
    while i < n
        invariant
            i <= n,
            n <= src@.len(),
            n <= bytes@.len(),
            bytes@.len() == old(bytes)@.len(),
            forall|j: int| 0 <= j < i ==> bytes@[j] == src@[j],
            forall|j: int| i <= j < bytes@.len() ==> bytes@[j] == old(bytes)@[j],
        decreases n - i,
    {
        bytes.set(i, src[i]);
        i = i + 1;
    }
    proof {
        assert(bytes@ =~= splice(old(bytes)@, 0, src@.take(n as int)));
    }
    n
}

/// `n` zero bytes.
pub(crate) fn zeroed(n: usize) -> (r: Vec<u8>)
    ensures
        r@ == Seq::new(n as nat, |i: int| 0u8),
{
    let mut v: Vec<u8> = Vec::new();
    let mut i: usize = 0;
    while i < n
        invariant
            i <= n,
            v@ == Seq::new(i as nat, |j: int| 0u8),
        decreases n - i,
    {
        v.push(0u8);
        i = i + 1;
        assert(v@ =~= Seq::new(i as nat, |j: int| 0u8));
    }
    v
}

/// A fixed arena for a power-of-two number of records of one layout.
///
/// The arena is a whole number of 8-byte words; its first
/// `capacity * size` bytes are the records, back to back.
pub struct AlignedPool {
    layout: Layout,
    bytes: Vec<u8>,
    cap: usize,
    len: usize,
    order: ByteOrder,
}

impl AlignedPool {
    /// The layout of each record.
    pub closed spec fn layout(&self) -> Layout {
        self.layout
    }

    /// Number of records.
    pub closed spec fn capacity(&self) -> nat {
        self.cap as nat
    }

    /// The bytes that hold the records: `capacity * size` of them.
    pub closed spec fn span(&self) -> nat {
        self.len as nat
    }

    /// The whole arena.
    pub closed spec fn arena(&self) -> Seq<u8> {
        self.bytes@
    }

    /// The byte order in which values are read and written.
    pub closed spec fn order(&self) -> ByteOrder {
        self.order
    }

    /// The invariant that every operation keeps.
    pub closed spec fn wf(&self) -> bool {
        &&& self.layout.wf()
        &&& self.len == self.cap * self.layout.spec_size()
        &&& self.bytes@.len() == ceil_div(self.len as nat, 8) * 8
        &&& self.bytes@.len() >= self.len
        &&& is_pow2(self.cap as nat)
    }

    /// Room for `n` records of `layout`, `n` rounded up to a power of two;
    /// every byte starts at zero.
    pub fn with_capacity(layout: Layout, n: usize) -> (r: AlignedPool)
        requires
            layout.wf(),
            pow2_ceil(n as nat) <= usize::MAX,
            pow2_ceil(n as nat) * layout.spec_size() + 8 <= usize::MAX,
        ensures
            r.wf(),
            r.layout() == layout,
            r.capacity() == pow2_ceil(n as nat),
            r.span() == r.capacity() * layout.spec_size(),
            r.arena() == Seq::new(ceil_div(r.span(), 8) * 8, |i: int| 0u8),
    {
        proof {
            lemma_pow2_ceil(n as nat);
        }
        let cap = round_up_pow2(n);
        let len = cap * layout.size();
        let words = div_up(len, 8);
        let bytes = zeroed(words * 8);
        AlignedPool { layout, bytes, cap, len, order: native_order() }
    }

    /// What a well-formed pool knows of itself.
    pub proof fn lemma_wf(&self)
        requires
            self.wf(),
        ensures
            self.layout().wf(),
            self.span() == self.capacity() * self.layout().spec_size(),
            self.span() <= self.arena().len(),
            self.span() <= usize::MAX,
            is_pow2(self.capacity()),
    {
    }

    /// The layout of each record.
    pub fn record_layout(&self) -> (r: &Layout)
        ensures
            *r == self.layout(),
    {
        &self.layout
    }

    /// Number of records.
    pub fn capacity_records(&self) -> (r: usize)
        ensures
            r == self.capacity(),
    {
        self.cap
    }

    /// The bytes that hold the records.
    pub fn len(&self) -> (r: usize)
        ensures
            r == self.span(),
    {
        self.len
    }

    /// The byte order in which values are read and written.
    pub fn byte_order(&self) -> (r: ByteOrder)
        ensures
            r == self.order(),
    {
        self.order
    }

    /// The records' bytes, back to back: `capacity * size` of them.
    pub fn as_bytes(&self) -> (r: &[u8])
        requires
            self.wf(),
        ensures
            r@ == self.arena().subrange(0, self.span() as int),
            r@.len() == self.capacity() * self.layout().spec_size(),
    {
        vstd::slice::slice_subrange(self.bytes.as_slice(), 0, self.len)
    }

    /// Copies the leading bytes of `src` over the records, as many as fit;
    /// returns how many were copied.
    pub fn fill(&mut self, src: &[u8]) -> (r: usize)
        requires
            old(self).wf(),
        ensures
            final(self).wf(),
            r == if src@.len() < old(self).span() { src@.len() } else { old(self).span() },
            final(self).arena() == splice(old(self).arena(), 0, src@.take(r as int)),
            final(self).layout() == old(self).layout(),
            final(self).capacity() == old(self).capacity(),
            final(self).span() == old(self).span(),
            final(self).order() == old(self).order(),
    {
        let r = copy_prefix(&mut self.bytes, src, self.len);
        r
    }

    /// The value of leaf `i` of `lens`, as its bit pattern.
    pub fn get(&self, lens: &Lens, i: usize) -> (r: u64)
        requires
            lens.fits(self.arena().len()),
            i < lens.kinds().len(),
        ensures
            r as nat == value_of(self.order(), lens.leaf_bytes(self.arena(), i as int)),
    {
        lens.get(self.bytes.as_slice(), self.order, i)
    }

    /// Writes `v` into leaf `i` of `lens`; no other byte changes.
    pub fn set(&mut self, lens: &Lens, i: usize, v: u64)
        requires
            old(self).wf(),
            lens.fits(old(self).arena().len()),
            i < lens.kinds().len(),
            (v as nat) < pow256(lens.kinds()[i as int].spec_size()),
        ensures
            final(self).wf(),
            final(self).arena() == splice(
                old(self).arena(),
                lens.offsets()[i as int] as int,
                bytes_of(old(self).order(), v as nat, lens.kinds()[i as int].spec_size()),
            ),
            final(self).layout() == old(self).layout(),
            final(self).capacity() == old(self).capacity(),
            final(self).span() == old(self).span(),
            final(self).order() == old(self).order(),
    {
        lens.set(&mut self.bytes, self.order, i, v);
    }

    /// Reads the records one after another, from the first.
    pub fn iter(&self) -> (r: Iter<'_>)
        requires
            self.wf(),
        ensures
            r.wf(),
            r.layout() == self.layout(),
            r.position() == 0,
            r.end() == self.span(),
            r.remaining() == self.span(),
            self.layout().spec_size() > 0 ==> r.records_left() == self.capacity(),
    {
        Iter::from_aligned_pool(self)
    }
}

} // verus!
