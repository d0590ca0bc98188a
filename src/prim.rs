use vstd::prelude::*;
use vstd::arithmetic::div_mod::lemma_div_denominator;

verus! {

/// A fixed-width numeric primitive, the leaf of every layout.
///
/// Values travel as `u64` bit patterns: a signed kind keeps its two's
/// complement bits in the low `size()` bytes.
#[derive(Clone, Copy, Debug, PartialEq, Eq, Structural)]
pub enum Prim {
    U8,
    I8,
    U16,
    I16,
    U32,
    I32,
    U64,
    I64,
}

impl Prim {
    /// Width in bytes.
    pub open spec fn spec_size(self) -> nat {
        match self {
            Prim::U8 | Prim::I8 => 1,
            Prim::U16 | Prim::I16 => 2,
            Prim::U32 | Prim::I32 => 4,
            Prim::U64 | Prim::I64 => 8,
        }
    }
}


/// Order in which the bytes of a primitive are laid out.
#[derive(Clone, Copy, Debug, PartialEq, Eq, Structural)]
pub enum ByteOrder {
    Little,
    Big,
}

/// `256` to the power `n`.
pub open spec fn pow256(n: nat) -> nat
    decreases n,
{
    if n == 0 {
        1
    } else {
        256 * pow256((n - 1) as nat)
    }
}

/// The number whose little-endian bytes are `b`.
pub open spec fn le_value(b: Seq<u8>) -> nat
    decreases b.len(),
{
    if b.len() == 0 {
        0
    } else {
        b[0] as nat + 256 * le_value(b.drop_first())
    }
}

/// The number whose big-endian bytes are `b`.
pub open spec fn be_value(b: Seq<u8>) -> nat
    decreases b.len(),
{
    if b.len() == 0 {
        0
    } else {
        be_value(b.drop_last()) * 256 + b.last() as nat
    }
}

/// The number that the bytes `b` encode in `order`.
pub open spec fn value_of(order: ByteOrder, b: Seq<u8>) -> nat {
    match order {
        ByteOrder::Little => le_value(b),
        ByteOrder::Big => be_value(b),
    }
}

/// Byte `j` of `v`, counting from the least significant.
pub open spec fn byte_at(v: nat, j: nat) -> u8 {
    ((v / pow256(j)) % 256) as u8
}

/// The `n` bytes that encode `v` in `order`.
pub open spec fn bytes_of(order: ByteOrder, v: nat, n: nat) -> Seq<u8> {
    match order {
        ByteOrder::Little => Seq::new(n, |i: int| byte_at(v, i as nat)),
        ByteOrder::Big => Seq::new(n, |i: int| byte_at(v, (n - 1 - i) as nat)),
    }
}

/// Powers of 256 are positive.
pub proof fn lemma_pow256_positive(n: nat)
    ensures
        pow256(n) > 0,
    decreases n,
{
    if n > 0 {
        lemma_pow256_positive((n - 1) as nat);
    }
}

/// Byte `j + 1` of `v` is byte `j` of `v / 256`.
pub proof fn lemma_byte_at_shift(v: nat, j: nat)
    ensures
        byte_at(v, j + 1) == byte_at(v / 256, j),
{
    lemma_pow256_positive(j);
    lemma_div_denominator(v as int, 256, pow256(j) as int);
    assert(pow256(j + 1) == 256 * pow256(j));
    assert(256 * pow256(j) == pow256(j) * 256) by (nonlinear_arith);
}

proof fn lemma_le_value_bound(b: Seq<u8>)
    ensures
        le_value(b) < pow256(b.len()),
    decreases b.len(),
{
    if b.len() > 0 {
        lemma_le_value_bound(b.drop_first());
        let r = le_value(b.drop_first());
        let p = pow256(b.drop_first().len());
        assert((b[0] as nat) + 256 * r < 256 * p) by (nonlinear_arith)
            requires
                r < p,
                b[0] < 256,
        ;
    }
}

proof fn lemma_be_value_bound(b: Seq<u8>)
    ensures
        be_value(b) < pow256(b.len()),
    decreases b.len(),
{
    if b.len() > 0 {
        lemma_be_value_bound(b.drop_last());
        let r = be_value(b.drop_last());
        let p = pow256(b.drop_last().len());
        assert(r * 256 + (b.last() as nat) < 256 * p) by (nonlinear_arith)
            requires
                r < p,
                b.last() < 256,
        ;
    }
}

proof fn lemma_le_round_trip(v: nat, n: nat)
    requires
        v < pow256(n),
    ensures
        le_value(bytes_of(ByteOrder::Little, v, n)) == v,
    decreases n,
{
    let s = bytes_of(ByteOrder::Little, v, n);
    if n == 0 {
    } else {
        let t = bytes_of(ByteOrder::Little, v / 256, (n - 1) as nat);
        assert forall|i: int| 0 <= i < n - 1 implies s.drop_first()[i] == t[i] by {
            lemma_byte_at_shift(v, i as nat);
        }
        assert(s.drop_first() =~= t);
        assert(v / 256 < pow256((n - 1) as nat));
        lemma_le_round_trip(v / 256, (n - 1) as nat);
        assert(pow256(0) == 1);
        assert(s[0] == (v % 256) as u8);
    }
}

proof fn lemma_be_round_trip(v: nat, n: nat)
    requires
        v < pow256(n),
    ensures
        be_value(bytes_of(ByteOrder::Big, v, n)) == v,
    decreases n,
{
    let s = bytes_of(ByteOrder::Big, v, n);
    if n == 0 {
    } else {
        let t = bytes_of(ByteOrder::Big, v / 256, (n - 1) as nat);
        assert forall|i: int| 0 <= i < n - 1 implies s.drop_last()[i] == t[i] by {
            lemma_byte_at_shift(v, (n - 2 - i) as nat);
        }
        assert(s.drop_last() =~= t);
        assert(v / 256 < pow256((n - 1) as nat));
        lemma_be_round_trip(v / 256, (n - 1) as nat);
        assert(pow256(0) == 1);
        assert(s.last() == s[n - 1]);
        assert(s[n - 1] == byte_at(v, 0));
        assert(v / 1 == v);
    }
}

/// Reading back the bytes that encode `v` gives `v`, in either order.
pub proof fn lemma_round_trip(order: ByteOrder, v: nat, n: nat)
    requires
        v < pow256(n),
    ensures
        value_of(order, bytes_of(order, v, n)) == v,
        bytes_of(order, v, n).len() == n,
{
    lemma_le_round_trip(v, n);
    lemma_be_round_trip(v, n);
}


/// Powers of 256 grow with the exponent.
pub proof fn lemma_pow256_monotone(a: nat, b: nat)
    requires
        a <= b,
    ensures
        pow256(a) <= pow256(b),
    decreases b - a,
{
    if a < b {
        lemma_pow256_monotone(a, (b - 1) as nat);
        lemma_pow256_positive((b - 1) as nat);
    }
}

/// Eight bytes hold exactly the range of `u64`.
pub proof fn lemma_pow256_eight()
    ensures
        pow256(8) == 0x1_0000_0000_0000_0000,
{
    reveal_with_fuel(pow256, 9);
}

/// `s` with the bytes from `off` on replaced by `t`.
pub open spec fn splice(s: Seq<u8>, off: int, t: Seq<u8>) -> Seq<u8> {
    s.subrange(0, off) + t + s.subrange(off + t.len(), s.len() as int)
}

/// Whether step `k` of `encode` has already written byte `j` of an `n`-byte value.
spec fn written(order: ByteOrder, n: nat, k: nat, j: int) -> bool {
    match order {
        ByteOrder::Little => j < k,
        ByteOrder::Big => j >= n - k,
    }
}

/// Reads the `n` bytes at `off` as an unsigned number in `order`.
pub fn decode(order: ByteOrder, bytes: &[u8], off: usize, n: usize) -> (r: u64)
    requires
        off + n <= bytes@.len(),
        n <= 8,
    ensures
        r as nat == value_of(order, bytes@.subrange(off as int, off + n)),
{
    let len = bytes.len();
    let mut acc: u64 = 0;
    proof {
        lemma_pow256_eight();
    }
    match order {
        ByteOrder::Little => {
            let mut i: usize = n;
            while i > 0
                invariant
                    i <= n,
                    off + n <= bytes@.len(),
                    len == bytes@.len(),
                    n <= 8,
                    pow256(8) == 0x1_0000_0000_0000_0000,
                    acc as nat == le_value(bytes@.subrange(off + i, off + n)),
                decreases i,
            {
                let ghost prev = bytes@.subrange(off + i, off + n);
                let ghost cur = bytes@.subrange(off + i - 1, off + n);
                proof {
                    assert(cur.drop_first() =~= prev);
                    lemma_le_value_bound(cur);
                    lemma_pow256_monotone(cur.len(), 8);
                }
                acc = acc * 256 + bytes[off + i - 1] as u64;
                i = i - 1;
            }
            proof {
                assert(bytes@.subrange(off as int, off + n) =~= bytes@.subrange(off + i, off + n));
            }
        },
        ByteOrder::Big => {
            let mut i: usize = 0;
            while i < n
                invariant
                    i <= n,
                    off + n <= bytes@.len(),
                    len == bytes@.len(),
                    n <= 8,
                    pow256(8) == 0x1_0000_0000_0000_0000,
                    acc as nat == be_value(bytes@.subrange(off as int, off + i)),
                decreases n - i,
            {
                let ghost prev = bytes@.subrange(off as int, off + i);
                let ghost cur = bytes@.subrange(off as int, off + i + 1);
                proof {
                    assert(cur.drop_last() =~= prev);
                    lemma_be_value_bound(cur);
                    lemma_pow256_monotone(cur.len(), 8);
                }
                acc = acc * 256 + bytes[off + i] as u64;
                i = i + 1;
            }
        },
    }
    acc
}

/// Writes `v` into the `n` bytes at `off`, in `order`; nothing else changes.
pub fn encode(order: ByteOrder, bytes: &mut Vec<u8>, off: usize, n: usize, v: u64)
    requires
        off + n <= old(bytes)@.len(),
        n <= 8,
        (v as nat) < pow256(n as nat),
    ensures
        final(bytes)@ == splice(old(bytes)@, off as int, bytes_of(order, v as nat, n as nat)),
{
    let len = bytes.len();
    let ghost enc = bytes_of(order, v as nat, n as nat);
    let mut w: u64 = v;
    let mut k: usize = 0;
    assert(pow256(0) == 1);
    assert((v as nat) / 1 == v);
    while k < n
        invariant
            k <= n,
            off + n <= bytes@.len(),
            bytes@.len() == old(bytes)@.len(),
            len == bytes@.len(),
            enc == bytes_of(order, v as nat, n as nat),
            w as nat == (v as nat) / pow256(k as nat),
            forall|j: int|
                0 <= j < bytes@.len() && !(off <= j < off + n && written(order, n as nat, k as nat, j - off))
                    ==> bytes@[j] == old(bytes)@[j],
            forall|j: int|
                0 <= j < n && written(order, n as nat, k as nat, j) ==> bytes@[off + j] == enc[j],
        decreases n - k,
    {
        let idx: usize = match order {
            ByteOrder::Little => off + k,
            ByteOrder::Big => off + (n - 1 - k),
        };
        proof {
            lemma_pow256_positive(k as nat);
            lemma_div_denominator(v as int, pow256(k as nat) as int, 256);
            assert(pow256(k as nat) * 256 == pow256((k + 1) as nat));
        }
        bytes.set(idx, (w % 256) as u8);
        w = w / 256;
        k = k + 1;
    }
    proof {
        assert(bytes@ =~= splice(old(bytes)@, off as int, enc));
    }
}


/// Relies on `u16::from_ne_bytes`: the host reads two bytes as a number either
/// little-endian or big-endian.
#[verifier::external_body]
fn u16_from_ne_bytes(b: [u8; 2]) -> (r: u16)
    ensures
        r as nat == le_value(b@) || r as nat == be_value(b@),
{
    u16::from_ne_bytes(b)
}

/// The byte order of the host.
pub fn native_order() -> ByteOrder {
    if u16_from_ne_bytes([1u8, 0u8]) == 1 {
        ByteOrder::Little
    } else {
        ByteOrder::Big
    }
}

} // verus!
