use vstd::prelude::*;

use crate::cursor::{can_slice, lemma_cursor_facts, offsets_from, state_after, Cursor, Dice};
use crate::prim::Prim;

verus! {

/// Bytes to skip so that `consumed` becomes a multiple of `n`.
pub open spec fn padding(consumed: nat, n: nat) -> nat {
    if n == 0 || consumed % n == 0 {
        0
    } else {
        (n - consumed % n) as nat
    }
}

/// `d` after skipping `p` padding bytes.
pub open spec fn skip_state<D: Dice>(d: D, p: nat) -> D {
    if p > 0 {
        d.after(p)
    } else {
        d
    }
}

/// A cursor that keeps each request of `n` bytes at a multiple of `n` from
/// where it started, by skipping padding bytes first.
///
/// Under strict alignment a request that would need padding is not allowed:
/// the record's fields must then be ordered so that none is needed.
pub struct Aligned<D> {
    state: D,
    len: usize,
    strict: bool,
}

impl<D: Dice> Aligned<D> {
    /// The wrapped cursor.
    pub closed spec fn inner(&self) -> D {
        self.state
    }

    /// Bytes consumed so far, padding included.
    pub closed spec fn consumed(&self) -> nat {
        self.len as nat
    }

    /// Whether padding is refused.
    pub closed spec fn is_strict(&self) -> bool {
        self.strict
    }

    /// Wraps `d`; requests that need padding skip it.
    pub fn new(d: D) -> (r: Aligned<D>)
        ensures
            r.inner() == d,
            r.consumed() == 0,
            !r.is_strict(),
    {
        Aligned { state: d, len: 0, strict: false }
    }

    /// Wraps `d`; requests that would need padding are not allowed.
    pub fn new_strict(d: D) -> (r: Aligned<D>)
        ensures
            r.inner() == d,
            r.consumed() == 0,
            r.is_strict(),
    {
        Aligned { state: d, len: 0, strict: true }
    }

    /// Bytes consumed so far, padding included.
    pub fn consumed_bytes(&self) -> (r: usize)
        ensures
            r == self.consumed(),
    {
        self.len
    }

    /// The wrapped cursor.
    pub fn into_inner(self) -> (r: D)
        ensures
            r == self.inner(),
    {
        self.state
    }

    /// Skips the padding that a request for `size` bytes needs.
    fn align_to(&mut self, size: usize)
        requires
            size > 0,
            old(self).len + padding(old(self).len as nat, size as nat) <= usize::MAX,
            old(self).strict ==> padding(old(self).len as nat, size as nat) == 0,
            padding(old(self).len as nat, size as nat) > 0 ==> old(self).state.can_dice(
                padding(old(self).len as nat, size as nat),
            ),
        ensures
            final(self).state == skip_state(old(self).state, padding(old(self).len as nat, size as nat)),
            final(self).len == old(self).len + padding(old(self).len as nat, size as nat),
            final(self).strict == old(self).strict,
    {
        let offset = self.len % size;
        if offset > 0 {
            let pad = size - offset;
            self.state.dice(pad);
            self.len = self.len + pad;
        }
    }
}

impl<D: Dice> Dice for Aligned<D> {
    closed spec fn remaining(&self) -> nat {
        self.state.remaining()
    }

    closed spec fn limit(&self) -> nat {
        self.state.limit()
    }

    closed spec fn can_dice(&self, n: nat) -> bool {
        let p = padding(self.len as nat, n);
        &&& n > 0
        &&& self.len + p + n <= usize::MAX
        &&& self.strict ==> p == 0
        &&& p > 0 ==> self.state.can_dice(p)
        &&& skip_state(self.state, p).can_dice(n)
    }

    closed spec fn next_offset(&self, n: nat) -> nat {
        skip_state(self.state, padding(self.len as nat, n)).next_offset(n)
    }

    closed spec fn after(&self, n: nat) -> Aligned<D> {
        let p = padding(self.len as nat, n);
        Aligned { state: skip_state(self.state, p).after(n), len: (self.len + p + n) as usize, strict: self.strict }
    }

    proof fn lemma_dice_within(&self, n: nat) {
        let p = padding(self.len as nat, n);
        if p > 0 {
            self.state.lemma_dice_within(p);
        }
        skip_state(self.state, p).lemma_dice_within(n);
    }

    fn dice(&mut self, n: usize) -> (off: usize) {
        self.align_to(n);
        let off = self.state.dice(n);
        self.len = self.len + n;
        off
    }

    fn size(&self) -> (r: usize) {
        self.state.size()
    }
}

/// What an aligned cursor does with a request for `n` bytes: it skips
/// `padding(consumed, n)` bytes of the wrapped cursor, then serves the request
/// from there, so that the request starts at a multiple of `n` from where the
/// cursor started.  Under strict alignment it serves only requests that need no
/// padding.
pub proof fn lemma_aligned_facts<D: Dice>(a: Aligned<D>, n: nat)
    ensures
        a.limit() == a.inner().limit(),
        a.remaining() == a.inner().remaining(),
        a.can_dice(n) <==> {
            let p = padding(a.consumed(), n);
            &&& n > 0
            &&& a.consumed() + p + n <= usize::MAX
            &&& a.is_strict() ==> p == 0
            &&& p > 0 ==> a.inner().can_dice(p)
            &&& skip_state(a.inner(), p).can_dice(n)
        },
        a.next_offset(n) == skip_state(a.inner(), padding(a.consumed(), n)).next_offset(n),
        a.can_dice(n) ==> {
            let p = padding(a.consumed(), n);
            &&& (a.consumed() + p) % n == 0
            &&& a.after(n).consumed() == a.consumed() + p + n
            &&& a.after(n).inner() == skip_state(a.inner(), p).after(n)
            &&& a.after(n).is_strict() == a.is_strict()
        },
{
    if a.can_dice(n) {
        let c = a.consumed();
        let p = padding(c, n);
        if c % n != 0 {
            vstd::arithmetic::div_mod::lemma_fundamental_div_mod(c as int, n as int);
            let q = (c / n) as int;
            let r = (c % n) as int;
            assert(c + p == (q + 1) * n) by (nonlinear_arith)
                requires
                    c == n * q + r,
                    p == n - r,
            ;
            vstd::arithmetic::div_mod::lemma_mod_multiples_basic(q + 1, n as int);
        }
    }
}

/// An aligned cursor over a plain one, for any request of `n` bytes: it skips
/// `padding(consumed, n)` bytes, so that the request starts at a multiple of
/// `n` from where the cursor started, then takes `n` bytes.  It can serve the
/// request exactly when both fit before the end and, under strict alignment,
/// no padding is needed.  Under strict alignment a request that would need
/// padding is never served.
pub proof fn lemma_aligned_cursor(a: Aligned<Cursor>, n: nat)
    requires
        a.inner().pos() <= a.inner().end(),
    ensures
        a.can_dice(n) <==> {
            let p = padding(a.consumed(), n);
            &&& n > 0
            &&& a.consumed() + p + n <= usize::MAX
            &&& a.is_strict() ==> p == 0
            &&& a.inner().pos() + p + n <= a.inner().end()
        },
        a.can_dice(n) ==> {
            let p = padding(a.consumed(), n);
            &&& a.next_offset(n) == a.inner().pos() + p
            &&& (a.consumed() + p) % n == 0
            &&& a.after(n).consumed() == a.consumed() + p + n
            &&& a.after(n).inner().pos() == a.inner().pos() + p + n
            &&& a.after(n).inner().end() == a.inner().end()
            &&& a.after(n).remaining() + p + n == a.remaining()
            &&& a.after(n).is_strict() == a.is_strict()
        },
        a.is_strict() && n > 0 && a.consumed() % n != 0 ==> !a.can_dice(n),
{
    let c = a.inner();
    let p = padding(a.consumed(), n);
    lemma_aligned_facts(a, n);
    lemma_cursor_facts(c, p);
    if p > 0 {
        if c.can_dice(p) {
            lemma_cursor_facts(c.after(p), n);
            lemma_cursor_facts(c.after(p).after(n), 0);
        }
    } else {
        lemma_cursor_facts(c, n);
        if c.can_dice(n) {
            lemma_cursor_facts(c.after(n), 0);
        }
    }
    if a.can_dice(n) {
        lemma_aligned_facts(a.after(n), 0);
    }
    lemma_cursor_facts(c, 0);
}

/// Fields of widths 1 and 2, read from the start by an aligned cursor over a
/// plain one.  By default one padding byte goes between them: the second field
/// starts two bytes in, and four bytes are consumed in all.  Under strict
/// alignment the second field cannot be read at all.
pub proof fn lemma_padding_between(a: Aligned<Cursor>, x: Prim, y: Prim)
    requires
        a.consumed() == 0,
        x.spec_size() == 1,
        y.spec_size() == 2,
    ensures
        !a.is_strict() && a.inner().pos() + 4 <= a.inner().end() ==> {
            &&& can_slice(a, seq![x, y])
            &&& offsets_from(a, seq![x, y]) == seq![a.inner().pos(), a.inner().pos() + 2]
            &&& state_after(a, seq![x, y]).consumed() == 4
            &&& state_after(a, seq![x, y]).inner().pos() == a.inner().pos() + 4
        },
        a.is_strict() ==> !can_slice(a, seq![x, y]),
{
    let leaves = seq![x, y];
    let c = a.inner();
    lemma_aligned_facts(a, 1);
    lemma_cursor_facts(c, 1);
    assert(padding(0, 1) == 0);
    assert(leaves.drop_first() =~= seq![y]);
    assert(seq![y].drop_first() =~= Seq::<Prim>::empty());
    if a.can_dice(1) {
        let a1 = a.after(1);
        let c1 = c.after(1);
        assert(a1.inner() == c1);
        assert(a1.consumed() == 1);
        assert(padding(1, 2) == 1);
        lemma_aligned_facts(a1, 2);
        lemma_cursor_facts(c1, 1);
        let c2 = c1.after(1);
        lemma_cursor_facts(c2, 2);
        if a.is_strict() {
            assert(a1.is_strict());
            assert(!a1.can_dice(2));
            assert(seq![y][0] == y);
            assert(!can_slice(a1, seq![y]));
            assert(leaves[0] == x);
        }
        if !a.is_strict() && c.pos() + 4 <= c.end() {
            assert(c.can_dice(1));
            assert(c1.pos() == c.pos() + 1);
            assert(skip_state(c1, 1) == c2);
            assert(c2.pos() == c.pos() + 2);
            assert(a1.next_offset(2) == c.pos() + 2);
            assert(a1.can_dice(2));
            let a2 = a1.after(2);
            assert(seq![y][0] == y);
            assert(leaves[0] == x);
            let e = Seq::<Prim>::empty();
            assert(can_slice(a2, e));
            assert(offsets_from(a2, e) == Seq::<nat>::empty());
            assert(state_after(a2, e) == a2);
            assert(can_slice(a1, seq![y]));
            assert(state_after(a1, seq![y]) == a2);
            assert(offsets_from(a1, seq![y]) =~= seq![c.pos() + 2]);
            assert(offsets_from(a, leaves) =~= seq![c.pos(), c.pos() + 2]);
            lemma_cursor_facts(c2, 2);
            assert(a2.inner() == c2.after(2));
        }
    }
}

} // verus!
