use vstd::prelude::*;

use crate::layout::{leaf_offset, leaves_size, lemma_leaves_size_append, Layout, Lense};
use crate::prim::{bytes_of, decode, encode, lemma_round_trip, pow256, splice, value_of, ByteOrder, Prim};

verus! {

/// A source of byte ranges: each request carves the next `n` bytes off a span
/// and answers with the offset at which they start.
pub trait Dice: Sized {
    /// Bytes still available.
    spec fn remaining(&self) -> nat;

    /// The end of the span: no range handed out reaches past it.
    spec fn limit(&self) -> nat;

    /// Whether a request for `n` bytes can be served.
    spec fn can_dice(&self, n: nat) -> bool;

    /// Where the range that a request for `n` bytes gets starts.
    spec fn next_offset(&self, n: nat) -> nat;

    /// The state after a request for `n` bytes.
    spec fn after(&self, n: nat) -> Self;

    /// A request is served below the span's end, keeps that end, and leaves
    /// at least `n` bytes fewer.
    proof fn lemma_dice_within(&self, n: nat)
        requires
            self.can_dice(n),
        ensures
            self.next_offset(n) + n <= self.limit(),
            self.after(n).limit() == self.limit(),
            self.after(n).remaining() + n <= self.remaining(),
    ;

    /// Carves off the next `n` bytes and returns their offset.
    fn dice(&mut self, n: usize) -> (off: usize)
        requires
            old(self).can_dice(n as nat),
        ensures
            off as nat == old(self).next_offset(n as nat),
            *final(self) == old(self).after(n as nat),
    ;

    /// Bytes still available.
    fn size(&self) -> (r: usize)
        ensures
            r as nat == self.remaining(),
    ;
}

/// Whether `d` can serve one request per leaf, in order.
pub open spec fn can_slice<D: Dice>(d: D, leaves: Seq<Prim>) -> bool
    decreases leaves.len(),
{
    leaves.len() == 0 || (d.can_dice(leaves[0].spec_size()) && can_slice(
        d.after(leaves[0].spec_size()),
        leaves.drop_first(),
    ))
}

/// The offsets that `d` hands out for one request per leaf, in order.
pub open spec fn offsets_from<D: Dice>(d: D, leaves: Seq<Prim>) -> Seq<nat>
    decreases leaves.len(),
{
    if leaves.len() == 0 {
        Seq::empty()
    } else {
        seq![d.next_offset(leaves[0].spec_size())] + offsets_from(
            d.after(leaves[0].spec_size()),
            leaves.drop_first(),
        )
    }
}

/// The state of `d` after one request per leaf.
pub open spec fn state_after<D: Dice>(d: D, leaves: Seq<Prim>) -> D
    decreases leaves.len(),
{
    if leaves.len() == 0 {
        d
    } else {
        state_after(d.after(leaves[0].spec_size()), leaves.drop_first())
    }
}

/// Every range handed out while slicing stays below the span's end.
pub proof fn lemma_slice_within<D: Dice>(d: D, leaves: Seq<Prim>)
    requires
        can_slice(d, leaves),
    ensures
        offsets_from(d, leaves).len() == leaves.len(),
        forall|i: int|
            0 <= i < leaves.len() ==> #[trigger] offsets_from(d, leaves)[i] + leaves[i].spec_size()
                <= d.limit(),
        state_after(d, leaves).limit() == d.limit(),
    decreases leaves.len(),
{
    if leaves.len() > 0 {
        let w = leaves[0].spec_size();
        d.lemma_dice_within(w);
        lemma_slice_within(d.after(w), leaves.drop_first());
        assert forall|i: int|
            0 <= i < leaves.len() implies #[trigger] offsets_from(d, leaves)[i] + leaves[i].spec_size()
                <= d.limit() by {
            if i > 0 {
                assert(offsets_from(d, leaves)[i] == offsets_from(d.after(w), leaves.drop_first())[i - 1]);
                assert(leaves[i] == leaves.drop_first()[i - 1]);
            }
        }
    }
}

/// A cursor over the bytes `[pos, end)` of an arena that the caller owns.
#[derive(Debug)]
pub struct Cursor {
    pos: usize,
    end: usize,
}

impl Cursor {
    /// Start of what remains.
    pub closed spec fn pos(&self) -> nat {
        self.pos as nat
    }

    /// End of the span.
    pub closed spec fn end(&self) -> nat {
        self.end as nat
    }

    /// A cursor over all of `bytes`.
    pub fn over(bytes: &[u8]) -> (r: Cursor)
        ensures
            r.pos() == 0,
            r.end() == bytes@.len(),
    {
        Cursor { pos: 0, end: bytes.len() }
    }

    /// A cursor over the bytes `[start, end)`.
    pub fn range(start: usize, end: usize) -> (r: Cursor)
        requires
            start <= end,
        ensures
            r.pos() == start,
            r.end() == end,
    {
        Cursor { pos: start, end }
    }
}

impl Dice for Cursor {
    closed spec fn remaining(&self) -> nat {
        if self.pos <= self.end {
            (self.end - self.pos) as nat
        } else {
            0
        }
    }

    closed spec fn limit(&self) -> nat {
        self.end as nat
    }

    closed spec fn can_dice(&self, n: nat) -> bool {
        self.pos + n <= self.end
    }

    closed spec fn next_offset(&self, n: nat) -> nat {
        self.pos as nat
    }

    closed spec fn after(&self, n: nat) -> Cursor {
        Cursor { pos: (self.pos + n) as usize, end: self.end }
    }

    proof fn lemma_dice_within(&self, n: nat) {
    }

    fn dice(&mut self, n: usize) -> (off: usize) {
        let off = self.pos;
        self.pos = self.pos + n;
        off
    }

    fn size(&self) -> (r: usize) {
        if self.pos <= self.end {
            self.end - self.pos
        } else {
            0
        }
    }
}

/// What a cursor knows of itself, in terms of its start and end.
pub proof fn lemma_cursor_facts(c: Cursor, n: nat)
    ensures
        c.remaining() == if c.pos() <= c.end() { (c.end() - c.pos()) as nat } else { 0 },
        c.limit() == c.end(),
        c.can_dice(n) <==> c.pos() + n <= c.end(),
        c.next_offset(n) == c.pos(),
        c.can_dice(n) ==> c.after(n).pos() == c.pos() + n && c.after(n).end() == c.end(),
{
}

/// A plain cursor lays the leaves out back to back from where it stands.
pub proof fn lemma_cursor_slice(c: Cursor, leaves: Seq<Prim>)
    requires
        c.pos() <= c.end(),
    ensures
        can_slice(c, leaves) <==> c.pos() + leaves_size(leaves) <= c.end(),
        can_slice(c, leaves) ==> {
            &&& offsets_from(c, leaves).len() == leaves.len()
            &&& forall|i: int|
                0 <= i < leaves.len() ==> #[trigger] offsets_from(c, leaves)[i] == c.pos() + leaf_offset(
                    leaves,
                    i,
                )
            &&& state_after(c, leaves).pos() == c.pos() + leaves_size(leaves)
            &&& state_after(c, leaves).end() == c.end()
        },
    decreases leaves.len(),
{
    if leaves.len() == 0 {
        assert(leaves_size(leaves) == 0);
    } else {
        let w = leaves[0].spec_size();
        let rest = leaves.drop_first();
        assert(leaves =~= seq![leaves[0]] + rest);
        lemma_leaves_size_append(seq![leaves[0]], rest);
        assert(seq![leaves[0]].drop_last() =~= Seq::<Prim>::empty());
        assert(leaves_size(Seq::<Prim>::empty()) == 0);
        assert(leaves_size(seq![leaves[0]]) == w);
        if c.pos() + w <= c.end() {
            let c2 = c.after(w);
            assert(c2.pos() == c.pos() + w);
            assert(c2.end() == c.end());
            lemma_cursor_slice(c2, rest);
            assert(can_slice(c, leaves) == can_slice(c2, rest));
            if can_slice(c, leaves) {
                assert forall|i: int|
                    0 <= i < leaves.len() implies #[trigger] offsets_from(c, leaves)[i] == c.pos()
                        + leaf_offset(leaves, i) by {
                    if i == 0 {
                        assert(leaves.take(0) =~= Seq::<Prim>::empty());
                    } else {
                        assert(offsets_from(c, leaves)[i] == offsets_from(c2, rest)[i - 1]);
                        assert(leaves.take(i) =~= seq![leaves[0]] + rest.take(i - 1));
                        lemma_leaves_size_append(seq![leaves[0]], rest.take(i - 1));
                    }
                }
            }
        } else {
            assert(!c.can_dice(w));
            assert(leaves_size(leaves) == w + leaves_size(rest));
        }
    }
}

/// A lens on a decoded record: the offset in the arena of each of its primitive leaves,
/// in declaration order.  It copies nothing; values are read and written
/// through it.
#[derive(Clone, Debug)]
pub struct Lens {
    kinds: Vec<Prim>,
    offsets: Vec<usize>,
}

impl Lens {
    /// The kind of each leaf.
    pub closed spec fn kinds(&self) -> Seq<Prim> {
        self.kinds@
    }

    /// The offset of each leaf in the arena.
    pub closed spec fn offsets(&self) -> Seq<usize> {
        self.offsets@
    }

    /// Every leaf lies within an arena of `len` bytes.
    pub open spec fn fits(&self, len: nat) -> bool {
        &&& self.kinds().len() == self.offsets().len()
        &&& forall|i: int|
            0 <= i < self.kinds().len() ==> #[trigger] self.offsets()[i] + self.kinds()[i].spec_size()
                <= len
    }

    /// The bytes of leaf `i` in `arena`.
    pub open spec fn leaf_bytes(&self, arena: Seq<u8>, i: int) -> Seq<u8> {
        arena.subrange(self.offsets()[i] as int, self.offsets()[i] + self.kinds()[i].spec_size())
    }

    /// Number of leaves.
    pub fn len(&self) -> (r: usize)
        ensures
            r == self.kinds().len(),
    {
        self.kinds.len()
    }

    /// The offset of leaf `i` in the arena.
    pub fn offset(&self, i: usize) -> (r: usize)
        requires
            i < self.offsets().len(),
        ensures
            r == self.offsets()[i as int],
    {
        self.offsets[i]
    }

    /// The lens on the `count` leaves from leaf `start` on: one field of a
    /// nested record.
    pub fn part(&self, start: usize, count: usize) -> (r: Lens)
        requires
            self.kinds().len() == self.offsets().len(),
            start + count <= self.kinds().len(),
        ensures
            r.kinds() == self.kinds().subrange(start as int, start + count),
            r.offsets() == self.offsets().subrange(start as int, start + count),
            forall|len: nat| self.fits(len) ==> r.fits(len),
    {
        let n = self.kinds.len();
        let mut kinds: Vec<Prim> = Vec::new();
        let mut offsets: Vec<usize> = Vec::new();
        let mut i: usize = 0;
        while i < count
            invariant
                i <= count,
                n == self.kinds@.len(),
                start + count <= self.kinds@.len(),
                self.kinds@.len() == self.offsets@.len(),
                kinds@ == self.kinds@.subrange(start as int, start + i),
                offsets@ == self.offsets@.subrange(start as int, start + i),
            decreases count - i,
        {
            kinds.push(self.kinds[start + i]);
            offsets.push(self.offsets[start + i]);
            i = i + 1;
            proof {
                assert(kinds@ =~= self.kinds@.subrange(start as int, start + i));
                assert(offsets@ =~= self.offsets@.subrange(start as int, start + i));
            }
        }
        let r = Lens { kinds, offsets };
        proof {
            assert forall|len: nat| self.fits(len) implies r.fits(len) by {
                assert forall|j: int|
                    0 <= j < r.kinds().len() implies #[trigger] r.offsets()[j] + r.kinds()[j].spec_size() <= len by {
                    assert(self.offsets()[start + j] + self.kinds()[start + j].spec_size() <= len);
                }
            }
        }
        r
    }

    /// The value of leaf `i` in `arena`, read in `order`, as its bit pattern.
    pub fn get(&self, arena: &[u8], order: ByteOrder, i: usize) -> (r: u64)
        requires
            self.fits(arena@.len()),
            i < self.kinds().len(),
        ensures
            r as nat == value_of(order, self.leaf_bytes(arena@, i as int)),
    {
        decode(order, arena, self.offsets[i], self.kinds[i].size())
    }

    /// Writes `v` into leaf `i` of `arena`, in `order`; no other byte changes.
    pub fn set(&self, arena: &mut Vec<u8>, order: ByteOrder, i: usize, v: u64)
        requires
            self.fits(old(arena)@.len()),
            i < self.kinds().len(),
            (v as nat) < pow256(self.kinds()[i as int].spec_size()),
        ensures
            final(arena)@ == splice(
                old(arena)@,
                self.offsets()[i as int] as int,
                bytes_of(order, v as nat, self.kinds()[i as int].spec_size()),
            ),
    {
        encode(order, arena, self.offsets[i], self.kinds[i].size(), v)
    }
}

/// The leaves of `lens` lie in order, none overlapping the next.
pub open spec fn ordered_leaves(lens: Lens) -> bool {
    forall|i: int, j: int|
        #![trigger lens.offsets()[i], lens.offsets()[j]]
        0 <= i < j < lens.kinds().len() ==> lens.offsets()[i] + lens.kinds()[i].spec_size()
            <= lens.offsets()[j]
}

/// `arena` after `vs[k]` is written into leaf `k` of `lens`, for each `k < n`
/// in turn.
pub open spec fn write_leaves(arena: Seq<u8>, lens: Lens, order: ByteOrder, vs: Seq<nat>, n: nat) -> Seq<u8>
    decreases n,
{
    if n == 0 {
        arena
    } else {
        let k = n - 1;
        splice(
            write_leaves(arena, lens, order, vs, k as nat),
            lens.offsets()[k] as int,
            bytes_of(order, vs[k], lens.kinds()[k].spec_size()),
        )
    }
}

/// Leaves laid out from `base` by a layout's own offsets lie in order, none
/// overlapping the next.
pub proof fn lemma_layout_leaves_ordered(lens: Lens, base: nat)
    requires
        lens.offsets().len() == lens.kinds().len(),
        forall|i: int|
            0 <= i < lens.kinds().len() ==> #[trigger] lens.offsets()[i] == base + leaf_offset(lens.kinds(), i),
    ensures
        ordered_leaves(lens),
{
    let s = lens.kinds();
    assert forall|i: int, j: int|
        #![trigger lens.offsets()[i], lens.offsets()[j]]
        0 <= i < j < s.len() implies lens.offsets()[i] + s[i].spec_size() <= lens.offsets()[j] by {
        assert(s.take(i + 1).drop_last() =~= s.take(i));
        lemma_prefix_size_monotone(s, i + 1, j);
    }
}

/// A longer prefix of leaves is never narrower.
pub proof fn lemma_prefix_size_monotone(s: Seq<Prim>, a: int, b: int)
    requires
        0 <= a <= b <= s.len(),
    ensures
        leaves_size(s.take(a)) <= leaves_size(s.take(b)),
    decreases b - a,
{
    if a < b {
        lemma_prefix_size_monotone(s, a, b - 1);
        assert(s.take(b).drop_last() =~= s.take(b - 1));
    }
}

/// Writing a value into every leaf of a record, one after another, and then
/// reading each leaf back gives the values written, whatever the layout.
pub proof fn lemma_record_round_trip(lens: Lens, arena: Seq<u8>, order: ByteOrder, vs: Seq<nat>)
    requires
        lens.fits(arena.len()),
        ordered_leaves(lens),
        vs.len() == lens.kinds().len(),
        forall|k: int| 0 <= k < vs.len() ==> #[trigger] vs[k] < pow256(lens.kinds()[k].spec_size()),
    ensures
        write_leaves(arena, lens, order, vs, vs.len()).len() == arena.len(),
        forall|k: int|
            0 <= k < vs.len() ==> value_of(
                order,
                #[trigger] lens.leaf_bytes(write_leaves(arena, lens, order, vs, vs.len()), k),
            ) == vs[k],
{
    lemma_written_prefix(lens, arena, order, vs, vs.len());
    assert forall|k: int|
        0 <= k < vs.len() implies value_of(
            order,
            #[trigger] lens.leaf_bytes(write_leaves(arena, lens, order, vs, vs.len()), k),
        ) == vs[k] by {
        lemma_round_trip(order, vs[k], lens.kinds()[k].spec_size());
    }
}

proof fn lemma_written_prefix(lens: Lens, arena: Seq<u8>, order: ByteOrder, vs: Seq<nat>, n: nat)
    requires
        lens.fits(arena.len()),
        ordered_leaves(lens),
        vs.len() == lens.kinds().len(),
        n <= vs.len(),
    ensures
        write_leaves(arena, lens, order, vs, n).len() == arena.len(),
        forall|k: int|
            0 <= k < n ==> #[trigger] lens.leaf_bytes(write_leaves(arena, lens, order, vs, n), k)
                == bytes_of(order, vs[k], lens.kinds()[k].spec_size()),
    decreases n,
{
    if n > 0 {
        let m = (n - 1) as nat;
        lemma_written_prefix(lens, arena, order, vs, m);
        let prev = write_leaves(arena, lens, order, vs, m);
        let off = lens.offsets()[m as int] as int;
        let w = lens.kinds()[m as int].spec_size();
        let enc = bytes_of(order, vs[m as int], w);
        let next = write_leaves(arena, lens, order, vs, n);
        assert(enc.len() == w);
        assert(off + w <= arena.len());
        assert(next == splice(prev, off, enc));
        assert(next.len() == arena.len());
        assert forall|k: int| 0 <= k < n implies #[trigger] lens.leaf_bytes(next, k) == bytes_of(
            order,
            vs[k],
            lens.kinds()[k].spec_size(),
        ) by {
            if k == m {
                assert(lens.leaf_bytes(next, k) =~= enc);
            } else {
                assert(lens.offsets()[k] + lens.kinds()[k].spec_size() <= lens.offsets()[m as int]);
                assert(lens.offsets()[k] + lens.kinds()[k].spec_size() <= arena.len());
                assert(lens.leaf_bytes(next, k) =~= lens.leaf_bytes(prev, k));
            }
        }
    }
}

/// A record description that can be carved off a `Dice`: one request per
/// primitive leaf, in declaration order.
pub trait SliceRef: Lense {
    /// The primitive leaves, in declaration order.
    spec fn leaf_seq(&self) -> Seq<Prim>;

    /// Carves one record off `d` and returns the lens on it.
    fn slice<D: Dice>(&self, d: &mut D) -> (r: Lens)
        requires
            self.valid(),
            can_slice(*old(d), self.leaf_seq()),
        ensures
            r.kinds() == self.leaf_seq(),
            r.offsets().len() == self.leaf_seq().len(),
            forall|i: int|
                0 <= i < r.offsets().len() ==> #[trigger] r.offsets()[i] as nat == offsets_from(
                    *old(d),
                    self.leaf_seq(),
                )[i],
            *final(d) == state_after(*old(d), self.leaf_seq()),
            r.fits(old(d).limit()),
    ;
}

impl SliceRef for Layout {
    open spec fn leaf_seq(&self) -> Seq<Prim> {
        self.leaves()
    }

    fn slice<D: Dice>(&self, d: &mut D) -> (r: Lens) {
        slice_leaves(self.leaf_kinds(), d)
    }
}

impl SliceRef for Prim {
    open spec fn leaf_seq(&self) -> Seq<Prim> {
        seq![*self]
    }

    fn slice<D: Dice>(&self, d: &mut D) -> (r: Lens) {
        let leaves = vec![*self];
        proof {
            assert(leaves@ =~= seq![*self]);
        }
        slice_leaves(&leaves, d)
    }
}

/// Carves one record with the primitive leaves `leaves` off `d`.
fn slice_leaves<D: Dice>(leaves: &Vec<Prim>, d: &mut D) -> (r: Lens)
    requires
        can_slice(*old(d), leaves@),
    ensures
        r.kinds() == leaves@,
        r.offsets().len() == leaves@.len(),
        forall|i: int|
            0 <= i < r.offsets().len() ==> #[trigger] r.offsets()[i] as nat == offsets_from(
                *old(d),
                leaves@,
            )[i],
        *final(d) == state_after(*old(d), leaves@),
        r.fits(old(d).limit()),
{
    let ghost d0 = *d;
    let ghost all = leaves@;
    proof {
        lemma_slice_within(d0, all);
    }
    let mut kinds: Vec<Prim> = Vec::new();
    let mut offsets: Vec<usize> = Vec::new();
    let mut i: usize = 0;
    proof {
        assert(all.skip(0) =~= all);
        assert(offsets@.map_values(|o: usize| o as nat) + offsets_from(d0, all) =~= offsets_from(d0, all));
    }
    while i < leaves.len()
        invariant
            i <= all.len(),
            all == leaves@,
            can_slice(*d, all.skip(i as int)),
            offsets_from(d0, all) == offsets@.map_values(|o: usize| o as nat) + offsets_from(
                *d,
                all.skip(i as int),
            ),
            state_after(d0, all) == state_after(*d, all.skip(i as int)),
            kinds@ == all.take(i as int),
        decreases all.len() - i,
    {
        let k = leaves[i];
        let w = k.size();
        proof {
            assert(all.skip(i as int)[0] == k);
            assert(all.skip(i as int).drop_first() =~= all.skip(i + 1));
        }
        let off = d.dice(w);
        offsets.push(off);
        kinds.push(k);
        proof {
            assert(all.take(i + 1) =~= all.take(i as int).push(k));
        }
        i = i + 1;
    }
    proof {
        assert(all.take(i as int) =~= all);
        assert(all.skip(i as int) =~= Seq::<Prim>::empty());
        assert(offsets_from(d0, all) =~= offsets@.map_values(|o: usize| o as nat));
    }
    let r = Lens { kinds, offsets };
    proof {
        assert forall|j: int|
            0 <= j < r.kinds().len() implies #[trigger] r.offsets()[j] + r.kinds()[j].spec_size()
                <= d0.limit() by {
            assert(r.offsets()[j] as nat == offsets_from(d0, all)[j]);
        }
    }
    r
}

} // verus!
