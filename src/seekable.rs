use vstd::prelude::*;

use crate::cursor::{
    lemma_cursor_facts, lemma_cursor_slice, lemma_prefix_size_monotone, offsets_from, Cursor, Lens, SliceRef,
};
use crate::layout::{leaf_offset, Layout, Lense};
use crate::pool::{ceil_div, copy_prefix, div_up, zeroed};
use crate::prim::{bytes_of, native_order, pow256, splice, value_of, ByteOrder};

verus! {

/// A record handed out by a `SeekablePool`: the slot it stands in and a lens
/// on the slot's bytes.  While it is live its slot stays locked; hand it back
/// with `release` to unlock the slot.
pub struct Guard {
    slot: usize,
    lens: Lens,
    writable: bool,
    pool: Ghost<int>,
}

impl Guard {
    /// The slot this guard locks.
    pub closed spec fn slot(&self) -> nat {
        self.slot as nat
    }

    /// The lens on the slot's bytes.
    pub closed spec fn lens(&self) -> Lens {
        self.lens
    }

    /// Whether values may be written through this guard.
    pub closed spec fn is_writable(&self) -> bool {
        self.writable
    }

    /// The identity of the pool that handed this guard out.
    pub closed spec fn pool_id(&self) -> int {
        self.pool@
    }

    /// The slot this guard locks.
    pub fn slot_index(&self) -> (r: usize)
        ensures
            r == self.slot(),
    {
        self.slot
    }

    /// The lens on the slot's bytes.
    pub fn view(&self) -> (r: &Lens)
        ensures
            *r == self.lens(),
    {
        &self.lens
    }

    /// Whether values may be written through this guard.
    pub fn writable(&self) -> (r: bool)
        ensures
            r == self.is_writable(),
    {
        self.writable
    }
}

/// The lock table after `pos` is acquired.
pub open spec fn acquired(locks: Seq<bool>, pos: int) -> Seq<bool> {
    locks.update(pos, true)
}

/// The lock table after `pos` is released.
pub open spec fn released(locks: Seq<bool>, pos: int) -> Seq<bool> {
    locks.update(pos, false)
}

/// A fixed arena of `capacity` record slots with one lock per slot, for
/// random access: a slot can be had through at most one live guard at a time.
pub struct SeekablePool {
    layout: Layout,
    bytes: Vec<u8>,
    locks: Vec<bool>,
    order: ByteOrder,
    id: Ghost<int>,
}

impl SeekablePool {
    /// The layout of each record.
    pub closed spec fn layout(&self) -> Layout {
        self.layout
    }

    /// The whole arena.
    pub closed spec fn arena(&self) -> Seq<u8> {
        self.bytes@
    }

    /// The identity that ties guards to this pool.  Nothing is promised of
    /// it but that the pool's own guards carry it, so a caller can hand a pool
    /// back only the guards that the pool handed out.
    pub closed spec fn id(&self) -> int {
        self.id@
    }

    /// One flag per slot: set while a guard holds the slot.
    pub closed spec fn locks(&self) -> Seq<bool> {
        self.locks@
    }

    /// Number of slots.
    pub open spec fn capacity(&self) -> nat {
        self.locks().len()
    }

    /// The byte order in which values are read and written.
    pub closed spec fn order(&self) -> ByteOrder {
        self.order
    }

    /// Where slot `pos` starts in the arena.
    pub open spec fn slot_start(&self, pos: nat) -> nat {
        pos * self.layout().spec_size()
    }

    /// The invariant that every operation keeps.
    pub closed spec fn wf(&self) -> bool {
        &&& self.layout.wf()
        &&& self.locks@.len() * self.layout.spec_size() + 8 <= usize::MAX
        &&& self.bytes@.len() == ceil_div(self.locks@.len() * self.layout.spec_size(), 8) * 8
        &&& self.bytes@.len() >= self.locks@.len() * self.layout.spec_size()
    }

    /// Room for `n` records of `layout`, all slots free and every byte zero.
    pub fn with_capacity(layout: Layout, n: usize) -> (r: SeekablePool)
        requires
            layout.wf(),
            n * layout.spec_size() + 8 <= usize::MAX,
        ensures
            r.wf(),
            r.layout() == layout,
            r.locks() == Seq::new(n as nat, |i: int| false),
            r.arena() == Seq::new(ceil_div((n * layout.spec_size()) as nat, 8) * 8, |i: int| 0u8),
    {
        let len = n * layout.size();
        let words = div_up(len, 8);
        let bytes = zeroed(words * 8);
        let mut locks: Vec<bool> = Vec::new();
        let mut i: usize = 0;
        while i < n
            invariant
                i <= n,
                locks@ == Seq::new(i as nat, |j: int| false),
            decreases n - i,
        {
            locks.push(false);
            i = i + 1;
            assert(locks@ =~= Seq::new(i as nat, |j: int| false));
        }
        SeekablePool { layout, bytes, locks, order: native_order(), id: Ghost(0) }
    }

    /// Number of slots.
    pub fn capacity_slots(&self) -> (r: usize)
        ensures
            r == self.capacity(),
    {
        self.locks.len()
    }

    /// The layout of each record.
    pub fn record_layout(&self) -> (r: &Layout)
        ensures
            *r == self.layout(),
    {
        &self.layout
    }

    /// The byte order in which values are read and written.
    pub fn byte_order(&self) -> (r: ByteOrder)
        ensures
            r == self.order(),
    {
        self.order
    }

    /// The records' bytes, back to back: `capacity * size` of them.  Slot
    /// `pos` is the bytes from `slot_start(pos)` on.
    pub fn as_bytes(&self) -> (r: &[u8])
        requires
            self.wf(),
        ensures
            r@ == self.arena().subrange(0, (self.capacity() * self.layout().spec_size()) as int),
            r@.len() == self.capacity() * self.layout().spec_size(),
    {
        let len = self.locks.len() * self.layout.size();
        vstd::slice::slice_subrange(self.bytes.as_slice(), 0, len)
    }

    /// What a well-formed pool knows of itself.
    pub proof fn lemma_wf(&self)
        requires
            self.wf(),
        ensures
            self.layout().wf(),
            self.capacity() * self.layout().spec_size() <= self.arena().len(),
            self.capacity() * self.layout().spec_size() + 8 <= usize::MAX,
    {
    }

    /// Copies the leading bytes of `src` over the slots, as many as fit;
    /// returns how many were copied.
    pub fn fill(&mut self, src: &[u8]) -> (r: usize)
        requires
            old(self).wf(),
        ensures
            final(self).wf(),
            r == if src@.len() < old(self).capacity() * old(self).layout().spec_size() {
                src@.len()
            } else {
                old(self).capacity() * old(self).layout().spec_size()
            },
            final(self).arena() == splice(old(self).arena(), 0, src@.take(r as int)),
            final(self).locks() == old(self).locks(),
            final(self).layout() == old(self).layout(),
            final(self).id() == old(self).id(),
            final(self).order() == old(self).order(),
    {
        let len = self.locks.len() * self.layout.size();
        copy_prefix(&mut self.bytes, src, len)
    }

    /// Whether slot `pos` is held by a guard.
    pub fn is_locked(&self, pos: usize) -> (r: bool)
        requires
            pos < self.capacity(),
        ensures
            r == self.locks()[pos as int],
    {
        self.locks[pos]
    }

    /// Locks slot `pos` and returns a guard on it, or `None` when the slot is
    /// already held.
    fn acquire(&mut self, pos: usize, writable: bool) -> (r: Option<Guard>)
        requires
            old(self).wf(),
            pos < old(self).capacity(),
        ensures
            final(self).wf(),
            final(self).layout() == old(self).layout(),
            final(self).id() == old(self).id(),
            final(self).arena() == old(self).arena(),
            final(self).order() == old(self).order(),
            match r {
                None => old(self).locks()[pos as int] && final(self).locks() == old(self).locks(),
                Some(g) => {
                    let leaves = old(self).layout().leaves();
                    &&& !old(self).locks()[pos as int]
                    &&& final(self).locks() == acquired(old(self).locks(), pos as int)
                    &&& g.slot() == pos
                    &&& g.pool_id() == old(self).id()
                    &&& g.is_writable() == writable
                    &&& g.lens().kinds() == leaves
                    &&& g.lens().offsets().len() == leaves.len()
                    &&& forall|i: int|
                        0 <= i < leaves.len() ==> #[trigger] g.lens().offsets()[i] == old(self).slot_start(
                            pos as nat,
                        ) + leaf_offset(leaves, i)
                    &&& g.lens().fits(old(self).slot_start(pos as nat) + old(self).layout().spec_size())
                    &&& g.lens().fits(old(self).arena().len())
                },
            },
    {
        if self.locks[pos] {
            return None;
        }
        let size = self.layout.size();
        proof {
            let n = self.locks@.len();
            assert((pos + 1) * size <= n * size) by (nonlinear_arith)
                requires
                    pos + 1 <= n,
            ;
            assert((pos + 1) * size == pos * size + size) by (nonlinear_arith);
        }
        let start = pos * size;
        let mut c = Cursor::range(start, start + size);
        let ghost c0 = c;
        proof {
            lemma_cursor_slice(c, self.layout.leaves());
        }
        let lens = self.layout.slice(&mut c);
        self.locks.set(pos, true);
        let g = Guard { slot: pos, lens, writable, pool: self.id };
        proof {
            let leaves = old(self).layout().leaves();
            lemma_cursor_facts(c0, 0);
            assert(g.lens().fits(old(self).slot_start(pos as nat) + old(self).layout().spec_size()));
            assert forall|i: int|
                0 <= i < g.lens().kinds().len() implies #[trigger] g.lens().offsets()[i] + g.lens().kinds()[i].spec_size()
                    <= old(self).arena().len() by {
                assert(g.lens().offsets()[i] + g.lens().kinds()[i].spec_size() <= start + size);
            }
            assert(g.lens().fits(old(self).arena().len()));
            assert forall|i: int|
                0 <= i < leaves.len() implies #[trigger] g.lens().offsets()[i] == old(self).slot_start(pos as nat)
                    + leaf_offset(leaves, i) by {
                assert(g.lens().offsets()[i] as nat == offsets_from(c0, leaves)[i]);
            }
            assert(self.locks@ == acquired(old(self).locks(), pos as int));
        }
        Some(g)
    }

    /// A guard for reading slot `pos`, or `None` when the slot is already
    /// held.
    pub fn lense(&mut self, pos: usize) -> (r: Option<Guard>)
        requires
            old(self).wf(),
            pos < old(self).capacity(),
        ensures
            final(self).wf(),
            final(self).layout() == old(self).layout(),
            final(self).id() == old(self).id(),
            final(self).arena() == old(self).arena(),
            final(self).order() == old(self).order(),
            match r {
                None => old(self).locks()[pos as int] && final(self).locks() == old(self).locks(),
                Some(g) => {
                    let leaves = old(self).layout().leaves();
                    &&& !old(self).locks()[pos as int]
                    &&& final(self).locks() == acquired(old(self).locks(), pos as int)
                    &&& g.slot() == pos
                    &&& g.pool_id() == old(self).id()
                    &&& !g.is_writable()
                    &&& g.lens().kinds() == leaves
                    &&& g.lens().offsets().len() == leaves.len()
                    &&& forall|i: int|
                        0 <= i < leaves.len() ==> #[trigger] g.lens().offsets()[i] == old(self).slot_start(
                            pos as nat,
                        ) + leaf_offset(leaves, i)
                    &&& g.lens().fits(old(self).slot_start(pos as nat) + old(self).layout().spec_size())
                    &&& g.lens().fits(old(self).arena().len())
                },
            },
    {
        self.acquire(pos, false)
    }

    /// A guard for reading and writing slot `pos`, or `None` when the slot is
    /// already held.
    pub fn lense_mut(&mut self, pos: usize) -> (r: Option<Guard>)
        requires
            old(self).wf(),
            pos < old(self).capacity(),
        ensures
            final(self).wf(),
            final(self).layout() == old(self).layout(),
            final(self).id() == old(self).id(),
            final(self).arena() == old(self).arena(),
            final(self).order() == old(self).order(),
            match r {
                None => old(self).locks()[pos as int] && final(self).locks() == old(self).locks(),
                Some(g) => {
                    let leaves = old(self).layout().leaves();
                    &&& !old(self).locks()[pos as int]
                    &&& final(self).locks() == acquired(old(self).locks(), pos as int)
                    &&& g.slot() == pos
                    &&& g.pool_id() == old(self).id()
                    &&& g.is_writable()
                    &&& g.lens().kinds() == leaves
                    &&& g.lens().offsets().len() == leaves.len()
                    &&& forall|i: int|
                        0 <= i < leaves.len() ==> #[trigger] g.lens().offsets()[i] == old(self).slot_start(
                            pos as nat,
                        ) + leaf_offset(leaves, i)
                    &&& g.lens().fits(old(self).slot_start(pos as nat) + old(self).layout().spec_size())
                    &&& g.lens().fits(old(self).arena().len())
                },
            },
    {
        self.acquire(pos, true)
    }

    /// Hands `g` back and unlocks its slot.
    pub fn release(&mut self, g: Guard)
        requires
            old(self).wf(),
            g.pool_id() == old(self).id(),
            g.slot() < old(self).capacity(),
        ensures
            final(self).wf(),
            final(self).locks() == released(old(self).locks(), g.slot() as int),
            final(self).layout() == old(self).layout(),
            final(self).id() == old(self).id(),
            final(self).arena() == old(self).arena(),
            final(self).order() == old(self).order(),
    {
        self.locks.set(g.slot, false);
    }

    /// The value of leaf `i` of the record that `g` holds, as its bit pattern.
    pub fn get(&self, g: &Guard, i: usize) -> (r: u64)
        requires
            g.pool_id() == self.id(),
            g.slot() < self.capacity(),
            self.locks()[g.slot() as int],
            g.lens().fits(self.arena().len()),
            i < g.lens().kinds().len(),
        ensures
            r as nat == value_of(self.order(), g.lens().leaf_bytes(self.arena(), i as int)),
    {
        g.lens.get(self.bytes.as_slice(), self.order, i)
    }

    /// Writes `v` into leaf `i` of the record that `g` holds; no other byte
    /// changes.
    pub fn set(&mut self, g: &Guard, i: usize, v: u64)
        requires
            old(self).wf(),
            g.is_writable(),
            g.pool_id() == old(self).id(),
            g.slot() < old(self).capacity(),
            old(self).locks()[g.slot() as int],
            g.lens().fits(old(self).arena().len()),
            i < g.lens().kinds().len(),
            (v as nat) < pow256(g.lens().kinds()[i as int].spec_size()),
        ensures
            final(self).wf(),
            final(self).arena() == splice(
                old(self).arena(),
                g.lens().offsets()[i as int] as int,
                bytes_of(old(self).order(), v as nat, g.lens().kinds()[i as int].spec_size()),
            ),
            final(self).locks() == old(self).locks(),
            final(self).layout() == old(self).layout(),
            final(self).id() == old(self).id(),
            final(self).order() == old(self).order(),
    {
        g.lens.set(&mut self.bytes, self.order, i, v);
    }
}

/// Takes the slots of a `SeekablePool` one after another for reading,
/// from the first.
///
/// It stops for good at the end of the pool or at the first slot that is
/// already held: a held slot is not skipped, and no step is retried.
pub struct IterRef<'a> {
    pool: &'a mut SeekablePool,
    cur: usize,
    stopped: bool,
}

/// Takes the slots of a `SeekablePool` one after another for reading and
/// writing, from the first.
///
/// It stops for good at the end of the pool or at the first slot that is
/// already held: a held slot is not skipped, and no step is retried.
pub struct IterMut<'a> {
    pool: &'a mut SeekablePool,
    cur: usize,
    stopped: bool,
}

impl SeekablePool {
    /// Takes the slots one after another for reading, from the first.
    pub fn iter(&mut self) -> (r: IterRef<'_>)
        requires
            old(self).wf(),
        ensures
            r.wf(),
            r.pool() == *old(self),
            r.position() == 0,
            !r.is_stopped(),
    {
        IterRef { pool: self, cur: 0, stopped: false }
    }

    /// Takes the slots one after another for reading and writing, from the
    /// first.
    pub fn iter_mut(&mut self) -> (r: IterMut<'_>)
        requires
            old(self).wf(),
        ensures
            r.wf(),
            r.pool() == *old(self),
            r.position() == 0,
            !r.is_stopped(),
    {
        IterMut { pool: self, cur: 0, stopped: false }
    }
}

impl<'a> IterRef<'a> {
    /// The pool as it stands now.
    pub closed spec fn pool(&self) -> SeekablePool {
        *self.pool
    }

    /// The slot that the next step takes.
    pub closed spec fn position(&self) -> nat {
        self.cur as nat
    }

    /// Whether a held slot has ended the walk.
    pub closed spec fn is_stopped(&self) -> bool {
        self.stopped
    }

    /// Slots that the walk may still take.
    pub open spec fn slots_left(&self) -> nat {
        if self.is_stopped() || self.position() >= self.pool().capacity() {
            0
        } else {
            (self.pool().capacity() - self.position()) as nat
        }
    }

    /// The invariant that every operation keeps.
    pub closed spec fn wf(&self) -> bool {
        &&& self.pool.wf()
        &&& self.cur <= self.pool.locks@.len()
    }

    /// Slots that the walk may still take.
    pub fn len(&self) -> (r: usize)
        requires
            self.wf(),
        ensures
            r == self.slots_left(),
    {
        if self.stopped {
            0
        } else {
            self.pool.capacity_slots() - self.cur
        }
    }

    /// Takes the next slot: a guard on it, or `None` at the end of the pool or
    /// when the slot is held (the walk then stays stopped).
    pub fn next(&mut self) -> (r: Option<Guard>)
        requires
            old(self).wf(),
        ensures
            final(self).wf(),
            final(self).pool().layout() == old(self).pool().layout(),
            final(self).pool().id() == old(self).pool().id(),
            final(self).pool().arena() == old(self).pool().arena(),
            final(self).pool().order() == old(self).pool().order(),
            match r {
                None => {
                    &&& final(self).pool().locks() == old(self).pool().locks()
                    &&& final(self).position() == old(self).position()
                    &&& final(self).slots_left() == 0
                    &&& (old(self).is_stopped() || old(self).position() >= old(self).pool().capacity()
                        || old(self).pool().locks()[old(self).position() as int])
                },
                Some(g) => {
                    let leaves = old(self).pool().layout().leaves();
                    &&& !old(self).is_stopped()
                    &&& old(self).position() < old(self).pool().capacity()
                    &&& !old(self).pool().locks()[old(self).position() as int]
                    &&& final(self).pool().locks() == acquired(old(self).pool().locks(), old(self).position() as int)
                    &&& final(self).position() == old(self).position() + 1
                    &&& !final(self).is_stopped()
                    &&& final(self).slots_left() == old(self).slots_left() - 1
                    &&& g.slot() == old(self).position()
                    &&& g.pool_id() == old(self).pool().id()
                    &&& !g.is_writable()
                    &&& g.lens().kinds() == leaves
                    &&& g.lens().offsets().len() == leaves.len()
                    &&& forall|i: int|
                        0 <= i < leaves.len() ==> #[trigger] g.lens().offsets()[i] == old(self).pool().slot_start(
                            old(self).position(),
                        ) + leaf_offset(leaves, i)
                    &&& g.lens().fits(old(self).pool().arena().len())
                },
            },
    {
        if self.stopped || self.cur >= self.pool.capacity_slots() {
            self.stopped = true;
            return None;
        }
        match self.pool.lense(self.cur) {
            Some(g) => {
                self.cur = self.cur + 1;
                Some(g)
            },
            None => {
                self.stopped = true;
                None
            },
        }
    }

    /// Hands `g` back to the pool and unlocks its slot.
    pub fn release(&mut self, g: Guard)
        requires
            old(self).wf(),
            g.pool_id() == old(self).pool().id(),
            g.slot() < old(self).pool().capacity(),
        ensures
            final(self).wf(),
            final(self).pool().locks() == released(old(self).pool().locks(), g.slot() as int),
            final(self).pool().layout() == old(self).pool().layout(),
            final(self).pool().id() == old(self).pool().id(),
            final(self).pool().arena() == old(self).pool().arena(),
            final(self).pool().order() == old(self).pool().order(),
            final(self).position() == old(self).position(),
            final(self).is_stopped() == old(self).is_stopped(),
    {
        self.pool.release(g);
    }

    /// The value of leaf `i` of the record that `g` holds, as its bit pattern.
    pub fn get(&self, g: &Guard, i: usize) -> (r: u64)
        requires
            g.pool_id() == self.pool().id(),
            g.slot() < self.pool().capacity(),
            self.pool().locks()[g.slot() as int],
            g.lens().fits(self.pool().arena().len()),
            i < g.lens().kinds().len(),
        ensures
            r as nat == value_of(self.pool().order(), g.lens().leaf_bytes(self.pool().arena(), i as int)),
    {
        self.pool.get(g, i)
    }
}

impl<'a> IterMut<'a> {
    /// The pool as it stands now.
    pub closed spec fn pool(&self) -> SeekablePool {
        *self.pool
    }

    /// The slot that the next step takes.
    pub closed spec fn position(&self) -> nat {
        self.cur as nat
    }

    /// Whether a held slot has ended the walk.
    pub closed spec fn is_stopped(&self) -> bool {
        self.stopped
    }

    /// Slots that the walk may still take.
    pub open spec fn slots_left(&self) -> nat {
        if self.is_stopped() || self.position() >= self.pool().capacity() {
            0
        } else {
            (self.pool().capacity() - self.position()) as nat
        }
    }

    /// The invariant that every operation keeps.
    pub closed spec fn wf(&self) -> bool {
        &&& self.pool.wf()
        &&& self.cur <= self.pool.locks@.len()
    }

    /// Slots that the walk may still take.
    pub fn len(&self) -> (r: usize)
        requires
            self.wf(),
        ensures
            r == self.slots_left(),
    {
        if self.stopped {
            0
        } else {
            self.pool.capacity_slots() - self.cur
        }
    }

    /// Takes the next slot: a guard on it, or `None` at the end of the pool or
    /// when the slot is held (the walk then stays stopped).
    pub fn next(&mut self) -> (r: Option<Guard>)
        requires
            old(self).wf(),
        ensures
            final(self).wf(),
            final(self).pool().layout() == old(self).pool().layout(),
            final(self).pool().id() == old(self).pool().id(),
            final(self).pool().arena() == old(self).pool().arena(),
            final(self).pool().order() == old(self).pool().order(),
            match r {
                None => {
                    &&& final(self).pool().locks() == old(self).pool().locks()
                    &&& final(self).position() == old(self).position()
                    &&& final(self).slots_left() == 0
                    &&& (old(self).is_stopped() || old(self).position() >= old(self).pool().capacity()
                        || old(self).pool().locks()[old(self).position() as int])
                },
                Some(g) => {
                    let leaves = old(self).pool().layout().leaves();
                    &&& !old(self).is_stopped()
                    &&& old(self).position() < old(self).pool().capacity()
                    &&& !old(self).pool().locks()[old(self).position() as int]
                    &&& final(self).pool().locks() == acquired(old(self).pool().locks(), old(self).position() as int)
                    &&& final(self).position() == old(self).position() + 1
                    &&& !final(self).is_stopped()
                    &&& final(self).slots_left() == old(self).slots_left() - 1
                    &&& g.slot() == old(self).position()
                    &&& g.pool_id() == old(self).pool().id()
                    &&& g.is_writable()
                    &&& g.lens().kinds() == leaves
                    &&& g.lens().offsets().len() == leaves.len()
                    &&& forall|i: int|
                        0 <= i < leaves.len() ==> #[trigger] g.lens().offsets()[i] == old(self).pool().slot_start(
                            old(self).position(),
                        ) + leaf_offset(leaves, i)
                    &&& g.lens().fits(old(self).pool().arena().len())
                },
            },
    {
        if self.stopped || self.cur >= self.pool.capacity_slots() {
            self.stopped = true;
            return None;
        }
        match self.pool.lense_mut(self.cur) {
            Some(g) => {
                self.cur = self.cur + 1;
                Some(g)
            },
            None => {
                self.stopped = true;
                None
            },
        }
    }

    /// Hands `g` back to the pool and unlocks its slot.
    pub fn release(&mut self, g: Guard)
        requires
            old(self).wf(),
            g.pool_id() == old(self).pool().id(),
            g.slot() < old(self).pool().capacity(),
        ensures
            final(self).wf(),
            final(self).pool().locks() == released(old(self).pool().locks(), g.slot() as int),
            final(self).pool().layout() == old(self).pool().layout(),
            final(self).pool().id() == old(self).pool().id(),
            final(self).pool().arena() == old(self).pool().arena(),
            final(self).pool().order() == old(self).pool().order(),
            final(self).position() == old(self).position(),
            final(self).is_stopped() == old(self).is_stopped(),
    {
        self.pool.release(g);
    }

    /// The value of leaf `i` of the record that `g` holds, as its bit pattern.
    pub fn get(&self, g: &Guard, i: usize) -> (r: u64)
        requires
            g.pool_id() == self.pool().id(),
            g.slot() < self.pool().capacity(),
            self.pool().locks()[g.slot() as int],
            g.lens().fits(self.pool().arena().len()),
            i < g.lens().kinds().len(),
        ensures
            r as nat == value_of(self.pool().order(), g.lens().leaf_bytes(self.pool().arena(), i as int)),
    {
        self.pool.get(g, i)
    }

    /// Writes `v` into leaf `i` of the record that `g` holds; no other byte
    /// changes.
    pub fn set(&mut self, g: &Guard, i: usize, v: u64)
        requires
            old(self).wf(),
            g.is_writable(),
            g.pool_id() == old(self).pool().id(),
            g.slot() < old(self).pool().capacity(),
            old(self).pool().locks()[g.slot() as int],
            g.lens().fits(old(self).pool().arena().len()),
            i < g.lens().kinds().len(),
            (v as nat) < pow256(g.lens().kinds()[i as int].spec_size()),
        ensures
            final(self).wf(),
            final(self).pool().arena() == splice(
                old(self).pool().arena(),
                g.lens().offsets()[i as int] as int,
                bytes_of(old(self).pool().order(), v as nat, g.lens().kinds()[i as int].spec_size()),
            ),
            final(self).pool().locks() == old(self).pool().locks(),
            final(self).pool().layout() == old(self).pool().layout(),
            final(self).pool().id() == old(self).pool().id(),
            final(self).pool().order() == old(self).pool().order(),
            final(self).position() == old(self).position(),
            final(self).is_stopped() == old(self).is_stopped(),
    {
        self.pool.set(g, i, v);
    }
}

/// Distinct slots cover disjoint bytes: every leaf of a guard on slot `a`
/// ends before any leaf of a guard on a later slot `b` begins.
pub proof fn lemma_slots_disjoint(pool: SeekablePool, a: nat, b: nat, i: int, j: int)
    requires
        a < b,
        0 <= i < pool.layout().leaves().len(),
        0 <= j < pool.layout().leaves().len(),
    ensures
        pool.slot_start(a) + leaf_offset(pool.layout().leaves(), i) + pool.layout().leaves()[i].spec_size()
            <= pool.slot_start(b) + leaf_offset(pool.layout().leaves(), j),
{
    let s = pool.layout().leaves();
    let size = pool.layout().spec_size();
    assert(s.take(i + 1).drop_last() =~= s.take(i));
    lemma_prefix_size_monotone(s, i + 1, s.len() as int);
    assert(s.take(s.len() as int) =~= s);
    assert(a * size + size <= b * size) by (nonlinear_arith)
        requires
            a < b,
    ;
}

/// A slot taken by one guard cannot be taken by a second until the first is
/// released; after that it can be taken again.
pub proof fn lemma_mutual_exclusion(locks: Seq<bool>, pos: int)
    requires
        0 <= pos < locks.len(),
        !locks[pos],
    ensures
        acquired(locks, pos)[pos],
        !released(acquired(locks, pos), pos)[pos],
        released(acquired(locks, pos), pos) == locks,
        forall|j: int| 0 <= j < locks.len() && j != pos ==> #[trigger] acquired(locks, pos)[j] == locks[j],
{
    assert(released(acquired(locks, pos), pos) =~= locks);
}

} // verus!
