use vstd::prelude::*;

use crate::cursor::{lemma_cursor_facts, lemma_cursor_slice, Cursor, Dice, Lens};
use crate::layout::{leaf_offset, Layout, Lense};
use crate::pool::AlignedPool;
use crate::prim::{bytes_of, pow256, splice, value_of};
use crate::reader::read_record;

verus! {

/// Reads records laid out as one layout one after another from a cursor's
/// span: over a whole `AlignedPool`, or over any span of bytes.
///
/// Each step decodes one whole record; a trailing partial record is never
/// yielded.
pub struct Iter<'a> {
    layout: &'a Layout,
    cursor: Cursor,
}

impl<'a> Iter<'a> {
    /// The layout of each record.
    pub closed spec fn layout(&self) -> Layout {
        *self.layout
    }

    /// Where the next record starts.
    pub closed spec fn position(&self) -> nat {
        self.cursor.pos()
    }

    /// The end of the span read.
    pub closed spec fn end(&self) -> nat {
        self.cursor.end()
    }

    /// Bytes not yet read.
    pub open spec fn remaining(&self) -> nat {
        (self.end() - self.position()) as nat
    }

    /// Whole records not yet read.
    pub open spec fn records_left(&self) -> nat {
        let size = self.layout().spec_size();
        if size == 0 {
            0
        } else {
            self.remaining() / size
        }
    }

    /// The invariant that every operation keeps.
    pub closed spec fn wf(&self) -> bool {
        &&& self.layout.wf()
        &&& self.cursor.pos() <= self.cursor.end()
    }

    /// Reads records laid out as `layout` from what remains of `cursor`.
    pub fn new(layout: &'a Layout, cursor: Cursor) -> (r: Iter<'a>)
        requires
            layout.wf(),
            cursor.pos() <= cursor.end(),
        ensures
            r.wf(),
            r.layout() == *layout,
            r.position() == cursor.pos(),
            r.end() == cursor.end(),
    {
        Iter { layout, cursor }
    }

    /// Starts at the first record of `pool`.
    pub fn from_aligned_pool(pool: &'a AlignedPool) -> (r: Iter<'a>)
        requires
            pool.wf(),
        ensures
            r.wf(),
            r.layout() == pool.layout(),
            r.position() == 0,
            r.end() == pool.span(),
            r.remaining() == pool.span(),
            pool.layout().spec_size() > 0 ==> r.records_left() == pool.capacity(),
    {
        let r = Iter { layout: pool.record_layout(), cursor: Cursor::range(0, pool.len()) };
        proof {
            pool.lemma_wf();
            let size = pool.layout().spec_size();
            if size > 0 {
                vstd::arithmetic::div_mod::lemma_div_by_multiple(pool.capacity() as int, size as int);
            }
        }
        r
    }

    /// The invariant that every operation keeps, spelled out.
    pub proof fn lemma_wf(&self)
        requires
            self.wf(),
        ensures
            self.layout().wf(),
            self.position() <= self.end(),
            self.position() + self.remaining() == self.end(),
    {
    }

    /// Whole records not yet read.
    pub fn len(&self) -> (r: usize)
        requires
            self.wf(),
        ensures
            r == self.records_left(),
            self.layout().spec_size() > 0 && self.remaining() % self.layout().spec_size() == 0 ==> (r == 0
                <==> self.remaining() == 0),
    {
        let size = self.layout.size();
        if size == 0 {
            0
        } else {
            proof {
                lemma_cursor_facts(self.cursor, 0);
                let rem = self.remaining() as int;
                vstd::arithmetic::div_mod::lemma_fundamental_div_mod(rem, size as int);
                let q = rem / (size as int);
                if rem % (size as int) == 0 {
                    assert(q == 0 <==> rem == 0) by (nonlinear_arith)
                        requires
                            rem == size * q + 0,
                            size > 0,
                    ;
                }
            }
            self.cursor.size() / size
        }
    }

    /// The next whole record, or `None` when less than one record is left (or
    /// records are zero bytes wide).
    pub fn next(&mut self) -> (r: Option<Lens>)
        requires
            old(self).wf(),
        ensures
            final(self).wf(),
            final(self).layout() == old(self).layout(),
            final(self).end() == old(self).end(),
            match r {
                None => old(self).records_left() == 0 && *final(self) == *old(self),
                Some(lens) => {
                    let leaves = old(self).layout().leaves();
                    &&& old(self).records_left() > 0
                    &&& old(self).remaining() >= old(self).layout().spec_size()
                    &&& final(self).remaining() == old(self).remaining() - old(self).layout().spec_size()
                    &&& final(self).records_left() == old(self).records_left() - 1
                    &&& final(self).position() == old(self).position() + old(self).layout().spec_size()
                    &&& lens.kinds() == leaves
                    &&& lens.offsets().len() == leaves.len()
                    &&& forall|i: int|
                        0 <= i < leaves.len() ==> #[trigger] lens.offsets()[i] == old(self).position()
                            + leaf_offset(leaves, i)
                    &&& lens.fits(old(self).end())
                },
            },
    {
        let size = self.layout.size();
        proof {
            lemma_cursor_facts(self.cursor, 0);
        }
        if size == 0 || self.cursor.size() < size {
            proof {
                if size > 0 {
                    vstd::arithmetic::div_mod::lemma_basic_div(self.remaining() as int, size as int);
                }
            }
            return None;
        }
        match read_record(self.layout, &mut self.cursor) {
            Ok(lens) => {
                proof {
                    let rem = old(self).remaining();
                    vstd::arithmetic::div_mod::lemma_div_plus_one((rem - size) as int, size as int);
                    vstd::arithmetic::div_mod::lemma_div_pos_is_pos(rem as int, size as int);
                }
                Some(lens)
            },
            Err(_) => None,
        }
    }
}

/// A span of `k` whole records and `t < size` further bytes gives exactly
/// `k` records: the partial tail is never yielded.
pub proof fn lemma_records_left(size: nat, k: nat, t: nat)
    requires
        0 < size,
        t < size,
    ensures
        (k * size + t) / size == k,
        (k * size + t) % size == t,
{
    vstd::arithmetic::div_mod::lemma_fundamental_div_mod_converse(
        (k * size + t) as int,
        size as int,
        k as int,
        t as int,
    );
}

/// Reads the records of an `AlignedPool` one after another, from the first,
/// and lets each be written through the iterator.
pub struct IterMut<'a> {
    /// The pool written through.
    pub pool: &'a mut AlignedPool,
    /// The span still to read.
    pub cursor: Cursor,
}

impl<'a> IterMut<'a> {
    /// The pool as it stands now.
    pub closed spec fn pool(&self) -> AlignedPool {
        *self.pool
    }

    /// Once nothing more is written through the iterator, the pool stands as
    /// the iterator last left it.
    pub proof fn lemma_resolved(&self)
        requires
            has_resolved(*self),
        ensures
            self.pool() == *final(self.pool),
    {
    }

    /// The invariant that every operation keeps, spelled out.
    pub proof fn lemma_wf(&self)
        requires
            self.wf(),
        ensures
            self.pool().wf(),
            self.position() + self.remaining() == self.pool().span(),
            self.pool().layout().spec_size() > 0 ==> self.remaining() % self.pool().layout().spec_size() == 0,
    {
    }

    /// Where the next record starts.
    pub closed spec fn position(&self) -> nat {
        self.cursor.pos()
    }

    /// Bytes not yet read.
    pub closed spec fn remaining(&self) -> nat {
        (self.cursor.end() - self.cursor.pos()) as nat
    }

    /// Whole records not yet read.
    pub open spec fn records_left(&self) -> nat {
        let size = self.pool().layout().spec_size();
        if size == 0 {
            0
        } else {
            self.remaining() / size
        }
    }

    /// The invariant that every operation keeps.
    pub closed spec fn wf(&self) -> bool {
        &&& self.pool.wf()
        &&& self.cursor.pos() <= self.cursor.end()
        &&& self.cursor.end() == self.pool.span()
        &&& self.pool().layout().spec_size() > 0 ==> self.remaining() % self.pool().layout().spec_size() == 0
    }

    /// Starts at the first record of `pool`.
    pub fn from_aligned_pool(pool: &'a mut AlignedPool) -> (r: IterMut<'a>)
        requires
            old(pool).wf(),
        ensures
            r.wf(),
            r.pool() == *old(pool),
            *final(r.pool) == *final(pool),
            r.position() == 0,
            r.remaining() == old(pool).span(),
            old(pool).layout().spec_size() > 0 ==> r.records_left() == old(pool).capacity(),
    {
        let len = pool.len();
        proof {
            pool.lemma_wf();
            let size = pool.layout().spec_size();
            if size > 0 {
                vstd::arithmetic::div_mod::lemma_div_by_multiple(pool.capacity() as int, size as int);
                vstd::arithmetic::div_mod::lemma_mod_multiples_basic(pool.capacity() as int, size as int);
            }
        }
        IterMut { pool, cursor: Cursor::range(0, len) }
    }

    /// Whole records not yet read.
    pub fn len(&self) -> (r: usize)
        requires
            self.wf(),
        ensures
            r == self.records_left(),
            self.pool().layout().spec_size() > 0 ==> (r == 0 <==> self.remaining() == 0),
    {
        proof {
            self.pool.lemma_wf();
        }
        let size = self.pool.record_layout().size();
        if size == 0 {
            0
        } else {
            proof {
                lemma_cursor_facts(self.cursor, 0);
                let rem = self.remaining() as int;
                vstd::arithmetic::div_mod::lemma_fundamental_div_mod(rem, size as int);
                let q = rem / (size as int);
                assert(q == 0 <==> rem == 0) by (nonlinear_arith)
                    requires
                        rem == size * q + 0,
                        size > 0,
                ;
            }
            self.cursor.size() / size
        }
    }

    /// The next whole record, or `None` when less than one record is left (or
    /// records are zero bytes wide).
    pub fn next(&mut self) -> (r: Option<Lens>)
        requires
            old(self).wf(),
        ensures
            final(self).wf(),
            final(self).pool() == old(self).pool(),
            *final(final(self).pool) == *final(old(self).pool),
            match r {
                None => old(self).records_left() == 0 && final(self).position() == old(self).position(),
                Some(lens) => {
                    let leaves = old(self).pool().layout().leaves();
                    &&& old(self).records_left() > 0
                    &&& old(self).remaining() >= old(self).pool().layout().spec_size()
                    &&& final(self).remaining() == old(self).remaining() - old(self).pool().layout().spec_size()
                    &&& final(self).records_left() == old(self).records_left() - 1
                    &&& final(self).position() == old(self).position() + old(self).pool().layout().spec_size()
                    &&& lens.kinds() == leaves
                    &&& lens.offsets().len() == leaves.len()
                    &&& forall|i: int|
                        0 <= i < leaves.len() ==> #[trigger] lens.offsets()[i] == old(self).position()
                            + leaf_offset(leaves, i)
                    &&& lens.fits(old(self).pool().span())
                },
            },
    {
        proof {
            self.pool.lemma_wf();
        }
        let size = self.pool.record_layout().size();
        proof {
            lemma_cursor_facts(self.cursor, 0);
        }
        if size == 0 || self.cursor.size() < size {
            proof {
                if size > 0 {
                    vstd::arithmetic::div_mod::lemma_basic_div(self.remaining() as int, size as int);
                }
            }
            return None;
        }
        match read_record(self.pool.record_layout(), &mut self.cursor) {
            Ok(lens) => {
                proof {
                    let rem = old(self).remaining();
                    vstd::arithmetic::div_mod::lemma_div_plus_one((rem - size) as int, size as int);
                    vstd::arithmetic::div_mod::lemma_div_pos_is_pos(rem as int, size as int);
                    vstd::arithmetic::div_mod::lemma_mod_sub_multiples_vanish(rem as int, size as int);
                }
                Some(lens)
            },
            Err(_) => None,
        }
    }

    /// The value of leaf `i` of `lens`, as its bit pattern.
    pub fn get(&self, lens: &Lens, i: usize) -> (r: u64)
        requires
            lens.fits(self.pool().arena().len()),
            i < lens.kinds().len(),
        ensures
            r as nat == value_of(self.pool().order(), lens.leaf_bytes(self.pool().arena(), i as int)),
    {
        self.pool.get(lens, i)
    }

    /// Writes `v` into leaf `i` of `lens`; no other byte changes.
    pub fn set(&mut self, lens: &Lens, i: usize, v: u64)
        requires
            old(self).wf(),
            lens.fits(old(self).pool().arena().len()),
            i < lens.kinds().len(),
            (v as nat) < pow256(lens.kinds()[i as int].spec_size()),
        ensures
            final(self).wf(),
            *final(final(self).pool) == *final(old(self).pool),
            final(self).position() == old(self).position(),
            final(self).pool().arena() == splice(
                old(self).pool().arena(),
                lens.offsets()[i as int] as int,
                bytes_of(old(self).pool().order(), v as nat, lens.kinds()[i as int].spec_size()),
            ),
            final(self).pool().layout() == old(self).pool().layout(),
            final(self).pool().order() == old(self).pool().order(),
    {
        self.pool.set(lens, i, v);
    }
}

} // verus!
