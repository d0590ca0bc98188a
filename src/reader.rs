use vstd::prelude::*;

use crate::cursor::{lemma_cursor_facts, lemma_cursor_slice, Cursor, Dice, Lens, SliceRef};
use crate::layout::{leaf_offset, Layout, Lense};

verus! {

/// Why no record was read from a stream.
#[derive(Clone, Copy, Debug, PartialEq, Eq, Structural)]
pub enum LenseError {
    /// Nothing is left: the stream ended cleanly.
    NothingToParse,
    /// Some bytes are left, but fewer than one record.
    Incomplete,
    /// Kept for framings of variable length; fixed records never give it.
    UnexpectedSize,
}

/// What a read from `remaining` bytes gives, for records of `size` bytes:
/// `None` when a record is decoded.
pub open spec fn read_outcome(remaining: nat, size: nat) -> Option<LenseError> {
    if remaining == 0 {
        Some(LenseError::NothingToParse)
    } else if remaining < size {
        Some(LenseError::Incomplete)
    } else {
        None
    }
}

/// Reads one record laid out as `layout` from what remains of `c`.
///
/// With nothing left it reports `NothingToParse`, with less than one record
/// `Incomplete`, and the cursor stays where it is.  Otherwise it decodes the
/// record from the leading bytes and advances past them.
pub fn read_record(layout: &Layout, c: &mut Cursor) -> (r: Result<Lens, LenseError>)
    requires
        layout.wf(),
        old(c).pos() <= old(c).end(),
    ensures
        ({
            let rem = (old(c).end() - old(c).pos()) as nat;
            match r {
                Err(e) => read_outcome(rem, layout.spec_size()) == Some(e) && *final(c) == *old(c),
                Ok(lens) => {
                    &&& read_outcome(rem, layout.spec_size()) is None
                    &&& lens.kinds() == layout.leaves()
                    &&& lens.offsets().len() == layout.leaves().len()
                    &&& forall|i: int|
                        0 <= i < lens.offsets().len() ==> #[trigger] lens.offsets()[i] == old(c).pos()
                            + leaf_offset(layout.leaves(), i)
                    &&& lens.fits(old(c).end())
                    &&& final(c).pos() == old(c).pos() + layout.spec_size()
                    &&& final(c).end() == old(c).end()
                },
            }
        }),
{
    let rem = c.size();
    proof {
        lemma_cursor_facts(*c, 0);
    }
    if rem == 0 {
        return Err(LenseError::NothingToParse);
    }
    if rem < layout.size() {
        return Err(LenseError::Incomplete);
    }
    proof {
        lemma_cursor_slice(*c, layout.leaves());
    }
    let lens = layout.slice(c);
    Ok(lens)
}

/// Reading records one after another from `k * size + t` bytes, with
/// `t < size`: each of the first `k` reads decodes a record and leaves `size`
/// bytes fewer; the read after them reports `NothingToParse` when `t` is zero
/// and `Incomplete` otherwise.
pub proof fn lemma_stream_of_records(size: nat, k: nat, t: nat)
    requires
        0 < size,
        t < size,
    ensures
        forall|i: nat| i < k ==> read_outcome(#[trigger] ((k - i) * size + t) as nat, size) is None,
        read_outcome(t, size) == if t == 0 {
            Some(LenseError::NothingToParse)
        } else {
            Some(LenseError::Incomplete)
        },
{
    assert forall|i: nat| i < k implies read_outcome(#[trigger] ((k - i) * size + t) as nat, size) is None by {
        assert((k - i) * size >= size) by (nonlinear_arith)
            requires
                i < k,
                0 < size,
        ;
    }
}

} // verus!
