//! Fixed binary record layouts over a byte arena.
//!
//! A record layout is described once as a composition of fixed-width
//! primitives, tuples, arrays and named records.  Cursors carve records off a
//! byte span and hand out lenses: a lens lists the byte offset in the arena of
//! each primitive leaf, and values are read and written through explicit
//! per-primitive codecs.  Pools own the arena; the seekable pool adds a lock per
//! slot so that no two live guards share a record.

pub mod aligned;
pub mod cursor;
pub mod iterator;
pub mod layout;
pub mod pool;
pub mod prim;
pub mod reader;
pub mod seekable;

pub use aligned::Aligned;
pub use cursor::{Cursor, Dice, Lens, SliceRef};
pub use iterator::Iter;
pub use layout::{AlignmentError, Layout, Lense};
pub use pool::AlignedPool;
pub use prim::{native_order, ByteOrder, Prim};
pub use reader::{read_record, LenseError};
pub use seekable::{Guard, IterMut, IterRef, SeekablePool};
