use lense::{AlignedPool, Cursor, Layout, Prim, SliceRef};

#[test]
fn prim_immutable() {
    let pool = AlignedPool::with_capacity(Layout::prim(Prim::U16), 4);
    let mut c = Cursor::range(0, pool.len());
    let n = pool.record_layout().slice(&mut c);
    assert_eq!(pool.get(&n, 0) as u16, 0u16);
}

#[test]
fn prim_mutable() {
    let mut pool = AlignedPool::with_capacity(Layout::prim(Prim::U16), 4);
    let mut c = Cursor::range(0, pool.len());
    let n = pool.record_layout().slice(&mut c);
    pool.set(&n, 0, 12345);
    assert_eq!(pool.get(&n, 0) as u16, 12345u16);
}
