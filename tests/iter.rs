use lense::{Layout, Prim, SeekablePool};

#[test]
fn prim_immutable_iter() {
    let mut pool = SeekablePool::with_capacity(Layout::prim(Prim::U16), 1);
    let mut it = pool.iter();
    while let Some(guard) = it.next() {
        assert_eq!(it.get(&guard, 0) as u16, 0u16);
        it.release(guard);
    }
}

#[test]
fn prim_mutable_iter() {
    let mut pool = SeekablePool::with_capacity(Layout::prim(Prim::U16), 1);
    {
        let mut it = pool.iter_mut();
        while let Some(guard) = it.next() {
            it.set(&guard, 0, 12345);
            it.release(guard);
        }
    }
    let g = pool.lense(0).unwrap();
    assert_eq!(pool.get(&g, 0), 12345);
    pool.release(g);
}
