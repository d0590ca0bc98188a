use lense::{Layout, Lense, Prim, SeekablePool};

fn p(k: Prim) -> Layout {
    Layout::prim(k)
}

// Fields ordered from the widest down: e u64, d u32, bc (u16, u8), a u8.
fn alice_ref() -> Layout {
    let bc = Layout::record(&vec![p(Prim::U16), p(Prim::U8)]);
    Layout::record(&vec![p(Prim::U64), p(Prim::U32), bc, p(Prim::U8)])
}

#[test]
fn tuple_alice_iter() {
    // (u8, (u8, u16), u32, u64)
    let inner = Layout::record(&vec![p(Prim::U8), p(Prim::U16)]);
    let fake_alice = Layout::record(&vec![p(Prim::U8), inner, p(Prim::U32), p(Prim::U64)]);
    let mut pool = SeekablePool::with_capacity(fake_alice, 1);
    let mut it = pool.iter();
    let mut seen = 0;
    while let Some(guard) = it.next() {
        let (a, b, c, d, e) = (it.get(&guard, 0), it.get(&guard, 1), it.get(&guard, 2), it.get(&guard, 3), it.get(&guard, 4));
        assert_eq!(a as u8, 0u8);
        assert_eq!(b as u8, 0u8);
        assert_eq!(c as u16, 0u16);
        assert_eq!(d as u32, 0u32);
        assert_eq!(e, 0u64);
        it.release(guard);
        seen += 1;
    }
    assert_eq!(seen, 1);
}

#[test]
fn alice_iter() {
    let mut pool = SeekablePool::with_capacity(alice_ref(), 4);
    let mut it = pool.iter();

    assert_eq!(it.len(), 4);

    let mut seen = 0;
    while let Some(guard) = it.next() {
        // leaves: e, d, b, c, a
        let e = it.get(&guard, 0);
        let d = it.get(&guard, 1);
        let b = it.get(&guard, 2);
        let c = it.get(&guard, 3);
        let a = it.get(&guard, 4);
        assert_eq!(a as u8, 0u8);
        assert_eq!(b as u16, 0u16);
        assert_eq!(c as u8, 0u8);
        assert_eq!(d as u32, 0u32);
        assert_eq!(e, 0u64);
        it.release(guard);
        seen += 1;
    }
    assert_eq!(seen, 4);
}

#[test]
fn size_alice_16() {
    assert_eq!(alice_ref().size(), 16);
}
