use lense::prim::{decode, encode};
use lense::iterator::IterMut as PoolIterMut;
use lense::{
    native_order, read_record, Aligned, AlignedPool, AlignmentError, ByteOrder, Cursor, Dice, Iter,
    Layout, Lense, LenseError, Prim, SeekablePool, SliceRef,
};

fn p(k: Prim) -> Layout {
    Layout::prim(k)
}

// Alice { a: u8, b: (u8, u8), c: [u8; 4], d: u64 }
fn alice() -> Layout {
    let b = Layout::record(&vec![p(Prim::U8), p(Prim::U8)]);
    let c = Layout::array(&p(Prim::U8), 4);
    Layout::record(&vec![p(Prim::U8), b, c, p(Prim::U64)])
}

fn alice_bytes(copies: usize) -> Vec<u8> {
    let one: Vec<u8> = (0u8..15).collect();
    let mut v = Vec::new();
    for _ in 0..copies {
        v.extend_from_slice(&one);
    }
    v
}

#[test]
fn size_is_sum_of_children() {
    let l = Layout::record(&vec![p(Prim::U8), p(Prim::U16), p(Prim::U32), p(Prim::U64)]);
    assert_eq!(l.size(), 15);
    assert_eq!(l.field_sizes(), &vec![1usize, 2, 4, 8]);
}

#[test]
fn alice_is_fifteen_bytes() {
    let l = alice();
    assert_eq!(l.size(), 15);
    assert_eq!(l.leaf_kinds().len(), 8);
    assert_eq!(l.field_sizes(), &vec![1usize, 2, 4, 8]);
}

#[test]
fn array_repeats_its_element() {
    let l = Layout::array(&p(Prim::U16), 3);
    assert_eq!(l.size(), 6);
    assert_eq!(l.field_sizes(), &vec![2usize, 2, 2]);
    assert_eq!(l.leaf_kinds(), &vec![Prim::U16, Prim::U16, Prim::U16]);
    let empty = Layout::array(&p(Prim::U64), 0);
    assert_eq!(empty.size(), 0);
}

#[test]
fn primitive_widths() {
    assert_eq!(Prim::U8.size(), 1);
    assert_eq!(Prim::I8.size(), 1);
    assert_eq!(Prim::U16.size(), 2);
    assert_eq!(Prim::I16.size(), 2);
    assert_eq!(Prim::U32.size(), 4);
    assert_eq!(Prim::I32.size(), 4);
    assert_eq!(Prim::U64.size(), 8);
    assert_eq!(Prim::I64.size(), 8);
}

#[test]
fn alice_scenario_decodes_three_records() {
    let buf = alice_bytes(3);
    let order = native_order();
    let layout = alice();
    let mut c = Cursor::over(&buf);
    for k in 0..3 {
        let lens = read_record(&layout, &mut c).unwrap();
        assert_eq!(lens.offset(0), 15 * k);
        assert_eq!(lens.get(&buf, order, 0), 0x00);
        assert_eq!(lens.get(&buf, order, 1), 0x01);
        assert_eq!(lens.get(&buf, order, 2), 0x02);
        assert_eq!(lens.get(&buf, order, 3), 0x03);
        assert_eq!(lens.get(&buf, order, 4), 0x04);
        assert_eq!(lens.get(&buf, order, 5), 0x05);
        assert_eq!(lens.get(&buf, order, 6), 0x06);
        let d = u64::from_ne_bytes([0x07, 0x08, 0x09, 0x0A, 0x0B, 0x0C, 0x0D, 0x0E]);
        assert_eq!(lens.get(&buf, order, 7), d);
    }
    assert_eq!(c.size(), 0);
    assert!(matches!(read_record(&layout, &mut c), Err(LenseError::NothingToParse)));
}

#[test]
fn stream_of_whole_records_ends_cleanly() {
    let buf = alice_bytes(3);
    let layout = alice();
    let mut c = Cursor::over(&buf);
    let mut n = 0;
    let end = loop {
        match read_record(&layout, &mut c) {
            Ok(_) => n += 1,
            Err(e) => break e,
        }
    };
    assert_eq!(n, 3);
    assert_eq!(end, LenseError::NothingToParse);
}

#[test]
fn stream_with_partial_tail_is_incomplete() {
    let mut buf = alice_bytes(3);
    buf.extend_from_slice(&[0u8; 14]);
    let layout = alice();
    let mut c = Cursor::over(&buf);
    let mut n = 0;
    let end = loop {
        match read_record(&layout, &mut c) {
            Ok(_) => n += 1,
            Err(e) => break e,
        }
    };
    assert_eq!(n, 3);
    assert_eq!(end, LenseError::Incomplete);
    // The cursor stays where it was: the tail can still be read later.
    assert_eq!(c.size(), 14);
    assert!(matches!(read_record(&layout, &mut c), Err(LenseError::Incomplete)));
}

#[test]
fn empty_stream_has_nothing_to_parse() {
    let buf: Vec<u8> = Vec::new();
    let mut c = Cursor::over(&buf);
    assert!(matches!(read_record(&alice(), &mut c), Err(LenseError::NothingToParse)));
}

#[test]
fn aligned_cursor_pads_between_byte_and_pair() {
    let buf = vec![0u8; 4];
    let layout = Layout::record(&vec![p(Prim::U8), p(Prim::U16)]);
    let mut a = Aligned::new(Cursor::over(&buf));
    let lens = layout.slice(&mut a);
    assert_eq!(lens.offset(0), 0);
    assert_eq!(lens.offset(1), 2);
    assert_eq!(a.consumed_bytes(), 4);
    assert_eq!(a.size(), 0);
}

#[test]
fn strict_cursor_reads_well_ordered_fields() {
    let buf = vec![0u8; 3];
    let layout = Layout::record(&vec![p(Prim::U16), p(Prim::U8)]);
    let mut a = Aligned::new_strict(Cursor::over(&buf));
    let lens = layout.slice(&mut a);
    assert_eq!(lens.offset(0), 0);
    assert_eq!(lens.offset(1), 2);
    assert_eq!(a.consumed_bytes(), 3);
}

#[test]
fn alignment_check_finds_misaligned_field() {
    let layout = Layout::record(&vec![p(Prim::U8), p(Prim::U16)]);
    assert_eq!(layout.check_alignment(false), Err(AlignmentError::Misaligned { field: 1, offset: 1 }));
    assert_eq!(layout.check_alignment(true), Err(AlignmentError::Misaligned { field: 1, offset: 1 }));
}

#[test]
fn alignment_check_strict_ordering() {
    let layout = Layout::record(&vec![p(Prim::U16), p(Prim::U16), p(Prim::U32)]);
    assert_eq!(layout.check_alignment(false), Ok(()));
    assert_eq!(layout.check_alignment(true), Err(AlignmentError::OutOfOrder { field: 2 }));
    let widest_first = Layout::record(&vec![p(Prim::U64), p(Prim::U32), p(Prim::U16), p(Prim::U8)]);
    assert_eq!(widest_first.check_alignment(true), Ok(()));
}

#[test]
fn seekable_slot_is_exclusive() {
    let mut pool = SeekablePool::with_capacity(alice(), 2);
    let g = pool.lense(1).unwrap();
    assert!(pool.is_locked(1));
    assert!(!pool.is_locked(0));
    assert!(pool.lense(1).is_none());
    assert!(pool.lense_mut(1).is_none());
    let other = pool.lense(0).unwrap();
    pool.release(g);
    assert!(!pool.is_locked(1));
    let again = pool.lense_mut(1).unwrap();
    assert_eq!(again.slot_index(), 1);
    assert!(again.writable());
    pool.release(again);
    pool.release(other);
}

#[test]
fn seekable_guard_sees_its_slot() {
    let mut pool = SeekablePool::with_capacity(alice(), 3);
    assert_eq!(pool.fill(&alice_bytes(3)), 45);
    let g = pool.lense(2).unwrap();
    assert!(!g.writable());
    assert_eq!(g.view().offset(0), 30);
    assert_eq!(pool.get(&g, 3), 0x03);
    pool.release(g);
    let w = pool.lense_mut(2).unwrap();
    pool.set(&w, 0, 0xAB);
    assert_eq!(pool.get(&w, 0), 0xAB);
    assert_eq!(pool.as_bytes()[30], 0xAB);
    assert_eq!(pool.as_bytes()[15], 0x00);
    pool.release(w);
}

#[test]
fn seekable_iteration_stops_at_held_slot() {
    let mut pool = SeekablePool::with_capacity(p(Prim::U32), 3);
    let held = pool.lense(1).unwrap();
    {
        let mut it = pool.iter();
        assert_eq!(it.len(), 3);
        let first = it.next().unwrap();
        assert_eq!(first.slot_index(), 0);
        assert_eq!(it.len(), 2);
        assert!(it.next().is_none());
        assert_eq!(it.len(), 0);
        assert!(it.next().is_none());
        it.release(first);
    }
    pool.release(held);
    assert!(!pool.is_locked(0));
}

#[test]
fn pool_iteration_is_exact_size() {
    let pool = AlignedPool::with_capacity(alice(), 4);
    let mut it = Iter::from_aligned_pool(&pool);
    assert_eq!(it.len(), 4);
    let mut left = 4;
    while let Some(lens) = it.next() {
        left -= 1;
        assert_eq!(it.len(), left);
        assert_eq!(lens.offset(0), 15 * (3 - left));
    }
    assert_eq!(left, 0);
    assert_eq!(it.len(), 0);
}

#[test]
fn pool_capacity_rounds_up_to_power_of_two() {
    let pool = AlignedPool::with_capacity(alice(), 3);
    assert_eq!(pool.capacity_records(), 4);
    assert_eq!(pool.len(), 60);
    assert_eq!(pool.as_bytes().len(), 60);
    let small = AlignedPool::with_capacity(p(Prim::U8), 5);
    assert_eq!(small.capacity_records(), 8);
    assert_eq!(small.len(), 8);
    let none = AlignedPool::with_capacity(p(Prim::U16), 0);
    assert_eq!(none.capacity_records(), 1);
    assert_eq!(none.as_bytes().len(), 2);
}

#[test]
fn pool_fill_then_iterate() {
    let mut pool = AlignedPool::with_capacity(alice(), 2);
    assert_eq!(pool.fill(&alice_bytes(3)), 30);
    let mut it = pool.iter();
    let mut n = 0;
    while let Some(lens) = it.next() {
        n += 1;
        assert_eq!(pool.get(&lens, 2), 0x02);
    }
    assert_eq!(n, 2);
}

#[test]
fn pool_iter_mut_writes_records() {
    let mut pool = AlignedPool::with_capacity(p(Prim::U32), 2);
    {
        let mut it = PoolIterMut::from_aligned_pool(&mut pool);
        assert_eq!(it.len(), 2);
        let mut k = 0u64;
        while let Some(lens) = it.next() {
            it.set(&lens, 0, 1000 + k);
            assert_eq!(it.get(&lens, 0), 1000 + k);
            k += 1;
        }
        assert_eq!(k, 2);
    }
    let mut c = Cursor::over(pool.as_bytes());
    let first = pool.record_layout().slice(&mut c);
    let second = pool.record_layout().slice(&mut c);
    assert_eq!(pool.get(&first, 0), 1000);
    assert_eq!(pool.get(&second, 0), 1001);
}

#[test]
fn record_round_trip_through_pool() {
    let mut pool = AlignedPool::with_capacity(alice(), 1);
    let mut c = Cursor::range(0, pool.len());
    let lens = pool.record_layout().slice(&mut c);
    let values: Vec<u64> = vec![0xFF, 1, 2, 3, 4, 5, 6, 0x0102_0304_0506_0708];
    for (i, v) in values.iter().enumerate() {
        pool.set(&lens, i, *v);
    }
    for (i, v) in values.iter().enumerate() {
        assert_eq!(pool.get(&lens, i), *v);
    }
}

#[test]
fn codec_little_and_big_endian() {
    let bytes = [0x34u8, 0x12, 0xAA];
    assert_eq!(decode(ByteOrder::Little, &bytes, 0, 2), 0x1234);
    assert_eq!(decode(ByteOrder::Big, &bytes, 0, 2), 0x3412);
    assert_eq!(decode(ByteOrder::Big, &bytes, 1, 2), 0x12AA);
    assert_eq!(decode(ByteOrder::Little, &bytes, 0, 0), 0);
    let mut v = vec![0u8; 6];
    encode(ByteOrder::Big, &mut v, 1, 4, 0x0102_0304);
    assert_eq!(v, vec![0, 1, 2, 3, 4, 0]);
    encode(ByteOrder::Little, &mut v, 1, 4, 0x0102_0304);
    assert_eq!(v, vec![0, 4, 3, 2, 1, 0]);
    let mut w = vec![0u8; 8];
    encode(ByteOrder::Little, &mut w, 0, 8, u64::MAX);
    assert_eq!(w, vec![0xFF; 8]);
    assert_eq!(decode(ByteOrder::Big, &w, 0, 8), u64::MAX);
}

#[test]
fn native_order_is_host_order() {
    let expect = if u16::from_ne_bytes([1, 0]) == 1 { ByteOrder::Little } else { ByteOrder::Big };
    assert_eq!(native_order(), expect);
    let host = u32::from_ne_bytes([1, 2, 3, 4]) as u64;
    assert_eq!(decode(native_order(), &[1, 2, 3, 4], 0, 4), host);
}

#[test]
fn signed_values_travel_as_bit_patterns() {
    let mut pool = AlignedPool::with_capacity(p(Prim::I16), 1);
    let mut c = Cursor::range(0, pool.len());
    let lens = pool.record_layout().slice(&mut c);
    pool.set(&lens, 0, (-2i16) as u16 as u64);
    assert_eq!(pool.get(&lens, 0) as u16 as i16, -2);
}

#[test]
fn primitive_slices_as_one_leaf() {
    let buf = vec![0u8; 10];
    let mut c = Cursor::range(3, 10);
    let lens = Prim::U32.slice(&mut c);
    assert_eq!(lens.len(), 1);
    assert_eq!(lens.offset(0), 3);
    assert_eq!(c.size(), 3);
    assert_eq!(lens.get(&buf, ByteOrder::Little, 0), 0);
}

#[test]
fn nested_field_is_reachable_through_its_leaves() {
    let buf = alice_bytes(1);
    let order = native_order();
    let layout = alice();
    assert_eq!(layout.field_start(1), 1);
    assert_eq!(layout.field_leaf_count(1), 2);
    assert_eq!(layout.field_start(2), 3);
    assert_eq!(layout.field_leaf_count(2), 4);
    assert_eq!(layout.field_start(3), 7);
    assert_eq!(layout.field_leaf_count(3), 1);
    let mut c = Cursor::over(&buf);
    let lens = layout.slice(&mut c);
    let b = lens.part(layout.field_start(1), layout.field_leaf_count(1));
    assert_eq!(b.len(), 2);
    assert_eq!((b.get(&buf, order, 0), b.get(&buf, order, 1)), (0x01, 0x02));
    let cs = lens.part(layout.field_start(2), layout.field_leaf_count(2));
    let got: Vec<u64> = (0..4).map(|i| cs.get(&buf, order, i)).collect();
    assert_eq!(got, vec![0x03, 0x04, 0x05, 0x06]);
    let arr = Layout::array(&p(Prim::U16), 3);
    assert_eq!(arr.field_start(2), 2);
    assert_eq!(arr.field_leaf_count(2), 1);
}

#[test]
fn seekable_span_is_records_only() {
    let one = SeekablePool::with_capacity(
        Layout::record(&vec![p(Prim::U8), p(Prim::U16), p(Prim::U32), p(Prim::U64)]),
        1,
    );
    assert_eq!(one.as_bytes().len(), 15);
    let three = SeekablePool::with_capacity(alice(), 3);
    assert_eq!(three.as_bytes().len(), 45);
    let pool = AlignedPool::with_capacity(alice(), 1);
    assert_eq!(pool.as_bytes().len(), 15);
}

#[test]
fn iter_over_span_of_three_records() {
    let buf = alice_bytes(3);
    let layout = alice();
    let mut it = Iter::new(&layout, Cursor::over(&buf));
    assert_eq!(it.len(), 3);
    let mut starts = Vec::new();
    while let Some(lens) = it.next() {
        starts.push(lens.offset(0));
        assert_eq!(lens.get(&buf, native_order(), 1), 0x01);
    }
    assert_eq!(starts, vec![0, 15, 30]);
    assert_eq!(it.len(), 0);
    assert!(it.next().is_none());
}

#[test]
fn iter_drops_partial_tail() {
    let mut buf = alice_bytes(3);
    buf.extend_from_slice(&[0xEEu8; 14]);
    let layout = alice();
    let mut it = Iter::new(&layout, Cursor::over(&buf));
    assert_eq!(it.len(), 3);
    let mut n = 0;
    while let Some(_) = it.next() {
        n += 1;
    }
    assert_eq!(n, 3);
    assert_eq!(it.len(), 0);
}

#[test]
fn values_written_through_iter_mut_read_back_through_iter() {
    let mut pool = AlignedPool::with_capacity(p(Prim::U16), 4);
    {
        let mut w = PoolIterMut::from_aligned_pool(&mut pool);
        let first = w.next().unwrap();
        w.set(&first, 0, 12345);
    }
    let mut it = pool.iter();
    let first = it.next().unwrap();
    assert_eq!(first.offset(0), 0);
    assert_eq!(pool.get(&first, 0), 12345);
    let second = it.next().unwrap();
    assert_eq!(pool.get(&second, 0), 0);
}
