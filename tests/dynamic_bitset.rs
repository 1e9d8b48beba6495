use huffman_codec::dynamic_bitset::{BitsetError, DynamicBitset as DBS, InfoMut};

#[test]
fn basic() {
    let mut a = DBS::from_text("001011");
    assert_eq!(a.to_text(), "001011");

    let b = DBS::from_text("001011010");
    assert_eq!(b.to_text(), "001011010");

    for c in "010".chars() {
        a.push(c != '0');
    }
    assert_eq!(a.to_text(), "001011010");
    assert_eq!(a, b);

    for _ in 0..3 {
        a.pop().unwrap();
    }
    assert_eq!(a.to_text(), "001011");
    assert_ne!(a, b);
    assert_eq!(a, DBS::from_text("001011"));
}

#[test]
fn chunk_serialize_deserialize() {
    let a = DBS::from_text("001011");
    let buf = a.to_bytes();
    let b = DBS::from_bytes(&buf[..]).unwrap();

    assert_eq!(b.to_text(), "001011");
}

#[test]
fn text_round_trip_across_units() {
    let s = "10110011100011110000101";
    assert_eq!(DBS::from_text(s).to_text(), s);
    assert_eq!(DBS::from_text("").to_text(), "");
}

#[test]
fn other_characters_read_as_zero() {
    let a = DBS::from_text("1x2 1");
    assert_eq!(a.to_text(), "10001");
}

#[test]
fn bytes_round_trip_keeps_equality() {
    for s in ["", "1", "0000000", "11111111", "101010101", "1111111100000000", "10000000011"] {
        let a = DBS::from_text(s);
        let b = DBS::from_bytes(&a.to_bytes()).unwrap();
        assert_eq!(a, b);
        assert_eq!(b.to_text(), s);
    }
}

#[test]
fn push_then_pop_restores() {
    for s in ["", "1011", "10110110", "101101101"] {
        for bit in [false, true] {
            let before = DBS::from_text(s);
            let mut a = before.clone();
            a.push(bit);
            a.pop().unwrap();
            assert_eq!(a, before);
            assert_eq!(a.for_each_unit(), before.for_each_unit());
        }
    }
}

#[test]
fn popped_bits_are_cleared() {
    let mut a = DBS::from_text("1111111111");
    assert_eq!(a.for_each_unit(), vec![0xff, 0x03]);
    a.pop().unwrap();
    assert_eq!(a.for_each_unit(), vec![0xff, 0x01]);
    a.pop().unwrap();
    assert_eq!(a.for_each_unit(), vec![0xff]);
    a.pop().unwrap();
    assert_eq!(a.for_each_unit(), vec![0x7f]);
    for _ in 0..7 {
        a.pop().unwrap();
    }
    assert_eq!(a.for_each_unit(), vec![0x00]);
    assert_eq!(a, DBS::default());
}

#[test]
fn pop_on_empty_underflows() {
    let mut a = DBS::default();
    assert_eq!(a.pop(), Err(BitsetError::Underflow));
    assert_eq!(a.to_text(), "");
    a.push(true);
    assert_eq!(a.pop(), Ok(()));
    assert_eq!(a.pop(), Err(BitsetError::Underflow));
}

#[test]
fn back_reads_last_bit() {
    let mut a = DBS::from_text("0010110");
    assert!(!a.back());
    a.push(true);
    assert!(a.back());
    a.push(false);
    assert!(!a.back());
    a.pop().unwrap();
    assert!(a.back());
}

#[test]
fn units_grow_and_shrink_at_boundaries() {
    let mut a = DBS::new();
    for _ in 0..8 {
        a.push(true);
    }
    assert_eq!(*a.get_info().n_unit, 1);
    a.push(false);
    let info = a.get_info();
    assert_eq!((*info.n_bit, *info.n_unit, *info.curr_i_unit), (9, 2, 1));
    a.pop().unwrap();
    let info = a.get_info();
    assert_eq!((*info.n_bit, *info.n_unit, *info.curr_i_unit), (8, 1, 0));
}

#[test]
fn empty_buffer_serialized_form() {
    let buf = DBS::default().to_bytes();
    let mut expected = vec![0u8; 24];
    expected[8] = 1;
    expected.push(0);
    assert_eq!(buf, expected);
}

#[test]
fn serialized_layout_is_little_endian() {
    let a = DBS::from_text("101100001");
    let buf = a.to_bytes();
    assert_eq!(buf.len(), 26);
    assert_eq!(&buf[0..8], &[9, 0, 0, 0, 0, 0, 0, 0]);
    assert_eq!(&buf[8..16], &[2, 0, 0, 0, 0, 0, 0, 0]);
    assert_eq!(&buf[16..24], &[1, 0, 0, 0, 0, 0, 0, 0]);
    assert_eq!(&buf[24..], &[0x0d, 0x01]);
}

#[test]
fn malformed_bytes_are_rejected() {
    let good = DBS::from_text("101100001").to_bytes();
    assert!(DBS::from_bytes(&good).is_ok());
    // truncated header
    assert_eq!(DBS::from_bytes(&good[..20]), Err(BitsetError::Malformed));
    // truncated storage
    assert_eq!(DBS::from_bytes(&good[..25]), Err(BitsetError::Malformed));
    // oversized storage
    let mut long = good.clone();
    long.push(0);
    assert_eq!(DBS::from_bytes(&long), Err(BitsetError::Malformed));
    // unit count that does not match the bit count
    let mut bad = good.clone();
    bad[0] = 20;
    assert_eq!(DBS::from_bytes(&bad), Err(BitsetError::Malformed));
    // wrong index of the last unit
    let mut bad = good.clone();
    bad[16] = 0;
    assert_eq!(DBS::from_bytes(&bad), Err(BitsetError::Malformed));
    // a set bit past the bit count
    let mut bad = good.clone();
    bad[25] = 0x03;
    assert_eq!(DBS::from_bytes(&bad), Err(BitsetError::Malformed));
}

#[test]
fn bits_and_units_in_order() {
    let a = DBS::from_bools(vec![true, false, true, true, false, false, false, false, true]);
    assert_eq!(a.to_text(), "101100001");
    assert_eq!(
        a.for_each_bit(),
        vec![true, false, true, true, false, false, false, false, true]
    );
    assert_eq!(a.for_each_unit(), vec![0x0d, 0x01]);
}

#[test]
fn info_round_trip() {
    let mut a = DBS::from_text("1011");
    let mut info: InfoMut = a.get_info_mut();
    assert_eq!((info.n_bit, info.n_unit, info.curr_i_unit), (4, 1, 0));
    info.n_bit = 6;
    a.sync_with_info(&info);
    assert_eq!(a.to_text(), "101100");
}

#[test]
fn text_built_storage_is_packed() {
    let b = DBS::from_text("001011010");
    assert_eq!(b.for_each_unit(), vec![0xB4, 0x00]);
    let mut expected = Vec::new();
    expected.extend_from_slice(&9u64.to_le_bytes());
    expected.extend_from_slice(&2u64.to_le_bytes());
    expected.extend_from_slice(&1u64.to_le_bytes());
    expected.extend_from_slice(&[0xB4, 0x00]);
    assert_eq!(b.to_bytes(), expected);
}

#[test]
fn hand_written_header_reads_back() {
    let mut buf = Vec::new();
    buf.extend_from_slice(&6u64.to_le_bytes());
    buf.extend_from_slice(&1u64.to_le_bytes());
    buf.extend_from_slice(&0u64.to_le_bytes());
    buf.push(0x34);
    let b = DBS::from_bytes(&buf).unwrap();
    assert_eq!(b, DBS::from_text("001011"));
    assert_eq!(b.to_text(), "001011");
}
