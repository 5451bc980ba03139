use bitt::bitfield::{u64_be_bytes, BitField};

#[test]
fn new_rounds_up_to_words_and_is_clear() {
    let b = BitField::new(10);
    assert_eq!(b.len(), 64);
    assert_eq!(b.get_bit(0), 0);
    assert_eq!(b.get_bit(63), 0);
    assert_eq!(BitField::new(0).len(), 0);
    assert_eq!(BitField::new(64).len(), 64);
    assert_eq!(BitField::new(65).len(), 128);
}

#[test]
fn set_then_get() {
    let mut b = BitField::new(128);
    b.set_bit(5, 1);
    b.set_bit(70, 1);
    assert_eq!(b.get_bit(5), 1);
    assert_eq!(b.get_bit(70), 1);
    assert_eq!(b.get_bit(6), 0);
    b.set_bit(5, 0);
    assert_eq!(b.get_bit(5), 0);
    b.set_bit(70, 7);
    assert_eq!(b.get_bit(70), 0);
}

#[test]
fn out_of_range_is_ignored() {
    let mut b = BitField::new(64);
    b.set_bit(64, 1);
    assert_eq!(b.get_bit(64), 0);
    assert_eq!(b.len(), 64);
}

#[test]
fn bytes_are_big_endian_words() {
    let mut b = BitField::new(64);
    b.set_bit(0, 1);
    b.set_bit(63, 1);
    assert_eq!(b.to_vec(), vec![0x80, 0, 0, 0, 0, 0, 0, 0x01]);
}

#[test]
fn from_vec_pads_last_chunk() {
    let b = BitField::from_vec(vec![0x01, 0x02, 0x03]);
    assert_eq!(b.len(), 64);
    assert_eq!(b.to_vec(), vec![1, 2, 3, 0, 0, 0, 0, 0]);
    assert_eq!(b.get_bit(56), 1);
    assert_eq!(b.get_bit(57), 0);
    assert_eq!(b.get_bit(49), 1);
}

#[test]
fn from_vec_of_to_vec() {
    let mut b = BitField::new(200);
    for i in [0usize, 17, 64, 129, 255] {
        b.set_bit(i, 1);
    }
    let c = BitField::from_vec(b.to_vec());
    for i in 0..256 {
        assert_eq!(c.get_bit(i), b.get_bit(i));
    }
    assert_eq!(c.len(), b.len());
    assert_eq!(b.clone().to_vec(), b.to_vec());
}

#[test]
fn empty_field() {
    let b = BitField::from_vec(Vec::new());
    assert_eq!(b.len(), 0);
    assert!(b.to_vec().is_empty());
}

#[test]
fn word_bytes() {
    assert_eq!(u64_be_bytes(0x0102030405060708), vec![1, 2, 3, 4, 5, 6, 7, 8]);
}

#[test]
fn bytes_fit_for_ordinary_sizes() {
    assert!(bitt::bitfield::bytes_fit(0));
    assert!(bitt::bitfield::bytes_fit(1 << 20));
    assert!(!bitt::bitfield::bytes_fit(usize::MAX));
}
