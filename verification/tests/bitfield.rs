use rottenbrit::bitfield::BitField;
use rottenbrit::error::Error;

#[test]
fn new_starts_all_unset() {
    let bf = BitField::new(12);
    assert_eq!(bf.size(), 12);
    for i in 0..12 {
        assert_eq!(bf.get(i), Ok(false));
    }
}

#[test]
fn set_and_get() {
    let mut bf = BitField::new(10);
    assert_eq!(bf.set(3, true), Ok(()));
    assert_eq!(bf.get(3), Ok(true));
    assert_eq!(bf.get(2), Ok(false));
    assert_eq!(bf.set(3, false), Ok(()));
    assert_eq!(bf.get(3), Ok(false));
}

#[test]
fn out_of_range_is_an_error() {
    let mut bf = BitField::new(5);
    assert_eq!(bf.get(5), Err(Error::IndexOutOfRange));
    assert_eq!(bf.set(5, true), Err(Error::IndexOutOfRange));
    assert_eq!(bf.get(1000), Err(Error::IndexOutOfRange));
}

#[test]
fn first_unset_scans_and_wraps() {
    // pieces {0, 1, 3} set out of 5
    let mut bf = BitField::new(5);
    bf.set(0, true).unwrap();
    bf.set(1, true).unwrap();
    bf.set(3, true).unwrap();
    assert_eq!(bf.first_unset_from(0), Some(2));
    assert_eq!(bf.first_unset_from(3), Some(4));
    // the scan starts at the index itself: bit 4 is unset
    assert_eq!(bf.first_unset_from(4), Some(4));
    // with piece 4 set as well, a scan from 3 finds nothing at or after
    // it and wraps to 2
    bf.set(4, true).unwrap();
    assert_eq!(bf.first_unset_from(3), Some(2));
    assert_eq!(bf.first_unset_from(4), Some(2));
}

#[test]
fn first_unset_none_when_full() {
    let mut bf = BitField::new(5);
    for i in 0..5 {
        bf.set(i, true).unwrap();
    }
    for start in 0..5 {
        assert_eq!(bf.first_unset_from(start), None);
    }
}

#[test]
fn padding_bits_never_reported() {
    // 5 pieces leave bits 5..8 of the backing byte as padding; a scan
    // must never name them.
    let mut bf = BitField::new(5);
    for i in 0..5 {
        bf.set(i, true).unwrap();
    }
    for start in 0..5 {
        if let Some(j) = bf.first_unset_from(start) {
            panic!("padding bit {} reported as unset", j);
        }
    }
}

#[test]
fn byte_skip_crosses_full_bytes() {
    let mut bf = BitField::new(20);
    // fill bytes 0 and 1 entirely (bits 0..16), leave 16..20 unset
    for i in 0..16 {
        bf.set(i, true).unwrap();
    }
    assert_eq!(bf.first_unset_from(0), Some(16));
    assert_eq!(bf.first_unset_from(17), Some(17));
}

#[test]
fn unset_within_byte() {
    let mut bf = BitField::new(16);
    bf.set(8, true).unwrap();
    bf.set(9, true).unwrap();
    assert_eq!(bf.get_unset_in_byte(1), Some(2));
    assert_eq!(bf.get_unset_in_byte(0), Some(0));
    for i in 0..8 {
        bf.set(8 + i, true).unwrap();
    }
    assert_eq!(bf.get_unset_in_byte(1), None);
}

#[test]
fn mask_follows_position() {
    let bf = BitField::new(8);
    assert_eq!(bf.get_mask(0), 1);
    assert_eq!(bf.get_mask(3), 8);
    assert_eq!(bf.get_mask(9), 2);
}
