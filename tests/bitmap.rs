use intray::bitmap::BitMap;
use std::collections::HashSet;

#[test]
fn test_get_set() {
    let mut bitmap: Vec<u8> = vec![];
    let idxs: HashSet<usize> = [0, 3, 19, 1023, 1024, 65535, 65536, 65537, 1024768]
        .iter()
        .cloned()
        .collect();
    for &idx in idxs.iter() {
        bitmap.set_bit(idx);
    }
    for idx in 0..(idxs.iter().max().unwrap() + 1024) {
        assert!(bitmap.get_bit(idx) == idxs.contains(&idx));
    }
}

#[test]
fn test_is_set_up_to() {
    let mut bitmap: Vec<u8> = vec![];
    for i in 0..=64 {
        bitmap.set_bit(i);
    }
    assert!(bitmap.is_set_up_to(63));
    assert!(bitmap.is_set_up_to(64));
    assert!(bitmap.is_set_up_to(65));
    assert!(!bitmap.is_set_up_to(66));
}

#[test]
fn test_first_unset() {
    let idxs = [0, 3, 19, 1023, 1024, 65535, 65536, 65537];
    for &idx in idxs.iter() {
        let mut bitmap: Vec<u8> = vec![];
        for i in 0..=idx {
            bitmap.set_bit(i);
        }
        assert!(bitmap.first_unset() == idx + 1);
    }
}

#[test]
fn test_truncate() {
    let mut bitmap: Vec<u8> = vec![];
    bitmap.set_bit(64);
    bitmap.set_bit(65);
    bitmap.set_bit(66);
    assert_eq!(bitmap.len(), 9);
    bitmap.truncate_to_bit(64);
    assert_eq!(bitmap.len(), 9);
    assert_eq!(bitmap[8], 0b1);
}

#[test]
fn get_is_true_exactly_for_set_indices_in_any_order() {
    let mut bitmap: Vec<u8> = vec![];
    let order = [17usize, 2, 40, 2, 9, 0];
    for &i in order.iter() {
        bitmap.set_bit(i);
    }
    for i in 0..64 {
        assert_eq!(bitmap.get_bit(i), order.contains(&i));
    }
    assert_eq!(bitmap.len(), 6);
}

#[test]
fn get_beyond_storage_is_false() {
    let bitmap: Vec<u8> = vec![0xFF];
    assert!(bitmap.get_bit(7));
    assert!(!bitmap.get_bit(8));
    assert!(!bitmap.get_bit(usize::MAX));
}

#[test]
fn set_is_idempotent_and_grows_minimally() {
    let mut bitmap: Vec<u8> = vec![];
    bitmap.set_bit(10);
    bitmap.set_bit(10);
    assert_eq!(bitmap, vec![0, 0b100]);
}

#[test]
fn set_up_to_zero_is_false_by_convention() {
    let bitmap: Vec<u8> = vec![0xFF];
    assert!(!bitmap.is_set_up_to(0));
    let empty: Vec<u8> = vec![];
    assert!(!empty.is_set_up_to(0));
    assert!(!empty.is_set_up_to(1));
}

#[test]
fn set_up_to_sees_a_gap_at_the_end_of_a_byte() {
    let mut bitmap: Vec<u8> = vec![];
    for i in 0..7 {
        bitmap.set_bit(i);
    }
    assert!(bitmap.is_set_up_to(7));
    assert!(!bitmap.is_set_up_to(8));
    bitmap.set_bit(7);
    assert!(bitmap.is_set_up_to(8));
    assert!(!bitmap.is_set_up_to(9));
}

#[test]
fn first_unset_finds_the_smallest_gap() {
    let mut bitmap: Vec<u8> = vec![];
    for i in [0usize, 1, 2, 4, 5, 20].iter() {
        bitmap.set_bit(*i);
    }
    assert_eq!(bitmap.first_unset(), 3);
    let empty: Vec<u8> = vec![];
    assert_eq!(empty.first_unset(), 0);
    let full: Vec<u8> = vec![0xFF, 0xFF];
    assert_eq!(full.first_unset(), 16);
}

#[test]
fn truncate_clears_bits_above_and_shrinks() {
    let mut bitmap: Vec<u8> = vec![0xFF, 0xFF, 0xFF];
    bitmap.truncate_to_bit(10);
    assert_eq!(bitmap, vec![0xFF, 0b0000_0111]);
    let mut bitmap: Vec<u8> = vec![0xFF, 0xFF];
    bitmap.truncate_to_bit(7);
    assert_eq!(bitmap, vec![0xFF]);
    let mut short: Vec<u8> = vec![0x0F];
    short.truncate_to_bit(100);
    assert_eq!(short, vec![0x0F]);
}
