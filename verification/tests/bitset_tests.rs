use async_executors_ext::bitset::{Bitset, BITSET_SIZE};

#[test]
fn new_bitset_is_empty() {
    let b = Bitset::new();
    assert_eq!(b.get_count(), 0);
    for i in 0..BITSET_SIZE as u32 {
        assert!(!b.is_set(i));
    }
}

#[test]
fn set_counts_once() {
    let mut b = Bitset::new();
    b.set(3);
    assert!(b.is_set(3));
    assert_eq!(b.get_count(), 1);
    b.set(3);
    assert_eq!(b.get_count(), 1);
    b.set(127);
    assert_eq!(b.get_count(), 2);
    assert!(!b.is_set(4));
}

#[test]
fn unset_reports_previous_flag() {
    let mut b = Bitset::new();
    b.set(10);
    assert!(b.unset(10));
    assert!(!b.is_set(10));
    assert_eq!(b.get_count(), 0);
    assert!(!b.unset(10));
    assert_eq!(b.get_count(), 0);
}

#[test]
fn set_then_unset_restores() {
    let mut b = Bitset::new();
    b.set(1);
    b.set(2);
    b.unset(2);
    assert_eq!(b.get_count(), 1);
    assert!(b.is_set(1));
    assert!(!b.is_set(2));
}

#[test]
fn clear_sets_every_flag_and_zeroes_count() {
    let mut b = Bitset::new();
    b.set(5);
    b.clear();
    assert_eq!(b.get_count(), 0);
    for i in 0..BITSET_SIZE as u32 {
        assert!(b.is_set(i));
    }
}

#[test]
fn unset_after_clear_wraps_counter() {
    let mut b = Bitset::new();
    b.clear();
    assert!(b.unset(7));
    assert_eq!(b.get_count(), usize::MAX);
    b.set(7);
    assert_eq!(b.get_count(), 0);
}
