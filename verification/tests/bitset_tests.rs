use flood_graph::bitset::BitSet;

#[test]
fn empty_bitset_has_no_members() {
    let b = BitSet::new();
    assert_eq!(b.count_ones(), 0);
    assert!(!b.any());
    assert_eq!(b.array_size(), 3);
    assert_eq!(b.element_bit_size(), 64);
}

#[test]
fn set_and_contains_across_words() {
    let mut b = BitSet::new();
    b.set(0);
    b.set(63);
    b.set(64);
    b.set(191);
    assert!(b.contains(0));
    assert!(b.contains(63));
    assert!(b.contains(64));
    assert!(b.contains(191));
    assert!(!b.contains(1));
    assert!(!b.contains(65));
    assert_eq!(b.count_ones(), 4);
    assert!(b.any());
}

#[test]
fn set_twice_is_one_member() {
    let mut b = BitSet::new();
    b.set(5);
    b.set(5);
    assert_eq!(b.count_ones(), 1);
}

#[test]
fn reset_removes_a_member() {
    let mut b = BitSet::new();
    b.set(10);
    b.set(20);
    b.reset(10);
    assert!(!b.contains(10));
    assert!(b.contains(20));
    assert_eq!(b.count_ones(), 1);
}

#[test]
fn check_bounds_matches_capacity() {
    let b = BitSet::new();
    assert!(b.check_bounds(0));
    assert!(b.check_bounds(191));
    assert!(!b.check_bounds(192));
    assert!(!b.check_bounds(usize::MAX));
}

#[test]
fn union_difference_intersection() {
    let mut a = BitSet::new();
    a.set(1);
    a.set(2);
    a.set(5);
    let mut b = BitSet::new();
    b.set(2);
    b.set(7);

    let u = a.union(&b);
    assert_eq!(u.count_ones(), 4);
    assert!(u.contains(1) && u.contains(2) && u.contains(5) && u.contains(7));

    let i = a.intersection(&b);
    assert_eq!(i.count_ones(), 1);
    assert!(i.contains(2));

    let d = a.difference(&b);
    assert_eq!(d.count_ones(), 2);
    assert!(d.contains(1) && d.contains(5));
    assert!(!d.contains(2));
}

#[test]
fn iterator_walks_members_in_order() {
    let mut b = BitSet::new();
    b.set(3);
    b.set(64);
    b.set(100);
    let mut it = b.iter_ones();
    assert_eq!(it.next(), Some(3));
    assert_eq!(it.next(), Some(64));
    assert_eq!(it.next(), Some(100));
    assert_eq!(it.next(), None);
}

#[test]
fn iterator_on_empty_set_is_done_at_once() {
    let b = BitSet::new();
    let mut it = b.iter_ones();
    assert_eq!(it.next(), None);
}
