use onebrc_rust::values::Values;

#[test]
fn new_values_hold_the_reading() {
    let v = Values::new(123);
    assert_eq!(v.min(), 123);
    assert_eq!(v.max(), 123);
    assert_eq!(v.count(), 1);
    assert_eq!(v.sum(), 123);
}

#[test]
fn add_tracks_min_max_count_and_sum() {
    let mut v = Values::new(123);
    v.add(70);
    v.add(-45);
    assert_eq!(v.min(), -45);
    assert_eq!(v.max(), 123);
    assert_eq!(v.count(), 3);
    assert_eq!(v.sum(), 148);
}

#[test]
fn add_of_an_equal_reading_counts_it() {
    let mut v = Values::new(5);
    v.add(5);
    assert_eq!((v.min(), v.max(), v.count(), v.sum()), (5, 5, 2, 10));
}

#[test]
fn extend_merges_both_sides() {
    let mut a = Values::new(10);
    a.add(30);
    let mut b = Values::new(-7);
    b.add(20);
    b.add(4);
    a.extend(b);
    assert_eq!((a.min(), a.max(), a.count(), a.sum()), (-7, 30, 5, 57));
}

#[test]
fn extend_is_commutative() {
    let mut a = Values::new(10);
    a.add(30);
    let mut b = Values::new(-7);
    b.add(20);
    let mut ab = a;
    ab.extend(b);
    let mut ba = b;
    ba.extend(a);
    assert_eq!((ab.min(), ab.max(), ab.count(), ab.sum()), (ba.min(), ba.max(), ba.count(), ba.sum()));
}

#[test]
fn extend_is_associative() {
    let a = Values::new(1);
    let b = Values::new(-9);
    let c = Values::new(40);
    let mut left = a;
    left.extend(b);
    left.extend(c);
    let mut bc = b;
    bc.extend(c);
    let mut right = a;
    right.extend(bc);
    assert_eq!(
        (left.min(), left.max(), left.count(), left.sum()),
        (right.min(), right.max(), right.count(), right.sum())
    );
    assert_eq!((left.min(), left.max(), left.count(), left.sum()), (-9, 40, 3, 32));
}

#[test]
fn can_add_refuses_a_sum_out_of_range() {
    let v = Values::new(i64::MAX);
    assert!(!v.can_add(1));
    assert!(v.can_add(0));
    assert!(v.can_add(-1));
    let w = Values::new(i64::MIN);
    assert!(!w.can_add(-1));
    assert!(w.can_add(1));
}

#[test]
fn can_extend_refuses_a_sum_out_of_range() {
    let a = Values::new(i64::MAX);
    let b = Values::new(1);
    let c = Values::new(-1);
    assert!(!a.can_extend(&b));
    assert!(a.can_extend(&c));
}
