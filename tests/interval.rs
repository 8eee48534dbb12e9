use antlr4_rust::Interval;

#[test]
fn interval_test_interval() {
    let x = Interval::new(1, 5);
    assert_eq!("1..5".to_string(), x.string());

    for i in 1..5 {
        assert!(x.contains(i));
    }
    assert!(!x.contains(6));
}

#[test]
fn lib_test_interval() {
    let x = Interval::new(1, 5).string();
    assert_eq!("1..5".to_string(), x.to_string());
}

#[test]
fn it_works() {
    assert_eq!(2 + 2, 4);
}

#[test]
fn test_set_stuff() {
    let x = Interval::new(1, 5);
    let y = Interval::new(6, 10);
    let z = Interval::new(2, 6);

    assert!(x.starts_before_disjoint(&y));
    assert!(x.starts_before_non_disjoint(&z));
    assert!(!y.starts_before_non_disjoint(&z));
}

#[test]
fn interval_text_single_and_negative() {
    assert_eq!(Interval::new(7, 7).string(), "7");
    assert_eq!(Interval::new(-12, -3).string(), "-12..-3");
    assert_eq!(Interval::new(i32::MIN, i32::MAX).string(), "-2147483648..2147483647");
}

#[test]
fn interval_length_is_inclusive() {
    assert_eq!(Interval::new(1, 5).length(), 5);
    assert_eq!(Interval::new(3, 3).length(), 1);
    assert_eq!(Interval::new(5, 1).length(), 0);
    assert_eq!(Interval::new(i32::MIN, i32::MAX).length(), 4294967296);
}

#[test]
fn interval_relations() {
    let a = Interval::new(0, 41);
    let b = Interval::new(42, 42);
    assert!(a.adjacent(&b));
    assert!(b.adjacent(&a));
    assert!(a.disjoint(&b));
    assert!(!a.adjacent(&Interval::new(43, 50)));
    assert!(!a.disjoint(&Interval::new(41, 50)));
    assert!(Interval::new(1, 10).properly_contains(&Interval::new(3, 5)));
    assert!(Interval::new(1, 10).properly_contains(&Interval::new(1, 10)));
    assert!(!Interval::new(3, 5).properly_contains(&Interval::new(1, 10)));
    assert!(Interval::new(5, 8).starts_after(&Interval::new(1, 2)));
    assert!(Interval::new(5, 8).starts_after_disjoint(&Interval::new(1, 4)));
    assert!(Interval::new(5, 8).starts_after_non_disjoint(&Interval::new(1, 6)));
    assert!(!Interval::new(5, 8).starts_after_non_disjoint(&Interval::new(1, 4)));
    assert!(Interval::new(i32::MAX, i32::MAX).adjacent(&Interval::new(0, i32::MAX - 1)));
}

#[test]
fn interval_union_and_intersection() {
    assert_eq!(Interval::new(1, 4).union(&Interval::new(5, 9)), Interval::new(1, 9));
    assert_eq!(Interval::new(1, 4).union(&Interval::new(8, 9)), Interval::new(1, 9));
    assert_eq!(Interval::new(1, 10).intersection(&Interval::new(5, 15)), Interval::new(5, 10));
    assert_eq!(Interval::new(1, 3).intersection(&Interval::new(5, 15)), Interval::new(5, 3));
}

#[test]
fn interval_difference() {
    let s = Interval::new(5, 10);
    assert_eq!(s.difference_not_properly_contained(&Interval::new(1, 7)), Some(Interval::new(8, 10)));
    assert_eq!(s.difference_not_properly_contained(&Interval::new(8, 12)), Some(Interval::new(5, 7)));
    assert_eq!(s.difference_not_properly_contained(&Interval::new(11, 12)), None);
    assert_eq!(s.difference_not_properly_contained(&Interval::new(1, 3)), None);
    let r = s.difference_not_properly_contained(&Interval::new(1, i32::MAX)).unwrap();
    assert_eq!(r.length(), 0);
}
