use antlr4_rust::{subtract_intervalsets, Interval, IntervalSet, IntervalSetError, TokenType};

fn set_of(pairs: &[(i32, i32)]) -> IntervalSet {
    let mut v = Vec::new();
    for &(a, b) in pairs {
        v.push(Interval::new(a, b));
    }
    IntervalSet::new_from_intervals(v)
}

fn bounds(s: &IntervalSet) -> Vec<(i32, i32)> {
    s.intervals().iter().map(|iv| (iv.a, iv.b)).collect()
}

#[test]
fn test_interval_set_merge() {
    let vs = vec![Interval::new(1, 4), Interval::new(7, 8)];
    let mut iset = IntervalSet::new_from_intervals(vs);
    let z = Interval::new(2, 6);
    assert!(iset.add(z).is_ok());
    assert_eq!(iset.intervals().len(), 1);
    assert_eq!(iset.intervals()[0], Interval::new(1, 8));
}

#[test]
fn test_interval_set_extended_merge() {
    let vs = vec![
        Interval::new(1, 4),
        Interval::new(7, 8),
        Interval::new(10, 12),
    ];
    let mut iset = IntervalSet::new_from_intervals(vs);
    let z = Interval::new(2, 13);
    assert!(iset.add(z).is_ok());
    assert_eq!(iset.intervals().len(), 1);
    assert_eq!(iset.intervals()[0], Interval::new(1, 13));
}

#[test]
fn test_interval_set_middle() {
    let vs = vec![Interval::new(1, 4), Interval::new(10, 12)];
    let mut iset = IntervalSet::new_from_intervals(vs);
    let z = Interval::new(6, 8);
    assert!(iset.add(z).is_ok());
    assert_eq!(iset.intervals().len(), 3);
    assert_eq!(iset.intervals()[0], Interval::new(1, 4));
    assert_eq!(iset.intervals()[1], Interval::new(6, 8));
    assert_eq!(iset.intervals()[2], Interval::new(10, 12));
}

#[test]
fn test_interval_set_first() {
    let vs = vec![Interval::new(4, 5), Interval::new(10, 12)];
    let mut iset = IntervalSet::new_from_intervals(vs);
    let z = Interval::new(1, 2);
    assert!(iset.add(z).is_ok());
    assert_eq!(iset.intervals().len(), 3);
    assert_eq!(iset.intervals()[0], Interval::new(1, 2));
    assert_eq!(iset.intervals()[1], Interval::new(4, 5));
    assert_eq!(iset.intervals()[2], Interval::new(10, 12));
}

#[test]
fn add_keeps_sorted_and_apart() {
    let mut s = IntervalSet::new();
    for &(a, b) in &[(20, 25), (1, 3), (10, 12), (5, 6), (13, 14), (4, 4), (30, 30), (26, 29)] {
        assert!(s.add(Interval::new(a, b)).is_ok());
    }
    assert_eq!(bounds(&s), vec![(1, 6), (10, 14), (20, 30)]);
    for w in s.intervals().windows(2) {
        assert!(w[0].b + 1 < w[1].a);
    }
}

#[test]
fn add_to_empty_and_at_end() {
    let mut s = IntervalSet::new();
    assert!(s.add(Interval::new(3, 4)).is_ok());
    assert!(s.add(Interval::new(9, 9)).is_ok());
    assert_eq!(bounds(&s), vec![(3, 4), (9, 9)]);
    assert!(s.add(Interval::new(7, 5)).is_ok());
    assert_eq!(bounds(&s), vec![(3, 4), (9, 9)]);
}

#[test]
fn add_covered_interval_is_unchanged() {
    let mut s = set_of(&[(1, 10), (20, 30)]);
    assert!(s.add(Interval::new(3, 7)).is_ok());
    assert!(s.add(Interval::new(20, 30)).is_ok());
    assert_eq!(bounds(&s), vec![(1, 10), (20, 30)]);
}

#[test]
fn new_from_unsorted_intervals_normalises() {
    let s = set_of(&[(10, 12), (1, 2), (3, 5), (11, 20)]);
    assert_eq!(bounds(&s), vec![(1, 5), (10, 20)]);
}

#[test]
fn union_commutes() {
    let a = set_of(&[(1, 3), (8, 9), (15, 20)]);
    let b = set_of(&[(4, 6), (9, 12), (30, 31)]);
    let mut ab = set_of(&[(1, 3), (8, 9), (15, 20)]);
    assert!(ab.add_set(&b).is_ok());
    let mut ba = set_of(&[(4, 6), (9, 12), (30, 31)]);
    assert!(ba.add_set(&a).is_ok());
    assert_eq!(bounds(&ab), bounds(&ba));
    assert_eq!(bounds(&ab), vec![(1, 6), (8, 12), (15, 20), (30, 31)]);
}

#[test]
fn size_matches_integer_list() {
    let s = set_of(&[(1, 3), (7, 7), (10, 14)]);
    assert_eq!(s.size(), 9);
    assert_eq!(s.to_integer_list(), vec![1, 2, 3, 7, 10, 11, 12, 13, 14]);
    assert_eq!(s.size() as usize, s.to_integer_list().len());
    assert_eq!(set_of(&[(-2, 2)]).size(), 5);
    assert_eq!(IntervalSet::new().size(), 0);
    assert_eq!(set_of(&[(i32::MIN, i32::MAX)]).size(), 4294967296);
}

#[test]
fn complement_equals_subtract() {
    let universe = set_of(&[(0, 20)]);
    let s = set_of(&[(3, 5), (10, 25)]);
    let c = s.complement(&universe).unwrap();
    let d = universe.subtract(&s);
    assert_eq!(bounds(&c), bounds(&d));
    assert_eq!(bounds(&c), vec![(0, 2), (6, 9)]);
    assert!(s.complement(&IntervalSet::new()).is_none());
}

#[test]
fn complement_range_of_set() {
    let s = set_of(&[(3, 5)]);
    let c = s.complement_range(1, 8).unwrap();
    assert_eq!(bounds(&c), vec![(1, 2), (6, 8)]);
    assert!(s.complement_range(8, 1).is_none());
}

#[test]
fn contains_agrees_with_list() {
    let s = set_of(&[(-5, -3), (1, 3), (7, 7), (10, 14), (100, 200)]);
    let list = s.to_integer_list();
    for x in -10..210 {
        assert_eq!(s.contains(x), list.contains(&x), "at {}", x);
    }
    assert!(!IntervalSet::new().contains(0));
    assert!(!s.contains(i32::MIN));
    assert!(!s.contains(i32::MAX));
}

#[test]
fn subtract_splits_interval() {
    let left = set_of(&[(1, 10)]);
    let right = set_of(&[(3, 5)]);
    let r = subtract_intervalsets(&left, &right);
    assert_eq!(bounds(&r), vec![(1, 2), (6, 10)]);
}

#[test]
fn subtract_edges_and_whole() {
    let left = set_of(&[(1, 10), (20, 30), (40, 50)]);
    let right = set_of(&[(0, 2), (8, 22), (25, 26), (40, 50)]);
    let r = left.subtract(&right);
    assert_eq!(bounds(&r), vec![(3, 7), (23, 24), (27, 30)]);
    assert_eq!(bounds(&left.subtract(&IntervalSet::new())), bounds(&left));
    assert!(IntervalSet::new().subtract(&left).is_empty());
}

#[test]
fn and_intersects() {
    let a = set_of(&[(1, 10)]);
    let b = set_of(&[(5, 15)]);
    let r = a.and(&Some(&b)).unwrap();
    assert_eq!(bounds(&r), vec![(5, 10)]);
    assert!(a.and(&None).is_none());
}

#[test]
fn and_with_containment_both_ways() {
    let a = set_of(&[(1, 3), (5, 20), (30, 40)]);
    let b = set_of(&[(2, 8), (10, 12), (15, 35)]);
    let r = a.and(&Some(&b)).unwrap();
    assert_eq!(bounds(&r), vec![(2, 3), (5, 8), (10, 12), (15, 20), (30, 35)]);
    let r2 = b.and(&Some(&a)).unwrap();
    assert_eq!(bounds(&r2), bounds(&r));
}

#[test]
fn first_and_extremes() {
    let s = set_of(&[(4, 6), (9, 12)]);
    assert_eq!(s.first(), Ok(4));
    assert_eq!(s.get_min_element(), Some(4));
    assert_eq!(s.get_max_element(), Some(12));
    let e = IntervalSet::new();
    assert_eq!(e.first(), Err(TokenType::InvalidType));
    assert_eq!(e.get_min_element(), None);
    assert_eq!(e.get_max_element(), None);
    assert!(e.is_empty());
    assert!(!s.is_empty());
}

#[test]
fn of_builds_sets() {
    let mut s = IntervalSet::new();
    s.of(1, 3).of(5, 6).of(4, 4);
    s.of_same(9);
    assert_eq!(bounds(&s), vec![(1, 6), (9, 9)]);
}

#[test]
fn read_only_refuses_changes() {
    let mut s = set_of(&[(1, 3)]);
    s.set_read_only(true);
    s.set_read_only(true);
    assert_eq!(s.add(Interval::new(5, 6)), Err(IntervalSetError::CantAlterReadOnly));
    assert_eq!(s.add_set(&set_of(&[(8, 9)])), Err(IntervalSetError::CantAlterReadOnly));
    assert_eq!(s.remove(2), Err(IntervalSetError::CantAlterReadOnly));
    assert!(s.clear().is_err());
    s.of(10, 11);
    assert_eq!(bounds(&s), vec![(1, 3)]);
}

#[test]
fn clear_and_remove() {
    let mut s = set_of(&[(1, 5), (8, 9)]);
    assert_eq!(s.remove(3), Ok(()));
    assert_eq!(bounds(&s), vec![(1, 2), (4, 5), (8, 9)]);
    assert_eq!(s.remove(8), Ok(()));
    assert_eq!(s.remove(100), Ok(()));
    assert_eq!(bounds(&s), vec![(1, 2), (4, 5), (9, 9)]);
    assert!(s.clear().is_ok());
    assert!(s.is_empty());
}

#[test]
fn set_text() {
    let s = set_of(&[(1, 4), (6, 6), (10, 12)]);
    assert_eq!(s.string(), "[1..4, 6, 10..12]");
    assert_eq!(IntervalSet::new().string(), "[]");
    assert_eq!(set_of(&[(-3, -1)]).string(), "[-3..-1]");
}
