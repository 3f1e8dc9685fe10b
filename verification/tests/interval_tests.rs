use charset::interval::IntervalSet;

fn ranges_of(s: &IntervalSet) -> Vec<(u32, u32)> {
    let mut out = Vec::new();
    let mut i = 0;
    while i < s.num_ranges() {
        out.push(s.range_at(i));
        i += 1;
    }
    out
}

#[test]
fn engine_starts_empty() {
    let s = IntervalSet::new();
    assert!(s.is_empty());
    assert_eq!(s.num_ranges(), 0);
}

#[test]
fn engine_insert_merges_overlap() {
    let mut s = IntervalSet::new();
    s.insert_range(10, 20);
    s.insert_range(15, 30);
    assert_eq!(ranges_of(&s), vec![(10, 30)]);
}

#[test]
fn engine_insert_merges_adjacency() {
    let mut s = IntervalSet::new();
    s.insert_range(10, 20);
    s.insert_range(21, 30);
    assert_eq!(ranges_of(&s), vec![(10, 30)]);
}

#[test]
fn engine_insert_keeps_gap() {
    let mut s = IntervalSet::new();
    s.insert_range(10, 20);
    s.insert_range(22, 30);
    assert_eq!(ranges_of(&s), vec![(10, 20), (22, 30)]);
}

#[test]
fn engine_insert_absorbs_many() {
    let mut s = IntervalSet::new();
    s.insert_range(1, 2);
    s.insert_range(5, 6);
    s.insert_range(9, 10);
    s.insert_range(40, 50);
    s.insert_range(3, 20);
    assert_eq!(ranges_of(&s), vec![(1, 20), (40, 50)]);
}

#[test]
fn engine_single_insert_bridges() {
    let mut s = IntervalSet::new();
    assert!(s.insert(7));
    assert!(s.insert(9));
    assert_eq!(ranges_of(&s), vec![(7, 7), (9, 9)]);
    assert!(s.insert(8));
    assert_eq!(ranges_of(&s), vec![(7, 9)]);
    assert!(!s.insert(8));
}

#[test]
fn engine_remove_truncates_and_deletes() {
    let mut s = IntervalSet::new();
    s.insert_range(1, 10);
    s.insert_range(20, 30);
    s.insert_range(40, 50);
    s.remove_range(8, 45);
    assert_eq!(ranges_of(&s), vec![(1, 7), (46, 50)]);
}

#[test]
fn engine_remove_splits_inside() {
    let mut s = IntervalSet::new();
    s.insert_range(1, 100);
    s.remove_range(40, 60);
    assert_eq!(ranges_of(&s), vec![(1, 39), (61, 100)]);
}

#[test]
fn engine_remove_absent_is_noop() {
    let mut s = IntervalSet::new();
    s.insert_range(10, 20);
    s.remove_range(30, 40);
    assert_eq!(ranges_of(&s), vec![(10, 20)]);
    assert!(!s.remove(25));
    assert!(s.remove(15));
    assert_eq!(ranges_of(&s), vec![(10, 14), (16, 20)]);
}

#[test]
fn engine_handles_domain_extremes() {
    let mut s = IntervalSet::new();
    s.insert_range(0, 5);
    s.insert_range(u32::MAX - 5, u32::MAX);
    assert_eq!(ranges_of(&s), vec![(0, 5), (u32::MAX - 5, u32::MAX)]);
    s.insert(0);
    s.insert(u32::MAX);
    assert_eq!(ranges_of(&s), vec![(0, 5), (u32::MAX - 5, u32::MAX)]);
    s.remove_range(0, u32::MAX);
    assert!(s.is_empty());
}

#[test]
fn engine_from_range_and_contains() {
    let s = IntervalSet::from_range(3, 9);
    assert_eq!(ranges_of(&s), vec![(3, 9)]);
    assert!(s.contains_val(3));
    assert!(s.contains_val(9));
    assert!(!s.contains_val(2));
    assert!(!s.contains_val(10));
}

#[test]
fn engine_clear_empties() {
    let mut s = IntervalSet::from_range(3, 9);
    s.clear();
    assert!(s.is_empty());
    assert_eq!(s.num_ranges(), 0);
}
