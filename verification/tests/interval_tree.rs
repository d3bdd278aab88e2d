use aoc25::interval_tree::IntervalTree;

#[test]
fn test_itree_simple() {
    let mut itree = IntervalTree::new();

    let _ = itree.insert(5, 10); // 5, 6, 7, 8, 9
    let _ = itree.insert(3, 6); // 3, 4, 5
    let _ = itree.insert(7, 13); // 7, 8, 9, 10, 11, 12
    let _ = itree.insert(14, 18); // 14, 15, 16, 17
    let _ = itree.insert(1, 4); // 1, 2, 3

    assert_eq!(itree.query(2), 1);
    assert_eq!(itree.query(3), 2);
    assert_eq!(itree.query(5), 2);
    assert_eq!(itree.query(8), 2);
    assert_eq!(itree.query(11), 1);
}

#[test]
fn test_itree_count_tracks_successful_insertions() {
    let mut itree = IntervalTree::new();
    assert_eq!(itree.count(), 0);
    assert!(itree.insert(5, 10).is_ok());
    assert!(itree.insert(3, 6).is_ok());
    assert_eq!(itree.count(), 2);
    // An empty interval is rejected and not counted.
    assert!(itree.insert(7, 7).is_err());
    assert!(itree.insert(9, 4).is_err());
    assert_eq!(itree.count(), 2);
    assert_eq!(itree.query(5), 2);
}

#[test]
fn test_itree_outside_points_count_zero() {
    let mut itree = IntervalTree::new();
    let _ = itree.insert(5, 10);
    let _ = itree.insert(3, 6);
    let _ = itree.insert(7, 13);
    let _ = itree.insert(14, 18);
    let _ = itree.insert(1, 4);
    assert_eq!(itree.query(0), 0);
    assert_eq!(itree.query(13), 0);
    assert_eq!(itree.query(18), 0);
    assert_eq!(itree.query(1000), 0);
}

#[test]
fn test_itree_query_is_repeatable() {
    let mut itree = IntervalTree::new();
    let _ = itree.insert(2, 9);
    let _ = itree.insert(4, 5);
    let first = itree.query(4);
    let second = itree.query(4);
    assert_eq!(first, 2);
    assert_eq!(second, 2);
}

#[test]
fn test_itree_duplicates_count_twice() {
    let mut itree = IntervalTree::new();
    let _ = itree.insert(1, 3);
    let _ = itree.insert(1, 3);
    assert_eq!(itree.query(1), 2);
    assert_eq!(itree.query(2), 2);
    assert_eq!(itree.query(3), 0);
    assert_eq!(itree.count(), 2);
}

#[test]
fn test_itree_empty_tree() {
    let itree = IntervalTree::new();
    assert_eq!(itree.query(0), 0);
    assert_eq!(itree.count(), 0);
}
