use bible_reading_progress::range_query::RangeMap;

#[test]
fn split_and_merge() {
    let mut rm = RangeMap::new();
    rm.insert_replace(2..4, "B");

    // merge function: choose the new value
    rm.insert_with(1..3, "A", |_old: &&str, new: &&str| *new);

    let v = rm.iter();
    assert_eq!(v, vec![(1, 3, "A"), (3, 4, "B")]);
}

#[test]
fn empty_map() {
    let rm = RangeMap::<i32, &str>::new();
    let v = rm.iter();
    assert_eq!(v, vec![]);
}

#[test]
fn single_insertion() {
    let mut rm = RangeMap::new();
    rm.insert_replace(0..10, "A");
    let v = rm.iter();
    assert_eq!(v, vec![(0, 10, "A")]);
}

#[test]
fn non_overlapping_insertions() {
    let mut rm = RangeMap::new();
    rm.insert_replace(0..5, "A");
    rm.insert_replace(10..15, "B");
    rm.insert_replace(20..25, "C");
    let v = rm.iter();
    assert_eq!(v, vec![(0, 5, "A"), (10, 15, "B"), (20, 25, "C")]);
}

#[test]
fn adjacent_ranges() {
    let mut rm = RangeMap::new();
    rm.insert_replace(0..5, "A");
    rm.insert_replace(5..10, "B");
    let v = rm.iter();
    assert_eq!(v, vec![(0, 5, "A"), (5, 10, "B")]);
}

#[test]
fn overlapping_replace() {
    let mut rm = RangeMap::new();
    rm.insert_replace(0..10, "A");
    rm.insert_replace(5..15, "B");
    let v = rm.iter();
    assert_eq!(v, vec![(0, 5, "A"), (5, 15, "B")]);
}

#[test]
fn complete_overlap_replace() {
    let mut rm = RangeMap::new();
    rm.insert_replace(5..10, "A");
    rm.insert_replace(0..20, "B");
    let v = rm.iter();
    assert_eq!(v, vec![(0, 20, "B")]);
}

#[test]
fn multiple_overlaps_replace() {
    let mut rm = RangeMap::new();
    rm.insert_replace(0..5, "A");
    rm.insert_replace(10..15, "B");
    rm.insert_replace(20..25, "C");
    rm.insert_replace(3..22, "D");
    let v = rm.iter();
    assert_eq!(v, vec![(0, 3, "A"), (3, 22, "D"), (22, 25, "C")]);
}

#[test]
fn merge_same_values() {
    let mut rm = RangeMap::new();
    rm.insert_replace(0..5, "A");
    rm.insert_replace(5..10, "A"); // Same value, should merge
    let v = rm.iter();
    assert_eq!(v, vec![(0, 10, "A")]);
}

#[test]
fn merge_same_values_overlapping() {
    let mut rm = RangeMap::new();
    rm.insert_replace(0..5, "A");
    rm.insert_replace(3..8, "A"); // Same value, overlapping, should merge
    let v = rm.iter();
    assert_eq!(v, vec![(0, 8, "A")]);
}

#[test]
fn merge_with_function() {
    let mut rm = RangeMap::new();
    rm.insert_replace(0..10, 10);
    rm.insert_with(5..15, 20, |old: &i32, new: &i32| *old + *new);
    let v = rm.iter();
    assert_eq!(v, vec![(0, 5, 10), (5, 10, 30), (10, 15, 20)]);
}

#[test]
fn merge_keep_old() {
    let mut rm = RangeMap::new();
    rm.insert_replace(0..10, "A");
    rm.insert_with(5..15, "B", |old: &&str, _new: &&str| *old);
    let v = rm.iter();
    assert_eq!(v, vec![(0, 10, "A"), (10, 15, "B")]);
}

#[test]
fn range_query_no_overlap() {
    let mut rm = RangeMap::new();
    rm.insert_replace(0..5, "A");
    rm.insert_replace(10..15, "B");
    rm.insert_replace(20..25, "C");
    // Query 4..11: returns ranges intersecting the window
    let v = rm.range(4..11);
    assert_eq!(v, vec![(0, 5, "A"), (10, 15, "B")]);
}

#[test]
fn range_query_single_overlap() {
    let mut rm = RangeMap::new();
    rm.insert_replace(0..5, "A");
    rm.insert_replace(10..15, "B");
    rm.insert_replace(20..25, "C");
    let v = rm.range(2..7);
    assert_eq!(v, vec![(0, 5, "A")]);
}

#[test]
fn range_query_multiple_overlaps() {
    let mut rm = RangeMap::new();
    rm.insert_replace(0..5, "A");
    rm.insert_replace(10..15, "B");
    rm.insert_replace(20..25, "C");
    let v = rm.range(3..22);
    assert_eq!(v, vec![(0, 5, "A"), (10, 15, "B"), (20, 25, "C")]);
}

#[test]
fn insert_before_existing() {
    let mut rm = RangeMap::new();
    rm.insert_replace(10..20, "B");
    rm.insert_replace(0..5, "A");
    let v = rm.iter();
    assert_eq!(v, vec![(0, 5, "A"), (10, 20, "B")]);
}

#[test]
fn insert_after_existing() {
    let mut rm = RangeMap::new();
    rm.insert_replace(0..5, "A");
    rm.insert_replace(10..20, "B");
    let v = rm.iter();
    assert_eq!(v, vec![(0, 5, "A"), (10, 20, "B")]);
}

#[test]
fn insert_overlapping_start() {
    let mut rm = RangeMap::new();
    rm.insert_replace(5..15, "B");
    rm.insert_replace(0..10, "A");
    let v = rm.iter();
    assert_eq!(v, vec![(0, 10, "A"), (10, 15, "B")]);
}

#[test]
fn insert_overlapping_end() {
    let mut rm = RangeMap::new();
    rm.insert_replace(0..10, "A");
    rm.insert_replace(5..15, "B");
    let v = rm.iter();
    assert_eq!(v, vec![(0, 5, "A"), (5, 15, "B")]);
}

#[test]
fn insert_contained_within_existing() {
    let mut rm = RangeMap::new();
    rm.insert_replace(0..20, "A");
    rm.insert_replace(5..15, "B");
    let v = rm.iter();
    assert_eq!(v, vec![(0, 5, "A"), (5, 15, "B"), (15, 20, "A")]);
}

#[test]
fn insert_containing_existing() {
    let mut rm = RangeMap::new();
    rm.insert_replace(5..15, "A");
    rm.insert_replace(0..20, "B");
    let v = rm.iter();
    assert_eq!(v, vec![(0, 20, "B")]);
}

#[test]
fn complex_merge_scenario() {
    let mut rm = RangeMap::new();
    rm.insert_replace(0..5, 1);
    rm.insert_replace(10..15, 2);
    rm.insert_replace(20..25, 3);
    // Insert range that overlaps all three
    rm.insert_with(3..23, 10, |old: &i32, new: &i32| *old + *new);
    let v = rm.iter();
    assert_eq!(
        v,
        vec![
            (0, 3, 1),
            (3, 5, 11),
            (5, 10, 10),
            (10, 15, 12),
            (15, 20, 10),
            (20, 23, 13),
            (23, 25, 3)
        ]
    );
}

#[test]
fn single_point_ranges() {
    let mut rm = RangeMap::new();
    rm.insert_replace(5..6, "A");
    rm.insert_replace(10..11, "B");
    let v = rm.iter();
    assert_eq!(v, vec![(5, 6, "A"), (10, 11, "B")]);
}

#[test]
fn overlapping_single_point() {
    let mut rm = RangeMap::new();
    rm.insert_replace(5..6, "A");
    rm.insert_replace(5..6, "B");
    let v = rm.iter();
    assert_eq!(v, vec![(5, 6, "B")]);
}

#[test]
fn range_query_at_boundaries() {
    let mut rm = RangeMap::new();
    rm.insert_replace(0..5, "A");
    rm.insert_replace(5..10, "B");
    // Query exactly at boundary
    let v = rm.range(5..5);
    assert_eq!(v, vec![]);
    // Query touching boundary
    let v = rm.range(4..6);
    assert_eq!(v, vec![(0, 5, "A"), (5, 10, "B")]);
}

#[test]
fn insert_overlapping_previous_range_edge_case() {
    let mut rm = RangeMap::new();
    rm.insert_replace(0..10, "A");
    // Insert range that starts before but overlaps
    rm.insert_replace(5..15, "B");
    let v = rm.iter();
    assert_eq!(v, vec![(0, 5, "A"), (5, 15, "B")]);
}

#[test]
fn merge_function_different_types() {
    let mut rm = RangeMap::new();
    rm.insert_replace(0..10, "prefix".to_string());
    rm.insert_with(5..15, "suffix".to_string(), |old: &String, new: &String| {
        format!("{}_{}", old, new)
    });
    let v = rm.iter();
    assert_eq!(
        v,
        vec![
            (0, 5, "prefix".to_string()),
            (5, 10, "prefix_suffix".to_string()),
            (10, 15, "suffix".to_string())
        ]
    );
}
