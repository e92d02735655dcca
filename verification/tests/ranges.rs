use std::ops::Range;

use srgn::ranges::Ranges;

#[test]
fn test_iteration() {
    let ranges: Ranges<usize> = Ranges::new();

    // By reference
    for _range in ranges.iter() {
        //
    }

    // By value
    for _range in ranges.into_vec() {
        //
    }
}

#[test]
fn ranges_are_sorted_on_creation() {
    let ranges = Ranges::from_ranges(vec![5..7, 0..2, 3..4]);
    assert_eq!(ranges.iter(), &[0..2, 3..4, 5..7][..]);
    assert!(ranges.is_sorted());
    assert_eq!(ranges.len(), 3);
    assert!(!ranges.is_empty());
}

#[test]
fn merging_joins_overlapping_and_bordering_ranges() {
    let mut ranges = Ranges::from_ranges(vec![0..2, 1..3, 3..4, 6..8]);
    ranges.merge();
    assert_eq!(ranges.iter(), &[0..4, 6..8][..]);
}

#[test]
fn subtraction_removes_covered_positions() {
    let left = Ranges::from_ranges(vec![0..10]);
    let right = Ranges::from_ranges(vec![2..4, 6..7]);
    let result: Vec<Range<usize>> = left.sub(right).into_vec();
    assert_eq!(result, vec![0..2, 4..6, 7..10]);
}

#[test]
fn subtraction_gives_exact_pieces() {
    let left = Ranges::from_ranges(vec![2..7, 10..15, 20..25, 40..50, 100..137, 200..300]);
    let right = Ranges::from_ranges(vec![0..1, 5..9, 12..15, 20..23, 30..35, 40..50, 99..138]);
    assert_eq!((left.sub(right)).iter(), &[2..5, 10..12, 23..25, 200..300]);
}

#[test]
fn equal_starts_keep_their_order() {
    let r = Ranges::from_ranges(vec![3..5, 1..2, 3..4, 3..9]);
    assert_eq!(r.iter(), &[1..2, 3..5, 3..4, 3..9]);
}

#[test]
fn default_ranges_are_empty() {
    assert!(Ranges::<usize>::default().iter().is_empty());
    assert!(Ranges::<usize>::default().is_empty());
}

#[test]
fn subtraction_keeps_empty_ranges_inside_others() {
    let left = Ranges::from_ranges(vec![4..6, 5..5]);
    let right: Ranges<usize> = Ranges::new();
    assert_eq!(left.sub(right).iter(), &[4..6, 5..5]);

    let left = Ranges::from_ranges(vec![0..10, 3..3]);
    let right = Ranges::from_ranges(vec![2..5]);
    assert_eq!(left.sub(right).iter(), &[0..2, 3..3, 5..10]);
}

#[test]
fn merging_hands_back_the_merged_ranges() {
    let mut ranges = Ranges::from_ranges(vec![5..9, 0..3, 2..4]);
    assert_eq!(ranges.merge().iter(), &[0..4, 5..9][..]);
    assert_eq!(ranges.iter(), &[0..4, 5..9][..]);
}
