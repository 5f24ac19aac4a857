use fuzzy_psi::hash::{create_bin, create_bins, invert_bin};
use std::collections::HashSet;

#[test]
fn test_create_bin() {
    let value = 8u64;
    let delta = 2;
    let bin = create_bin(value, delta);
    // 8 / (2*2) = 8/4 = 2
    assert_eq!(bin, 2);
}

#[test]
fn test_create_bins() {
    let points = vec![8u64, 12u64];
    let delta = 2;
    let bins = create_bins(&points, delta);
    // For 8: (6..=10) gives bins: 6/4=1, 7/4=1, 8/4=2, 9/4=2, 10/4=2 -> {1,2}
    // For 12: (10..=14) gives bins: 10/4=2, 11/4=2, 12/4=3, 13/4=3, 14/4=3 -> {2,3}
    // Merged bins: {1,2,3}
    let expected_bins: HashSet<u64> = vec![1, 2, 3].into_iter().collect();
    assert_eq!(expected_bins, bins);
}

#[test]
fn test_points_in_same_bin() {
    let value1 = 8u64;
    let value2 = 9u64;
    let delta = 2;
    let bin1 = create_bin(value1, delta);
    let bin2 = create_bin(value2, delta);
    assert_eq!(bin1, bin2);
}

#[test]
fn create_bin_rounds_down() {
    assert_eq!(create_bin(0, 1), 0);
    assert_eq!(create_bin(1, 1), 0);
    assert_eq!(create_bin(2, 1), 1);
    assert_eq!(create_bin(7, 2), 1);
    assert_eq!(create_bin(u64::MAX, 1), u64::MAX / 2);
    assert_eq!(create_bin(1000, 10), 50);
}

#[test]
fn create_bins_window_stops_at_zero() {
    // 1 with delta 2 reaches down to 0, not below: values 0..=3, all in bin 0.
    let bins = create_bins(&[1u64], 2);
    let expected: HashSet<u64> = vec![0].into_iter().collect();
    assert_eq!(bins, expected);
    // 3 with delta 2: values 1..=5, bins 0 and 1.
    let bins = create_bins(&[3u64], 2);
    let expected: HashSet<u64> = vec![0, 1].into_iter().collect();
    assert_eq!(bins, expected);
}

#[test]
fn create_bins_of_nothing_is_empty() {
    let bins = create_bins(&[], 5);
    assert!(bins.is_empty());
}

#[test]
fn create_bins_contains_own_bin_of_every_point() {
    let points = [1u64, 10, 100, 1000, 10000, 17, 4242];
    for delta in [1u64, 2, 3, 10] {
        let bins = create_bins(&points, delta);
        for p in points {
            assert!(bins.contains(&create_bin(p, delta)));
            assert!(bins.contains(&create_bin(p + delta, delta)));
            assert!(bins.contains(&create_bin(p.saturating_sub(delta), delta)));
        }
    }
}

#[test]
fn invert_bin_keeps_first_occurrences_in_order() {
    assert_eq!(invert_bin(2, &[8, 9, 12, 8, 11, 9], 2), vec![8, 9, 11]);
    assert_eq!(invert_bin(3, &[8, 9, 12, 8], 2), vec![12]);
    assert_eq!(invert_bin(7, &[8, 9, 12, 8], 2), Vec::<u64>::new());
    assert_eq!(invert_bin(0, &[], 2), Vec::<u64>::new());
}
