use series_stats::peaks::{peaks, peaks_by, PeakDetector};
use std::cmp::Ordering;

fn ascending(a: &i64, b: &i64) -> Ordering {
    a.cmp(b)
}

#[test]
fn one_peak_in_one_window() {
    let values: Vec<i64> = vec![1, 3, 2];
    assert_eq!(peaks_by(1, values.into_iter(), ascending), Some(vec![(3, 1)]));
}

#[test]
fn a_plateau_reaches_as_far_as_the_window() {
    let values: Vec<i64> = vec![1, 3, 3, 3, 1];
    assert_eq!(peaks_by(1, values.into_iter(), ascending), Some(vec![(3, 2), (3, 1)]));
    let values: Vec<i64> = vec![1, 3, 3, 3, 1];
    assert_eq!(peaks_by(2, values.into_iter(), ascending), Some(vec![(3, 2)]));
    let values: Vec<i64> = vec![1, 1, 3, 3, 3, 1, 1];
    assert_eq!(peaks_by(2, values.into_iter(), ascending), Some(vec![(3, 3)]));
}

#[test]
fn the_windows_of_a_plateau_are_passed_over() {
    let values: Vec<i64> = vec![0, 0, 5, 5, 5, 0, 0, 0];
    assert_eq!(peaks_by(2, values.into_iter(), ascending), Some(vec![(5, 3)]));
    let values: Vec<i64> = vec![0, 5, 5, 0, 0];
    assert_eq!(peaks_by(1, values.into_iter(), ascending), Some(vec![(5, 2)]));
}

#[test]
fn too_few_values_for_a_window() {
    let values: Vec<i64> = vec![1, 3];
    assert_eq!(peaks_by(1, values.into_iter(), ascending), None);
    let values: Vec<i64> = vec![1, 3, 2, 1];
    assert_eq!(peaks_by(2, values.into_iter(), ascending), None);
    let values: Vec<i64> = vec![];
    assert_eq!(peaks_by(0, values.into_iter(), ascending), None);
}

#[test]
fn no_peak_on_a_slope() {
    let values: Vec<i64> = vec![1, 2, 3, 4, 5];
    assert_eq!(peaks_by(1, values.into_iter(), ascending), Some(vec![]));
}

#[test]
fn several_peaks() {
    let values: Vec<i64> = vec![0, 2, 0, 5, 1, 1, 4, 4, 0, 3];
    assert_eq!(peaks_by(1, values.into_iter(), ascending), Some(vec![(2, 1), (5, 1), (4, 2)]));
}

#[test]
fn a_plateau_is_counted_to_the_right_only() {
    let values: Vec<i64> = vec![0, 7, 7, 7, 7, 0, 0];
    assert_eq!(peaks_by(2, values.clone().into_iter(), ascending), Some(vec![(7, 3)]));
    assert_eq!(peaks_by(3, values.into_iter(), ascending), Some(vec![(7, 2)]));
}

#[test]
fn a_tie_behind_a_lesser_value_is_no_peak() {
    let values: Vec<i64> = vec![5, 1, 5, 1, 5];
    assert_eq!(peaks_by(2, values.into_iter(), ascending), Some(vec![]));
    let values: Vec<i64> = vec![1, 1, 5, 1, 5];
    assert_eq!(peaks_by(2, values.into_iter(), ascending), Some(vec![]));
    let values: Vec<i64> = vec![5, 1, 5, 1, 1];
    assert_eq!(peaks_by(2, values.into_iter(), ascending), Some(vec![]));
}

#[test]
fn a_reversed_order_finds_the_valleys() {
    let values: Vec<i64> = vec![3, 1, 2, 2, 0, 4];
    let descending = |a: &i64, b: &i64| b.cmp(a);
    assert_eq!(peaks_by(1, values.into_iter(), descending), Some(vec![(1, 1), (0, 1)]));
}

#[test]
fn width_zero_takes_every_value() {
    let values: Vec<i64> = vec![2, 1, 2];
    assert_eq!(peaks_by(0, values.into_iter(), ascending), Some(vec![(2, 1), (1, 1), (2, 1)]));
}

#[test]
fn peaks_use_the_natural_order() {
    let values: Vec<i64> = vec![1, 3, 3, 3, 1, 0, 9, 2];
    assert_eq!(peaks(1, values.clone().into_iter()), Some(vec![(3, 2), (3, 1), (9, 1)]));
    assert_eq!(peaks(1, values.clone().into_iter()), peaks_by(1, values.into_iter(), ascending));
    let words = vec!["a", "c", "b"];
    assert_eq!(peaks(1, words.into_iter()), Some(vec![("c", 1)]));
}

#[test]
fn detector_fed_by_hand() {
    let mut order = ascending;
    let mut state: PeakDetector<i64> = PeakDetector::new(1);
    assert!(!state.primed());
    assert_eq!(state.observe(1, &mut order), None);
    assert_eq!(state.observe(4, &mut order), None);
    assert!(state.primed());
    assert_eq!(state.observe(4, &mut order), Some((4, 2)));
    assert_eq!(state.observe(2, &mut order), None);
    assert_eq!(state.observe(6, &mut order), None);
    assert_eq!(state.observe(6, &mut order), Some((6, 2)));
    assert_eq!(state.observe(5, &mut order), None);
    assert_eq!(state.observe(7, &mut order), None);
    assert_eq!(state.observe(1, &mut order), Some((7, 1)));
}
