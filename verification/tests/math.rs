use series_stats::math::{max_by, middle, min_by, quartiles, reduce};
use std::cmp::Ordering;

fn mean_of(first: &f64, second: Option<&f64>) -> f64 {
    match second {
        Some(other) => (first + other) / 2.0,
        None => *first,
    }
}

fn by_size(a: &f64, b: &f64) -> Ordering {
    a.partial_cmp(b).unwrap()
}

#[test]
fn reduce_folds_from_the_left() {
    let values: Vec<i64> = vec![1, 2, 3, 4];
    assert_eq!(reduce(values.into_iter(), 0i64, |acc, v| acc * 10 + v), 1234);
    let none: Vec<i64> = vec![];
    assert_eq!(reduce(none.into_iter(), 7i64, |acc, v| acc + v), 7);
    let words = vec!["a", "b", "c"];
    assert_eq!(
        reduce(words.into_iter(), String::new(), |mut acc, v| {
            acc.push_str(v);
            acc
        }),
        "abc"
    );
}

#[test]
fn middle_of_nothing() {
    let values: Vec<i64> = vec![];
    assert_eq!(middle(&values, |a, b| (*a, b.copied())), None);
}

#[test]
fn middle_of_an_odd_length() {
    let values: Vec<i64> = vec![10, 20, 30];
    assert_eq!(middle(&values, |a, b| (*a, b.copied())), Some((20, None)));
    let values: Vec<i64> = vec![10];
    assert_eq!(middle(&values, |a, b| (*a, b.copied())), Some((10, None)));
}

#[test]
fn middle_of_an_even_length_hands_over_the_upper_one_first() {
    let values: Vec<i64> = vec![10, 20, 30, 40];
    assert_eq!(middle(&values, |a, b| (*a, b.copied())), Some((30, Some(20))));
    let values: Vec<i64> = vec![10, 20];
    assert_eq!(middle(&values, |a, b| (*a, b.copied())), Some((20, Some(10))));
}

#[test]
fn quartiles_of_eight() {
    let mut values = vec![1.0, 2.0, 3.0, 4.0, 5.0, 6.0, 7.0, 8.0];
    assert_eq!(quartiles(&mut values, by_size, mean_of), Some([2.5, 4.5, 6.5]));
}

#[test]
fn quartiles_of_five() {
    let mut values = vec![1.0, 2.0, 3.0, 4.0, 5.0];
    assert_eq!(quartiles(&mut values, by_size, mean_of), Some([2.0, 3.0, 4.0]));
}

#[test]
fn quartiles_of_nothing() {
    let mut values: Vec<f64> = vec![];
    assert_eq!(quartiles(&mut values, by_size, mean_of), None);
}

#[test]
fn quartiles_of_one_and_two() {
    let mut values = vec![9.0];
    assert_eq!(quartiles(&mut values, by_size, mean_of), Some([9.0, 9.0, 9.0]));
    let mut values = vec![4.0, 2.0];
    assert_eq!(quartiles(&mut values, by_size, mean_of), Some([2.0, 3.0, 4.0]));
}

#[test]
fn quartiles_sort_the_slice() {
    let mut values: Vec<i64> = vec![5, 3, 8, 1, 9, 2];
    let out = quartiles(&mut values, |a, b| a.cmp(b), |a, b| (*a, b.copied()));
    assert_eq!(values, vec![1, 2, 3, 5, 8, 9]);
    assert_eq!(out, Some([(2, None), (5, Some(3)), (8, None)]));
}

#[test]
fn quartiles_do_not_depend_on_the_order() {
    let mut sorted = vec![1.0, 2.0, 3.0, 4.0, 5.0, 6.0, 7.0];
    let mut shuffled = vec![6.0, 1.0, 7.0, 3.0, 2.0, 5.0, 4.0];
    let expected = quartiles(&mut sorted, by_size, mean_of);
    assert_eq!(expected, Some([2.5, 4.0, 5.5]));
    assert_eq!(quartiles(&mut shuffled, by_size, mean_of), expected);
    assert_eq!(shuffled, sorted);
}

#[test]
fn quartiles_under_a_reversed_order() {
    let mut values: Vec<i64> = vec![1, 2, 3, 4];
    let out = quartiles(&mut values, |a, b| b.cmp(a), |a, b| (*a, b.copied()));
    assert_eq!(values, vec![4, 3, 2, 1]);
    assert_eq!(out, Some([(3, Some(4)), (2, Some(3)), (1, Some(2))]));
}

#[test]
fn least_is_the_first_of_those_that_tie() {
    let values: Vec<(i64, char)> = vec![(2, 'a'), (1, 'b'), (3, 'c'), (1, 'd')];
    let mut by_number = |a: &(i64, char), b: &(i64, char)| a.0.cmp(&b.0);
    assert_eq!(min_by(&values, &mut by_number), Some((1, 'b')));
    let none: Vec<(i64, char)> = vec![];
    assert_eq!(min_by(&none, &mut by_number), None);
}

#[test]
fn greatest_is_the_last_of_those_that_tie() {
    let values: Vec<(i64, char)> = vec![(3, 'a'), (1, 'b'), (3, 'c'), (1, 'd')];
    let mut by_number = |a: &(i64, char), b: &(i64, char)| a.0.cmp(&b.0);
    assert_eq!(max_by(&values, &mut by_number), Some((3, 'c')));
    let none: Vec<(i64, char)> = vec![];
    assert_eq!(max_by(&none, &mut by_number), None);
}

#[test]
fn sorting_keeps_the_order_of_those_that_tie() {
    let mut values: Vec<(i64, char)> =
        vec![(2, 'a'), (1, 'b'), (2, 'c'), (1, 'd'), (2, 'e'), (0, 'f')];
    let out = quartiles(&mut values, |a, b| a.0.cmp(&b.0), |a, b| (a.1, b.map(|other| other.1)));
    assert_eq!(values, vec![(0, 'f'), (1, 'b'), (1, 'd'), (2, 'a'), (2, 'c'), (2, 'e')]);
    assert_eq!(out, Some([('b', None), ('a', Some('d')), ('c', None)]));
}

#[test]
fn least_and_greatest_of_one() {
    let values: Vec<i64> = vec![4];
    let mut order = |a: &i64, b: &i64| a.cmp(b);
    assert_eq!(min_by(&values, &mut order), Some(4));
    assert_eq!(max_by(&values, &mut order), Some(4));
    let values: Vec<i64> = vec![4, -4, 9, 0];
    assert_eq!(min_by(&values, &mut order), Some(-4));
    assert_eq!(max_by(&values, &mut order), Some(9));
}
