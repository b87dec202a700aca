use series_stats::average::{
    average, average_of, moving_average, variance, variance_of, Average, MovingAverage,
};

#[derive(Clone, Copy, Debug, PartialEq)]
struct Real(f64);

impl Average for Real {
    fn zero_value() -> Real {
        Real(0.0)
    }

    fn add_defined(_acc: Real, _v: Real) -> bool {
        true
    }

    fn add_value(acc: Real, v: Real) -> Real {
        Real(acc.0 + v.0)
    }

    fn divide_defined(_acc: Real, _count: u32) -> bool {
        true
    }

    fn divide_value(acc: Real, count: u32) -> Real {
        Real(acc.0 / count as f64)
    }

    fn diff_sqrd_defined(_a: Real, _b: Real) -> bool {
        true
    }

    fn diff_sqrd_value(a: Real, b: Real) -> Real {
        Real((a.0 - b.0) * (a.0 - b.0))
    }

    fn zero() -> Real {
        Real(0.0)
    }

    fn add(&mut self, b: Real) {
        self.0 += b.0;
    }

    fn divide(&mut self, count: u32) {
        self.0 /= count as f64;
    }

    fn diff_sqrd(&self, b: &Real) -> Real {
        let dif = self.0 - b.0;
        Real(dif * dif)
    }
}

fn reals(values: &[f64]) -> Vec<Real> {
    values.iter().map(|v| Real(*v)).collect()
}

#[test]
fn mean_of_four_reals() {
    let values = reals(&[1.0, 2.0, 3.0, 4.0]);
    assert_eq!(average(values.into_iter()), Real(2.5));
}

#[test]
fn mean_of_integers_rounds_toward_zero() {
    let values: Vec<i64> = vec![1, 2, 3, 4];
    assert_eq!(average(values.into_iter()), 2);
    let values: Vec<i64> = vec![-1, -2, -3, -4];
    assert_eq!(average(values.into_iter()), -2);
    let values: Vec<i64> = vec![7];
    assert_eq!(average(values.into_iter()), 7);
}

#[test]
fn mean_of_extreme_integers() {
    let values: Vec<i64> = vec![i64::MIN];
    assert_eq!(average(values.into_iter()), i64::MIN);
    let values: Vec<i64> = vec![i64::MAX, -1];
    assert_eq!(average(values.into_iter()), (i64::MAX - 1) / 2);
    let values: Vec<i64> = vec![i64::MIN, 1, 0];
    assert_eq!(average(values.into_iter()), (i64::MIN + 1) / 3);
}

#[test]
fn mean_of_a_slice_is_the_mean_of_its_values() {
    let values: Vec<i64> = vec![10, -3, 8, 8, 1];
    assert_eq!(average_of(&values), 4);
    assert_eq!(average_of(&values), average(values.clone().into_iter()));
}

#[test]
fn mean_does_not_depend_on_the_order() {
    let values: Vec<i64> = vec![5, -9, 14, 2, 2, 30];
    let shuffled: Vec<i64> = vec![2, 30, 5, 2, 14, -9];
    assert_eq!(average(values.into_iter()), average(shuffled.into_iter()));
}

#[test]
fn variance_divides_by_one_less_than_the_count() {
    let values = reals(&[2.0, 4.0, 4.0, 4.0, 5.0, 5.0, 7.0, 9.0]);
    let mean = average(values.clone().into_iter());
    assert_eq!(mean, Real(5.0));
    let spread = variance(&mean, values.into_iter());
    assert!((spread.0 - 4.5714286).abs() < 1e-6);
}

#[test]
fn variance_of_integers() {
    let values: Vec<i64> = vec![2, 4, 4, 4, 5, 5, 7, 9];
    let mean = average(values.clone().into_iter());
    assert_eq!(mean, 5);
    assert_eq!(variance(&mean, values.clone().into_iter()), 4);
    assert_eq!(variance_of(&mean, &values), 4);
}

#[test]
fn variance_of_fewer_than_two_values_is_zero() {
    let none: Vec<i64> = vec![];
    assert_eq!(variance(&3, none.into_iter()), 0);
    let one: Vec<i64> = vec![8];
    assert_eq!(variance(&3, one.into_iter()), 0);
    let one = reals(&[8.0]);
    assert_eq!(variance(&Real(3.0), one.into_iter()), Real(0.0));
    let two: Vec<i64> = vec![1, 5];
    assert_eq!(variance(&3, two.into_iter()), 8);
}

#[test]
fn moving_average_of_five() {
    let values = reals(&[1.0, 2.0, 3.0, 4.0, 5.0]);
    assert_eq!(moving_average(3, values.into_iter()), Some(reals(&[2.0, 3.0, 4.0])));
    let values: Vec<i64> = vec![1, 2, 3, 4, 5];
    assert_eq!(moving_average(3, values.into_iter()), Some(vec![2, 3, 4]));
}

#[test]
fn moving_average_of_too_few() {
    let values = reals(&[1.0, 2.0]);
    assert_eq!(moving_average(3, values.into_iter()), None);
    let values: Vec<i64> = vec![];
    assert_eq!(moving_average(1, values.into_iter()), None);
}

#[test]
fn moving_average_has_one_mean_for_each_window() {
    let values: Vec<i64> = vec![4, 8, 15, 16, 23, 42];
    for width in 1..=6usize {
        let means = moving_average(width, values.clone().into_iter()).unwrap();
        assert_eq!(means.len(), values.len() - width + 1);
        for (at, mean) in means.iter().enumerate() {
            assert_eq!(*mean, average_of(&values[at..at + width]));
        }
    }
    assert_eq!(moving_average(7, values.into_iter()), None);
}

#[test]
fn moving_average_of_width_one_is_the_input() {
    let values: Vec<i64> = vec![3, -1, 4];
    assert_eq!(moving_average(1, values.clone().into_iter()), Some(values));
}

#[test]
fn moving_average_fed_by_hand() {
    let mut state: MovingAverage<i64> = MovingAverage::new(2);
    assert_eq!(state.push(10), None);
    assert_eq!(state.push(20), Some(15));
    assert_eq!(state.push(-20), Some(0));
    assert_eq!(state.push(-21), Some(-20));
}
