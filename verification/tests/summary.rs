use series_stats::average::Average;
use series_stats::summary::{write_summary_headers, Summary};
use std::cmp::Ordering;

#[derive(Clone, Copy, Debug, PartialEq)]
struct Real(f64);

impl Average for Real {
    fn zero_value() -> Real {
        Real(0.0)
    }

    fn add_defined(_acc: Real, _v: Real) -> bool {
        true
    }

    fn add_value(acc: Real, v: Real) -> Real {
        Real(acc.0 + v.0)
    }

    fn divide_defined(_acc: Real, _count: u32) -> bool {
        true
    }

    fn divide_value(acc: Real, count: u32) -> Real {
        Real(acc.0 / count as f64)
    }

    fn diff_sqrd_defined(_a: Real, _b: Real) -> bool {
        true
    }

    fn diff_sqrd_value(a: Real, b: Real) -> Real {
        Real((a.0 - b.0) * (a.0 - b.0))
    }

    fn zero() -> Real {
        Real(0.0)
    }

    fn add(&mut self, b: Real) {
        self.0 += b.0;
    }

    fn divide(&mut self, count: u32) {
        self.0 /= count as f64;
    }

    fn diff_sqrd(&self, b: &Real) -> Real {
        let dif = self.0 - b.0;
        Real(dif * dif)
    }
}

fn by_size(a: &Real, b: &Real) -> Ordering {
    a.0.partial_cmp(&b.0).unwrap()
}

#[test]
fn summary_of_eight_reals() {
    let values: Vec<Real> =
        [8.0, 1.0, 6.0, 3.0, 5.0, 4.0, 7.0, 2.0].iter().map(|v| Real(*v)).collect();
    let summary = Summary::from_iter(values.into_iter(), by_size);
    assert_eq!(summary.avg, Real(4.5));
    assert_eq!(summary.variance, Real(6.0));
    assert_eq!(summary.min, Some(Real(1.0)));
    assert_eq!(summary.max, Some(Real(8.0)));
    assert_eq!(summary.quartiles, Some([Real(2.5), Real(4.5), Real(6.5)]));
}

#[test]
fn summary_of_five_reals() {
    let values: Vec<Real> = [1.0, 2.0, 3.0, 4.0, 5.0].iter().map(|v| Real(*v)).collect();
    let summary = Summary::from_iter(values.into_iter(), by_size);
    assert_eq!(summary.avg, Real(3.0));
    assert_eq!(summary.variance, Real(2.5));
    assert_eq!(summary.quartiles, Some([Real(2.0), Real(3.0), Real(4.0)]));
}

#[test]
fn summary_of_no_reals() {
    let values: Vec<Real> = vec![];
    let summary = Summary::from_iter(values.into_iter(), by_size);
    assert!(summary.avg.0.is_nan());
    assert_eq!(summary.variance, Real(0.0));
    assert_eq!(summary.min, None);
    assert_eq!(summary.max, None);
    assert_eq!(summary.quartiles, None);
}

#[test]
fn summary_of_eight() {
    let values: Vec<i64> = vec![7, 2, 4, 9, 4, 5, 4, 5];
    let summary = Summary::from_iter(values.into_iter(), |a: &i64, b: &i64| a.cmp(b));
    assert_eq!(summary.avg, 5);
    assert_eq!(summary.variance, 4);
    assert_eq!(summary.min, Some(2));
    assert_eq!(summary.max, Some(9));
    assert_eq!(summary.quartiles, Some([4, 4, 6]));
}

#[test]
fn summary_of_five() {
    let values: Vec<i64> = vec![50, 10, 40, 20, 30];
    let summary = Summary::from_iter(values.into_iter(), |a: &i64, b: &i64| a.cmp(b));
    assert_eq!(summary.avg, 30);
    assert_eq!(summary.variance, 250);
    assert_eq!(summary.min, Some(10));
    assert_eq!(summary.max, Some(50));
    assert_eq!(summary.quartiles, Some([20, 30, 40]));
}

#[test]
fn summary_of_one() {
    let values: Vec<i64> = vec![-6];
    let summary = Summary::from_iter(values.into_iter(), |a: &i64, b: &i64| a.cmp(b));
    assert_eq!(summary.avg, -6);
    assert_eq!(summary.variance, 0);
    assert_eq!(summary.min, Some(-6));
    assert_eq!(summary.max, Some(-6));
    assert_eq!(summary.quartiles, Some([-6, -6, -6]));
}

#[test]
fn summary_under_a_reversed_order() {
    let values: Vec<i64> = vec![1, 2, 3, 4];
    let summary = Summary::from_iter(values.into_iter(), |a: &i64, b: &i64| b.cmp(a));
    assert_eq!(summary.min, Some(4));
    assert_eq!(summary.max, Some(1));
    assert_eq!(summary.quartiles, Some([3, 2, 1]));
}

#[test]
fn header_has_a_label_for_each_field() {
    let mut header = String::new();
    write_summary_headers("x_", &mut header);
    assert_eq!(header, "x_avg,x_var,x_min,x_max,x_low,x_med,x_up,");
    let mut header = String::from("n,");
    write_summary_headers("", &mut header);
    assert_eq!(header, "n,avg,var,min,max,low,med,up,");
}

#[test]
fn row_holds_the_fields_in_the_order_of_the_labels() {
    let summary = Summary {
        avg: 5i64,
        variance: 4,
        min: Some(-2),
        max: Some(9),
        quartiles: Some([4, 4, 6]),
    };
    let mut row = String::new();
    summary.to_writer(&mut row);
    assert_eq!(row, "5,4,-2,9,4,4,6");
}

#[test]
fn row_has_zero_for_what_is_absent() {
    let summary = Summary { avg: 0i64, variance: 0, min: None, max: None, quartiles: None };
    let mut row = String::from("a,");
    summary.to_writer(&mut row);
    assert_eq!(row, "a,0,0,0,0,0,0,0");
}

#[test]
fn row_of_extreme_values() {
    let summary = Summary {
        avg: i64::MIN,
        variance: i64::MAX,
        min: Some(10),
        max: Some(1000),
        quartiles: Some([-1, 0, 1]),
    };
    let mut row = String::new();
    summary.to_writer(&mut row);
    assert_eq!(row, "-9223372036854775808,9223372036854775807,10,1000,-1,0,1");
}

#[test]
fn header_and_row_have_the_same_number_of_fields() {
    let values: Vec<i64> = vec![3, 1, 2];
    let summary = Summary::from_iter(values.into_iter(), |a: &i64, b: &i64| a.cmp(b));
    let mut header = String::new();
    write_summary_headers("s", &mut header);
    let mut row = String::new();
    summary.to_writer(&mut row);
    let labels = header.trim_end_matches(',').split(',').count();
    assert_eq!(labels, row.split(',').count());
    assert_eq!(labels, 7);
}
