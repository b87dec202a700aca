use series_stats::text::{read_integer, write_decimal, write_digits, write_row};

fn decimal(v: i64) -> String {
    let mut out = String::new();
    write_decimal(&mut out, v);
    out
}

#[test]
fn integers_in_decimal() {
    assert_eq!(decimal(0), "0");
    assert_eq!(decimal(7), "7");
    assert_eq!(decimal(10), "10");
    assert_eq!(decimal(-1), "-1");
    assert_eq!(decimal(1234567890), "1234567890");
    assert_eq!(decimal(i64::MAX), "9223372036854775807");
    assert_eq!(decimal(i64::MIN), "-9223372036854775808");
}

#[test]
fn decimal_is_what_the_standard_library_writes() {
    for v in [0i64, 1, -1, 9, 10, 99, 100, -100, 4711, -98765, i64::MAX, i64::MIN, i64::MIN + 1] {
        assert_eq!(decimal(v), v.to_string());
    }
}

#[test]
fn digits_are_appended() {
    let mut out = String::from("n=");
    write_digits(&mut out, 0);
    write_digits(&mut out, 405);
    write_digits(&mut out, u64::MAX);
    assert_eq!(out, "n=040518446744073709551615");
}

#[test]
fn a_row_has_commas_between_its_fields() {
    let mut out = String::new();
    write_row(&mut out, &[]);
    assert_eq!(out, "");
    write_row(&mut out, &[5]);
    assert_eq!(out, "5");
    let mut out = String::from(">");
    write_row(&mut out, &[1, -2, 30]);
    assert_eq!(out, ">1,-2,30");
}

#[test]
fn integers_are_read() {
    assert_eq!(read_integer("0"), Some(0));
    assert_eq!(read_integer("42"), Some(42));
    assert_eq!(read_integer("+42"), Some(42));
    assert_eq!(read_integer("-42"), Some(-42));
    assert_eq!(read_integer("007"), Some(7));
    assert_eq!(read_integer("-0"), Some(0));
    assert_eq!(read_integer("9223372036854775807"), Some(i64::MAX));
    assert_eq!(read_integer("-9223372036854775808"), Some(i64::MIN));
    assert_eq!(read_integer("000000000000000000000000000001"), Some(1));
}

#[test]
fn what_is_no_integer_is_not_read() {
    assert_eq!(read_integer(""), None);
    assert_eq!(read_integer("+"), None);
    assert_eq!(read_integer("-"), None);
    assert_eq!(read_integer("1.5"), None);
    assert_eq!(read_integer(" 1"), None);
    assert_eq!(read_integer("1 "), None);
    assert_eq!(read_integer("--1"), None);
    assert_eq!(read_integer("1-"), None);
    assert_eq!(read_integer("12a"), None);
    assert_eq!(read_integer("٣"), None);
    assert_eq!(read_integer("9223372036854775808"), None);
    assert_eq!(read_integer("-9223372036854775809"), None);
    assert_eq!(read_integer("99999999999999999999999"), None);
}

#[test]
fn reading_is_what_the_standard_library_reads() {
    for text in ["0", "-0", "+7", "12", "-12", "", "+", "x", "1x", "0x10", "1_000", "92233720368547758070"] {
        assert_eq!(read_integer(text), text.parse::<i64>().ok());
    }
}
