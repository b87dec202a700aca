use series_stats::parameters::{
    split_str_num_alpha_groups, ParamAlreadyExists, ParamNote, ParamType, Parameters,
};

fn schema() -> Parameters {
    let mut params = Parameters::new();
    let list = vec![
        ("x".to_string(), "ex".to_string(), ParamType::Int),
        ("t".to_string(), "temp".to_string(), ParamType::Double),
        ("n".to_string(), "count".to_string(), ParamType::Int),
    ];
    assert!(params.set_params_list(list.into_iter()).is_ok());
    params
}

fn line(params: &Parameters) -> String {
    let mut out = String::new();
    params.write_as_line(&mut out);
    out
}

#[test]
fn groups_are_a_value_and_its_shorthand() {
    assert_eq!(split_str_num_alpha_groups("12_5ab3c"), vec!["12_5ab", "3c"]);
    assert_eq!(split_str_num_alpha_groups("1a2b"), vec!["1a", "2b"]);
    assert_eq!(split_str_num_alpha_groups("7n"), vec!["7n"]);
}

#[test]
fn groups_of_an_empty_string() {
    assert_eq!(split_str_num_alpha_groups(""), vec![""]);
}

#[test]
fn a_group_is_opened_anew_at_the_first_number() {
    assert_eq!(split_str_num_alpha_groups("ab12cd"), vec!["1", "2cd"]);
    assert_eq!(split_str_num_alpha_groups("1_5x-3y"), vec!["1_5x", "3y"]);
    assert_eq!(split_str_num_alpha_groups("--4k"), vec!["4k"]);
}

#[test]
fn a_group_is_closed_by_what_is_no_letter() {
    assert_eq!(split_str_num_alpha_groups("1a_"), vec!["1a", "_"]);
    assert_eq!(split_str_num_alpha_groups("1a_b"), vec!["1a", "_b"]);
    assert_eq!(split_str_num_alpha_groups("abc"), vec!["abc"]);
    assert_eq!(split_str_num_alpha_groups("123"), vec!["123"]);
}

#[test]
fn groups_of_letters_and_numbers_beyond_ascii() {
    assert_eq!(split_str_num_alpha_groups("3é4ü"), vec!["3é", "4ü"]);
    assert_eq!(split_str_num_alpha_groups("٣x٤y"), vec!["٣x", "٤y"]);
}

#[test]
fn a_schema_takes_each_shorthand_once() {
    let mut params = Parameters::new();
    let list = vec![
        ("a".to_string(), "first".to_string(), ParamType::Int),
        ("b".to_string(), "second".to_string(), ParamType::Int),
        ("a".to_string(), "third".to_string(), ParamType::Double),
        ("c".to_string(), "fourth".to_string(), ParamType::Int),
    ];
    let out = params.set_params_list(list.into_iter());
    assert!(out.is_err());
    let mut header = String::new();
    params.write_headers(&mut header);
    assert_eq!(header, "first,second,");
}

#[test]
fn the_error_in_words() {
    assert_eq!(ParamAlreadyExists.message(), "Parameter already exists");
}

#[test]
fn headers_are_the_names_in_the_order_of_the_schema() {
    let params = schema();
    let mut header = String::from("file,");
    params.write_headers(&mut header);
    assert_eq!(header, "file,ex,temp,count,");
    let mut none = String::new();
    Parameters::new().write_headers(&mut none);
    assert_eq!(none, "");
}

#[test]
fn a_row_is_empty_before_anything_is_read() {
    let params = schema();
    assert_eq!(line(&params), "");
}

#[test]
fn whole_numbers_are_stored() {
    let mut params = schema();
    let notes = params.update_current("12x7n");
    assert_eq!(notes, vec![]);
    assert_eq!(line(&params), "12,,7,");
    let notes = params.update_current("-0003n");
    assert_eq!(notes, vec![]);
    assert_eq!(line(&params), ",,3,");
}

#[test]
fn a_number_with_a_fraction_is_left_to_the_caller() {
    let mut params = schema();
    let notes = params.update_current("12x1_50t7n");
    assert_eq!(notes, vec![ParamNote::Double { pos: 1, text: "1.50".to_string() }]);
    assert_eq!(line(&params), "12,,7,");
    assert!(params.record_double(1, "1.5".to_string()));
    assert_eq!(line(&params), "12,1.5,7,");
}

#[test]
fn only_a_field_for_fractions_takes_one() {
    let mut params = schema();
    assert!(!params.record_double(1, "1.5".to_string()));
    params.update_current("");
    assert!(!params.record_double(0, "1.5".to_string()));
    assert!(!params.record_double(3, "1.5".to_string()));
    assert!(params.record_double(1, "2.5".to_string()));
    assert_eq!(line(&params), ",2.5,,");
}

#[test]
fn what_cannot_be_read_is_told_and_the_rest_is_read() {
    let mut params = schema();
    let notes = params.update_current("1_5x3q7n");
    assert_eq!(notes, vec![ParamNote::Malformed { pos: 0 }, ParamNote::Unknown]);
    assert_eq!(line(&params), ",,7,");
    let notes = params.update_current("4x_");
    assert_eq!(notes, vec![ParamNote::NoShorthand]);
    assert_eq!(line(&params), "4,,,");
    let notes = params.update_current("");
    assert_eq!(notes, vec![ParamNote::NoShorthand]);
    assert_eq!(line(&params), ",,,");
}

#[test]
fn a_whole_number_must_fit() {
    let mut params = schema();
    let notes = params.update_current("9223372036854775807x9223372036854775808n");
    assert_eq!(notes, vec![ParamNote::Malformed { pos: 2 }]);
    assert_eq!(line(&params), "9223372036854775807,,,");
}

#[test]
fn a_later_value_replaces_an_earlier_one() {
    let mut params = schema();
    let notes = params.update_current("1x2x");
    assert_eq!(notes, vec![]);
    assert_eq!(line(&params), "2,,,");
}

#[test]
fn a_shorthand_is_all_from_the_first_letter_on() {
    let mut params = Parameters::new();
    let list = vec![("ab".to_string(), "both".to_string(), ParamType::Int)];
    assert!(params.set_params_list(list.into_iter()).is_ok());
    assert_eq!(params.update_current("5ab"), vec![]);
    assert_eq!(line(&params), "5,");
    assert_eq!(params.update_current("5a"), vec![ParamNote::Unknown]);
    assert_eq!(line(&params), ",");
}
