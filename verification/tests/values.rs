use avatar_params::value::{parameter_type_from_chars, parse_value_token, ParameterType, RawValue};

fn chars(s: &str) -> Vec<char> {
    s.chars().collect()
}

#[test]
fn parse_plain_integer() {
    assert_eq!(parse_value_token(&chars("1")), Some(RawValue::new(false, 10_000)));
    assert_eq!(parse_value_token(&chars("0")), Some(RawValue::new(false, 0)));
    assert_eq!(parse_value_token(&chars("255")), Some(RawValue::new(false, 2_550_000)));
}

#[test]
fn parse_fractions() {
    assert_eq!(parse_value_token(&chars("0.73")), Some(RawValue::new(false, 7_300)));
    assert_eq!(parse_value_token(&chars("0.42")), Some(RawValue::new(false, 4_200)));
    assert_eq!(parse_value_token(&chars("2.25")), Some(RawValue::new(false, 22_500)));
}

#[test]
fn parse_signs() {
    assert_eq!(parse_value_token(&chars("-0.5")), Some(RawValue::new(true, 5_000)));
    assert_eq!(parse_value_token(&chars("+0.5")), Some(RawValue::new(false, 5_000)));
    assert_eq!(parse_value_token(&chars("-0")), Some(RawValue::new(false, 0)));
}

#[test]
fn parse_bare_point_forms() {
    assert_eq!(parse_value_token(&chars("1.")), Some(RawValue::new(false, 10_000)));
    assert_eq!(parse_value_token(&chars(".5")), Some(RawValue::new(false, 5_000)));
}

#[test]
fn parse_extra_fraction_digits_discarded() {
    assert_eq!(parse_value_token(&chars("0.123456")), Some(RawValue::new(false, 1_234)));
}

#[test]
fn parse_rejects_malformed_tokens() {
    assert_eq!(parse_value_token(&chars("abc")), None);
    assert_eq!(parse_value_token(&chars("")), None);
    assert_eq!(parse_value_token(&chars("-")), None);
    assert_eq!(parse_value_token(&chars(".")), None);
    assert_eq!(parse_value_token(&chars("1a")), None);
    assert_eq!(parse_value_token(&chars("1.2.3")), None);
    assert_eq!(parse_value_token(&chars("1 2")), None);
}

#[test]
fn bool_threshold_is_half_inclusive() {
    assert!(RawValue::new(false, 7_300).as_bool());
    assert!(!RawValue::new(false, 2_000).as_bool());
    assert!(RawValue::new(false, 5_000).as_bool());
    assert!(!RawValue::new(false, 4_999).as_bool());
    assert!(!RawValue::new(true, 7_000).as_bool());
}

#[test]
fn int_truncates_toward_zero_and_saturates() {
    assert_eq!(RawValue::new(false, 29_000).as_int(), 2);
    assert_eq!(RawValue::new(false, 2_550_000).as_int(), 255);
    assert_eq!(RawValue::new(false, 3_000_000).as_int(), 255);
    assert_eq!(RawValue::new(true, 15_000).as_int(), 0);
    assert_eq!(RawValue::new(false, 9_999).as_int(), 0);
}

#[test]
fn type_strings_case_insensitive() {
    assert_eq!(parameter_type_from_chars(&chars("FLOAT")), Some(ParameterType::Float));
    assert_eq!(parameter_type_from_chars(&chars("Float")), Some(ParameterType::Float));
    assert_eq!(parameter_type_from_chars(&chars("float")), Some(ParameterType::Float));
    assert_eq!(parameter_type_from_chars(&chars("Int")), Some(ParameterType::Int));
    assert_eq!(parameter_type_from_chars(&chars("BOOL")), Some(ParameterType::Bool));
}

#[test]
fn unrecognized_type_strings_rejected() {
    assert_eq!(parameter_type_from_chars(&chars("string")), None);
    assert_eq!(parameter_type_from_chars(&chars("floaty")), None);
    assert_eq!(parameter_type_from_chars(&chars("")), None);
}
