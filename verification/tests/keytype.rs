use tsdb::keytype::{classify, is_numeric_shape, is_timestamp, kt_ptv_path, KtType};

#[test]
fn classify_string_plain() {
    assert_eq!(classify("hello"), KtType::String);
}

#[test]
fn classify_string_with_digits_and_letters() {
    assert_eq!(classify("abc123"), KtType::String);
}

#[test]
fn classify_string_empty() {
    assert_eq!(classify(""), KtType::String);
}

#[test]
fn classify_string_uppercase_true_falls_through() {
    assert_eq!(classify("True"), KtType::String);
    assert_eq!(classify("TRUE"), KtType::String);
    assert_eq!(classify("False"), KtType::String);
    assert_eq!(classify("FALSE"), KtType::String);
}

#[test]
fn classify_string_yes_no_falls_through() {
    assert_eq!(classify("yes"), KtType::String);
    assert_eq!(classify("no"), KtType::String);
}

#[test]
fn classify_number_zero() {
    assert_eq!(classify("0"), KtType::Number);
}

#[test]
fn classify_number_positive_int() {
    assert_eq!(classify("30"), KtType::Number);
    assert_eq!(classify("100"), KtType::Number);
}

#[test]
fn classify_number_negative_int() {
    assert_eq!(classify("-5"), KtType::Number);
    assert_eq!(classify("-100"), KtType::Number);
}

#[test]
fn classify_number_decimal() {
    assert_eq!(classify("3.14"), KtType::Number);
    assert_eq!(classify("0.5"), KtType::Number);
}

#[test]
fn classify_number_negative_decimal() {
    assert_eq!(classify("-3.14"), KtType::Number);
}

#[test]
fn classify_number_rejects_plus_prefix() {
    assert_eq!(classify("+5"), KtType::String);
}

#[test]
fn classify_number_rejects_scientific() {
    assert_eq!(classify("1e3"), KtType::String);
    assert_eq!(classify("1E3"), KtType::String);
    assert_eq!(classify("3.14e2"), KtType::String);
}

#[test]
fn classify_number_rejects_hex() {
    assert_eq!(classify("0x1A"), KtType::String);
}

#[test]
fn classify_number_rejects_leading_zero() {
    assert_eq!(classify("007"), KtType::String);
    assert_eq!(classify("00"), KtType::String);
    assert_eq!(classify("01"), KtType::String);
}

#[test]
fn classify_array_canonical_packed() {
    assert_eq!(classify(r#"["admin","editor"]"#), KtType::Array);
}

#[test]
fn classify_array_empty_brackets() {
    assert_eq!(classify("[]"), KtType::Array);
}

#[test]
fn classify_array_with_quoted_elements() {
    assert_eq!(classify(r#"["a","b","c"]"#), KtType::Array);
}

#[test]
fn classify_boolean_true() {
    assert_eq!(classify("true"), KtType::Boolean);
}

#[test]
fn classify_boolean_false() {
    assert_eq!(classify("false"), KtType::Boolean);
}

#[test]
fn classify_boolean_rejects_capital_t() {
    assert_eq!(classify("True"), KtType::String);
}

#[test]
fn classify_timestamp_valid() {
    assert_eq!(classify("20262903143022"), KtType::Timestamp);
}

#[test]
fn classify_timestamp_rejects_13_digits() {
    let t = classify("2026290314302");
    assert_ne!(t, KtType::Timestamp);
}

#[test]
fn classify_timestamp_rejects_15_digits() {
    let t = classify("202629031430220");
    assert_ne!(t, KtType::Timestamp);
}

#[test]
fn classify_timestamp_rejects_alpha_in_position() {
    assert_eq!(classify("20262903143A22"), KtType::String);
}

#[test]
fn classify_timestamp_rejects_month_zero() {
    let t = classify("20262900143022");
    assert_ne!(t, KtType::Timestamp);
}

#[test]
fn classify_timestamp_rejects_month_thirteen() {
    let t = classify("20262913143022");
    assert_ne!(t, KtType::Timestamp);
}

#[test]
fn classify_timestamp_rejects_day_thirty_two() {
    let t = classify("20263203143022");
    assert_ne!(t, KtType::Timestamp);
}

#[test]
fn classify_timestamp_rejects_hour_24() {
    let t = classify("20262903243022");
    assert_ne!(t, KtType::Timestamp);
}

#[test]
fn classify_invalid_timestamp_with_leading_zero_year_is_string() {
    assert_eq!(classify("00001313143022"), KtType::String);
}

#[test]
fn classify_timestamp_accepts_year_9999() {
    assert_eq!(classify("99992903143022"), KtType::Timestamp);
}

#[test]
fn classify_timestamp_accepts_year_0001() {
    assert_eq!(classify("00012903143022"), KtType::Timestamp);
}

#[test]
fn classify_timestamp_leap_day_in_non_leap_year_passes() {
    assert_eq!(classify("20232902120000"), KtType::Timestamp);
}

#[test]
fn classify_precedence_array_beats_timestamp() {
    assert_eq!(classify(r#"["20262903143022"]"#), KtType::Array);
}

#[test]
fn classify_precedence_timestamp_beats_number() {
    assert_eq!(classify("20262903143022"), KtType::Timestamp);
}

#[test]
fn classify_precedence_boolean_beats_number_specific_to_general() {
    assert_eq!(classify("true"), KtType::Boolean);
    assert_eq!(classify("false"), KtType::Boolean);
}

#[test]
fn classify_precedence_number_beats_string() {
    assert_eq!(classify("42"), KtType::Number);
}

#[test]
fn classify_one_is_number_not_boolean() {
    assert_eq!(classify("1"), KtType::Number);
}

#[test]
fn classify_zero_is_number_not_boolean() {
    assert_eq!(classify("0"), KtType::Number);
}

#[test]
fn classify_all_zero_14_digit_falls_to_string() {
    assert_eq!(classify("00000000000000"), KtType::String);
}

#[test]
fn classify_thirteen_zero_digits_falls_to_string() {
    assert_eq!(classify("0000000000000"), KtType::String);
}

#[test]
fn is_numeric_shape_accepts_zero() {
    assert!(is_numeric_shape("0"));
}

#[test]
fn is_numeric_shape_rejects_empty() {
    assert!(!is_numeric_shape(""));
}

#[test]
fn is_numeric_shape_rejects_lone_minus() {
    assert!(!is_numeric_shape("-"));
}

#[test]
fn is_timestamp_basic_ok() {
    assert!(is_timestamp("20262903143022"));
}

#[test]
fn is_timestamp_wrong_length() {
    assert!(!is_timestamp(""));
    assert!(!is_timestamp("123"));
    assert!(!is_timestamp("123456789012345"));
}

#[test]
fn token_ordering_is_array_boolean_number_string_timestamp() {
    let mut tokens = [
        KtType::String.token(),
        KtType::Timestamp.token(),
        KtType::Number.token(),
        KtType::Array.token(),
        KtType::Boolean.token(),
    ];
    tokens.sort();
    assert_eq!(
        tokens,
        ["array", "boolean", "number", "string", "timestamp"]
    );
}

#[test]
fn kt_ptv_path_basic() {
    let p = "/data/store.dov";
    assert_eq!(kt_ptv_path(p), "/data/store.kt.ptv");
}
