use quote_writer::price::{parse_price_i64_1e8, parse_scaled_decimal, PriceError};

#[test]
fn test_parse_price_integer() {
    assert_eq!(parse_price_i64_1e8("100").unwrap(), 10_000_000_000);
    assert_eq!(parse_price_i64_1e8("1").unwrap(), 100_000_000);
    assert_eq!(parse_price_i64_1e8("0").unwrap(), 0);
}

#[test]
fn test_parse_price_decimal() {
    assert_eq!(parse_price_i64_1e8("100.5").unwrap(), 10_050_000_000);
    assert_eq!(parse_price_i64_1e8("0.00001234").unwrap(), 1_234);
    assert_eq!(parse_price_i64_1e8("12345.6789").unwrap(), 1_234_567_890_000);
}

#[test]
fn test_parse_price_rounding() {
    assert_eq!(parse_price_i64_1e8("0.000000004").unwrap(), 0);
    assert_eq!(parse_price_i64_1e8("0.123456784").unwrap(), 12_345_678);

    assert_eq!(parse_price_i64_1e8("0.000000005").unwrap(), 1);
    assert_eq!(parse_price_i64_1e8("0.123456785").unwrap(), 12_345_679);

    assert_eq!(parse_price_i64_1e8("0.000000009").unwrap(), 1);
    assert_eq!(parse_price_i64_1e8("0.123456789").unwrap(), 12_345_679);
}

#[test]
fn test_parse_price_edge_cases() {
    assert_eq!(parse_price_i64_1e8("42").unwrap(), 4_200_000_000);
    assert_eq!(parse_price_i64_1e8("100.00000000").unwrap(), 10_000_000_000);
    assert_eq!(parse_price_i64_1e8("0.00000001").unwrap(), 1);
    assert_eq!(parse_price_i64_1e8("0.1").unwrap(), 10_000_000);
}

#[test]
fn test_parse_price_real_crypto() {
    assert_eq!(parse_price_i64_1e8("43567.89").unwrap(), 4_356_789_000_000);
    assert_eq!(parse_price_i64_1e8("2345.67").unwrap(), 234_567_000_000);
    assert_eq!(parse_price_i64_1e8("0.00012345").unwrap(), 12_345);
}

#[test]
fn test_parse_price_errors() {
    assert!(parse_price_i64_1e8("").is_err());
    assert!(parse_price_i64_1e8("abc").is_err());
    assert!(parse_price_i64_1e8("12.34.56").is_err());
}

#[test]
fn test_parse_price_large_numbers() {
    assert_eq!(parse_price_i64_1e8("999999.99999999").unwrap(), 99_999_999_999_999);
}

#[test]
fn boundary_inputs_are_rejected() {
    assert_eq!(parse_price_i64_1e8(""), Err(PriceError::Empty));
    assert_eq!(parse_price_i64_1e8("   "), Err(PriceError::Empty));
    assert_eq!(parse_price_i64_1e8("1.2.3"), Err(PriceError::MultipleDecimalPoints));
    assert_eq!(parse_price_i64_1e8("12a"), Err(PriceError::InvalidCharacter));
    assert_eq!(parse_price_i64_1e8("-1"), Err(PriceError::InvalidCharacter));
    assert_eq!(parse_price_i64_1e8("1.5é"), Err(PriceError::InvalidCharacter));
}

#[test]
fn overflow_is_reported() {
    assert_eq!(parse_price_i64_1e8("92233720369"), Err(PriceError::Overflow));
    assert_eq!(parse_price_i64_1e8("99999999999999999999999"), Err(PriceError::Overflow));
    assert_eq!(parse_price_i64_1e8("92233720368.54775807"), Ok(i64::MAX));
    assert_eq!(parse_price_i64_1e8("92233720368.547758075"), Err(PriceError::Overflow));
}

#[test]
fn boundary_values_from_the_rounding_rule() {
    assert_eq!(parse_price_i64_1e8("0.000000005"), Ok(1));
    assert_eq!(parse_price_i64_1e8("0.000000004"), Ok(0));
    assert_eq!(parse_price_i64_1e8("999999.99999999"), Ok(99_999_999_999_999));
}

#[test]
fn surrounding_whitespace_is_ignored() {
    assert_eq!(parse_price_i64_1e8("  1.5\t\n"), Ok(150_000_000));
    assert_eq!(parse_scaled_decimal(" 1.5"), Err(PriceError::InvalidCharacter));
    assert_eq!(parse_scaled_decimal("1.5"), Ok(150_000_000));
}

#[test]
fn point_at_either_end() {
    assert_eq!(parse_price_i64_1e8("5."), Ok(500_000_000));
    assert_eq!(parse_price_i64_1e8(".25"), Ok(25_000_000));
    assert_eq!(parse_price_i64_1e8("."), Ok(0));
}

#[test]
fn ninth_digit_rounds_and_later_digits_are_ignored() {
    let truncated = parse_price_i64_1e8("1.23456789").unwrap();
    assert_eq!(parse_price_i64_1e8("1.234567895").unwrap(), truncated + 1);
    assert_eq!(parse_price_i64_1e8("1.234567894999").unwrap(), truncated);
    assert_eq!(parse_price_i64_1e8("1.2345678949999").unwrap(), truncated);
    assert_eq!(parse_price_i64_1e8("1.23456789a"), Err(PriceError::InvalidCharacter));
}

#[test]
fn up_to_eight_digits_is_exact() {
    assert_eq!(parse_price_i64_1e8("3.14159265").unwrap(), 314_159_265);
    assert_eq!(parse_price_i64_1e8("7.0001").unwrap(), 700_010_000);
}
