use hwmon_report::parse::{parse_millideg, TempError};

#[test]
fn parses_plain_millidegrees() {
    assert_eq!(parse_millideg("21500"), Ok(21500));
    assert_eq!(parse_millideg("0"), Ok(0));
    assert_eq!(parse_millideg("45000"), Ok(45000));
}

#[test]
fn parses_with_surrounding_whitespace() {
    assert_eq!(parse_millideg("21500\n"), Ok(21500));
    assert_eq!(parse_millideg("  \t21500 \r\n"), Ok(21500));
}

#[test]
fn parses_signed_values() {
    assert_eq!(parse_millideg("-500"), Ok(-500));
    assert_eq!(parse_millideg("+3"), Ok(3));
    assert_eq!(parse_millideg("-0"), Ok(0));
}

#[test]
fn parses_extreme_values() {
    assert_eq!(parse_millideg("9223372036854775807"), Ok(i64::MAX));
    assert_eq!(parse_millideg("-9223372036854775808"), Ok(i64::MIN));
}

#[test]
fn rejects_non_numeric_text() {
    assert_eq!(parse_millideg("abc"), Err(TempError::NotANumber));
    assert_eq!(parse_millideg(""), Err(TempError::NotANumber));
    assert_eq!(parse_millideg("   "), Err(TempError::NotANumber));
    assert_eq!(parse_millideg("-"), Err(TempError::NotANumber));
    assert_eq!(parse_millideg("+"), Err(TempError::NotANumber));
    assert_eq!(parse_millideg("21 500"), Err(TempError::NotANumber));
    assert_eq!(parse_millideg("21.5"), Err(TempError::NotANumber));
    assert_eq!(parse_millideg("21500c"), Err(TempError::NotANumber));
}

#[test]
fn rejects_values_out_of_range() {
    assert_eq!(parse_millideg("9223372036854775808"), Err(TempError::OutOfRange));
    assert_eq!(parse_millideg("-9223372036854775809"), Err(TempError::OutOfRange));
    assert_eq!(
        parse_millideg("99999999999999999999999999"),
        Err(TempError::OutOfRange)
    );
}
