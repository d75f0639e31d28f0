use scylla::text::{parse_decimal, IntError};

#[test]
fn decimal_text_parses_as_str_parse_does() {
    assert_eq!(parse_decimal("42", u64::MAX), Ok(42));
    assert_eq!(parse_decimal("+7", u64::MAX), Ok(7));
    assert_eq!(parse_decimal("", u64::MAX), Err(IntError::Empty));
    assert_eq!(parse_decimal("+", u64::MAX), Err(IntError::InvalidDigit));
    assert_eq!(parse_decimal("-1", u64::MAX), Err(IntError::InvalidDigit));
    assert_eq!(parse_decimal("12a", u64::MAX), Err(IntError::InvalidDigit));
    assert_eq!(parse_decimal("18446744073709551615", u64::MAX), Ok(u64::MAX));
    assert_eq!(parse_decimal("18446744073709551616", u64::MAX), Err(IntError::PosOverflow));
    // the first failing character decides: an overflow before a bad digit is an overflow
    assert_eq!(parse_decimal("99999999999999999999x", u64::MAX), Err(IntError::PosOverflow));
    assert_eq!(parse_decimal("256", 255), Err(IntError::PosOverflow));
    for s in ["", "+", "12a", "18446744073709551616"] {
        let std_msg = s.parse::<u64>().unwrap_err().to_string();
        assert_eq!(parse_decimal(s, u64::MAX).unwrap_err().message(), std_msg);
    }
}
