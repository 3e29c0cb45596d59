use x402_router::amount::{AmountError, DomainU256};

#[test]
fn human_amount_scales_by_decimals() {
    let a = DomainU256::from_human_amount("10", 2).unwrap();
    assert_eq!(a.to_decimal_string(), "1000");
}

#[test]
fn human_amount_with_fraction() {
    let a = DomainU256::from_human_amount("1.5", 18).unwrap();
    assert_eq!(a.to_decimal_string(), "1500000000000000000");
}

#[test]
fn human_amount_trims_whitespace() {
    let a = DomainU256::from_human_amount("  7 ", 3).unwrap();
    assert_eq!(a.to_decimal_string(), "7000");
}

#[test]
fn human_amount_trailing_zeros_in_fraction_are_ignored() {
    let a = DomainU256::from_human_amount("0.50", 2).unwrap();
    assert_eq!(a.to_decimal_string(), "50");
}

#[test]
fn human_amount_zero() {
    let a = DomainU256::from_human_amount("0", 18).unwrap();
    assert_eq!(a.to_decimal_string(), "0");
}

#[test]
fn human_amount_too_many_decimals() {
    let e = DomainU256::from_human_amount("0.123", 2).unwrap_err();
    assert_eq!(e, AmountError::TooManyDecimals);
}

#[test]
fn human_amount_invalid_digit() {
    let e = DomainU256::from_human_amount("12a", 2).unwrap_err();
    assert_eq!(e, AmountError::InvalidDigit);
}

#[test]
fn human_amount_negative_is_invalid() {
    let e = DomainU256::from_human_amount("-5", 2).unwrap_err();
    assert_eq!(e, AmountError::InvalidDigit);
}

#[test]
fn human_amount_overflow() {
    // 79 nines cannot fit in 256 bits.
    let big = "9".repeat(79);
    let e = DomainU256::from_human_amount(&big, 0).unwrap_err();
    assert_eq!(e, AmountError::Overflow);
}

#[test]
fn human_amount_largest_value_accepted() {
    let max = "115792089237316195423570985008687907853269984665640564039457584007913129639935";
    let a = DomainU256::from_human_amount(max, 0).unwrap();
    assert_eq!(a.to_decimal_string(), max);
}

#[test]
fn human_amount_one_above_largest_rejected() {
    let over = "115792089237316195423570985008687907853269984665640564039457584007913129639936";
    let e = DomainU256::from_human_amount(over, 0).unwrap_err();
    assert_eq!(e, AmountError::Overflow);
}

#[test]
fn from_string_decimal() {
    let a = DomainU256::from_string("123").unwrap();
    assert_eq!(a.to_decimal_string(), "123");
}

#[test]
fn from_string_hex() {
    let a = DomainU256::from_string("0x10").unwrap();
    assert_eq!(a.to_decimal_string(), "16");
}

#[test]
fn from_string_hex_uppercase_prefix_and_digits() {
    let a = DomainU256::from_string("0XDeadBeef").unwrap();
    assert_eq!(a.to_decimal_string(), "3735928559");
}

#[test]
fn from_string_hex_max() {
    let s = format!("0x{}", "f".repeat(64));
    let a = DomainU256::from_string(&s).unwrap();
    assert_eq!(
        a.to_decimal_string(),
        "115792089237316195423570985008687907853269984665640564039457584007913129639935"
    );
}

#[test]
fn from_string_hex_overflow() {
    let s = format!("0x1{}", "0".repeat(64));
    let e = DomainU256::from_string(&s).unwrap_err();
    assert_eq!(e, AmountError::Overflow);
}

#[test]
fn from_string_hex_bad_digit() {
    let e = DomainU256::from_string("0x12g4").unwrap_err();
    assert_eq!(e, AmountError::InvalidDigit);
}

#[test]
fn from_string_empty_is_invalid() {
    let e = DomainU256::from_string("   ").unwrap_err();
    assert_eq!(e, AmountError::InvalidDigit);
}

#[test]
fn decimal_rendering_round_trips() {
    for text in ["0", "7", "1000", "3735928559",
        "115792089237316195423570985008687907853269984665640564039457584007913129639935"] {
        let x = DomainU256::from_string(text).unwrap();
        let rendered = x.to_decimal_string();
        let back = DomainU256::from_string(&rendered).unwrap();
        assert_eq!(back.to_decimal_string(), rendered);
        assert_eq!(rendered, text);
    }
}

#[test]
fn amount_error_messages_are_nonempty() {
    assert!(!AmountError::TooManyDecimals.message().is_empty());
    assert!(!AmountError::InvalidDigit.message().is_empty());
    assert!(!AmountError::Overflow.message().is_empty());
}
