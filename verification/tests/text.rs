use suspension_engine::text::{
    decimal_string, digit_of, parse_digits, parse_unsigned, signed_decimal_string,
};

#[test]
fn digit_of_knows_the_ten_digits() {
    assert_eq!(digit_of('0'), Some(0));
    assert_eq!(digit_of('7'), Some(7));
    assert_eq!(digit_of('9'), Some(9));
    assert_eq!(digit_of('/'), None);
    assert_eq!(digit_of(':'), None);
    assert_eq!(digit_of('a'), None);
    assert_eq!(digit_of('٣'), None);
}

#[test]
fn parse_digits_reads_plain_numbers() {
    assert_eq!(parse_digits("0"), Some(0));
    assert_eq!(parse_digits("7"), Some(7));
    assert_eq!(parse_digits("007"), Some(7));
    assert_eq!(parse_digits("1234567890"), Some(1_234_567_890));
}

#[test]
fn parse_digits_refuses_what_is_no_number() {
    assert_eq!(parse_digits(""), None);
    assert_eq!(parse_digits("12a"), None);
    assert_eq!(parse_digits("a12"), None);
    assert_eq!(parse_digits("-1"), None);
    assert_eq!(parse_digits("+1"), None);
    assert_eq!(parse_digits("1 2"), None);
    assert_eq!(parse_digits("٣"), None);
}

#[test]
fn parse_digits_stops_at_the_largest_number() {
    assert_eq!(parse_digits("18446744073709551615"), Some(u64::MAX));
    assert_eq!(parse_digits("18446744073709551616"), None);
    assert_eq!(parse_digits("99999999999999999999999"), None);
    assert_eq!(parse_digits("000000000000000000000000000001"), Some(1));
}

#[test]
fn parse_unsigned_takes_one_plus_sign() {
    assert_eq!(parse_unsigned("42"), Some(42));
    assert_eq!(parse_unsigned("+42"), Some(42));
    assert_eq!(parse_unsigned("++42"), None);
    assert_eq!(parse_unsigned("+"), None);
    assert_eq!(parse_unsigned(""), None);
    assert_eq!(parse_unsigned("-42"), None);
    assert_eq!(parse_unsigned("42+"), None);
}

#[test]
fn parse_unsigned_agrees_with_the_standard_library() {
    for text in ["0", "+0", "17", "+17", "", "+", "-3", "1e3", " 1", "18446744073709551615",
        "18446744073709551616", "0x10", "1_000"]
    {
        assert_eq!(parse_unsigned(text), text.parse::<u64>().ok());
    }
}

#[test]
fn decimal_string_writes_numbers() {
    assert_eq!(decimal_string(0), "0");
    assert_eq!(decimal_string(9), "9");
    assert_eq!(decimal_string(10), "10");
    assert_eq!(decimal_string(1_431_648_000), "1431648000");
    assert_eq!(decimal_string(u64::MAX), "18446744073709551615");
}

#[test]
fn signed_decimal_string_writes_the_sign() {
    assert_eq!(signed_decimal_string(0), "0");
    assert_eq!(signed_decimal_string(-1), "-1");
    assert_eq!(signed_decimal_string(25), "25");
    assert_eq!(signed_decimal_string(i64::MAX), "9223372036854775807");
    assert_eq!(signed_decimal_string(i64::MIN), "-9223372036854775808");
}

#[test]
fn written_numbers_read_back() {
    for n in [0u64, 1, 9, 10, 99, 100, 12345, u64::MAX] {
        assert_eq!(parse_digits(decimal_string(n).as_str()), Some(n));
    }
}
