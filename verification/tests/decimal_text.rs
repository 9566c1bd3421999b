use message_log::decimal::{
    magnitude_of, parse_decimal, parse_i32, parse_i64, parse_signed_decimal, push_decimal,
    push_signed_decimal, read_digits, read_integer,
};

fn rendered(n: u128) -> String {
    let mut out = Vec::new();
    push_decimal(&mut out, n);
    String::from_utf8(out).unwrap()
}

fn rendered_signed(i: i64) -> String {
    let mut out = Vec::new();
    push_signed_decimal(&mut out, i);
    String::from_utf8(out).unwrap()
}

#[test]
fn decimal_of_small_numbers() {
    assert_eq!(rendered(0), "0");
    assert_eq!(rendered(7), "7");
    assert_eq!(rendered(10), "10");
    assert_eq!(rendered(1234567890), "1234567890");
}

#[test]
fn decimal_of_the_largest_number() {
    assert_eq!(rendered(u128::MAX), "340282366920938463463374607431768211455");
}

#[test]
fn decimal_appends_to_what_is_there() {
    let mut out = vec![b'x', b'='];
    push_decimal(&mut out, 42);
    assert_eq!(out, b"x=42".to_vec());
}

#[test]
fn signed_decimal_of_both_ends() {
    assert_eq!(rendered_signed(0), "0");
    assert_eq!(rendered_signed(-5), "-5");
    assert_eq!(rendered_signed(i64::MAX), "9223372036854775807");
    assert_eq!(rendered_signed(i64::MIN), "-9223372036854775808");
}

#[test]
fn magnitude_is_the_absolute_value() {
    assert_eq!(magnitude_of(0), 0);
    assert_eq!(magnitude_of(12), 12);
    assert_eq!(magnitude_of(-12), 12);
    assert_eq!(magnitude_of(i64::MIN), 9223372036854775808);
}

#[test]
fn parse_decimal_reads_what_was_written() {
    for n in [0u128, 1, 9, 10, 99, 100, 1700000000000, u64::MAX as u128, u128::MAX] {
        assert_eq!(parse_decimal(rendered(n).as_bytes()), Some(n));
    }
}

#[test]
fn parse_decimal_rejects_what_is_never_written() {
    assert_eq!(parse_decimal(b""), None);
    assert_eq!(parse_decimal(b"007"), None);
    assert_eq!(parse_decimal(b"00"), None);
    assert_eq!(parse_decimal(b"+7"), None);
    assert_eq!(parse_decimal(b"-7"), None);
    assert_eq!(parse_decimal(b"12a"), None);
    assert_eq!(parse_decimal(b" 12"), None);
    assert_eq!(parse_decimal(b"1.0"), None);
}

#[test]
fn parse_decimal_rejects_what_u128_cannot_hold() {
    assert_eq!(parse_decimal(b"340282366920938463463374607431768211455"), Some(u128::MAX));
    assert_eq!(parse_decimal(b"340282366920938463463374607431768211456"), None);
    assert_eq!(parse_decimal(b"3402823669209384634633746074317682114550"), None);
}

#[test]
fn parse_signed_decimal_reads_what_was_written() {
    for i in [0i64, 1, -1, 42, -42, i64::MAX, i64::MIN, i64::MIN + 1] {
        assert_eq!(parse_signed_decimal(rendered_signed(i).as_bytes()), Some(i));
    }
}

#[test]
fn parse_signed_decimal_rejects_what_is_never_written() {
    assert_eq!(parse_signed_decimal(b""), None);
    assert_eq!(parse_signed_decimal(b"-"), None);
    assert_eq!(parse_signed_decimal(b"-0"), None);
    assert_eq!(parse_signed_decimal(b"+5"), None);
    assert_eq!(parse_signed_decimal(b"-05"), None);
    assert_eq!(parse_signed_decimal(b"--5"), None);
    assert_eq!(parse_signed_decimal(b"9223372036854775808"), None);
    assert_eq!(parse_signed_decimal(b"-9223372036854775809"), None);
}

#[test]
fn read_digits_allows_leading_zeros_up_to_the_limit() {
    assert_eq!(read_digits(b"000123", 1000), Some(123));
    assert_eq!(read_digits(b"1000", 1000), Some(1000));
    assert_eq!(read_digits(b"1001", 1000), None);
    assert_eq!(read_digits(b"", 1000), None);
    assert_eq!(read_digits(b"12x", 1000), None);
    assert_eq!(read_digits(b"99999999999999999999999999999999999999999999", 1000), None);
}

#[test]
fn read_integer_keeps_to_its_bounds() {
    assert_eq!(read_integer(b"-10", -10, 10), Some(-10));
    assert_eq!(read_integer(b"-11", -10, 10), None);
    assert_eq!(read_integer(b"+10", -10, 10), Some(10));
    assert_eq!(read_integer(b"11", -10, 10), None);
    assert_eq!(read_integer(b"-0", -10, 10), Some(0));
}

#[test]
fn parse_i64_agrees_with_the_standard_parser() {
    let texts = [
        "", "+", "-", "0", "-0", "+0", "5", "+5", "-5", "0005", "-0005", " 5", "5 ", "5x", "x5",
        "1.5", "1e3", "--5", "+-5", "9223372036854775807", "9223372036854775808",
        "-9223372036854775808", "-9223372036854775809",
        "000000000000000000000000000000000000000000001", "99999999999999999999999999999999",
        "١٢٣", "12_000",
    ];
    for text in texts {
        assert_eq!(parse_i64(text), text.parse::<i64>().ok(), "text {:?}", text);
    }
}

#[test]
fn parse_i32_agrees_with_the_standard_parser() {
    let texts = [
        "", "+", "-", "0", "10", "+10", "-10", "500", "2147483647", "2147483648", "-2147483648",
        "-2147483649", "0000000000000000100", "ten", "10 ",
    ];
    for text in texts {
        assert_eq!(parse_i32(text), text.parse::<i32>().ok(), "text {:?}", text);
    }
}

#[test]
fn lenient_reading_gives_back_what_was_rendered() {
    for i in [0i64, 1, -1, 77, i64::MAX, i64::MIN] {
        assert_eq!(parse_i64(&rendered_signed(i)), Some(i));
    }
}
