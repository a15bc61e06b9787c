use redis_lite::text::{
    bytes_equal, copy_range, find_byte, fmt_i64, fmt_u128, parse_i64, parse_u128, parse_u32,
    parse_u64, parse_usize, same_text, text_bytes, text_from_bytes, text_is, text_of_range,
    NumberError,
};

#[test]
fn parse_signed_numbers() {
    assert_eq!(parse_i64(b"0"), Ok(0));
    assert_eq!(parse_i64(b"-17"), Ok(-17));
    assert_eq!(parse_i64(b"+17"), Ok(17));
    assert_eq!(parse_i64(b"9223372036854775807"), Ok(i64::MAX));
    assert_eq!(parse_i64(b"-9223372036854775808"), Ok(i64::MIN));
    assert_eq!(parse_i64(b"9223372036854775808"), Err(NumberError::PosOverflow));
    assert_eq!(parse_i64(b"-9223372036854775809"), Err(NumberError::NegOverflow));
    assert_eq!(parse_i64(b""), Err(NumberError::Empty));
    assert_eq!(parse_i64(b"-"), Err(NumberError::InvalidDigit));
    assert_eq!(parse_i64(b"+"), Err(NumberError::InvalidDigit));
    assert_eq!(parse_i64(b"1 "), Err(NumberError::InvalidDigit));
    assert_eq!(parse_i64(b"00012"), Ok(12));
}

#[test]
fn parse_unsigned_numbers() {
    assert_eq!(parse_u64(b"18446744073709551615"), Ok(u64::MAX));
    assert_eq!(parse_u64(b"18446744073709551616"), Err(NumberError::PosOverflow));
    assert_eq!(parse_u64(b"-1"), Err(NumberError::InvalidDigit));
    assert_eq!(parse_u64(b"+5"), Ok(5));
    assert_eq!(parse_u32(b"4294967295"), Ok(u32::MAX));
    assert_eq!(parse_u32(b"4294967296"), Err(NumberError::PosOverflow));
    assert_eq!(parse_usize(b"42"), Ok(42));
    assert_eq!(parse_usize(b""), Err(NumberError::Empty));
    assert_eq!(parse_u128(b"340282366920938463463374607431768211455"), Ok(u128::MAX));
    assert_eq!(
        parse_u128(b"340282366920938463463374607431768211456"),
        Err(NumberError::PosOverflow)
    );
}

#[test]
fn numbers_agree_with_std() {
    for t in ["0", "-0", "12", "-12", "+3", "", "-", "x", "99999999999999999999", "-99999999999999999999"] {
        assert_eq!(parse_i64(t.as_bytes()).ok(), t.parse::<i64>().ok(), "{t}");
        assert_eq!(parse_u64(t.as_bytes()).ok(), t.parse::<u64>().ok(), "{t}");
    }
}

#[test]
fn format_numbers() {
    assert_eq!(fmt_u128(0), b"0".to_vec());
    assert_eq!(fmt_u128(1200), b"1200".to_vec());
    assert_eq!(fmt_u128(u128::MAX), u128::MAX.to_string().into_bytes());
    assert_eq!(fmt_i64(-305), b"-305".to_vec());
    assert_eq!(fmt_i64(i64::MIN), i64::MIN.to_string().into_bytes());
    assert_eq!(fmt_i64(i64::MAX), i64::MAX.to_string().into_bytes());
}

#[test]
fn number_error_messages() {
    assert_eq!(NumberError::Empty.message(), "cannot parse integer from empty string");
    assert_eq!(NumberError::InvalidDigit.message(), "invalid digit found in string");
    assert_eq!(NumberError::PosOverflow.message(), "number too large to fit in target type");
    assert_eq!(NumberError::NegOverflow.message(), "number too small to fit in target type");
    assert_eq!(NumberError::Empty.message(), "".parse::<u8>().unwrap_err().to_string());
}

#[test]
fn text_from_bytes_checks_utf8() {
    assert_eq!(text_from_bytes("héllo".as_bytes().to_vec()), Some("héllo".to_string()));
    assert_eq!(text_from_bytes(vec![0xff, 0x41]), None);
    assert_eq!(text_from_bytes(vec![]), Some(String::new()));
    assert_eq!(text_of_range(b"abcdef", 1, 4), Some("bcd".to_string()));
    assert_eq!(text_of_range(b"a\xc3\xa9", 0, 2), None);
}

#[test]
fn byte_helpers() {
    assert_eq!(copy_range(b"abcdef", 2, 5), b"cde".to_vec());
    assert_eq!(text_bytes("é"), vec![0xc3, 0xa9]);
    assert!(bytes_equal(b"abc", b"abc"));
    assert!(!bytes_equal(b"abc", b"abd"));
    assert!(!bytes_equal(b"ab", b"abc"));
    assert!(same_text("x", "x"));
    assert!(!same_text("x", "X"));
    assert!(text_is("GET", b"GET"));
    assert!(!text_is("get", b"GET"));
    assert_eq!(find_byte(b"a-b-c", b'-'), Some(1));
    assert_eq!(find_byte(b"abc", b'-'), None);
}
