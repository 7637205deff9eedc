use resp_kv::decimal::{parse_i64, parse_u64, push_decimal};

fn decimal_text(n: usize) -> Vec<u8> {
    let mut out = Vec::new();
    push_decimal(&mut out, n);
    out
}

#[test]
fn push_decimal_writes_the_shortest_text() {
    assert_eq!(decimal_text(0), b"0".to_vec());
    assert_eq!(decimal_text(7), b"7".to_vec());
    assert_eq!(decimal_text(10), b"10".to_vec());
    assert_eq!(decimal_text(1024), b"1024".to_vec());
    assert_eq!(decimal_text(usize::MAX), format!("{}", usize::MAX).into_bytes());
}

#[test]
fn push_decimal_keeps_what_is_there() {
    let mut out = b"$".to_vec();
    push_decimal(&mut out, 305);
    assert_eq!(out, b"$305".to_vec());
}

#[test]
fn parse_i64_reads_signed_numbers() {
    assert_eq!(parse_i64(b"0"), Some(0));
    assert_eq!(parse_i64(b"-1"), Some(-1));
    assert_eq!(parse_i64(b"+42"), Some(42));
    assert_eq!(parse_i64(b"-0"), Some(0));
    assert_eq!(parse_i64(b"0007"), Some(7));
    assert_eq!(parse_i64(b"9223372036854775807"), Some(i64::MAX));
    assert_eq!(parse_i64(b"-9223372036854775808"), Some(i64::MIN));
    assert_eq!(parse_i64(b"000000000000000000000000000012"), Some(12));
}

#[test]
fn parse_i64_refuses_what_is_no_number() {
    assert_eq!(parse_i64(b""), None);
    assert_eq!(parse_i64(b"-"), None);
    assert_eq!(parse_i64(b"+"), None);
    assert_eq!(parse_i64(b"+-1"), None);
    assert_eq!(parse_i64(b"--1"), None);
    assert_eq!(parse_i64(b"1-"), None);
    assert_eq!(parse_i64(b" 1"), None);
    assert_eq!(parse_i64(b"1 "), None);
    assert_eq!(parse_i64(b"12a"), None);
    assert_eq!(parse_i64(b"0x10"), None);
    assert_eq!(parse_i64(b"9223372036854775808"), None);
    assert_eq!(parse_i64(b"-9223372036854775809"), None);
    assert_eq!(parse_i64(b"99999999999999999999999999"), None);
}

#[test]
fn parse_u64_reads_unsigned_numbers() {
    assert_eq!(parse_u64(b"0"), Some(0));
    assert_eq!(parse_u64(b"+15"), Some(15));
    assert_eq!(parse_u64(b"100"), Some(100));
    assert_eq!(parse_u64(b"18446744073709551615"), Some(u64::MAX));
}

#[test]
fn parse_u64_refuses_signs_and_overflow() {
    assert_eq!(parse_u64(b""), None);
    assert_eq!(parse_u64(b"+"), None);
    assert_eq!(parse_u64(b"-0"), None);
    assert_eq!(parse_u64(b"-5"), None);
    assert_eq!(parse_u64(b"5.0"), None);
    assert_eq!(parse_u64(b"18446744073709551616"), None);
}

#[test]
fn parsers_agree_with_the_standard_library() {
    let texts: [&str; 14] = [
        "", "0", "-1", "+1", "-", "+", "007", "-007", "12x", "9223372036854775807",
        "9223372036854775808", "-9223372036854775808", "18446744073709551615",
        "18446744073709551616",
    ];
    for text in texts {
        assert_eq!(parse_i64(text.as_bytes()), text.parse::<i64>().ok());
        assert_eq!(parse_u64(text.as_bytes()), text.parse::<u64>().ok());
    }
}

#[test]
fn written_numbers_read_back() {
    for n in [0usize, 1, 9, 10, 99, 100, 65535, 1 << 40] {
        assert_eq!(parse_u64(&decimal_text(n)), Some(n as u64));
        assert_eq!(parse_i64(&decimal_text(n)), Some(n as i64));
    }
}
