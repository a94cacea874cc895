use php_unserialize::{buf_to_i64, buf_to_u32, to_i64, to_string, to_u32};

#[test]
fn buf_to_u32_reads_digit_runs() {
    assert_eq!(buf_to_u32(b"0"), Some(0));
    assert_eq!(buf_to_u32(b"12"), Some(12));
    assert_eq!(buf_to_u32(b"0012"), Some(12));
    assert_eq!(buf_to_u32(b"4294967295"), Some(4294967295));
}

#[test]
fn buf_to_u32_rejects_what_is_no_number() {
    assert_eq!(buf_to_u32(b""), None);
    assert_eq!(buf_to_u32(b"12a"), None);
    assert_eq!(buf_to_u32(b"a12"), None);
    assert_eq!(buf_to_u32(b" 12"), None);
    assert_eq!(buf_to_u32(b"-1"), None);
    assert_eq!(buf_to_u32(b"4294967296"), None);
    assert_eq!(buf_to_u32(b"99999999999999999999999999999999999999999999"), None);
}

#[test]
fn buf_to_i64_reads_digit_runs() {
    assert_eq!(buf_to_i64(b"1"), Some(1));
    assert_eq!(buf_to_i64(b"1234567890123"), Some(1234567890123));
    assert_eq!(buf_to_i64(b"9223372036854775807"), Some(9223372036854775807));
}

#[test]
fn buf_to_i64_rejects_what_is_no_number() {
    assert_eq!(buf_to_i64(b""), None);
    assert_eq!(buf_to_i64(b"1_000"), None);
    assert_eq!(buf_to_i64(b"9223372036854775808"), None);
    assert_eq!(buf_to_i64(b"18446744073709551616"), None);
}

#[test]
fn to_u32_and_to_i64_read_text() {
    assert_eq!(to_u32("65535"), Some(65535));
    assert_eq!(to_u32("six"), None);
    assert_eq!(to_u32(""), None);
    assert_eq!(to_i64("42"), Some(42));
    assert_eq!(to_i64("4 2"), None);
    assert_eq!(to_i64("٤٢"), None);
}

#[test]
fn to_string_takes_utf8_only() {
    assert_eq!(to_string(b"string"), Some("string"));
    assert_eq!(to_string("āžčģā".as_bytes()), Some("āžčģā"));
    assert_eq!(to_string(b""), Some(""));
    assert_eq!(to_string(b"\xc4"), None);
    assert_eq!(to_string(b"a\xffb"), None);
}
