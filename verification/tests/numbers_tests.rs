use fraud_api::numbers::{decimal_span, parse_bool_fast, parse_int_fast, parse_string_fast};

#[test]
fn parse_int_reads_digit_run() {
    assert_eq!(parse_int_fast(b"12ab", 0), (12, 2));
    assert_eq!(parse_int_fast(b"x: 305,", 3), (305, 6));
    assert_eq!(parse_int_fast(b"0042", 0), (42, 4));
}

#[test]
fn parse_int_without_digits_gives_zero() {
    assert_eq!(parse_int_fast(b"abc", 1), (0, 1));
    assert_eq!(parse_int_fast(b"-5", 0), (0, 0));
}

#[test]
fn parse_int_past_end_keeps_position() {
    assert_eq!(parse_int_fast(b"12", 2), (0, 2));
    assert_eq!(parse_int_fast(b"12", 9), (0, 9));
}

#[test]
fn parse_int_wraps_like_release_arithmetic() {
    assert_eq!(parse_int_fast(b"9223372036854775807", 0), (i64::MAX, 19));
    assert_eq!(parse_int_fast(b"9223372036854775808", 0), (i64::MIN, 19));
    assert_eq!(parse_int_fast(b"18446744073709551615", 0), (-1, 20));
    assert_eq!(parse_int_fast(b"18446744073709551617", 0), (1, 20));
}

#[test]
fn parse_int_reads_back_written_integers() {
    for n in [0i64, 7, 10, 99, 123456789, i64::MAX] {
        let text = format!("{}}}", n);
        let digits = n.to_string().len();
        assert_eq!(parse_int_fast(text.as_bytes(), 0), (n, digits));
    }
}

#[test]
fn parse_bool_reads_true_and_false() {
    assert_eq!(parse_bool_fast(b"true,", 0), (true, 4));
    assert_eq!(parse_bool_fast(b"false}", 0), (false, 5));
    assert_eq!(parse_bool_fast(b"x:true", 2), (true, 6));
    assert_eq!(parse_bool_fast(b"null", 0), (false, 5));
    assert_eq!(parse_bool_fast(b"", 3), (false, 8));
}

#[test]
fn parse_string_reads_quoted_contents() {
    let b = b"\"abc\"x";
    let (s, next) = parse_string_fast(b, 0);
    assert_eq!(s, b"abc");
    assert_eq!(next, 5);
    let (e, n2) = parse_string_fast(b"\"\"", 0);
    assert_eq!(e, b"");
    assert_eq!(n2, 2);
}

#[test]
fn parse_string_reads_back_written_strings() {
    for s in ["", "MERC-001", "2026-03-11T20:23:35Z", "a b:c"] {
        let text = format!("\"{}\",\"next\"", s);
        let (got, next) = parse_string_fast(text.as_bytes(), 0);
        assert_eq!(got, s.as_bytes());
        assert_eq!(next, s.len() + 2);
    }
}

#[test]
fn parse_string_without_opening_quote() {
    let (s, next) = parse_string_fast(b"abc", 1);
    assert_eq!(s, b"");
    assert_eq!(next, 1);
    let (s2, next2) = parse_string_fast(b"abc", 7);
    assert_eq!(s2, b"");
    assert_eq!(next2, 7);
}

#[test]
fn parse_string_without_closing_quote() {
    let (s, next) = parse_string_fast(b"x\"abc", 1);
    assert_eq!(s, b"");
    assert_eq!(next, 5);
}

#[test]
fn decimal_span_finds_point_and_end() {
    assert_eq!(decimal_span(b"12.5.3x", 0), (2, 6));
    assert_eq!(decimal_span(b"42,", 0), (2, 2));
    assert_eq!(decimal_span(b"a: .5}", 3), (3, 5));
    assert_eq!(decimal_span(b"7", 4), (4, 4));
}
