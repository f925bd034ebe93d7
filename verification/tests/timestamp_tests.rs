use fraud_api::timestamp::{day_of_week, fast_parse_time_str, hour_of_day};

#[test]
fn epoch_is_zero() {
    assert_eq!(fast_parse_time_str(b"1970-01-01T00:00:00"), 0);
    assert_eq!(fast_parse_time_str(b"1970-01-01T00:00:00Z"), 0);
}

#[test]
fn known_timestamps() {
    assert_eq!(fast_parse_time_str(b"2024-03-15T10:30:00"), 1710498600);
    assert_eq!(fast_parse_time_str(b"2026-03-11T20:23:35Z"), 1773260615);
    assert_eq!(fast_parse_time_str(b"1969-12-31T23:59:59"), -1);
    assert_eq!(fast_parse_time_str(b"0000-03-01T00:00:00"), -62162035200);
}

#[test]
fn short_text_gives_zero() {
    assert_eq!(fast_parse_time_str(b"2024-03-15T10:30:0"), 0);
    assert_eq!(fast_parse_time_str(b""), 0);
}

#[test]
fn next_day_is_one_day_later_across_month_and_leap_days() {
    let pairs: [(&[u8], &[u8]); 5] = [
        (b"2024-02-28T00:00:00", b"2024-02-29T00:00:00"),
        (b"2024-02-29T00:00:00", b"2024-03-01T00:00:00"),
        (b"2023-02-28T00:00:00", b"2023-03-01T00:00:00"),
        (b"1900-02-28T00:00:00", b"1900-03-01T00:00:00"),
        (b"1999-12-31T00:00:00", b"2000-01-01T00:00:00"),
    ];
    for (a, b) in pairs {
        assert_eq!(fast_parse_time_str(b) - fast_parse_time_str(a), 86400);
    }
}

#[test]
fn digits_wrap_as_bytes() {
    // ':' counts as 10 and '/' as 255 at a digit position.
    assert_eq!(
        fast_parse_time_str(b"1970-01-01T00:00:0:"),
        10
    );
    assert_eq!(
        fast_parse_time_str(b"1970-01-01T00:00:0/"),
        255
    );
}

#[test]
fn hour_of_day_values() {
    assert_eq!(hour_of_day(0), 0);
    assert_eq!(hour_of_day(5 * 3600 + 10), 5);
    assert_eq!(hour_of_day(86399), 23);
    assert_eq!(hour_of_day(1773260615), 20);
}

#[test]
fn hour_of_day_before_epoch() {
    assert_eq!(hour_of_day(-1), 0);
    assert_eq!(hour_of_day(-3600), 23);
    assert_eq!(hour_of_day(-3601), 23);
    assert_eq!(hour_of_day(-7200), 22);
}

#[test]
fn day_of_week_values() {
    assert_eq!(day_of_week(0), 3);
    assert_eq!(day_of_week(86400), 4);
    assert_eq!(day_of_week(-1), 2);
    assert_eq!(day_of_week(-86400), 2);
    assert_eq!(day_of_week(1773260615), 2);
}

#[test]
fn day_of_week_advances_each_day() {
    for u in [-100000i64, -86400, -1, 0, 12345, 1773260615] {
        assert_eq!(day_of_week(u + 86400), (day_of_week(u) + 1) % 7);
    }
}

#[test]
fn hour_and_weekday_of_parsed_timestamps() {
    let u = fast_parse_time_str(b"2026-03-11T20:23:35Z");
    assert_eq!(hour_of_day(u), 20);
    assert_eq!(day_of_week(u), 2);
    let v = fast_parse_time_str(b"1970-01-05T07:00:00");
    assert_eq!(hour_of_day(v), 7);
    assert_eq!(day_of_week(v), 0);
}

#[test]
fn hour_before_epoch_uses_truncated_remainder() {
    let u = fast_parse_time_str(b"1969-12-31T23:30:00");
    assert_eq!(u, -1800);
    assert_eq!(hour_of_day(u), 0);
    assert_eq!(day_of_week(u), 2);
}
