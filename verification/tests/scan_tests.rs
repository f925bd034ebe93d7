use fraud_api::scan::{find_after, find_direct, position_of, position_of_byte};

#[test]
fn find_direct_skips_separators_after_key() {
    let b = b"{\"amount\": 41.5}";
    assert_eq!(find_direct(b, b"\"amount\""), 11);
    assert_eq!(b[11], b'4');
}

#[test]
fn find_direct_skips_line_breaks_and_colons() {
    let b = b"{\"x\"\r\n : \n7}";
    assert_eq!(find_direct(b, b"\"x\""), 10);
}

#[test]
fn find_direct_missing_key_gives_minus_one() {
    assert_eq!(find_direct(b"{\"a\":1}", b"\"b\""), -1);
    assert_eq!(find_direct(b"", b"\"b\""), -1);
}

#[test]
fn find_direct_uses_first_occurrence() {
    let b = b"\"k\":1,\"k\":2";
    assert_eq!(find_direct(b, b"\"k\""), 4);
}

#[test]
fn find_direct_at_end_of_buffer() {
    let b = b"\"k\": ";
    assert_eq!(find_direct(b, b"\"k\""), 5);
}

#[test]
fn find_after_looks_only_after_block_key() {
    let b = b"{\"customer\":{\"avg_amount\":10},\"merchant\":{\"avg_amount\":20}}";
    let i = find_after(b, b"\"merchant\"", b"\"avg_amount\"");
    assert_eq!(&b[i as usize..i as usize + 2], b"20");
    let j = find_after(b, b"\"customer\"", b"\"avg_amount\"");
    assert_eq!(&b[j as usize..j as usize + 2], b"10");
}

#[test]
fn find_after_missing_block_or_value() {
    let b = b"{\"avg_amount\":10,\"merchant\":{}}";
    assert_eq!(find_after(b, b"\"terminal\"", b"\"avg_amount\""), -1);
    assert_eq!(find_after(b, b"\"merchant\"", b"\"avg_amount\""), -1);
}

#[test]
fn find_after_empty_value_key_without_block() {
    assert_eq!(find_after(b"abc", b"zz", b""), -1);
}

#[test]
fn position_of_finds_first_window() {
    assert_eq!(position_of(b"abcabc", b"ca"), Some(2));
    assert_eq!(position_of(b"abc", b"abcd"), None);
    assert_eq!(position_of_byte(b"a]b]", b']', 2), Some(3));
    assert_eq!(position_of_byte(b"a]b", b']', 2), None);
}
