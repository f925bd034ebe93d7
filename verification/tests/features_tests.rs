use fraud_api::features::{extract_features, mcc_code};
use fraud_api::numbers::decimal_span;

const BODY: &str = "{\"id\":\"tx-1\",\"transaction\":{\"amount\":384.88,\"installments\":3,\"requested_at\":\"2026-03-11T20:23:35Z\"},\"customer\":{\"avg_amount\":769.76,\"tx_count_24h\":3,\"known_merchants\":[\"MERC-009\",\"MERC-001\"]},\"merchant\":{\"id\":\"MERC-001\",\"mcc\":\"5912\",\"avg_amount\":298.95},\"terminal\":{\"is_online\":false,\"card_present\":true,\"km_from_home\":13.7},\"last_transaction\":{\"timestamp\":\"2026-03-11T14:58:35Z\",\"km_from_current\":18.8}}";

#[test]
fn extract_features_of_full_request() {
    let b = BODY.as_bytes();
    let f = extract_features(b);
    assert_eq!(f.amount_at, 37);
    assert_eq!(f.installments, 3);
    assert_eq!(f.customer_avg_amount_at, 125);
    assert_eq!(f.tx_count_24h, 3);
    assert_eq!(f.request_hour, 20);
    assert_eq!(f.request_weekday, 2);
    assert_eq!(f.km_from_home_at, 319);
    assert!(!f.is_online);
    assert!(f.card_present);
    assert!(f.known_merchant);
    assert_eq!(f.mcc, 5912);
    assert_eq!(f.merchant_avg_amount_at, 246);
    let last = f.last_transaction.expect("previous transaction");
    assert_eq!(last.seconds_since, 19500);
    assert_eq!(last.km_from_current_at, 398);
    let (point, end) = decimal_span(b, f.amount_at as usize);
    assert_eq!(&b[f.amount_at as usize..point], b"384");
    assert_eq!(&b[point..end], b".88");
}

#[test]
fn extract_features_of_empty_body() {
    let f = extract_features(b"{}");
    assert_eq!(f.amount_at, -1);
    assert_eq!(f.installments, 0);
    assert_eq!(f.customer_avg_amount_at, -1);
    assert_eq!(f.tx_count_24h, 0);
    assert_eq!(f.request_hour, 0);
    assert_eq!(f.request_weekday, 3);
    assert!(f.last_transaction.is_none());
    assert_eq!(f.km_from_home_at, -1);
    assert!(!f.is_online);
    assert!(!f.card_present);
    assert!(!f.known_merchant);
    assert_eq!(f.mcc, 0);
    assert_eq!(f.merchant_avg_amount_at, -1);
}

#[test]
fn null_last_transaction_is_none() {
    let body = BODY.replace(
        "\"last_transaction\":{\"timestamp\":\"2026-03-11T14:58:35Z\",\"km_from_current\":18.8}",
        "\"last_transaction\":null",
    );
    let f = extract_features(body.as_bytes());
    assert!(f.last_transaction.is_none());
}

#[test]
fn empty_last_timestamp_is_none() {
    let body = BODY.replace("\"timestamp\":\"2026-03-11T14:58:35Z\"", "\"timestamp\":\"\"");
    let f = extract_features(body.as_bytes());
    assert!(f.last_transaction.is_none());
}

#[test]
fn missing_last_distance_points_before_the_block() {
    let body = BODY.replace(",\"km_from_current\":18.8", "");
    let f = extract_features(body.as_bytes());
    let last = f.last_transaction.expect("previous transaction");
    let start = body.find("\"last_transaction\"").unwrap() as isize;
    assert_eq!(last.km_from_current_at, start - 1);
}

#[test]
fn unknown_merchant() {
    let body = BODY.replace("\"MERC-009\",\"MERC-001\"", "\"MERC-009\"");
    let f = extract_features(body.as_bytes());
    assert!(!f.known_merchant);
}

#[test]
fn unclosed_known_merchants_list_knows_nobody() {
    let body = "{\"known_merchants\":[\"M1\",\"merchant\":{\"id\":\"M1\"}}";
    let f = extract_features(body.as_bytes());
    assert!(!f.known_merchant);
    let body2 = "{\"known_merchants\":[\"M1\"],\"merchant\":{\"id\":\"M1\"}}";
    assert!(extract_features(body2.as_bytes()).known_merchant);
}

#[test]
fn online_flag() {
    let body = BODY.replace("\"is_online\":false", "\"is_online\":true");
    assert!(extract_features(body.as_bytes()).is_online);
}

#[test]
fn mcc_code_skips_non_digits() {
    assert_eq!(mcc_code(b"5912"), 5912);
    assert_eq!(mcc_code(b"59a1"), 591);
    assert_eq!(mcc_code(b""), 0);
    assert_eq!(mcc_code(b"12345"), 12345);
}
