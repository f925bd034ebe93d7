use fraud_api::config::mcc_risk_entries;

#[test]
fn mcc_risk_entries_lists_codes_in_order() {
    let d = b"{\"5411\": 0.15, \"5812\":0.30, \"abc\": 1, \"99999\": 0.9, \"0763\" : 0.5}";
    let e = mcc_risk_entries(d);
    let got: Vec<(usize, usize)> = e.iter().map(|x| (x.mcc, x.value_at)).collect();
    assert_eq!(got, vec![(5411, 9), (5812, 22), (763, 61)]);
}

#[test]
fn mcc_risk_entries_later_entries_follow_earlier() {
    let d = b"{\"1\":0.1,\"1\":0.2}";
    let e = mcc_risk_entries(d);
    let got: Vec<(usize, usize)> = e.iter().map(|x| (x.mcc, x.value_at)).collect();
    assert_eq!(got, vec![(1, 5), (1, 13)]);
}

#[test]
fn mcc_risk_entries_skips_non_digit_keys() {
    assert!(mcc_risk_entries(b"{\"12a\":0.5,\"\":1}").is_empty());
    assert!(mcc_risk_entries(b"").is_empty());
    assert!(mcc_risk_entries(b"{\"12").is_empty());
}
