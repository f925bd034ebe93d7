use fraud_api::http::{
    discard_prefix, next_request, plan_buffer, score_response_index, Action, RequestStep,
};

fn score_request(body: &str) -> String {
    format!(
        "POST /fraud-score HTTP/1.1\r\nHost: x\r\nContent-Length: {}\r\n\r\n{}",
        body.len(),
        body
    )
}

#[test]
fn ready_probe_takes_the_buffer() {
    let b = b"GET /ready HTTP/1.1\r\n\r\nGET /ready HTTP/1.1\r\n\r\n";
    let p = plan_buffer(b);
    assert!(matches!(p.actions.as_slice(), [Action::Ready]));
    assert_eq!(p.consumed, b.len());
    assert!(!p.malformed);
}

#[test]
fn unknown_request_gets_404_and_takes_the_buffer() {
    let b = b"GET /other HTTP/1.1\r\n\r\n";
    let p = plan_buffer(b);
    assert!(matches!(p.actions.as_slice(), [Action::NotFound]));
    assert_eq!(p.consumed, b.len());
}

#[test]
fn pipelined_scoring_requests_and_a_partial_one() {
    let r1 = score_request("{\"a\":1}");
    let r2 = score_request("{\"bb\":22}");
    let partial = "POST /fraud-score HTTP/1.1\r\nContent-Length: 10\r\n\r\n{\"c\"";
    let all = format!("{}{}{}", r1, r2, partial);
    let p = plan_buffer(all.as_bytes());
    assert_eq!(p.actions.len(), 2);
    match p.actions[0] {
        Action::Score { body_start, body_end } => {
            assert_eq!(&all[body_start..body_end], "{\"a\":1}");
            assert_eq!(body_end, r1.len());
        }
        _ => panic!("expected a scoring request"),
    }
    match p.actions[1] {
        Action::Score { body_start, body_end } => {
            assert_eq!(&all[body_start..body_end], "{\"bb\":22}");
        }
        _ => panic!("expected a scoring request"),
    }
    assert_eq!(p.consumed, r1.len() + r2.len());
    assert!(!p.malformed);
}

#[test]
fn header_not_yet_complete() {
    assert!(matches!(
        next_request(b"POST /fraud-score HTTP/1.1\r\nContent-Length: 3\r\n"),
        RequestStep::Incomplete
    ));
    let p = plan_buffer(b"POST /fraud-score HTTP/1.1\r\n");
    assert!(p.actions.is_empty());
    assert_eq!(p.consumed, 0);
}

#[test]
fn missing_content_length_means_empty_body() {
    let b = b"POST /fraud-score HTTP/1.1\r\n\r\n";
    match next_request(b) {
        RequestStep::Score { body_start, body_end } => {
            assert_eq!(body_start, b.len());
            assert_eq!(body_end, b.len());
        }
        _ => panic!("expected a scoring request"),
    }
}

#[test]
fn huge_content_length_is_malformed() {
    let b = b"POST /fraud-score HTTP/1.1\r\nContent-Length: 18446744073709551615\r\n\r\nxyz";
    if usize::BITS == 64 {
        assert!(matches!(next_request(b), RequestStep::Malformed));
        let p = plan_buffer(b);
        assert!(p.malformed);
        assert_eq!(p.consumed, 0);
    }
}

#[test]
fn empty_buffer_plans_nothing() {
    let p = plan_buffer(b"");
    assert!(p.actions.is_empty());
    assert_eq!(p.consumed, 0);
    assert!(!p.malformed);
}

#[test]
fn discard_prefix_keeps_the_rest() {
    let mut v = b"abcdef".to_vec();
    discard_prefix(&mut v, 2);
    assert_eq!(v, b"cdef");
    discard_prefix(&mut v, 0);
    assert_eq!(v, b"cdef");
    discard_prefix(&mut v, 4);
    assert!(v.is_empty());
}

#[test]
fn score_response_index_values() {
    for k in 0..=5 {
        assert_eq!(score_response_index(k), k as usize);
    }
    assert_eq!(score_response_index(6), 3);
    assert_eq!(score_response_index(-1), 3);
}
