use rinha::responses::{
    full_response, response_body, BODIES, FALLBACK_BODY, FALLBACK_RESPONSE, NOTFOUND_RESPONSE,
    READY_RESPONSE, RESPONSES,
};

#[test]
fn bodies_have_expected_approval() {
    for c in 0..=2 {
        assert!(response_body(c).windows(4).any(|w| w == b"true"));
    }
    for c in 3..=5 {
        assert!(response_body(c).windows(5).any(|w| w == b"false"));
    }
}

#[test]
fn content_length_matches_body() {
    for c in 0..6 {
        let body = BODIES[c].as_bytes();
        let resp = RESPONSES[c].as_bytes();
        // The response must end with exactly its body.
        assert!(resp.ends_with(body), "response {c} body mismatch");
        // And the declared Content-Length must equal the body length.
        let needle = format!("Content-Length: {}\r\n", body.len());
        let hay = std::str::from_utf8(resp).unwrap();
        assert!(hay.contains(&needle), "response {c} wrong content-length");
    }
}

#[test]
fn fallback_is_approve_zero() {
    assert_eq!(FALLBACK_BODY, BODIES[0]);
    assert_eq!(FALLBACK_RESPONSE, RESPONSES[0]);
}

#[test]
fn out_of_range_uses_fallback() {
    assert_eq!(response_body(99), FALLBACK_BODY.as_bytes());
    assert_eq!(full_response(99), FALLBACK_RESPONSE.as_bytes());
}

#[test]
fn each_count_has_its_own_text() {
    for c in 0..6 {
        assert_eq!(response_body(c), BODIES[c].as_bytes());
        assert_eq!(full_response(c), RESPONSES[c].as_bytes());
    }
    assert_eq!(response_body(3), b"{\"approved\":false,\"fraud_score\":0.6}");
    assert_eq!(response_body(6), response_body(0));
}

#[test]
fn empty_answers_declare_no_body() {
    for text in [READY_RESPONSE, NOTFOUND_RESPONSE] {
        assert!(text.contains("Content-Length: 0\r\n"));
        assert!(text.ends_with("\r\n\r\n"));
    }
    assert!(NOTFOUND_RESPONSE.starts_with("HTTP/1.1 404 "));
}
