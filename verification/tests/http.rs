use rinha::http::{
    content_length, declared, find_ci, parse_request, request_path_is, try_parse_request, Declared,
    ParseResult,
};

const POST: &[u8] = b"POST /fraud-score HTTP/1.1\r\nHost: x\r\nContent-Length: 5\r\n\r\nhello";

#[test]
fn a_post_carries_its_body() {
    let head = POST.len() - 5;
    match parse_request(POST) {
        ParseResult::Fraud { consumed, body_off, body_len } => {
            assert_eq!((consumed, body_off, body_len), (POST.len(), head, 5));
            assert_eq!(&POST[body_off..body_off + body_len], b"hello");
        }
        other => panic!("{other:?}"),
    }
    // Without a length the body is empty.
    let bare = b"POST / HTTP/1.1\r\n\r\nrest";
    assert!(matches!(
        parse_request(bare),
        ParseResult::Fraud { consumed: 19, body_off: 19, body_len: 0 }
    ));
}

#[test]
fn incomplete_requests_wait() {
    for n in 0..POST.len() {
        assert!(matches!(parse_request(&POST[..n]), ParseResult::Need), "{n}");
    }
    // More bytes behind a request change nothing.
    let mut more = POST.to_vec();
    more.extend_from_slice(b"GET /");
    assert!(matches!(
        parse_request(&more),
        ParseResult::Fraud { consumed, .. } if consumed == POST.len()
    ));
}

#[test]
fn routes_are_told_apart() {
    assert!(matches!(
        parse_request(b"GET /ready HTTP/1.1\r\n\r\n"),
        ParseResult::Ready(23)
    ));
    assert!(matches!(
        parse_request(b"GET /readyz HTTP/1.1\r\n\r\n"),
        ParseResult::NotFound(24)
    ));
    assert!(matches!(
        parse_request(b"GET\r\n\r\n"),
        ParseResult::NotFound(7)
    ));
    assert!(matches!(
        parse_request(b"DELETE /ready HTTP/1.1\r\n\r\n"),
        ParseResult::NotFound(26)
    ));
    assert!(request_path_is(b"GET /ready HTTP", 15, b"/ready"));
    assert!(!request_path_is(b"GET /ready", 10, b"/ready"));
}

#[test]
fn lengths_are_found_in_any_case() {
    assert_eq!(content_length(b"Content-Length: 12\r\n"), Some(12));
    assert_eq!(content_length(b"content-length:\t 7\r\n"), Some(7));
    assert_eq!(content_length(b"CONTENT-Length:3"), Some(3));
    assert_eq!(content_length(b"Host: x\r\n"), None);
    assert_eq!(content_length(b"Content-Length: x"), None);
    // The usual spelling goes before the others.
    assert_eq!(content_length(b"content-length: 1\r\nContent-Length: 2\r\n"), Some(2));
}

#[test]
fn lengths_beyond_all_bounds_are_told() {
    assert!(matches!(declared(b"Content-Length: 18446744073709551616"), Declared::Oversized));
    assert!(matches!(
        declared(b"Content-Length: 18446744073709551615"),
        Declared::Length(usize::MAX)
    ));
    assert!(matches!(declared(b""), Declared::Missing));
    let huge = b"POST / HTTP/1.1\r\nContent-Length: 18446744073709551615\r\n\r\n";
    assert!(try_parse_request(huge).is_none());
    let over = b"POST / HTTP/1.1\r\nContent-Length: 99999999999999999999999\r\n\r\n";
    assert!(try_parse_request(over).is_none());
    assert!(try_parse_request(POST).is_some());
}

#[test]
fn searches_ignore_case() {
    assert_eq!(find_ci(b"xxAbCabc", b"abc"), Some(2));
    assert_eq!(find_ci(b"ab", b"abc"), None);
    assert_eq!(find_ci(b"abc", b""), None);
    assert_eq!(find_ci(b"[\\]", b"{|}"), None);
}
