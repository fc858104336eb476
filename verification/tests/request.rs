use std::str;

use minihttp::request::Method;
use minihttp::request::Request;
use minihttp::Error;
use minihttp::ParseReason;

#[test]
fn method_from_str() {
    assert_eq!(Method::from("GET"), Method::Get);
    assert_eq!(Method::from("get"), Method::Other("get".to_string()));
    assert_eq!(Method::from("Get"), Method::Other("Get".to_string()));

    assert_eq!(Method::from("OPTIONS"), Method::Options);
    assert_eq!(Method::from("GET"), Method::Get);
    assert_eq!(Method::from("HEAD"), Method::Head);
    assert_eq!(Method::from("POST"), Method::Post);
    assert_eq!(Method::from("PUT"), Method::Put);
    assert_eq!(Method::from("DELETE"), Method::Delete);
    assert_eq!(Method::from("TRACE"), Method::Trace);
    assert_eq!(Method::from("CONNECT"), Method::Connect);
}

#[test]
fn debug_fmt() {
    assert_eq!(format!("{:?}", Method::Get), "Get");
    assert_eq!(format!("{:?}", Method::Other("patch".to_string())), "Other(\"patch\")");
}

#[test]
fn fresh_request_defaults() {
    let req = Request::new();
    assert!(!req.is_ready());
    assert_eq!(req.buffered_len(), 0);
    assert_eq!(req.version, 0);
    assert_eq!(req.path, "".to_string());
    assert!(req.host().is_none());
    assert!(req.content_type().is_none());
}

#[test]
fn request() {
    let mut req = Request::new();
    let buf = b"GET /path HTTP/1.1\r\nHost: example.com\r\n\r\n";

    req.parse_from(buf).unwrap();
    assert!(req.is_ready());
    assert_eq!(req.method, Method::Get);
    assert_eq!(req.path, "/path".to_string());
    assert_eq!(req.version, 1);

    assert_eq!(req.host().unwrap(), b"example.com");
}

#[test]
fn partial_request() {
    let mut req = Request::new();

    assert_eq!(req.parse_from(b"HEAD /path?with=query HTTP/1.1\r\n"), Ok(()));
    assert!(!req.is_ready());

    assert_eq!(req.parse_from(b"Host: www.example.com\r\n\r\n"), Ok(()));
    assert!(req.is_ready());

    assert_eq!(req.method, Method::Head);
    assert_eq!(req.path, "/path?with=query".to_string());
    assert_eq!(req.version, 1);

    assert_eq!(str::from_utf8(req.host().unwrap()).unwrap(), "www.example.com");
}

#[test]
fn content_type_and_repeated_headers() {
    let mut req = Request::new();
    req.read_from(b"GET / HTTP/1.1\r\nContent-Type: text/plain\r\nContent-Type: text/html\r\n\r\n");
    req.parse().unwrap();
    assert!(req.is_ready());
    assert_eq!(req.content_type().unwrap(), b"text/html");
    assert!(req.host().is_none());
}

#[test]
fn content_length_declares_body() {
    let mut req = Request::new();
    req.read_from(b"POST /submit HTTP/1.1\r\nContent-Length: 5\r\n\r\nhello");
    req.parse().unwrap();
    assert!(req.is_ready());
    let left = req.retire();
    assert_eq!(left, 0);
    assert_eq!(req.buffered_len(), 0);
}

#[test]
fn conflicting_content_lengths_rejected() {
    let mut req = Request::new();
    req.read_from(b"POST / HTTP/1.1\r\nContent-Length: 5\r\nContent-Length: 6\r\n\r\n");
    assert_eq!(req.parse(), Err(Error::ParseError(ParseReason::ContentLength)));
}

#[test]
fn equal_content_lengths_accepted() {
    let mut req = Request::new();
    req.read_from(b"POST / HTTP/1.1\r\nContent-Length: 7\r\nContent-Length: 7\r\n\r\n");
    assert_eq!(req.parse(), Ok(()));
    assert!(req.is_ready());
}

#[test]
fn invalid_content_length_rejected() {
    let mut req = Request::new();
    req.read_from(b"POST / HTTP/1.1\r\nContent-Length: abc\r\n\r\n");
    assert_eq!(req.parse(), Err(Error::ParseError(ParseReason::ContentLength)));
}

#[test]
fn huge_content_length_rejected() {
    let mut req = Request::new();
    req.read_from(b"POST / HTTP/1.1\r\nContent-Length: 99999999999999999999999\r\n\r\n");
    assert_eq!(req.parse(), Err(Error::ParseError(ParseReason::ContentLength)));
}

#[test]
fn malformed_heads_rejected() {
    let cases: Vec<(&[u8], ParseReason)> = vec![
        (b" / HTTP/1.1\r\n\r\n", ParseReason::Method),
        (b"G\x01T / HTTP/1.1\r\n\r\n", ParseReason::Method),
        (b"GET  HTTP/1.1\r\n\r\n", ParseReason::Path),
        (b"GET / HTTP/2.1\r\n\r\n", ParseReason::Version),
        (b"GET /\r\n\r\n", ParseReason::Version),
        (b"GET / HTTP/1.1\r\nNoColonHere\r\n\r\n", ParseReason::HeaderName),
        (b"GET / HTTP/1.1\r\n: value\r\n\r\n", ParseReason::HeaderName),
        (b"GET / HTTP/1.1\r\nA: b\x01c\r\n\r\n", ParseReason::HeaderValue),
    ];
    for (bytes, reason) in cases {
        let mut req = Request::new();
        req.read_from(bytes);
        assert_eq!(req.parse(), Err(Error::ParseError(reason)));
    }
}

#[test]
fn too_many_headers_rejected() {
    let mut head = b"GET / HTTP/1.1\r\n".to_vec();
    for i in 0..17 {
        head.extend_from_slice(format!("H{}: v\r\n", i).as_bytes());
    }
    head.extend_from_slice(b"\r\n");
    let mut req = Request::new();
    req.read_from(&head);
    assert_eq!(req.parse(), Err(Error::ParseError(ParseReason::TooManyHeaders)));
}

#[test]
fn sixteen_headers_accepted() {
    let mut head = b"GET / HTTP/1.1\r\n".to_vec();
    for i in 0..16 {
        head.extend_from_slice(format!("H{}: v\r\n", i).as_bytes());
    }
    head.extend_from_slice(b"\r\n");
    let mut req = Request::new();
    req.read_from(&head);
    assert_eq!(req.parse(), Ok(()));
    assert!(req.is_ready());
}

#[test]
fn head_at_maximum_size_parses() {
    // A head of exactly the configured maximum parses; one byte over is
    // rejected as oversized, not silently truncated.
    let head = b"GET /aaaaaaaa HTTP/1.1\r\n\r\n".to_vec();
    let max = head.len();

    let mut req = Request::with_max_head(max);
    req.read_from(&head);
    assert_eq!(req.parse(), Ok(()));
    assert!(req.is_ready());

    let mut req = Request::with_max_head(max - 1);
    req.read_from(&head);
    assert_eq!(req.parse(), Err(Error::ParseError(ParseReason::TooLarge)));
}

#[test]
fn make_response_carries_the_request_version() {
    let mut req = Request::new();
    req.parse_from(b"GET / HTTP/1.1\r\n\r\n").unwrap();
    let resp = req.make_response();
    resp.set_status(204).unwrap();
    resp.set_reason("No Content".to_string()).unwrap();
    resp.done();
    let mut out = minihttp::ByteBuffer::new();
    resp.write_to(&mut out);
    assert_eq!(out.as_slice(), b"HTTP/1.1 204 No Content\r\nConnection: close\r\n\r\n");

    // The same response is handed back on later calls: it is already past
    // collecting headers.
    let resp2 = req.make_response();
    assert_eq!(
        resp2.with_header("X".to_string(), "y".to_string()),
        Err(Error::InvalidState)
    );
}

#[test]
fn oversized_unterminated_head_rejected() {
    let mut req = Request::with_max_head(8);
    req.read_from(b"GET /aaaaaaaaaaaa");
    assert_eq!(req.parse(), Err(Error::ParseError(ParseReason::TooLarge)));
}
