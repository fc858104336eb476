use minihttp::ByteBuffer;
use minihttp::Error;
use minihttp::Response;

fn drain(resp: &mut Response) -> Vec<u8> {
    let mut out = ByteBuffer::new();
    resp.write_to(&mut out);
    out.as_slice().to_vec()
}

#[test]
fn default_response_serializes_close_header() {
    let mut resp = Response::new(1);
    resp.done();
    let bytes = drain(&mut resp);
    assert_eq!(bytes, b"HTTP/1.1 200 OK\r\nConnection: close\r\n\r\n".to_vec());
}

#[test]
fn status_and_reason_serialize() {
    let mut resp = Response::new(1);
    resp.set_status(404).unwrap();
    resp.set_reason("Not Found".to_string()).unwrap();
    resp.done();
    let bytes = drain(&mut resp);
    assert_eq!(bytes, b"HTTP/1.1 404 Not Found\r\nConnection: close\r\n\r\n".to_vec());
}

#[test]
fn headers_and_body_serialize_in_order() {
    let mut resp = Response::new(1);
    resp.with_header("Content-Type".to_string(), "text/plain".to_string()).unwrap();
    resp.with_header("X-First".to_string(), "1".to_string()).unwrap();
    resp.with_body(b"Hello world!");
    let bytes = drain(&mut resp);
    let expected = b"HTTP/1.1 200 OK\r\n\
        Content-Type: text/plain\r\n\
        X-First: 1\r\n\
        Connection: close\r\n\
        \r\n\
        Hello world!"
        .to_vec();
    assert_eq!(bytes, expected);
}

#[test]
fn body_appends_across_calls() {
    let mut resp = Response::new(0);
    resp.with_body(b"part one, ");
    resp.with_body(b"part two");
    let bytes = drain(&mut resp);
    let text = String::from_utf8(bytes).unwrap();
    assert!(text.starts_with("HTTP/1.0 200 OK\r\n"));
    assert!(text.ends_with("\r\n\r\npart one, part two"));
}

#[test]
fn done_is_idempotent() {
    let mut resp = Response::new(1);
    resp.done();
    resp.done();
    let bytes = drain(&mut resp);
    assert_eq!(bytes, b"HTTP/1.1 200 OK\r\nConnection: close\r\n\r\n".to_vec());
}

#[test]
fn headers_refused_once_body_started() {
    let mut resp = Response::new(1);
    resp.with_body(b"x");
    assert_eq!(
        resp.with_header("Late".to_string(), "no".to_string()),
        Err(Error::InvalidState)
    );
    assert_eq!(resp.set_status(500), Err(Error::InvalidState));
    assert_eq!(resp.set_reason("Oops".to_string()), Err(Error::InvalidState));
    assert_eq!(resp.flush_headers(), Err(Error::InvalidState));
}

#[test]
fn multi_digit_status_codes_serialize() {
    let mut resp = Response::new(1);
    resp.set_status(65535).unwrap();
    resp.set_reason("Weird".to_string()).unwrap();
    resp.done();
    let bytes = drain(&mut resp);
    assert_eq!(bytes, b"HTTP/1.1 65535 Weird\r\nConnection: close\r\n\r\n".to_vec());
}

#[test]
fn round_trip_recovers_status_headers_and_body() {
    // Serialize a response, then re-parse the byte stream as a generic HTTP
    // message: status line fields, header list (order preserved, plus the
    // synthesized policy header) and body all come back unchanged.
    let mut resp = Response::new(1);
    resp.set_status(201).unwrap();
    resp.set_reason("Created".to_string()).unwrap();
    resp.with_header("X-Alpha".to_string(), "one".to_string()).unwrap();
    resp.with_header("X-Beta".to_string(), "two".to_string()).unwrap();
    resp.with_body(b"the body bytes");
    let bytes = drain(&mut resp);
    let text = String::from_utf8(bytes).unwrap();

    let (head, body) = text.split_once("\r\n\r\n").unwrap();
    assert_eq!(body, "the body bytes");
    let mut lines = head.split("\r\n");
    assert_eq!(lines.next().unwrap(), "HTTP/1.1 201 Created");
    let headers: Vec<(&str, &str)> =
        lines.map(|l| l.split_once(": ").unwrap()).collect();
    assert_eq!(
        headers,
        vec![("X-Alpha", "one"), ("X-Beta", "two"), ("Connection", "close")]
    );
}
