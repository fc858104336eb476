use minihttp::parser::parse;
use minihttp::parser::State;
use minihttp::request::Method;
use minihttp::request::Request;
use minihttp::Error;
use minihttp::ParseReason;

#[test]
fn parse_ok() {
    let buf = "\
        GET /path HTTP/1.1\r\n\
        HOST: example.com\r\n\
        \r\n";

    let mut req = Request::new();
    let res = parse(buf.as_bytes(), State::AwaitingHead, &mut req).unwrap();
    assert_eq!(res, State::HeadReady);
}

#[test]
fn parse_partial() {
    let buf = "\
        GET / HTTP/1.1\r\n\
        Host: example.com\r\n\
        \r\n";
    let mut req = Request::new();
    let bytes = buf.as_bytes();
    let res = parse(&bytes[..bytes.len() - 4], State::AwaitingHead, &mut req).unwrap();
    assert_eq!(res, State::AwaitingHead);

    let res = parse(&bytes, res, &mut req).unwrap();
    assert_eq!(res, State::HeadReady);
}

#[test]
fn parse_request_error() {
    let buf = "GET / HTTP\r\n\r\n";
    let mut req = Request::new();
    match parse(&buf.as_bytes(), State::AwaitingHead, &mut req) {
        Err(e) => {
            assert_eq!(e, Error::ParseError(ParseReason::Version));
            match e {
                Error::ParseError(r) => {
                    assert_eq!(r.message(), "invalid HTTP version".to_string())
                }
                _ => unreachable!(),
            }
        }
        Ok(_) => unreachable!(),
    }
}

#[test]
fn parse_read_headers() {
    let buf = "\
        GET / HTTP/1.1\r\n\
        Host: example.com:80\r\n\
        \r\n";
    let mut req = Request::new();
    let res = parse(buf.as_bytes(), State::AwaitingHead, &mut req).unwrap();
    match res {
        State::HeadReady => {
            assert_eq!(req.method, Method::Get);
            assert_eq!(req.version, 1);
        }
        _ => unreachable!(),
    };
}

#[test]
fn parse_rests_once_head_is_ready() {
    let buf = "GET / HTTP/1.1\r\n\r\n";
    let mut req = Request::new();
    let res = parse(buf.as_bytes(), State::HeadReady, &mut req).unwrap();
    assert_eq!(res, State::HeadReady);
    assert!(!req.is_ready());
}
