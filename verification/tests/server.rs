use minihttp::ByteBuffer;
use minihttp::Error;
use minihttp::HandlerPoll;
use minihttp::HttpHandler;
use minihttp::NewHandler;
use minihttp::ParseReason;
use minihttp::PipelineDispatcher;
use minihttp::Progress;
use minihttp::Request;
use minihttp::Response;

/// Replies `200` with a `Content-Type` header and a body naming the path,
/// after `delay` pending polls.
struct EchoHandler {
    keep_alive: bool,
    delay: u32,
    fail: bool,
}

impl HttpHandler for EchoHandler {
    fn call(&mut self, req: &Request) -> HandlerPoll {
        if self.delay > 0 {
            self.delay -= 1;
            return HandlerPoll::NotReady;
        }
        if self.fail {
            return HandlerPoll::Failed;
        }
        let mut resp = Response::new(req.version);
        resp.with_header("Content-Type".to_string(), "text/plain".to_string())
            .unwrap();
        let mut body = b"Hello ".to_vec();
        body.extend_from_slice(req.path.as_bytes());
        resp.with_body(&body);
        HandlerPoll::Ready(resp)
    }

    fn keep_alive(&self) -> bool {
        self.keep_alive
    }
}

struct EchoFactory;

impl NewHandler for EchoFactory {
    type Handler = EchoHandler;

    fn new_handler(&self) -> EchoHandler {
        EchoHandler { keep_alive: false, delay: 0, fail: false }
    }
}

/// Step the dispatcher until it blocks or finishes, draining output bytes.
fn run(d: &mut PipelineDispatcher<EchoHandler>, out: &mut Vec<u8>) -> Result<Progress, Error> {
    loop {
        match d.dispatch() {
            Ok(Progress::Advanced) => continue,
            Ok(Progress::NeedWrite) => {
                let mut b = ByteBuffer::new();
                d.write_to(&mut b);
                out.extend_from_slice(b.as_slice());
            }
            other => return other,
        }
    }
}

#[test]
fn hello_world_cycle() {
    let factory = EchoFactory;
    let mut d = PipelineDispatcher::new(factory.new_handler());
    let mut out: Vec<u8> = Vec::new();

    assert_eq!(run(&mut d, &mut out), Ok(Progress::NeedInput));
    d.read_from(b"GET /path HTTP/1.1\r\nHost: example.com\r\n\r\n");
    assert_eq!(run(&mut d, &mut out), Ok(Progress::Done));

    let text = String::from_utf8(out).unwrap();
    assert!(text.starts_with("HTTP/1.1 200 OK\r\n"));
    assert!(text.contains("Content-Type: text/plain\r\n"));
    assert!(text.ends_with("\r\n\r\nHello /path"));
}

#[test]
fn zero_body_request_retires_without_more_bytes() {
    // A request with no declared body finishes on exactly the bytes that
    // completed its head: the dispatcher never reports needing input after
    // the head parsed.
    let mut d = PipelineDispatcher::new(EchoHandler { keep_alive: false, delay: 0, fail: false });
    let mut out: Vec<u8> = Vec::new();
    d.read_from(b"GET / HTTP/1.1\r\nContent-Length: 0\r\n\r\n");
    assert_eq!(run(&mut d, &mut out), Ok(Progress::Done));
    assert!(!out.is_empty());
}

#[test]
fn pipelined_requests_answered_in_order() {
    // Two complete back-to-back requests in one buffer: both are processed,
    // their responses appear in request order, and no byte of the second is
    // consumed as part of the first.
    let mut d = PipelineDispatcher::new(EchoHandler { keep_alive: true, delay: 0, fail: false });
    let mut out: Vec<u8> = Vec::new();
    d.read_from(b"GET /first HTTP/1.1\r\n\r\nGET /second HTTP/1.1\r\n\r\n");
    assert_eq!(run(&mut d, &mut out), Ok(Progress::NeedInput));

    let text = String::from_utf8(out).unwrap();
    let first = text.find("Hello /first").unwrap();
    let second = text.find("Hello /second").unwrap();
    assert!(first < second);
}

#[test]
fn truncated_head_waits_for_more_bytes() {
    let mut d = PipelineDispatcher::new(EchoHandler { keep_alive: false, delay: 0, fail: false });
    let mut out: Vec<u8> = Vec::new();
    d.read_from(b"GET / HTTP/1.1\r\nHost: exa");
    assert_eq!(run(&mut d, &mut out), Ok(Progress::NeedInput));
    assert!(out.is_empty());

    d.read_from(b"mple.com\r\n\r\n");
    assert_eq!(run(&mut d, &mut out), Ok(Progress::Done));
    let text = String::from_utf8(out).unwrap();
    assert!(text.starts_with("HTTP/1.1 200 OK\r\n"));
}

#[test]
fn malformed_version_is_fatal_with_error_response() {
    let mut d = PipelineDispatcher::new(EchoHandler { keep_alive: false, delay: 0, fail: false });
    let mut out: Vec<u8> = Vec::new();
    d.read_from(b"GET / HTTP\r\n\r\n");
    assert_eq!(run(&mut d, &mut out), Err(Error::ParseError(ParseReason::Version)));

    // The head never parsed, so the best-effort response carries the
    // fresh request's default version.
    let text = String::from_utf8(out).unwrap();
    assert!(text.starts_with("HTTP/1.0 400 Bad Request\r\n"));
    assert_eq!(d.dispatch(), Ok(Progress::Done));
}

#[test]
fn handler_failure_sends_fallback_response() {
    let mut d = PipelineDispatcher::new(EchoHandler { keep_alive: false, delay: 0, fail: true });
    let mut out: Vec<u8> = Vec::new();
    d.read_from(b"GET / HTTP/1.1\r\n\r\n");
    assert_eq!(run(&mut d, &mut out), Err(Error::HandlerError));

    let text = String::from_utf8(out).unwrap();
    assert!(text.starts_with("HTTP/1.1 500 Internal Server Error\r\n"));
    assert_eq!(d.dispatch(), Ok(Progress::Done));
}

#[test]
fn pending_handler_suspends_without_reparsing() {
    let mut d = PipelineDispatcher::new(EchoHandler { keep_alive: false, delay: 2, fail: false });
    let mut out: Vec<u8> = Vec::new();
    d.read_from(b"GET /slow HTTP/1.1\r\n\r\n");
    assert_eq!(run(&mut d, &mut out), Ok(Progress::WaitHandler));
    assert_eq!(run(&mut d, &mut out), Ok(Progress::WaitHandler));
    assert_eq!(run(&mut d, &mut out), Ok(Progress::Done));
    let text = String::from_utf8(out).unwrap();
    assert!(text.ends_with("Hello /slow"));
}

#[test]
fn request_body_is_skipped_before_next_request() {
    let mut d = PipelineDispatcher::new(EchoHandler { keep_alive: true, delay: 0, fail: false });
    let mut out: Vec<u8> = Vec::new();
    d.read_from(b"POST /a HTTP/1.1\r\nContent-Length: 4\r\n\r\nbodyGET /b HTTP/1.1\r\n\r\n");
    assert_eq!(run(&mut d, &mut out), Ok(Progress::NeedInput));
    let text = String::from_utf8(out).unwrap();
    let a = text.find("Hello /a").unwrap();
    let b = text.find("Hello /b").unwrap();
    assert!(a < b);
}

#[test]
fn late_body_bytes_are_skipped_as_they_arrive() {
    let mut d = PipelineDispatcher::new(EchoHandler { keep_alive: true, delay: 0, fail: false });
    let mut out: Vec<u8> = Vec::new();
    d.read_from(b"POST /a HTTP/1.1\r\nContent-Length: 8\r\n\r\nfour");
    assert_eq!(run(&mut d, &mut out), Ok(Progress::NeedInput));
    assert!(String::from_utf8(out.clone()).unwrap().contains("Hello /a"));

    d.read_from(b"moreGET /b HTTP/1.1\r\n\r\n");
    assert_eq!(run(&mut d, &mut out), Ok(Progress::NeedInput));
    assert!(String::from_utf8(out).unwrap().contains("Hello /b"));
}

#[test]
fn peer_close_ends_connection() {
    let mut d = PipelineDispatcher::new(EchoHandler { keep_alive: false, delay: 0, fail: false });
    let mut out: Vec<u8> = Vec::new();
    d.note_eof();
    assert_eq!(run(&mut d, &mut out), Ok(Progress::Done));
    assert!(out.is_empty());
}
