use minihttp::Error;
use minihttp::ParseReason;

#[test]
fn test_parse_error() {
    let e = Error::ParseError(ParseReason::HeaderName);
    assert_eq!(e.message(), "parse error: invalid header name".to_string());
    assert_eq!(format!("{:?}", e), "ParseError(HeaderName)");
}

#[test]
fn reason_messages() {
    assert_eq!(ParseReason::Method.message(), "invalid method token");
    assert_eq!(ParseReason::Path.message(), "invalid path token");
    assert_eq!(ParseReason::Version.message(), "invalid HTTP version");
    assert_eq!(ParseReason::HeaderName.message(), "invalid header name");
    assert_eq!(ParseReason::HeaderValue.message(), "invalid header value");
    assert_eq!(ParseReason::TooManyHeaders.message(), "too many headers");
    assert_eq!(ParseReason::TooLarge.message(), "request head too large");
    assert_eq!(ParseReason::ContentLength.message(), "invalid content length");
}

#[test]
fn error_messages() {
    assert_eq!(Error::HandlerError.message(), "handler error");
    assert_eq!(Error::InvalidState.message(), "invalid state");
    assert_eq!(Error::ParseError(ParseReason::TooLarge).message(), "parse error: request head too large");
}
