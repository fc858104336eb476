//! Error taxonomy of the connection engine.
//!
//! Would-block and peer-closed are first-class non-error outcomes reported by
//! the dispatcher, not variants here.  A `ParseError` is fatal to its
//! connection: the dispatcher synthesizes a best-effort error response and
//! closes.  A `HandlerError` likewise triggers a fallback error response.

use vstd::prelude::*;
use vstd::string::StringExecFns;

verus! {

/// Why a request head was rejected.
#[derive(Debug, PartialEq, Eq, Structural, Clone, Copy)]
pub enum ParseReason {
    /// Method token empty or containing a byte outside the token charset.
    Method,
    /// Path token empty or containing a byte outside the token charset.
    Path,
    /// Version token not of the form `HTTP/1.<digit>`.
    Version,
    /// Header name empty or containing a byte outside the name charset.
    HeaderName,
    /// Header value containing a control byte.
    HeaderValue,
    /// More header lines than the configured cap.
    TooManyHeaders,
    /// Head did not complete within the configured maximum size.
    TooLarge,
    /// `Content-Length` value not a decimal number in range, or two
    /// occurrences disagreeing.
    ContentLength,
}

impl ParseReason {
    /// The wording of each reason, as [`Error::message`] reports it.
    pub open spec fn spec_message(self) -> Seq<char> {
        match self {
            ParseReason::Method => "invalid method token"@,
            ParseReason::Path => "invalid path token"@,
            ParseReason::Version => "invalid HTTP version"@,
            ParseReason::HeaderName => "invalid header name"@,
            ParseReason::HeaderValue => "invalid header value"@,
            ParseReason::TooManyHeaders => "too many headers"@,
            ParseReason::TooLarge => "request head too large"@,
            ParseReason::ContentLength => "invalid content length"@,
        }
    }

    /// Human-readable description of the reason.
    pub fn message(&self) -> (m: String)
        ensures
            m@ == self.spec_message(),
    {
        match self {
            ParseReason::Method => String::from_str("invalid method token"),
            ParseReason::Path => String::from_str("invalid path token"),
            ParseReason::Version => String::from_str("invalid HTTP version"),
            ParseReason::HeaderName => String::from_str("invalid header name"),
            ParseReason::HeaderValue => String::from_str("invalid header value"),
            ParseReason::TooManyHeaders => String::from_str("too many headers"),
            ParseReason::TooLarge => String::from_str("request head too large"),
            ParseReason::ContentLength => String::from_str("invalid content length"),
        }
    }
}

/// Fatal connection errors, and the misuse report of the response builder.
#[derive(Debug, PartialEq, Eq, Structural, Clone, Copy)]
pub enum Error {
    /// Malformed, oversized or inconsistently framed request head.
    ParseError(ParseReason),
    /// The handler capability failed to produce a response.
    HandlerError,
    /// A headers-phase operation was attempted after the response moved on to
    /// writing its body.
    InvalidState,
}

impl Error {
    /// The wording of each error, with its reason.
    pub open spec fn spec_message(self) -> Seq<char> {
        match self {
            Error::ParseError(r) => "parse error: "@ + r.spec_message(),
            Error::HandlerError => "handler error"@,
            Error::InvalidState => "invalid state"@,
        }
    }

    /// Human-readable description of the error.
    pub fn message(&self) -> (m: String)
        ensures
            m@ == self.spec_message(),
    {
        match self {
            Error::ParseError(r) => {
                let mut m = String::from_str("parse error: ");
                let detail = r.message();
                m.append(detail.as_str());
                m
            },
            Error::HandlerError => String::from_str("handler error"),
            Error::InvalidState => String::from_str("invalid state"),
        }
    }
}

} // verus!
