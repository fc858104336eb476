//! The parsed-head record and its derived fields.
//!
//! A request owns the connection's inbound buffer.  Bytes are fed in as the
//! transport yields them; [`Request::parse`] scans for a complete head and,
//! on success, populates the method, path, version and header offset pairs,
//! all referencing the owning buffer.  Until its bytes are shifted out, a
//! parsed request stays consistent with the buffer's head prefix.

use vstd::prelude::*;
use vstd::slice::slice_subrange;
use vstd::slice::slice_to_vec;

use crate::buffer::ByteBuffer;
use crate::error::Error;
use crate::grammar::content_type_token;
use crate::grammar::host_token;
use crate::grammar::last_header_named;
use crate::grammar::lemma_complete_head_bounds;
use crate::grammar::lemma_parse_head_agree;
use crate::grammar::parse_head;
use crate::grammar::slice_of;
use crate::grammar::slice_pairs_view;
use crate::grammar::HeadFields;
use crate::grammar::HeadOutcome;
use crate::parser::find_last_named;
use crate::parser::scan_head;
use crate::parser::slices_in_bounds;
use crate::response::Response;
use crate::MAX_HEAD_SIZE;

verus! {

/// The characters ASCII bytes decode to.
pub open spec fn ascii_chars(b: Seq<u8>) -> Seq<char> {
    b.map_values(|x: u8| x as char)
}

/// Relies on `String::from_utf8`: bytes below 128 are valid UTF-8 and decode
/// to exactly those characters.
#[verifier::external_body]
fn ascii_bytes_to_string(v: Vec<u8>) -> (s: String)
    requires
        forall|i: int| 0 <= i < v@.len() ==> v@[i] < 128,
    ensures
        s@ == ascii_chars(v@),
{
    match String::from_utf8(v) {
        Ok(s) => s,
        Err(_) => String::new(),
    }
}

/// HTTP request methods.
#[derive(Debug, PartialEq)]
pub enum Method {
    Options,
    Get,
    Head,
    Post,
    Put,
    Delete,
    Trace,
    Connect,
    /// Any other token, kept verbatim.
    Other(String),
}

/// The token spells one of the recognized method names.
pub open spec fn is_known_method(s: Seq<char>) -> bool {
    ||| s == "OPTIONS"@
    ||| s == "GET"@
    ||| s == "HEAD"@
    ||| s == "POST"@
    ||| s == "PUT"@
    ||| s == "DELETE"@
    ||| s == "TRACE"@
    ||| s == "CONNECT"@
}

/// `m` is the method the token `s` names: the matching variant for a
/// recognized name, `Other` carrying the token verbatim for the rest.
pub open spec fn method_matches(m: Method, s: Seq<char>) -> bool {
    match m {
        Method::Options => s == "OPTIONS"@,
        Method::Get => s == "GET"@,
        Method::Head => s == "HEAD"@,
        Method::Post => s == "POST"@,
        Method::Put => s == "PUT"@,
        Method::Delete => s == "DELETE"@,
        Method::Trace => s == "TRACE"@,
        Method::Connect => s == "CONNECT"@,
        Method::Other(t) => t@ == s && !is_known_method(s),
    }
}

/// Character-for-character string comparison.
fn str_eq(a: &str, b: &str) -> (r: bool)
    ensures
        r == (a@ == b@),
{
    let x = a.to_owned();
    let y = b.to_owned();
    x == y
}

impl Method {
    /// The method a token names; an unrecognized token (including any
    /// lower-cased spelling) stays `Other`.
    pub fn from(s: &str) -> (m: Method)
        ensures
            method_matches(m, s@),
    {
        if str_eq(s, "OPTIONS") {
            Method::Options
        } else if str_eq(s, "GET") {
            Method::Get
        } else if str_eq(s, "HEAD") {
            Method::Head
        } else if str_eq(s, "POST") {
            Method::Post
        } else if str_eq(s, "PUT") {
            Method::Put
        } else if str_eq(s, "DELETE") {
            Method::Delete
        } else if str_eq(s, "TRACE") {
            Method::Trace
        } else if str_eq(s, "CONNECT") {
            Method::Connect
        } else {
            Method::Other(s.to_owned())
        }
    }
}

/// Headers the engine gives a derived field of its own.
pub enum Header {
    /// `Host`.
    Host,
    /// `Content-Type`.
    ContentType,
    /// Anything else.
    Raw,
}

/// One connection's current request: the inbound buffer and, once a complete
/// head has been parsed, the head's fields as offset pairs into it.
pub struct Request {
    /// Parsed method.
    pub method: Method,
    /// Parsed path.
    pub path: String,
    /// Parsed protocol version minor digit.
    pub version: u8,
    pub(crate) buf: ByteBuffer,
    pub(crate) request_size: usize,
    pub(crate) body_len: u64,
    pub(crate) headers: Vec<((usize, usize), (usize, usize))>,
    pub(crate) host: Option<(usize, usize)>,
    pub(crate) content_type: Option<(usize, usize)>,
    pub(crate) response: Option<Response>,
    pub(crate) max_head: usize,
}

impl Request {
    /// The inbound buffer's unconsumed bytes.
    pub closed spec fn contents(&self) -> Seq<u8> {
        self.buf@
    }

    /// The parsed method.
    pub closed spec fn spec_method(&self) -> Method {
        self.method
    }

    /// The parsed path.
    pub closed spec fn spec_path(&self) -> Seq<char> {
        self.path@
    }

    /// The parsed protocol version minor digit.
    pub closed spec fn spec_version(&self) -> u8 {
        self.version
    }

    /// The response being prepared for this request, if one exists yet.
    pub closed spec fn spec_response(&self) -> Option<Response> {
        self.response
    }

    /// A complete head has been parsed and not yet retired.
    pub closed spec fn is_parsed(&self) -> bool {
        self.request_size != 0
    }

    /// The configured maximum head size.
    pub closed spec fn max_head_spec(&self) -> int {
        self.max_head as int
    }

    /// Bytes the parsed head occupies.
    pub closed spec fn head_len(&self) -> int {
        self.request_size as int
    }

    /// Declared body length of the parsed head.
    pub closed spec fn body_len_spec(&self) -> int {
        self.body_len as int
    }

    /// Header offset pairs of the parsed head.
    pub closed spec fn headers_spec(&self) -> Seq<((int, int), (int, int))> {
        slice_pairs_view(self.headers@)
    }

    /// The bytes of the parsed head: the buffer's prefix of its length.
    pub open spec fn head_view(&self) -> Seq<u8> {
        self.contents().take(self.head_len())
    }

    /// The parsed fields this request carries, as the grammar states them.
    pub open spec fn models(&self, f: HeadFields) -> bool {
        &&& method_matches(self.spec_method(), ascii_chars(slice_of(self.head_view(), f.method)))
        &&& self.spec_path() == ascii_chars(slice_of(self.head_view(), f.path))
        &&& self.spec_version() == f.minor
        &&& self.headers_spec() == f.headers
        &&& self.head_len() == f.head_len
        &&& self.body_len_spec() == f.body_len
    }

    /// A parsed request is exactly what re-parsing its head prefix yields,
    /// and every stored offset stays inside the buffer.
    pub closed spec fn wf(&self) -> bool {
        &&& self.max_head >= 1
        &&& !self.is_parsed() ==> self.host is None && self.content_type is None
        &&& self.is_parsed() ==> {
            &&& self.request_size <= self.buf@.len()
            &&& parse_head(self.head_view(), self.max_head as int) matches HeadOutcome::Complete(f)
                && {
                &&& self.models(f)
                &&& match self.host {
                    Some(h) => last_header_named(self.head_view(), f.headers, host_token())
                        == Some((h.0 as int, h.1 as int)) && h.0 <= h.1 <= self.request_size,
                    None => last_header_named(self.head_view(), f.headers, host_token()) is None,
                }
                &&& match self.content_type {
                    Some(h) => last_header_named(self.head_view(), f.headers, content_type_token())
                        == Some((h.0 as int, h.1 as int)) && h.0 <= h.1 <= self.request_size,
                    None => last_header_named(self.head_view(), f.headers, content_type_token())
                        is None,
                }
            }
        }
    }

    /// A parsed head lies entirely within the buffered bytes, and its
    /// declared body length is a byte count.
    pub proof fn lemma_parsed_head_within(&self)
        requires
            self.wf(),
            self.is_parsed(),
        ensures
            0 < self.head_len() <= self.contents().len(),
            0 <= self.body_len_spec(),
    {
    }

    /// Fresh, empty request with the default head-size bound.
    pub fn new() -> (r: Request)
        ensures
            r.wf(),
            !r.is_parsed(),
            r.contents() == Seq::<u8>::empty(),
            r.max_head_spec() == MAX_HEAD_SIZE as int,
            r.spec_version() == 0,
            r.spec_path() == Seq::<char>::empty(),
            r.spec_response() is None,
            r.headers_spec() == Seq::<((int, int), (int, int))>::empty(),
            r.body_len_spec() == 0,
    {
        let r = Request {
            method: Method::from(""),
            path: String::new(),
            version: 0,
            buf: ByteBuffer::new(),
            request_size: 0,
            body_len: 0,
            headers: Vec::new(),
            host: None,
            content_type: None,
            response: None,
            max_head: MAX_HEAD_SIZE,
        };
        assert(r.headers_spec() =~= Seq::<((int, int), (int, int))>::empty());
        r
    }

    /// Fresh, empty request that rejects heads larger than `max` bytes.
    pub fn with_max_head(max: usize) -> (r: Request)
        requires
            max >= 1,
        ensures
            r.wf(),
            !r.is_parsed(),
            r.contents() == Seq::<u8>::empty(),
            r.max_head_spec() == max as int,
            r.spec_version() == 0,
            r.spec_path() == Seq::<char>::empty(),
            r.spec_response() is None,
            r.headers_spec() == Seq::<((int, int), (int, int))>::empty(),
            r.body_len_spec() == 0,
    {
        let mut r = Request::new();
        r.max_head = max;
        r
    }

    /// Replace the buffer's contents and forget any parsed head, keeping the
    /// configured head-size bound.
    pub fn reload(&mut self, bytes: &[u8])
        requires
            old(self).wf(),
        ensures
            final(self).wf(),
            !final(self).is_parsed(),
            final(self).contents() == bytes@,
            final(self).max_head_spec() == old(self).max_head_spec(),
            final(self).spec_version() == 0,
            final(self).spec_path() == Seq::<char>::empty(),
            final(self).spec_response() is None,
            final(self).headers_spec() == Seq::<((int, int), (int, int))>::empty(),
            final(self).body_len_spec() == 0,
    {
        let max = self.max_head;
        let mut fresh = Request::new();
        fresh.max_head = max;
        fresh.buf.append(bytes);
        proof {
            assert(fresh.buf@ =~= bytes@);
        }
        *self = fresh;
    }

    /// Append bytes the transport yielded to the inbound buffer.
    pub fn read_from(&mut self, bytes: &[u8])
        requires
            old(self).wf(),
        ensures
            final(self).wf(),
            final(self).contents() == old(self).contents() + bytes@,
            final(self).is_parsed() == old(self).is_parsed(),
            final(self).head_len() == old(self).head_len(),
            final(self).body_len_spec() == old(self).body_len_spec(),
            final(self).max_head_spec() == old(self).max_head_spec(),
            old(self).is_parsed() ==> final(self).head_view() == old(self).head_view(),
            final(self).spec_method() == old(self).spec_method(),
            final(self).spec_path() == old(self).spec_path(),
            final(self).spec_version() == old(self).spec_version(),
    {
        self.buf.append(bytes);
        proof {
            assert(self.buf@.take(self.request_size as int) =~= old(self).buf@.take(
                old(self).request_size as int,
            ));
        }
    }

    /// A complete head has been parsed and awaits the handler.
    pub fn is_ready(&self) -> (r: bool)
        ensures
            r == self.is_parsed(),
    {
        self.request_size != 0
    }

    /// Scan the buffered bytes for a complete request head.  On success the
    /// head's fields are populated and the request becomes ready; on
    /// insufficient data nothing changes and the next call re-scans; a
    /// malformed or oversized head is a fatal error.  Once ready, further
    /// calls do nothing until the request is retired.
    pub fn parse(&mut self) -> (r: Result<(), Error>)
        requires
            old(self).wf(),
        ensures
            final(self).wf(),
            final(self).contents() == old(self).contents(),
            final(self).max_head_spec() == old(self).max_head_spec(),
            old(self).is_parsed() ==> r == Ok::<(), Error>(()) && *final(self) == *old(self),
            !old(self).is_parsed() ==> match parse_head(
                old(self).contents(),
                old(self).max_head_spec(),
            ) {
                HeadOutcome::Complete(f) => {
                    &&& r == Ok::<(), Error>(())
                    &&& final(self).is_parsed()
                    &&& final(self).models(f)
                    &&& final(self).head_view() == old(self).contents().take(f.head_len)
                },
                HeadOutcome::Incomplete => r == Ok::<(), Error>(()) && *final(self) == *old(self),
                HeadOutcome::Rejected(reason) => r == Err::<(), Error>(Error::ParseError(reason))
                    && *final(self) == *old(self),
            },
    {
        if self.request_size != 0 {
            return Ok(());
        }
        let p = match scan_head(self.buf.as_slice(), self.max_head) {
            Err(reason) => {
                return Err(Error::ParseError(reason));
            },
            Ok(None) => {
                return Ok(());
            },
            Ok(Some(p)) => p,
        };
        proof {
            lemma_complete_head_bounds(self.buf@, self.max_head as int);
            lemma_parse_head_agree(
                self.buf@,
                self.buf@.take(p@.head_len),
                self.max_head as int,
                p@.head_len,
            );
        }
        let head = slice_subrange(self.buf.as_slice(), 0, p.head_len);
        let mbytes = slice_to_vec(slice_subrange(head, p.method.0, p.method.1));
        assert(mbytes@ == slice_of(self.buf@.take(p@.head_len), p@.method));
        let mstr = ascii_bytes_to_string(mbytes);
        self.method = Method::from(mstr.as_str());
        let pbytes = slice_to_vec(slice_subrange(head, p.path.0, p.path.1));
        assert(pbytes@ == slice_of(self.buf@.take(p@.head_len), p@.path));
        self.path = ascii_bytes_to_string(pbytes);
        self.version = p.minor;
        self.body_len = p.body_len;
        proof {
            let hv = slice_pairs_view(p.headers@);
            assert forall|k: int| 0 <= k < p.headers@.len() implies {
                &&& #[trigger] p.headers@[k].0.0 <= p.headers@[k].0.1 <= head@.len()
                &&& p.headers@[k].1.0 <= p.headers@[k].1.1 <= head@.len()
            } by {
                let f = parse_head(self.buf@, self.max_head as int)->Complete_0;
                assert(f.headers =~= hv);
                assert(f.headers[k].0.0 > 0);
                assert(hv[k] == (
                    (p.headers@[k].0.0 as int, p.headers@[k].0.1 as int),
                    (p.headers@[k].1.0 as int, p.headers@[k].1.1 as int),
                ));
            }
            assert(slices_in_bounds(p.headers@, head@.len() as int));
        }
        let htok: [u8; 4] = [104, 111, 115, 116];
        assert(htok@ =~= host_token());
        self.host = find_last_named(head, &p.headers, htok.as_slice());
        let ctok: [u8; 12] = [99, 111, 110, 116, 101, 110, 116, 45, 116, 121, 112, 101];
        assert(ctok@ =~= content_type_token());
        self.content_type = find_last_named(head, &p.headers, ctok.as_slice());
        self.headers = p.headers;
        self.request_size = p.head_len;
        Ok(())
    }

    /// The parsed protocol version minor digit, tied to its specification
    /// view.
    pub fn get_version(&self) -> (v: u8)
        ensures
            v == self.spec_version(),
    {
        self.version
    }

    /// Number of buffered, unconsumed bytes.
    pub fn buffered_len(&self) -> (n: usize)
        ensures
            n == self.contents().len(),
    {
        self.buf.len()
    }

    /// Retire the parsed request: shift out its head and as much of its body
    /// as has arrived, and forget the parsed fields.  Returns how many body
    /// bytes remain to be discarded as they arrive.
    pub fn retire(&mut self) -> (left: u64)
        requires
            old(self).wf(),
            old(self).is_parsed(),
        ensures
            final(self).wf(),
            !final(self).is_parsed(),
            final(self).max_head_spec() == old(self).max_head_spec(),
            ({
                let total = old(self).head_len() + old(self).body_len_spec();
                let take = if total <= old(self).contents().len() {
                    total
                } else {
                    old(self).contents().len() as int
                };
                &&& final(self).contents() == old(self).contents().skip(take)
                &&& left == total - take
            }),
    {
        let head = self.request_size;
        let body = self.body_len;
        let avail = self.buf.len();
        let avail_body = avail - head;
        let left: u64;
        if body <= avail_body as u64 {
            self.buf.consume(head + body as usize);
            left = 0;
        } else {
            self.buf.consume(avail);
            left = body - avail_body as u64;
        }
        self.request_size = 0;
        self.body_len = 0;
        self.headers = Vec::new();
        self.host = None;
        self.content_type = None;
        left
    }

    /// Discard arrived body bytes of a retired request.
    pub fn discard(&mut self, n: usize)
        requires
            old(self).wf(),
            !old(self).is_parsed(),
            n <= old(self).contents().len(),
        ensures
            final(self).wf(),
            !final(self).is_parsed(),
            final(self).contents() == old(self).contents().skip(n as int),
            final(self).max_head_spec() == old(self).max_head_spec(),
    {
        self.buf.consume(n);
    }

    /// Append newly arrived bytes and scan for a complete head in one step.
    pub fn parse_from(&mut self, bytes: &[u8]) -> (r: Result<(), Error>)
        requires
            old(self).wf(),
        ensures
            final(self).wf(),
            final(self).contents() == old(self).contents() + bytes@,
            final(self).max_head_spec() == old(self).max_head_spec(),
            old(self).is_parsed() ==> r == Ok::<(), Error>(()) && final(self).is_parsed(),
            !old(self).is_parsed() ==> match parse_head(
                old(self).contents() + bytes@,
                old(self).max_head_spec(),
            ) {
                HeadOutcome::Complete(f) => {
                    &&& r == Ok::<(), Error>(())
                    &&& final(self).is_parsed()
                    &&& final(self).models(f)
                    &&& final(self).head_view() == (old(self).contents() + bytes@).take(f.head_len)
                },
                HeadOutcome::Incomplete => r == Ok::<(), Error>(()) && !final(self).is_parsed(),
                HeadOutcome::Rejected(reason) => r == Err::<(), Error>(Error::ParseError(reason)),
            },
    {
        self.read_from(bytes);
        self.parse()
    }

    /// Value of the `Host` header, if the head carried one.
    pub fn host<'req>(&'req self) -> (r: Option<&'req [u8]>)
        requires
            self.wf(),
        ensures
            !self.is_parsed() ==> r is None,
            self.is_parsed() ==> ({
                let f = parse_head(self.head_view(), self.max_head_spec())->Complete_0;
                match r {
                    Some(v) => exists|h: (int, int)|
                        last_header_named(self.head_view(), f.headers, host_token()) == Some(h)
                            && v@ == slice_of(self.head_view(), h),
                    None => last_header_named(self.head_view(), f.headers, host_token()) is None,
                }
            }),
    {
        match self.host {
            Some(s) => {
                let v = slice_subrange(self.buf.as_slice(), s.0, s.1);
                proof {
                    assert(self.buf@.subrange(s.0 as int, s.1 as int) =~= slice_of(
                        self.head_view(),
                        (s.0 as int, s.1 as int),
                    ));
                }
                Some(v)
            },
            None => None,
        }
    }

    /// Value of the `Content-Type` header, if the head carried one.
    pub fn content_type<'req>(&'req self) -> (r: Option<&'req [u8]>)
        requires
            self.wf(),
        ensures
            !self.is_parsed() ==> r is None,
            self.is_parsed() ==> ({
                let f = parse_head(self.head_view(), self.max_head_spec())->Complete_0;
                match r {
                    Some(v) => exists|h: (int, int)|
                        last_header_named(self.head_view(), f.headers, content_type_token())
                            == Some(h) && v@ == slice_of(self.head_view(), h),
                    None => last_header_named(self.head_view(), f.headers, content_type_token())
                        is None,
                }
            }),
    {
        match self.content_type {
            Some(s) => {
                let v = slice_subrange(self.buf.as_slice(), s.0, s.1);
                proof {
                    assert(self.buf@.subrange(s.0 as int, s.1 as int) =~= slice_of(
                        self.head_view(),
                        (s.0 as int, s.1 as int),
                    ));
                }
                Some(v)
            },
            None => None,
        }
    }

    /// The response being prepared for this request, created on first use
    /// with the request's protocol version.
    pub fn make_response(&mut self) -> (r: &mut Response)
        requires
            old(self).wf(),
        ensures
            final(self).wf(),
            old(self).spec_response() matches Some(resp) ==> *r == resp,
            old(self).spec_response() is None ==> {
                &&& r.wf()
                &&& r.collecting()
                &&& r.spec_code() == 200
                &&& r.spec_reason() == "OK"@
                &&& r.spec_version() == old(self).spec_version()
                &&& r.spec_headers() == Seq::<(Seq<char>, Seq<char>)>::empty()
                &&& r.out() == Seq::<u8>::empty()
            },
            final(self).spec_response() == Some(*final(r)),
            final(self).contents() == old(self).contents(),
            final(self).is_parsed() == old(self).is_parsed(),
            final(self).head_len() == old(self).head_len(),
            final(self).body_len_spec() == old(self).body_len_spec(),
            final(self).headers_spec() == old(self).headers_spec(),
            final(self).max_head_spec() == old(self).max_head_spec(),
            final(self).spec_method() == old(self).spec_method(),
            final(self).spec_path() == old(self).spec_path(),
            final(self).spec_version() == old(self).spec_version(),
    {
        if self.response.is_none() {
            self.response = Some(Response::new(self.version));
        }
        self.response.as_mut().unwrap()
    }
}

} // verus!

