//! Executable request-head parser, proved against [`crate::grammar`].
//!
//! The parser is a pure function of the buffer's unconsumed bytes: on
//! insufficient data it consumes nothing and the next call re-scans the grown
//! buffer; on success it reports the head's fields as offset pairs into the
//! input; on malformed or oversized input it reports the reason, which is
//! fatal to the connection.

use vstd::prelude::*;
use vstd::slice::slice_index_get;

use crate::error::Error;
use crate::error::ParseReason;
use crate::request::Request;
use crate::grammar::COLON;
use crate::grammar::CR;
use crate::grammar::HT;
use crate::grammar::LF;
use crate::grammar::SP;
use crate::grammar::dec_value;
use crate::grammar::find_byte_in;
use crate::grammar::find_crlf;
use crate::grammar::is_dec;
use crate::grammar::is_digit;
use crate::grammar::compose_progress;
use crate::grammar::content_length_of;
use crate::grammar::content_length_token;
use crate::grammar::lemma_compose_progress_assoc;
use crate::grammar::lemma_content_length_ok_bounds;
use crate::grammar::lemma_find_crlf_bounds;
use crate::grammar::parse_head;
use crate::grammar::parse_header_lines;
use crate::grammar::parse_request_line;
use crate::grammar::HeadFields;
use crate::grammar::HeadOutcome;
use crate::grammar::HeadProgress;
use crate::grammar::RequestLineFields;
use crate::grammar::last_header_named;
use crate::grammar::lemma_content_length_err_extends;
use crate::grammar::lemma_dec_value_take_le;
use crate::grammar::parse_header_line;
use crate::grammar::slice_pairs_view;
use crate::grammar::is_http_version;
use crate::grammar::is_name_byte;
use crate::grammar::is_token_byte;
use crate::grammar::is_value_byte;
use crate::grammar::lower;
use crate::grammar::lower_seq;
use crate::grammar::name_is;
use crate::grammar::skip_ows;
use crate::grammar::slice_of;
use crate::grammar::valid_name;
use crate::grammar::valid_token;
use crate::grammar::valid_value;
use crate::MAX_HEADERS;

verus! {

/// Parsing states of one connection's inbound side.
#[derive(Debug, PartialEq, Eq, Structural, Clone, Copy)]
pub enum State {
    /// Scanning for a complete request line and header block.
    AwaitingHead,
    /// A full head has been parsed; the parser rests until the dispatcher
    /// retires the request and shifts its bytes out of the buffer.
    HeadReady,
}

/// Find the first CRLF at or after `from`.
fn scan_crlf(buf: &[u8], from: usize) -> (r: Option<usize>)
    ensures
        match r {
            Some(e) => find_crlf(buf@, from as int) == Some(e as int),
            None => find_crlf(buf@, from as int) is None,
        },
{
    let len = buf.len();
    let mut i = from;
    loop
        invariant
            from <= i,
            len == buf@.len(),
            find_crlf(buf@, from as int) == find_crlf(buf@, i as int),
        decreases len + 2 - i,
    {
        if i >= len || len - i < 2 {
            return None;
        }
        let a = *slice_index_get(buf, i);
        let b = *slice_index_get(buf, i + 1);
        if a == CR && b == LF {
            return Some(i);
        }
        i = i + 1;
    }
}

/// Find the first occurrence of `b` in `[from, end)`.
fn scan_byte(buf: &[u8], from: usize, end: usize, b: u8) -> (r: Option<usize>)
    requires
        from <= end <= buf@.len(),
    ensures
        match r {
            Some(c) => find_byte_in(buf@, from as int, end as int, b) == Some(c as int) && from
                <= c < end,
            None => find_byte_in(buf@, from as int, end as int, b) is None,
        },
{
    let mut i = from;
    while i < end
        invariant
            from <= i <= end <= buf@.len(),
            find_byte_in(buf@, from as int, end as int, b) == find_byte_in(
                buf@,
                i as int,
                end as int,
                b,
            ),
        decreases end - i,
    {
        if *slice_index_get(buf, i) == b {
            return Some(i);
        }
        i = i + 1;
    }
    None
}

/// Skip the run of spaces and tabs starting at `from`.
fn scan_skip_ows(buf: &[u8], from: usize, end: usize) -> (r: usize)
    requires
        from <= end <= buf@.len(),
    ensures
        r as int == skip_ows(buf@, from as int, end as int),
        from <= r <= end,
{
    let mut i = from;
    loop
        invariant
            from <= i <= end <= buf@.len(),
            skip_ows(buf@, from as int, end as int) == skip_ows(buf@, i as int, end as int),
        ensures
            i as int == skip_ows(buf@, from as int, end as int),
            from <= i <= end,
        decreases end - i,
    {
        if i >= end {
            return i;
        }
        let c = *slice_index_get(buf, i);
        if !(c == SP || c == HT) {
            return i;
        }
        i = i + 1;
    }
}

/// Check every byte of `[start, end)` against the token charset.
fn check_token(buf: &[u8], start: usize, end: usize) -> (ok: bool)
    requires
        start <= end <= buf@.len(),
    ensures
        ok == valid_token(buf@, (start as int, end as int)),
{
    if end - start < 1 {
        return false;
    }
    let mut i = start;
    while i < end
        invariant
            start <= i <= end <= buf@.len(),
            forall|j: int| start <= j < i ==> is_token_byte(buf@[j]),
        decreases end - i,
    {
        let c = *slice_index_get(buf, i);
        if !(33 <= c && c <= 126) {
            return false;
        }
        i = i + 1;
    }
    true
}

/// Check every byte of `[start, end)` against the header-name charset.
fn check_name(buf: &[u8], start: usize, end: usize) -> (ok: bool)
    requires
        start <= end <= buf@.len(),
    ensures
        ok == valid_name(buf@, (start as int, end as int)),
{
    if end - start < 1 {
        return false;
    }
    let mut i = start;
    while i < end
        invariant
            start <= i <= end <= buf@.len(),
            forall|j: int| start <= j < i ==> is_name_byte(buf@[j]),
        decreases end - i,
    {
        let c = *slice_index_get(buf, i);
        if !(33 <= c && c <= 126) || c == COLON {
            return false;
        }
        i = i + 1;
    }
    true
}

/// Check every byte of `[start, end)` against the header-value charset.
fn check_value(buf: &[u8], start: usize, end: usize) -> (ok: bool)
    requires
        start <= end <= buf@.len(),
    ensures
        ok == valid_value(buf@, (start as int, end as int)),
{
    let mut i = start;
    while i < end
        invariant
            start <= i <= end <= buf@.len(),
            forall|j: int| start <= j < i ==> is_value_byte(buf@[j]),
        decreases end - i,
    {
        let c = *slice_index_get(buf, i);
        if !(c == HT || (32 <= c && c <= 126)) {
            return false;
        }
        i = i + 1;
    }
    true
}

/// Check that `[i, end)` spells `HTTP/1.` followed by one digit.
fn check_version(buf: &[u8], i: usize, end: usize) -> (ok: bool)
    requires
        i <= end <= buf@.len(),
    ensures
        ok == is_http_version(buf@, i as int, end as int),
{
    if end - i != 8 {
        return false;
    }
    let d = *slice_index_get(buf, i + 7);
    *slice_index_get(buf, i) == 72 && *slice_index_get(buf, i + 1) == 84 && *slice_index_get(
        buf,
        i + 2,
    ) == 84 && *slice_index_get(buf, i + 3) == 80 && *slice_index_get(buf, i + 4) == 47
        && *slice_index_get(buf, i + 5) == 49 && *slice_index_get(buf, i + 6) == 46 && 48 <= d && d
        <= 57
}

/// ASCII lower-casing of one byte.
fn lower_byte(b: u8) -> (l: u8)
    ensures
        l == lower(b),
{
    if 65 <= b && b <= 90 {
        b + 32
    } else {
        b
    }
}

/// Compare the lower-cased bytes of `[r.0, r.1)` against `tok`.
fn name_matches(buf: &[u8], r: (usize, usize), tok: &[u8]) -> (m: bool)
    requires
        r.0 <= r.1 <= buf@.len(),
    ensures
        m == (lower_seq(slice_of(buf@, (r.0 as int, r.1 as int))) == tok@),
{
    let ghost mapped = lower_seq(slice_of(buf@, (r.0 as int, r.1 as int)));
    let n = r.1 - r.0;
    if n != tok.len() {
        assert(mapped.len() == n);
        return false;
    }
    let mut j: usize = 0;
    while j < n
        invariant
            0 <= j <= n,
            n == tok@.len(),
            r.0 + n == r.1,
            r.1 <= buf@.len(),
            mapped == slice_of(buf@, (r.0 as int, r.1 as int)).map_values(|b: u8| lower(b)),
            mapped.len() == n,
            forall|t: int| 0 <= t < j ==> mapped[t] == tok@[t],
        decreases n - j,
    {
        let c = lower_byte(*slice_index_get(buf, r.0 + j));
        assert(mapped[j as int] == lower(buf@[r.0 + j]));
        if c != *slice_index_get(tok, j) {
            assert(mapped[j as int] != tok@[j as int]);
            return false;
        }
        j = j + 1;
    }
    assert(mapped =~= tok@);
    true
}

/// Parse one header line occupying `[i, end)`.
fn scan_header_line(buf: &[u8], i: usize, end: usize) -> (r: Result<
    ((usize, usize), (usize, usize)),
    ParseReason,
>)
    requires
        i <= end <= buf@.len(),
    ensures
        match r {
            Ok(h) => {
                &&& parse_header_line(buf@, i as int, end as int) == Ok::<_, ParseReason>(
                    ((h.0.0 as int, h.0.1 as int), (h.1.0 as int, h.1.1 as int)),
                )
                &&& h.0.0 == i
                &&& h.0.0 <= h.0.1 < h.1.0 <= h.1.1
                &&& h.1.1 == end
            },
            Err(e) => parse_header_line(buf@, i as int, end as int) == Err::<
                ((int, int), (int, int)),
                _,
            >(e),
        },
{
    match scan_byte(buf, i, end, COLON) {
        None => Err(ParseReason::HeaderName),
        Some(c) => {
            if !check_name(buf, i, c) {
                return Err(ParseReason::HeaderName);
            }
            let v = scan_skip_ows(buf, c + 1, end);
            if check_value(buf, v, end) {
                Ok(((i, c), (v, end)))
            } else {
                Err(ParseReason::HeaderValue)
            }
        },
    }
}

/// Parse the decimal number occupying `[a, b)`, if it is one and fits `u64`.
fn parse_dec(buf: &[u8], a: usize, b: usize) -> (r: Option<u64>)
    requires
        a <= b <= buf@.len(),
    ensures
        ({
            let sl = slice_of(buf@, (a as int, b as int));
            match r {
                Some(v) => is_dec(sl) && dec_value(sl) == v as int,
                None => !(is_dec(sl) && dec_value(sl) <= u64::MAX as int),
            }
        }),
{
    let ghost sl = slice_of(buf@, (a as int, b as int));
    if a == b {
        return None;
    }
    let mut val: u64 = 0;
    let mut j = a;
    assert(slice_of(buf@, (a as int, a as int)) =~= Seq::<u8>::empty());
    while j < b
        invariant
            a <= j <= b <= buf@.len(),
            sl == slice_of(buf@, (a as int, b as int)),
            forall|t: int| a <= t < j ==> is_digit(buf@[t]),
            val as int == dec_value(slice_of(buf@, (a as int, j as int))),
        decreases b - j,
    {
        let c = *slice_index_get(buf, j);
        if !(48 <= c && c <= 57) {
            assert(sl[j - a] == buf@[j as int]);
            assert(!is_dec(sl));
            return None;
        }
        let d = (c - 48) as u64;
        proof {
            let prev = slice_of(buf@, (a as int, j as int));
            let cur = slice_of(buf@, (a as int, j + 1));
            assert(cur.drop_last() =~= prev);
            assert(cur.last() == buf@[j as int]);
            assert(dec_value(cur) == dec_value(prev) * 10 + (c - 48));
        }
        let next = match val.checked_mul(10) {
            Some(x) => x.checked_add(d),
            None => None,
        };
        match next {
            Some(y) => {
                val = y;
                j = j + 1;
            },
            None => {
                proof {
                    if is_dec(sl) {
                        assert(forall|t: int| 0 <= t < sl.len() ==> is_digit(sl[t]));
                        assert(forall|t: int| a <= t < b ==> sl[t - a] == buf@[t]);
                        assert(forall|t: int| a <= t < b ==> is_digit(buf@[t]));
                        let cur = slice_of(buf@, (a as int, j + 1));
                        assert(dec_value(cur) > u64::MAX as int);
                        lemma_dec_value_take_le(sl, j + 1 - a);
                        assert(sl.take(j + 1 - a) =~= cur);
                        assert(dec_value(sl) > u64::MAX as int);
                    }
                }
                return None;
            },
        }
    }
    assert(slice_of(buf@, (a as int, j as int)) =~= sl);
    assert(forall|t: int| 0 <= t < sl.len() ==> is_digit(sl[t]));
    Some(val)
}

/// Offset pairs all lie within a buffer of length `len`.
pub open spec fn slices_in_bounds(hs: Seq<((usize, usize), (usize, usize))>, len: int) -> bool {
    forall|k: int|
        0 <= k < hs.len() ==> {
            &&& #[trigger] hs[k].0.0 <= hs[k].0.1 <= len
            &&& hs[k].1.0 <= hs[k].1.1 <= len
        }
}

/// The optional byte count a scan reported, as the mathematical option.
pub open spec fn opt_int(v: Option<u64>) -> Option<int> {
    match v {
        Some(x) => Some(x as int),
        None => None,
    }
}

/// The body length the header block declares, as [`content_length_of`].
fn scan_content_length(buf: &[u8], hs: &Vec<((usize, usize), (usize, usize))>) -> (r: Result<
    u64,
    ParseReason,
>)
    requires
        slices_in_bounds(hs@, buf@.len() as int),
    ensures
        match content_length_of(buf@, slice_pairs_view(hs@)) {
            Err(()) => r == Err::<u64, _>(ParseReason::ContentLength),
            Ok(cl) => r == Ok::<_, ParseReason>(
                (match cl {
                    Some(v) => v,
                    None => 0,
                }) as u64,
            ),
        },
{
    let tok: [u8; 14] = [99, 111, 110, 116, 101, 110, 116, 45, 108, 101, 110, 103, 116, 104];
    proof {
        assert(tok@ =~= content_length_token());
    }
    let ghost view = slice_pairs_view(hs@);
    let mut found: Option<u64> = None;
    let n = hs.len();
    let mut k: usize = 0;
    assert(view.take(0) =~= Seq::<((int, int), (int, int))>::empty());
    while k < n
        invariant
            0 <= k <= n,
            n == hs@.len(),
            view == slice_pairs_view(hs@),
            slices_in_bounds(hs@, buf@.len() as int),
            tok@ == content_length_token(),
            content_length_of(buf@, view.take(k as int)) == Ok::<_, ()>(opt_int(found)),
        decreases n - k,
    {
        let h = hs[k];
        let ghost hv = view[k as int];
        proof {
            assert(hv == ((h.0.0 as int, h.0.1 as int), (h.1.0 as int, h.1.1 as int)));
            assert(view.take(k + 1).drop_last() =~= view.take(k as int));
            assert(view.take(k + 1).last() == hv);
        }
        if name_matches(buf, h.0, tok.as_slice()) {
            assert(name_is(buf@, hv, content_length_token()));
            match parse_dec(buf, h.1.0, h.1.1) {
                None => {
                    assert(!(is_dec(slice_of(buf@, hv.1)) && dec_value(slice_of(buf@, hv.1))
                        <= u64::MAX as int));
                    assert(content_length_of(buf@, view.take(k + 1)) == Err::<Option<int>, ()>(()));
                    proof {
                        lemma_content_length_err_extends(buf@, view, k + 1);
                    }
                    return Err(ParseReason::ContentLength);
                },
                Some(v) => {
                    match found {
                        None => {
                            found = Some(v);
                        },
                        Some(p) => {
                            if p != v {
                                assert(content_length_of(buf@, view.take(k + 1)) == Err::<
                                    Option<int>,
                                    (),
                                >(()));
                                proof {
                                    lemma_content_length_err_extends(buf@, view, k + 1);
                                }
                                return Err(ParseReason::ContentLength);
                            }
                        },
                    }
                },
            }
        }
        k = k + 1;
    }
    assert(view.take(n as int) =~= view);
    match found {
        Some(v) => Ok(v),
        None => Ok(0),
    }
}

/// Value offsets of the last header (case-insensitively) named `tok`.
pub(crate) fn find_last_named(buf: &[u8], hs: &Vec<((usize, usize), (usize, usize))>, tok: &[u8]) -> (r:
    Option<(usize, usize)>)
    requires
        slices_in_bounds(hs@, buf@.len() as int),
    ensures
        match r {
            Some(v) => last_header_named(buf@, slice_pairs_view(hs@), tok@) == Some(
                (v.0 as int, v.1 as int),
            ) && v.0 <= v.1 <= buf@.len(),
            None => last_header_named(buf@, slice_pairs_view(hs@), tok@) is None,
        },
{
    let ghost view = slice_pairs_view(hs@);
    let mut cur: Option<(usize, usize)> = None;
    let n = hs.len();
    let mut k: usize = 0;
    assert(view.take(0) =~= Seq::<((int, int), (int, int))>::empty());
    while k < n
        invariant
            0 <= k <= n,
            n == hs@.len(),
            view == slice_pairs_view(hs@),
            slices_in_bounds(hs@, buf@.len() as int),
            match cur {
                Some(v) => last_header_named(buf@, view.take(k as int), tok@) == Some(
                    (v.0 as int, v.1 as int),
                ) && v.0 <= v.1 <= buf@.len(),
                None => last_header_named(buf@, view.take(k as int), tok@) is None,
            },
        decreases n - k,
    {
        let h = hs[k];
        proof {
            assert(view[k as int] == ((h.0.0 as int, h.0.1 as int), (h.1.0 as int, h.1.1 as int)));
            assert(view.take(k + 1).drop_last() =~= view.take(k as int));
            assert(view.take(k + 1).last() == view[k as int]);
        }
        if name_matches(buf, h.0, tok) {
            cur = Some(h.1);
        }
        k = k + 1;
    }
    assert(view.take(n as int) =~= view);
    cur
}

/// A complete request head, as offset pairs into the scanned buffer.
pub struct ParsedHead {
    /// Offsets of the method token.
    pub method: (usize, usize),
    /// Offsets of the path token.
    pub path: (usize, usize),
    /// Protocol version minor digit.
    pub minor: u8,
    /// Offset pairs of each header's name and value, in order.
    pub headers: Vec<((usize, usize), (usize, usize))>,
    /// Bytes the head occupies, terminator included.
    pub head_len: usize,
    /// Declared body length (zero when no `Content-Length` is present).
    pub body_len: u64,
}

impl View for ParsedHead {
    type V = HeadFields;

    open spec fn view(&self) -> HeadFields {
        HeadFields {
            method: (self.method.0 as int, self.method.1 as int),
            path: (self.path.0 as int, self.path.1 as int),
            minor: self.minor,
            headers: slice_pairs_view(self.headers@),
            head_len: self.head_len as int,
            body_len: self.body_len as int,
        }
    }
}

impl ParsedHead {
    /// Every offset pair lies within a buffer of length `len`.
    pub open spec fn in_bounds(&self, len: int) -> bool {
        &&& self.method.0 <= self.method.1 <= len
        &&& self.path.0 <= self.path.1 <= len
        &&& slices_in_bounds(self.headers@, len)
        &&& self.head_len <= len
    }
}

/// Scan the buffer for a complete request head under head-size bound `max`:
/// `Ok(Some(p))` on a full head, `Ok(None)` when more bytes are needed,
/// `Err(e)` when the head is malformed or oversized.
pub fn scan_head(buf: &[u8], max: usize) -> (r: Result<Option<ParsedHead>, ParseReason>)
    ensures
        match r {
            Ok(Some(p)) => parse_head(buf@, max as int) == HeadOutcome::Complete(p@)
                && p.in_bounds(buf@.len() as int),
            Ok(None) => parse_head(buf@, max as int) is Incomplete,
            Err(e) => parse_head(buf@, max as int) == HeadOutcome::Rejected(e),
        },
{
    let len = buf.len();
    let e0 = match scan_crlf(buf, 0) {
        None => {
            if len >= max {
                return Err(ParseReason::TooLarge);
            } else {
                return Ok(None);
            }
        },
        Some(e0) => e0,
    };
    proof {
        lemma_find_crlf_bounds(buf@, 0);
    }
    let sp1 = match scan_byte(buf, 0, e0, SP) {
        None => {
            return Err(ParseReason::Method);
        },
        Some(x) => x,
    };
    if !check_token(buf, 0, sp1) {
        return Err(ParseReason::Method);
    }
    let sp2 = match scan_byte(buf, sp1 + 1, e0, SP) {
        None => {
            return Err(ParseReason::Version);
        },
        Some(x) => x,
    };
    if !check_token(buf, sp1 + 1, sp2) {
        return Err(ParseReason::Path);
    }
    if !check_version(buf, sp2 + 1, e0) {
        return Err(ParseReason::Version);
    }
    let minor = *slice_index_get(buf, e0 - 1) - 48;
    let ghost rl = RequestLineFields {
        method: (0, sp1 as int),
        path: (sp1 + 1, sp2 as int),
        minor,
    };
    assert(parse_request_line(buf@, e0 as int) == Ok::<_, ParseReason>(rl));

    let hstart = e0 + 2;
    let mut i: usize = hstart;
    let mut acc: Vec<((usize, usize), (usize, usize))> = Vec::new();
    let mut head_end: usize = 0;
    assert(slice_pairs_view(acc@) =~= Seq::<((int, int), (int, int))>::empty());
    assert(parse_header_lines(buf@, hstart as int, 0) == compose_progress(
        slice_pairs_view(acc@),
        parse_header_lines(buf@, hstart as int, 0),
    ));
    loop
        invariant_except_break
            head_end == 0,
        invariant
            hstart <= i <= len,
            len == buf@.len(),
            hstart == e0 + 2,
            find_crlf(buf@, 0) == Some(e0 as int),
            parse_request_line(buf@, e0 as int) == Ok::<RequestLineFields, ParseReason>(rl),
            acc@.len() <= MAX_HEADERS,
            slices_in_bounds(acc@, len as int),
            parse_header_lines(buf@, hstart as int, 0) == compose_progress(
                slice_pairs_view(acc@),
                parse_header_lines(buf@, i as int, acc@.len() as int),
            ),
        ensures
            hstart <= i,
            i + 2 == head_end,
            head_end <= len == buf@.len(),
            slices_in_bounds(acc@, len as int),
            parse_header_lines(buf@, hstart as int, 0) == HeadProgress::Lines(
                slice_pairs_view(acc@),
                head_end as int,
            ),
        decreases len - i,
    {
        let ghost k = acc@.len() as int;
        match scan_crlf(buf, i) {
            None => {
                assert(parse_header_lines(buf@, i as int, k) == HeadProgress::Incomplete);
                if len >= max {
                    return Err(ParseReason::TooLarge);
                } else {
                    return Ok(None);
                }
            },
            Some(e) => {
                proof {
                    lemma_find_crlf_bounds(buf@, i as int);
                }
                if e == i {
                    assert(parse_header_lines(buf@, i as int, k) == HeadProgress::Lines(
                        Seq::<((int, int), (int, int))>::empty(),
                        i + 2,
                    ));
                    assert(slice_pairs_view(acc@) + Seq::<((int, int), (int, int))>::empty()
                        =~= slice_pairs_view(acc@));
                    head_end = i + 2;
                    break ;
                }
                if acc.len() >= MAX_HEADERS {
                    assert(parse_header_lines(buf@, i as int, k) == HeadProgress::Bad(
                        ParseReason::TooManyHeaders,
                    ));
                    return Err(ParseReason::TooManyHeaders);
                }
                match scan_header_line(buf, i, e) {
                    Err(reason) => {
                        assert(parse_header_lines(buf@, i as int, k) == HeadProgress::Bad(reason));
                        return Err(reason);
                    },
                    Ok(h) => {
                        let ghost hv = ((h.0.0 as int, h.0.1 as int), (h.1.0 as int, h.1.1 as int));
                        proof {
                            let rest2 = parse_header_lines(buf@, e + 2, k + 1);
                            assert(parse_header_lines(buf@, i as int, k) == compose_progress(
                                seq![hv],
                                rest2,
                            ));
                            lemma_compose_progress_assoc(slice_pairs_view(acc@), seq![hv], rest2);
                        }
                        let ghost old_acc = acc@;
                        acc.push(h);
                        proof {
                            assert(slice_pairs_view(acc@) =~= slice_pairs_view(old_acc)
                                + seq![hv]);
                        }
                        i = e + 2;
                    },
                }
            },
        }
    }
    if head_end > max {
        return Err(ParseReason::TooLarge);
    }
    let body_len = match scan_content_length(buf, &acc) {
        Err(reason) => {
            return Err(reason);
        },
        Ok(v) => v,
    };
    proof {
        if content_length_of(buf@, slice_pairs_view(acc@)) matches Ok(Some(v)) {
            lemma_content_length_ok_bounds(buf@, slice_pairs_view(acc@));
        }
    }
    let p = ParsedHead {
        method: (0, sp1),
        path: (sp1 + 1, sp2),
        minor,
        headers: acc,
        head_len: head_end,
        body_len,
    };
    assert(parse_head(buf@, max as int) == HeadOutcome::Complete(p@));
    Ok(Some(p))
}

/// One step of the parsing state machine over the buffer's current contents.
///
/// The function is stateless over `buf`: on insufficient data it consumes
/// nothing and reports `AwaitingHead`, and a later call re-scans the grown
/// buffer; on a complete head it populates `req` and reports `HeadReady`; on
/// a malformed or oversized head it reports the fatal error.  While `s` is
/// `HeadReady` the parser rests: nothing changes until the request is
/// retired.
pub fn parse(buf: &[u8], s: State, req: &mut Request) -> (r: Result<State, Error>)
    requires
        old(req).wf(),
    ensures
        final(req).wf(),
        s is HeadReady ==> r == Ok::<State, Error>(State::HeadReady) && *final(req) == *old(req),
        s is AwaitingHead ==> final(req).max_head_spec() == old(req).max_head_spec() && match
            parse_head(buf@, old(req).max_head_spec()) {
            HeadOutcome::Complete(f) => {
                &&& r == Ok::<State, Error>(State::HeadReady)
                &&& final(req).is_parsed()
                &&& final(req).models(f)
                &&& final(req).contents() == buf@
                &&& final(req).head_view() == buf@.take(f.head_len)
            },
            HeadOutcome::Incomplete => {
                &&& r == Ok::<State, Error>(State::AwaitingHead)
                &&& !final(req).is_parsed()
                &&& final(req).contents() == buf@
            },
            HeadOutcome::Rejected(reason) => {
                &&& r == Err::<State, Error>(Error::ParseError(reason))
                &&& !final(req).is_parsed()
                &&& final(req).contents() == buf@
            },
        },
{
    match s {
        State::HeadReady => Ok(State::HeadReady),
        State::AwaitingHead => {
            req.reload(buf);
            match req.parse() {
                Err(e) => Err(e),
                Ok(()) => {
                    if req.is_ready() {
                        Ok(State::HeadReady)
                    } else {
                        Ok(State::AwaitingHead)
                    }
                },
            }
        },
    }
}

} // verus!
