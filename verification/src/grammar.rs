//! Mathematical model of the request-head wire format.
//!
//! Everything here is specification-level: total functions over byte
//! sequences that define what the executable parser must compute.  A head is
//! a request line, a block of header lines, and a terminating blank line,
//! every line ending in CRLF.  Header name/value results are reported as
//! absolute offset pairs into the scanned sequence, matching the zero-copy
//! offset pairs the executable parser hands out.

use vstd::prelude::*;

use crate::error::ParseReason;
use crate::MAX_HEADERS;

verus! {

/// Carriage return.
pub const CR: u8 = 13;

/// Line feed.
pub const LF: u8 = 10;

/// Space.
pub const SP: u8 = 32;

/// Horizontal tab.
pub const HT: u8 = 9;

/// Colon, the header name/value separator.
pub const COLON: u8 = 58;

/// Bytes allowed in method, path and version tokens: visible ASCII.
pub open spec fn is_token_byte(b: u8) -> bool {
    33 <= b <= 126
}

/// Bytes allowed in a header name: visible ASCII except the colon.
pub open spec fn is_name_byte(b: u8) -> bool {
    is_token_byte(b) && b != COLON
}

/// Bytes allowed in a header value: printable ASCII, space and tab.
pub open spec fn is_value_byte(b: u8) -> bool {
    b == HT || (32 <= b <= 126)
}

/// ASCII decimal digit.
pub open spec fn is_digit(b: u8) -> bool {
    48 <= b <= 57
}

/// ASCII lower-casing of one byte.
pub open spec fn lower(b: u8) -> u8 {
    if 65 <= b <= 90 {
        (b + 32) as u8
    } else {
        b
    }
}

/// The bytes of `s` within the half-open offset range `r`.
pub open spec fn slice_of(s: Seq<u8>, r: (int, int)) -> Seq<u8> {
    s.subrange(r.0, r.1)
}

/// Half-open offset range `r` lies within `s` in order.
pub open spec fn range_ok(s: Seq<u8>, r: (int, int)) -> bool {
    0 <= r.0 <= r.1 <= s.len()
}

/// ASCII lower-casing of a byte sequence.
pub open spec fn lower_seq(s: Seq<u8>) -> Seq<u8> {
    s.map_values(|b: u8| lower(b))
}

/// The name bytes of header slice pair `h`, lower-cased, spell `tok`.
pub open spec fn name_is(s: Seq<u8>, h: ((int, int), (int, int)), tok: Seq<u8>) -> bool {
    lower_seq(slice_of(s, h.0)) == tok
}

/// The lower-cased bytes of `host`.
pub open spec fn host_token() -> Seq<u8> {
    seq![104u8, 111u8, 115u8, 116u8]
}

/// The lower-cased bytes of `content-length`.
pub open spec fn content_length_token() -> Seq<u8> {
    seq![99u8, 111u8, 110u8, 116u8, 101u8, 110u8, 116u8, 45u8, 108u8, 101u8, 110u8, 103u8, 116u8, 104u8]
}

/// The lower-cased bytes of `content-type`.
pub open spec fn content_type_token() -> Seq<u8> {
    seq![99u8, 111u8, 110u8, 116u8, 101u8, 110u8, 116u8, 45u8, 116u8, 121u8, 112u8, 101u8]
}

/// A CRLF pair sits at offset `j`.
pub open spec fn crlf_at(s: Seq<u8>, j: int) -> bool {
    s[j] == CR && s[j + 1] == LF
}

/// Offset of the first CRLF at or after `i`, if any.
pub open spec fn find_crlf(s: Seq<u8>, i: int) -> Option<int>
    decreases s.len() - i,
{
    if i < 0 || i + 2 > s.len() {
        None
    } else if s[i] == CR && s[i + 1] == LF {
        Some(i)
    } else {
        find_crlf(s, i + 1)
    }
}

/// Offset of the first `b` in `[i, end)`, if any.
pub open spec fn find_byte_in(s: Seq<u8>, i: int, end: int, b: u8) -> Option<int>
    decreases end - i,
{
    if i < 0 || i >= end || end > s.len() {
        None
    } else if s[i] == b {
        Some(i)
    } else {
        find_byte_in(s, i + 1, end, b)
    }
}

/// First offset in `[i, end)` holding neither space nor tab (or `end`).
pub open spec fn skip_ows(s: Seq<u8>, i: int, end: int) -> int
    decreases end - i,
{
    if 0 <= i < end && end <= s.len() && (s[i] == SP || s[i] == HT) {
        skip_ows(s, i + 1, end)
    } else {
        i
    }
}

/// Nonempty token of visible ASCII within `r`.
pub open spec fn valid_token(s: Seq<u8>, r: (int, int)) -> bool {
    &&& range_ok(s, r)
    &&& r.1 - r.0 >= 1
    &&& forall|j: int| r.0 <= j < r.1 ==> is_token_byte(s[j])
}

/// Nonempty header name within `r`.
pub open spec fn valid_name(s: Seq<u8>, r: (int, int)) -> bool {
    &&& range_ok(s, r)
    &&& r.1 - r.0 >= 1
    &&& forall|j: int| r.0 <= j < r.1 ==> is_name_byte(s[j])
}

/// Possibly empty header value within `r`.
pub open spec fn valid_value(s: Seq<u8>, r: (int, int)) -> bool {
    &&& range_ok(s, r)
    &&& forall|j: int| r.0 <= j < r.1 ==> is_value_byte(s[j])
}

/// The version token in `[i, end)` spells `HTTP/1.` followed by one digit.
pub open spec fn is_http_version(s: Seq<u8>, i: int, end: int) -> bool {
    &&& 0 <= i
    &&& end <= s.len()
    &&& end - i == 8
    &&& s[i] == 72
    &&& s[i + 1] == 84
    &&& s[i + 2] == 84
    &&& s[i + 3] == 80
    &&& s[i + 4] == 47
    &&& s[i + 5] == 49
    &&& s[i + 6] == 46
    &&& is_digit(s[i + 7])
}

/// Parsed request line: method and path offset pairs, version minor digit.
pub ghost struct RequestLineFields {
    pub method: (int, int),
    pub path: (int, int),
    pub minor: u8,
}

/// Meaning of the request line occupying `[0, end)` of `s`: method, one
/// space, path, one space, version token.
pub open spec fn parse_request_line(s: Seq<u8>, end: int) -> Result<RequestLineFields, ParseReason> {
    match find_byte_in(s, 0, end, SP) {
        None => Err(ParseReason::Method),
        Some(sp1) => if !valid_token(s, (0, sp1)) {
            Err(ParseReason::Method)
        } else {
            match find_byte_in(s, sp1 + 1, end, SP) {
                None => Err(ParseReason::Version),
                Some(sp2) => if !valid_token(s, (sp1 + 1, sp2)) {
                    Err(ParseReason::Path)
                } else if is_http_version(s, sp2 + 1, end) {
                    Ok(RequestLineFields {
                        method: (0, sp1),
                        path: (sp1 + 1, sp2),
                        minor: (s[end - 1] - 48) as u8,
                    })
                } else {
                    Err(ParseReason::Version)
                },
            }
        },
    }
}

/// Meaning of one header line occupying `[i, end)` of `s`: a name, a colon,
/// optional leading whitespace, and the value running to the line's end.
pub open spec fn parse_header_line(s: Seq<u8>, i: int, end: int) -> Result<
    ((int, int), (int, int)),
    ParseReason,
> {
    match find_byte_in(s, i, end, COLON) {
        None => Err(ParseReason::HeaderName),
        Some(c) => if !valid_name(s, (i, c)) {
            Err(ParseReason::HeaderName)
        } else {
            let v = skip_ows(s, c + 1, end);
            if valid_value(s, (v, end)) {
                Ok(((i, c), (v, end)))
            } else {
                Err(ParseReason::HeaderValue)
            }
        },
    }
}

/// Progress of scanning the header block from offset `i`, having already
/// taken `n` headers: the list of header slice pairs and the offset just past
/// the blank line, or the need for more bytes, or a syntax error.
pub ghost enum HeadProgress {
    Lines(Seq<((int, int), (int, int))>, int),
    Incomplete,
    Bad(ParseReason),
}

/// Scan header lines from `i` until the blank line that ends the head.
pub open spec fn parse_header_lines(s: Seq<u8>, i: int, n: int) -> HeadProgress
    decreases s.len() - i,
        when 0 <= i
        via parse_header_lines_dec
{
    match find_crlf(s, i) {
        None => HeadProgress::Incomplete,
        Some(e) => if e == i {
            HeadProgress::Lines(seq![], i + 2)
        } else if n >= MAX_HEADERS as int {
            HeadProgress::Bad(ParseReason::TooManyHeaders)
        } else {
            match parse_header_line(s, i, e) {
                Err(r) => HeadProgress::Bad(r),
                Ok(h) => match parse_header_lines(s, e + 2, n + 1) {
                    HeadProgress::Lines(hs, endp) => HeadProgress::Lines(seq![h] + hs, endp),
                    o => o,
                },
            }
        },
    }
}

/// Prepend already-taken headers to the progress of the remaining scan.
pub open spec fn compose_progress(
    acc: Seq<((int, int), (int, int))>,
    p: HeadProgress,
) -> HeadProgress {
    match p {
        HeadProgress::Lines(hs, e) => HeadProgress::Lines(acc + hs, e),
        o => o,
    }
}

/// Prepending twice is prepending the concatenation.
pub proof fn lemma_compose_progress_assoc(
    a: Seq<((int, int), (int, int))>,
    b: Seq<((int, int), (int, int))>,
    p: HeadProgress,
)
    ensures
        compose_progress(a, compose_progress(b, p)) == compose_progress(a + b, p),
{
    match p {
        HeadProgress::Lines(hs, e) => {
            assert(a + (b + hs) =~= (a + b) + hs);
        },
        _ => {},
    }
}

/// Executable offset pairs, as the mathematical ones.
pub open spec fn slice_pairs_view(hs: Seq<((usize, usize), (usize, usize))>) -> Seq<
    ((int, int), (int, int)),
> {
    hs.map_values(
        |h: ((usize, usize), (usize, usize))|
            ((h.0.0 as int, h.0.1 as int), (h.1.0 as int, h.1.1 as int)),
    )
}

#[via_fn]
proof fn parse_header_lines_dec(s: Seq<u8>, i: int, n: int) {
    match find_crlf(s, i) {
        Some(_) => lemma_find_crlf_bounds(s, i),
        None => (),
    }
}

/// What `find_crlf` promises of a hit: in range, on a CRLF, and first.
pub proof fn lemma_find_crlf_bounds(s: Seq<u8>, i: int)
    requires
        find_crlf(s, i) is Some,
    ensures
        i <= find_crlf(s, i)->Some_0,
        find_crlf(s, i)->Some_0 + 2 <= s.len(),
        s[find_crlf(s, i)->Some_0] == CR,
        s[find_crlf(s, i)->Some_0 + 1] == LF,
        forall|j: int| i <= j < find_crlf(s, i)->Some_0 ==> !crlf_at(s, j),
    decreases s.len() - i,
{
    if i < 0 || i + 2 > s.len() {
    } else if s[i] == CR && s[i + 1] == LF {
    } else {
        lemma_find_crlf_bounds(s, i + 1);
    }
}

/// What `find_byte_in` promises of a hit: in range, on `b`, and first.
pub proof fn lemma_find_byte_bounds(s: Seq<u8>, i: int, end: int, b: u8)
    requires
        find_byte_in(s, i, end, b) is Some,
    ensures
        i <= find_byte_in(s, i, end, b)->Some_0 < end,
        end <= s.len(),
        s[find_byte_in(s, i, end, b)->Some_0] == b,
        forall|j: int| i <= j < find_byte_in(s, i, end, b)->Some_0 ==> s[j] != b,
    decreases end - i,
{
    if i < 0 || i >= end || end > s.len() {
    } else if s[i] == b {
    } else {
        lemma_find_byte_bounds(s, i + 1, end, b);
    }
}

/// Where `skip_ows` stops: after the whitespace run, inside the range.
pub proof fn lemma_skip_ows_bounds(s: Seq<u8>, i: int, end: int)
    requires
        0 <= i <= end <= s.len(),
    ensures
        i <= skip_ows(s, i, end) <= end,
        forall|j: int| i <= j < skip_ows(s, i, end) ==> (s[j] == SP || s[j] == HT),
        skip_ows(s, i, end) < end ==> !(s[skip_ows(s, i, end)] == SP || s[skip_ows(s, i, end)]
            == HT),
    decreases end - i,
{
    if 0 <= i < end && end <= s.len() && (s[i] == SP || s[i] == HT) {
        lemma_skip_ows_bounds(s, i + 1, end);
    }
}

/// Digits in `r`, most significant first, as a number.
pub open spec fn dec_value(s: Seq<u8>) -> int
    decreases s.len(),
{
    if s.len() == 0 {
        0
    } else {
        dec_value(s.drop_last()) * 10 + (s.last() - 48)
    }
}

/// Nonempty, all digits.
pub open spec fn is_dec(s: Seq<u8>) -> bool {
    s.len() >= 1 && forall|i: int| 0 <= i < s.len() ==> is_digit(s[i])
}

/// A digit string's value is never negative.
pub proof fn lemma_dec_value_nonneg(s: Seq<u8>)
    requires
        forall|i: int| 0 <= i < s.len() ==> is_digit(s[i]),
    ensures
        dec_value(s) >= 0,
    decreases s.len(),
{
    if s.len() > 0 {
        lemma_dec_value_nonneg(s.drop_last());
    }
}

/// Extending a digit string never shrinks its value.
pub proof fn lemma_dec_value_take_le(s: Seq<u8>, j: int)
    requires
        forall|i: int| 0 <= i < s.len() ==> is_digit(s[i]),
        0 <= j <= s.len(),
    ensures
        dec_value(s.take(j)) <= dec_value(s),
    decreases s.len() - j,
{
    if j < s.len() {
        lemma_dec_value_take_le(s, j + 1);
        let t = s.take(j + 1);
        assert(t.drop_last() =~= s.take(j));
        assert(forall|i: int| 0 <= i < t.len() ==> is_digit(t[i]));
        lemma_dec_value_nonneg(t.drop_last());
        assert(dec_value(t) == dec_value(s.take(j)) * 10 + (t.last() - 48));
        assert(is_digit(t.last()));
        assert(dec_value(s.take(j)) <= dec_value(s.take(j + 1)));
    } else {
        assert(s.take(j) =~= s);
    }
}

/// The body length the header block declares: `Ok(None)` when no
/// `Content-Length` is present, `Ok(Some(v))` when every occurrence is a
/// decimal number in `u64` range spelling `v`, `Err` on an invalid or
/// conflicting declaration.
pub open spec fn content_length_of(s: Seq<u8>, hs: Seq<((int, int), (int, int))>) -> Result<
    Option<int>,
    (),
>
    decreases hs.len(),
{
    if hs.len() == 0 {
        Ok(None)
    } else {
        let prior = content_length_of(s, hs.drop_last());
        let h = hs.last();
        if name_is(s, h, content_length_token()) {
            let v = slice_of(s, h.1);
            if !(is_dec(v) && dec_value(v) <= u64::MAX as int) {
                Err(())
            } else {
                match prior {
                    Err(()) => Err(()),
                    Ok(None) => Ok(Some(dec_value(v))),
                    Ok(Some(p)) => if p == dec_value(v) {
                        Ok(Some(p))
                    } else {
                        Err(())
                    },
                }
            }
        } else {
            prior
        }
    }
}

/// A declared body length always fits `u64`.
pub proof fn lemma_content_length_ok_bounds(s: Seq<u8>, hs: Seq<((int, int), (int, int))>)
    requires
        content_length_of(s, hs) matches Ok(Some(v)),
    ensures
        content_length_of(s, hs) matches Ok(Some(v)) && 0 <= v <= u64::MAX as int,
    decreases hs.len(),
{
    if hs.len() > 0 {
        let h = hs.last();
        if name_is(s, h, content_length_token()) {
            let v = slice_of(s, h.1);
            assert(is_dec(v));
            lemma_dec_value_nonneg(v);
        } else {
            lemma_content_length_ok_bounds(s, hs.drop_last());
        }
    }
}

/// An invalid or conflicting declaration in a prefix poisons the whole block.
pub proof fn lemma_content_length_err_extends(
    s: Seq<u8>,
    hs: Seq<((int, int), (int, int))>,
    k: int,
)
    requires
        0 <= k <= hs.len(),
        content_length_of(s, hs.take(k)) is Err,
    ensures
        content_length_of(s, hs) is Err,
    decreases hs.len() - k,
{
    if k < hs.len() {
        assert(hs.take(k + 1).drop_last() =~= hs.take(k));
        assert(content_length_of(s, hs.take(k + 1)) is Err);
        lemma_content_length_err_extends(s, hs, k + 1);
    } else {
        assert(hs.take(k) =~= hs);
    }
}

/// Value slice of the last header named `tok` (case-insensitively), if any.
pub open spec fn last_header_named(
    s: Seq<u8>,
    hs: Seq<((int, int), (int, int))>,
    tok: Seq<u8>,
) -> Option<(int, int)>
    decreases hs.len(),
{
    if hs.len() == 0 {
        None
    } else if name_is(s, hs.last(), tok) {
        Some(hs.last().1)
    } else {
        last_header_named(s, hs.drop_last(), tok)
    }
}

/// A CRLF preceded by no CR at all is the first CRLF found.
pub proof fn lemma_find_crlf_at(s: Seq<u8>, i: int, e: int)
    requires
        0 <= i <= e,
        e + 2 <= s.len(),
        s[e] == CR,
        s[e + 1] == LF,
        forall|j: int| i <= j < e ==> s[j] != CR,
    ensures
        find_crlf(s, i) == Some(e),
    decreases e - i,
{
    if i < e {
        lemma_find_crlf_at(s, i + 1, e);
    }
}

/// A byte preceded by no other occurrence is the first found.
pub proof fn lemma_find_byte_at(s: Seq<u8>, i: int, end: int, b: u8, c: int)
    requires
        0 <= i <= c < end <= s.len(),
        s[c] == b,
        forall|j: int| i <= j < c ==> s[j] != b,
    ensures
        find_byte_in(s, i, end, b) == Some(c),
    decreases c - i,
{
    if i < c {
        lemma_find_byte_at(s, i + 1, end, b, c);
    }
}

/// The byte contents each header offset pair selects.
pub open spec fn header_values(s: Seq<u8>, hs: Seq<((int, int), (int, int))>) -> Seq<
    (Seq<u8>, Seq<u8>),
> {
    hs.map_values(|h: ((int, int), (int, int))| (slice_of(s, h.0), slice_of(s, h.1)))
}

/// `s1` and `s2` carry the same bytes below offset `L`.
pub open spec fn agree_below(s1: Seq<u8>, s2: Seq<u8>, L: int) -> bool {
    &&& L <= s1.len()
    &&& L <= s2.len()
    &&& forall|j: int| 0 <= j < L ==> s1[j] == s2[j]
}

/// A CRLF hit below `L` is found in any sequence agreeing below `L`.
pub proof fn lemma_find_crlf_agree(s1: Seq<u8>, s2: Seq<u8>, i: int, L: int)
    requires
        find_crlf(s1, i) matches Some(e) && e + 2 <= L,
        0 <= i,
        agree_below(s1, s2, L),
    ensures
        find_crlf(s2, i) == find_crlf(s1, i),
    decreases L - i,
{
    let e = find_crlf(s1, i)->Some_0;
    lemma_find_crlf_bounds(s1, i);
    if i == e {
    } else {
        lemma_find_crlf_agree(s1, s2, i + 1, L);
    }
}

/// Cutting a sequence off before a first CRLF leaves none to find.
pub proof fn lemma_find_crlf_cut(s: Seq<u8>, i: int, k: int)
    requires
        find_crlf(s, i) matches Some(e) && i <= k <= e + 1,
        0 <= i,
        k <= s.len(),
    ensures
        find_crlf(s.take(k), i) is None,
    decreases k - i,
{
    lemma_find_crlf_bounds(s, i);
    if i + 2 <= k {
        lemma_find_crlf_cut(s, i + 1, k);
    }
}

/// A byte search within `[i, end)` below `L` is unchanged by agreement.
pub proof fn lemma_find_byte_agree(s1: Seq<u8>, s2: Seq<u8>, i: int, end: int, b: u8, L: int)
    requires
        end <= L,
        agree_below(s1, s2, L),
    ensures
        find_byte_in(s2, i, end, b) == find_byte_in(s1, i, end, b),
    decreases end - i,
{
    if i < 0 || i >= end {
    } else {
        lemma_find_byte_agree(s1, s2, i + 1, end, b, L);
    }
}

/// Whitespace skipping within `[i, end)` below `L` is unchanged by agreement.
pub proof fn lemma_skip_ows_agree(s1: Seq<u8>, s2: Seq<u8>, i: int, end: int, L: int)
    requires
        end <= L,
        agree_below(s1, s2, L),
    ensures
        skip_ows(s2, i, end) == skip_ows(s1, i, end),
    decreases end - i,
{
    if 0 <= i < end && (s1[i] == SP || s1[i] == HT) {
        lemma_skip_ows_agree(s1, s2, i + 1, end, L);
    }
}

/// The request line's meaning depends only on the bytes below its end.
pub proof fn lemma_request_line_agree(s1: Seq<u8>, s2: Seq<u8>, end: int, L: int)
    requires
        0 <= end <= L,
        agree_below(s1, s2, L),
    ensures
        parse_request_line(s2, end) == parse_request_line(s1, end),
{
    lemma_find_byte_agree(s1, s2, 0, end, SP, L);
    match find_byte_in(s1, 0, end, SP) {
        None => {},
        Some(sp1) => {
            lemma_find_byte_bounds(s1, 0, end, SP);
            assert(valid_token(s2, (0, sp1)) == valid_token(s1, (0, sp1)));
            lemma_find_byte_agree(s1, s2, sp1 + 1, end, SP, L);
            match find_byte_in(s1, sp1 + 1, end, SP) {
                None => {},
                Some(sp2) => {
                    lemma_find_byte_bounds(s1, sp1 + 1, end, SP);
                    assert(valid_token(s2, (sp1 + 1, sp2)) == valid_token(s1, (sp1 + 1, sp2)));
                    assert(is_http_version(s2, sp2 + 1, end) == is_http_version(s1, sp2 + 1, end));
                },
            }
        },
    }
}

/// A header line's meaning depends only on the bytes below its end.
pub proof fn lemma_header_line_agree(s1: Seq<u8>, s2: Seq<u8>, i: int, end: int, L: int)
    requires
        0 <= i <= end <= L,
        agree_below(s1, s2, L),
    ensures
        parse_header_line(s2, i, end) == parse_header_line(s1, i, end),
{
    lemma_find_byte_agree(s1, s2, i, end, COLON, L);
    match find_byte_in(s1, i, end, COLON) {
        None => {},
        Some(c) => {
            lemma_find_byte_bounds(s1, i, end, COLON);
            assert(valid_name(s2, (i, c)) == valid_name(s1, (i, c)));
            lemma_skip_ows_agree(s1, s2, c + 1, end, L);
            let v = skip_ows(s1, c + 1, end);
            lemma_skip_ows_bounds(s1, c + 1, end);
            assert(valid_value(s2, (v, end)) == valid_value(s1, (v, end)));
        },
    }
}

/// Structure of a completed header block: where it ends, and that every
/// header offset pair lies between the scan's start and the blank line.
pub proof fn lemma_header_lines_bounds(s: Seq<u8>, i: int, n: int)
    requires
        0 <= i,
        parse_header_lines(s, i, n) matches HeadProgress::Lines(hs, end),
    ensures
        parse_header_lines(s, i, n) matches HeadProgress::Lines(hs, end) && {
            &&& i + 2 <= end <= s.len()
            &&& forall|k: int|
                0 <= k < hs.len() ==> {
                    &&& i <= #[trigger] hs[k].0.0 < hs[k].0.1 < hs[k].1.0 <= hs[k].1.1 <= end - 2
                }
        },
    decreases s.len() - i,
{
    lemma_find_crlf_bounds(s, i);
    let e = find_crlf(s, i)->Some_0;
    if e == i {
    } else {
        match parse_header_line(s, i, e) {
            Err(_) => {},
            Ok(h) => {
                lemma_find_byte_bounds(s, i, e, COLON);
                let c = find_byte_in(s, i, e, COLON)->Some_0;
                lemma_skip_ows_bounds(s, c + 1, e);
                lemma_header_lines_bounds(s, e + 2, n + 1);
                let rest = parse_header_lines(s, e + 2, n + 1);
                match rest {
                    HeadProgress::Lines(hs2, end2) => {
                        assert(parse_header_lines(s, i, n) == HeadProgress::Lines(
                            seq![h] + hs2,
                            end2,
                        ));
                        let hs = seq![h] + hs2;
                        assert(hs[0] == h);
                        assert(forall|k: int| 1 <= k < hs.len() ==> hs[k] == hs2[k - 1]);
                    },
                    _ => {},
                }
            },
        }
    }
}

/// A completed header block's meaning depends only on the bytes below its
/// end.
pub proof fn lemma_header_lines_agree(s1: Seq<u8>, s2: Seq<u8>, i: int, n: int, L: int)
    requires
        0 <= i,
        parse_header_lines(s1, i, n) matches HeadProgress::Lines(hs, end) && end <= L,
        agree_below(s1, s2, L),
    ensures
        parse_header_lines(s2, i, n) == parse_header_lines(s1, i, n),
    decreases s1.len() - i,
{
    lemma_find_crlf_bounds(s1, i);
    lemma_header_lines_bounds(s1, i, n);
    let e = find_crlf(s1, i)->Some_0;
    if e == i {
        lemma_find_crlf_agree(s1, s2, i, L);
    } else {
        match parse_header_line(s1, i, e) {
            Err(_) => {},
            Ok(h) => {
                lemma_header_lines_bounds(s1, e + 2, n + 1);
                lemma_find_crlf_agree(s1, s2, i, L);
                lemma_header_line_agree(s1, s2, i, e, L);
                lemma_header_lines_agree(s1, s2, e + 2, n + 1, L);
            },
        }
    }
}

/// Cutting a buffer anywhere strictly inside a completed header block makes
/// the scan incomplete.
pub proof fn lemma_header_lines_cut_incomplete(s: Seq<u8>, i: int, n: int, k: int)
    requires
        0 <= i <= k,
        parse_header_lines(s, i, n) matches HeadProgress::Lines(hs, end) && k < end,
        k <= s.len(),
    ensures
        parse_header_lines(s.take(k), i, n) is Incomplete,
    decreases s.len() - i,
{
    lemma_find_crlf_bounds(s, i);
    lemma_header_lines_bounds(s, i, n);
    let e = find_crlf(s, i)->Some_0;
    if k <= e + 1 {
        lemma_find_crlf_cut(s, i, k);
        assert(find_crlf(s.take(k), i) is None);
    } else {
        lemma_find_crlf_agree(s, s.take(k), i, k);
        if e == i {
            assert(k < i + 2);
        } else {
            match parse_header_line(s, i, e) {
                Err(_) => {},
                Ok(h) => {
                    lemma_header_line_agree(s, s.take(k), i, e, k);
                    lemma_header_lines_bounds(s, e + 2, n + 1);
                    lemma_header_lines_cut_incomplete(s, e + 2, n + 1, k);
                },
            }
        }
    }
}

/// The declared body length depends only on the bytes the header offsets
/// reach.
pub proof fn lemma_content_length_agree(
    s1: Seq<u8>,
    s2: Seq<u8>,
    hs: Seq<((int, int), (int, int))>,
    L: int,
)
    requires
        agree_below(s1, s2, L),
        forall|k: int|
            0 <= k < hs.len() ==> {
                &&& 0 <= #[trigger] hs[k].0.0 <= hs[k].0.1 <= L
                &&& 0 <= hs[k].1.0 <= hs[k].1.1 <= L
            },
    ensures
        content_length_of(s2, hs) == content_length_of(s1, hs),
    decreases hs.len(),
{
    if hs.len() > 0 {
        let h = hs.last();
        assert(slice_of(s2, h.0) =~= slice_of(s1, h.0));
        assert(slice_of(s2, h.1) =~= slice_of(s1, h.1));
        lemma_content_length_agree(s1, s2, hs.drop_last(), L);
    }
}

/// A well-formed header line parses back to exactly its name and value: for
/// a region holding `name ':' ' ' value CRLF` with valid charsets, the CRLF
/// is the first from the line's start, and the line parses to offset pairs
/// selecting exactly the name and the value.
pub proof fn lemma_header_line_parse(s: Seq<u8>, i: int, nb: Seq<u8>, vb: Seq<u8>)
    requires
        0 <= i,
        i + nb.len() + vb.len() + 4 <= s.len(),
        s.subrange(i, i + nb.len() + vb.len() + 4) == nb + seq![COLON, SP] + vb + seq![CR, LF],
        nb.len() >= 1,
        forall|j: int| 0 <= j < nb.len() ==> is_name_byte(#[trigger] nb[j]),
        forall|j: int| 0 <= j < vb.len() ==> is_value_byte(#[trigger] vb[j]),
        vb.len() > 0 ==> !(vb[0] == SP || vb[0] == HT),
    ensures
        ({
            let e = i + nb.len() + vb.len() + 2;
            &&& find_crlf(s, i) == Some(e)
            &&& parse_header_line(s, i, e) == Ok::<_, ParseReason>(
                ((i, i + nb.len() as int), (i + nb.len() + 2, e)),
            )
            &&& slice_of(s, (i, i + nb.len() as int)) == nb
            &&& slice_of(s, (i + nb.len() + 2, e)) == vb
        }),
{
    let line = nb + seq![COLON, SP] + vb + seq![CR, LF];
    let e = i + nb.len() + vb.len() + 2;
    let c = i + nb.len() as int;
    assert forall|j: int| i <= j < i + line.len() implies s[j] == line[j - i] by {
        assert(s.subrange(i, i + nb.len() + vb.len() + 4)[j - i] == line[j - i]);
    }
    assert(s[e] == CR && s[e + 1] == LF);
    assert(forall|j: int| i <= j < e ==> s[j] != CR);
    lemma_find_crlf_at(s, i, e);
    assert(s[c] == COLON && s[c + 1] == SP);
    assert(forall|j: int| i <= j < c ==> s[j] != COLON);
    lemma_find_byte_at(s, i, e, COLON, c);
    assert(valid_name(s, (i, c)));
    assert(skip_ows(s, c + 1, e) == skip_ows(s, c + 2, e));
    if c + 2 < e {
        assert(s[c + 2] == vb[0]);
        assert(skip_ows(s, c + 2, e) == c + 2);
    } else {
        assert(skip_ows(s, c + 2, e) == c + 2);
    }
    assert(valid_value(s, (c + 2, e)));
    assert(slice_of(s, (i, c)) =~= nb);
    assert(slice_of(s, (c + 2, e)) =~= vb);
}

/// Everything a complete head determines.
pub ghost struct HeadFields {
    /// Offsets of the method token.
    pub method: (int, int),
    /// Offsets of the path token.
    pub path: (int, int),
    /// Protocol version minor digit.
    pub minor: u8,
    /// Offset pairs of each header's name and value, in order, duplicates
    /// preserved.
    pub headers: Seq<((int, int), (int, int))>,
    /// Bytes the head occupies, terminator included.
    pub head_len: int,
    /// Declared body length (zero when no `Content-Length` is present).
    pub body_len: int,
}

/// Outcome of scanning a buffer for a request head.
pub ghost enum HeadOutcome {
    /// A full head lies at the start of the buffer.
    Complete(HeadFields),
    /// More bytes are needed before anything can be decided.
    Incomplete,
    /// The connection is poisoned: malformed or oversized head.
    Rejected(ParseReason),
}

/// Structure of a complete head: token validity, offsets in order within the
/// head, and the head within both the buffer and the size bound.
pub proof fn lemma_complete_head_bounds(s: Seq<u8>, max: int)
    requires
        parse_head(s, max) matches HeadOutcome::Complete(f),
    ensures
        parse_head(s, max) matches HeadOutcome::Complete(f) && {
            &&& valid_token(s, f.method)
            &&& valid_token(s, f.path)
            &&& f.method.0 == 0
            &&& f.method.1 < f.path.0 <= f.path.1 < f.head_len
            &&& 4 <= f.head_len <= s.len()
            &&& f.head_len <= max
            &&& 0 <= f.body_len <= u64::MAX as int
            &&& forall|k: int|
                0 <= k < f.headers.len() ==> {
                    &&& 0 < #[trigger] f.headers[k].0.0 < f.headers[k].0.1 < f.headers[k].1.0
                        <= f.headers[k].1.1 <= f.head_len - 2
                }
        },
{
    let f = parse_head(s, max)->Complete_0;
    lemma_find_crlf_bounds(s, 0);
    let e0 = find_crlf(s, 0)->Some_0;
    let rl = parse_request_line(s, e0)->Ok_0;
    lemma_find_byte_bounds(s, 0, e0, SP);
    let sp1 = find_byte_in(s, 0, e0, SP)->Some_0;
    lemma_find_byte_bounds(s, sp1 + 1, e0, SP);
    lemma_header_lines_bounds(s, e0 + 2, 0);
    match content_length_of(s, f.headers) {
        Ok(Some(v)) => {
            lemma_content_length_ok_bounds(s, f.headers);
        },
        _ => {},
    }
}

/// A complete head keeps its meaning in any buffer that carries the same
/// bytes up to (at least) the head's end: longer, shorter, or differing only
/// beyond it.  This is what lets grown buffers, trimmed buffers and pipelined
/// successors re-parse to the same request.
pub proof fn lemma_parse_head_agree(s1: Seq<u8>, s2: Seq<u8>, max: int, L: int)
    requires
        parse_head(s1, max) matches HeadOutcome::Complete(f) && f.head_len <= L,
        agree_below(s1, s2, L),
    ensures
        parse_head(s2, max) == parse_head(s1, max),
{
    let f = parse_head(s1, max)->Complete_0;
    lemma_complete_head_bounds(s1, max);
    lemma_find_crlf_bounds(s1, 0);
    let e0 = find_crlf(s1, 0)->Some_0;
    lemma_header_lines_bounds(s1, e0 + 2, 0);
    lemma_find_crlf_agree(s1, s2, 0, L);
    lemma_request_line_agree(s1, s2, e0, L);
    lemma_header_lines_agree(s1, s2, e0 + 2, 0, L);
    lemma_content_length_agree(s1, s2, f.headers, L);
}

/// Cutting a buffer anywhere strictly inside a complete head yields
/// "incomplete", never a spurious success or error.
pub proof fn lemma_parse_head_cut_incomplete(s: Seq<u8>, max: int, k: int)
    requires
        parse_head(s, max) matches HeadOutcome::Complete(f) && 0 <= k < f.head_len,
    ensures
        parse_head(s.take(k), max) is Incomplete,
{
    let f = parse_head(s, max)->Complete_0;
    lemma_complete_head_bounds(s, max);
    lemma_find_crlf_bounds(s, 0);
    let e0 = find_crlf(s, 0)->Some_0;
    lemma_header_lines_bounds(s, e0 + 2, 0);
    if k <= e0 + 1 {
        lemma_find_crlf_cut(s, 0, k);
        assert(find_crlf(s.take(k), 0) is None);
    } else {
        lemma_find_crlf_agree(s, s.take(k), 0, k);
        lemma_request_line_agree(s, s.take(k), e0, k);
        lemma_header_lines_cut_incomplete(s, e0 + 2, 0, k);
    }
}

/// Chunked delivery is equivalent to one-shot parsing.  However a head is
/// split into chunks, every proper prefix parses as "incomplete" — never a
/// spurious success or error, and nothing is consumed — and once the bytes
/// reach the head's end, parsing yields exactly the fields of the one-shot
/// parse of the concatenation, whatever trails behind.
pub proof fn lemma_chunked_parse_equivalence(s: Seq<u8>, k: int, max: int)
    requires
        parse_head(s, max) matches HeadOutcome::Complete(f),
        0 <= k <= s.len(),
    ensures
        parse_head(s, max) matches HeadOutcome::Complete(f) && {
            &&& k < f.head_len ==> parse_head(s.take(k), max) is Incomplete
            &&& k >= f.head_len ==> parse_head(s.take(k), max) == parse_head(s, max)
        },
{
    let f = parse_head(s, max)->Complete_0;
    lemma_complete_head_bounds(s, max);
    if k < f.head_len {
        lemma_parse_head_cut_incomplete(s, max, k);
    } else {
        lemma_parse_head_agree(s, s.take(k), max, f.head_len);
    }
}

/// Pipelined messages are parsed in isolation: with a first complete message
/// (head and body) at the front of the buffer, whatever follows it changes
/// nothing about how it parses, and retiring exactly its bytes leaves the
/// follower intact at the buffer's start.  No byte of the second request is
/// consumed as part of the first.
pub proof fn lemma_pipelined_requests(m1: Seq<u8>, rest: Seq<u8>, max: int)
    requires
        parse_head(m1, max) matches HeadOutcome::Complete(f) && m1.len() == f.head_len
            + f.body_len,
    ensures
        parse_head(m1 + rest, max) == parse_head(m1, max),
        parse_head(m1 + rest, max) matches HeadOutcome::Complete(f) && (m1 + rest).skip(
            f.head_len + f.body_len,
        ) == rest,
{
    let f = parse_head(m1, max)->Complete_0;
    lemma_complete_head_bounds(m1, max);
    lemma_parse_head_agree(m1, m1 + rest, max, f.head_len);
    assert((m1 + rest).skip(f.head_len + f.body_len) =~= rest);
}

/// The head-size bound is exact.  A parsed head keeps parsing under any
/// bound it fits, a head one byte over a bound is rejected as oversized —
/// never silently truncated.
pub proof fn lemma_head_size_boundary(s: Seq<u8>, max: int, max2: int)
    requires
        parse_head(s, max) matches HeadOutcome::Complete(f),
    ensures
        parse_head(s, max) matches HeadOutcome::Complete(f) && parse_head(s, max2) == (
        if f.head_len <= max2 {
            parse_head(s, max)
        } else {
            HeadOutcome::Rejected(ParseReason::TooLarge)
        }),
{
    lemma_complete_head_bounds(s, max);
}

/// The meaning of a buffer's unconsumed bytes, under head-size bound `max`:
/// the single source of truth the executable parser is proved against.
pub open spec fn parse_head(s: Seq<u8>, max: int) -> HeadOutcome {
    match find_crlf(s, 0) {
        None => if s.len() >= max {
            HeadOutcome::Rejected(ParseReason::TooLarge)
        } else {
            HeadOutcome::Incomplete
        },
        Some(e0) => match parse_request_line(s, e0) {
            Err(r) => HeadOutcome::Rejected(r),
            Ok(rl) => match parse_header_lines(s, e0 + 2, 0) {
                HeadProgress::Incomplete => if s.len() >= max {
                    HeadOutcome::Rejected(ParseReason::TooLarge)
                } else {
                    HeadOutcome::Incomplete
                },
                HeadProgress::Bad(r) => HeadOutcome::Rejected(r),
                HeadProgress::Lines(hs, end) => if end > max {
                    HeadOutcome::Rejected(ParseReason::TooLarge)
                } else {
                    match content_length_of(s, hs) {
                        Err(()) => HeadOutcome::Rejected(ParseReason::ContentLength),
                        Ok(cl) => HeadOutcome::Complete(HeadFields {
                            method: rl.method,
                            path: rl.path,
                            minor: rl.minor,
                            headers: hs,
                            head_len: end,
                            body_len: match cl {
                                Some(v) => v,
                                None => 0,
                            },
                        }),
                    }
                },
            },
        },
    }
}

} // verus!
