//! Response builder and serializer.
//!
//! A response accumulates a status line and headers, then transitions once to
//! the body-writing phase: the first body write (or [`Response::done`])
//! synthesizes the status line, the collected headers, a `Connection: close`
//! policy header and the blank line into the output buffer; body bytes are
//! appended after.  The transition is one-way, and operations valid only
//! while collecting headers fail with [`Error::InvalidState`] afterwards.

use vstd::prelude::*;
use vstd::string::StringExecFns;
use vstd::utf8::encode_utf8;

use crate::buffer::ByteBuffer;
use crate::error::Error;
use crate::grammar::dec_value;
use crate::grammar::find_byte_in;
use crate::grammar::find_crlf;
use crate::grammar::header_values;
use crate::grammar::is_dec;
use crate::grammar::is_digit;
use crate::grammar::lemma_find_byte_at;
use crate::grammar::lemma_find_crlf_at;
use crate::grammar::lemma_header_line_parse;
use crate::grammar::parse_header_lines;
use crate::grammar::slice_of;
use crate::grammar::HeadProgress;
use crate::grammar::COLON;
use crate::grammar::CR;
use crate::grammar::LF;
use crate::grammar::SP;
use crate::MAX_HEADERS;

verus! {

/// Two-phase discipline: headers first, then body.
#[derive(Debug, PartialEq, Eq, Structural, Clone, Copy)]
enum ResponseState {
    CollectHeaders,
    WriteBody,
}

/// Decimal digits of `n`, most significant first.
pub open spec fn dec_bytes(n: int) -> Seq<u8>
    decreases n,
{
    if n < 10 {
        seq![(48 + if n >= 0 { n } else { 0 }) as u8]
    } else {
        dec_bytes(n / 10).push((48 + n % 10) as u8)
    }
}

/// The bytes `HTTP/1.` that open every status line.
pub open spec fn http_prefix_bytes() -> Seq<u8> {
    seq![72u8, 84u8, 84u8, 80u8, 47u8, 49u8, 46u8]
}

/// The bytes of one CRLF line ending.
pub open spec fn crlf_bytes() -> Seq<u8> {
    seq![13u8, 10u8]
}

/// `HTTP/<1.minor> <code> <reason>` and the line ending.
pub open spec fn status_line_bytes(minor: u8, code: u16, reason: Seq<char>) -> Seq<u8> {
    http_prefix_bytes() + dec_bytes(minor as int) + seq![32u8] + dec_bytes(code as int)
        + seq![32u8] + encode_utf8(reason) + crlf_bytes()
}

/// `<name>: <value>` and the line ending.
pub open spec fn header_bytes(name: Seq<char>, value: Seq<char>) -> Seq<u8> {
    encode_utf8(name) + seq![58u8, 32u8] + encode_utf8(value) + crlf_bytes()
}

/// Each collected header on its own line, in order.
pub open spec fn headers_bytes(hs: Seq<(Seq<char>, Seq<char>)>) -> Seq<u8>
    decreases hs.len(),
{
    if hs.len() == 0 {
        Seq::<u8>::empty()
    } else {
        header_bytes(hs.first().0, hs.first().1) + headers_bytes(hs.drop_first())
    }
}

/// The bytes of the `Connection: close` policy header line.
pub open spec fn connection_close_bytes() -> Seq<u8> {
    seq![
        67u8, 111u8, 110u8, 110u8, 101u8, 99u8, 116u8, 105u8, 111u8, 110u8, 58u8, 32u8, 99u8,
        108u8, 111u8, 115u8, 101u8, 13u8, 10u8,
    ]
}

/// The complete serialized head: status line, collected headers, policy
/// header, blank line.
pub open spec fn head_bytes(minor: u8, code: u16, reason: Seq<char>, hs: Seq<(Seq<char>, Seq<char>)>) -> Seq<u8> {
    status_line_bytes(minor, code, reason) + headers_bytes(hs) + connection_close_bytes()
        + crlf_bytes()
}

/// The views of each collected header pair.
pub open spec fn string_pairs_view(hs: Seq<(String, String)>) -> Seq<(Seq<char>, Seq<char>)> {
    hs.map_values(|h: (String, String)| (h.0@, h.1@))
}

/// Appending one header to the block appends its line.
pub proof fn lemma_headers_bytes_snoc(hs: Seq<(Seq<char>, Seq<char>)>, h: (Seq<char>, Seq<char>))
    ensures
        headers_bytes(hs.push(h)) == headers_bytes(hs) + header_bytes(h.0, h.1),
    decreases hs.len(),
{
    if hs.len() == 0 {
        assert(hs.push(h).drop_first() =~= Seq::<(Seq<char>, Seq<char>)>::empty());
        assert(hs.push(h).first() == h);
        assert(headers_bytes(Seq::<(Seq<char>, Seq<char>)>::empty()) == Seq::<u8>::empty());
        assert(headers_bytes(hs.push(h)) =~= header_bytes(h.0, h.1));
        assert(headers_bytes(hs) + header_bytes(h.0, h.1) =~= header_bytes(h.0, h.1));
    } else {
        assert(hs.push(h).drop_first() =~= hs.drop_first().push(h));
        assert(hs.push(h).first() == hs.first());
        lemma_headers_bytes_snoc(hs.drop_first(), h);
        assert(header_bytes(hs.first().0, hs.first().1) + (headers_bytes(hs.drop_first())
            + header_bytes(h.0, h.1)) =~= (header_bytes(hs.first().0, hs.first().1)
            + headers_bytes(hs.drop_first())) + header_bytes(h.0, h.1));
    }
}

/// Append the decimal digits of `n` to `out`.
fn push_decimal(out: &mut ByteBuffer, n: u64)
    ensures
        final(out)@ == old(out)@ + dec_bytes(n as int),
{
    let mut digits: Vec<u8> = Vec::new();
    let mut m = n;
    loop
        invariant_except_break
            dec_bytes(n as int) == dec_bytes(m as int) + digits@.reverse(),
        ensures
            dec_bytes(n as int) == digits@.reverse(),
        decreases m,
    {
        if m < 10 {
            let ghost before = digits@;
            digits.push(48 + m as u8);
            proof {
                assert(digits@.reverse() =~= seq![(48 + m as int) as u8] + before.reverse());
                assert(dec_bytes(m as int) + before.reverse() =~= seq![(48 + m as int) as u8]
                    + before.reverse());
            }
            break ;
        }
        let d = (m % 10) as u8;
        let ghost before = digits@;
        digits.push(48 + d);
        proof {
            assert(digits@.reverse() =~= seq![(48 + d) as u8] + before.reverse());
            assert(dec_bytes(m as int / 10) + seq![(48 + d) as u8] =~= dec_bytes(m as int));
            assert(dec_bytes(m as int / 10) + (seq![(48 + d) as u8] + before.reverse()) =~= (
            dec_bytes(m as int / 10) + seq![(48 + d) as u8]) + before.reverse());
            vstd::arithmetic::div_mod::lemma_div_decreases(m as int, 10);
        }
        m = m / 10;
    }
    let n_digits = digits.len();
    let mut j = n_digits;
    assert(out@ =~= old(out)@ + digits@.reverse().take(0));
    while j > 0
        invariant
            j <= n_digits,
            n_digits == digits@.len(),
            out@ == old(out)@ + digits@.reverse().take(n_digits - j),
        decreases j,
    {
        j = j - 1;
        let b = digits[j];
        out.push(b);
        proof {
            assert(digits@.reverse()[n_digits - 1 - j] == digits@[j as int]);
            assert(out@ =~= old(out)@ + digits@.reverse().take(n_digits - j));
        }
    }
    proof {
        assert(digits@.reverse().take(n_digits as int) =~= digits@.reverse());
    }
}

/// Serialize a complete head from its parts.
fn build_head(version: u8, code: u16, reason: &String, headers: &Vec<(String, String)>) -> (out:
    ByteBuffer)
    ensures
        out@ == head_bytes(version, code, reason@, string_pairs_view(headers@)),
{
    let ghost hs = string_pairs_view(headers@);
    let mut out = ByteBuffer::new();
    let pre: [u8; 7] = [72, 84, 84, 80, 47, 49, 46];
    out.append(pre.as_slice());
    assert(out@ =~= http_prefix_bytes());
    push_decimal(&mut out, version as u64);
    out.push(SP);
    push_decimal(&mut out, code as u64);
    out.push(SP);
    out.append(reason.as_str().as_bytes());
    out.push(CR);
    out.push(LF);
    assert(out@ =~= status_line_bytes(version, code, reason@));
    let ghost status = out@;
    let n = headers.len();
    let mut k: usize = 0;
    assert(out@ =~= status + headers_bytes(hs.take(0)));
    while k < n
        invariant
            k <= n,
            n == headers@.len(),
            hs == string_pairs_view(headers@),
            status == status_line_bytes(version, code, reason@),
            out@ == status + headers_bytes(hs.take(k as int)),
        decreases n - k,
    {
        let ghost before = out@;
        let h = &headers[k];
        out.append(h.0.as_str().as_bytes());
        out.push(COLON);
        out.push(SP);
        out.append(h.1.as_str().as_bytes());
        out.push(CR);
        out.push(LF);
        proof {
            assert(hs[k as int] == (headers@[k as int].0@, headers@[k as int].1@));
            assert(out@ =~= before + header_bytes(hs[k as int].0, hs[k as int].1));
            assert(hs.take(k + 1) =~= hs.take(k as int).push(hs[k as int]));
            lemma_headers_bytes_snoc(hs.take(k as int), hs[k as int]);
            assert(out@ =~= status + headers_bytes(hs.take(k + 1)));
        }
        k = k + 1;
    }
    assert(hs.take(n as int) =~= hs);
    let cc: [u8; 19] = [
        67,
        111,
        110,
        110,
        101,
        99,
        116,
        105,
        111,
        110,
        58,
        32,
        99,
        108,
        111,
        115,
        101,
        13,
        10,
    ];
    out.append(cc.as_slice());
    out.push(CR);
    out.push(LF);
    assert(cc@ =~= connection_close_bytes());
    assert(out@ =~= head_bytes(version, code, reason@, hs));
    out
}

/// Response under construction, with its serialized bytes.
pub struct Response {
    code: u16,
    reason: String,
    version: u8,
    buf: ByteBuffer,
    state: ResponseState,
    headers: Vec<(String, String)>,
}

impl Response {
    /// Status code.
    pub closed spec fn spec_code(&self) -> u16 {
        self.code
    }

    /// Reason phrase.
    pub closed spec fn spec_reason(&self) -> Seq<char> {
        self.reason@
    }

    /// Protocol version minor digit the status line will carry.
    pub closed spec fn spec_version(&self) -> u8 {
        self.version
    }

    /// Collected headers, in order.
    pub closed spec fn spec_headers(&self) -> Seq<(Seq<char>, Seq<char>)> {
        string_pairs_view(self.headers@)
    }

    /// Still in the headers-collecting phase.
    pub closed spec fn collecting(&self) -> bool {
        self.state is CollectHeaders
    }

    /// Serialized bytes produced so far and not yet drained.
    pub closed spec fn out(&self) -> Seq<u8> {
        self.buf@
    }

    /// The head this response serializes to.
    pub open spec fn spec_head_bytes(&self) -> Seq<u8> {
        head_bytes(self.spec_version(), self.spec_code(), self.spec_reason(), self.spec_headers())
    }

    /// Until the head is flushed, nothing has been serialized.
    pub closed spec fn wf(&self) -> bool {
        self.state is CollectHeaders ==> self.buf@ == Seq::<u8>::empty()
    }

    /// Fresh response: status 200 OK, no headers, collecting.
    pub fn new(version: u8) -> (r: Response)
        ensures
            r.wf(),
            r.collecting(),
            r.spec_code() == 200,
            r.spec_reason() == "OK"@,
            r.spec_version() == version,
            r.spec_headers() == Seq::<(Seq<char>, Seq<char>)>::empty(),
            r.out() == Seq::<u8>::empty(),
    {
        let r = Response {
            code: 200,
            reason: String::from_str("OK"),
            version,
            buf: ByteBuffer::new(),
            state: ResponseState::CollectHeaders,
            headers: Vec::new(),
        };
        assert(r.spec_headers() =~= Seq::<(Seq<char>, Seq<char>)>::empty());
        r
    }

    /// Change the status code; valid only while collecting headers.
    pub fn set_status(&mut self, code: u16) -> (r: Result<(), Error>)
        requires
            old(self).wf(),
        ensures
            final(self).wf(),
            if old(self).collecting() {
                &&& r == Ok::<(), Error>(())
                &&& final(self).spec_code() == code
                &&& final(self).spec_reason() == old(self).spec_reason()
                &&& final(self).spec_version() == old(self).spec_version()
                &&& final(self).spec_headers() == old(self).spec_headers()
                &&& final(self).collecting()
                &&& final(self).out() == old(self).out()
            } else {
                r == Err::<(), Error>(Error::InvalidState) && *final(self) == *old(self)
            },
    {
        match self.state {
            ResponseState::CollectHeaders => {
                self.code = code;
                Ok(())
            },
            ResponseState::WriteBody => Err(Error::InvalidState),
        }
    }

    /// Change the reason phrase; valid only while collecting headers.
    pub fn set_reason(&mut self, reason: String) -> (r: Result<(), Error>)
        requires
            old(self).wf(),
        ensures
            final(self).wf(),
            if old(self).collecting() {
                &&& r == Ok::<(), Error>(())
                &&& final(self).spec_reason() == reason@
                &&& final(self).spec_code() == old(self).spec_code()
                &&& final(self).spec_version() == old(self).spec_version()
                &&& final(self).spec_headers() == old(self).spec_headers()
                &&& final(self).collecting()
                &&& final(self).out() == old(self).out()
            } else {
                r == Err::<(), Error>(Error::InvalidState) && *final(self) == *old(self)
            },
    {
        match self.state {
            ResponseState::CollectHeaders => {
                self.reason = reason;
                Ok(())
            },
            ResponseState::WriteBody => Err(Error::InvalidState),
        }
    }

    /// Collect one header line; valid only while collecting headers.
    pub fn with_header(&mut self, header: String, value: String) -> (r: Result<(), Error>)
        requires
            old(self).wf(),
        ensures
            final(self).wf(),
            if old(self).collecting() {
                &&& r == Ok::<(), Error>(())
                &&& final(self).spec_headers() == old(self).spec_headers().push(
                    (header@, value@),
                )
                &&& final(self).spec_code() == old(self).spec_code()
                &&& final(self).spec_reason() == old(self).spec_reason()
                &&& final(self).spec_version() == old(self).spec_version()
                &&& final(self).collecting()
                &&& final(self).out() == old(self).out()
            } else {
                r == Err::<(), Error>(Error::InvalidState) && *final(self) == *old(self)
            },
    {
        match self.state {
            ResponseState::CollectHeaders => {
                let ghost before = self.headers@;
                self.headers.push((header, value));
                proof {
                    assert(string_pairs_view(self.headers@) =~= string_pairs_view(before).push(
                        (self.headers@.last().0@, self.headers@.last().1@),
                    ));
                }
                Ok(())
            },
            ResponseState::WriteBody => Err(Error::InvalidState),
        }
    }

    /// Synthesize the status line, headers, policy header and blank line into
    /// the output, and move to the body-writing phase.
    pub fn flush_headers(&mut self) -> (r: Result<(), Error>)
        requires
            old(self).wf(),
        ensures
            final(self).wf(),
            if old(self).collecting() {
                &&& r == Ok::<(), Error>(())
                &&& final(self).out() == old(self).spec_head_bytes()
                &&& !final(self).collecting()
                &&& final(self).spec_code() == old(self).spec_code()
                &&& final(self).spec_reason() == old(self).spec_reason()
                &&& final(self).spec_version() == old(self).spec_version()
                &&& final(self).spec_headers() == old(self).spec_headers()
            } else {
                r == Err::<(), Error>(Error::InvalidState) && *final(self) == *old(self)
            },
    {
        match self.state {
            ResponseState::CollectHeaders => {
                let head = build_head(self.version, self.code, &self.reason, &self.headers);
                self.buf.append(head.as_slice());
                self.state = ResponseState::WriteBody;
                assert(self.buf@ =~= head@);
                Ok(())
            },
            ResponseState::WriteBody => Err(Error::InvalidState),
        }
    }

    /// Append body bytes, flushing the head first if still collecting.
    pub fn with_body(&mut self, body: &[u8])
        requires
            old(self).wf(),
        ensures
            final(self).wf(),
            !final(self).collecting(),
            final(self).out() == if old(self).collecting() {
                old(self).spec_head_bytes() + body@
            } else {
                old(self).out() + body@
            },
            final(self).spec_code() == old(self).spec_code(),
            final(self).spec_reason() == old(self).spec_reason(),
            final(self).spec_version() == old(self).spec_version(),
            final(self).spec_headers() == old(self).spec_headers(),
    {
        match self.state {
            ResponseState::CollectHeaders => {
                let head = build_head(self.version, self.code, &self.reason, &self.headers);
                self.buf.append(head.as_slice());
                self.state = ResponseState::WriteBody;
            },
            ResponseState::WriteBody => {},
        }
        self.buf.append(body);
    }

    /// Finish the response: flush an empty-body head if still collecting;
    /// idempotent once writing the body.
    pub fn done(&mut self)
        requires
            old(self).wf(),
        ensures
            final(self).wf(),
            !final(self).collecting(),
            final(self).out() == if old(self).collecting() {
                old(self).spec_head_bytes()
            } else {
                old(self).out()
            },
            final(self).spec_code() == old(self).spec_code(),
            final(self).spec_reason() == old(self).spec_reason(),
            final(self).spec_version() == old(self).spec_version(),
            final(self).spec_headers() == old(self).spec_headers(),
    {
        match self.state {
            ResponseState::CollectHeaders => {
                let head = build_head(self.version, self.code, &self.reason, &self.headers);
                self.buf.append(head.as_slice());
                self.state = ResponseState::WriteBody;
                assert(self.buf@ =~= head@);
            },
            ResponseState::WriteBody => {},
        }
    }

    /// Move every serialized byte produced so far into `out`, preserving
    /// order.
    pub fn write_to(&mut self, out: &mut ByteBuffer)
        requires
            old(self).wf(),
        ensures
            final(self).wf(),
            final(out)@ == old(out)@ + old(self).out(),
            final(self).out() == Seq::<u8>::empty(),
            final(self).collecting() == old(self).collecting(),
            final(self).spec_code() == old(self).spec_code(),
            final(self).spec_reason() == old(self).spec_reason(),
            final(self).spec_version() == old(self).spec_version(),
            final(self).spec_headers() == old(self).spec_headers(),
    {
        let n = self.buf.len();
        out.append(self.buf.as_slice());
        self.buf.consume(n);
        assert(self.buf@ =~= Seq::<u8>::empty());
    }
}

/// The bytes ASCII characters encode to, one each.
pub open spec fn ascii_bytes(sc: Seq<char>) -> Seq<u8> {
    Seq::new(sc.len(), |i: int| sc[i] as u8)
}

/// Reason phrases that serialize one byte per character and survive a
/// re-parse: printable ASCII.
pub open spec fn reason_chars_ok(sc: Seq<char>) -> bool {
    forall|i: int| 0 <= i < sc.len() ==> 32 <= #[trigger] sc[i] as int <= 126
}

/// Header names that survive a re-parse: nonempty, printable ASCII, no
/// colon.
pub open spec fn header_name_chars_ok(sc: Seq<char>) -> bool {
    &&& sc.len() >= 1
    &&& forall|i: int| 0 <= i < sc.len() ==> 33 <= #[trigger] sc[i] as int <= 126 && sc[i] as int
        != 58
}

/// Header values that survive a re-parse byte for byte: printable ASCII or
/// tab, not opening with the whitespace the parser trims.
pub open spec fn header_value_chars_ok(sc: Seq<char>) -> bool {
    &&& forall|i: int|
        0 <= i < sc.len() ==> (#[trigger] sc[i] as int == 9 || 32 <= sc[i] as int <= 126)
    &&& sc.len() > 0 ==> !(sc[0] as int == 32 || sc[0] as int == 9)
}

/// The headers' characters, as the bytes they serialize to.
pub open spec fn pairs_ascii(hs: Seq<(Seq<char>, Seq<char>)>) -> Seq<(Seq<u8>, Seq<u8>)> {
    hs.map_values(|h: (Seq<char>, Seq<char>)| (ascii_bytes(h.0), ascii_bytes(h.1)))
}

/// ASCII character sequences encode byte for byte.
proof fn lemma_encode_ascii(sc: Seq<char>)
    requires
        forall|i: int| 0 <= i < sc.len() ==> 0 <= #[trigger] sc[i] as int <= 126,
    ensures
        encode_utf8(sc) == ascii_bytes(sc),
{
    assert forall|i: int| 0 <= i < sc.len() implies '\0' <= #[trigger] sc[i] <= '\u{7f}' by {
        assert(0 <= sc[i] as int <= 126);
    }
    assert(vstd::utf8::is_ascii_chars(sc));
    vstd::utf8::is_ascii_chars_encode_utf8(sc);
    assert(encode_utf8(sc) =~= ascii_bytes(sc));
}

/// Decimal digits are digits.
pub proof fn lemma_dec_bytes_digits(n: int)
    requires
        n >= 0,
    ensures
        dec_bytes(n).len() >= 1,
        forall|j: int| 0 <= j < dec_bytes(n).len() ==> is_digit(#[trigger] dec_bytes(n)[j]),
        n <= 9 ==> dec_bytes(n) == seq![(48 + n) as u8],
    decreases n,
{
    if n >= 10 {
        lemma_dec_bytes_digits(n / 10);
        let d = dec_bytes(n / 10);
        assert(forall|j: int|
            0 <= j < dec_bytes(n).len() - 1 ==> #[trigger] dec_bytes(n)[j] == d[j]);
    }
}

/// Reading back the decimal digits of `n` yields `n`.
pub proof fn lemma_dec_value_round_trip(n: int)
    requires
        n >= 0,
    ensures
        dec_value(dec_bytes(n)) == n,
    decreases n,
{
    if n < 10 {
        assert(dec_bytes(n) == seq![(48 + n) as u8]);
        assert(dec_bytes(n).drop_last() =~= Seq::<u8>::empty());
        assert(dec_value(Seq::<u8>::empty()) == 0);
    } else {
        lemma_dec_value_round_trip(n / 10);
        let w = dec_bytes(n / 10).push((48 + n % 10) as u8);
        assert(w.drop_last() =~= dec_bytes(n / 10));
        assert(dec_value(w) == dec_value(dec_bytes(n / 10)) * 10 + (n % 10));
    }
}

/// Meaning of a status line occupying `[0, end)` of `s`: the fixed
/// `HTTP/1.` opening, the version minor digit, a space, the decimal status
/// code, a space, and the reason phrase running to the line's end.
pub open spec fn parse_status_line(s: Seq<u8>, end: int) -> Result<(u8, int, Seq<u8>), ()> {
    if !(9 <= end <= s.len() && s[0] == 72 && s[1] == 84 && s[2] == 84 && s[3] == 80 && s[4] == 47
        && s[5] == 49 && s[6] == 46 && is_digit(s[7]) && s[8] == SP) {
        Err(())
    } else {
        match find_byte_in(s, 9, end, SP) {
            None => Err(()),
            Some(sp) => {
                let code = s.subrange(9, sp);
                if is_dec(code) {
                    Ok(((s[7] - 48) as u8, dec_value(code), s.subrange(sp + 1, end)))
                } else {
                    Err(())
                }
            },
        }
    }
}

/// The name bytes of the synthesized `Connection` policy header.
pub open spec fn connection_name_bytes() -> Seq<u8> {
    seq![67u8, 111u8, 110u8, 110u8, 101u8, 99u8, 116u8, 105u8, 111u8, 110u8]
}

/// The value bytes of the synthesized `Connection` policy header.
pub open spec fn close_bytes() -> Seq<u8> {
    seq![99u8, 108u8, 111u8, 115u8, 101u8]
}

/// A serialized header block followed by the policy header and the blank
/// line scans back to offset pairs selecting exactly the headers written,
/// in order, with the policy header appended, ending at the blank line.
pub proof fn lemma_headers_block_parse(s: Seq<u8>, i: int, hs: Seq<(Seq<char>, Seq<char>)>, n: int)
    requires
        0 <= i,
        0 <= n,
        n + hs.len() + 1 <= MAX_HEADERS as int,
        forall|k: int|
            0 <= k < hs.len() ==> header_name_chars_ok(#[trigger] hs[k].0)
                && header_value_chars_ok(hs[k].1),
        ({
            let block = headers_bytes(hs) + connection_close_bytes() + crlf_bytes();
            i + block.len() <= s.len() && s.subrange(i, i + block.len()) == block
        }),
    ensures
        ({
            let block = headers_bytes(hs) + connection_close_bytes() + crlf_bytes();
            parse_header_lines(s, i, n) matches HeadProgress::Lines(slices, end) && {
                &&& end == i + block.len()
                &&& header_values(s, slices) == pairs_ascii(hs).push(
                    (connection_name_bytes(), close_bytes()),
                )
            }
        }),
    decreases hs.len(),
{
    let block = headers_bytes(hs) + connection_close_bytes() + crlf_bytes();
    assert forall|j: int| 0 <= j < block.len() implies s[i + j] == block[j] by {
        assert(s.subrange(i, i + block.len() as int)[j] == block[j]);
    }
    if hs.len() == 0 {
        let nb = connection_name_bytes();
        let vb = close_bytes();
        assert(headers_bytes(hs) == Seq::<u8>::empty());
        assert(s.subrange(i, i + 19) =~= nb + seq![COLON, SP] + vb + seq![CR, LF]);
        lemma_header_line_parse(s, i, nb, vb);
        let e = i + 17;
        assert(s[i + 19] == block[19] && block[19] == CR);
        assert(s[i + 20] == block[20] && block[20] == LF);
        lemma_find_crlf_at(s, i + 19, i + 19);
        assert(parse_header_lines(s, i + 19, n + 1) == HeadProgress::Lines(
            Seq::<((int, int), (int, int))>::empty(),
            i + 21,
        ));
        let h = ((i, i + 10), (i + 12, e));
        assert(parse_header_lines(s, i, n) == HeadProgress::Lines(seq![h], i + 21));
        assert(header_values(s, seq![h]) =~= pairs_ascii(hs).push(
            (connection_name_bytes(), close_bytes()),
        ));
    } else {
        let h0 = hs.first();
        let nb = ascii_bytes(h0.0);
        let vb = ascii_bytes(h0.1);
        lemma_encode_ascii(h0.0);
        lemma_encode_ascii(h0.1);
        let line_len = nb.len() + vb.len() + 4;
        let rest = hs.drop_first();
        let rest_block = headers_bytes(rest) + connection_close_bytes() + crlf_bytes();
        assert(block =~= (nb + seq![COLON, SP] + vb + seq![CR, LF]) + rest_block);
        assert(s.subrange(i, i + line_len as int) =~= nb + seq![COLON, SP] + vb + seq![CR, LF]);
        lemma_header_line_parse(s, i, nb, vb);
        let e = i + nb.len() + vb.len() + 2;
        let h = ((i, i + nb.len() as int), (i + nb.len() + 2, e));
        assert forall|t: int|
            0 <= t < rest_block.len() implies s.subrange(
            i + line_len as int,
            i + line_len + rest_block.len(),
        )[t] == rest_block[t] by {
            assert(s[i + line_len + t] == block[line_len + t]);
            assert(block[line_len + t] == rest_block[t]);
        }
        assert(s.subrange(i + line_len as int, i + line_len + rest_block.len()) =~= rest_block);
        lemma_headers_block_parse(s, i + line_len as int, rest, n + 1);
        let slices2 = match parse_header_lines(s, i + line_len as int, n + 1) {
            HeadProgress::Lines(slices2, _) => slices2,
            _ => arbitrary(),
        };
        assert(parse_header_lines(s, i, n) == HeadProgress::Lines(
            seq![h] + slices2,
            i + block.len(),
        ));
        let lhs = header_values(s, seq![h] + slices2);
        let rhs = pairs_ascii(hs).push((connection_name_bytes(), close_bytes()));
        assert(header_values(s, slices2) == pairs_ascii(rest).push(
            (connection_name_bytes(), close_bytes()),
        ));
        assert forall|t: int| 0 <= t < lhs.len() implies lhs[t] == rhs[t] by {
            if t == 0 {
                assert(lhs[0] == (slice_of(s, h.0), slice_of(s, h.1)));
                assert(rhs[0] == pairs_ascii(hs)[0]);
                assert(pairs_ascii(hs)[0] == (ascii_bytes(hs[0].0), ascii_bytes(hs[0].1)));
            } else {
                assert(lhs[t] == header_values(s, slices2)[t - 1]);
                if t - 1 < rest.len() {
                    assert(header_values(s, slices2)[t - 1] == pairs_ascii(rest)[t - 1]);
                    assert(pairs_ascii(rest)[t - 1] == (
                        ascii_bytes(rest[t - 1].0),
                        ascii_bytes(rest[t - 1].1),
                    ));
                    assert(rhs[t] == pairs_ascii(hs)[t]);
                    assert(pairs_ascii(hs)[t] == (ascii_bytes(hs[t].0), ascii_bytes(hs[t].1)));
                    assert(hs[t] == rest[t - 1]);
                }
            }
        }
        assert(lhs =~= rhs);
    }
}

/// Round trip, stated over a response value: the bytes a collecting
/// response will flush for its head, followed by any body, re-parse to the
/// same version, status code, reason, header list (order preserved, with
/// the synthesized `Connection: close` policy header appended) and body.
/// The charset bounds exclude exactly the values (control bytes, CRLF or a
/// colon inside a name, leading whitespace in a value) that no HTTP
/// serialization can carry back unchanged.
pub proof fn lemma_response_value_round_trips(resp: Response, body: Seq<u8>)
    requires
        resp.spec_version() <= 9,
        reason_chars_ok(resp.spec_reason()),
        forall|k: int|
            0 <= k < resp.spec_headers().len() ==> header_name_chars_ok(
                #[trigger] resp.spec_headers()[k].0,
            ) && header_value_chars_ok(resp.spec_headers()[k].1),
        resp.spec_headers().len() + 1 <= MAX_HEADERS as int,
    ensures
        ({
            let ser = resp.spec_head_bytes() + body;
            let sl = status_line_bytes(resp.spec_version(), resp.spec_code(), resp.spec_reason());
            &&& parse_status_line(ser, sl.len() - 2) == Ok::<_, ()>(
                (resp.spec_version(), resp.spec_code() as int, ascii_bytes(resp.spec_reason())),
            )
            &&& parse_header_lines(ser, sl.len() as int, 0) matches HeadProgress::Lines(
                slices,
                end,
            ) && {
                &&& end == resp.spec_head_bytes().len()
                &&& header_values(ser, slices) == pairs_ascii(resp.spec_headers()).push(
                    (connection_name_bytes(), close_bytes()),
                )
                &&& ser.skip(end) == body
            }
        }),
{
    lemma_response_round_trip(
        resp.spec_version(),
        resp.spec_code(),
        resp.spec_reason(),
        resp.spec_headers(),
        body,
    );
}

/// Round trip: serializing a response with a given status, header set and
/// body, then re-parsing the byte stream as a generic HTTP message
/// structure, recovers the same version, status code, reason, header list
/// (order preserved, with the synthesized `Connection: close` policy header
/// appended) and body.
pub proof fn lemma_response_round_trip(
    minor: u8,
    code: u16,
    reason: Seq<char>,
    hs: Seq<(Seq<char>, Seq<char>)>,
    body: Seq<u8>,
)
    requires
        minor <= 9,
        reason_chars_ok(reason),
        forall|k: int|
            0 <= k < hs.len() ==> header_name_chars_ok(#[trigger] hs[k].0)
                && header_value_chars_ok(hs[k].1),
        hs.len() + 1 <= MAX_HEADERS as int,
    ensures
        ({
            let ser = head_bytes(minor, code, reason, hs) + body;
            let sl = status_line_bytes(minor, code, reason);
            &&& find_crlf(ser, 0) == Some(sl.len() - 2)
            &&& parse_status_line(ser, sl.len() - 2) == Ok::<_, ()>(
                (minor, code as int, ascii_bytes(reason)),
            )
            &&& parse_header_lines(ser, sl.len() as int, 0) matches HeadProgress::Lines(
                slices,
                end,
            ) && {
                &&& end == head_bytes(minor, code, reason, hs).len()
                &&& header_values(ser, slices) == pairs_ascii(hs).push(
                    (connection_name_bytes(), close_bytes()),
                )
                &&& ser.skip(end) == body
            }
        }),
{
    let ser = head_bytes(minor, code, reason, hs) + body;
    let sl = status_line_bytes(minor, code, reason);
    let rb = ascii_bytes(reason);
    lemma_encode_ascii(reason);
    lemma_dec_bytes_digits(minor as int);
    lemma_dec_bytes_digits(code as int);
    lemma_dec_value_round_trip(code as int);
    let dm = dec_bytes(minor as int);
    let dc = dec_bytes(code as int);
    assert(sl =~= http_prefix_bytes() + dm + seq![32u8] + dc + seq![32u8] + rb + seq![13u8, 10u8]);
    assert(dm == seq![(48 + minor as int) as u8]);
    let e0 = sl.len() - 2;
    assert forall|j: int| 0 <= j < sl.len() implies ser[j] == sl[j] by {}
    assert(ser[0] == 72 && ser[1] == 84 && ser[2] == 84 && ser[3] == 80 && ser[4] == 47 && ser[5]
        == 49 && ser[6] == 46);
    assert(ser[7] == (48 + minor as int) as u8);
    assert(ser[8] == SP);
    assert(ser[e0] == CR && ser[e0 + 1] == LF);
    assert(forall|j: int| 0 <= j < e0 ==> ser[j] != CR);
    lemma_find_crlf_at(ser, 0, e0);
    let sp = 9 + dc.len() as int;
    assert(ser[sp] == SP);
    assert(forall|j: int| 9 <= j < sp ==> is_digit(ser[j]) && ser[j] != SP);
    lemma_find_byte_at(ser, 9, e0, SP, sp);
    assert(ser.subrange(9, sp) =~= dc);
    assert(ser.subrange(sp + 1, e0) =~= rb);
    assert(parse_status_line(ser, e0) == Ok::<_, ()>((minor, code as int, rb)));
    let block = headers_bytes(hs) + connection_close_bytes() + crlf_bytes();
    assert(ser.subrange(sl.len() as int, (sl.len() + block.len()) as int) =~= block);
    lemma_headers_block_parse(ser, sl.len() as int, hs, 0);
    assert(ser.skip(head_bytes(minor, code, reason, hs).len() as int) =~= body);
}

} // verus!
