//! The HTTP side of the server: framing of requests and bytes of responses.

use vstd::prelude::*;
use crate::index;
use crate::index::approved;
use crate::text;

verus! {

/// The decimal digits of a number, the most significant first.
pub open spec fn decimal(v: nat) -> Seq<u8>
    decreases v,
{
    if v < 10 {
        seq![(0x30 + v) as u8]
    } else {
        decimal(v / 10).push((0x30 + v % 10) as u8)
    }
}

/// The number that decimal digits denote.
pub open spec fn decimal_number(s: Seq<u8>) -> int
    decreases s.len(),
{
    if s.len() == 0 {
        0
    } else {
        10 * decimal_number(s.drop_last()) + s.last() - 0x30
    }
}

/// The digits of a number denote it, are digits, and do not start with a zero unless it is
/// zero.
pub proof fn decimal_round_trip(v: nat)
    ensures
        decimal_number(decimal(v)) == v,
        decimal(v).len() > 0,
        forall|i: int| 0 <= i < decimal(v).len() ==> 0x30 <= #[trigger] decimal(v)[i] <= 0x39,
        decimal(v)[0] == 0x30 <==> v == 0,
    decreases v,
{
    reveal_with_fuel(decimal_number, 2);
    if v >= 10 {
        decimal_round_trip(v / 10);
        assert(decimal(v).drop_last() =~= decimal(v / 10));
    } else {
        assert(decimal(v).drop_last() =~= Seq::empty());
    }
}

/// A power of ten.
spec fn ten_to(k: nat) -> nat
    decreases k,
{
    if k == 0 {
        1
    } else {
        10 * ten_to((k - 1) as nat)
    }
}

proof fn decimal_is_short(v: nat, k: nat)
    requires
        v < ten_to(k),
        k > 0,
    ensures
        decimal(v).len() <= k,
    decreases k,
{
    if v >= 10 {
        assert(k > 1) by {
            reveal_with_fuel(ten_to, 2);
        }
        assert(v / 10 < ten_to((k - 1) as nat));
        decimal_is_short(v / 10, (k - 1) as nat);
    }
}

/// Writes the decimal digits of a number into the buffer and returns them.
pub fn itoa<'a>(v: usize, buf: &'a mut [u8; 20]) -> (digits: &'a [u8])
    ensures
        digits@ == decimal(v as nat),
        v == 0 ==> final(buf)@ == old(buf)@.update(0, 0x30),
        v > 0 ==> decimal(v as nat).len() <= 20 && final(buf)@ == old(buf)@.take(
            20 - decimal(v as nat).len(),
        ) + decimal(v as nat),
{
    let mut v: usize = v;
    if v == 0 {
        buf[0] = 0x30;
        return vstd::slice::slice_subrange(buf.as_slice(), 0, 1);
    }
    let ghost whole = v as nat;
    let mut i: usize = 20;
    proof {
        assert(whole < ten_to(20)) by {
            reveal_with_fuel(ten_to, 21);
        }
        decimal_is_short(whole, 20);
    }
    while v > 0
        invariant
            i <= 20,
            buf@.take(i as int) == old(buf)@.take(i as int),
            v > 0 ==> decimal(whole) == decimal(v as nat) + buf@.subrange(i as int, 20),
            v == 0 ==> decimal(whole) == buf@.subrange(i as int, 20),
            decimal(whole).len() <= 20,
        decreases v,
    {
        proof {
            decimal_round_trip(v as nat);
        }
        let ghost before = buf@;
        i -= 1;
        buf[i] = 0x30 + (v % 10) as u8;
        proof {
            assert(buf@.take(i as int) =~= before.take(i + 1).take(i as int));
            assert(old(buf)@.take(i + 1).take(i as int) =~= old(buf)@.take(i as int));
            assert(buf@.subrange(i as int, 20) =~= seq![(0x30 + v % 10) as u8]
                + before.subrange(i + 1, 20));
            if v >= 10 {
                assert(decimal(v as nat) + before.subrange(i + 1, 20) =~= decimal((v / 10) as nat)
                    + buf@.subrange(i as int, 20));
            } else {
                assert(decimal(v as nat) + before.subrange(i + 1, 20) =~= buf@.subrange(
                    i as int,
                    20,
                ));
            }
        }
        v /= 10;
    }
    assert(buf@ =~= buf@.take(i as int) + buf@.subrange(i as int, 20));
    vstd::slice::slice_subrange(buf.as_slice(), i, 20)
}

/// The bytes of a text.
pub open spec fn bytes_of(s: &str) -> Seq<u8> {
    vstd::utf8::encode_utf8(s@)
}

/// The response with the given body.
pub open spec fn response_bytes(body: Seq<u8>) -> Seq<u8> {
    bytes_of("HTTP/1.1 200 OK\r\nContent-Type: application/json\r\nContent-Length: ") + decimal(
        body.len(),
    ) + bytes_of("\r\nConnection: keep-alive\r\n\r\n") + body
}

/// Builds the response with the given body.
pub fn response(body: &[u8]) -> (out: Vec<u8>)
    ensures
        out@ == response_bytes(body@),
{
    let mut out: Vec<u8> = Vec::new();
    out.extend_from_slice(
        "HTTP/1.1 200 OK\r\nContent-Type: application/json\r\nContent-Length: ".as_bytes(),
    );
    let mut n: [u8; 20] = [0u8; 20];
    out.extend_from_slice(itoa(body.len(), &mut n));
    out.extend_from_slice("\r\nConnection: keep-alive\r\n\r\n".as_bytes());
    out.extend_from_slice(body);
    assert(out@ =~= response_bytes(body@));
    out
}

/// The body that tells a decision: `{"approved":<bool>,"fraud_score":<x.x>}`, where the score
/// is a fifth of the number of frauds.
pub open spec fn decision(approved: bool, frauds: nat) -> Seq<u8> {
    bytes_of("{\"approved\":") + (if approved {
        bytes_of("true")
    } else {
        bytes_of("false")
    }) + bytes_of(",\"fraud_score\":") + seq![
        (0x30 + 2 * frauds / 10) as u8,
        0x2e,
        (0x30 + 2 * frauds % 10) as u8,
        0x7d,
    ]
}

/// Writes the body that tells a decision, in place of what `out` held.
pub fn fmt_into(out: &mut Vec<u8>, approved: bool, frauds: u32)
    requires
        2 * frauds / 10 <= 0xff - 0x30,
    ensures
        final(out)@ == decision(approved, frauds as nat),
        approved ==> final(out)@ == vstd::utf8::encode_utf8(
            "{\"approved\":true,\"fraud_score\":"@,
        ) + seq![(48 + 2 * frauds / 10) as u8, 46, (48 + 2 * frauds % 10) as u8, 125],
        !approved ==> final(out)@ == vstd::utf8::encode_utf8(
            "{\"approved\":false,\"fraud_score\":"@,
        ) + seq![(48 + 2 * frauds / 10) as u8, 46, (48 + 2 * frauds % 10) as u8, 125],
{
    proof {
        decisions_in_full(approved, frauds as nat);
    }
    out.clear();
    out.extend_from_slice("{\"approved\":".as_bytes());
    if approved {
        out.extend_from_slice("true".as_bytes());
    } else {
        out.extend_from_slice("false".as_bytes());
    }
    out.extend_from_slice(",\"fraud_score\":".as_bytes());
    let tenths: u32 = 2 * frauds;
    out.push(0x30 + (tenths / 10) as u8);
    out.push(0x2e);
    out.push(0x30 + (tenths % 10) as u8);
    out.push(0x7d);
    assert(out@ =~= decision(approved, frauds as nat));
}

/// The body that answers a scored request: what the number of frauds decides, or, where the
/// payload could not be read, an approval with score 0.
pub open spec fn answer(frauds: Option<u32>) -> Seq<u8> {
    match frauds {
        Some(n) => decision(index::is_approved(n as int), n as nat),
        None => bytes_of("{\"approved\":true,\"fraud_score\":0.0}"),
    }
}

/// Builds the body that answers a scored request.
pub fn answer_body(frauds: Option<u32>) -> (out: Vec<u8>)
    requires
        frauds matches Some(n) ==> 2 * n / 10 <= 0xff - 0x30,
    ensures
        out@ == answer(frauds),
{
    let mut out: Vec<u8> = Vec::new();
    match frauds {
        Some(n) => fmt_into(&mut out, approved(n), n),
        None => out.extend_from_slice(
            "{\"approved\":true,\"fraud_score\":0.0}".as_bytes(),
        ),
    }
    assert(out@ =~= answer(frauds));
    out
}

/// Builds the body that answers a request which is not scored.
pub fn ready_body() -> (out: Vec<u8>)
    ensures
        out@ == bytes_of("ok"),
{
    let mut out: Vec<u8> = Vec::new();
    out.extend_from_slice("ok".as_bytes());
    assert(out@ =~= bytes_of("ok"));
    out
}

/// A payload that could not be read is answered like a transaction without a fraud among its
/// neighbours.
pub proof fn unread_is_approved()
    ensures
        answer(None) == decision(true, 0),
        answer(None) == answer(Some(0)),
{
    reveal_strlit("{\"approved\":true,\"fraud_score\":0.0}");
    reveal_strlit("{\"approved\":");
    reveal_strlit("true");
    reveal_strlit(",\"fraud_score\":");
    vstd::utf8::is_ascii_chars_encode_utf8("{\"approved\":true,\"fraud_score\":0.0}"@);
    vstd::utf8::is_ascii_chars_encode_utf8("{\"approved\":"@);
    vstd::utf8::is_ascii_chars_encode_utf8("true"@);
    vstd::utf8::is_ascii_chars_encode_utf8(",\"fraud_score\":"@);
    assert(answer(None) =~= decision(true, 0));
}

/// The body of a decision ends with the score: a digit, a point, a digit and a brace, and the
/// digits are the score in tenths.
pub proof fn decision_ends_with_score(approved: bool, frauds: nat)
    requires
        frauds <= 5,
    ensures
        decision(approved, frauds).len() >= 4,
        ({
            let s = decision(approved, frauds);
            let n = s.len();
            &&& 0x30 <= s[n - 4] <= 0x39
            &&& s[n - 3] == 0x2e
            &&& 0x30 <= s[n - 2] <= 0x39
            &&& s[n - 1] == 0x7d
            &&& 10 * (s[n - 4] - 0x30) + (s[n - 2] - 0x30) == 2 * frauds
        }),
{
}

/// What a connection waits for.
#[derive(Clone, Copy, Debug, PartialEq, Eq, Structural)]
pub enum Phase {
    /// The request line.
    Request,
    /// A header, or the empty line behind the last.
    Header,
}

/// What is to be done on a connection.
#[derive(Clone, Copy, Debug, PartialEq, Eq, Structural)]
pub enum Action {
    /// Close it.
    Close,
    /// Read a line.
    ReadLine,
    /// Read a body of that many bytes, score it and answer.
    Score(usize),
    /// Answer that the server is ready.
    Ready,
}

/// The state of a connection.
#[derive(Clone, Copy, Debug, PartialEq, Eq, Structural)]
pub struct Conn {
    pub phase: Phase,
    pub is_post: bool,
    pub content_len: usize,
}

/// A connection on which nothing has been read.
pub open spec fn fresh() -> Conn {
    Conn { phase: Phase::Request, is_post: false, content_len: 0 }
}

/// A request is a post if its line starts with a P.
pub open spec fn starts_with_p(line: Seq<char>) -> bool {
    line.len() > 0 && line[0] == 'P'
}

/// An upper-case ASCII letter in lower case, any other character as it is.
pub open spec fn lower(c: char) -> char {
    if 'A' <= c <= 'Z' {
        (c as u32 + 32) as char
    } else {
        c
    }
}

/// The first colon of a header, or its end.
pub open spec fn colon(t: Seq<char>, from: int) -> int
    decreases t.len() - from,
{
    if from < t.len() && t[from] != ':' {
        colon(t, from + 1)
    } else {
        from
    }
}

/// The header tells the length of the body: its name, whatever its case, is `content-length`.
pub open spec fn is_length_header(line: Seq<char>) -> bool {
    let t = text::trimmed_end(line);
    let at = colon(t, 0);
    at < t.len() && t.take(at).map_values(|c: char| lower(c)) == "content-length"@
}

/// The length that a header tells, 0 if what it says is not a number.
pub open spec fn length_told(line: Seq<char>) -> usize {
    let t = text::trimmed_end(line);
    match text::number(text::trimmed(t.skip(colon(t, 0) + 1)), usize::MAX as nat) {
        Some(n) => n as usize,
        None => 0,
    }
}

/// A line that ends the headers.
pub open spec fn ends_headers(line: Seq<char>) -> bool {
    text::trimmed_end(line).len() == 0
}

/// The state after a line was read. A missing or empty line means that the connection is at
/// its end and changes nothing.
pub open spec fn after_line(s: Conn, line: Option<&str>) -> Conn {
    match line {
        None => s,
        Some(l) => if l@.len() == 0 {
            s
        } else {
            match s.phase {
                Phase::Request => Conn {
                    phase: Phase::Header,
                    is_post: starts_with_p(l@),
                    content_len: 0,
                },
                Phase::Header => if ends_headers(l@) {
                    Conn { phase: Phase::Request, ..s }
                } else if is_length_header(l@) {
                    Conn { content_len: length_told(l@), ..s }
                } else {
                    s
                },
            }
        },
    }
}

/// What is to be done after a line was read in state `s`.
pub open spec fn action(s: Conn, line: Option<&str>) -> Action {
    match line {
        None => Action::Close,
        Some(l) => if l@.len() == 0 {
            Action::Close
        } else if s.phase is Header && ends_headers(l@) {
            if s.is_post {
                Action::Score(s.content_len)
            } else {
                Action::Ready
            }
        } else {
            Action::ReadLine
        },
    }
}

/// Finds the first colon.
fn find_colon(t: &[char], end: usize) -> (at: usize)
    requires
        end <= t.len(),
    ensures
        at == colon(t@.take(end as int), 0),
        at <= end,
{
    let ghost h = t@.take(end as int);
    let mut at: usize = 0;
    while at < end && t[at] != ':'
        invariant
            at <= end <= t.len(),
            h == t@.take(end as int),
            colon(h, at as int) == colon(h, 0),
        decreases end - at,
    {
        assert(h[at as int] == t@[at as int]);
        at += 1;
    }
    if at < end {
        assert(h[at as int] == t@[at as int]);
    }
    at
}

/// Tells whether the first `at` characters are the name of the length header.
fn names_length(t: &[char], at: usize) -> (yes: bool)
    requires
        at <= t.len(),
    ensures
        yes == (t@.take(at as int).map_values(|c: char| lower(c)) == "content-length"@),
{
    let want = text::chars_of("content-length");
    let ghost name = t@.take(at as int).map_values(|c: char| lower(c));
    proof {
        reveal_strlit("content-length");
    }
    if at != want.len() {
        assert(name.len() != want@.len());
        return false;
    }
    for i in 0..at
        invariant
            at <= t.len(),
            want@ == "content-length"@,
            at == want.len(),
            name == t@.take(at as int).map_values(|c: char| lower(c)),
            forall|j: int| 0 <= j < want.len() ==> !('A' <= #[trigger] want@[j] <= 'Z'),
            forall|j: int| 0 <= j < i ==> name[j] == #[trigger] want@[j],
    {
        let c = t[i];
        let w = want[i];
        assert(name[i as int] == lower(c));
        let matching = if 'A' <= c && c <= 'Z' {
            c as u32 + 32 == w as u32
        } else {
            c == w
        };
        proof {
            if 'A' <= c && c <= 'Z' {
                vstd::utf8::char_u32_cast(w, w as u32);
                vstd::utf8::char_u32_cast(lower(c), (c as u32 + 32) as u32);
            }
        }
        if !matching {
            assert(name[i as int] != want@[i as int]);
            return false;
        }
    }
    assert(name =~= want@);
    true
}

impl Conn {
    /// A connection on which nothing has been read.
    pub fn new() -> (c: Conn)
        ensures
            c == fresh(),
            c.phase is Request,
            !c.is_post,
            c.content_len == 0,
    {
        Conn { phase: Phase::Request, is_post: false, content_len: 0 }
    }

    /// Takes a line that was read, with its end, and tells what is to be done. An empty line
    /// is the end of the connection; `None` tells that reading failed.
    pub fn on_line(&mut self, line: Option<&str>) -> (a: Action)
        ensures
            *final(self) == after_line(*old(self), line),
            a == action(*old(self), line),
    {
        let l = match line {
            None => {
                return Action::Close;
            },
            Some(l) => l,
        };
        let chars = text::chars_of(l);
        if chars.len() == 0 {
            return Action::Close;
        }
        match self.phase {
            Phase::Request => {
                self.phase = Phase::Header;
                self.is_post = chars[0] == 'P';
                self.content_len = 0;
                Action::ReadLine
            },
            Phase::Header => {
                let end = text::end_of(chars.as_slice(), 0, chars.len());
                let ghost t = text::trimmed_end(l@);
                proof {
                    assert(l@.subrange(0, l@.len() as int) =~= l@);
                    assert(chars@.take(end as int) =~= chars@.subrange(0, end as int));
                    assert(t == chars@.take(end as int));
                }
                if end == 0 {
                    self.phase = Phase::Request;
                    if self.is_post {
                        Action::Score(self.content_len)
                    } else {
                        Action::Ready
                    }
                } else {
                    let at = find_colon(chars.as_slice(), end);
                    assert(t.take(at as int) =~= chars@.take(at as int));
                    if at < end && names_length(chars.as_slice(), at) {
                        let stop = text::end_of(chars.as_slice(), at + 1, end);
                        let begin = text::start_of(chars.as_slice(), at + 1, stop);
                        assert(t.skip(at + 1) =~= chars@.subrange(at + 1, end as int));
                        let value = vstd::slice::slice_subrange(chars.as_slice(), begin, stop);
                        self.content_len = match text::parse_number(value, usize::MAX as u64) {
                            Some(n) => n as usize,
                            None => 0,
                        };
                    }
                    Action::ReadLine
                }
            },
        }
    }
}

/// The state after several lines.
pub open spec fn after_lines(s: Conn, lines: Seq<&str>) -> Conn
    decreases lines.len(),
{
    if lines.len() == 0 {
        s
    } else {
        after_line(after_lines(s, lines.drop_last()), Some(lines.last()))
    }
}

/// The length of the body that headers tell: what the last header about it says, 0 if none
/// does.
pub open spec fn told_length(headers: Seq<&str>) -> usize
    decreases headers.len(),
{
    if headers.len() == 0 {
        0
    } else if is_length_header(headers.last()@) {
        length_told(headers.last()@)
    } else {
        told_length(headers.drop_last())
    }
}

/// A line that is a header: neither the end of the connection nor that of the headers.
pub open spec fn is_header(line: &str) -> bool {
    line@.len() > 0 && !ends_headers(line@)
}

proof fn headers_are_collected(s: Conn, headers: Seq<&str>)
    requires
        s.phase is Header,
        s.content_len == 0,
        forall|i: int| 0 <= i < headers.len() ==> is_header(#[trigger] headers[i]),
    ensures
        after_lines(s, headers) == (Conn { content_len: told_length(headers), ..s }),
    decreases headers.len(),
{
    if headers.len() > 0 {
        let init = headers.drop_last();
        assert forall|i: int| 0 <= i < init.len() implies is_header(#[trigger] init[i]) by {
            assert(init[i] == headers[i]);
        }
        headers_are_collected(s, init);
        assert(is_header(headers[headers.len() - 1]));
    }
}

/// However a connection got to wait for a request: the request line and the headers are read
/// line by line, and the empty line behind them leads to the scoring of a body of the told
/// length if the request is a post, and to the ready answer if not. Then the connection waits
/// for a request again.
pub proof fn request_is_framed(s: Conn, request: &str, headers: Seq<&str>, end: &str)
    requires
        s.phase is Request,
        request@.len() > 0,
        forall|i: int| 0 <= i < headers.len() ==> is_header(#[trigger] headers[i]),
        end@.len() > 0,
        ends_headers(end@),
    ensures
        ({
            let asked = after_line(s, Some(request));
            let told = after_lines(asked, headers);
            &&& action(s, Some(request)) == Action::ReadLine
            &&& forall|i: int|
                0 <= i < headers.len() ==> action(
                    after_lines(asked, headers.take(i)),
                    Some(#[trigger] headers[i]),
                ) == Action::ReadLine
            &&& action(told, Some(end)) == if starts_with_p(request@) {
                Action::Score(told_length(headers))
            } else {
                Action::Ready
            }
            &&& after_line(told, Some(end)).phase is Request
        }),
{
    let asked = after_line(s, Some(request));
    headers_are_collected(asked, headers);
    assert forall|i: int| 0 <= i < headers.len() implies action(
        after_lines(asked, headers.take(i)),
        Some(#[trigger] headers[i]),
    ) == Action::ReadLine by {
        assert(is_header(headers[i]));
    }
}

/// One more digit is written behind the others; a single digit is written as it is.
pub proof fn digits_are_written_in_order(v: nat, d: nat)
    requires
        d < 10,
    ensures
        decimal(d) == seq![(48 + d) as u8],
        v > 0 ==> decimal(10 * v + d) == decimal(v).push((48 + d) as u8),
{
    assert((10 * v + d) / 10 == v && (10 * v + d) % 10 == d);
}

/// What is answered, in full: approval exactly with at most two frauds, and the score with one
/// decimal. A payload that could not be read is approved with score 0.
pub proof fn answers_in_full(n: u32)
    ensures
        n <= 2 ==> answer(Some(n)) == vstd::utf8::encode_utf8(
            "{\"approved\":true,\"fraud_score\":"@,
        ) + seq![48u8, 46, (48 + 2 * n) as u8, 125],
        3 <= n <= 4 ==> answer(Some(n)) == vstd::utf8::encode_utf8(
            "{\"approved\":false,\"fraud_score\":"@,
        ) + seq![48u8, 46, (48 + 2 * n) as u8, 125],
        n == 5 ==> answer(Some(n)) == vstd::utf8::encode_utf8(
            "{\"approved\":false,\"fraud_score\":"@,
        ) + seq![49u8, 46, 48, 125],
        n <= 2 ==> answer(Some(n)) == decision(true, n as nat),
        n >= 3 ==> answer(Some(n)) == decision(false, n as nat),
        answer(None) == vstd::utf8::encode_utf8("{\"approved\":true,\"fraud_score\":0.0}"@),
{
    decisions_in_full(true, n as nat);
    decisions_in_full(false, n as nat);
}

/// What a decision says, in full: whether it is an approval, and twice the number of frauds as
/// tenths.
pub proof fn decisions_in_full(approved: bool, frauds: nat)
    ensures
        approved ==> decision(approved, frauds) == vstd::utf8::encode_utf8(
            "{\"approved\":true,\"fraud_score\":"@,
        ) + seq![(48 + 2 * frauds / 10) as u8, 46, (48 + 2 * frauds % 10) as u8, 125],
        !approved ==> decision(approved, frauds) == vstd::utf8::encode_utf8(
            "{\"approved\":false,\"fraud_score\":"@,
        ) + seq![(48 + 2 * frauds / 10) as u8, 46, (48 + 2 * frauds % 10) as u8, 125],
{
    reveal_strlit("{\"approved\":");
    reveal_strlit("true");
    reveal_strlit("false");
    reveal_strlit(",\"fraud_score\":");
    vstd::utf8::is_ascii_chars_encode_utf8("{\"approved\":"@);
    vstd::utf8::is_ascii_chars_encode_utf8("true"@);
    vstd::utf8::is_ascii_chars_encode_utf8("false"@);
    vstd::utf8::is_ascii_chars_encode_utf8(",\"fraud_score\":"@);
    if approved {
        reveal_strlit("{\"approved\":true,\"fraud_score\":");
        vstd::utf8::is_ascii_chars_encode_utf8("{\"approved\":true,\"fraud_score\":"@);
        assert(decision(true, frauds) =~= vstd::utf8::encode_utf8(
            "{\"approved\":true,\"fraud_score\":"@,
        ) + seq![(48 + 2 * frauds / 10) as u8, 46, (48 + 2 * frauds % 10) as u8, 125]);
    } else {
        reveal_strlit("{\"approved\":false,\"fraud_score\":");
        vstd::utf8::is_ascii_chars_encode_utf8("{\"approved\":false,\"fraud_score\":"@);
        assert(decision(false, frauds) =~= vstd::utf8::encode_utf8(
            "{\"approved\":false,\"fraud_score\":"@,
        ) + seq![(48 + 2 * frauds / 10) as u8, 46, (48 + 2 * frauds % 10) as u8, 125]);
    }
}

/// A response is its head, the length of the body in decimal, the rest of the head and the
/// body.
pub proof fn responses_in_full(body: Seq<u8>)
    ensures
        response_bytes(body) == vstd::utf8::encode_utf8(
            "HTTP/1.1 200 OK\r\nContent-Type: application/json\r\nContent-Length: "@,
        ) + decimal(body.len()) + vstd::utf8::encode_utf8(
            "\r\nConnection: keep-alive\r\n\r\n"@,
        ) + body,
{
}

/// The end of the input closes the connection and changes nothing.
pub proof fn end_of_input_closes(s: Conn, line: &str)
    ensures
        action(s, None) == Action::Close,
        after_line(s, None) == s,
        line@.len() == 0 ==> action(s, Some(line)) == Action::Close && after_line(s, Some(line))
            == s,
{
}

/// The first line of a request: a P at its start makes it a post, and no length is known yet.
pub proof fn first_line_tells_the_method(s: Conn, line: &str)
    requires
        s.phase is Request,
        line@.len() > 0,
    ensures
        action(s, Some(line)) == Action::ReadLine,
        after_line(s, Some(line)).phase is Header,
        after_line(s, Some(line)).is_post <==> line@[0] == 'P',
        after_line(s, Some(line)).content_len == 0,
{
}

/// A line of white space ends the headers: a post is then scored with a body of the length
/// that is known, anything else is answered at once. The connection waits for a request again.
pub proof fn blank_line_ends_the_headers(s: Conn, line: &str)
    requires
        s.phase is Header,
        line@.len() > 0,
        forall|i: int| 0 <= i < line@.len() ==> text::is_space(#[trigger] line@[i]),
    ensures
        s.is_post ==> action(s, Some(line)) == Action::Score(s.content_len),
        !s.is_post ==> action(s, Some(line)) == Action::Ready,
        after_line(s, Some(line)).phase is Request,
        after_line(s, Some(line)).is_post == s.is_post,
        after_line(s, Some(line)).content_len == s.content_len,
{
    let none = Seq::<char>::empty();
    text::trimming_takes_the_space_around(none, none, line@);
    assert(none + line@ =~= line@);
}

proof fn trimmed_end_of_text(t: Seq<char>)
    requires
        exists|i: int| 0 <= i < t.len() && !text::is_space(#[trigger] t[i]),
    ensures
        text::trimmed_end(t).len() > 0,
    decreases t.len(),
{
    let i = choose|i: int| 0 <= i < t.len() && !text::is_space(#[trigger] t[i]);
    if text::is_space(t.last()) {
        assert(i < t.len() - 1);
        assert(t.drop_last()[i] == t[i]);
        trimmed_end_of_text(t.drop_last());
    }
}

proof fn first_colon(name: Seq<char>, rest: Seq<char>, from: int)
    requires
        forall|i: int| 0 <= i < name.len() ==> #[trigger] name[i] != ':',
        0 <= from <= name.len(),
    ensures
        colon(name.push(':') + rest, from) == name.len(),
    decreases name.len() - from,
{
    let t = name.push(':') + rest;
    if from < name.len() {
        assert(t[from] == name[from]);
        first_colon(name, rest, from + 1);
    } else {
        assert(t[from] == ':');
    }
}

proof fn no_colon(t: Seq<char>, from: int)
    requires
        forall|i: int| 0 <= i < t.len() ==> #[trigger] t[i] != ':',
        0 <= from <= t.len(),
    ensures
        colon(t, from) == t.len(),
    decreases t.len() - from,
{
    if from < t.len() {
        no_colon(t, from + 1);
    }
}

proof fn trimmed_end_is_front(t: Seq<char>)
    ensures
        text::trimmed_end(t).len() <= t.len(),
        text::trimmed_end(t) == t.take(text::trimmed_end(t).len() as int),
    decreases t.len(),
{
    if t.len() > 0 && text::is_space(t.last()) {
        trimmed_end_is_front(t.drop_last());
        let n = text::trimmed_end(t).len() as int;
        assert(t.drop_last().take(n) =~= t.take(n));
    } else {
        assert(t.take(t.len() as int) =~= t);
    }
}

/// A header without a colon tells nothing.
pub proof fn header_without_colon_tells_nothing(s: Conn, line: &str)
    requires
        s.phase is Header,
        exists|i: int| 0 <= i < line@.len() && !text::is_space(#[trigger] line@[i]),
        forall|i: int| 0 <= i < line@.len() ==> #[trigger] line@[i] != ':',
    ensures
        action(s, Some(line)) == Action::ReadLine,
        after_line(s, Some(line)) == s,
{
    let t = text::trimmed_end(line@);
    trimmed_end_of_text(line@);
    trimmed_end_is_front(line@);
    assert forall|i: int| 0 <= i < t.len() implies #[trigger] t[i] != ':' by {
        assert(t[i] == line@[i]);
    }
    no_colon(t, 0);
}

/// A character of the name of the length header, in either case.
proof fn either_case(c: char, w: char)
    requires
        ('a' <= w <= 'z') || w == '-',
    ensures
        lower(c) == w <==> c == w || (w != '-' && c as int + 32 == w as int),
{
    if 'A' <= c <= 'Z' {
        vstd::utf8::char_u32_cast(lower(c), (c as u32 + 32) as u32);
    }
}

/// A header with a colon: if its name is `content-length`, in any mixture of cases, it tells the
/// number behind the colon without the white space around it, or 0 if there is none; any other
/// name changes nothing.
pub proof fn length_header_tells_the_length(
    s: Conn,
    line: &str,
    name: Seq<char>,
    value: Seq<char>,
)
    requires
        s.phase is Header,
        line@ == name.push(':') + value,
        forall|i: int| 0 <= i < name.len() ==> #[trigger] name[i] != ':',
    ensures
        ({
            let want = "content-length"@;
            let named = name.len() == want.len() && forall|i: int|
                0 <= i < want.len() ==> #[trigger] name[i] == want[i] || (want[i] != '-' && name[i]
                    as int + 32 == want[i] as int);
            let after = after_line(s, Some(line));
            &&& action(s, Some(line)) == Action::ReadLine
            &&& after.phase is Header
            &&& after.is_post == s.is_post
            &&& !named ==> after.content_len == s.content_len
            &&& named ==> match text::number(text::trimmed(value), usize::MAX as nat) {
                Some(n) => after.content_len == n,
                None => after.content_len == 0,
            }
        }),
{
    let want = "content-length"@;
    let p = name.push(':');
    let t = text::trimmed_end(line@);
    text::spaces_by_code_point(':');
    text::trimming_the_end_keeps_the_front(p, value);
    assert(t == p + text::trimmed_end(value));
    first_colon(name, text::trimmed_end(value), 0);
    let at = colon(t, 0);
    assert(t.take(at) =~= name);
    assert(t.skip(at + 1) =~= text::trimmed_end(value));
    let lowered = name.map_values(|c: char| lower(c));
    reveal_strlit("content-length");
    assert(want.len() == 14);
    assert forall|i: int| 0 <= i < 14 implies ('a' <= #[trigger] want[i] <= 'z') || want[i]
        == '-' by {}
    let named = name.len() == want.len() && forall|i: int|
        0 <= i < want.len() ==> #[trigger] name[i] == want[i] || (want[i] != '-' && name[i] as int
            + 32 == want[i] as int);
    if named {
        assert forall|i: int| 0 <= i < 14 implies lowered[i] == want[i] by {
            assert(name[i] == want[i] || (want[i] != '-' && name[i] as int + 32 == want[i] as int));
            either_case(name[i], want[i]);
        }
        assert(lowered =~= want);
    } else if lowered == want {
        assert forall|i: int| 0 <= i < want.len() implies #[trigger] name[i] == want[i] || (want[i]
            != '-' && name[i] as int + 32 == want[i] as int) by {
            assert(lowered[i] == want[i]);
            either_case(name[i], want[i]);
        }
        assert(lowered.len() == name.len());
    }
}

} // verus!
