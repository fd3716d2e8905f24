//! The HTTP surface: framing of requests, routing, and replies.

use vstd::prelude::*;
use vstd::utf8::*;
use crate::text;

verus! {

/// The longest request that is read.
pub const MAX_REQUEST_BYTES: usize = 131_072;

/// Whether an empty line ends the headers at `i`.
pub open spec fn blank_line_at(buf: Seq<u8>, i: int) -> bool {
    &&& 0 <= i
    &&& i + 4 <= buf.len()
    &&& buf[i] == 0x0d
    &&& buf[i + 1] == 0x0a
    &&& buf[i + 2] == 0x0d
    &&& buf[i + 3] == 0x0a
}

/// Where the headers end: the first place with an empty line.
#[verifier::opaque]
pub open spec fn header_end(buf: Seq<u8>) -> Option<int> {
    if exists|i: int| blank_line_at(buf, i) {
        Some(
            choose|i: int|
                blank_line_at(buf, i) && forall|j: int| j < i ==> !#[trigger] blank_line_at(buf, j),
        )
    } else {
        None
    }
}

pub(crate) proof fn lemma_header_end_is(buf: Seq<u8>, i: int)
    requires
        blank_line_at(buf, i),
        forall|j: int| 0 <= j < i ==> !#[trigger] blank_line_at(buf, j),
    ensures
        header_end(buf) == Some(i),
{
    reveal(header_end);
    assert(forall|j: int| j < i ==> !#[trigger] blank_line_at(buf, j));
    let c = choose|k: int|
        blank_line_at(buf, k) && forall|j: int| j < k ==> !#[trigger] blank_line_at(buf, j);
    assert(blank_line_at(buf, c) && forall|j: int| j < c ==> !#[trigger] blank_line_at(buf, j));
}

/// Where the headers end: the first place with an empty line.
pub fn find_header_end(buf: &[u8]) -> (r: Option<usize>)
    ensures
        r is Some <==> header_end(buf@) is Some,
        r matches Some(i) ==> header_end(buf@) == Some(i as int) && blank_line_at(buf@, i as int)
            && forall|j: int| j < i ==> !#[trigger] blank_line_at(buf@, j),
{
    let mut i: usize = 0;
    while i < buf.len() && buf.len() - i >= 4
        invariant
            i <= buf@.len(),
            forall|j: int| 0 <= j < i ==> !#[trigger] blank_line_at(buf@, j),
        decreases buf@.len() - i,
    {
        if buf[i] == 0x0d && buf[i + 1] == 0x0a && buf[i + 2] == 0x0d && buf[i + 3] == 0x0a {
            proof {
                assert(blank_line_at(buf@, i as int));
                lemma_header_end_is(buf@, i as int);
            }
            return Some(i);
        }
        assert(!blank_line_at(buf@, i as int));
        i += 1;
    }
    proof {
        reveal(header_end);
        assert forall|j: int| !#[trigger] blank_line_at(buf@, j) by {}
    }
    None
}

/// The lower-case form of an ASCII letter; any other byte stays as it is.
pub open spec fn lower(b: u8) -> u8 {
    if 0x41 <= b <= 0x5a {
        (b + 0x20) as u8
    } else {
        b
    }
}

/// Whether bytes spell a text, where the case of ASCII letters does not count.
pub open spec fn spells(bytes: Seq<u8>, name: Seq<char>) -> bool {
    &&& bytes.len() == name.len()
    &&& forall|i: int| 0 <= i < bytes.len() ==> lower(#[trigger] bytes[i]) == name[i] as u8
}

/// The place of the first line break, or the length where there is none.
pub open spec fn line_length(bytes: Seq<u8>) -> nat
    decreases bytes.len(),
{
    if bytes.len() == 0 || bytes[0] == 0x0a {
        0
    } else {
        1 + line_length(bytes.drop_first())
    }
}

/// A line without the carriage return at its end.
pub open spec fn without_return(line: Seq<u8>) -> Seq<u8> {
    if line.len() > 0 && line.last() == 0x0d {
        line.drop_last()
    } else {
        line
    }
}

/// The characters that Unicode counts as white space.
pub open spec fn is_white_space(c: char) -> bool {
    let u = c as u32;
    ||| 0x09 <= u <= 0x0d
    ||| u == 0x20
    ||| u == 0x85
    ||| u == 0xa0
    ||| u == 0x1680
    ||| 0x2000 <= u <= 0x200a
    ||| u == 0x2028
    ||| u == 0x2029
    ||| u == 0x202f
    ||| u == 0x205f
    ||| u == 0x3000
}

/// The text without white space at its front.
pub open spec fn trim_front(s: Seq<char>) -> Seq<char>
    decreases s.len(),
{
    if s.len() > 0 && is_white_space(s[0]) {
        trim_front(s.drop_first())
    } else {
        s
    }
}

/// The text without white space at its end.
pub open spec fn trim_back(s: Seq<char>) -> Seq<char>
    decreases s.len(),
{
    if s.len() > 0 && is_white_space(s.last()) {
        trim_back(s.drop_last())
    } else {
        s
    }
}

/// The text without a plus sign at its front.
pub open spec fn without_plus(s: Seq<char>) -> Seq<char> {
    if s.len() > 0 && s[0] == '+' {
        s.drop_first()
    } else {
        s
    }
}

/// Whether a text is a decimal numeral.
pub open spec fn is_numeral(s: Seq<char>) -> bool {
    s.len() > 0 && forall|i: int| 0 <= i < s.len() ==> text::is_digit_char(#[trigger] s[i])
}

/// The number that a text spells in decimal digits, with at most one plus sign
/// before them, where it fits in a `usize`.
pub open spec fn number_in(s: Seq<char>) -> Option<nat> {
    let digits = without_plus(s);
    if is_numeral(digits) && text::decimal_value(digits) <= usize::MAX {
        Some(text::decimal_value(digits))
    } else {
        None
    }
}

/// The number in a header value, with white space around it.
pub open spec fn value_in(bytes: Seq<u8>) -> Option<nat> {
    if valid_utf8(bytes) {
        number_in(trim_back(trim_front(decode_utf8(bytes))))
    } else {
        None
    }
}

/// The value of the first content-length header, where it is a number.
pub open spec fn content_length(headers: Seq<u8>) -> Option<nat>
    decreases headers.len(),
{
    let n = line_length(headers);
    let line = without_return(headers.subrange(0, n as int));
    if line.len() >= 15 && spells(line.subrange(0, 15), "content-length:"@) {
        value_in(line.subrange(15, line.len() as int))
    } else if n < headers.len() {
        content_length(headers.subrange(n as int + 1, headers.len() as int))
    } else {
        None
    }
}

/// Calls `core::str::from_utf8`: a text comes back exactly for valid UTF-8, and
/// it is the text that the bytes encode.
#[verifier::external_body]
fn utf8_text(bytes: &[u8]) -> (r: Option<&str>)
    ensures
        r is Some <==> valid_utf8(bytes@),
        r matches Some(s) ==> encode_utf8(s@) == bytes@,
{
    core::str::from_utf8(bytes).ok()
}

fn white_space(c: char) -> (r: bool)
    ensures
        r == is_white_space(c),
{
    let u: u32 = c as u32;
    (0x09 <= u && u <= 0x0d) || u == 0x20 || u == 0x85 || u == 0xa0 || u == 0x1680 || (0x2000 <= u
        && u <= 0x200a) || u == 0x2028 || u == 0x2029 || u == 0x202f || u == 0x205f || u == 0x3000
}

fn to_chars(s: &str) -> (r: Vec<char>)
    ensures
        r@ == s@,
{
    let mut out: Vec<char> = Vec::new();
    for c in iter: s.chars()
        invariant
            iter.seq() == s@,
            out@ == s@.subrange(0, iter.index() as int),
    {
        out.push(c);
        assert(s@.subrange(0, iter.index() + 1) =~= s@.subrange(0, iter.index() as int).push(c));
    }
    assert(s@.subrange(0, s@.len() as int) =~= s@);
    out
}

/// The number that a run of characters spells.
fn parse_number(s: &Vec<char>, from: usize, to: usize) -> (r: Option<usize>)
    requires
        from <= to <= s@.len(),
    ensures
        r is Some <==> number_in(s@.subrange(from as int, to as int)) is Some,
        r matches Some(n) ==> number_in(s@.subrange(from as int, to as int)) == Some(n as nat),
{
    let ghost whole = s@.subrange(from as int, to as int);
    let start: usize = if from < to && s[from] == '+' {
        from + 1
    } else {
        from
    };
    let ghost digits = without_plus(whole);
    assert(digits =~= s@.subrange(start as int, to as int));
    if start == to {
        return None;
    }
    let mut value: usize = 0;
    let mut i: usize = start;
    assert(digits.subrange(0, 0) =~= Seq::<char>::empty());
    while i < to
        invariant
            start <= i <= to <= s@.len(),
            digits == s@.subrange(start as int, to as int),
            digits == without_plus(whole),
            whole == s@.subrange(from as int, to as int),
            value == text::decimal_value(digits.subrange(0, i - start)),
            forall|j: int| 0 <= j < i - start ==> text::is_digit_char(#[trigger] digits[j]),
        decreases to - i,
    {
        let c: char = s[i];
        let u: u32 = c as u32;
        let ghost k = i - start;
        assert(digits[k] == c);
        if u < 0x30 || u > 0x39 {
            assert(!is_numeral(digits));
            return None;
        }
        let d: usize = (u - 0x30) as usize;
        proof {
            let next = digits.subrange(0, k + 1);
            assert(next.drop_last() =~= digits.subrange(0, k));
            assert(text::decimal_value(next) == 10 * value + d);
            lemma_prefix_value(digits, k + 1);
        }
        if value > usize::MAX / 10 || value * 10 > usize::MAX - d {
            return None;
        }
        value = value * 10 + d;
        i += 1;
    }
    assert(digits.subrange(0, i - start) =~= digits);
    Some(value)
}

/// Digits that follow make a number no smaller.
proof fn lemma_prefix_value(digits: Seq<char>, n: int)
    requires
        0 <= n <= digits.len(),
    ensures
        text::decimal_value(digits.subrange(0, n)) <= text::decimal_value(digits),
    decreases digits.len() - n,
{
    if n == digits.len() {
        assert(digits.subrange(0, n) =~= digits);
    } else {
        let next = digits.subrange(0, n + 1);
        assert(next.drop_last() =~= digits.subrange(0, n));
        lemma_prefix_value(digits, n + 1);
    }
}

/// The number in a header value, with white space around it.
fn parse_value(bytes: &[u8]) -> (r: Option<usize>)
    ensures
        r is Some <==> value_in(bytes@) is Some,
        r matches Some(n) ==> value_in(bytes@) == Some(n as nat),
{
    match utf8_text(bytes) {
        None => None,
        Some(s) => {
            proof {
                encode_utf8_decode_utf8(s@);
            }
            let chars: Vec<char> = to_chars(s);
            let mut from: usize = 0;
            assert(chars@.subrange(0, chars@.len() as int) =~= chars@);
            while from < chars.len() && white_space(chars[from])
                invariant
                    from <= chars@.len(),
                    trim_front(chars@) == trim_front(
                        chars@.subrange(from as int, chars@.len() as int),
                    ),
                decreases chars@.len() - from,
            {
                assert(chars@.subrange(from as int, chars@.len() as int).drop_first()
                    =~= chars@.subrange(from + 1, chars@.len() as int));
                from += 1;
            }
            let mut to: usize = chars.len();
            let ghost front = trim_front(chars@);
            assert(front == chars@.subrange(from as int, to as int));
            while to > from && white_space(chars[to - 1])
                invariant
                    from <= to <= chars@.len(),
                    trim_back(front) == trim_back(chars@.subrange(from as int, to as int)),
                decreases to - from,
            {
                assert(chars@.subrange(from as int, to as int).drop_last() =~= chars@.subrange(
                    from as int,
                    to - 1,
                ));
                to -= 1;
            }
            assert(trim_back(front) == chars@.subrange(from as int, to as int));
            parse_number(&chars, from, to)
        },
    }
}

fn names_content_length(line: &[u8]) -> (r: bool)
    requires
        line@.len() >= 15,
    ensures
        r == spells(line@.subrange(0, 15), "content-length:"@),
{
    let name: &[u8] = "content-length:".as_bytes();
    proof {
        reveal_strlit("content-length:");
        assert(is_ascii_chars("content-length:"@));
        is_ascii_chars_encode_utf8("content-length:"@);
    }
    let mut i: usize = 0;
    let ghost front = line@.subrange(0, 15);
    while i < 15
        invariant
            i <= 15,
            line@.len() >= 15,
            front == line@.subrange(0, 15),
            name@.len() == 15,
            "content-length:"@.len() == 15,
            forall|j: int| 0 <= j < 15 ==> #[trigger] name@[j] == "content-length:"@[j] as u8,
            forall|j: int|
                0 <= j < i ==> lower(#[trigger] front[j]) == "content-length:"@[j] as u8,
        decreases 15 - i,
    {
        let b: u8 = line[i];
        let l: u8 = if b >= 0x41 && b <= 0x5a {
            b + 0x20
        } else {
            b
        };
        assert(front[i as int] == b);
        assert(name@[i as int] == "content-length:"@[i as int] as u8);
        if l != name[i] {
            return false;
        }
        i += 1;
    }
    true
}

pub(crate) proof fn lemma_line_length(bytes: Seq<u8>, n: int)
    requires
        0 <= n <= bytes.len(),
        forall|i: int| 0 <= i < n ==> #[trigger] bytes[i] != 0x0a,
        n < bytes.len() ==> bytes[n] == 0x0a,
    ensures
        line_length(bytes) == n,
    decreases n,
{
    if n > 0 {
        assert(bytes[0] != 0x0a);
        let rest = bytes.drop_first();
        assert forall|i: int| 0 <= i < n - 1 implies #[trigger] rest[i] != 0x0a by {
            assert(rest[i] == bytes[i + 1]);
        }
        lemma_line_length(rest, n - 1);
    }
}

/// The value of the first content-length header, where it is a number.
pub fn parse_content_length(headers: &[u8]) -> (r: Option<usize>)
    ensures
        r is Some <==> content_length(headers@) is Some,
        r matches Some(n) ==> content_length(headers@) == Some(n as nat),
{
    let mut start: usize = 0;
    assert(headers@.subrange(0, headers@.len() as int) =~= headers@);
    loop
        invariant
            start <= headers@.len(),
            content_length(headers@) == content_length(
                headers@.subrange(start as int, headers@.len() as int),
            ),
        decreases headers@.len() - start,
    {
        let ghost rest = headers@.subrange(start as int, headers@.len() as int);
        let mut end: usize = start;
        while end < headers.len() && headers[end] != 0x0a
            invariant
                start <= end <= headers@.len(),
                forall|i: int| start <= i < end ==> #[trigger] headers@[i] != 0x0a,
            decreases headers@.len() - end,
        {
            end += 1;
        }
        proof {
            assert forall|i: int| 0 <= i < end - start implies #[trigger] rest[i] != 0x0a by {
                assert(rest[i] == headers@[start + i]);
            }
            lemma_line_length(rest, end - start);
            assert(rest.subrange(0, end - start) =~= headers@.subrange(start as int, end as int));
        }
        let stop: usize = if end > start && headers[end - 1] == 0x0d {
            end - 1
        } else {
            end
        };
        let line: &[u8] = &headers[start..stop];
        assert(line@ =~= without_return(rest.subrange(0, end - start)));
        if line.len() >= 15 && names_content_length(line) {
            let value: &[u8] = &line[15..line.len()];
            return parse_value(value);
        }
        if end == headers.len() {
            return None;
        }
        assert(rest.subrange(end - start + 1, rest.len() as int) =~= headers@.subrange(
            end + 1,
            headers@.len() as int,
        ));
        start = end + 1;
    }
}

/// Whether a request line asks for a path with a method; the path ends at a
/// space or at a query.
pub open spec fn asks_for(line: Seq<u8>, method: Seq<u8>, path: Seq<u8>) -> bool {
    let m = method.len() as int;
    let p = path.len() as int;
    &&& line.len() > m + 1 + p
    &&& line.subrange(0, m) == method
    &&& line[m] == 0x20
    &&& line.subrange(m + 1, m + 1 + p) == path
    &&& line[m + 1 + p] == 0x20 || line[m + 1 + p] == 0x3f
}

fn starts_with_at(bytes: &[u8], at: usize, part: &[u8]) -> (r: bool)
    requires
        at + part@.len() <= bytes@.len(),
    ensures
        r == (bytes@.subrange(at as int, at + part@.len()) == part@),
{
    let mut i: usize = 0;
    let ghost piece = bytes@.subrange(at as int, at + part@.len());
    while i < part.len()
        invariant
            i <= part@.len(),
            at + part@.len() <= bytes@.len(),
            piece == bytes@.subrange(at as int, at + part@.len()),
            forall|j: int| 0 <= j < i ==> #[trigger] piece[j] == part@[j],
        decreases part@.len() - i,
    {
        assert(piece[i as int] == bytes@[at + i]);
        assert(bytes.len() == bytes@.len());
        if bytes[at + i] != part[i] {
            assert(piece[i as int] != part@[i as int]);
            return false;
        }
        i += 1;
    }
    assert(piece =~= part@);
    true
}

/// Whether a request line asks for a path with a method.
pub fn method_path_matches(request_line: &[u8], method: &[u8], path: &[u8]) -> (r: bool)
    ensures
        r == asks_for(request_line@, method@, path@),
{
    let m: usize = method.len();
    let p: usize = path.len();
    if request_line.len() <= m || request_line.len() - m <= 1 || request_line.len() - m - 1 <= p {
        return false;
    }
    if !starts_with_at(request_line, 0, method) || request_line[m] != 0x20 {
        return false;
    }
    if !starts_with_at(request_line, m + 1, path) {
        return false;
    }
    request_line[m + 1 + p] == 0x20 || request_line[m + 1 + p] == 0x3f
}

/// What a request asks for.
#[derive(Clone, Copy, Debug, PartialEq, Eq, Structural)]
pub enum Route {
    /// Whether the server is ready.
    Ready,
    /// A score; the body of the request starts at `body_start`.
    FraudScore { body_start: usize },
    /// Anything else.
    NotFound,
}

/// Why a request cannot be routed.
#[derive(Clone, Copy, Debug, PartialEq, Eq, Structural)]
pub enum RouteError {
    /// No empty line ends the headers.
    MissingHeaderEnd,
    /// Nothing stands before the empty line.
    MissingRequestLine,
}

/// The length of the request line: up to the first carriage return, or to the
/// end of the headers where no header field follows.
pub open spec fn request_line_length(headers: Seq<u8>) -> nat
    decreases headers.len(),
{
    if headers.len() == 0 || headers[0] == 0x0d {
        0
    } else {
        1 + request_line_length(headers.drop_first())
    }
}

/// What a request asks for, by its first line.
pub open spec fn route(request: Seq<u8>) -> Result<Route, RouteError> {
    match header_end(request) {
        None => Err(RouteError::MissingHeaderEnd),
        Some(end) => {
            let headers = request.subrange(0, end);
            let n = request_line_length(headers);
            let line = headers.subrange(0, n as int);
            if headers.len() == 0 {
                Err(RouteError::MissingRequestLine)
            } else if asks_for(line, encode_utf8("GET"@), encode_utf8("/ready"@)) {
                Ok(Route::Ready)
            } else if asks_for(line, encode_utf8("POST"@), encode_utf8("/fraud-score"@)) {
                Ok(Route::FraudScore { body_start: (end + 4) as usize })
            } else {
                Ok(Route::NotFound)
            }
        },
    }
}

pub(crate) proof fn lemma_request_line_length(bytes: Seq<u8>, n: int)
    requires
        0 <= n <= bytes.len(),
        forall|i: int| 0 <= i < n ==> #[trigger] bytes[i] != 0x0d,
        n < bytes.len() ==> bytes[n] == 0x0d,
    ensures
        request_line_length(bytes) == n,
    decreases n,
{
    if n > 0 {
        assert(bytes[0] != 0x0d);
        let rest = bytes.drop_first();
        assert forall|i: int| 0 <= i < n - 1 implies #[trigger] rest[i] != 0x0d by {
            assert(rest[i] == bytes[i + 1]);
        }
        lemma_request_line_length(rest, n - 1);
    }
}

/// Finds out what a request asks for.
pub fn route_request(request: &[u8]) -> (r: Result<Route, RouteError>)
    ensures
        r == route(request@),
        r matches Ok(Route::FraudScore { body_start }) ==> body_start <= request@.len(),
{
    let end: usize = match find_header_end(request) {
        None => {
            return Err(RouteError::MissingHeaderEnd);
        },
        Some(end) => end,
    };
    assert(end + 4 <= request.len());
    let headers: &[u8] = &request[0..end];
    let mut n: usize = 0;
    while n < headers.len() && headers[n] != 0x0d
        invariant
            n <= headers@.len(),
            forall|i: int| 0 <= i < n ==> #[trigger] headers@[i] != 0x0d,
        decreases headers@.len() - n,
    {
        n += 1;
    }
    proof {
        lemma_request_line_length(headers@, n as int);
    }
    if headers.len() == 0 {
        return Err(RouteError::MissingRequestLine);
    }
    let line: &[u8] = &headers[0..n];
    if method_path_matches(line, "GET".as_bytes(), "/ready".as_bytes()) {
        return Ok(Route::Ready);
    }
    if method_path_matches(line, "POST".as_bytes(), "/fraud-score".as_bytes()) {
        return Ok(Route::FraudScore { body_start: end + 4 });
    }
    Ok(Route::NotFound)
}

/// The head of a reply.
pub open spec fn response_head(status: Seq<char>, content_type: Seq<char>, length: nat) -> Seq<
    char,
> {
    "HTTP/1.1 "@ + status + "\r\ncontent-type: "@ + content_type + "\r\ncontent-length: "@
        + text::decimal(length) + "\r\nconnection: close\r\n\r\n"@
}

/// A whole reply: its head and its body.
pub open spec fn response(status: Seq<char>, content_type: Seq<char>, body: Seq<u8>) -> Seq<u8> {
    encode_utf8(response_head(status, content_type, body.len())) + body
}

fn push_all(out: &mut Vec<u8>, bytes: &[u8])
    ensures
        final(out)@ == old(out)@ + bytes@,
{
    out.extend_from_slice(bytes);
    assert(out@ =~= old(out)@ + bytes@);
}

/// Assembles a reply.
pub fn http_response(status: &str, content_type: &str, body: &[u8]) -> (r: Vec<u8>)
    ensures
        r@ == response(status@, content_type@, body@),
{
    let mut head: String = String::new();
    head.append("HTTP/1.1 ");
    head.append(status);
    head.append("\r\ncontent-type: ");
    head.append(content_type);
    head.append("\r\ncontent-length: ");
    text::append_decimal(&mut head, body.len() as u64);
    head.append("\r\nconnection: close\r\n\r\n");
    assert(head@ =~= response_head(status@, content_type@, body@.len()));
    let mut out: Vec<u8> = Vec::new();
    push_all(&mut out, head.as_str().as_bytes());
    push_all(&mut out, body);
    assert(out@ =~= response(status@, content_type@, body@));
    out
}

/// The reply to a routed request; `answer` is the JSON answer to a score
/// request, or nothing where the request was bad.
pub open spec fn reply_bytes(route: Route, answer: Option<Seq<char>>) -> Seq<u8> {
    match route {
        Route::Ready => response("200 OK"@, "text/plain"@, encode_utf8("ready\n"@)),
        Route::FraudScore { .. } => match answer {
            Some(json) => response("200 OK"@, "application/json"@, encode_utf8(json)),
            None => response("400 Bad Request"@, "text/plain"@, encode_utf8("bad request\n"@)),
        },
        Route::NotFound => response(
            "404 Not Found"@,
            "text/plain"@,
            encode_utf8("not found\n"@),
        ),
    }
}

/// The reply to a routed request.
pub fn reply(route: Route, answer: Option<String>) -> (r: Vec<u8>)
    ensures
        r@ == reply_bytes(
            route,
            match answer {
                Some(json) => Some(json@),
                None => None,
            },
        ),
{
    match route {
        Route::Ready => http_response("200 OK", "text/plain", "ready\n".as_bytes()),
        Route::FraudScore { .. } => match answer {
            Some(json) => http_response("200 OK", "application/json", json.as_str().as_bytes()),
            None => http_response(
                "400 Bad Request",
                "text/plain",
                "bad request\n".as_bytes(),
            ),
        },
        Route::NotFound => http_response(
            "404 Not Found",
            "text/plain",
            "not found\n".as_bytes(),
        ),
    }
}

/// Why reading a request stops without one.
#[derive(Clone, Copy, Debug, PartialEq, Eq, Structural)]
pub enum ReadError {
    /// The connection was closed before the request was complete.
    Closed,
    /// The request is longer than is read.
    TooLarge,
    /// The announced length is beyond what can be addressed.
    LengthOverflow,
}

/// How far a request has been read.
pub enum Progress {
    /// More has to be read behind these bytes.
    Partial(Seq<u8>),
    /// These bytes are the request.
    Complete(Seq<u8>),
    Failed(ReadError),
}

/// The length of the request that starts `received`, once its headers are there.
pub open spec fn announced_length(received: Seq<u8>) -> Option<nat> {
    match header_end(received) {
        None => None,
        Some(end) => Some(
            (end + 4 + match content_length(received.subrange(0, end)) {
                Some(n) => n as int,
                None => 0,
            }) as nat,
        ),
    }
}

/// The progress when `chunk` was read behind `before`; an empty chunk is the end
/// of the connection.
pub open spec fn progress(before: Seq<u8>, chunk: Seq<u8>) -> Progress {
    let received = before + chunk;
    if chunk.len() == 0 {
        Progress::Failed(ReadError::Closed)
    } else if received.len() > MAX_REQUEST_BYTES {
        Progress::Failed(ReadError::TooLarge)
    } else {
        match announced_length(received) {
            None => Progress::Partial(received),
            Some(length) => if length > usize::MAX {
                Progress::Failed(ReadError::LengthOverflow)
            } else if received.len() >= length {
                Progress::Complete(received.subrange(0, length as int))
            } else {
                Progress::Partial(received)
            },
        }
    }
}

/// Takes up a chunk that was read; tells whether `request` is now complete.
pub fn receive(request: &mut Vec<u8>, chunk: &[u8]) -> (r: Result<bool, ReadError>)
    ensures
        match progress(old(request)@, chunk@) {
            Progress::Partial(bytes) => r == Ok::<bool, ReadError>(false) && final(request)@
                == bytes,
            Progress::Complete(bytes) => r == Ok::<bool, ReadError>(true) && final(request)@
                == bytes,
            Progress::Failed(error) => r == Err::<bool, ReadError>(error) && final(request)@
                == old(request)@ + chunk@,
        },
{
    if chunk.len() == 0 {
        assert(request@ + chunk@ =~= request@);
        return Err(ReadError::Closed);
    }
    push_all(request, chunk);
    if request.len() > MAX_REQUEST_BYTES {
        return Err(ReadError::TooLarge);
    }
    match find_header_end(request.as_slice()) {
        None => Ok(false),
        Some(end) => {
            let body: usize = match parse_content_length(&request.as_slice()[0..end]) {
                Some(n) => n,
                None => 0,
            };
            if body > usize::MAX - (end + 4) {
                return Err(ReadError::LengthOverflow);
            }
            let total: usize = end + 4 + body;
            if request.len() >= total {
                request.truncate(total);
                Ok(true)
            } else {
                Ok(false)
            }
        },
    }
}

/// Bytes that follow do not move the end of the headers.
pub proof fn law_header_end_stays(received: Seq<u8>, more: Seq<u8>)
    requires
        header_end(received) is Some,
    ensures
        header_end(received + more) == header_end(received),
{
    lemma_header_end_first(received);
    let end = header_end(received)->0;
    assert(blank_line_at(received + more, end));
    assert forall|j: int| 0 <= j < end implies !#[trigger] blank_line_at(received + more, j) by {
        assert(!blank_line_at(received, j));
    }
    lemma_header_end_is(received + more, end);
}

/// The end of the headers is an empty line, and none comes before it.
pub(crate) proof fn lemma_header_end_first(buf: Seq<u8>)
    requires
        header_end(buf) is Some,
    ensures
        blank_line_at(buf, header_end(buf)->0),
        forall|j: int| j < header_end(buf)->0 ==> !#[trigger] blank_line_at(buf, j),
{
    assert(exists|i: int| blank_line_at(buf, i)) by {
        reveal(header_end);
    }
    let i = choose|i: int| blank_line_at(buf, i);
    lemma_first_blank_line(buf, i);
}

/// Where an empty line exists there is a first one.
proof fn lemma_first_blank_line(buf: Seq<u8>, i: int)
    requires
        blank_line_at(buf, i),
    ensures
        header_end(buf) matches Some(end) && blank_line_at(buf, end) && forall|j: int|
            j < end ==> !#[trigger] blank_line_at(buf, j),
    decreases i,
{
    if exists|j: int| 0 <= j < i && blank_line_at(buf, j) {
        let j = choose|j: int| 0 <= j < i && blank_line_at(buf, j);
        lemma_first_blank_line(buf, j);
    } else {
        assert forall|j: int| 0 <= j < i implies !#[trigger] blank_line_at(buf, j) by {}
        lemma_header_end_is(buf, i);
    }
}

/// Reading on behind a partial request is reading both chunks at once.
pub proof fn law_chunks_join(before: Seq<u8>, first: Seq<u8>, second: Seq<u8>)
    requires
        progress(before, first) is Partial,
        second.len() > 0,
    ensures
        progress(before, first) == Progress::Partial(before + first),
        progress(before + first, second) == progress(before, first + second),
{
    assert(before + first + second =~= before + (first + second));
}

/// Bytes behind the end of reading do not change it.
pub proof fn law_trailing_bytes_are_cut(before: Seq<u8>, chunk: Seq<u8>, more: Seq<u8>)
    requires
        !(progress(before, chunk) is Partial),
        chunk.len() > 0,
        before.len() + chunk.len() + more.len() <= MAX_REQUEST_BYTES,
    ensures
        progress(before, chunk + more) == progress(before, chunk),
{
    let received = before + chunk;
    assert(before + (chunk + more) =~= received + more);
    law_header_end_stays(received, more);
    lemma_header_end_first(received);
    let end = header_end(received)->0;
    assert((received + more).subrange(0, end) =~= received.subrange(0, end));
    let length = announced_length(received)->0;
    if length <= received.len() {
        assert((received + more).subrange(0, length as int) =~= received.subrange(
            0,
            length as int,
        ));
    }
}

/// All chunks, one behind the other.
pub open spec fn stream(chunks: Seq<Seq<u8>>) -> Seq<u8>
    decreases chunks.len(),
{
    if chunks.len() == 0 {
        Seq::empty()
    } else {
        chunks[0] + stream(chunks.drop_first())
    }
}

/// What taking up chunk after chunk comes to, until the request is complete or
/// fails.
pub open spec fn read_chunks(before: Seq<u8>, chunks: Seq<Seq<u8>>) -> Progress
    decreases chunks.len(),
{
    if chunks.len() == 0 {
        Progress::Partial(before)
    } else {
        match progress(before, chunks[0]) {
            Progress::Partial(received) => read_chunks(received, chunks.drop_first()),
            done => done,
        }
    }
}

/// How the network cuts a request does not matter: chunk after chunk comes to
/// what all of them come to at once.
pub proof fn law_cuts_do_not_matter(before: Seq<u8>, chunks: Seq<Seq<u8>>)
    requires
        chunks.len() > 0,
        forall|i: int| 0 <= i < chunks.len() ==> (#[trigger] chunks[i]).len() > 0,
        before.len() + stream(chunks).len() <= MAX_REQUEST_BYTES,
    ensures
        read_chunks(before, chunks) == progress(before, stream(chunks)),
    decreases chunks.len(),
{
    let first = chunks[0];
    let rest = chunks.drop_first();
    assert(chunks[0].len() > 0);
    assert(stream(chunks) == first + stream(rest));
    assert forall|i: int| 0 <= i < rest.len() implies (#[trigger] rest[i]).len() > 0 by {
        assert(rest[i] == chunks[i + 1]);
    }
    if rest.len() == 0 {
        assert(stream(rest) =~= Seq::<u8>::empty());
        assert(first + stream(rest) =~= first);
        if progress(before, first) is Partial {
            assert(read_chunks(before + first, rest) == Progress::Partial(before + first));
        }
    } else if progress(before, first) is Partial {
        assert(rest[0].len() > 0);
        assert(stream(rest).len() > 0);
        law_chunks_join(before, first, stream(rest));
        law_cuts_do_not_matter(before + first, rest);
    } else {
        law_trailing_bytes_are_cut(before, first, stream(rest));
    }
}

/// A request for readiness is answered with a success, whatever header fields
/// follow its first line, or none.
pub proof fn law_ready_is_answered(request: Seq<u8>, answer: Option<Seq<char>>)
    requires
        header_end(request) is Some,
        ({
            let headers = request.subrange(0, header_end(request)->0);
            asks_for(
                headers.subrange(0, request_line_length(headers) as int),
                encode_utf8("GET"@),
                encode_utf8("/ready"@),
            )
        }),
    ensures
        route(request) == Ok::<Route, RouteError>(Route::Ready),
        reply_bytes(Route::Ready, answer) == response(
            "200 OK"@,
            "text/plain"@,
            encode_utf8("ready\n"@),
        ),
{
    lemma_header_end_first(request);
    let headers = request.subrange(0, header_end(request)->0);
    if headers.len() == 0 {
        assert(request_line_length(headers) == 0);
        assert(headers.subrange(0, 0).len() == 0);
    }
}

} // verus!
