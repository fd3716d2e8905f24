//! What the HTTP surface makes of the bytes on the wire.

use vstd::prelude::*;
use vstd::utf8::*;
use crate::http;
use crate::http::{Progress, ReadError, Route, RouteError, MAX_REQUEST_BYTES};
use crate::text;

verus! {

/// The headers end where the first empty line starts.
pub proof fn law_headers_end_at_an_empty_line(buf: Seq<u8>, end: int)
    requires
        0 <= end,
        end + 4 <= buf.len(),
        buf[end] == 13 && buf[end + 1] == 10 && buf[end + 2] == 13 && buf[end + 3] == 10,
        forall|j: int|
            #![trigger buf[j]]
            0 <= j < end ==> !(buf[j] == 13 && buf[j + 1] == 10 && buf[j + 2] == 13 && buf[j + 3]
                == 10),
    ensures
        http::header_end(buf) == Some(end),
{
    assert forall|j: int| 0 <= j < end implies !#[trigger] http::blank_line_at(buf, j) by {
        let b = buf[j];
    }
    http::lemma_header_end_is(buf, end);
}

/// Without an empty line the headers have no end.
pub proof fn law_headers_go_on(buf: Seq<u8>)
    requires
        forall|j: int|
            #![trigger buf[j]]
            0 <= j && j + 4 <= buf.len() ==> !(buf[j] == 13 && buf[j + 1] == 10 && buf[j + 2] == 13
                && buf[j + 3] == 10),
    ensures
        http::header_end(buf) == None::<int>,
{
    reveal(http::header_end);
    assert forall|j: int| !#[trigger] http::blank_line_at(buf, j) by {
        let b = buf[j];
    }
}

/// A request is complete with its headers, the empty line and as many bytes as the
/// headers announce, and with nothing less; what was received beyond is no part
/// of it.
pub proof fn law_request_is_whole(before: Seq<u8>, chunk: Seq<u8>, end: int, length: int)
    requires
        chunk.len() > 0,
        (before + chunk).len() <= MAX_REQUEST_BYTES,
        http::header_end(before + chunk) == Some(end),
        match http::content_length((before + chunk).subrange(0, end)) {
            Some(n) => length == n,
            None => length == 0,
        },
    ensures
        end + 4 + length <= usize::MAX ==> match http::progress(before, chunk) {
            Progress::Complete(request) => (before + chunk).len() >= end + 4 + length && request.len()
                == end + 4 + length && request == (before + chunk).subrange(0, end + 4 + length),
            Progress::Partial(received) => (before + chunk).len() < end + 4 + length && received
                == before + chunk,
            Progress::Failed(_) => false,
        },
        end + 4 + length > usize::MAX ==> http::progress(before, chunk) == Progress::Failed(
            ReadError::LengthOverflow,
        ),
{
    http::lemma_header_end_first(before + chunk);
}

/// While the headers have no end, reading goes on; it stops at the end of the
/// connection and beyond the longest request.
pub proof fn law_reading_goes_on_or_stops(before: Seq<u8>, chunk: Seq<u8>)
    ensures
        chunk.len() == 0 ==> http::progress(before, chunk) == Progress::Failed(ReadError::Closed),
        chunk.len() > 0 && before.len() + chunk.len() > 131_072 ==> http::progress(before, chunk)
            == Progress::Failed(ReadError::TooLarge),
        chunk.len() > 0 && before.len() + chunk.len() <= 131_072 && http::header_end(before + chunk)
            is None ==> http::progress(before, chunk) == Progress::Partial(before + chunk),
{
}

/// The bytes of `content-length:`.
pub open spec fn length_name() -> Seq<u8> {
    seq![
        0x63u8, 0x6f, 0x6e, 0x74, 0x65, 0x6e, 0x74, 0x2d, 0x6c, 0x65, 0x6e, 0x67, 0x74, 0x68, 0x3a,
    ]
}

/// Whether a line starts with the name, in letters of either case.
pub open spec fn names_the_length(line: Seq<u8>) -> bool {
    &&& line.len() >= 15
    &&& forall|i: int|
        0 <= i < 15 ==> #[trigger] line[i] == length_name()[i] || (0x61 <= length_name()[i] <= 0x7a
            && line[i] == length_name()[i] - 0x20)
}

proof fn lemma_name(line: Seq<u8>)
    ensures
        line.len() >= 15 && http::spells(line.subrange(0, 15), "content-length:"@)
            <==> names_the_length(line),
{
    reveal_strlit("content-length:");
    let name = "content-length:"@;
    assert(name.len() == 15);
    assert(forall|i: int| 0 <= i < 15 ==> #[trigger] (name[i] as u8) == length_name()[i]);
    if line.len() >= 15 {
        let part = line.subrange(0, 15);
        assert(forall|i: int| 0 <= i < 15 ==> #[trigger] part[i] == line[i]);
        if http::spells(part, name) {
            assert forall|i: int| 0 <= i < 15 implies #[trigger] line[i] == length_name()[i] || (0x61
                <= length_name()[i] <= 0x7a && line[i] == length_name()[i] - 0x20) by {
                assert(http::lower(part[i]) == name[i] as u8);
            }
        }
        if names_the_length(line) {
            assert forall|i: int| 0 <= i < part.len() implies http::lower(#[trigger] part[i])
                == name[i] as u8 by {
                assert(part[i] == line[i]);
                assert(line[i] == length_name()[i] || (0x61 <= length_name()[i] <= 0x7a && line[i]
                    == length_name()[i] - 0x20));
                assert(name[i] as u8 == length_name()[i]);
            }
        }
    }
}

/// A line without the carriage return that may end it.
pub open spec fn bare(line: Seq<u8>) -> Seq<u8> {
    if line.len() > 0 && line[line.len() - 1] == 13 {
        line.subrange(0, line.len() - 1)
    } else {
        line
    }
}

/// Header lines are read from the first on: one that names the length gives its
/// value, and any other is passed over.
pub proof fn law_lines_are_read_in_turn(line: Seq<u8>, rest: Seq<u8>)
    requires
        forall|i: int| 0 <= i < line.len() ==> #[trigger] line[i] != 10,
    ensures
        names_the_length(bare(line)) ==> http::content_length(line + seq![10u8] + rest)
            == http::value_in(bare(line).subrange(15, bare(line).len() as int)),
        !names_the_length(bare(line)) ==> http::content_length(line + seq![10u8] + rest)
            == http::content_length(rest),
        names_the_length(bare(line)) ==> http::content_length(line) == http::value_in(
            bare(line).subrange(15, bare(line).len() as int),
        ),
        !names_the_length(bare(line)) ==> http::content_length(line) == None::<nat>,
{
    let all = line + seq![10u8] + rest;
    let n = line.len() as int;
    assert forall|i: int| 0 <= i < n implies #[trigger] all[i] != 10 by {
        assert(all[i] == line[i]);
    }
    assert(all[n] == 10);
    http::lemma_line_length(all, n);
    http::lemma_line_length(line, n);
    assert(all.subrange(0, n) =~= line);
    assert(line.subrange(0, n) =~= line);
    assert(all.subrange(n + 1, all.len() as int) =~= rest);
    assert(http::without_return(line) =~= bare(line));
    lemma_name(bare(line));
}

/// Whether a text is nothing but spaces and tabs.
pub open spec fn blank(s: Seq<char>) -> bool {
    forall|i: int| 0 <= i < s.len() ==> #[trigger] s[i] == ' ' || s[i] == '\t'
}

proof fn lemma_trim_front(front: Seq<char>, s: Seq<char>)
    requires
        blank(front),
        s.len() > 0,
        !http::is_white_space(s[0]),
    ensures
        http::trim_front(front + s) == s,
    decreases front.len(),
{
    let all = front + s;
    if front.len() == 0 {
        assert(all =~= s);
    } else {
        assert(all[0] == front[0]);
        assert(all.drop_first() =~= front.drop_first() + s);
        assert forall|i: int| 0 <= i < front.drop_first().len() implies (#[trigger] front.drop_first()[i]
            == ' ' || front.drop_first()[i] == '\t') by {
            assert(front.drop_first()[i] == front[i + 1]);
        }
        lemma_trim_front(front.drop_first(), s);
    }
}

proof fn lemma_trim_back(s: Seq<char>, back: Seq<char>)
    requires
        blank(back),
        s.len() > 0,
        !http::is_white_space(s.last()),
    ensures
        http::trim_back(s + back) == s,
    decreases back.len(),
{
    let all = s + back;
    if back.len() == 0 {
        assert(all =~= s);
    } else {
        assert(all.last() == back[back.len() - 1]);
        assert(all.drop_last() =~= s + back.drop_last());
        assert forall|i: int| 0 <= i < back.drop_last().len() implies (#[trigger] back.drop_last()[i]
            == ' ' || back.drop_last()[i] == '\t') by {
            assert(back.drop_last()[i] == back[i]);
        }
        lemma_trim_back(s, back.drop_last());
    }
}

/// A numeral with blanks around it is read as its number, where that fits.
pub proof fn law_numbers_are_read(front: Seq<char>, n: nat, back: Seq<char>)
    requires
        blank(front),
        blank(back),
    ensures
        n <= usize::MAX ==> http::value_in(encode_utf8(front + text::decimal(n) + back)) == Some(n),
        n > usize::MAX ==> http::value_in(encode_utf8(front + text::decimal(n) + back))
            == None::<nat>,
{
    let digits = text::decimal(n);
    text::law_decimal_value(n);
    let all = front + digits + back;
    encode_utf8_valid_utf8(all);
    encode_utf8_decode_utf8(all);
    assert(text::is_digit_char(digits[0]));
    assert(text::is_digit_char(digits[digits.len() - 1]));
    assert(all =~= front + (digits + back));
    assert((digits + back)[0] == digits[0]);
    lemma_trim_front(front, digits + back);
    lemma_trim_back(digits, back);
    assert(http::without_plus(digits) == digits);
}

/// A value with anything but one numeral in it is no number.
pub proof fn law_other_values_are_no_numbers(s: Seq<char>, i: int)
    requires
        0 < i < s.len(),
        !http::is_white_space(s[0]),
        !http::is_white_space(s.last()),
        !(0x30 <= s[i] as u32 <= 0x39),
    ensures
        http::value_in(encode_utf8(s)) == None::<nat>,
{
    encode_utf8_valid_utf8(s);
    encode_utf8_decode_utf8(s);
    assert(http::trim_front(s) == s);
    assert(http::trim_back(s) == s);
    let digits = http::without_plus(s);
    let at = if s[0] == '+' {
        i - 1
    } else {
        i
    };
    assert(digits[at] == s[i]);
    assert(!text::is_digit_char(digits[at]));
}

/// A request line asks for a path exactly where it is the method, a space and the
/// path, with a space or a question mark behind it.
pub proof fn law_request_lines_match(line: Seq<u8>, method: Seq<u8>, path: Seq<u8>, tail: Seq<u8>)
    ensures
        line == method + seq![0x20u8] + path + seq![0x20u8] + tail ==> http::asks_for(
            line,
            method,
            path,
        ),
        line == method + seq![0x20u8] + path + seq![0x3fu8] + tail ==> http::asks_for(
            line,
            method,
            path,
        ),
        http::asks_for(line, method, path) ==> ({
            let k = method.len() + 1 + path.len();
            &&& line.len() > k
            &&& line[k as int] == 0x20 || line[k as int] == 0x3f
            &&& line.subrange(0, k as int) == method + seq![0x20u8] + path
        }),
{
    let m = method.len() as int;
    let p = path.len() as int;
    let head = method + seq![0x20u8] + path;
    assert(forall|mark: u8|
        (#[trigger] (head + seq![mark] + tail)).subrange(0, m) =~= method && (head + seq![mark]
            + tail)[m] == 0x20 && (head + seq![mark] + tail).subrange(m + 1, m + 1 + p) =~= path
            && (head + seq![mark] + tail)[m + 1 + p] == mark);
    if http::asks_for(line, method, path) {
        let start = line.subrange(0, m + 1 + p);
        assert(forall|i: int| 0 <= i < m ==> #[trigger] start[i] == line.subrange(0, m)[i]);
        assert(forall|i: int|
            0 <= i < p ==> #[trigger] start[m + 1 + i] == line.subrange(m + 1, m + 1 + p)[i]);
        assert forall|i: int| 0 <= i < start.len() implies start[i] == head[i] by {
            if i > m {
                assert(start[i] == line.subrange(m + 1, m + 1 + p)[i - m - 1]);
            }
        }
        assert(start =~= head);
    }
}

/// A request is routed by its first line alone, which goes up to the first
/// carriage return or to the end of the headers; a body starts behind the empty
/// line.
pub proof fn law_requests_are_routed(request: Seq<u8>, end: int, n: int)
    requires
        http::header_end(request) == Some(end),
        request.len() <= usize::MAX,
        0 <= n <= end,
        forall|i: int| 0 <= i < n ==> #[trigger] request[i] != 13,
        n < end ==> request[n] == 13,
    ensures
        ({
            let line = request.subrange(0, n);
            let ready = http::asks_for(line, encode_utf8("GET"@), encode_utf8("/ready"@));
            let score = http::asks_for(line, encode_utf8("POST"@), encode_utf8("/fraud-score"@));
            &&& ready ==> http::route(request) == Ok::<Route, RouteError>(Route::Ready)
            &&& !ready && score ==> (http::route(request) matches Ok(Route::FraudScore {
                body_start,
            }) && body_start == end + 4)
            &&& !ready && !score && end > 0 ==> http::route(request) == Ok::<Route, RouteError>(
                Route::NotFound,
            )
            &&& end == 0 ==> http::route(request) == Err::<Route, RouteError>(
                RouteError::MissingRequestLine,
            )
        }),
{
    http::lemma_header_end_first(request);
    let headers = request.subrange(0, end);
    assert forall|i: int| 0 <= i < n implies #[trigger] headers[i] != 13 by {
        assert(headers[i] == request[i]);
    }
    http::lemma_request_line_length(headers, n);
    assert(headers.subrange(0, n) =~= request.subrange(0, n));
}

/// Characters that stand in one line.
pub open spec fn in_one_line(s: Seq<char>) -> bool {
    is_ascii_chars(s) && forall|i: int| 0 <= i < s.len() ==> #[trigger] s[i] != '\r' && s[i] != '\n'
}

/// The lines of a reply's head.
spec fn head_lines(status: Seq<char>, kind: Seq<char>, length: Seq<char>) -> Seq<char> {
    "HTTP/1.1 "@ + status + "\r\n"@ + ("content-type: "@ + kind + "\r\n"@) + ("content-length: "@
        + length + "\r\n"@) + "connection: close"@
}

proof fn lemma_digit_in_line(c: char)
    requires
        text::is_digit_char(c),
    ensures
        '\0' <= c <= '\u{7f}',
        c != '\r',
        c != '\n',
{
}

proof fn lemma_head_is_lines(status: Seq<char>, kind: Seq<char>, n: nat)
    requires
        in_one_line(status),
        in_one_line(kind),
    ensures
        http::response_head(status, kind, n) == head_lines(status, kind, text::decimal(n))
            + "\r\n\r\n"@,
        is_ascii_chars(http::response_head(status, kind, n)),
        in_one_line(text::decimal(n)),
{
    reveal_strlit("HTTP/1.1 ");
    reveal_strlit("\r\ncontent-type: ");
    reveal_strlit("\r\ncontent-length: ");
    reveal_strlit("\r\nconnection: close\r\n\r\n");
    reveal_strlit("\r\n");
    reveal_strlit("\r\n\r\n");
    reveal_strlit("content-type: ");
    reveal_strlit("content-length: ");
    reveal_strlit("connection: close");
    text::law_decimal_value(n);
    let digits = text::decimal(n);
    assert forall|i: int| 0 <= i < digits.len() implies '\0' <= #[trigger] digits[i] <= '\u{7f}'
        && digits[i] != '\r' && digits[i] != '\n' by {
        assert(text::is_digit_char(digits[i]));
        lemma_digit_in_line(digits[i]);
    }
    assert(http::response_head(status, kind, n) =~= head_lines(status, kind, digits)
        + "\r\n\r\n"@);
}

proof fn lemma_encode_joined(a: Seq<char>, b: Seq<char>)
    requires
        is_ascii_chars(a),
        is_ascii_chars(b),
    ensures
        is_ascii_chars(a + b),
        encode_utf8(a + b) == encode_utf8(a) + encode_utf8(b),
{
    let all = a + b;
    assert forall|i: int| 0 <= i < all.len() implies '\0' <= #[trigger] all[i] <= '\u{7f}' by {
        if i < a.len() {
            assert(all[i] == a[i]);
        } else {
            assert(all[i] == b[i - a.len()]);
        }
    }
    is_ascii_chars_encode_utf8(a);
    is_ascii_chars_encode_utf8(b);
    is_ascii_chars_encode_utf8(all);
    assert forall|i: int| 0 <= i < all.len() implies encode_utf8(all)[i] == (encode_utf8(a)
        + encode_utf8(b))[i] by {
        if i < a.len() {
            assert(all[i] == a[i]);
        } else {
            assert(all[i] == b[i - a.len()]);
        }
    }
    assert(encode_utf8(all) =~= encode_utf8(a) + encode_utf8(b));
}

/// Carriage returns in a head stand before a header name, but for the last two.
proof fn lemma_returns_in_head(status: Seq<char>, kind: Seq<char>, digits: Seq<char>, j: int)
    requires
        in_one_line(status),
        in_one_line(kind),
        in_one_line(digits),
        0 <= j < head_lines(status, kind, digits).len(),
        head_lines(status, kind, digits)[j] == '\r',
    ensures
        j + 2 < head_lines(status, kind, digits).len(),
        head_lines(status, kind, digits)[j + 2] == 'c',
{
    reveal_strlit("HTTP/1.1 ");
    reveal_strlit("\r\n");
    reveal_strlit("content-type: ");
    reveal_strlit("content-length: ");
    reveal_strlit("connection: close");
    let h = head_lines(status, kind, digits);
    let a = 9 + status.len();
    let b = a + 2 + 14 + kind.len();
    let c = b + 2 + 16 + digits.len();
    assert(h.len() == c + 2 + 17);
    if j < 9 {
        assert(h[j] == "HTTP/1.1 "@[j]);
    } else if j < a {
        assert(h[j] == status[j - 9]);
    } else if j == a {
    } else if j == a + 1 {
        assert(h[j] == '\n');
    } else if j < a + 16 {
        assert(h[j] == "content-type: "@[j - a - 2]);
    } else if j < b {
        assert(h[j] == kind[j - a - 16]);
    } else if j == b {
    } else if j == b + 1 {
        assert(h[j] == '\n');
    } else if j < b + 18 {
        assert(h[j] == "content-length: "@[j - b - 2]);
    } else if j < c {
        assert(h[j] == digits[j - b - 18]);
    } else if j == c {
    } else if j == c + 1 {
        assert(h[j] == '\n');
    } else {
        assert(h[j] == "connection: close"@[j - c - 2]);
    }
}

/// Whether an encoded line is an ASCII line without a line break.
proof fn lemma_line_of(start: Seq<char>, content: Seq<char>) -> (line: Seq<char>)
    requires
        in_one_line(start),
        in_one_line(content),
    ensures
        line == start + content + "\r"@,
        is_ascii_chars(line),
        encode_utf8(line).len() == start.len() + content.len() + 1,
        bare(encode_utf8(line)) == encode_utf8(start + content),
        is_ascii_chars(start + content),
        forall|i: int| 0 <= i < encode_utf8(line).len() ==> #[trigger] encode_utf8(line)[i] != 10,
{
    reveal_strlit("\r");
    let line = start + content + "\r"@;
    lemma_encode_joined(start, content);
    lemma_encode_joined(start + content, "\r"@);
    is_ascii_chars_encode_utf8(start + content);
    is_ascii_chars_encode_utf8("\r"@);
    is_ascii_chars_encode_utf8(line);
    assert forall|i: int| 0 <= i < line.len() implies #[trigger] line[i] != '\n' by {
        if i < start.len() {
            assert(line[i] == start[i]);
        } else if i < start.len() + content.len() {
            assert(line[i] == content[i - start.len()]);
        }
    }
    lemma_plain_line(line);
    let b = encode_utf8(line);
    assert(b[b.len() - 1] == line[line.len() - 1] as u8);
    assert(b.subrange(0, b.len() - 1) =~= encode_utf8(start + content));
    line
}

/// The line of the status and that of the content type do not name the length.
proof fn lemma_other_lines(status: Seq<char>, kind: Seq<char>)
    requires
        in_one_line(status),
        in_one_line(kind),
    ensures
        in_one_line("HTTP/1.1 "@),
        in_one_line("content-type: "@),
        in_one_line("content-length: "@),
        in_one_line("connection: close"@),
        !names_the_length(encode_utf8("HTTP/1.1 "@ + status)),
        !names_the_length(encode_utf8("content-type: "@ + kind)),
{
    reveal_strlit("HTTP/1.1 ");
    reveal_strlit("content-type: ");
    reveal_strlit("content-length: ");
    reveal_strlit("connection: close");
    let first = "HTTP/1.1 "@ + status;
    let second = "content-type: "@ + kind;
    lemma_encode_joined("HTTP/1.1 "@, status);
    lemma_encode_joined("content-type: "@, kind);
    is_ascii_chars_encode_utf8(first);
    is_ascii_chars_encode_utf8(second);
    assert(encode_utf8(first)[0] == first[0] as u8);
    assert(encode_utf8(second)[8] == second[8] as u8);
    assert(first[0] == 'H' && second[8] == 't');
    assert(length_name()[0] == 0x63 && length_name()[8] == 0x6c);
}

/// The line of the length names it and holds its value.
proof fn lemma_length_line(digits: Seq<char>, n: nat)
    requires
        digits == text::decimal(n),
        in_one_line(digits),
        n <= usize::MAX,
    ensures
        ({
            let line = encode_utf8("content-length: "@ + digits);
            names_the_length(line) && http::value_in(line.subrange(15, line.len() as int)) == Some(
                n,
            )
        }),
{
    reveal_strlit("content-length: ");
    reveal_strlit(" ");
    let all = "content-length: "@ + digits;
    let line = encode_utf8(all);
    let value = " "@ + digits + Seq::<char>::empty();
    lemma_encode_joined("content-length: "@, digits);
    is_ascii_chars_encode_utf8(all);
    lemma_encode_joined(" "@, digits);
    assert(value =~= " "@ + digits);
    is_ascii_chars_encode_utf8(value);
    assert forall|i: int| 0 <= i < 15 implies #[trigger] line[i] == length_name()[i] by {
        assert(line[i] == all[i] as u8);
        assert(all[i] == "content-length: "@[i]);
    }
    let part = line.subrange(15, line.len() as int);
    assert forall|i: int| 0 <= i < value.len() implies part[i] == encode_utf8(value)[i] by {
        assert(line[15 + i] == all[15 + i] as u8);
        assert(all[15 + i] == value[i]);
        assert(encode_utf8(value)[i] == value[i] as u8);
    }
    assert(part =~= encode_utf8(value));
    law_numbers_are_read(" "@, n, Seq::<char>::empty());
}

/// A head in bytes, line by line.
proof fn lemma_encoded_lines(a: Seq<char>, b: Seq<char>, c: Seq<char>, d: Seq<char>)
    requires
        is_ascii_chars(a),
        is_ascii_chars(b),
        is_ascii_chars(c),
        is_ascii_chars(d),
    ensures
        ({
            let nl = seq![10u8];
            encode_utf8(a + "\n"@ + (b + "\n"@ + (c + "\n"@ + d))) == encode_utf8(a) + nl + (
            encode_utf8(b) + nl + (encode_utf8(c) + nl + encode_utf8(d)))
        }),
{
    reveal_strlit("\n");
    let nl = "\n"@;
    is_ascii_chars_encode_utf8(nl);
    assert(encode_utf8(nl) =~= seq![10u8]);
    lemma_encode_joined(c, nl);
    lemma_encode_joined(c + nl, d);
    lemma_encode_joined(b, nl);
    lemma_encode_joined(b + nl, c + nl + d);
    lemma_encode_joined(a, nl);
    lemma_encode_joined(a + nl, b + nl + (c + nl + d));
}

/// The lines of a head announce the length that stands in them.
proof fn lemma_lines_announce(status: Seq<char>, kind: Seq<char>, n: nat)
    requires
        in_one_line(status),
        in_one_line(kind),
        n <= usize::MAX,
    ensures
        http::content_length(encode_utf8(head_lines(status, kind, text::decimal(n)))) == Some(n),
{
    let digits = text::decimal(n);
    lemma_head_is_lines(status, kind, n);
    lemma_other_lines(status, kind);
    lemma_length_line(digits, n);
    let first = lemma_line_of("HTTP/1.1 "@, status);
    let second = lemma_line_of("content-type: "@, kind);
    let third = lemma_line_of("content-length: "@, digits);
    let fourth = "connection: close"@;
    let h = head_lines(status, kind, digits);
    assert(h =~= first + "\n"@ + (second + "\n"@ + (third + "\n"@ + fourth))) by {
        reveal_strlit("\r\n");
        reveal_strlit("\r");
        reveal_strlit("\n");
        assert("\r\n"@ =~= "\r"@ + "\n"@);
    }
    lemma_encoded_lines(first, second, third, fourth);
    let nl = seq![10u8];
    let r3 = encode_utf8(fourth);
    let r2 = encode_utf8(third) + nl + r3;
    let r1 = encode_utf8(second) + nl + r2;
    law_lines_are_read_in_turn(encode_utf8(first), r1);
    law_lines_are_read_in_turn(encode_utf8(second), r2);
    law_lines_are_read_in_turn(encode_utf8(third), r3);
}

/// A line whose characters hold no line break but its return has none in bytes.
proof fn lemma_plain_line(line: Seq<char>)
    requires
        is_ascii_chars(line),
        forall|i: int| 0 <= i < line.len() ==> #[trigger] line[i] != '\n',
    ensures
        forall|i: int| 0 <= i < encode_utf8(line).len() ==> #[trigger] encode_utf8(line)[i] != 10,
{
    is_ascii_chars_encode_utf8(line);
    assert forall|i: int| 0 <= i < encode_utf8(line).len() implies #[trigger] encode_utf8(line)[i]
        != 10 by {
        lemma_not_newline(line[i]);
    }
}

proof fn lemma_not_newline(c: char)
    requires
        '\0' <= c <= '\u{7f}',
    ensures
        c != '\n' ==> c as u8 != 10,
        c != '\r' ==> c as u8 != 13,
{
}

/// A reply frames itself as requests are framed: its headers end right before its
/// body, and announce exactly the body's length.
pub proof fn law_replies_announce_their_body(status: Seq<char>, kind: Seq<char>, body: Seq<u8>)
    requires
        in_one_line(status),
        in_one_line(kind),
        body.len() <= usize::MAX,
    ensures
        ({
            let reply = http::response(status, kind, body);
            let end = reply.len() - body.len() - 4;
            &&& http::header_end(reply) == Some(end)
            &&& http::content_length(reply.subrange(0, end)) == Some(body.len())
            &&& reply.subrange(end + 4, reply.len() as int) == body
        }),
{
    reveal_strlit("\r\n\r\n");
    let n = body.len();
    let digits = text::decimal(n);
    let h = head_lines(status, kind, digits);
    let close = "\r\n\r\n"@;
    let reply = http::response(status, kind, body);
    lemma_head_is_lines(status, kind, n);
    let head = http::response_head(status, kind, n);
    assert(is_ascii_chars(h)) by {
        assert(forall|i: int| 0 <= i < h.len() ==> #[trigger] h[i] == head[i]);
    }
    lemma_encode_joined(h, close);
    is_ascii_chars_encode_utf8(h);
    is_ascii_chars_encode_utf8(close);
    is_ascii_chars_encode_utf8(head);
    let end = h.len() as int;
    assert(reply =~= encode_utf8(h) + encode_utf8(close) + body);
    assert(reply.len() - body.len() - 4 == end);
    assert forall|i: int| 0 <= i < 4 implies reply[end + i] == close[i] as u8 by {
        assert(encode_utf8(close)[i] == close[i] as u8);
    }
    assert(reply[end] == 13 && reply[end + 1] == 10 && reply[end + 2] == 13 && reply[end + 3]
        == 10) by {
        assert(reply[end + 0] == close[0] as u8);
        assert(reply[end + 1] == close[1] as u8);
        assert(reply[end + 2] == close[2] as u8);
        assert(reply[end + 3] == close[3] as u8);
    }
    assert forall|j: int|
        #![trigger reply[j]]
        0 <= j < end implies !(reply[j] == 13 && reply[j + 1] == 10 && reply[j + 2] == 13 && reply[j
        + 3] == 10) by {
        assert(reply[j] == h[j] as u8);
        lemma_not_newline(h[j]);
        if h[j] == '\r' {
            lemma_returns_in_head(status, kind, digits, j);
            assert(reply[j + 2] == h[j + 2] as u8);
        }
    }
    law_headers_end_at_an_empty_line(reply, end);
    assert(reply.subrange(0, end) =~= encode_utf8(h));
    lemma_lines_announce(status, kind, n);
    assert(reply.subrange(end + 4, reply.len() as int) =~= body);
}

/// Whether bytes start with a text.
pub open spec fn starts_with(bytes: Seq<u8>, start: Seq<char>) -> bool {
    &&& bytes.len() >= start.len()
    &&& forall|i: int| 0 <= i < start.len() ==> #[trigger] bytes[i] == start[i] as u8
}

proof fn lemma_reply_starts(
    status: Seq<char>,
    kind: Seq<char>,
    body: Seq<u8>,
    start: Seq<char>,
)
    requires
        in_one_line(status),
        in_one_line(kind),
        start =~= "HTTP/1.1 "@ + status + "\r\ncontent-type: "@ + kind + "\r\n"@,
    ensures
        starts_with(http::response(status, kind, body), start),
{
    reveal_strlit("\r\n");
    reveal_strlit("\r\ncontent-length: ");
    lemma_head_is_lines(status, kind, body.len());
    let head = http::response_head(status, kind, body.len());
    let reply = http::response(status, kind, body);
    is_ascii_chars_encode_utf8(head);
    assert forall|i: int| 0 <= i < start.len() implies #[trigger] reply[i] == start[i] as u8 by {
        assert(start[i] == head[i]);
    }
}

/// The status, the kind and the body of the reply to each kind of request.
pub proof fn law_replies_by_route(body_start: usize, answer: Option<Seq<char>>, json: Seq<char>)
    ensures
        ({
            let ready = http::reply_bytes(Route::Ready, answer);
            let scored = http::reply_bytes(Route::FraudScore { body_start }, Some(json));
            let bad = http::reply_bytes(Route::FraudScore { body_start }, None);
            let unknown = http::reply_bytes(Route::NotFound, answer);
            &&& starts_with(ready, "HTTP/1.1 200 OK\r\ncontent-type: text/plain\r\n"@)
            &&& starts_with(scored, "HTTP/1.1 200 OK\r\ncontent-type: application/json\r\n"@)
            &&& starts_with(bad, "HTTP/1.1 400 Bad Request\r\ncontent-type: text/plain\r\n"@)
            &&& starts_with(unknown, "HTTP/1.1 404 Not Found\r\ncontent-type: text/plain\r\n"@)
            &&& scored.len() >= encode_utf8(json).len() && scored.subrange(
                scored.len() - encode_utf8(json).len(),
                scored.len() as int,
            ) == encode_utf8(json)
        }),
{
    reveal_strlit("HTTP/1.1 ");
    reveal_strlit("\r\ncontent-type: ");
    reveal_strlit("\r\n");
    reveal_strlit("200 OK");
    reveal_strlit("400 Bad Request");
    reveal_strlit("404 Not Found");
    reveal_strlit("text/plain");
    reveal_strlit("application/json");
    reveal_strlit("HTTP/1.1 200 OK\r\ncontent-type: text/plain\r\n");
    reveal_strlit("HTTP/1.1 200 OK\r\ncontent-type: application/json\r\n");
    reveal_strlit("HTTP/1.1 400 Bad Request\r\ncontent-type: text/plain\r\n");
    reveal_strlit("HTTP/1.1 404 Not Found\r\ncontent-type: text/plain\r\n");
    lemma_reply_starts(
        "200 OK"@,
        "text/plain"@,
        encode_utf8("ready\n"@),
        "HTTP/1.1 200 OK\r\ncontent-type: text/plain\r\n"@,
    );
    lemma_reply_starts(
        "200 OK"@,
        "application/json"@,
        encode_utf8(json),
        "HTTP/1.1 200 OK\r\ncontent-type: application/json\r\n"@,
    );
    lemma_reply_starts(
        "400 Bad Request"@,
        "text/plain"@,
        encode_utf8("bad request\n"@),
        "HTTP/1.1 400 Bad Request\r\ncontent-type: text/plain\r\n"@,
    );
    lemma_reply_starts(
        "404 Not Found"@,
        "text/plain"@,
        encode_utf8("not found\n"@),
        "HTTP/1.1 404 Not Found\r\ncontent-type: text/plain\r\n"@,
    );
    let scored = http::reply_bytes(Route::FraudScore { body_start }, Some(json));
    assert(scored.subrange(scored.len() - encode_utf8(json).len(), scored.len() as int)
        =~= encode_utf8(json));
}

/// The white space that is passed over around a number.
pub proof fn law_white_space(c: char)
    ensures
        http::is_white_space(c) <==> seq![
            0x09u32, 0x0a, 0x0b, 0x0c, 0x0d, 0x20, 0x85, 0xa0, 0x1680, 0x2000, 0x2001, 0x2002,
            0x2003, 0x2004, 0x2005, 0x2006, 0x2007, 0x2008, 0x2009, 0x200a, 0x2028, 0x2029, 0x202f,
            0x205f, 0x3000,
        ].contains(c as u32),
{
    let spaces = seq![
        0x09u32, 0x0a, 0x0b, 0x0c, 0x0d, 0x20, 0x85, 0xa0, 0x1680, 0x2000, 0x2001, 0x2002,
        0x2003, 0x2004, 0x2005, 0x2006, 0x2007, 0x2008, 0x2009, 0x200a, 0x2028, 0x2029, 0x202f,
        0x205f, 0x3000,
    ];
    if http::is_white_space(c) {
        let u = c as u32;
        let at: int = if u <= 0x0d {
            u - 0x09
        } else if u == 0x20 {
            5
        } else if u == 0x85 {
            6
        } else if u == 0xa0 {
            7
        } else if u == 0x1680 {
            8
        } else if u <= 0x200a {
            9 + u - 0x2000
        } else if u == 0x2028 {
            20
        } else if u == 0x2029 {
            21
        } else if u == 0x202f {
            22
        } else if u == 0x205f {
            23
        } else {
            24
        };
        assert(spaces[at] == u);
    }
}

proof fn lemma_trim_pushed(s: Seq<char>, c: char)
    requires
        http::is_white_space(c),
    ensures
        http::trim_back(http::trim_front(s.push(c))) == http::trim_back(http::trim_front(s)),
    decreases s.len(),
{
    if s.len() > 0 && http::is_white_space(s[0]) {
        assert(s.push(c)[0] == s[0]);
        assert(s.push(c).drop_first() =~= s.drop_first().push(c));
        lemma_trim_pushed(s.drop_first(), c);
    } else if s.len() > 0 {
        assert(s.push(c)[0] == s[0]);
        assert(http::trim_front(s.push(c)) == s.push(c));
        assert(s.push(c).drop_last() =~= s);
    } else {
        assert(s.push(c).drop_first() =~= s);
        assert(http::trim_front(s.push(c)) == http::trim_front(s));
    }
}

/// White space before or behind a value does not count.
pub proof fn law_white_space_is_passed_over(s: Seq<char>, c: char)
    requires
        http::is_white_space(c),
    ensures
        http::value_in(encode_utf8(seq![c] + s)) == http::value_in(encode_utf8(s)),
        http::value_in(encode_utf8(s.push(c))) == http::value_in(encode_utf8(s)),
{
    encode_utf8_valid_utf8(s);
    encode_utf8_decode_utf8(s);
    let before = seq![c] + s;
    encode_utf8_valid_utf8(before);
    encode_utf8_decode_utf8(before);
    assert(before.drop_first() =~= s);
    let behind = s.push(c);
    encode_utf8_valid_utf8(behind);
    encode_utf8_decode_utf8(behind);
    lemma_trim_pushed(s, c);
}

/// One plus sign may stand before a number; nothing else may, and something must.
pub proof fn law_signs_of_numbers(n: nat, s: Seq<char>)
    ensures
        n <= usize::MAX ==> http::value_in(encode_utf8(seq!['+'] + text::decimal(n))) == Some(n),
        http::value_in(encode_utf8(Seq::<char>::empty())) == None::<nat>,
        http::value_in(encode_utf8(seq!['+'])) == None::<nat>,
        s.len() > 0 && s[0] != '+' && !(0x30 <= s[0] as u32 <= 0x39) && !http::is_white_space(s[0])
            && !http::is_white_space(s.last()) ==> http::value_in(encode_utf8(s)) == None::<nat>,
{
    let none = Seq::<char>::empty();
    encode_utf8_valid_utf8(none);
    encode_utf8_decode_utf8(none);
    let plus = seq!['+'];
    encode_utf8_valid_utf8(plus);
    encode_utf8_decode_utf8(plus);
    assert(http::trim_front(plus) == plus);
    assert(http::trim_back(plus) == plus);
    assert(http::without_plus(plus).len() == 0);
    let digits = text::decimal(n);
    text::law_decimal_value(n);
    let signed = plus + digits;
    encode_utf8_valid_utf8(signed);
    encode_utf8_decode_utf8(signed);
    assert(text::is_digit_char(digits[digits.len() - 1]));
    assert(signed.last() == digits[digits.len() - 1]);
    assert(http::trim_front(signed) == signed);
    assert(http::trim_back(signed) == signed);
    assert(http::without_plus(signed) =~= digits);
    encode_utf8_valid_utf8(s);
    encode_utf8_decode_utf8(s);
    if s.len() > 0 && s[0] != '+' && !(0x30 <= s[0] as u32 <= 0x39) && !http::is_white_space(s[0])
        && !http::is_white_space(s.last()) {
        assert(http::trim_front(s) == s);
        assert(http::trim_back(s) == s);
        assert(http::without_plus(s) == s);
        assert(!text::is_digit_char(s[0]));
    }
}

} // verus!
