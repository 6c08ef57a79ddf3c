//! Framing of requests: where the first request of a buffer ends, and what it
//! asks for.
use crate::bytes;
use crate::parser;
use vstd::prelude::*;

verus! {

/// A byte with upper-case ASCII letters made lower-case.
pub open spec fn lower(b: u8) -> u8 {
    if 0x41 <= b <= 0x5a {
        (b + 32) as u8
    } else {
        b
    }
}

/// `needle` stands at position `at` of `hay`, whatever the case of the letters of
/// `hay`.
pub open spec fn ci_occurs_at(hay: Seq<u8>, needle: Seq<u8>, at: int) -> bool {
    &&& 0 <= at
    &&& at + needle.len() <= hay.len()
    &&& forall|j: int| 0 <= j < needle.len() ==> lower(hay[at + j]) == #[trigger] needle[j]
}

/// `at` is the first position at which `needle` stands in `hay` in any case.
pub open spec fn first_ci_at(hay: Seq<u8>, needle: Seq<u8>, at: int) -> bool {
    &&& ci_occurs_at(hay, needle, at)
    &&& forall|i: int| i < at ==> !#[trigger] ci_occurs_at(hay, needle, i)
}

/// The first position at which `needle` stands in `hay` in any case. An empty
/// needle is not found.
pub open spec fn ci_find(hay: Seq<u8>, needle: Seq<u8>) -> Option<int> {
    if needle.len() > 0 && exists|at: int| first_ci_at(hay, needle, at) {
        Some(choose|at: int| first_ci_at(hay, needle, at))
    } else {
        None
    }
}

proof fn lemma_ci_find(hay: Seq<u8>, needle: Seq<u8>, at: int)
    requires
        needle.len() > 0,
        first_ci_at(hay, needle, at),
    ensures
        ci_find(hay, needle) == Some(at),
{
    let found = choose|i: int| first_ci_at(hay, needle, i);
    assert(first_ci_at(hay, needle, found));
    assert(ci_occurs_at(hay, needle, found) && ci_occurs_at(hay, needle, at));
}

fn to_lower(b: u8) -> (l: u8)
    ensures
        l == lower(b),
{
    if 0x41 <= b && b <= 0x5a {
        b + 32
    } else {
        b
    }
}

fn ci_stands_at(hay: &[u8], needle: &[u8], at: usize) -> (found: bool)
    requires
        at + needle.len() <= hay.len(),
    ensures
        found == ci_occurs_at(hay@, needle@, at as int),
{
    for j in 0..needle.len()
        invariant
            at + needle.len() <= hay.len(),
            forall|k: int| 0 <= k < j ==> lower(hay@[at + k]) == #[trigger] needle@[k],
    {
        if to_lower(hay[at + j]) != needle[j] {
            return false;
        }
    }
    true
}

/// Finds the first occurrence of a lower-case needle in any case.
pub fn find_ci(hay: &[u8], needle: &[u8]) -> (at: Option<usize>)
    ensures
        match at {
            Some(p) => ci_find(hay@, needle@) == Some(p as int) && ci_occurs_at(
                hay@,
                needle@,
                p as int,
            ),
            None => ci_find(hay@, needle@) is None,
        },
{
    if needle.len() == 0 || hay.len() < needle.len() {
        return None;
    }
    let end: usize = hay.len() - needle.len();
    let mut i: usize = 0;
    while i <= end
        invariant
            needle.len() > 0,
            needle.len() <= hay.len(),
            end == hay.len() - needle.len(),
            i <= end + 1,
            forall|k: int| k < i ==> !#[trigger] ci_occurs_at(hay@, needle@, k),
        decreases end + 1 - i,
    {
        if ci_stands_at(hay, needle, i) {
            proof {
                lemma_ci_find(hay@, needle@, i as int);
            }
            return Some(i);
        }
        i += 1;
    }
    None
}

/// Where the length header stands: as it is usually written, in lower case, or in
/// any case.
pub open spec fn length_header(headers: Seq<u8>) -> Option<int> {
    let usual = bytes::find(headers, bytes::ascii("Content-Length:"@));
    let small = bytes::find(headers, bytes::ascii("content-length:"@));
    if usual is Some {
        usual
    } else if small is Some {
        small
    } else {
        ci_find(headers, bytes::ascii("content-length:"@))
    }
}

/// A length header is found exactly where one stands, in whatever case.
pub proof fn lemma_length_header(headers: Seq<u8>)
    ensures
        length_header(headers) is Some <==> exists|at: int|
            ci_occurs_at(headers, bytes::ascii("content-length:"@), at),
        length_header(headers) matches Some(at) ==> ci_occurs_at(
            headers,
            bytes::ascii("content-length:"@),
            at,
        ),
{
    reveal_strlit("Content-Length:");
    reveal_strlit("content-length:");
    let usual = bytes::ascii("Content-Length:"@);
    let small = bytes::ascii("content-length:"@);
    if bytes::find(headers, usual) is Some {
        let at = choose|at: int| bytes::first_occurs_at(headers, usual, at);
        assert(bytes::first_occurs_at(headers, usual, at));
        assert forall|j: int| 0 <= j < small.len() implies lower(headers[at + j])
            == #[trigger] small[j] by {
            assert(headers.subrange(at, at + usual.len())[j] == usual[j]);
        }
        assert(ci_occurs_at(headers, small, at));
    } else if bytes::find(headers, small) is Some {
        let at = choose|at: int| bytes::first_occurs_at(headers, small, at);
        assert(bytes::first_occurs_at(headers, small, at));
        assert forall|j: int| 0 <= j < small.len() implies lower(headers[at + j])
            == #[trigger] small[j] by {
            assert(headers.subrange(at, at + small.len())[j] == small[j]);
        }
        assert(ci_occurs_at(headers, small, at));
    } else if ci_find(headers, small) is Some {
        let at = choose|at: int| first_ci_at(headers, small, at);
        assert(first_ci_at(headers, small, at));
    } else if exists|at: int| ci_occurs_at(headers, small, at) {
        let at = choose|at: int| ci_occurs_at(headers, small, at);
        lemma_ci_found(headers, small, at);
    }
}

/// Of several length headers the first one counts that is written as usual, else the
/// first one in lower case, else the first one.
pub proof fn lemma_length_header_order(headers: Seq<u8>, at: int)
    ensures
        ({
            let usual = bytes::ascii("Content-Length:"@);
            let small = bytes::ascii("content-length:"@);
            let no_usual = forall|i: int| !#[trigger] bytes::occurs_at(headers, usual, i);
            let no_small = forall|i: int| !#[trigger] bytes::occurs_at(headers, small, i);
            &&& bytes::first_occurs_at(headers, usual, at) ==> length_header(headers) == Some(at)
            &&& no_usual && bytes::first_occurs_at(headers, small, at) ==> length_header(headers)
                == Some(at)
            &&& no_usual && no_small && first_ci_at(headers, small, at) ==> length_header(headers)
                == Some(at)
        }),
{
    reveal_strlit("content-length:");
    let usual = bytes::ascii("Content-Length:"@);
    let small = bytes::ascii("content-length:"@);
    if bytes::first_occurs_at(headers, usual, at) {
        bytes::lemma_find(headers, usual, at);
    }
    if bytes::first_occurs_at(headers, small, at) {
        bytes::lemma_find(headers, small, at);
    }
    if first_ci_at(headers, small, at) {
        lemma_ci_find(headers, small, at);
    }
}

proof fn lemma_ci_found(hay: Seq<u8>, needle: Seq<u8>, at: int)
    requires
        needle.len() > 0,
        ci_occurs_at(hay, needle, at),
    ensures
        ci_find(hay, needle) is Some,
    decreases at,
{
    if exists|i: int| i < at && ci_occurs_at(hay, needle, i) {
        let i = choose|i: int| i < at && ci_occurs_at(hay, needle, i);
        lemma_ci_found(hay, needle, i);
    } else {
        assert(first_ci_at(hay, needle, at));
    }
}

/// Where the spaces and tabs that start at `i` end.
pub open spec fn blank_end(b: Seq<u8>, i: int) -> int
    decreases b.len() - i,
{
    if 0 <= i < b.len() && (b[i] == 0x20 || b[i] == 0x09) {
        blank_end(b, i + 1)
    } else {
        i
    }
}

/// The length that the headers declare, if they do.
pub open spec fn declared_length(headers: Seq<u8>) -> Option<nat> {
    match length_header(headers) {
        Some(p) => {
            let start = blank_end(headers, p + 15);
            let end = parser::digits_end(headers, start);
            if start == end {
                None
            } else {
                Some(parser::decimal(headers.subrange(start, end)))
            }
        },
        None => None,
    }
}

/// A declared length.
#[derive(Clone, Copy, Debug)]
pub enum Declared {
    /// No length is declared.
    Missing,
    /// This length is declared.
    Length(usize),
    /// A length is declared that no buffer can have.
    Oversized,
}

fn skip_blanks(b: &[u8], from: usize) -> (end: usize)
    requires
        from <= b.len(),
    ensures
        end == blank_end(b@, from as int),
        from <= end <= b.len(),
{
    let mut i: usize = from;
    while i < b.len() && (b[i] == 0x20 || b[i] == 0x09)
        invariant
            from <= i <= b.len(),
            blank_end(b@, from as int) == blank_end(b@, i as int),
        decreases b.len() - i,
    {
        i += 1;
    }
    i
}

fn find_length_header(headers: &[u8]) -> (at: Option<usize>)
    ensures
        match at {
            Some(p) => length_header(headers@) == Some(p as int) && p + 15 <= headers.len(),
            None => length_header(headers@) is None,
        },
{
    proof {
        reveal_strlit("Content-Length:");
        reveal_strlit("content-length:");
    }
    if let Some(p) = bytes::find_literal(headers, "Content-Length:") {
        return Some(p);
    }
    if let Some(p) = bytes::find_literal(headers, "content-length:") {
        return Some(p);
    }
    find_ci(headers, bytes::ascii_bytes("content-length:"))
}

/// A number does not become smaller when digits are appended.
pub proof fn lemma_decimal_grows(digits: Seq<u8>, n: int)
    requires
        0 <= n <= digits.len(),
        forall|j: int| 0 <= j < digits.len() ==> parser::is_digit(#[trigger] digits[j]),
    ensures
        parser::decimal(digits.take(n)) <= parser::decimal(digits),
    decreases digits.len(),
{
    if n < digits.len() {
        let shorter = digits.drop_last();
        assert forall|j: int| 0 <= j < shorter.len() implies parser::is_digit(
            #[trigger] shorter[j],
        ) by {
            assert(shorter[j] == digits[j]);
        }
        lemma_decimal_grows(shorter, n);
        assert(shorter.take(n) =~= digits.take(n));
        assert(parser::is_digit(digits[digits.len() - 1]));
    } else {
        assert(digits.take(n) =~= digits);
    }
}

/// Reads the declared length.
pub fn declared(headers: &[u8]) -> (length: Declared)
    ensures
        match length {
            Declared::Missing => declared_length(headers@) is None,
            Declared::Length(n) => declared_length(headers@) == Some(n as nat),
            Declared::Oversized => declared_length(headers@) is Some && declared_length(headers@)->0
                > usize::MAX,
        },
{
    let p = match find_length_header(headers) {
        Some(p) => p,
        None => {
            return Declared::Missing;
        },
    };
    let start = skip_blanks(headers, p + 15);
    let end = parser::skip_digits(headers, start);
    if start == end {
        return Declared::Missing;
    }
    let ghost digits = headers@.subrange(start as int, end as int);
    proof {
        parser::lemma_digits_end(headers@, start as int);
        assert(digits.take(0) =~= Seq::empty());
    }
    let mut v: usize = 0;
    for i in start..end
        invariant
            start <= end <= headers.len(),
            digits == headers@.subrange(start as int, end as int),
            forall|j: int| 0 <= j < digits.len() ==> parser::is_digit(#[trigger] digits[j]),
            declared_length(headers@) == Some(parser::decimal(digits)),
            v == parser::decimal(digits.take(i - start)),
    {
        let ghost n = i - start;
        proof {
            assert(parser::is_digit(digits[n]));
            assert(digits.take(n + 1).drop_last() =~= digits.take(n));
            assert(digits.take(n + 1).last() == headers@[i as int]);
            lemma_decimal_grows(digits, n + 1);
        }
        let d: usize = (headers[i] - 0x30) as usize;
        match v.checked_mul(10) {
            Some(tens) => match tens.checked_add(d) {
                Some(sum) => {
                    v = sum;
                },
                None => {
                    return Declared::Oversized;
                },
            },
            None => {
                return Declared::Oversized;
            },
        }
    }
    assert(digits.take(end - start) =~= digits);
    Declared::Length(v)
}

/// Parses the value of the length header (the case of its name does not matter).
pub fn content_length(headers: &[u8]) -> (length: Option<usize>)
    requires
        declared_length(headers@) matches Some(n) ==> n <= usize::MAX,
    ensures
        match length {
            Some(n) => declared_length(headers@) == Some(n as nat),
            None => declared_length(headers@) is None,
        },
{
    match declared(headers) {
        Declared::Length(n) => Some(n),
        _ => None,
    }
}

/// The path of the request line (what stands between its first two spaces) is
/// `want`.
pub open spec fn path_is(head: Seq<u8>, want: Seq<u8>) -> bool {
    match bytes::find_byte(head, 0x20) {
        Some(p) => {
            let rest = head.subrange(p + 1, head.len() as int);
            match bytes::find_byte(rest, 0x20) {
                Some(n) => rest.take(n) == want,
                None => false,
            }
        },
        None => false,
    }
}

/// Checks the path of the request line.
pub fn request_path_is(buf: &[u8], hdr_end: usize, want: &[u8]) -> (is: bool)
    requires
        hdr_end <= buf.len(),
    ensures
        is == path_is(buf@.take(hdr_end as int), want@),
{
    let line = &buf[0..hdr_end];
    assert(line@ =~= buf@.take(hdr_end as int));
    match bytes::find_first_byte(line, 0x20) {
        Some(p) => {
            let rest = &line[p + 1..line.len()];
            match bytes::find_first_byte(rest, 0x20) {
                Some(n) => {
                    assert(rest@.subrange(0, n as int) =~= rest@.take(n as int));
                    bytes::bytes_equal(&rest[0..n], want)
                },
                None => false,
            }
        },
        None => false,
    }
}

/// The first request of a buffer.
#[derive(Clone, Copy, Debug)]
pub enum ParseResult {
    /// It is not complete.
    Need,
    /// It asks whether the server is ready. It takes this many bytes.
    Ready(usize),
    /// It asks for something unknown. It takes this many bytes.
    NotFound(usize),
    /// It asks for a score. It takes `consumed` bytes, of which the `body_len`
    /// from `body_off` on are the body.
    Fraud { consumed: usize, body_off: usize, body_len: usize },
}

/// Where the headers end: behind the first empty line.
pub open spec fn head_end(buf: Seq<u8>) -> Option<int> {
    match bytes::find(buf, bytes::ascii("\r\n\r\n"@)) {
        Some(p) => Some(p + 4),
        None => None,
    }
}

/// The length of the body behind headers that end at `end`.
pub open spec fn body_length(buf: Seq<u8>, end: int) -> int {
    match declared_length(buf.take(end)) {
        Some(n) => n as int,
        None => 0,
    }
}

/// The first request of a buffer ends within what can be addressed.
pub open spec fn addressable(buf: Seq<u8>) -> bool {
    head_end(buf) matches Some(end) ==> buf[0] == 0x50 ==> end + body_length(buf, end)
        <= usize::MAX
}

/// The first request of a buffer. One that starts with `P` asks for a score, one
/// that starts with `G` and has the path `/ready` asks whether the server is ready,
/// and any other is unknown.
pub open spec fn request(buf: Seq<u8>) -> ParseResult {
    match head_end(buf) {
        None => ParseResult::Need,
        Some(end) => if buf[0] == 0x50 {
            let n = body_length(buf, end);
            if buf.len() < end + n {
                ParseResult::Need
            } else {
                ParseResult::Fraud {
                    consumed: (end + n) as usize,
                    body_off: end as usize,
                    body_len: n as usize,
                }
            }
        } else if buf[0] == 0x47 && path_is(buf.take(end), bytes::ascii("/ready"@)) {
            ParseResult::Ready(end as usize)
        } else {
            ParseResult::NotFound(end as usize)
        },
    }
}

/// Parses the first request of a buffer, and tells where its end cannot be
/// addressed.
pub fn try_parse_request(buf: &[u8]) -> (result: Option<ParseResult>)
    ensures
        match result {
            Some(r) => addressable(buf@) && r == request(buf@),
            None => !addressable(buf@),
        },
{
    proof {
        reveal_strlit("\r\n\r\n");
        reveal_strlit("/ready");
    }
    let hdr_end: usize = match bytes::find_literal(buf, "\r\n\r\n") {
        Some(p) => {
            assert(p + 4 <= buf.len());
            p + 4
        },
        None => {
            return Some(ParseResult::Need);
        },
    };
    if buf[0] == 0x50 {
        let headers = &buf[0..hdr_end];
        assert(headers@ =~= buf@.take(hdr_end as int));
        let body_len: usize = match declared(headers) {
            Declared::Missing => 0,
            Declared::Length(n) => n,
            Declared::Oversized => {
                return None;
            },
        };
        match hdr_end.checked_add(body_len) {
            Some(total) => {
                if buf.len() < total {
                    Some(ParseResult::Need)
                } else {
                    Some(ParseResult::Fraud { consumed: total, body_off: hdr_end, body_len })
                }
            },
            None => None,
        }
    } else if buf[0] == 0x47 && request_path_is(buf, hdr_end, bytes::ascii_bytes("/ready")) {
        Some(ParseResult::Ready(hdr_end))
    } else {
        Some(ParseResult::NotFound(hdr_end))
    }
}

/// Parses the first request of a buffer.
pub fn parse_request(buf: &[u8]) -> (result: ParseResult)
    requires
        addressable(buf@),
    ensures
        result == request(buf@),
{
    match try_parse_request(buf) {
        Some(r) => r,
        None => ParseResult::Need,
    }
}

/// How many bytes a request takes.
pub open spec fn consumed(r: ParseResult) -> int {
    match r {
        ParseResult::Need => 0,
        ParseResult::Ready(n) => n as int,
        ParseResult::NotFound(n) => n as int,
        ParseResult::Fraud { consumed, .. } => consumed as int,
    }
}

/// A complete request takes at least its empty line and no more than the buffer
/// holds, and its body is the end of it.
pub proof fn lemma_request_bounds(buf: Seq<u8>)
    requires
        buf.len() <= usize::MAX,
    ensures
        request(buf) is Need || 4 <= consumed(request(buf)) <= buf.len(),
        request(buf) matches ParseResult::Fraud { consumed, body_off, body_len } ==> body_off
            + body_len == consumed,
{
    lemma_head_end(buf);
}

proof fn lemma_head_end(buf: Seq<u8>)
    ensures
        head_end(buf) matches Some(end) ==> {
            &&& 4 <= end <= buf.len()
            &&& bytes::first_occurs_at(buf, bytes::ascii("\r\n\r\n"@), end - 4)
        },
{
    reveal_strlit("\r\n\r\n");
    let needle = bytes::ascii("\r\n\r\n"@);
    if head_end(buf) is Some {
        let p = choose|at: int| bytes::first_occurs_at(buf, needle, at);
        assert(bytes::first_occurs_at(buf, needle, p));
    }
}

/// What was found in a buffer is found at the same place when more bytes arrive.
pub proof fn lemma_find_stable(hay: Seq<u8>, more: Seq<u8>, needle: Seq<u8>, at: int)
    requires
        bytes::first_occurs_at(hay, needle, at),
    ensures
        bytes::first_occurs_at(hay + more, needle, at),
        bytes::find(hay + more, needle) == Some(at),
{
    let all = hay + more;
    let n = needle.len();
    assert(all.subrange(at, at + n) =~= hay.subrange(at, at + n));
    assert forall|i: int| i < at implies !#[trigger] bytes::occurs_at(all, needle, i) by {
        if 0 <= i {
            assert(all.subrange(i, i + n) =~= hay.subrange(i, i + n));
            assert(!bytes::occurs_at(hay, needle, i));
        }
    }
    bytes::lemma_find(all, needle, at);
}

/// A complete request stays what it is when more bytes arrive behind it.
pub proof fn lemma_request_stable(buf: Seq<u8>, more: Seq<u8>)
    requires
        request(buf) !is Need,
    ensures
        request(buf + more) == request(buf),
        addressable(buf) ==> addressable(buf + more),
{
    lemma_head_end(buf);
    let end = head_end(buf)->0;
    lemma_find_stable(buf, more, bytes::ascii("\r\n\r\n"@), end - 4);
    assert((buf + more).take(end) =~= buf.take(end));
}

/// Nothing is no request.
pub proof fn lemma_empty_is_incomplete(buf: Seq<u8>)
    requires
        buf.len() == 0,
    ensures
        request(buf) is Need,
        addressable(buf),
{
    lemma_head_end(buf);
}

} // verus!
