//! What a client writes is what the server frames.
//!
//! The laws of this module speak of whole messages: a request that carries its body and
//! declares its length gives that body back, and leaves what follows it.
use crate::bytes;
use crate::http;
use crate::http::ParseResult;
use crate::parser;
use crate::reading;
use vstd::prelude::*;

verus! {

/// The empty line behind the headers, with the line break before it.
pub open spec fn empty_line() -> Seq<u8> {
    seq![0x0du8, 0x0a, 0x0d, 0x0a]
}

/// The name of the length header, in lower case.
pub open spec fn length_name() -> Seq<u8> {
    seq![
        0x63u8,
        0x6f,
        0x6e,
        0x74,
        0x65,
        0x6e,
        0x74,
        0x2d,
        0x6c,
        0x65,
        0x6e,
        0x67,
        0x74,
        0x68,
        0x3a,
    ]
}

/// `name` is the name of the length header, each of its letters in either case.
pub open spec fn names_length(name: Seq<u8>) -> bool {
    &&& name.len() == 15
    &&& forall|j: int|
        0 <= j < 15 ==> {
            ||| #[trigger] name[j] == length_name()[j]
            ||| 0x61 <= length_name()[j] <= 0x7a && name[j] + 32 == length_name()[j]
        }
}

/// The name of the length header stands nowhere in `s`.
pub open spec fn no_length(s: Seq<u8>) -> bool {
    forall|i: int|
        0 <= i && i + 15 <= s.len() ==> !names_length(#[trigger] s.subrange(i, i + 15))
}

/// No empty line stands in `s`.
pub open spec fn no_empty_line(s: Seq<u8>) -> bool {
    forall|i: int|
        0 <= i && i + 4 <= s.len() ==> #[trigger] s.subrange(i, i + 4) != empty_line()
}

/// Nothing but spaces and tabs.
pub open spec fn all_gaps(s: Seq<u8>) -> bool {
    forall|j: int| 0 <= j < s.len() ==> #[trigger] s[j] == 0x20 || s[j] == 0x09
}

/// A number as it is written.
pub open spec fn digits_of(n: nat) -> Seq<u8>
    decreases n,
{
    if n < 10 {
        seq![(0x30 + n) as u8]
    } else {
        digits_of(n / 10).push((0x30 + n % 10) as u8)
    }
}

/// The digits of a number write that number.
pub proof fn lemma_digits_of(n: nat)
    ensures
        digits_of(n).len() > 0,
        reading::all_digits(digits_of(n)),
        parser::decimal(digits_of(n)) == n,
    decreases n,
{
    let digits = digits_of(n);
    if n < 10 {
        assert(digits.drop_last() =~= Seq::empty());
        assert(parser::decimal(digits.drop_last()) == 0);
    } else {
        lemma_digits_of(n / 10);
        let front = digits_of(n / 10);
        assert(digits.drop_last() =~= front);
        assert forall|j: int| 0 <= j < digits.len() implies 0x30 <= #[trigger] digits[j]
            <= 0x39 by {
            if j < front.len() {
                assert(digits[j] == front[j]);
            }
        }
    }
}

proof fn lemma_literals()
    ensures
        bytes::ascii("\r\n\r\n"@) == empty_line(),
        bytes::ascii("content-length:"@) == length_name(),
        bytes::ascii("/ready"@) == seq![0x2fu8, 0x72, 0x65, 0x61, 0x64, 0x79],
        names_length(bytes::ascii("Content-Length:"@)),
{
    reveal_strlit("\r\n\r\n");
    reveal_strlit("content-length:");
    reveal_strlit("Content-Length:");
    reveal_strlit("/ready");
    assert(bytes::ascii("\r\n\r\n"@) =~= empty_line());
    assert(bytes::ascii("content-length:"@) =~= length_name());
    assert(bytes::ascii("/ready"@) =~= seq![0x2fu8, 0x72, 0x65, 0x61, 0x64, 0x79]);
}

/// The name of the length header is found in any case.
proof fn lemma_named(s: Seq<u8>, i: int)
    requires
        0 <= i,
        i + 15 <= s.len(),
    ensures
        http::ci_occurs_at(s, length_name(), i) <==> names_length(s.subrange(i, i + 15)),
{
    let name = s.subrange(i, i + 15);
    assert forall|j: int| 0 <= j < 15 implies #[trigger] name[j] == s[i + j] by {}
    if http::ci_occurs_at(s, length_name(), i) {
        assert forall|j: int| 0 <= j < 15 implies {
            ||| #[trigger] name[j] == length_name()[j]
            ||| 0x61 <= length_name()[j] <= 0x7a && name[j] + 32 == length_name()[j]
        } by {
            assert(http::lower(s[i + j]) == length_name()[j]);
        }
    }
    if names_length(name) {
        assert forall|j: int| 0 <= j < 15 implies http::lower(s[i + j])
            == #[trigger] length_name()[j] by {
            assert(name[j] == s[i + j]);
        }
    }
}

/// Where the name of the length header stands once, the length header is there.
proof fn lemma_only_length_header(headers: Seq<u8>, at: int)
    requires
        0 <= at,
        at + 15 <= headers.len(),
        names_length(headers.subrange(at, at + 15)),
        forall|i: int|
            0 <= i && i != at && i + 15 <= headers.len() ==> !names_length(
                #[trigger] headers.subrange(i, i + 15),
            ),
    ensures
        http::length_header(headers) == Some(at),
{
    lemma_literals();
    lemma_named(headers, at);
    http::lemma_length_header(headers);
    assert(http::ci_occurs_at(headers, bytes::ascii("content-length:"@), at));
    let found = http::length_header(headers)->0;
    lemma_named(headers, found);
    assert(names_length(headers.subrange(found, found + 15)));
}

proof fn lemma_gaps_are_skipped(b: Seq<u8>, i: int, n: int)
    requires
        0 <= i <= i + n <= b.len(),
        forall|j: int| i <= j < i + n ==> #[trigger] b[j] == 0x20 || b[j] == 0x09,
        i + n < b.len() ==> b[i + n] != 0x20 && b[i + n] != 0x09,
    ensures
        http::blank_end(b, i) == i + n,
    decreases n,
{
    if n > 0 {
        assert(b[i] == 0x20 || b[i] == 0x09);
        lemma_gaps_are_skipped(b, i + 1, n - 1);
    }
}

/// Headers in which the length header stands once declare the number behind it,
/// whatever the case of its name.
pub proof fn lemma_declared_length(
    h: Seq<u8>,
    name: Seq<u8>,
    gaps: Seq<u8>,
    digits: Seq<u8>,
    tail: Seq<u8>,
)
    requires
        names_length(name),
        forall|i: int|
            0 <= i && i != h.len() && i + 15 <= (h + name + gaps + digits + tail).len()
                ==> !names_length(
                #[trigger] (h + name + gaps + digits + tail).subrange(i, i + 15),
            ),
        all_gaps(gaps),
        digits.len() > 0,
        reading::all_digits(digits),
        reading::no_digit_first(tail),
    ensures
        http::declared_length(h + name + gaps + digits + tail) == Some(parser::decimal(digits)),
{
    let headers = h + name + gaps + digits + tail;
    let at = h.len() as int;
    assert(headers.subrange(at, at + 15) =~= name);
    lemma_only_length_header(headers, at);
    let start = at + 15 + gaps.len();
    assert forall|j: int| at + 15 <= j < start implies #[trigger] headers[j] == 0x20 || headers[j]
        == 0x09 by {
        assert(headers[j] == gaps[j - at - 15]);
    }
    assert(headers[start] == digits[0]);
    lemma_gaps_are_skipped(headers, at + 15, gaps.len() as int);
    assert forall|j: int| start <= j < start + digits.len() implies 0x30 <= #[trigger] headers[j]
        <= 0x39 by {
        assert(headers[j] == digits[j - start]);
    }
    if tail.len() > 0 {
        assert(headers[start + digits.len()] == tail[0]);
    }
    reading::lemma_digits_are_skipped(headers, start, digits.len() as int);
    assert(headers.subrange(start, start + digits.len()) =~= digits);
}

/// Headers in which the name of the length header does not stand declare no length.
pub proof fn lemma_no_declared_length(headers: Seq<u8>)
    requires
        no_length(headers),
    ensures
        http::declared_length(headers) is None,
{
    lemma_literals();
    http::lemma_length_header(headers);
    if http::length_header(headers) is Some {
        let at = http::length_header(headers)->0;
        lemma_named(headers, at);
        assert(names_length(headers.subrange(at, at + 15)));
    }
}

/// `end` is where the headers of `buf` end: the first empty line ends there.
pub open spec fn headers_end(buf: Seq<u8>, end: int) -> bool {
    &&& 4 <= end <= buf.len()
    &&& buf.subrange(end - 4, end) == empty_line()
    &&& forall|i: int|
        0 <= i < end - 4 ==> #[trigger] buf.subrange(i, i + 4) != empty_line()
}

proof fn lemma_headers_end(buf: Seq<u8>, end: int)
    requires
        headers_end(buf, end),
    ensures
        http::head_end(buf) == Some(end),
{
    lemma_literals();
    let needle = bytes::ascii("\r\n\r\n"@);
    assert(bytes::occurs_at(buf, needle, end - 4));
    assert forall|i: int| i < end - 4 implies !#[trigger] bytes::occurs_at(buf, needle, i) by {
        if 0 <= i {
            assert(buf.subrange(i, i + 4) != empty_line());
        }
    }
    bytes::lemma_find(buf, needle, end - 4);
}

/// A buffer without an empty line holds no complete request.
pub proof fn lemma_headers_are_awaited(buf: Seq<u8>)
    requires
        no_empty_line(buf),
    ensures
        http::request(buf) is Need,
        http::addressable(buf),
{
    lemma_literals();
    let needle = bytes::ascii("\r\n\r\n"@);
    if http::head_end(buf) is Some {
        let p = choose|at: int| bytes::first_occurs_at(buf, needle, at);
        assert(bytes::first_occurs_at(buf, needle, p));
        assert(buf.subrange(p, p + 4) == empty_line());
    }
}

/// A request for a score is complete exactly where the buffer holds as many bytes behind
/// the headers as they declare. Its body is then all of these bytes, and it takes the
/// headers and the body.
pub proof fn lemma_body_is_framed(buf: Seq<u8>, end: int, n: int)
    requires
        buf.len() <= usize::MAX,
        headers_end(buf, end),
        buf[0] == 0x50,
        n == match http::declared_length(buf.take(end)) {
            Some(length) => length as int,
            None => 0,
        },
    ensures
        http::addressable(buf) <==> end + n <= usize::MAX,
        http::request(buf) is Need <==> buf.len() < end + n,
        http::request(buf) is Need || http::request(buf) is Fraud,
        http::request(buf) matches ParseResult::Fraud { consumed, body_off, body_len } ==> {
            &&& consumed == end + n
            &&& body_off == end
            &&& body_len == n
        },
{
    lemma_headers_end(buf, end);
}

#[verifier::spinoff_prover]
proof fn lemma_length_once(
    h: Seq<u8>,
    name: Seq<u8>,
    gaps: Seq<u8>,
    digits: Seq<u8>,
    i: int,
)
    requires
        no_length(h),
        names_length(name),
        all_gaps(gaps),
        reading::all_digits(digits),
        0 <= i,
        i != h.len(),
        i + 15 <= (h + name + gaps + digits + empty_line()).len(),
    ensures
        !names_length((h + name + gaps + digits + empty_line()).subrange(i, i + 15)),
{
    let head = h + name + gaps + digits + empty_line();
    let found = head.subrange(i, i + 15);
    let n = h.len() as int;
    if names_length(found) {
        assert(found[0] == 0x63 || found[0] == 0x43);
        assert(found[14] == 0x3a);
        if i + 15 <= n {
            assert(h.subrange(i, i + 15) =~= found);
        } else if i < n {
            let k = i + 14 - n;
            assert(found[14] == head[i + 14]);
            assert(head[i + 14] == name[k]);
            assert(0 <= k < 14);
            assert(length_name()[k] != 0x3a && length_name()[k] != 0x5a);
            assert(name[k] == 0x3a);
            assert(false);
        } else if i < n + 15 {
            let k = i - n;
            assert(found[0] == head[i]);
            assert(head[i] == name[k]);
            assert(1 <= k < 15);
            assert(length_name()[k] != 0x63);
            assert(false);
        } else {
            assert(found[0] == head[i]);
            if i < n + 15 + gaps.len() {
                assert(head[i] == gaps[i - n - 15]);
            } else if i < n + 15 + gaps.len() + digits.len() {
                assert(head[i] == digits[i - n - 15 - gaps.len()]);
            } else {
                assert(head[i] == empty_line()[i - n - 15 - gaps.len() - digits.len()]);
            }
            assert(false);
        }
    }
}

#[verifier::spinoff_prover]
proof fn lemma_no_line_before_length(h: Seq<u8>, name: Seq<u8>, rest: Seq<u8>, i: int)
    requires
        no_empty_line(h),
        names_length(name),
        0 <= i < h.len(),
        i + 4 <= (h + name + rest).len(),
    ensures
        (h + name + rest).subrange(i, i + 4) != empty_line(),
{
    let buf = h + name + rest;
    let found = buf.subrange(i, i + 4);
    let n = h.len() as int;
    if i + 4 <= n {
        assert(h.subrange(i, i + 4) =~= found);
    } else {
        let k = n - i;
        assert(found[k] == buf[n]);
        assert(buf[n] == name[0]);
        assert(name[0] == 0x63 || name[0] == 0x43);
        assert(1 <= k <= 3);
        assert(empty_line()[k] == 0x0a || empty_line()[k] == 0x0d);
    }
}

#[verifier::spinoff_prover]
proof fn lemma_no_line_in_length(
    name: Seq<u8>,
    gaps: Seq<u8>,
    digits: Seq<u8>,
    rest: Seq<u8>,
    i: int,
)
    requires
        names_length(name),
        all_gaps(gaps),
        reading::all_digits(digits),
        0 <= i < name.len() + gaps.len() + digits.len(),
        i + 4 <= (name + gaps + digits + rest).len(),
    ensures
        (name + gaps + digits + rest).subrange(i, i + 4) != empty_line(),
{
    let buf = name + gaps + digits + rest;
    let found = buf.subrange(i, i + 4);
    assert(found[0] == buf[i]);
    assert(empty_line()[0] == 0x0d);
    if i < 15 {
        assert(buf[i] == name[i]);
    } else if i < 15 + gaps.len() {
        assert(buf[i] == gaps[i - 15]);
    } else {
        assert(buf[i] == digits[i - 15 - gaps.len()]);
    }
}

#[verifier::spinoff_prover]
proof fn lemma_empty_line_once(
    h: Seq<u8>,
    name: Seq<u8>,
    gaps: Seq<u8>,
    digits: Seq<u8>,
    rest: Seq<u8>,
)
    requires
        no_empty_line(h),
        names_length(name),
        all_gaps(gaps),
        reading::all_digits(digits),
    ensures
        headers_end(
            h + name + gaps + digits + empty_line() + rest,
            (h + name + gaps + digits + empty_line()).len() as int,
        ),
{
    let buf = h + name + gaps + digits + empty_line() + rest;
    let end = (h + name + gaps + digits + empty_line()).len() as int;
    let n = h.len() as int;
    let behind = empty_line() + rest;
    let line = name + gaps + digits + behind;
    assert(buf.subrange(end - 4, end) =~= empty_line());
    assert(buf =~= h + line);
    assert(buf =~= h + name + (gaps + digits + behind));
    assert forall|i: int| 0 <= i < end - 4 implies #[trigger] buf.subrange(i, i + 4)
        != empty_line() by {
        if i < n {
            lemma_no_line_before_length(h, name, gaps + digits + behind, i);
        } else {
            lemma_no_line_in_length(name, gaps, digits, behind, i - n);
            assert(buf.subrange(i, i + 4) =~= line.subrange(i - n, i - n + 4));
        }
    }
}

/// A body that is sent behind headers that declare its length is framed as it was sent,
/// and what follows it is left: for any headers in front of the length header, any case
/// of its name, any body, and whatever comes behind.
pub proof fn lemma_framing_round_trip(
    h: Seq<u8>,
    name: Seq<u8>,
    gaps: Seq<u8>,
    digits: Seq<u8>,
    body: Seq<u8>,
    more: Seq<u8>,
)
    requires
        h.len() > 0,
        h[0] == 0x50,
        no_empty_line(h),
        no_length(h),
        names_length(name),
        all_gaps(gaps),
        digits.len() > 0,
        reading::all_digits(digits),
        parser::decimal(digits) == body.len(),
        (h + name + gaps + digits + empty_line() + body + more).len() <= usize::MAX,
    ensures
        ({
            let buf = h + name + gaps + digits + empty_line() + body + more;
            &&& http::addressable(buf)
            &&& http::request(buf) matches ParseResult::Fraud { consumed, body_off, body_len }
            &&& buf.subrange(body_off as int, body_off + body_len) == body
            &&& buf.subrange(consumed as int, buf.len() as int) == more
        }),
{
    let head = h + name + gaps + digits + empty_line();
    let end = head.len() as int;
    let buf = h + name + gaps + digits + empty_line() + body + more;
    lemma_empty_line_once(h, name, gaps, digits, body + more);
    assert(buf =~= head + (body + more));
    assert(buf.take(end) =~= head);
    assert forall|i: int|
        0 <= i && i != h.len() && i + 15 <= head.len() implies !names_length(
        #[trigger] head.subrange(i, i + 15),
    ) by {
        lemma_length_once(h, name, gaps, digits, i);
    }
    lemma_declared_length(h, name, gaps, digits, empty_line());
    assert(buf[0] == h[0]);
    lemma_headers_end(buf, end);
    lemma_body_is_framed(buf, end, body.len() as int);
    assert(buf.subrange(end, end + body.len()) =~= body);
    assert(buf.subrange(end + body.len(), buf.len() as int) =~= more);
}

/// A request that declares no length has an empty body.
pub proof fn lemma_bodiless(buf: Seq<u8>, end: int)
    requires
        buf.len() <= usize::MAX,
        headers_end(buf, end),
        buf[0] == 0x50,
        no_length(buf.take(end)),
    ensures
        http::request(buf) == (ParseResult::Fraud {
            consumed: end as usize,
            body_off: end as usize,
            body_len: 0,
        }),
{
    lemma_no_declared_length(buf.take(end));
    lemma_body_is_framed(buf, end, 0);
}

/// The path of a request line is what stands between its first two spaces.
pub proof fn lemma_path(method: Seq<u8>, path: Seq<u8>, rest: Seq<u8>, want: Seq<u8>)
    requires
        forall|j: int| 0 <= j < method.len() ==> #[trigger] method[j] != 0x20,
        forall|j: int| 0 <= j < path.len() ==> #[trigger] path[j] != 0x20,
    ensures
        http::path_is(method + seq![0x20u8] + path + seq![0x20u8] + rest, want) <==> path == want,
{
    let head = method + seq![0x20u8] + path + seq![0x20u8] + rest;
    let p = method.len() as int;
    assert(head[p] == 0x20);
    assert forall|i: int| 0 <= i < p implies #[trigger] head[i] != 0x20 by {
        assert(head[i] == method[i]);
    }
    bytes::lemma_find_byte(head, 0x20, p);
    let after = head.subrange(p + 1, head.len() as int);
    let n = path.len() as int;
    assert(after[n] == 0x20);
    assert forall|i: int| 0 <= i < n implies #[trigger] after[i] != 0x20 by {
        assert(after[i] == path[i]);
    }
    bytes::lemma_find_byte(after, 0x20, n);
    assert(after.take(n) =~= path);
}

/// A request that starts with neither `P` nor `G`, and one that starts with `G` and asks
/// for another path than `/ready`, is unknown. One that starts with `G` and asks for
/// `/ready` is told apart. All of them take their headers.
pub proof fn lemma_routes(
    buf: Seq<u8>,
    end: int,
    method: Seq<u8>,
    path: Seq<u8>,
    rest: Seq<u8>,
)
    requires
        buf.len() <= usize::MAX,
        headers_end(buf, end),
        buf.take(end) == method + seq![0x20u8] + path + seq![0x20u8] + rest,
        forall|j: int| 0 <= j < method.len() ==> #[trigger] method[j] != 0x20,
        forall|j: int| 0 <= j < path.len() ==> #[trigger] path[j] != 0x20,
        buf[0] != 0x50,
    ensures
        http::addressable(buf),
        buf[0] == 0x47 && path == seq![0x2fu8, 0x72, 0x65, 0x61, 0x64, 0x79] ==> http::request(buf)
            == ParseResult::Ready(end as usize),
        !(buf[0] == 0x47 && path == seq![0x2fu8, 0x72, 0x65, 0x61, 0x64, 0x79]) ==> http::request(
            buf,
        ) == ParseResult::NotFound(end as usize),
{
    lemma_literals();
    lemma_headers_end(buf, end);
    lemma_path(method, path, rest, seq![0x2fu8, 0x72, 0x65, 0x61, 0x64, 0x79]);
}

/// A body that is sent behind headers that declare its length is what is parsed from the
/// buffer: for any body, and whatever comes behind.
pub proof fn lemma_sent_body_is_parsed(
    buf: &[u8],
    h: Seq<u8>,
    name: Seq<u8>,
    gaps: Seq<u8>,
    body: Seq<u8>,
    more: Seq<u8>,
    parsed: Option<ParseResult>,
)
    requires
        buf@.len() <= usize::MAX,
        buf@ == h + name + gaps + digits_of(body.len()) + empty_line() + body + more,
        h.len() > 0,
        h[0] == 0x50,
        no_empty_line(h),
        no_length(h),
        names_length(name),
        all_gaps(gaps),
        call_ensures(http::try_parse_request, (buf,), parsed),
    ensures
        parsed is Some,
        parsed->0 matches ParseResult::Fraud { consumed, body_off, body_len } && buf@.subrange(
            body_off as int,
            body_off + body_len,
        ) == body && buf@.skip(consumed as int) == more,
{
    let digits = digits_of(body.len());
    lemma_digits_of(body.len());
    lemma_framing_round_trip(h, name, gaps, digits, body, more);
    if let Some(ParseResult::Fraud { consumed, .. }) = parsed {
        assert(buf@.skip(consumed as int) =~= buf@.subrange(consumed as int, buf@.len() as int));
    }
}

} // verus!
