//! Pre-formatted responses. The score can only be 0.0, 0.2, 0.4, 0.6, 0.8 or 1.0,
//! and a transaction is approved below 0.6, so there are exactly six answers.
use crate::bytes;
use crate::framing;
use crate::http;
use crate::parser;
use crate::parser::NumberView;
use crate::reading;
use crate::THRESHOLD;
use vstd::prelude::*;

verus! {

/// The six response bodies, by the number of frauds among the neighbours.
pub const BODIES: [&'static str; 6] = [
    "{\"approved\":true,\"fraud_score\":0.0}",
    "{\"approved\":true,\"fraud_score\":0.2}",
    "{\"approved\":true,\"fraud_score\":0.4}",
    "{\"approved\":false,\"fraud_score\":0.6}",
    "{\"approved\":false,\"fraud_score\":0.8}",
    "{\"approved\":false,\"fraud_score\":1.0}",
];

/// Safe fallback body used on any error: approve with score 0.0.
pub const FALLBACK_BODY: &'static str = "{\"approved\":true,\"fraud_score\":0.0}";

/// Complete responses (status line, headers and body) for each number of frauds.
pub const RESPONSES: [&'static str; 6] = [
    "HTTP/1.1 200 OK\r\nContent-Type: application/json\r\nContent-Length: 35\r\nConnection: keep-alive\r\n\r\n{\"approved\":true,\"fraud_score\":0.0}",
    "HTTP/1.1 200 OK\r\nContent-Type: application/json\r\nContent-Length: 35\r\nConnection: keep-alive\r\n\r\n{\"approved\":true,\"fraud_score\":0.2}",
    "HTTP/1.1 200 OK\r\nContent-Type: application/json\r\nContent-Length: 35\r\nConnection: keep-alive\r\n\r\n{\"approved\":true,\"fraud_score\":0.4}",
    "HTTP/1.1 200 OK\r\nContent-Type: application/json\r\nContent-Length: 36\r\nConnection: keep-alive\r\n\r\n{\"approved\":false,\"fraud_score\":0.6}",
    "HTTP/1.1 200 OK\r\nContent-Type: application/json\r\nContent-Length: 36\r\nConnection: keep-alive\r\n\r\n{\"approved\":false,\"fraud_score\":0.8}",
    "HTTP/1.1 200 OK\r\nContent-Type: application/json\r\nContent-Length: 36\r\nConnection: keep-alive\r\n\r\n{\"approved\":false,\"fraud_score\":1.0}",
];

/// The complete fallback response.
pub const FALLBACK_RESPONSE: &'static str = "HTTP/1.1 200 OK\r\nContent-Type: application/json\r\nContent-Length: 35\r\nConnection: keep-alive\r\n\r\n{\"approved\":true,\"fraud_score\":0.0}";

/// The answer to `GET /ready`: success, without a body.
pub const READY_RESPONSE: &'static str = "HTTP/1.1 200 OK\r\nContent-Length: 0\r\nConnection: keep-alive\r\n\r\n";

/// The answer to an unknown route.
pub const NOTFOUND_RESPONSE: &'static str = "HTTP/1.1 404 Not Found\r\nContent-Length: 0\r\nConnection: keep-alive\r\n\r\n";

/// The score that `frauds` of five neighbours make, with one decimal.
pub open spec fn score(frauds: int) -> Seq<u8> {
    seq![(0x30 + 2 * frauds / 10) as u8, 0x2e, (0x30 + 2 * frauds % 10) as u8]
}

/// Whether a transaction is approved.
pub open spec fn approved(frauds: int) -> bool {
    frauds < THRESHOLD
}

/// The body of the answer for a number of frauds from 0 to 5.
pub open spec fn body(frauds: int) -> Seq<u8> {
    bytes::ascii("{\"approved\":"@) + (if approved(frauds) {
        bytes::ascii("true"@)
    } else {
        bytes::ascii("false"@)
    }) + bytes::ascii(",\"fraud_score\":"@) + score(frauds) + bytes::ascii("}"@)
}

/// A number below one hundred in two digits.
pub open spec fn two_digits(n: int) -> Seq<u8> {
    seq![(0x30 + n / 10) as u8, (0x30 + n % 10) as u8]
}

/// The complete answer for a number of frauds from 0 to 5: it declares the length
/// of the body that follows, and keeps the connection open.
pub open spec fn response(frauds: int) -> Seq<u8> {
    bytes::ascii(
        "HTTP/1.1 200 OK\r\nContent-Type: application/json\r\nContent-Length: "@,
    ) + two_digits(body(frauds).len() as int) + bytes::ascii(
        "\r\nConnection: keep-alive\r\n\r\n"@,
    ) + body(frauds)
}

/// A number of frauds that cannot be counts as none.
pub open spec fn answered(frauds: int) -> int {
    if frauds < 6 {
        frauds
    } else {
        0
    }
}

proof fn lemma_bodies(n: int)
    requires
        0 <= n < 6,
    ensures
        BODIES@[n].is_ascii(),
        bytes::ascii(BODIES@[n]@) == body(n),
{
    reveal_strlit("{\"approved\":");
    reveal_strlit("true");
    reveal_strlit("false");
    reveal_strlit(",\"fraud_score\":");
    reveal_strlit("}");
    reveal_strlit("{\"approved\":true,\"fraud_score\":0.0}");
    reveal_strlit("{\"approved\":true,\"fraud_score\":0.2}");
    reveal_strlit("{\"approved\":true,\"fraud_score\":0.4}");
    reveal_strlit("{\"approved\":false,\"fraud_score\":0.6}");
    reveal_strlit("{\"approved\":false,\"fraud_score\":0.8}");
    reveal_strlit("{\"approved\":false,\"fraud_score\":1.0}");
    assert(n == 0 || n == 1 || n == 2 || n == 3 || n == 4 || n == 5);
    assert(bytes::ascii(BODIES@[n]@) =~= body(n));
}

proof fn lemma_responses(n: int)
    requires
        0 <= n < 6,
    ensures
        RESPONSES@[n].is_ascii(),
        bytes::ascii(RESPONSES@[n]@) == response(n),
{
    lemma_bodies(n);
    reveal_strlit("{\"approved\":true,\"fraud_score\":0.0}");
    reveal_strlit("{\"approved\":true,\"fraud_score\":0.2}");
    reveal_strlit("{\"approved\":true,\"fraud_score\":0.4}");
    reveal_strlit("{\"approved\":false,\"fraud_score\":0.6}");
    reveal_strlit("{\"approved\":false,\"fraud_score\":0.8}");
    reveal_strlit("{\"approved\":false,\"fraud_score\":1.0}");
    reveal_strlit("\r\nConnection: keep-alive\r\n\r\n");
    reveal_strlit("HTTP/1.1 200 OK\r\nContent-Type: application/json\r\nContent-Length: ");
    reveal_strlit(
        "HTTP/1.1 200 OK\r\nContent-Type: application/json\r\nContent-Length: 35\r\nConnection: keep-alive\r\n\r\n{\"approved\":true,\"fraud_score\":0.0}",
    );
    reveal_strlit(
        "HTTP/1.1 200 OK\r\nContent-Type: application/json\r\nContent-Length: 35\r\nConnection: keep-alive\r\n\r\n{\"approved\":true,\"fraud_score\":0.2}",
    );
    reveal_strlit(
        "HTTP/1.1 200 OK\r\nContent-Type: application/json\r\nContent-Length: 35\r\nConnection: keep-alive\r\n\r\n{\"approved\":true,\"fraud_score\":0.4}",
    );
    reveal_strlit(
        "HTTP/1.1 200 OK\r\nContent-Type: application/json\r\nContent-Length: 36\r\nConnection: keep-alive\r\n\r\n{\"approved\":false,\"fraud_score\":0.6}",
    );
    reveal_strlit(
        "HTTP/1.1 200 OK\r\nContent-Type: application/json\r\nContent-Length: 36\r\nConnection: keep-alive\r\n\r\n{\"approved\":false,\"fraud_score\":0.8}",
    );
    reveal_strlit(
        "HTTP/1.1 200 OK\r\nContent-Type: application/json\r\nContent-Length: 36\r\nConnection: keep-alive\r\n\r\n{\"approved\":false,\"fraud_score\":1.0}",
    );
    assert(n == 0 || n == 1 || n == 2 || n == 3 || n == 4 || n == 5);
    assert(bytes::ascii(RESPONSES@[n]@) =~= response(n));
}

/// Returns the body for a number of frauds, and the fallback for any number that
/// cannot be.
pub fn response_body(fraud_count: usize) -> (text: &'static [u8])
    ensures
        text@ == body(answered(fraud_count as int)),
{
    if fraud_count < 6 {
        proof {
            lemma_bodies(fraud_count as int);
        }
        bytes::ascii_bytes(BODIES[fraud_count])
    } else {
        proof {
            lemma_bodies(0);
        }
        bytes::ascii_bytes(FALLBACK_BODY)
    }
}

/// Returns the complete response for a number of frauds, and the fallback for any
/// number that cannot be.
pub fn full_response(fraud_count: usize) -> (text: &'static [u8])
    ensures
        text@ == response(answered(fraud_count as int)),
{
    if fraud_count < 6 {
        proof {
            lemma_responses(fraud_count as int);
        }
        bytes::ascii_bytes(RESPONSES[fraud_count])
    } else {
        proof {
            lemma_responses(0);
        }
        bytes::ascii_bytes(FALLBACK_RESPONSE)
    }
}

proof fn lemma_body_parts(n: int)
    requires
        0 <= n < 6,
    ensures
        ({
            let b = body(n);
            let at: int = if n < 3 {
                17
            } else {
                18
            };
            &&& b.len() == at + 18
            &&& bytes::first_occurs_at(b, bytes::ascii("\"approved\":"@), 1)
            &&& bytes::first_occurs_at(b, bytes::ascii("\"fraud_score\":"@), at)
            &&& bytes::ascii("\"approved\":"@).len() == 11
            &&& bytes::ascii("\"fraud_score\":"@).len() == 14
            &&& n < 3 ==> b.subrange(12, 16) == seq![0x74u8, 0x72, 0x75, 0x65]
            &&& n >= 3 ==> b.subrange(12, 17) == seq![0x66u8, 0x61, 0x6c, 0x73, 0x65]
            &&& b[at + 14] == 0x30 + 2 * n / 10
            &&& b[at + 15] == 0x2e
            &&& b[at + 16] == 0x30 + 2 * n % 10
            &&& b[at + 17] == 0x7d
        }),
{
    reveal_strlit("{\"approved\":");
    reveal_strlit("true");
    reveal_strlit("false");
    reveal_strlit(",\"fraud_score\":");
    reveal_strlit("}");
    reveal_strlit("\"approved\":");
    reveal_strlit("\"fraud_score\":");
    let b = body(n);
    let first = bytes::ascii("\"approved\":"@);
    let second = bytes::ascii("\"fraud_score\":"@);
    let at: int = if n < 3 {
        17
    } else {
        18
    };
    assert(b.subrange(1, 12) =~= first);
    assert(b.subrange(at, at + 14) =~= second);
    assert forall|i: int| i < 1 implies !#[trigger] bytes::occurs_at(b, first, i) by {
        if bytes::occurs_at(b, first, i) {
            assert(b.subrange(i, i + 11)[0] == first[0]);
        }
    }
    assert forall|i: int| i < at implies !#[trigger] bytes::occurs_at(b, second, i) by {
        if bytes::occurs_at(b, second, i) {
            assert(b.subrange(i, i + 14)[0] == second[0]);
            assert(b.subrange(i, i + 14)[1] == second[1]);
            assert(b[i] == 0x22 && b[i + 1] == 0x66);
            assert(i == 0 || i == 1 || i == 2 || i == 3 || i == 4 || i == 5 || i == 6 || i == 7
                || i == 8 || i == 9 || i == 10 || i == 11 || i == 12 || i == 13 || i == 14 || i
                == 15 || i == 16 || i == 17);
        }
    }
    if n < 3 {
        assert(b.subrange(12, 16) =~= seq![0x74u8, 0x72, 0x75, 0x65]);
    } else {
        assert(b.subrange(12, 17) =~= seq![0x66u8, 0x61, 0x6c, 0x73, 0x65]);
    }
}

/// What a client reads from an answer: the transaction is approved exactly where fewer
/// than three of the five neighbours are frauds, and the score is their share of the
/// five. A number of frauds that cannot be is answered like none.
pub proof fn lemma_verdict(frauds: usize, text: &[u8], count: int)
    requires
        call_ensures(response_body, (frauds,), text),
        count == if frauds <= 5 {
            frauds as int
        } else {
            0
        },
    ensures
        parser::bool_field(text@, bytes::ascii("\"approved\":"@)) == Some(count < 3),
        ({
            let score = parser::number_field(text@, bytes::ascii("\"fraud_score\":"@));
            &&& score is Some
            &&& !(score->0).negative
            &&& (score->0).whole.len() == 1
            &&& (score->0).fraction.len() == 1
            &&& 5 * (10 * ((score->0).whole[0] - 0x30) + ((score->0).fraction[0] - 0x30)) == 10
                * count
        }),
{
    let b = text@;
    let at: int = if count < 3 {
        17
    } else {
        18
    };
    lemma_body_parts(count);
    reading::lemma_field_values(b, bytes::ascii("\"approved\":"@), 1);
    let flag = if count < 3 {
        seq![0x74u8, 0x72, 0x75, 0x65]
    } else {
        seq![0x66u8, 0x61, 0x6c, 0x73, 0x65]
    };
    let behind = reading::from(b, 12int + flag.len());
    assert(reading::from(b, 12) =~= Seq::<u8>::empty() + flag + behind) by {
        assert forall|k: int| 0 <= k < flag.len() implies b[12 + k] == flag[k] by {
            assert(b[12 + k] == b.subrange(12, 12int + flag.len())[k]);
        }
    }
    reading::lemma_boolean_is_read(b, 12, Seq::empty(), count < 3, behind);
    reading::lemma_field_values(b, bytes::ascii("\"fraud_score\":"@), at);
    let score = NumberView {
        negative: false,
        whole: seq![b[at + 14]],
        fraction: seq![b[at + 16]],
    };
    assert(reading::from(b, at + 14) =~= Seq::<u8>::empty() + reading::numeral(score)
        + seq![0x7du8]);
    assert(count == 0 || count == 1 || count == 2 || count == 3 || count == 4 || count == 5);
    reading::lemma_number_is_read(b, at + 14, Seq::empty(), score, seq![0x7du8]);
}

/// The headers of an answer with a body of `length` bytes, as they are sent.
spec fn head(length: int) -> Seq<u8> {
    bytes::ascii(
        "HTTP/1.1 200 OK\r\nContent-Type: application/json\r\nContent-Length: "@,
    ) + two_digits(length) + bytes::ascii("\r\nConnection: keep-alive\r\n\r\n"@)
}

proof fn lemma_head_bytes(length: int, j: int)
    requires
        10 <= length < 100,
        0 <= j < 95,
    ensures
        head(length).len() == 95,
        head(length)[j] == 0x3a <==> j == 29 || j == 63 || j == 79,
        head(length)[j] == 0x0d <==> j == 15 || j == 47 || j == 67 || j == 91 || j == 93,
        head(length)[15] == 0x0d && head(length)[17] == 0x43 && head(length)[49] == 0x43
            && head(length)[69] == 0x43,
{
    reveal_strlit("HTTP/1.1 200 OK\r\nContent-Type: application/json\r\nContent-Length: ");
    reveal_strlit("\r\nConnection: keep-alive\r\n\r\n");
}

/// Headers whose only empty line is their end, and in which the length header stands at
/// `at` and nowhere else, with `n` digits behind a space.
spec fn plain_head(head: Seq<u8>, at: int, n: int) -> bool {
    &&& 0 <= at && 0 < n && at + 16 + n + 4 <= head.len()
    &&& framing::names_length(head.subrange(at, at + 15))
    &&& head[at + 15] == 0x20
    &&& reading::all_digits(head.subrange(at + 16, at + 16 + n))
    &&& head[at + 16 + n] == 0x0d
    &&& head.subrange(head.len() - 4, head.len() as int) == framing::empty_line()
    &&& forall|j: int|
        0 <= j < head.len() - 4 ==> !(#[trigger] head[j] == 0x0d && head[j + 2] == 0x0d)
    &&& forall|j: int|
        14 <= j < head.len() && j != at + 14 ==> !(#[trigger] head[j] == 0x3a && (head[j - 14]
            == 0x43 || head[j - 14] == 0x63))
}

proof fn lemma_plain_head(head: Seq<u8>, at: int, n: int, rest: Seq<u8>)
    requires
        plain_head(head, at, n),
    ensures
        framing::headers_end(head + rest, head.len() as int),
        http::declared_length(head) == Some(
            parser::decimal(head.subrange(at + 16, at + 16 + n)),
        ),
{
    let all = head + rest;
    let end = head.len() as int;
    assert(all.subrange(end - 4, end) =~= head.subrange(end - 4, end));
    assert forall|i: int| 0 <= i < end - 4 implies #[trigger] all.subrange(i, i + 4)
        != framing::empty_line() by {
        if all.subrange(i, i + 4) == framing::empty_line() {
            assert(all.subrange(i, i + 4)[0] == head[i]);
            assert(all.subrange(i, i + 4)[2] == head[i + 2]);
            assert(framing::empty_line()[0] == 0x0d && framing::empty_line()[2] == 0x0d);
        }
    }
    let h = head.take(at);
    let name = head.subrange(at, at + 15);
    let gaps = seq![0x20u8];
    let digits = head.subrange(at + 16, at + 16 + n);
    let tail = head.subrange(at + 16 + n, end);
    assert(h + name + gaps + digits + tail =~= head);
    assert forall|i: int| 0 <= i && i != at && i + 15 <= end implies !framing::names_length(
        #[trigger] head.subrange(i, i + 15),
    ) by {
        let found = head.subrange(i, i + 15);
        if framing::names_length(found) {
            assert(found[0] == 0x63 || found[0] == 0x43);
            assert(found[14] == 0x3a);
            assert(head[i + 14] == found[14] && head[i] == found[0]);
            assert(!(head[i + 14] == 0x3a && (head[i + 14 - 14] == 0x43 || head[i + 14 - 14]
                == 0x63)));
        }
    }
    assert(tail[0] == head[at + 16 + n]);
    framing::lemma_declared_length(h, name, gaps, digits, tail);
}

proof fn lemma_head_is_plain(length: int)
    requires
        10 <= length < 100,
    ensures
        plain_head(head(length), 49, 2),
        parser::decimal(head(length).subrange(65, 67)) == length,
{
    let h = head(length);
    lemma_head_bytes(length, 0);
    assert forall|j: int| 0 <= j < h.len() - 4 implies !(#[trigger] h[j] == 0x0d && h[j + 2]
        == 0x0d) by {
        lemma_head_bytes(length, j);
        lemma_head_bytes(length, j + 2);
    }
    assert forall|j: int| 14 <= j < h.len() && j != 49 + 14 implies !(#[trigger] h[j] == 0x3a && (
    h[j - 14] == 0x43 || h[j - 14] == 0x63)) by {
        lemma_head_bytes(length, j);
        reveal_strlit("HTTP/1.1 200 OK\r\nContent-Type: application/json\r\nContent-Length: ");
        reveal_strlit("\r\nConnection: keep-alive\r\n\r\n");
    }
    reveal_strlit("HTTP/1.1 200 OK\r\nContent-Type: application/json\r\nContent-Length: ");
    reveal_strlit("\r\nConnection: keep-alive\r\n\r\n");
    let digits = h.subrange(65, 67);
    assert(digits =~= two_digits(length));
    assert(digits.drop_last() =~= seq![digits[0]]);
    assert(digits.drop_last().drop_last() =~= Seq::empty());
    assert(parser::decimal(digits.drop_last().drop_last()) == 0);
    assert(parser::decimal(digits.drop_last()) == length / 10);
    assert(h.subrange(91, 95) =~= framing::empty_line());
    let name = h.subrange(49, 64);
    assert(framing::names_length(name));
}

/// A complete answer is framed like a request: it says `200`, its headers declare the
/// length of the body that follows, and behind them stands that body.
pub proof fn lemma_answer_is_framed(frauds: usize, text: &[u8], short: &[u8])
    requires
        call_ensures(full_response, (frauds,), text),
        call_ensures(response_body, (frauds,), short),
    ensures
        framing::headers_end(text@, 95),
        http::declared_length(text@.take(95)) == Some(short@.len()),
        text@.skip(95) == short@,
        text@.subrange(9, 12) == seq![0x32u8, 0x30, 0x30],
{
    let length = short@.len() as int;
    lemma_body_parts(answered(frauds as int));
    let h = head(length);
    lemma_head_is_plain(length);
    lemma_head_bytes(length, 0);
    assert(text@ =~= h + short@);
    lemma_plain_head(h, 49, 2, short@);
    assert(text@.take(95) =~= h);
    assert(text@.skip(95) =~= short@);
    reveal_strlit("HTTP/1.1 200 OK\r\nContent-Type: application/json\r\nContent-Length: ");
    assert(text@.subrange(9, 12) =~= seq![0x32u8, 0x30, 0x30]);
}

/// The answer that the server is ready says `200`, the one to an unknown route `404`.
/// Both end with their headers, which declare that nothing follows.
pub proof fn lemma_empty_answers()
    ensures
        ({
            let ready = bytes::ascii(READY_RESPONSE@);
            let unknown = bytes::ascii(NOTFOUND_RESPONSE@);
            &&& ready.subrange(9, 12) == seq![0x32u8, 0x30, 0x30]
            &&& framing::headers_end(ready, ready.len() as int)
            &&& http::declared_length(ready) == Some(0nat)
            &&& unknown.subrange(9, 12) == seq![0x34u8, 0x30, 0x34]
            &&& framing::headers_end(unknown, unknown.len() as int)
            &&& http::declared_length(unknown) == Some(0nat)
        }),
{
    lemma_ready_is_plain();
    lemma_unknown_is_plain();
    let ready = bytes::ascii(READY_RESPONSE@);
    let unknown = bytes::ascii(NOTFOUND_RESPONSE@);
    lemma_plain_head(ready, 17, 1, Seq::empty());
    lemma_plain_head(unknown, 24, 1, Seq::empty());
    assert(ready + Seq::<u8>::empty() =~= ready);
    assert(unknown + Seq::<u8>::empty() =~= unknown);
    lemma_zero(ready.subrange(33, 34));
    lemma_zero(unknown.subrange(40, 41));
}

proof fn lemma_zero(digits: Seq<u8>)
    requires
        digits.len() == 1,
        digits[0] == 0x30,
    ensures
        parser::decimal(digits) == 0,
{
    assert(digits.drop_last() =~= Seq::empty());
    assert(parser::decimal(digits.drop_last()) == 0);
}

proof fn lemma_ready_is_plain()
    ensures
        ({
            let ready = bytes::ascii(READY_RESPONSE@);
            &&& plain_head(ready, 17, 1)
            &&& ready.subrange(33, 34)[0] == 0x30
            &&& ready.subrange(9, 12) == seq![0x32u8, 0x30, 0x30]
        }),
{
    reveal_strlit("HTTP/1.1 200 OK\r\nContent-Length: 0\r\nConnection: keep-alive\r\n\r\n");
    let ready = bytes::ascii(READY_RESPONSE@);
    assert(ready.subrange(9, 12) =~= seq![0x32u8, 0x30, 0x30]);
    assert(ready.subrange(58, 62) =~= framing::empty_line());
    assert(framing::names_length(ready.subrange(17, 32)));
    assert forall|j: int| 0 <= j < 58 implies !(#[trigger] ready[j] == 0x0d && ready[j + 2]
        == 0x0d) by {}
    assert forall|j: int| 14 <= j < 62 && j != 31 implies !(#[trigger] ready[j] == 0x3a && (ready[j
        - 14] == 0x43 || ready[j - 14] == 0x63)) by {}
}

proof fn lemma_unknown_is_plain()
    ensures
        ({
            let unknown = bytes::ascii(NOTFOUND_RESPONSE@);
            &&& plain_head(unknown, 24, 1)
            &&& unknown.subrange(40, 41)[0] == 0x30
            &&& unknown.subrange(9, 12) == seq![0x34u8, 0x30, 0x34]
        }),
{
    reveal_strlit(
        "HTTP/1.1 404 Not Found\r\nContent-Length: 0\r\nConnection: keep-alive\r\n\r\n",
    );
    let unknown = bytes::ascii(NOTFOUND_RESPONSE@);
    assert(unknown.subrange(9, 12) =~= seq![0x34u8, 0x30, 0x34]);
    assert(unknown.subrange(65, 69) =~= framing::empty_line());
    assert(framing::names_length(unknown.subrange(24, 39)));
    assert forall|j: int| 0 <= j < 65 implies !(#[trigger] unknown[j] == 0x0d && unknown[j + 2]
        == 0x0d) by {}
    assert forall|j: int| 14 <= j < 69 && j != 38 implies !(#[trigger] unknown[j] == 0x3a && (
    unknown[j - 14] == 0x43 || unknown[j - 14] == 0x63)) by {}
}

} // verus!
