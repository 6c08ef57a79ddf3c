//! What is written in a request is what is read from it.
//!
//! The laws of this module speak of the text of a request: a value that stands behind
//! its key, as a number, an integer, a boolean, a string or a list is written, is the
//! value of the field, and no other part of the text has a say in it.
use crate::bytes;
use crate::parser;
use crate::parser::{NumberView, PayloadView, TransactionPayload};
use vstd::arithmetic::power::pow;
use vstd::prelude::*;

verus! {

/// A byte that may stand between a key and its value.
pub open spec fn blank(b: u8) -> bool {
    b == 0x20 || b == 0x09 || b == 0x0a || b == 0x0d
}

/// Nothing but blanks.
pub open spec fn all_blank(s: Seq<u8>) -> bool {
    forall|j: int| 0 <= j < s.len() ==> blank(#[trigger] s[j])
}

/// Nothing but digits.
pub open spec fn all_digits(s: Seq<u8>) -> bool {
    forall|j: int| 0 <= j < s.len() ==> 0x30 <= #[trigger] s[j] <= 0x39
}

/// No quote.
pub open spec fn no_quote(s: Seq<u8>) -> bool {
    forall|j: int| 0 <= j < s.len() ==> #[trigger] s[j] != 0x22
}

/// No digit follows.
pub open spec fn no_digit_first(s: Seq<u8>) -> bool {
    s.len() == 0 || s[0] < 0x30 || s[0] > 0x39
}

/// What stands from `i` on.
pub open spec fn from(b: Seq<u8>, i: int) -> Seq<u8> {
    b.subrange(i, b.len() as int)
}

/// A number as it is written.
pub open spec fn numeral(n: NumberView) -> Seq<u8> {
    (if n.negative {
        seq![0x2du8]
    } else {
        Seq::empty()
    }) + n.whole + (if n.fraction.len() == 0 {
        Seq::empty()
    } else {
        seq![0x2eu8] + n.fraction
    })
}

/// A string as it is written.
pub open spec fn quoted(s: Seq<u8>) -> Seq<u8> {
    seq![0x22u8] + s + seq![0x22u8]
}

/// The items of a list as they are written, commas between them.
pub open spec fn joined(items: Seq<Seq<u8>>) -> Seq<u8>
    decreases items.len(),
{
    if items.len() == 0 {
        Seq::empty()
    } else if items.len() == 1 {
        quoted(items[0])
    } else {
        quoted(items[0]) + seq![0x2cu8] + joined(items.skip(1))
    }
}

/// Blanks end where the next other byte stands.
pub proof fn lemma_blanks_are_skipped(b: Seq<u8>, i: int, n: int)
    requires
        0 <= i <= i + n <= b.len(),
        forall|j: int| i <= j < i + n ==> blank(#[trigger] b[j]),
        i + n < b.len() ==> !blank(b[i + n]),
    ensures
        parser::ws_end(b, i) == i + n,
    decreases n,
{
    if n > 0 {
        assert(blank(b[i]));
        lemma_blanks_are_skipped(b, i + 1, n - 1);
    }
}

/// A run of digits ends where the next other byte stands.
pub proof fn lemma_digits_are_skipped(b: Seq<u8>, i: int, n: int)
    requires
        0 <= i <= i + n <= b.len(),
        forall|j: int| i <= j < i + n ==> 0x30 <= #[trigger] b[j] <= 0x39,
        i + n < b.len() ==> b[i + n] < 0x30 || b[i + n] > 0x39,
    ensures
        parser::digits_end(b, i) == i + n,
    decreases n,
{
    if n > 0 {
        assert(0x30 <= b[i] <= 0x39);
        lemma_digits_are_skipped(b, i + 1, n - 1);
    }
}

/// A number that is written behind `i` is read with its sign and all its digits.
pub proof fn lemma_number_is_read(
    b: Seq<u8>,
    i: int,
    blanks: Seq<u8>,
    n: NumberView,
    tail: Seq<u8>,
)
    requires
        0 <= i <= b.len(),
        from(b, i) == blanks + numeral(n) + tail,
        all_blank(blanks),
        all_digits(n.whole),
        all_digits(n.fraction),
        n.whole.len() + n.fraction.len() > 0,
        no_digit_first(tail),
        n.fraction.len() == 0 && tail.len() > 0 ==> tail[0] != 0x2e,
    ensures
        parser::number_at(b, i) == Some(n),
{
    let rest = from(b, i);
    let start = i + blanks.len();
    let sign: int = if n.negative {
        1
    } else {
        0
    };
    let whole = start + sign;
    let whole_end = whole + n.whole.len();
    let text = numeral(n);
    assert(b.len() - i == rest.len() == blanks.len() + text.len() + tail.len());
    assert(text.len() == sign + n.whole.len() + if n.fraction.len() == 0 {
        0
    } else {
        1 + n.fraction.len()
    });
    assert forall|k: int| 0 <= k < rest.len() implies #[trigger] b[i + k] == rest[k] by {}
    assert forall|j: int| i <= j < start implies blank(#[trigger] b[j]) by {
        assert(b[i + (j - i)] == rest[j - i]);
        assert(blank(blanks[j - i]));
    }
    assert(b[i + blanks.len()] == rest[blanks.len() as int]);
    assert(rest[blanks.len() as int] == numeral(n)[0]);
    if n.whole.len() > 0 {
        assert(0x30 <= n.whole[0] <= 0x39);
    }
    lemma_blanks_are_skipped(b, i, blanks.len() as int);
    assert forall|j: int| whole <= j < whole_end implies 0x30 <= #[trigger] b[j] <= 0x39 by {
        assert(b[i + (j - i)] == rest[j - i]);
        assert(rest[j - i] == n.whole[j - whole]);
    }
    if whole_end < b.len() {
        assert(b[i + (whole_end - i)] == rest[whole_end - i]);
        assert(rest[whole_end - i] == if n.fraction.len() == 0 {
            tail[0]
        } else {
            0x2e
        });
    }
    lemma_digits_are_skipped(b, whole, n.whole.len() as int);
    assert(b.subrange(whole, whole_end) =~= n.whole) by {
        assert forall|k: int| 0 <= k < n.whole.len() implies b[whole + k] == n.whole[k] by {
            assert(b[i + (whole + k - i)] == rest[whole + k - i]);
        }
    }
    if n.fraction.len() > 0 {
        let fraction = whole_end + 1;
        let fraction_end = fraction + n.fraction.len();
        assert forall|k: int| 0 <= k < n.fraction.len() implies b[fraction + k]
            == n.fraction[k] by {
            assert(b[i + (fraction + k - i)] == rest[fraction + k - i]);
        }
        assert forall|j: int| fraction <= j < fraction_end implies 0x30 <= #[trigger] b[j]
            <= 0x39 by {
            assert(b[fraction + (j - fraction)] == n.fraction[j - fraction]);
        }
        if fraction_end < b.len() {
            assert(b[i + (fraction_end - i)] == rest[fraction_end - i]);
            assert(rest[fraction_end - i] == tail[0]);
        }
        lemma_digits_are_skipped(b, fraction, n.fraction.len() as int);
        assert(b.subrange(fraction, fraction_end) =~= n.fraction);
    } else {
        assert(b.subrange(whole_end, whole_end) =~= n.fraction);
    }
}

/// An integer that is written behind `i` is read as the number its digits write,
/// modulo the range of 32 bits.
pub proof fn lemma_integer_is_read(
    b: Seq<u8>,
    i: int,
    blanks: Seq<u8>,
    digits: Seq<u8>,
    tail: Seq<u8>,
)
    requires
        0 <= i <= b.len(),
        from(b, i) == blanks + digits + tail,
        all_blank(blanks),
        all_digits(digits),
        digits.len() > 0,
        no_digit_first(tail),
    ensures
        parser::u32_at(b, i) is Some,
        (parser::u32_at(b, i)->0) as nat == parser::decimal(digits) % 0x1_0000_0000,
{
    let rest = from(b, i);
    let start = i + blanks.len();
    assert(b.len() - i == rest.len() == blanks.len() + digits.len() + tail.len());
    assert forall|k: int| 0 <= k < rest.len() implies #[trigger] b[i + k] == rest[k] by {}
    assert forall|j: int| i <= j < start implies blank(#[trigger] b[j]) by {
        assert(b[i + (j - i)] == rest[j - i]);
        assert(blank(blanks[j - i]));
    }
    assert forall|k: int| 0 <= k < digits.len() implies b[start + k] == digits[k] by {
        assert(b[i + (start + k - i)] == rest[start + k - i]);
    }
    assert(b[start + 0] == digits[0]);
    lemma_blanks_are_skipped(b, i, blanks.len() as int);
    assert forall|j: int| start <= j < start + digits.len() implies 0x30 <= #[trigger] b[j]
        <= 0x39 by {
        assert(b[start + (j - start)] == digits[j - start]);
    }
    if start + digits.len() < b.len() {
        assert(b[i + (start + digits.len() - i)] == rest[start + digits.len() - i]);
        assert(rest[start + digits.len() - i] == tail[0]);
    }
    lemma_digits_are_skipped(b, start, digits.len() as int);
    assert(b.subrange(start, start + digits.len()) =~= digits);
}

/// A boolean that is written behind `i` is read as it is written.
pub proof fn lemma_boolean_is_read(b: Seq<u8>, i: int, blanks: Seq<u8>, value: bool, tail: Seq<u8>)
    requires
        0 <= i <= b.len(),
        from(b, i) == blanks + (if value {
            seq![0x74u8, 0x72, 0x75, 0x65]
        } else {
            seq![0x66u8, 0x61, 0x6c, 0x73, 0x65]
        }) + tail,
        all_blank(blanks),
    ensures
        parser::bool_at(b, i) == Some(value),
{
    reveal_strlit("true");
    reveal_strlit("false");
    let text = if value {
        seq![0x74u8, 0x72, 0x75, 0x65]
    } else {
        seq![0x66u8, 0x61, 0x6c, 0x73, 0x65]
    };
    let rest = from(b, i);
    let start = i + blanks.len();
    assert(b.len() - i == rest.len() == blanks.len() + text.len() + tail.len());
    assert forall|k: int| 0 <= k < rest.len() implies #[trigger] b[i + k] == rest[k] by {}
    assert forall|j: int| i <= j < start implies blank(#[trigger] b[j]) by {
        assert(b[i + (j - i)] == rest[j - i]);
        assert(blank(blanks[j - i]));
    }
    assert forall|k: int| 0 <= k < text.len() implies b[start + k] == text[k] by {
        assert(b[i + (start + k - i)] == rest[start + k - i]);
    }
    assert(b[start + 0] == text[0]);
    lemma_blanks_are_skipped(b, i, blanks.len() as int);
    assert(b.subrange(start, start + text.len()) =~= text);
    if value {
        assert(bytes::ascii("true"@) =~= text);
    } else {
        assert(bytes::ascii("false"@) =~= text);
        if bytes::occurs_at(b, bytes::ascii("true"@), start) {
            assert(b.subrange(start, start + 4)[0] == bytes::ascii("true"@)[0]);
        }
    }
}

/// A boolean is read only where one is written.
pub proof fn lemma_boolean_is_written(b: Seq<u8>, i: int)
    requires
        0 <= i <= b.len(),
        parser::bool_at(b, i) is Some,
    ensures
        ({
            let start = parser::ws_end(b, i);
            &&& parser::bool_at(b, i) == Some(true) ==> start + 4 <= b.len() && b.subrange(
                start,
                start + 4,
            ) == seq![0x74u8, 0x72, 0x75, 0x65]
            &&& parser::bool_at(b, i) == Some(false) ==> start + 5 <= b.len() && b.subrange(
                start,
                start + 5,
            ) == seq![0x66u8, 0x61, 0x6c, 0x73, 0x65]
        }),
{
    reveal_strlit("true");
    reveal_strlit("false");
    assert(bytes::ascii("true"@) =~= seq![0x74u8, 0x72, 0x75, 0x65]);
    assert(bytes::ascii("false"@) =~= seq![0x66u8, 0x61, 0x6c, 0x73, 0x65]);
}

/// A string that is written behind `i` is read without its quotes, and reading goes on
/// behind it.
pub proof fn lemma_string_is_read(
    b: Seq<u8>,
    i: int,
    blanks: Seq<u8>,
    s: Seq<u8>,
    tail: Seq<u8>,
)
    requires
        0 <= i <= b.len(),
        from(b, i) == blanks + quoted(s) + tail,
        all_blank(blanks),
        no_quote(s),
    ensures
        parser::string_at(b, i) == Some((s, i + blanks.len() + s.len() + 2)),
{
    let rest = from(b, i);
    let start = i + blanks.len();
    assert(b.len() - i == rest.len() == blanks.len() + s.len() + 2 + tail.len());
    assert forall|k: int| 0 <= k < rest.len() implies #[trigger] b[i + k] == rest[k] by {}
    assert forall|j: int| i <= j < start implies blank(#[trigger] b[j]) by {
        assert(b[i + (j - i)] == rest[j - i]);
        assert(blank(blanks[j - i]));
    }
    assert(b[i + (start - i)] == rest[start - i]);
    assert(b[start] == 0x22);
    lemma_blanks_are_skipped(b, i, blanks.len() as int);
    let inside = from(b, start + 1);
    assert forall|k: int| 0 <= k < s.len() implies inside[k] == s[k] by {
        assert(b[i + (start + 1 + k - i)] == rest[start + 1 + k - i]);
    }
    assert(b[i + (start + 1 + s.len() - i)] == rest[start + 1 + s.len() - i]);
    assert(inside[s.len() as int] == 0x22);
    bytes::lemma_find_byte(inside, 0x22, s.len() as int);
    assert(b.subrange(start + 1, start + 1 + s.len()) =~= s) by {
        assert forall|k: int| 0 <= k < s.len() implies b[start + 1 + k] == s[k] by {
            assert(inside[k] == b[start + 1 + k]);
        }
    }
}

/// The items of a list that is written from `i` on are read one by one.
proof fn lemma_items_are_read(b: Seq<u8>, i: int, items: Seq<Seq<u8>>, tail: Seq<u8>)
    requires
        0 <= i <= b.len(),
        from(b, i) == joined(items) + seq![0x5du8] + tail,
        forall|k: int| 0 <= k < items.len() ==> no_quote(#[trigger] items[k]),
    ensures
        parser::strings_at(b, i) == Some(items),
    decreases items.len(),
{
    let rest = from(b, i);
    assert(b.len() - i == rest.len() == joined(items).len() + 1 + tail.len());
    assert(rest[0] == b[i]);
    if items.len() == 0 {
        assert(joined(items) =~= Seq::empty());
        assert(b[i] == 0x5d);
        lemma_blanks_are_skipped(b, i, 0);
        assert(items =~= Seq::empty());
    } else {
        let s = items[0];
        let next = i + s.len() + 2;
        let others = items.skip(1);
        let more = if items.len() == 1 {
            seq![0x5du8] + tail
        } else {
            seq![0x2cu8] + joined(others) + seq![0x5du8] + tail
        };
        assert(joined(items) + seq![0x5du8] + tail =~= Seq::<u8>::empty() + quoted(s) + more);
        assert(no_quote(items[0]));
        lemma_string_is_read(b, i, Seq::empty(), s, more);
        assert(b[i] == 0x22);
        lemma_blanks_are_skipped(b, i, 0);
        assert forall|k: int| 0 <= k < others.len() implies no_quote(#[trigger] others[k]) by {
            assert(others[k] == items[k + 1]);
        }
        assert(from(b, next) =~= more) by {
            assert forall|k: int| 0 <= k < more.len() implies b[next + k] == more[k] by {
                assert(b[next + k] == rest[next + k - i]);
            }
        }
        assert(b[next] == from(b, next)[0]);
        if items.len() == 1 {
            assert(others =~= Seq::empty());
            assert(joined(others) =~= Seq::empty());
            assert(from(b, next) =~= joined(others) + seq![0x5du8] + tail);
            lemma_items_are_read(b, next, others, tail);
        } else {
            assert(b[next] == 0x2c);
            lemma_blanks_are_skipped(b, next, 0);
            let after = joined(others) + seq![0x5du8] + tail;
            assert(from(b, next + 1) =~= after) by {
                assert forall|k: int| 0 <= k < after.len() implies b[next + 1 + k] == #[trigger]
                    after[k] by {
                    assert(b[next + 1 + k] == from(b, next)[k + 1]);
                    assert(more[k + 1] == after[k]);
                }
            }
            lemma_items_are_read(b, next + 1, others, tail);
            assert(parser::strings_at(b, next) == parser::strings_at(b, next + 1));
        }
        assert(seq![s] + others =~= items);
    }
}

/// A list that is written behind `i` is read item by item.
pub proof fn lemma_list_is_read(
    b: Seq<u8>,
    i: int,
    blanks: Seq<u8>,
    items: Seq<Seq<u8>>,
    tail: Seq<u8>,
)
    requires
        0 <= i <= b.len(),
        from(b, i) == blanks + seq![0x5bu8] + joined(items) + seq![0x5du8] + tail,
        all_blank(blanks),
        forall|k: int| 0 <= k < items.len() ==> no_quote(#[trigger] items[k]),
    ensures
        parser::list_at(b, i) == Some(items),
{
    let rest = from(b, i);
    let start = i + blanks.len();
    assert(b.len() - i == rest.len() == blanks.len() + joined(items).len() + 2 + tail.len());
    assert forall|k: int| 0 <= k < rest.len() implies #[trigger] b[i + k] == rest[k] by {}
    assert forall|j: int| i <= j < start implies blank(#[trigger] b[j]) by {
        assert(b[i + (j - i)] == rest[j - i]);
        assert(blank(blanks[j - i]));
    }
    assert(b[i + (start - i)] == rest[start - i]);
    lemma_blanks_are_skipped(b, i, blanks.len() as int);
    let inside = joined(items) + seq![0x5du8] + tail;
    assert(from(b, start + 1) =~= inside) by {
        assert forall|k: int| 0 <= k < inside.len() implies b[start + 1 + k] == inside[k] by {
            assert(b[i + (start + 1 + k - i)] == rest[start + 1 + k - i]);
        }
    }
    lemma_items_are_read(b, start + 1, items, tail);
}

/// Of a list the first sixteen items are kept, in their order.
pub proof fn lemma_kept(list: Seq<Seq<u8>>)
    ensures
        parser::kept(list).len() <= 16,
        parser::kept(list).len() == list.len() || parser::kept(list).len() == 16 && list.len() > 16,
        forall|k: int|
            0 <= k < parser::kept(list).len() ==> #[trigger] parser::kept(list)[k] == list[k],
{
}

/// Digits count by their places: a run of digits in front of another counts as often as
/// the places of the other say.
pub proof fn lemma_decimal_joined(a: Seq<u8>, b: Seq<u8>)
    requires
        all_digits(a),
        all_digits(b),
    ensures
        parser::decimal(a + b) == parser::decimal(a) * pow(10, b.len()) + parser::decimal(b),
        b.len() == 1 ==> parser::decimal(b) == b[0] - 0x30,
    decreases b.len(),
{
    vstd::arithmetic::power::lemma_pow0(10);
    if b.len() == 0 {
        assert(a + b =~= a);
    } else {
        let front = b.drop_last();
        assert((a + b).drop_last() =~= a + front);
        assert((a + b).last() == b.last());
        assert forall|j: int| 0 <= j < front.len() implies 0x30 <= #[trigger] front[j] <= 0x39 by {
            assert(front[j] == b[j]);
        }
        lemma_decimal_joined(a, front);
        lemma_decimal_is_bounded(a);
        lemma_decimal_is_bounded(front);
        lemma_decimal_is_bounded(a + front);
        assert(b.last() == b[b.len() - 1]);
        let high = parser::decimal(a);
        let p = pow(10, front.len());
        vstd::arithmetic::power::lemma_pow1(10);
        assert(pow(10, b.len()) == 10 * p) by {
            vstd::arithmetic::power::lemma_pow_adds(10, 1, front.len());
        }
        assert((high * p) * 10 == high * (10 * p)) by (nonlinear_arith);
        if b.len() == 1 {
            assert(front =~= Seq::empty());
        }
    }
}

/// A run of digits writes a number of so many places.
pub proof fn lemma_decimal_is_bounded(digits: Seq<u8>)
    requires
        all_digits(digits),
    ensures
        0 <= parser::decimal(digits) < pow(10, digits.len()),
    decreases digits.len(),
{
    vstd::arithmetic::power::lemma_pow0(10);
    if digits.len() > 0 {
        let front = digits.drop_last();
        assert forall|j: int| 0 <= j < front.len() implies 0x30 <= #[trigger] front[j] <= 0x39 by {
            assert(front[j] == digits[j]);
        }
        lemma_decimal_is_bounded(front);
        assert(digits.last() == digits[digits.len() - 1]);
        vstd::arithmetic::power::lemma_pow1(10);
        vstd::arithmetic::power::lemma_pow_adds(10, 1, front.len());
    }
}

/// A string up to its closing quote, in which a backslash takes the byte behind it
/// along.
pub open spec fn spoken(s: Seq<u8>) -> bool
    decreases s.len(),
{
    if s.len() == 0 {
        true
    } else if s[0] == 0x5c {
        s.len() >= 2 && spoken(s.skip(2))
    } else {
        s[0] != 0x22 && spoken(s.skip(1))
    }
}

/// A text in which every brace has its counterpart, braces in strings set aside.
pub open spec fn balanced(s: Seq<u8>) -> bool
    decreases s.len(),
{
    if s.len() == 0 {
        true
    } else if s[0] == 0x22 {
        exists|n: int|
            #![trigger s.subrange(1, n)]
            1 <= n < s.len() && s[n] == 0x22 && spoken(s.subrange(1, n)) && balanced(s.skip(n + 1))
    } else if s[0] == 0x7b {
        exists|n: int|
            #![trigger s.subrange(1, n)]
            1 <= n < s.len() && s[n] == 0x7d && balanced(s.subrange(1, n)) && balanced(
                s.skip(n + 1),
            )
    } else {
        s[0] != 0x7d && balanced(s.skip(1))
    }
}

proof fn lemma_spoken_is_passed(b: Seq<u8>, i: int, s: Seq<u8>)
    requires
        0 <= i,
        i + s.len() < b.len(),
        b.subrange(i, i + s.len()) == s,
        b[i + s.len()] == 0x22,
        spoken(s),
    ensures
        parser::quoted_end(b, i) == Some(i + s.len() + 1),
    decreases s.len(),
{
    if s.len() > 0 {
        assert(b[i] == b.subrange(i, i + s.len())[0]);
        let step: int = if s[0] == 0x5c {
            2
        } else {
            1
        };
        let rest = s.skip(step);
        assert(b.subrange(i + step, i + step + rest.len()) =~= rest) by {
            assert forall|k: int| 0 <= k < rest.len() implies b[i + step + k] == rest[k] by {
                assert(b[i + step + k] == b.subrange(i, i + s.len())[step + k]);
            }
        }
        lemma_spoken_is_passed(b, i + step, rest);
    }
}

/// Looking for the closing brace, a text with all its braces matched is passed over.
pub proof fn lemma_balanced_is_passed(b: Seq<u8>, i: int, s: Seq<u8>, depth: nat)
    requires
        0 <= i,
        i + s.len() <= b.len(),
        b.subrange(i, i + s.len()) == s,
        balanced(s),
    ensures
        parser::closing_brace(b, i, depth) == parser::closing_brace(b, i + s.len(), depth),
    decreases s.len(),
{
    if s.len() > 0 {
        assert forall|k: int| 0 <= k < s.len() implies #[trigger] b[i + k] == s[k] by {
            assert(b[i + k] == b.subrange(i, i + s.len())[k]);
        }
        assert(b[i + 0] == s[0]);
        if s[0] == 0x22 {
            let n = choose|n: int|
                #![trigger s.subrange(1, n)]
                1 <= n < s.len() && s[n] == 0x22 && spoken(s.subrange(1, n)) && balanced(
                    s.skip(n + 1),
                );
            let inside = s.subrange(1, n);
            assert(b.subrange(i + 1, i + 1 + inside.len()) =~= inside) by {
                assert forall|k: int| 0 <= k < inside.len() implies b[i + 1 + k] == inside[k] by {
                    assert(b[i + (1 + k)] == s[1 + k]);
                }
            }
            assert(b[i + n] == s[n]);
            lemma_spoken_is_passed(b, i + 1, inside);
            let rest = s.skip(n + 1);
            assert(b.subrange(i + n + 1, i + n + 1 + rest.len()) =~= rest) by {
                assert forall|k: int| 0 <= k < rest.len() implies b[i + n + 1 + k] == rest[k] by {
                    assert(b[i + (n + 1 + k)] == s[n + 1 + k]);
                }
            }
            lemma_balanced_is_passed(b, i + n + 1, rest, depth);
        } else if s[0] == 0x7b {
            let n = choose|n: int|
                #![trigger s.subrange(1, n)]
                1 <= n < s.len() && s[n] == 0x7d && balanced(s.subrange(1, n)) && balanced(
                    s.skip(n + 1),
                );
            let inside = s.subrange(1, n);
            assert(b.subrange(i + 1, i + 1 + inside.len()) =~= inside) by {
                assert forall|k: int| 0 <= k < inside.len() implies b[i + 1 + k] == inside[k] by {
                    assert(b[i + (1 + k)] == s[1 + k]);
                }
            }
            lemma_balanced_is_passed(b, i + 1, inside, depth + 1);
            assert(b[i + n] == s[n]);
            let rest = s.skip(n + 1);
            assert(b.subrange(i + n + 1, i + n + 1 + rest.len()) =~= rest) by {
                assert forall|k: int| 0 <= k < rest.len() implies b[i + n + 1 + k] == rest[k] by {
                    assert(b[i + (n + 1 + k)] == s[n + 1 + k]);
                }
            }
            lemma_balanced_is_passed(b, i + n + 1, rest, depth);
        } else {
            let rest = s.skip(1);
            assert(b.subrange(i + 1, i + 1 + rest.len()) =~= rest) by {
                assert forall|k: int| 0 <= k < rest.len() implies b[i + 1 + k] == rest[k] by {
                    assert(b[i + (1 + k)] == s[1 + k]);
                }
            }
            lemma_balanced_is_passed(b, i + 1, rest, depth);
        }
    }
}

/// The object that is written behind its name, braces in it matched, is the text
/// between its braces.
pub proof fn lemma_object_is_read(
    b: Seq<u8>,
    name: Seq<u8>,
    at: int,
    blanks: Seq<u8>,
    inside: Seq<u8>,
    tail: Seq<u8>,
)
    requires
        bytes::first_occurs_at(b, name, at),
        from(b, at + name.len()) == blanks + seq![0x7bu8] + inside + seq![0x7du8] + tail,
        all_blank(blanks),
        balanced(inside),
    ensures
        parser::object_of(b, name) == Some(inside),
{
    bytes::lemma_find(b, name, at);
    let i = at + name.len();
    let rest = from(b, i);
    let open = i + blanks.len();
    let close = open + 1 + inside.len();
    assert(b.len() - i == rest.len() == blanks.len() + inside.len() + tail.len() + 2);
    assert forall|k: int| 0 <= k < rest.len() implies #[trigger] b[i + k] == rest[k] by {}
    assert forall|j: int| i <= j < open implies blank(#[trigger] b[j]) by {
        assert(b[i + (j - i)] == rest[j - i]);
        assert(blank(blanks[j - i]));
    }
    assert(b[i + (open - i)] == rest[open - i]);
    assert(b[i + (close - i)] == rest[close - i]);
    lemma_blanks_are_skipped(b, i, blanks.len() as int);
    assert(b.subrange(open + 1, close) =~= inside) by {
        assert forall|k: int| 0 <= k < inside.len() implies b[open + 1 + k] == inside[k] by {
            assert(b[i + (open + 1 + k - i)] == rest[open + 1 + k - i]);
        }
    }
    lemma_balanced_is_passed(b, open + 1, inside, 0);
}

/// Each field of a request is what is written behind its own key in its own object,
/// whatever the other fields are.
pub proof fn lemma_fields(b: Seq<u8>)
    requires
        parser::payload_of(b) is Some,
    ensures
        ({
            let v = parser::payload_of(b)->0;
            let transaction = parser::object_of(b, bytes::ascii("\"transaction\":"@));
            let customer = parser::object_of(b, bytes::ascii("\"customer\":"@));
            let merchant = parser::object_of(b, bytes::ascii("\"merchant\":"@));
            let terminal = parser::object_of(b, bytes::ascii("\"terminal\":"@));
            &&& transaction is Some && customer is Some && merchant is Some && terminal is Some
            &&& parser::number_field(transaction->0, bytes::ascii("\"amount\":"@)) == Some(
                v.amount,
            )
            &&& parser::u32_field(transaction->0, bytes::ascii("\"installments\":"@)) == Some(
                v.installments,
            )
            &&& parser::front_field(transaction->0, bytes::ascii("\"requested_at\":"@), 20)
                == Some(v.requested_at)
            &&& parser::number_field(customer->0, bytes::ascii("\"avg_amount\":"@)) == Some(
                v.avg_amount,
            )
            &&& parser::u32_field(customer->0, bytes::ascii("\"tx_count_24h\":"@)) == Some(
                v.tx_count_24h,
            )
            &&& parser::list_field(customer->0, bytes::ascii("\"known_merchants\":"@)) == Some(
                v.known_merchants,
            )
            &&& parser::string_field(merchant->0, bytes::ascii("\"id\":"@)) == Some(v.merchant_id)
            &&& parser::front_field(merchant->0, bytes::ascii("\"mcc\":"@), 4) == Some(v.mcc)
            &&& parser::number_field(merchant->0, bytes::ascii("\"avg_amount\":"@)) == Some(
                v.merchant_avg_amount,
            )
            &&& parser::bool_field(terminal->0, bytes::ascii("\"is_online\":"@)) == Some(
                v.is_online,
            )
            &&& parser::bool_field(terminal->0, bytes::ascii("\"card_present\":"@)) == Some(
                v.card_present,
            )
            &&& parser::number_field(terminal->0, bytes::ascii("\"km_from_home\":"@)) == Some(
                v.km_from_home,
            )
        }),
{
}

/// The previous transaction of a request is what is written in its object, and there is
/// none exactly where `null` stands in the object's place.
pub proof fn lemma_last_transaction(b: Seq<u8>)
    requires
        parser::payload_of(b) is Some,
    ensures
        ({
            let v = parser::payload_of(b)->0;
            let name = bytes::ascii("\"last_transaction\":"@);
            let object = parser::object_of(b, name);
            let value = parser::value_at(b, name);
            &&& value is Some
            &&& v.last_transaction is None <==> bytes::occurs_at(
                b,
                seq![0x6eu8, 0x75, 0x6c, 0x6c],
                parser::ws_end(b, value->0),
            )
            &&& v.last_transaction matches Some(last) ==> {
                &&& object is Some
                &&& parser::front_field(object->0, bytes::ascii("\"timestamp\":"@), 20) == Some(
                    last.timestamp,
                )
                &&& parser::number_field(object->0, bytes::ascii("\"km_from_current\":"@))
                    == Some(last.km_from_current)
            }
        }),
{
    reveal_strlit("null");
    assert(bytes::ascii("null"@) =~= seq![0x6eu8, 0x75, 0x6c, 0x6c]);
}

/// The value of a field stands behind the first occurrence of its key, and is read from
/// there.
pub proof fn lemma_field_values(object: Seq<u8>, key: Seq<u8>, at: int)
    requires
        bytes::first_occurs_at(object, key, at),
    ensures
        parser::number_field(object, key) == parser::number_at(object, at + key.len()),
        parser::u32_field(object, key) == parser::u32_at(object, at + key.len()),
        parser::bool_field(object, key) == parser::bool_at(object, at + key.len()),
        parser::string_field(object, key) is Some <==> parser::string_at(
            object,
            at + key.len(),
        ) is Some,
        parser::string_at(object, at + key.len()) is Some ==> parser::string_field(object, key)
            == Some((parser::string_at(object, at + key.len())->0).0),
        parser::list_field(object, key) is Some <==> parser::list_at(
            object,
            at + key.len(),
        ) is Some,
        parser::list_at(object, at + key.len()) is Some ==> parser::list_field(object, key) == Some(
            parser::kept(parser::list_at(object, at + key.len())->0),
        ),
{
    bytes::lemma_find(object, key, at);
}

/// Of a timestamp or a code exactly the first bytes are taken, and a shorter one is
/// refused.
pub proof fn lemma_front_field(object: Seq<u8>, key: Seq<u8>, n: int)
    requires
        n >= 0,
    ensures
        parser::front_field(object, key, n) is Some <==> parser::string_field(object, key) is Some
            && (parser::string_field(object, key)->0).len() >= n,
        parser::front_field(object, key, n) matches Some(t) ==> {
            &&& t.len() == n
            &&& forall|k: int|
                0 <= k < n ==> #[trigger] t[k] == (parser::string_field(object, key)->0)[k]
        },
{
}

/// A flag of the terminal holds where `true` stands behind its key, and does not where
/// `false` does. The other flag has no say in it.
pub proof fn lemma_flag_is_read(
    b: Seq<u8>,
    at: int,
    blanks: Seq<u8>,
    value: bool,
    tail: Seq<u8>,
)
    requires
        parser::payload_of(b) is Some,
        all_blank(blanks),
    ensures
        ({
            let terminal = parser::object_of(b, bytes::ascii("\"terminal\":"@))->0;
            let text = blanks + (if value {
                seq![0x74u8, 0x72, 0x75, 0x65]
            } else {
                seq![0x66u8, 0x61, 0x6c, 0x73, 0x65]
            }) + tail;
            let online = bytes::ascii("\"is_online\":"@);
            let present = bytes::ascii("\"card_present\":"@);
            &&& bytes::first_occurs_at(terminal, online, at) && from(terminal, at + online.len())
                == text ==> (parser::payload_of(b)->0).is_online == value
            &&& bytes::first_occurs_at(terminal, present, at) && from(terminal, at + present.len())
                == text ==> (parser::payload_of(b)->0).card_present == value
        }),
{
    let terminal = parser::object_of(b, bytes::ascii("\"terminal\":"@))->0;
    let text = blanks + (if value {
        seq![0x74u8, 0x72, 0x75, 0x65]
    } else {
        seq![0x66u8, 0x61, 0x6c, 0x73, 0x65]
    }) + tail;
    let online = bytes::ascii("\"is_online\":"@);
    let present = bytes::ascii("\"card_present\":"@);
    lemma_fields(b);
    if bytes::first_occurs_at(terminal, online, at) && from(terminal, at + online.len()) == text {
        lemma_field_values(terminal, online, at);
        lemma_boolean_is_read(terminal, at + online.len(), blanks, value, tail);
    }
    if bytes::first_occurs_at(terminal, present, at) && from(terminal, at + present.len())
        == text {
        lemma_field_values(terminal, present, at);
        lemma_boolean_is_read(terminal, at + present.len(), blanks, value, tail);
    }
}

/// A request in which every object and every field can be read is accepted.
pub proof fn lemma_readable_fields_are_accepted(
    b: Seq<u8>,
    transaction: Seq<u8>,
    customer: Seq<u8>,
    merchant: Seq<u8>,
    terminal: Seq<u8>,
)
    requires
        parser::object_of(b, bytes::ascii("\"transaction\":"@)) == Some(transaction),
        parser::object_of(b, bytes::ascii("\"customer\":"@)) == Some(customer),
        parser::object_of(b, bytes::ascii("\"merchant\":"@)) == Some(merchant),
        parser::object_of(b, bytes::ascii("\"terminal\":"@)) == Some(terminal),
        parser::number_field(transaction, bytes::ascii("\"amount\":"@)) is Some,
        parser::u32_field(transaction, bytes::ascii("\"installments\":"@)) is Some,
        parser::front_field(transaction, bytes::ascii("\"requested_at\":"@), 20) is Some,
        parser::number_field(customer, bytes::ascii("\"avg_amount\":"@)) is Some,
        parser::u32_field(customer, bytes::ascii("\"tx_count_24h\":"@)) is Some,
        parser::list_field(customer, bytes::ascii("\"known_merchants\":"@)) is Some,
        parser::string_field(merchant, bytes::ascii("\"id\":"@)) is Some,
        parser::front_field(merchant, bytes::ascii("\"mcc\":"@), 4) is Some,
        parser::number_field(merchant, bytes::ascii("\"avg_amount\":"@)) is Some,
        parser::bool_field(terminal, bytes::ascii("\"is_online\":"@)) is Some,
        parser::bool_field(terminal, bytes::ascii("\"card_present\":"@)) is Some,
        parser::number_field(terminal, bytes::ascii("\"km_from_home\":"@)) is Some,
        previous_is_readable(b),
    ensures
        parser::payload_of(b) is Some,
{
    reveal_strlit("null");
    assert(bytes::ascii("null"@) =~= seq![0x6eu8, 0x75, 0x6c, 0x6c]);
}

/// Behind the name of the previous transaction stands `null`, or an object with both
/// fields.
pub open spec fn previous_is_readable(b: Seq<u8>) -> bool {
    let name = bytes::ascii("\"last_transaction\":"@);
    let object = parser::object_of(b, name);
    ||| parser::value_at(b, name) is Some && bytes::occurs_at(
        b,
        seq![0x6eu8, 0x75, 0x6c, 0x6c],
        parser::ws_end(b, parser::value_at(b, name)->0),
    )
    ||| object is Some && parser::front_field(
        object->0,
        bytes::ascii("\"timestamp\":"@),
        20,
    ) is Some && parser::number_field(
        object->0,
        bytes::ascii("\"km_from_current\":"@),
    ) is Some
}

/// Two requests with the same object of a name say the same of what stands in it,
/// however they differ elsewhere.
pub proof fn lemma_objects_do_not_mix(b: Seq<u8>, c: Seq<u8>)
    requires
        parser::payload_of(b) is Some,
        parser::payload_of(c) is Some,
    ensures
        ({
            let v = parser::payload_of(b)->0;
            let w = parser::payload_of(c)->0;
            let transaction = bytes::ascii("\"transaction\":"@);
            let customer = bytes::ascii("\"customer\":"@);
            let merchant = bytes::ascii("\"merchant\":"@);
            let terminal = bytes::ascii("\"terminal\":"@);
            &&& parser::object_of(b, transaction) == parser::object_of(c, transaction) ==> v.amount
                == w.amount && v.installments == w.installments && v.requested_at
                == w.requested_at
            &&& parser::object_of(b, customer) == parser::object_of(c, customer) ==> v.avg_amount
                == w.avg_amount && v.tx_count_24h == w.tx_count_24h && v.known_merchants
                == w.known_merchants
            &&& parser::object_of(b, merchant) == parser::object_of(c, merchant) ==> v.merchant_id
                == w.merchant_id && v.mcc == w.mcc && v.merchant_avg_amount
                == w.merchant_avg_amount
            &&& parser::object_of(b, terminal) == parser::object_of(c, terminal) ==> v.is_online
                == w.is_online && v.card_present == w.card_present && v.km_from_home
                == w.km_from_home
        }),
{
    lemma_fields(b);
    lemma_fields(c);
}

/// Changing the text of one field changes that field only: two requests whose terminals
/// read alike but for one key, and whose other objects are the same, differ at most in
/// the field of that key.
pub proof fn lemma_one_flag_changes(b: Seq<u8>, c: Seq<u8>)
    requires
        parser::payload_of(b) is Some,
        parser::payload_of(c) is Some,
        ({
            let terminal = bytes::ascii("\"terminal\":"@);
            let at_b = parser::object_of(b, terminal)->0;
            let at_c = parser::object_of(c, terminal)->0;
            let present = bytes::ascii("\"card_present\":"@);
            let km = bytes::ascii("\"km_from_home\":"@);
            &&& parser::bool_field(at_b, present) == parser::bool_field(at_c, present)
            &&& parser::number_field(at_b, km) == parser::number_field(at_c, km)
        }),
        parser::object_of(b, bytes::ascii("\"transaction\":"@)) == parser::object_of(
            c,
            bytes::ascii("\"transaction\":"@),
        ),
        parser::object_of(b, bytes::ascii("\"customer\":"@)) == parser::object_of(
            c,
            bytes::ascii("\"customer\":"@),
        ),
        parser::object_of(b, bytes::ascii("\"merchant\":"@)) == parser::object_of(
            c,
            bytes::ascii("\"merchant\":"@),
        ),
        (parser::payload_of(b)->0).last_transaction == (parser::payload_of(c)->0).last_transaction,
    ensures
        parser::payload_of(c)->0 == (PayloadView {
            is_online: (parser::payload_of(c)->0).is_online,
            ..parser::payload_of(b)->0
        }),
{
    lemma_fields(b);
    lemma_fields(c);
}

/// What is parsed from a request is what is written in it, field by field.
pub proof fn lemma_parsed_fields(buf: &[u8], parsed: Option<TransactionPayload>)
    requires
        call_ensures(parser::parse, (buf,), parsed),
    ensures
        parsed is Some <==> parser::payload_of(buf@) is Some,
        parsed matches Some(p) ==> {
            let transaction = parser::object_of(buf@, bytes::ascii("\"transaction\":"@))->0;
            let customer = parser::object_of(buf@, bytes::ascii("\"customer\":"@))->0;
            let merchant = parser::object_of(buf@, bytes::ascii("\"merchant\":"@))->0;
            let terminal = parser::object_of(buf@, bytes::ascii("\"terminal\":"@))->0;
            let previous = parser::object_of(buf@, bytes::ascii("\"last_transaction\":"@))->0;
            &&& parser::number_field(transaction, bytes::ascii("\"amount\":"@)) == Some(p.amount@)
            &&& parser::u32_field(transaction, bytes::ascii("\"installments\":"@)) == Some(
                p.installments,
            )
            &&& parser::front_field(transaction, bytes::ascii("\"requested_at\":"@), 20) == Some(
                p.requested_at@,
            )
            &&& parser::number_field(customer, bytes::ascii("\"avg_amount\":"@)) == Some(
                p.avg_amount@,
            )
            &&& parser::u32_field(customer, bytes::ascii("\"tx_count_24h\":"@)) == Some(
                p.tx_count_24h,
            )
            &&& p.known_merchants_len <= 16
            &&& parser::list_field(customer, bytes::ascii("\"known_merchants\":"@)) == Some(
                Seq::new(p.known_merchants_len as nat, |k: int| p.known_merchants@[k]@),
            )
            &&& parser::string_field(merchant, bytes::ascii("\"id\":"@)) == Some(p.merchant_id@)
            &&& parser::front_field(merchant, bytes::ascii("\"mcc\":"@), 4) == Some(p.mcc@)
            &&& parser::number_field(merchant, bytes::ascii("\"avg_amount\":"@)) == Some(
                p.merchant_avg_amount@,
            )
            &&& parser::bool_field(terminal, bytes::ascii("\"is_online\":"@)) == Some(p.is_online)
            &&& parser::bool_field(terminal, bytes::ascii("\"card_present\":"@)) == Some(
                p.card_present,
            )
            &&& parser::number_field(terminal, bytes::ascii("\"km_from_home\":"@)) == Some(
                p.km_from_home@,
            )
            &&& p.has_last_transaction == (p.last_tx_timestamp is Some)
            &&& p.has_last_transaction == (p.km_from_current is Some)
            &&& p.has_last_transaction ==> parser::front_field(
                previous,
                bytes::ascii("\"timestamp\":"@),
                20,
            ) == Some(p.last_tx_timestamp->0@)
            &&& p.has_last_transaction ==> parser::number_field(
                previous,
                bytes::ascii("\"km_from_current\":"@),
            ) == Some(p.km_from_current->0@)
        },
{
    if let Some(p) = parsed {
        lemma_fields(buf@);
        lemma_last_transaction(buf@);
        assert(p@.known_merchants =~= Seq::new(
            p.known_merchants_len as nat,
            |k: int| p.known_merchants@[k]@,
        ));
    }
}

} // verus!
