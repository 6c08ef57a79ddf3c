//! Extraction of the fields of a fraud-score request.
//!
//! The payload has a fixed structure and nesting:
//!
//! ```json
//! {
//!   "id": "request-id",
//!   "transaction": { "amount", "installments", "requested_at" },
//!   "customer":    { "avg_amount", "tx_count_24h", "known_merchants" },
//!   "merchant":    { "id", "mcc", "avg_amount" },
//!   "terminal":    { "is_online", "card_present", "km_from_home" },
//!   "last_transaction": null | { "timestamp", "km_from_current" }
//! }
//! ```
//!
//! Two keys (`avg_amount` and `id`) stand in more than one object, so each
//! object is located first and its fields are looked up between its braces. All
//! borrowed data is a slice of the request.
use crate::bytes;
use vstd::prelude::*;

verus! {

/// Maximum number of known merchants kept for the membership check.
pub const MAX_MERCHANTS: usize = 16;

/// A decimal number as it is written: sign, digits before the point, and digits
/// behind it.
#[derive(Clone, Copy, Debug)]
pub struct Number<'a> {
    pub negative: bool,
    pub whole: &'a [u8],
    pub fraction: &'a [u8],
}

/// What a [`Number`] says.
pub struct NumberView {
    pub negative: bool,
    pub whole: Seq<u8>,
    pub fraction: Seq<u8>,
}

impl<'a> View for Number<'a> {
    type V = NumberView;

    open spec fn view(&self) -> NumberView {
        NumberView {
            negative: self.negative,
            whole: self.whole@,
            fraction: self.fraction@,
        }
    }
}

/// A space, tab, line feed or carriage return.
pub open spec fn is_ws(b: u8) -> bool {
    b == 0x20 || b == 0x09 || b == 0x0a || b == 0x0d
}

/// A decimal digit.
pub open spec fn is_digit(b: u8) -> bool {
    0x30 <= b <= 0x39
}

/// Where the white space that starts at `i` ends.
pub open spec fn ws_end(b: Seq<u8>, i: int) -> int
    decreases b.len() - i,
{
    if 0 <= i < b.len() && is_ws(b[i]) {
        ws_end(b, i + 1)
    } else {
        i
    }
}

/// Where the digits that start at `i` end.
pub open spec fn digits_end(b: Seq<u8>, i: int) -> int
    decreases b.len() - i,
{
    if 0 <= i < b.len() && is_digit(b[i]) {
        digits_end(b, i + 1)
    } else {
        i
    }
}

/// The number that a run of digits stands for.
pub open spec fn decimal(digits: Seq<u8>) -> nat
    decreases digits.len(),
{
    if digits.len() == 0 {
        0
    } else {
        (decimal(digits.drop_last()) * 10 + (digits.last() - 0x30)) as nat
    }
}

/// White space ends where the first other byte stands.
pub proof fn lemma_ws_end(b: Seq<u8>, i: int)
    requires
        0 <= i <= b.len(),
    ensures
        i <= ws_end(b, i) <= b.len(),
        ws_end(b, i) < b.len() ==> !is_ws(b[ws_end(b, i)]),
        forall|j: int| i <= j < ws_end(b, i) ==> is_ws(#[trigger] b[j]),
    decreases b.len() - i,
{
    if i < b.len() && is_ws(b[i]) {
        lemma_ws_end(b, i + 1);
    }
}

/// A run of digits ends where the first other byte stands.
pub proof fn lemma_digits_end(b: Seq<u8>, i: int)
    requires
        0 <= i <= b.len(),
    ensures
        i <= digits_end(b, i) <= b.len(),
        digits_end(b, i) < b.len() ==> !is_digit(b[digits_end(b, i)]),
        forall|j: int| i <= j < digits_end(b, i) ==> is_digit(#[trigger] b[j]),
    decreases b.len() - i,
{
    if i < b.len() && is_digit(b[i]) {
        lemma_digits_end(b, i + 1);
    }
}

/// Skips white space. There is none behind the end.
pub fn skip_ws(b: &[u8], from: usize) -> (end: usize)
    ensures
        end == ws_end(b@, from as int),
        from <= end,
        from <= b.len() ==> end <= b.len(),
{
    let mut i: usize = from;
    while i < b.len() && (b[i] == 0x20 || b[i] == 0x09 || b[i] == 0x0a || b[i] == 0x0d)
        invariant
            from <= i,
            from <= b.len() ==> i <= b.len(),
            ws_end(b@, from as int) == ws_end(b@, i as int),
        decreases b.len() - i,
    {
        i += 1;
    }
    i
}

/// Skips digits. There are none behind the end.
pub fn skip_digits(b: &[u8], from: usize) -> (end: usize)
    ensures
        end == digits_end(b@, from as int),
        from <= end,
        from <= b.len() ==> end <= b.len(),
{
    let mut i: usize = from;
    while i < b.len() && 0x30 <= b[i] && b[i] <= 0x39
        invariant
            from <= i,
            from <= b.len() ==> i <= b.len(),
            digits_end(b@, from as int) == digits_end(b@, i as int),
        decreases b.len() - i,
    {
        i += 1;
    }
    i
}

/// Where the value of the first `key` starts.
pub open spec fn value_at(b: Seq<u8>, key: Seq<u8>) -> Option<int> {
    match bytes::find(b, key) {
        Some(p) => Some(p + key.len()),
        None => None,
    }
}

/// Finds where the value of `key` starts. The key includes its quotes and the colon.
pub fn value_start(b: &[u8], key: &'static str) -> (at: Option<usize>)
    requires
        key.is_ascii(),
    ensures
        match at {
            Some(p) => value_at(b@, bytes::ascii(key@)) == Some(p as int) && p <= b.len(),
            None => value_at(b@, bytes::ascii(key@)) is None,
        },
{
    match bytes::find_literal(b, key) {
        Some(p) => {
            assert(p + bytes::ascii(key@).len() <= b.len());
            Some(p + bytes::ascii_bytes(key).len())
        },
        None => None,
    }
}

/// The number written at `i`: white space, an optional minus sign, digits, and
/// optionally a point and digits. At least one digit is there.
pub open spec fn number_at(b: Seq<u8>, i: int) -> Option<NumberView> {
    let start = ws_end(b, i);
    let negative = start < b.len() && b[start] == 0x2d;
    let whole = if negative {
        start + 1
    } else {
        start
    };
    let whole_end = digits_end(b, whole);
    let point = whole_end < b.len() && b[whole_end] == 0x2e;
    let fraction = if point {
        whole_end + 1
    } else {
        whole_end
    };
    let fraction_end = if point {
        digits_end(b, fraction)
    } else {
        fraction
    };
    if whole == whole_end && fraction == fraction_end {
        None
    } else {
        Some(
            NumberView {
                negative,
                whole: b.subrange(whole, whole_end),
                fraction: b.subrange(fraction, fraction_end),
            },
        )
    }
}

/// Parses a number (optionally signed, no exponent).
pub fn parse_number<'a>(b: &'a [u8], i: usize) -> (number: Option<Number<'a>>)
    ensures
        match number {
            Some(n) => number_at(b@, i as int) == Some(n@),
            None => number_at(b@, i as int) is None,
        },
{
    let start = skip_ws(b, i);
    let negative = start < b.len() && b[start] == 0x2d;
    let whole: usize = if negative {
        start + 1
    } else {
        start
    };
    let whole_end = skip_digits(b, whole);
    let point = whole_end < b.len() && b[whole_end] == 0x2e;
    let fraction: usize = if point {
        whole_end + 1
    } else {
        whole_end
    };
    let fraction_end: usize = if point {
        skip_digits(b, fraction)
    } else {
        fraction
    };
    if whole == whole_end && fraction == fraction_end {
        return None;
    }
    Some(
        Number {
            negative,
            whole: &b[whole..whole_end],
            fraction: &b[fraction..fraction_end],
        },
    )
}

/// The unsigned integer written at `i`, modulo the range of 32 bits.
pub open spec fn u32_at(b: Seq<u8>, i: int) -> Option<u32> {
    let start = ws_end(b, i);
    let end = digits_end(b, start);
    if start == end {
        None
    } else {
        Some((decimal(b.subrange(start, end)) % 0x1_0000_0000) as u32)
    }
}

proof fn lemma_wrapping_step(high: nat, v: u32, d: u32)
    requires
        v == high % 0x1_0000_0000,
        d <= 9,
    ensures
        ((v * 10) % 0x1_0000_0000 + d) % 0x1_0000_0000 == (high * 10 + d) % 0x1_0000_0000,
{
}

/// Parses an unsigned integer, wrapping around where it exceeds 32 bits.
pub fn parse_u32(b: &[u8], i: usize) -> (value: Option<u32>)
    ensures
        value == u32_at(b@, i as int),
{
    let start = skip_ws(b, i);
    let end = skip_digits(b, start);
    if start == end {
        return None;
    }
    let mut v: u32 = 0;
    proof {
        lemma_digits_end(b@, start as int);
    }
    for k in start..end
        invariant
            start <= end <= b.len(),
            forall|j: int| start <= j < end ==> is_digit(#[trigger] b@[j]),
            v == decimal(b@.subrange(start as int, k as int)) % 0x1_0000_0000,
    {
        let d: u32 = (b[k] - 0x30) as u32;
        let ghost head = b@.subrange(start as int, k as int);
        proof {
            assert(b@.subrange(start as int, k + 1).drop_last() =~= head);
            lemma_wrapping_step(decimal(head), v, d);
        }
        v = v.wrapping_mul(10).wrapping_add(d);
    }
    Some(v)
}

/// The boolean written at `i`.
pub open spec fn bool_at(b: Seq<u8>, i: int) -> Option<bool> {
    let start = ws_end(b, i);
    if bytes::occurs_at(b, bytes::ascii("true"@), start) {
        Some(true)
    } else if bytes::occurs_at(b, bytes::ascii("false"@), start) {
        Some(false)
    } else {
        None
    }
}

/// Parses a boolean.
pub fn parse_bool(b: &[u8], i: usize) -> (value: Option<bool>)
    requires
        i <= b.len(),
    ensures
        value == bool_at(b@, i as int),
{
    proof {
        reveal_strlit("true");
        reveal_strlit("false");
    }
    let start = skip_ws(b, i);
    if bytes::literal_at(b, start, "true") {
        Some(true)
    } else if bytes::literal_at(b, start, "false") {
        Some(false)
    } else {
        None
    }
}

/// The string written at `i`, without its quotes, and the position behind it. A
/// string ends at the next quote.
pub open spec fn string_at(b: Seq<u8>, i: int) -> Option<(Seq<u8>, int)> {
    let quote = ws_end(b, i);
    if quote < b.len() && b[quote] == 0x22 {
        match bytes::find_byte(b.subrange(quote + 1, b.len() as int), 0x22) {
            Some(n) => Some((b.subrange(quote + 1, quote + 1 + n), quote + n + 2)),
            None => None,
        }
    } else {
        None
    }
}

/// Parses a string. The position just behind the closing quote is returned too.
pub fn parse_string<'a>(b: &'a [u8], i: usize) -> (string: Option<(&'a [u8], usize)>)
    ensures
        match string {
            Some((s, next)) => string_at(b@, i as int) == Some((s@, next as int)) && i < next
                <= b.len(),
            None => string_at(b@, i as int) is None,
        },
{
    let quote = skip_ws(b, i);
    if quote >= b.len() || b[quote] != 0x22 {
        return None;
    }
    let start: usize = quote + 1;
    match bytes::find_first_byte(&b[start..b.len()], 0x22) {
        Some(n) => Some((&b[start..start + n], start + n + 1)),
        None => None,
    }
}

/// The position behind a string is behind its start.
pub proof fn lemma_string_at_advances(b: Seq<u8>, i: int)
    requires
        0 <= i <= b.len(),
        string_at(b, i) is Some,
    ensures
        i < (string_at(b, i)->0).1 <= b.len(),
{
    lemma_ws_end(b, i);
    let rest = b.subrange(ws_end(b, i) + 1, b.len() as int);
    let n = choose|at: int| bytes::first_byte_at(rest, 0x22, at);
    assert(bytes::first_byte_at(rest, 0x22, n));
}

/// The strings of the list whose items start at `i`, up to the closing bracket.
/// Commas between them may be missing or repeated.
pub open spec fn strings_at(b: Seq<u8>, i: int) -> Option<Seq<Seq<u8>>>
    decreases b.len() - i,
{
    let start = ws_end(b, i);
    if !(0 <= i <= b.len()) || start >= b.len() {
        None
    } else if b[start] == 0x5d {
        Some(Seq::empty())
    } else if b[start] == 0x2c {
        proof {
            lemma_ws_end(b, i);
        }
        strings_at(b, start + 1)
    } else {
        match string_at(b, start) {
            Some((s, next)) => {
                proof {
                    lemma_ws_end(b, i);
                    lemma_string_at_advances(b, start);
                }
                match strings_at(b, next) {
                    Some(rest) => Some(seq![s] + rest),
                    None => None,
                }
            },
            None => None,
        }
    }
}

/// The list of strings written at `i`.
pub open spec fn list_at(b: Seq<u8>, i: int) -> Option<Seq<Seq<u8>>> {
    let start = ws_end(b, i);
    if start < b.len() && b[start] == 0x5b {
        strings_at(b, start + 1)
    } else {
        None
    }
}

/// The first strings of a list, as many as are kept.
pub open spec fn kept(list: Seq<Seq<u8>>) -> Seq<Seq<u8>> {
    if list.len() <= MAX_MERCHANTS {
        list
    } else {
        list.take(MAX_MERCHANTS as int)
    }
}

/// The byte strings in the first `n` places of an array.
pub open spec fn entries(array: [&[u8]; 16], n: int) -> Seq<Seq<u8>> {
    Seq::new(n as nat, |k: int| array@[k]@)
}

/// The places of an array from `n` on hold nothing.
pub open spec fn empty_from(array: [&[u8]; 16], n: int) -> bool {
    forall|k: int| n <= k < 16 ==> #[trigger] array@[k]@ == Seq::<u8>::empty()
}

/// Parses a list of strings, collecting up to [`MAX_MERCHANTS`] of them. The
/// places behind the last one are empty.
pub fn parse_string_array<'a>(b: &'a [u8], i: usize) -> (list: Option<([&'a [u8]; 16], usize)>)
    ensures
        match list {
            Some((items, n)) => {
                &&& list_at(b@, i as int) is Some
                &&& n <= MAX_MERCHANTS
                &&& entries(items, n as int) == kept(list_at(b@, i as int)->0)
                &&& empty_from(items, n as int)
            },
            None => list_at(b@, i as int) is None,
        },
{
    let open = skip_ws(b, i);
    if open >= b.len() || b[open] != 0x5b {
        return None;
    }
    let empty: &'a [u8] = &b[0..0];
    let mut items: [&'a [u8]; 16] = [empty; 16];
    let mut n: usize = 0;
    let mut at: usize = open + 1;
    let ghost mut seen: Seq<Seq<u8>> = Seq::empty();
    let ghost all = strings_at(b@, open + 1);
    proof {
        assert(entries(items, 0) =~= kept(seen));
        assert(empty@ =~= Seq::<u8>::empty());
        if let Some(rest) = strings_at(b@, at as int) {
            assert(seen + rest =~= rest);
        }
    }
    loop
        invariant
            at <= b.len(),
            n <= MAX_MERCHANTS,
            n == if seen.len() <= MAX_MERCHANTS {
                seen.len() as int
            } else {
                MAX_MERCHANTS as int
            },
            entries(items, n as int) == kept(seen),
            empty_from(items, n as int),
            list_at(b@, i as int) == all,
            all == match strings_at(b@, at as int) {
                Some(rest) => Some(seen + rest),
                None => None,
            },
        decreases b.len() - at,
    {
        let start = skip_ws(b, at);
        if start >= b.len() {
            return None;
        }
        if b[start] == 0x5d {
            assert(seen + Seq::<Seq<u8>>::empty() =~= seen);
            return Some((items, n));
        }
        if b[start] == 0x2c {
            at = start + 1;
        } else {
            proof {
                lemma_ws_end(b@, start as int);
                lemma_ws_end(b@, at as int);
            }
            match parse_string(b, start) {
                Some((s, next)) => {
                    proof {
                        if let Some(rest) = strings_at(b@, next as int) {
                            assert(seen + (seq![s@] + rest) =~= seen.push(s@) + rest);
                        }
                    }
                    let ghost before = items;
                    if n < MAX_MERCHANTS {
                        items[n] = s;
                        n += 1;
                    }
                    proof {
                        assert(entries(items, n as int) =~= kept(seen.push(s@))) by {
                            assert(forall|k: int|
                                0 <= k < seen.len() && k < MAX_MERCHANTS ==> entries(
                                    before,
                                    if seen.len() <= MAX_MERCHANTS {
                                        seen.len() as int
                                    } else {
                                        MAX_MERCHANTS as int
                                    },
                                )[k] == #[trigger] seen[k]);
                        }
                        seen = seen.push(s@);
                    }
                    at = next;
                },
                None => {
                    return None;
                },
            }
        }
    }
}

/// The first `n` bytes, where there are that many.
pub open spec fn front(s: Seq<u8>, n: int) -> Option<Seq<u8>> {
    if s.len() < n {
        None
    } else {
        Some(s.take(n))
    }
}

/// Copies the first twenty bytes, the length of a timestamp.
pub fn copy20(s: &[u8]) -> (copy: Option<[u8; 20]>)
    ensures
        match copy {
            Some(c) => front(s@, 20) == Some(c@),
            None => front(s@, 20) is None,
        },
{
    if s.len() < 20 {
        return None;
    }
    let mut out: [u8; 20] = [0u8; 20];
    for i in 0..20usize
        invariant
            s.len() >= 20,
            forall|j: int| 0 <= j < i ==> out@[j] == s@[j],
    {
        out[i] = s[i];
    }
    assert(out@ =~= s@.take(20));
    Some(out)
}

/// Copies the first four bytes, the length of a merchant category code.
pub fn copy4(s: &[u8]) -> (copy: Option<[u8; 4]>)
    ensures
        match copy {
            Some(c) => front(s@, 4) == Some(c@),
            None => front(s@, 4) is None,
        },
{
    if s.len() < 4 {
        return None;
    }
    let mut out: [u8; 4] = [0u8; 4];
    for i in 0..4usize
        invariant
            s.len() >= 4,
            forall|j: int| 0 <= j < i ==> out@[j] == s@[j],
    {
        out[i] = s[i];
    }
    assert(out@ =~= s@.take(4));
    Some(out)
}

/// A parsed fraud-score request. All slices borrow from the input.
#[derive(Debug)]
pub struct TransactionPayload<'a> {
    pub amount: Number<'a>,
    pub installments: u32,
    pub requested_at: [u8; 20],
    pub avg_amount: Number<'a>,
    pub tx_count_24h: u32,
    pub known_merchants: [&'a [u8]; 16],
    pub known_merchants_len: usize,
    pub merchant_id: &'a [u8],
    pub mcc: [u8; 4],
    pub merchant_avg_amount: Number<'a>,
    pub is_online: bool,
    pub card_present: bool,
    pub km_from_home: Number<'a>,
    pub has_last_transaction: bool,
    pub last_tx_timestamp: Option<[u8; 20]>,
    pub km_from_current: Option<Number<'a>>,
}

/// The previous transaction of a request.
pub struct LastTransaction {
    pub timestamp: Seq<u8>,
    pub km_from_current: NumberView,
}

/// What a request says.
pub struct PayloadView {
    pub amount: NumberView,
    pub installments: u32,
    pub requested_at: Seq<u8>,
    pub avg_amount: NumberView,
    pub tx_count_24h: u32,
    pub known_merchants: Seq<Seq<u8>>,
    pub merchant_id: Seq<u8>,
    pub mcc: Seq<u8>,
    pub merchant_avg_amount: NumberView,
    pub is_online: bool,
    pub card_present: bool,
    pub km_from_home: NumberView,
    pub last_transaction: Option<LastTransaction>,
}

impl<'a> View for TransactionPayload<'a> {
    type V = PayloadView;

    open spec fn view(&self) -> PayloadView {
        PayloadView {
            amount: self.amount@,
            installments: self.installments,
            requested_at: self.requested_at@,
            avg_amount: self.avg_amount@,
            tx_count_24h: self.tx_count_24h,
            known_merchants: entries(self.known_merchants, self.known_merchants_len as int),
            merchant_id: self.merchant_id@,
            mcc: self.mcc@,
            merchant_avg_amount: self.merchant_avg_amount@,
            is_online: self.is_online,
            card_present: self.card_present,
            km_from_home: self.km_from_home@,
            last_transaction: if self.has_last_transaction {
                Some(
                    LastTransaction {
                        timestamp: self.last_tx_timestamp->0@,
                        km_from_current: self.km_from_current->0@,
                    },
                )
            } else {
                None
            },
        }
    }
}

impl<'a> TransactionPayload<'a> {
    /// No more merchants than there is room for, nothing behind the last one, and
    /// both fields of the previous transaction exactly where there is one.
    pub open spec fn wf(&self) -> bool {
        &&& self.known_merchants_len <= MAX_MERCHANTS
        &&& empty_from(self.known_merchants, self.known_merchants_len as int)
        &&& self.last_tx_timestamp is Some == self.has_last_transaction
        &&& self.km_from_current is Some == self.has_last_transaction
    }

    /// True when the merchant is not among the known merchants.
    pub fn is_unknown_merchant(&self) -> (unknown: bool)
        requires
            self.known_merchants_len <= MAX_MERCHANTS,
        ensures
            unknown == !self@.known_merchants.contains(self@.merchant_id),
    {
        let ghost known = self@.known_merchants;
        for i in 0..self.known_merchants_len
            invariant
                self.known_merchants_len <= MAX_MERCHANTS,
                known == self@.known_merchants,
                forall|j: int| 0 <= j < i ==> #[trigger] known[j] != self.merchant_id@,
        {
            if bytes::bytes_equal(self.known_merchants[i], self.merchant_id) {
                assert(known[i as int] == self.merchant_id@);
                return false;
            }
        }
        true
    }
}

/// Repeating a known merchant anywhere in the list changes nothing in the
/// membership check.
pub proof fn lemma_repeated_merchants(
    known: Seq<Seq<u8>>,
    repeated: int,
    at: int,
    merchant: Seq<u8>,
)
    requires
        0 <= repeated < known.len(),
        0 <= at <= known.len(),
    ensures
        known.insert(at, known[repeated]).contains(merchant) == known.contains(merchant),
{
    let more = known.insert(at, known[repeated]);
    if known.contains(merchant) {
        let i = choose|i: int| 0 <= i < known.len() && known[i] == merchant;
        assert(more[if i < at {
            i
        } else {
            i + 1
        }] == merchant);
    }
    if more.contains(merchant) {
        let i = choose|i: int| 0 <= i < more.len() && more[i] == merchant;
        assert(known[if i < at {
            i
        } else if i == at {
            repeated
        } else {
            i - 1
        }] == merchant);
    }
}

/// Where the string ends whose contents start at `i`: behind the next quote. What
/// follows a backslash does not count.
pub open spec fn quoted_end(b: Seq<u8>, i: int) -> Option<int>
    decreases b.len() + 1 - i,
{
    if !(0 <= i < b.len()) {
        None
    } else if b[i] == 0x22 {
        Some(i + 1)
    } else if b[i] == 0x5c {
        quoted_end(b, i + 2)
    } else {
        quoted_end(b, i + 1)
    }
}

/// A string ends behind its start, within the bytes that hold it.
pub proof fn lemma_quoted_end(b: Seq<u8>, i: int)
    ensures
        quoted_end(b, i) matches Some(end) ==> i < end <= b.len(),
    decreases b.len() + 1 - i,
{
    if 0 <= i < b.len() && b[i] != 0x22 {
        if b[i] == 0x5c {
            lemma_quoted_end(b, i + 2);
        } else {
            lemma_quoted_end(b, i + 1);
        }
    }
}

/// Where the closing brace stands of the object whose contents start at `i`, when
/// `depth` more objects are open. Braces in strings do not count.
pub open spec fn closing_brace(b: Seq<u8>, i: int, depth: nat) -> Option<int>
    decreases b.len() - i,
{
    if !(0 <= i < b.len()) {
        None
    } else if b[i] == 0x22 {
        match quoted_end(b, i + 1) {
            Some(end) => {
                proof {
                    lemma_quoted_end(b, i + 1);
                }
                closing_brace(b, end, depth)
            },
            None => None,
        }
    } else if b[i] == 0x7b {
        closing_brace(b, i + 1, depth + 1)
    } else if b[i] == 0x7d {
        if depth == 0 {
            Some(i)
        } else {
            closing_brace(b, i + 1, (depth - 1) as nat)
        }
    } else {
        closing_brace(b, i + 1, depth)
    }
}

/// The places of the braces of the object called `name`: the opening one follows the
/// first occurrence of the name, but for white space.
pub open spec fn object_at(b: Seq<u8>, name: Seq<u8>) -> Option<(int, int)> {
    match value_at(b, name) {
        Some(p) => {
            let open = ws_end(b, p);
            if open < b.len() && b[open] == 0x7b {
                match closing_brace(b, open + 1, 0) {
                    Some(close) => Some((open, close)),
                    None => None,
                }
            } else {
                None
            }
        },
        None => None,
    }
}

/// What stands between the braces of the object called `name`.
pub open spec fn object_of(b: Seq<u8>, name: Seq<u8>) -> Option<Seq<u8>> {
    match object_at(b, name) {
        Some((open, close)) => Some(b.subrange(open + 1, close)),
        None => None,
    }
}

/// The number that a field holds.
pub open spec fn number_field(object: Seq<u8>, key: Seq<u8>) -> Option<NumberView> {
    match value_at(object, key) {
        Some(p) => number_at(object, p),
        None => None,
    }
}

/// The unsigned integer that a field holds.
pub open spec fn u32_field(object: Seq<u8>, key: Seq<u8>) -> Option<u32> {
    match value_at(object, key) {
        Some(p) => u32_at(object, p),
        None => None,
    }
}

/// The boolean that a field holds.
pub open spec fn bool_field(object: Seq<u8>, key: Seq<u8>) -> Option<bool> {
    match value_at(object, key) {
        Some(p) => bool_at(object, p),
        None => None,
    }
}

/// The string that a field holds.
pub open spec fn string_field(object: Seq<u8>, key: Seq<u8>) -> Option<Seq<u8>> {
    match value_at(object, key) {
        Some(p) => match string_at(object, p) {
            Some((s, _)) => Some(s),
            None => None,
        },
        None => None,
    }
}

/// The first `n` bytes of the string that a field holds.
pub open spec fn front_field(object: Seq<u8>, key: Seq<u8>, n: int) -> Option<
    Seq<u8>,
> {
    match string_field(object, key) {
        Some(s) => front(s, n),
        None => None,
    }
}

/// The list of strings that a field holds, as far as it is kept.
pub open spec fn list_field(object: Seq<u8>, key: Seq<u8>) -> Option<Seq<Seq<u8>>> {
    match value_at(object, key) {
        Some(p) => match list_at(object, p) {
            Some(list) => Some(kept(list)),
            None => None,
        },
        None => None,
    }
}

/// The previous transaction whose fields stand in `object`.
pub open spec fn last_transaction_in(object: Seq<u8>) -> Option<LastTransaction> {
    let timestamp = front_field(object, bytes::ascii("\"timestamp\":"@), 20);
    let km_from_current = number_field(object, bytes::ascii("\"km_from_current\":"@));
    if timestamp is Some && km_from_current is Some {
        Some(
            LastTransaction {
                timestamp: timestamp->0,
                km_from_current: km_from_current->0,
            },
        )
    } else {
        None
    }
}

/// The previous transaction: `Some(None)` where the request says `null`, and
/// `None` where it says nothing readable.
pub open spec fn last_transaction_of(b: Seq<u8>) -> Option<Option<LastTransaction>> {
    let name = bytes::ascii("\"last_transaction\":"@);
    match value_at(b, name) {
        Some(p) => if bytes::occurs_at(b, bytes::ascii("null"@), ws_end(b, p)) {
            Some(None)
        } else {
            match object_of(b, name) {
                Some(object) => match last_transaction_in(object) {
                    Some(last) => Some(Some(last)),
                    None => None,
                },
                None => None,
            }
        },
        None => None,
    }
}

/// The transaction of a request.
pub struct Transaction {
    pub amount: NumberView,
    pub installments: u32,
    pub requested_at: Seq<u8>,
}

/// The transaction that `b` holds, where all its fields stand in its object.
pub open spec fn transaction_of(b: Seq<u8>) -> Option<Transaction> {
    match object_of(b, bytes::ascii("\"transaction\":"@)) {
        Some(object) => transaction_in(object),
        None => None,
    }
}

/// The transaction whose fields stand in `object`.
pub open spec fn transaction_in(object: Seq<u8>) -> Option<Transaction> {
    let amount = number_field(object, bytes::ascii("\"amount\":"@));
    let installments = u32_field(object, bytes::ascii("\"installments\":"@));
    let requested_at = front_field(object, bytes::ascii("\"requested_at\":"@), 20);
    if amount is Some && installments is Some && requested_at is Some {
        Some(
            Transaction {
                amount: amount->0,
                installments: installments->0,
                requested_at: requested_at->0,
            },
        )
    } else {
        None
    }
}

/// The customer of a request.
pub struct Customer {
    pub avg_amount: NumberView,
    pub tx_count_24h: u32,
    pub known_merchants: Seq<Seq<u8>>,
}

/// The customer that `b` holds, where all its fields stand in its object.
pub open spec fn customer_of(b: Seq<u8>) -> Option<Customer> {
    match object_of(b, bytes::ascii("\"customer\":"@)) {
        Some(object) => customer_in(object),
        None => None,
    }
}

/// The customer whose fields stand in `object`.
pub open spec fn customer_in(object: Seq<u8>) -> Option<Customer> {
    let avg_amount = number_field(object, bytes::ascii("\"avg_amount\":"@));
    let tx_count_24h = u32_field(object, bytes::ascii("\"tx_count_24h\":"@));
    let known_merchants = list_field(object, bytes::ascii("\"known_merchants\":"@));
    if avg_amount is Some && tx_count_24h is Some && known_merchants is Some {
        Some(
            Customer {
                avg_amount: avg_amount->0,
                tx_count_24h: tx_count_24h->0,
                known_merchants: known_merchants->0,
            },
        )
    } else {
        None
    }
}

/// The merchant of a request.
pub struct Merchant {
    pub id: Seq<u8>,
    pub mcc: Seq<u8>,
    pub avg_amount: NumberView,
}

/// The merchant that `b` holds, where all its fields stand in its object.
pub open spec fn merchant_of(b: Seq<u8>) -> Option<Merchant> {
    match object_of(b, bytes::ascii("\"merchant\":"@)) {
        Some(object) => merchant_in(object),
        None => None,
    }
}

/// The merchant whose fields stand in `object`.
pub open spec fn merchant_in(object: Seq<u8>) -> Option<Merchant> {
    let id = string_field(object, bytes::ascii("\"id\":"@));
    let mcc = front_field(object, bytes::ascii("\"mcc\":"@), 4);
    let avg_amount = number_field(object, bytes::ascii("\"avg_amount\":"@));
    if id is Some && mcc is Some && avg_amount is Some {
        Some(
            Merchant {
                id: id->0,
                mcc: mcc->0,
                avg_amount: avg_amount->0,
            },
        )
    } else {
        None
    }
}

/// The terminal of a request.
pub struct Terminal {
    pub is_online: bool,
    pub card_present: bool,
    pub km_from_home: NumberView,
}

/// The terminal that `b` holds, where all its fields stand in its object.
pub open spec fn terminal_of(b: Seq<u8>) -> Option<Terminal> {
    match object_of(b, bytes::ascii("\"terminal\":"@)) {
        Some(object) => terminal_in(object),
        None => None,
    }
}

/// The terminal whose fields stand in `object`.
pub open spec fn terminal_in(object: Seq<u8>) -> Option<Terminal> {
    let is_online = bool_field(object, bytes::ascii("\"is_online\":"@));
    let card_present = bool_field(object, bytes::ascii("\"card_present\":"@));
    let km_from_home = number_field(object, bytes::ascii("\"km_from_home\":"@));
    if is_online is Some && card_present is Some && km_from_home is Some {
        Some(
            Terminal {
                is_online: is_online->0,
                card_present: card_present->0,
                km_from_home: km_from_home->0,
            },
        )
    } else {
        None
    }
}

/// The request that `b` holds. There is one where every object is there, and in it
/// every one of its fields, and all of them can be read.
pub open spec fn payload_of(b: Seq<u8>) -> Option<PayloadView> {
    let transaction = transaction_of(b);
    let customer = customer_of(b);
    let merchant = merchant_of(b);
    let terminal = terminal_of(b);
    let last_transaction = last_transaction_of(b);
    if transaction is Some && customer is Some && merchant is Some && terminal is Some
        && last_transaction is Some {
        Some(
            PayloadView {
                amount: (transaction->0).amount,
                installments: (transaction->0).installments,
                requested_at: (transaction->0).requested_at,
                avg_amount: (customer->0).avg_amount,
                tx_count_24h: (customer->0).tx_count_24h,
                known_merchants: (customer->0).known_merchants,
                merchant_id: (merchant->0).id,
                mcc: (merchant->0).mcc,
                merchant_avg_amount: (merchant->0).avg_amount,
                is_online: (terminal->0).is_online,
                card_present: (terminal->0).card_present,
                km_from_home: (terminal->0).km_from_home,
                last_transaction: last_transaction->0,
            },
        )
    } else {
        None
    }
}

/// An object stands within the request, between its braces.
pub proof fn lemma_object_at(b: Seq<u8>, name: Seq<u8>)
    ensures
        object_at(b, name) matches Some((open, close)) ==> {
            &&& 0 <= open < close < b.len()
            &&& b[open] == 0x7b
            &&& b[close] == 0x7d
        },
{
    if value_at(b, name) is Some {
        let p = choose|at: int| bytes::first_occurs_at(b, name, at);
        assert(bytes::first_occurs_at(b, name, p));
        lemma_ws_end(b, p + name.len());
        lemma_closing_brace(b, ws_end(b, p + name.len()) + 1, 0);
    }
}

proof fn lemma_closing_brace(b: Seq<u8>, i: int, depth: nat)
    ensures
        closing_brace(b, i, depth) matches Some(close) ==> i <= close < b.len() && b[close] == 0x7d,
    decreases b.len() - i,
{
    if 0 <= i < b.len() {
        if b[i] == 0x22 {
            lemma_quoted_end(b, i + 1);
            if let Some(end) = quoted_end(b, i + 1) {
                lemma_closing_brace(b, end, depth);
            }
        } else if b[i] == 0x7b {
            lemma_closing_brace(b, i + 1, depth + 1);
        } else if b[i] == 0x7d {
            if depth > 0 {
                lemma_closing_brace(b, i + 1, (depth - 1) as nat);
            }
        } else {
            lemma_closing_brace(b, i + 1, depth);
        }
    }
}

/// The object called `name` is there, and the given keys stand in it.
pub open spec fn has_keys(b: Seq<u8>, name: Seq<char>, keys: Seq<Seq<char>>) -> bool {
    match object_of(b, bytes::ascii(name)) {
        Some(object) => forall|k: int|
            0 <= k < keys.len() ==> bytes::find(object, bytes::ascii(#[trigger] keys[k])) is Some,
        None => false,
    }
}

/// A request is accepted only where each object holds its own keys: a key that is
/// missing from its object is not made up for by one in another object.
pub proof fn lemma_keys_stand_in_their_objects(b: Seq<u8>)
    requires
        payload_of(b) is Some,
    ensures
        has_keys(
            b,
            "\"transaction\":"@,
            seq!["\"amount\":"@, "\"installments\":"@, "\"requested_at\":"@],
        ),
        has_keys(
            b,
            "\"customer\":"@,
            seq!["\"avg_amount\":"@, "\"tx_count_24h\":"@, "\"known_merchants\":"@],
        ),
        has_keys(b, "\"merchant\":"@, seq!["\"id\":"@, "\"mcc\":"@, "\"avg_amount\":"@]),
        has_keys(
            b,
            "\"terminal\":"@,
            seq!["\"is_online\":"@, "\"card_present\":"@, "\"km_from_home\":"@],
        ),
        (payload_of(b)->0).last_transaction is Some ==> has_keys(
            b,
            "\"last_transaction\":"@,
            seq!["\"timestamp\":"@, "\"km_from_current\":"@],
        ),
{
}

fn skip_quoted(b: &[u8], from: usize) -> (end: Option<usize>)
    ensures
        match end {
            Some(e) => quoted_end(b@, from as int) == Some(e as int) && from < e <= b.len(),
            None => quoted_end(b@, from as int) is None,
        },
{
    let mut i: usize = from;
    while i < b.len()
        invariant
            from <= i,
            quoted_end(b@, from as int) == quoted_end(b@, i as int),
        decreases b.len() - i,
    {
        if b[i] == 0x22 {
            return Some(i + 1);
        }
        if b[i] == 0x5c {
            if b.len() - i <= 2 {
                assert(quoted_end(b@, i + 2) is None);
                return None;
            }
            i += 2;
        } else {
            i += 1;
        }
    }
    None
}

fn find_closing_brace(b: &[u8], from: usize) -> (close: Option<usize>)
    ensures
        match close {
            Some(c) => closing_brace(b@, from as int, 0) == Some(c as int) && from <= c < b.len(),
            None => closing_brace(b@, from as int, 0) is None,
        },
{
    let mut i: usize = from;
    let mut depth: usize = 0;
    while i < b.len()
        invariant
            from <= i,
            depth <= i,
            closing_brace(b@, from as int, 0) == closing_brace(b@, i as int, depth as nat),
        decreases b.len() - i,
    {
        if b[i] == 0x22 {
            i = skip_quoted(b, i + 1)?;
        } else {
            if b[i] == 0x7b {
                depth += 1;
            } else if b[i] == 0x7d {
                if depth == 0 {
                    return Some(i);
                }
                depth -= 1;
            }
            i += 1;
        }
    }
    None
}

/// Finds what stands between the braces of the object called `name`.
fn find_object<'a>(b: &'a [u8], name: &'static str) -> (object: Option<&'a [u8]>)
    requires
        name.is_ascii(),
    ensures
        match object {
            Some(o) => object_of(b@, bytes::ascii(name@)) == Some(o@),
            None => object_of(b@, bytes::ascii(name@)) is None,
        },
{
    let value = value_start(b, name)?;
    let open = skip_ws(b, value);
    if open >= b.len() || b[open] != 0x7b {
        return None;
    }
    let close = find_closing_brace(b, open + 1)?;
    Some(&b[open + 1..close])
}

fn read_number<'a>(object: &'a [u8], key: &'static str) -> (number: Option<
    Number<'a>,
>)
    requires
        key.is_ascii(),
    ensures
        match number {
            Some(n) => number_field(object@, bytes::ascii(key@)) == Some(n@),
            None => number_field(object@, bytes::ascii(key@)) is None,
        },
{
    match value_start(object, key) {
        Some(p) => parse_number(object, p),
        None => None,
    }
}

fn read_u32(object: &[u8], key: &'static str) -> (value: Option<u32>)
    requires
        key.is_ascii(),
    ensures
        value == u32_field(object@, bytes::ascii(key@)),
{
    match value_start(object, key) {
        Some(p) => parse_u32(object, p),
        None => None,
    }
}

fn read_bool(object: &[u8], key: &'static str) -> (value: Option<bool>)
    requires
        key.is_ascii(),
    ensures
        value == bool_field(object@, bytes::ascii(key@)),
{
    match value_start(object, key) {
        Some(p) => parse_bool(object, p),
        None => None,
    }
}

fn read_string<'a>(object: &'a [u8], key: &'static str) -> (string: Option<
    &'a [u8],
>)
    requires
        key.is_ascii(),
    ensures
        match string {
            Some(s) => string_field(object@, bytes::ascii(key@)) == Some(s@),
            None => string_field(object@, bytes::ascii(key@)) is None,
        },
{
    match value_start(object, key) {
        Some(p) => match parse_string(object, p) {
            Some((s, _)) => Some(s),
            None => None,
        },
        None => None,
    }
}

fn read_timestamp(object: &[u8], key: &'static str) -> (timestamp: Option<
    [u8; 20],
>)
    requires
        key.is_ascii(),
    ensures
        match timestamp {
            Some(t) => front_field(object@, bytes::ascii(key@), 20) == Some(t@),
            None => front_field(object@, bytes::ascii(key@), 20) is None,
        },
{
    match read_string(object, key) {
        Some(s) => copy20(s),
        None => None,
    }
}

fn read_code(object: &[u8], key: &'static str) -> (code: Option<[u8; 4]>)
    requires
        key.is_ascii(),
    ensures
        match code {
            Some(c) => front_field(object@, bytes::ascii(key@), 4) == Some(c@),
            None => front_field(object@, bytes::ascii(key@), 4) is None,
        },
{
    match read_string(object, key) {
        Some(s) => copy4(s),
        None => None,
    }
}

fn read_list<'a>(object: &'a [u8], key: &'static str) -> (list: Option<
    ([&'a [u8]; 16], usize),
>)
    requires
        key.is_ascii(),
    ensures
        match list {
            Some((items, n)) => {
                &&& n <= MAX_MERCHANTS
                &&& list_field(object@, bytes::ascii(key@)) == Some(
                    entries(items, n as int),
                )
                &&& empty_from(items, n as int)
            },
            None => list_field(object@, bytes::ascii(key@)) is None,
        },
{
    match value_start(object, key) {
        Some(p) => parse_string_array(object, p),
        None => None,
    }
}

fn read_last<'a>(b: &'a [u8]) -> (last: Option<Option<([u8; 20], Number<'a>)>>)
    ensures
        match last {
            Some(Some((timestamp, km))) => last_transaction_of(b@) == Some(
                Some(LastTransaction { timestamp: timestamp@, km_from_current: km@ }),
            ),
            Some(None) => last_transaction_of(b@) == Some(None::<LastTransaction>),
            None => last_transaction_of(b@) is None,
        },
{
    proof {
        reveal_strlit("\"last_transaction\":");
        reveal_strlit("\"timestamp\":");
        reveal_strlit("\"km_from_current\":");
        reveal_strlit("null");
    }
    let value = value_start(b, "\"last_transaction\":")?;
    if bytes::literal_at(b, skip_ws(b, value), "null") {
        return Some(None);
    }
    let object = find_object(b, "\"last_transaction\":")?;
    let timestamp = read_timestamp(object, "\"timestamp\":")?;
    let km = read_number(object, "\"km_from_current\":")?;
    Some(Some((timestamp, km)))
}

fn read_transaction<'a>(b: &'a [u8]) -> (found: Option<(Number<'a>, u32, [u8; 20])>)
    ensures
        match found {
            Some((amount, installments, requested_at)) => transaction_of(b@) == Some(
                Transaction { amount: amount@, installments, requested_at: requested_at@ },
            ),
            None => transaction_of(b@) is None,
        },
{
    proof {
        reveal_strlit("\"transaction\":");
        reveal_strlit("\"amount\":");
        reveal_strlit("\"installments\":");
        reveal_strlit("\"requested_at\":");
    }
    let object = find_object(b, "\"transaction\":")?;
    let amount = read_number(object, "\"amount\":")?;
    let installments = read_u32(object, "\"installments\":")?;
    let requested_at = read_timestamp(object, "\"requested_at\":")?;
    Some((amount, installments, requested_at))
}

fn read_customer<'a>(b: &'a [u8]) -> (found: Option<(Number<'a>, u32, [&'a [u8]; 16], usize)>)
    ensures
        match found {
            Some((avg_amount, tx_count_24h, items, n)) => customer_of(b@) == Some(
                Customer {
                    avg_amount: avg_amount@,
                    tx_count_24h,
                    known_merchants: entries(items, n as int),
                },
            ) && n <= MAX_MERCHANTS && empty_from(items, n as int),
            None => customer_of(b@) is None,
        },
{
    proof {
        reveal_strlit("\"customer\":");
        reveal_strlit("\"avg_amount\":");
        reveal_strlit("\"tx_count_24h\":");
        reveal_strlit("\"known_merchants\":");
    }
    let object = find_object(b, "\"customer\":")?;
    let avg_amount = read_number(object, "\"avg_amount\":")?;
    let tx_count_24h = read_u32(object, "\"tx_count_24h\":")?;
    let (items, n) = read_list(object, "\"known_merchants\":")?;
    Some((avg_amount, tx_count_24h, items, n))
}

fn read_merchant<'a>(b: &'a [u8]) -> (found: Option<(&'a [u8], [u8; 4], Number<'a>)>)
    ensures
        match found {
            Some((id, mcc, avg_amount)) => merchant_of(b@) == Some(
                Merchant { id: id@, mcc: mcc@, avg_amount: avg_amount@ },
            ),
            None => merchant_of(b@) is None,
        },
{
    proof {
        reveal_strlit("\"merchant\":");
        reveal_strlit("\"id\":");
        reveal_strlit("\"mcc\":");
        reveal_strlit("\"avg_amount\":");
    }
    let object = find_object(b, "\"merchant\":")?;
    let id = read_string(object, "\"id\":")?;
    let mcc = read_code(object, "\"mcc\":")?;
    let avg_amount = read_number(object, "\"avg_amount\":")?;
    Some((id, mcc, avg_amount))
}

fn read_terminal<'a>(b: &'a [u8]) -> (found: Option<(bool, bool, Number<'a>)>)
    ensures
        match found {
            Some((is_online, card_present, km_from_home)) => terminal_of(b@) == Some(
                Terminal { is_online, card_present, km_from_home: km_from_home@ },
            ),
            None => terminal_of(b@) is None,
        },
{
    proof {
        reveal_strlit("\"terminal\":");
        reveal_strlit("\"is_online\":");
        reveal_strlit("\"card_present\":");
        reveal_strlit("\"km_from_home\":");
    }
    let object = find_object(b, "\"terminal\":")?;
    let is_online = read_bool(object, "\"is_online\":")?;
    let card_present = read_bool(object, "\"card_present\":")?;
    let km_from_home = read_number(object, "\"km_from_home\":")?;
    Some((is_online, card_present, km_from_home))
}

/// Parses a request body. The result is `None` where an object or one of its fields
/// is missing or cannot be read; the caller falls back to the safe default response.
pub fn parse<'a>(buf: &'a [u8]) -> (payload: Option<TransactionPayload<'a>>)
    ensures
        match payload {
            Some(p) => p.wf() && payload_of(buf@) == Some(p@),
            None => payload_of(buf@) is None,
        },
{
    let (amount, installments, requested_at) = read_transaction(buf)?;
    let (avg_amount, tx_count_24h, known_merchants, known_merchants_len) = read_customer(buf)?;
    let (merchant_id, mcc, merchant_avg_amount) = read_merchant(buf)?;
    let (is_online, card_present, km_from_home) = read_terminal(buf)?;
    let (has_last_transaction, last_tx_timestamp, km_from_current) = match read_last(buf)? {
        Some((timestamp, km)) => (true, Some(timestamp), Some(km)),
        None => (false, None, None),
    };
    Some(
        TransactionPayload {
            amount,
            installments,
            requested_at,
            avg_amount,
            tx_count_24h,
            known_merchants,
            known_merchants_len,
            merchant_id,
            mcc,
            merchant_avg_amount,
            is_online,
            card_present,
            km_from_home,
            has_last_transaction,
            last_tx_timestamp,
            km_from_current,
        },
    )
}

} // verus!
