//! The features of a request, dimension by dimension.
//!
//! Each dimension is a [`Term`]: a quotient of numbers that the request holds, or
//! a fixed value. Evaluating a term in floating point is left to the caller.
use crate::mcc_risk;
use crate::parser;
use crate::parser::{Number, TransactionPayload};
use crate::timestamp;
use crate::timestamp::{minutes_diff, ParsedTs};
use crate::{
    AMOUNT_VS_AVG_RATIO, MAX_AMOUNT, MAX_INSTALLMENTS, MAX_KM, MAX_MERCHANT_AVG_AMOUNT, MAX_MINUTES,
    MAX_TX_COUNT_24H,
};
use vstd::prelude::*;

verus! {

/// The value of one dimension.
#[derive(Clone, Copy, Debug)]
pub enum Term<'a> {
    /// `value / most`, brought into the range from 0 to 1.
    Scaled { value: Number<'a>, most: u32 },
    /// `count / most`, brought into the range from 0 to 1.
    Counted { count: i64, most: u32 },
    /// `value / base / most`, brought into the range from 0 to 1, and 0 where
    /// `base` is not above 0.
    Relative { value: Number<'a>, base: Number<'a>, most: u32 },
    /// `part / whole`.
    Fraction { part: i64, whole: i64 },
    /// `hundredths / 100`.
    Weight { hundredths: u8 },
    /// 1 where it holds, else 0.
    Flag { holds: bool },
    /// -1: there is nothing to measure.
    Missing,
    /// 0: no feature.
    Padding,
}

/// What a [`Term`] says.
pub enum TermView {
    Scaled { value: parser::NumberView, most: u32 },
    Counted { count: int, most: u32 },
    Relative { value: parser::NumberView, base: parser::NumberView, most: u32 },
    Fraction { part: int, whole: int },
    Weight { hundredths: u8 },
    Flag { holds: bool },
    Missing,
    Padding,
}

impl<'a> View for Term<'a> {
    type V = TermView;

    open spec fn view(&self) -> TermView {
        match *self {
            Term::Scaled { value, most } => TermView::Scaled { value: value@, most },
            Term::Counted { count, most } => TermView::Counted { count: count as int, most },
            Term::Relative { value, base, most } => TermView::Relative {
                value: value@,
                base: base@,
                most,
            },
            Term::Fraction { part, whole } => TermView::Fraction {
                part: part as int,
                whole: whole as int,
            },
            Term::Weight { hundredths } => TermView::Weight { hundredths },
            Term::Flag { holds } => TermView::Flag { holds },
            Term::Missing => TermView::Missing,
            Term::Padding => TermView::Padding,
        }
    }
}

/// Requests that have features: their timestamps can be read, and the month of
/// the transaction is one of the twelve.
pub open spec fn featured(p: TransactionPayload) -> bool {
    &&& p.known_merchants_len <= parser::MAX_MERCHANTS
    &&& timestamp::readable(p.requested_at@)
    &&& 1 <= timestamp::parts(p.requested_at@).month <= 12
    &&& p.has_last_transaction && p.last_tx_timestamp is Some ==> timestamp::readable(
        p.last_tx_timestamp->0@,
    )
}

/// The minutes since the previous transaction.
pub open spec fn elapsed(p: TransactionPayload) -> TermView {
    if p.has_last_transaction && p.last_tx_timestamp is Some {
        TermView::Counted {
            count: timestamp::parts(p.requested_at@).minutes() - timestamp::parts(
                p.last_tx_timestamp->0@,
            ).minutes(),
            most: MAX_MINUTES,
        }
    } else {
        TermView::Missing
    }
}

/// The distance from the previous transaction.
pub open spec fn travelled(p: TransactionPayload) -> TermView {
    if p.has_last_transaction && p.km_from_current is Some {
        TermView::Scaled { value: p.km_from_current->0@, most: MAX_KM }
    } else {
        TermView::Missing
    }
}

/// The features of a request, padded to the length of a stored vector.
pub open spec fn features(p: TransactionPayload) -> Seq<TermView> {
    let at = timestamp::parts(p.requested_at@);
    seq![
        TermView::Scaled { value: p.amount@, most: MAX_AMOUNT },
        TermView::Counted { count: p.installments as int, most: MAX_INSTALLMENTS },
        TermView::Relative {
            value: p.amount@,
            base: p.avg_amount@,
            most: AMOUNT_VS_AVG_RATIO,
        },
        TermView::Fraction { part: at.hour as int, whole: 23 },
        TermView::Fraction {
            part: (timestamp::weekday(at.year as int, at.month as int, at.day as int) + 6) % 7,
            whole: 6,
        },
        elapsed(p),
        travelled(p),
        TermView::Scaled { value: p.km_from_home@, most: MAX_KM },
        TermView::Counted { count: p.tx_count_24h as int, most: MAX_TX_COUNT_24H },
        TermView::Flag { holds: p.is_online },
        TermView::Flag { holds: p.card_present },
        TermView::Flag { holds: !p@.known_merchants.contains(p@.merchant_id) },
        TermView::Weight { hundredths: crate::risk_of(p.mcc@) },
        TermView::Scaled { value: p.merchant_avg_amount@, most: MAX_MERCHANT_AVG_AMOUNT },
        TermView::Padding,
        TermView::Padding,
    ]
}

/// Whether a request has features.
pub fn has_features(p: &TransactionPayload) -> (ok: bool)
    ensures
        ok == featured(*p),
{
    if p.known_merchants_len > parser::MAX_MERCHANTS || !timestamp::is_readable(&p.requested_at) {
        return false;
    }
    let at = ParsedTs::from_iso(&p.requested_at);
    if at.month < 1 || at.month > 12 {
        return false;
    }
    if p.has_last_transaction {
        match &p.last_tx_timestamp {
            Some(last) => timestamp::is_readable(last),
            None => true,
        }
    } else {
        true
    }
}

/// The terms of an array, one by one.
pub open spec fn views(terms: [Term; 16]) -> Seq<TermView> {
    Seq::new(16, |i: int| terms@[i]@)
}

/// Computes the features of a request.
pub fn vectorize<'a>(p: &TransactionPayload<'a>) -> (terms: [Term<'a>; 16])
    requires
        featured(*p),
    ensures
        views(terms) == features(*p),
{
    let requested = ParsedTs::from_iso(&p.requested_at);
    proof {
        requested.lemma_small();
    }
    let since: Term<'a> = if p.has_last_transaction {
        match &p.last_tx_timestamp {
            Some(last) => {
                let last = ParsedTs::from_iso(last);
                proof {
                    last.lemma_small();
                }
                Term::Counted { count: minutes_diff(requested, last), most: MAX_MINUTES }
            },
            None => Term::Missing,
        }
    } else {
        Term::Missing
    };
    let km_current: Term<'a> = if p.has_last_transaction {
        match p.km_from_current {
            Some(km) => Term::Scaled { value: km, most: MAX_KM },
            None => Term::Missing,
        }
    } else {
        Term::Missing
    };
    let terms: [Term<'a>; 16] = [
        Term::Scaled { value: p.amount, most: MAX_AMOUNT },
        Term::Counted { count: p.installments as i64, most: MAX_INSTALLMENTS },
        Term::Relative { value: p.amount, base: p.avg_amount, most: AMOUNT_VS_AVG_RATIO },
        Term::Fraction { part: requested.hour, whole: 23 },
        Term::Fraction { part: requested.weekday_mon0(), whole: 6 },
        since,
        km_current,
        Term::Scaled { value: p.km_from_home, most: MAX_KM },
        Term::Counted { count: p.tx_count_24h as i64, most: MAX_TX_COUNT_24H },
        Term::Flag { holds: p.is_online },
        Term::Flag { holds: p.card_present },
        Term::Flag { holds: p.is_unknown_merchant() },
        Term::Weight { hundredths: mcc_risk(&p.mcc) },
        Term::Scaled { value: p.merchant_avg_amount, most: MAX_MERCHANT_AVG_AMOUNT },
        Term::Padding,
        Term::Padding,
    ];
    assert(views(terms) =~= features(*p));
    terms
}

/// A request without a previous transaction misses exactly the two dimensions
/// that measure from it.
pub proof fn lemma_missing(p: TransactionPayload)
    requires
        p.wf(),
    ensures
        features(p).len() == crate::DIMS_PADDED,
        forall|i: int|
            0 <= i < crate::DIMS_PADDED ==> (#[trigger] features(p)[i] is Missing <==> (i == 5
                || i == 6) && !p.has_last_transaction),
        forall|i: int|
            0 <= i < crate::DIMS_PADDED ==> (#[trigger] features(p)[i] is Padding <==> i
                >= crate::DIMS),
{
    let f = features(p);
    assert(f[0] is Scaled && f[1] is Counted && f[2] is Relative && f[3] is Fraction
        && f[4] is Fraction
        && f[7] is Scaled && f[8] is Counted && f[9] is Flag && f[10] is Flag && f[11] is Flag
        && f[12] is Weight && f[13] is Scaled && f[14] is Padding && f[15] is Padding);
    assert(f[5] == elapsed(p) && f[6] == travelled(p));
}

/// The timestamps of a request can be read.
pub open spec fn dated(p: TransactionPayload) -> bool {
    &&& timestamp::well_formed(p.requested_at@)
    &&& p.has_last_transaction && p.last_tx_timestamp is Some ==> timestamp::well_formed(
        p.last_tx_timestamp->0@,
    )
}

/// Whether the timestamps of a request can be read. It has features then.
pub fn is_dated(p: &TransactionPayload) -> (ok: bool)
    requires
        p.known_merchants_len <= parser::MAX_MERCHANTS,
    ensures
        ok == dated(*p),
        ok ==> featured(*p),
{
    if !timestamp::is_well_formed(&p.requested_at) {
        return false;
    }
    if p.has_last_transaction {
        match &p.last_tx_timestamp {
            Some(last) => timestamp::is_well_formed(last),
            None => true,
        }
    } else {
        true
    }
}

/// `terms` are the features of the request that `body` holds.
pub open spec fn features_of_body(body: Seq<u8>, terms: [Term; 16]) -> bool {
    exists|p: TransactionPayload|
        #![trigger features(p)]
        p.wf() && featured(p) && parser::payload_of(body) == Some(p@) && views(terms) == features(
            p,
        )
}

/// The body holds a request with a timestamp that cannot be read.
pub open spec fn undated(body: Seq<u8>) -> bool {
    exists|p: TransactionPayload|
        #![trigger dated(p)]
        p.wf() && !dated(p) && parser::payload_of(body) == Some(p@)
}

/// Whether a request can be read, and what its features are, is a matter of what it
/// says.
pub proof fn lemma_featured(p: TransactionPayload, r: TransactionPayload)
    requires
        p.wf(),
        r.wf(),
        p@ == r@,
    ensures
        dated(p) == dated(r),
        featured(p) == featured(r),
        features(p) == features(r),
{
    assert(p@.requested_at == r@.requested_at);
    assert(p@.last_transaction == r@.last_transaction);
    assert(p.has_last_transaction == r.has_last_transaction);
    if p.has_last_transaction {
        assert((p@.last_transaction->0).timestamp == (r@.last_transaction->0).timestamp);
        assert((p@.last_transaction->0).km_from_current
            == (r@.last_transaction->0).km_from_current);
    }
    assert(features(p) =~= features(r));
}

/// Scores a request body: how many of the nearest neighbours of its features are
/// frauds, as `query` finds it. A malformed body, one that cannot be parsed or whose
/// timestamps cannot be read, counts as none: it gets the safe default answer.
pub fn score<F: Fn(&[Term; 16]) -> u8>(body: &[u8], query: F) -> (frauds: usize)
    requires
        forall|terms: [Term; 16]| query.requires((&terms,)),
    ensures
        if parser::payload_of(body@) is None || undated(body@) {
            frauds == 0
        } else {
            exists|terms: [Term; 16], found: u8|
                features_of_body(body@, terms) && #[trigger] query.ensures((&terms,), found)
                    && frauds == found
        },
{
    match parser::parse(body) {
        Some(p) => {
            if !is_dated(&p) {
                return 0;
            }
            proof {
                if undated(body@) {
                    let r = choose|r: TransactionPayload|
                        #![trigger dated(r)]
                        r.wf() && !dated(r) && parser::payload_of(body@) == Some(r@);
                    lemma_featured(p, r);
                }
            }
            let terms = vectorize(&p);
            let found: u8 = query(&terms);
            assert(features_of_body(body@, terms) && query.ensures((&terms,), found));
            found as usize
        },
        None => 0,
    }
}

/// Each dimension measures its own part of the request, against its own limit, and
/// nothing else of it.
pub proof fn lemma_dimensions(p: TransactionPayload)
    requires
        featured(p),
    ensures
        features(p).len() == 16,
        features(p)[0] == (TermView::Scaled { value: p.amount@, most: 10_000 }),
        features(p)[1] == (TermView::Counted { count: p.installments as int, most: 12 }),
        features(p)[2] == (TermView::Relative { value: p.amount@, base: p.avg_amount@, most: 10 }),
        features(p)[3] == (TermView::Fraction {
            part: 10 * (p.requested_at@[11] - 0x30) + (p.requested_at@[12] - 0x30),
            whole: 23,
        }),
        p.has_last_transaction && p.km_from_current is Some ==> features(p)[6] == (
        TermView::Scaled { value: p.km_from_current->0@, most: 1_000 }),
        features(p)[7] == (TermView::Scaled { value: p.km_from_home@, most: 1_000 }),
        features(p)[8] == (TermView::Counted { count: p.tx_count_24h as int, most: 20 }),
        features(p)[9] == (TermView::Flag { holds: p.is_online }),
        features(p)[10] == (TermView::Flag { holds: p.card_present }),
        features(p)[11] is Flag,
        features(p)[11]->holds <==> (forall|i: int|
            0 <= i < p.known_merchants_len ==> #[trigger] p.known_merchants@[i]@
                != p.merchant_id@),
        features(p)[12] == (TermView::Weight { hundredths: crate::risk_of(p.mcc@) }),
        features(p)[13] == (TermView::Scaled { value: p.merchant_avg_amount@, most: 10_000 }),
{
    timestamp::lemma_parts(p.requested_at@);
    let known = p@.known_merchants;
    assert forall|i: int| 0 <= i < p.known_merchants_len implies #[trigger] known[i]
        == p.known_merchants@[i]@ by {}
    if known.contains(p.merchant_id@) {
        let i = choose|i: int| 0 <= i < known.len() && known[i] == p.merchant_id@;
        assert(p.known_merchants@[i]@ == p.merchant_id@);
    }
    if exists|i: int|
        0 <= i < p.known_merchants_len && #[trigger] p.known_merchants@[i]@ == p.merchant_id@ {
        let i = choose|i: int|
            0 <= i < p.known_merchants_len && #[trigger] p.known_merchants@[i]@ == p.merchant_id@;
        assert(known[i] == p.merchant_id@);
    }
}

/// The day of the week counts from Monday: it is that of the days since the first day
/// of 1970, a Thursday.
pub proof fn lemma_day_dimension(p: TransactionPayload)
    requires
        featured(p),
        timestamp::parts(p.requested_at@).year > 0 || timestamp::parts(p.requested_at@).month >= 3,
    ensures
        ({
            let at = timestamp::parts(p.requested_at@);
            features(p)[4] == (TermView::Fraction {
                part: (timestamp::days(at.year as int, at.month as int, at.day as int) + 3) % 7,
                whole: 6,
            })
        }),
{
    let at = timestamp::parts(p.requested_at@);
    let (y, m, d) = (at.year as int, at.month as int, at.day as int);
    let part = (timestamp::weekday(y, m, d) + 6) % 7;
    assert(features(p)[4] == (TermView::Fraction { part, whole: 6 }));
    assert(part == (timestamp::days(y, m, d) + 3) % 7) by {
        timestamp::lemma_weekday(y, m, d);
        lemma_from_monday(timestamp::weekday(y, m, d), timestamp::days(y, m, d));
    }
}

proof fn lemma_from_monday(weekday: int, days: int)
    requires
        weekday == (days + 4) % 7,
    ensures
        (weekday + 6) % 7 == (days + 3) % 7,
{
}

/// The time since the previous transaction is counted in minutes, 1440 to each day
/// between the two dates, and measured against a day.
pub proof fn lemma_elapsed(p: TransactionPayload)
    requires
        featured(p),
        p.has_last_transaction,
        p.last_tx_timestamp is Some,
    ensures
        ({
            let now = timestamp::parts(p.requested_at@);
            let last = timestamp::parts(p.last_tx_timestamp->0@);
            features(p)[5] == (TermView::Counted {
                count: 1440 * (timestamp::days(now.year as int, now.month as int, now.day as int)
                    - timestamp::days(last.year as int, last.month as int, last.day as int)) + 60
                    * (now.hour - last.hour) + (now.minute - last.minute),
                most: 1440,
            })
        }),
{
}

/// Had the previous transaction been made a day earlier, at the same time of day,
/// 1440 minutes more would have passed since.
pub proof fn lemma_a_day_earlier(p: TransactionPayload, earlier: TransactionPayload)
    requires
        featured(p),
        featured(earlier),
        p.has_last_transaction,
        p.last_tx_timestamp is Some,
        earlier.has_last_transaction,
        earlier.last_tx_timestamp is Some,
        p.requested_at@ == earlier.requested_at@,
        ({
            let last = timestamp::parts(p.last_tx_timestamp->0@);
            let before = timestamp::parts(earlier.last_tx_timestamp->0@);
            &&& timestamp::is_date(before.year as int, before.month as int, before.day as int)
            &&& timestamp::next_day(before.year as int, before.month as int, before.day as int) == (
                last.year as int,
                last.month as int,
                last.day as int,
            )
            &&& before.hour == last.hour
            &&& before.minute == last.minute
        }),
    ensures
        features(p)[5] is Counted,
        features(earlier)[5] is Counted,
        features(earlier)[5]->count == features(p)[5]->count + 1440,
{
    let before = timestamp::parts(earlier.last_tx_timestamp->0@);
    timestamp::lemma_days(before.year as int, before.month as int, before.day as int);
}

/// Had the request come `minutes` later on the same day, so many minutes more would have
/// passed since the previous transaction.
pub proof fn lemma_later_that_day(p: TransactionPayload, later: TransactionPayload, minutes: int)
    requires
        featured(p),
        featured(later),
        p.has_last_transaction,
        p.last_tx_timestamp is Some,
        later.has_last_transaction,
        later.last_tx_timestamp is Some,
        p.last_tx_timestamp->0@ == later.last_tx_timestamp->0@,
        timestamp::on_same_date(
            timestamp::parts(p.requested_at@),
            timestamp::parts(later.requested_at@),
        ),
        minutes == (60 * timestamp::parts(later.requested_at@).hour + timestamp::parts(
            later.requested_at@,
        ).minute) - (60 * timestamp::parts(p.requested_at@).hour + timestamp::parts(
            p.requested_at@,
        ).minute),
    ensures
        features(p)[5] is Counted,
        features(later)[5] is Counted,
        features(later)[5]->count == features(p)[5]->count + minutes,
{
}

/// Whether a request is scored at all hangs on its timestamps alone: one that can be
/// parsed has features exactly where all timestamps it holds are well-formed.
pub proof fn lemma_undated(body: Seq<u8>, p: TransactionPayload)
    requires
        p.wf(),
        parser::payload_of(body) == Some(p@),
    ensures
        undated(body) <==> !(timestamp::well_formed(p@.requested_at) && (
        p@.last_transaction is Some ==> timestamp::well_formed(
            (p@.last_transaction->0).timestamp,
        ))),
{
    if undated(body) {
        let r = choose|r: TransactionPayload|
            #![trigger dated(r)]
            r.wf() && !dated(r) && parser::payload_of(body) == Some(r@);
        lemma_featured(p, r);
        assert(!dated(p));
    } else {
        assert(dated(p));
    }
}

/// A request whose timestamps write dates of the calendar and times of day is never
/// answered without asking for its neighbours.
pub proof fn lemma_calendar_dates_are_scored(
    body: Seq<u8>,
    y: int,
    m: int,
    d: int,
    hour: int,
    minute: int,
    second: int,
)
    requires
        parser::payload_of(body) is Some,
        0 <= y <= 9999,
        timestamp::is_date(y, m, d),
        0 <= hour <= 23,
        0 <= minute <= 59,
        0 <= second <= 59,
        (parser::payload_of(body)->0).requested_at == timestamp::written(
            y,
            m,
            d,
            hour,
            minute,
            second,
        ),
        (parser::payload_of(body)->0).last_transaction is None || timestamp::well_formed(
            ((parser::payload_of(body)->0).last_transaction->0).timestamp,
        ),
    ensures
        !undated(body),
{
    timestamp::lemma_written_is_read(y, m, d, hour, minute, second);
    if undated(body) {
        let r = choose|r: TransactionPayload|
            #![trigger dated(r)]
            r.wf() && !dated(r) && parser::payload_of(body) == Some(r@);
        assert(r@.requested_at == r.requested_at@);
    }
}

/// The features that a body is scored by are those of the request it holds: what
/// stands in the request is what each dimension measures.
pub proof fn lemma_body_dimensions(body: Seq<u8>, terms: [Term; 16])
    requires
        features_of_body(body, terms),
    ensures
        parser::payload_of(body) is Some,
        ({
            let v = parser::payload_of(body)->0;
            let f = |i: int| terms@[i]@;
            &&& f(0) == (TermView::Scaled { value: v.amount, most: 10_000 })
            &&& f(1) == (TermView::Counted { count: v.installments as int, most: 12 })
            &&& f(2) == (TermView::Relative { value: v.amount, base: v.avg_amount, most: 10 })
            &&& f(5) is Missing <==> v.last_transaction is None
            &&& f(6) == match v.last_transaction {
                Some(last) => TermView::Scaled { value: last.km_from_current, most: 1_000 },
                None => TermView::Missing,
            }
            &&& f(7) == (TermView::Scaled { value: v.km_from_home, most: 1_000 })
            &&& f(8) == (TermView::Counted { count: v.tx_count_24h as int, most: 20 })
            &&& f(9) == (TermView::Flag { holds: v.is_online })
            &&& f(10) == (TermView::Flag { holds: v.card_present })
            &&& f(11) == (TermView::Flag { holds: !v.known_merchants.contains(v.merchant_id) })
            &&& f(12) == (TermView::Weight { hundredths: crate::risk_of(v.mcc) })
            &&& f(13) == (TermView::Scaled { value: v.merchant_avg_amount, most: 10_000 })
        }),
{
    let p = choose|p: TransactionPayload|
        #![trigger features(p)]
        p.wf() && featured(p) && parser::payload_of(body) == Some(p@) && views(terms) == features(
            p,
        );
    assert forall|i: int| 0 <= i < 16 implies terms@[i]@ == #[trigger] features(p)[i] by {
        assert(views(terms)[i] == terms@[i]@);
    }
    let f = features(p);
    assert(terms@[0]@ == f[0] && terms@[1]@ == f[1] && terms@[2]@ == f[2] && terms@[5]@ == f[5]
        && terms@[6]@ == f[6] && terms@[7]@ == f[7] && terms@[8]@ == f[8] && terms@[9]@ == f[9]);
    assert(terms@[10]@ == f[10] && terms@[11]@ == f[11] && terms@[12]@ == f[12] && terms@[13]@
        == f[13]);
}

/// The terms that are computed for a request are what its fields say, each in its own
/// dimension.
pub proof fn lemma_terms(p: &TransactionPayload, terms: [Term; 16])
    requires
        featured(*p),
        call_ensures(vectorize, (p,), terms),
    ensures
        terms@[0] is Scaled && terms@[0]->Scaled_value@ == p.amount@ && terms@[0]->Scaled_most
            == 10_000,
        terms@[1] is Counted && terms@[1]->Counted_count == p.installments
            && terms@[1]->Counted_most == 12,
        terms@[2] is Relative && terms@[2]->Relative_value@ == p.amount@
            && terms@[2]->Relative_base@ == p.avg_amount@ && terms@[2]->Relative_most == 10,
        terms@[3] is Fraction && terms@[3]->part == timestamp::parts(p.requested_at@).hour
            && terms@[3]->whole == 23,
        terms@[4] is Fraction && terms@[4]->whole == 6,
        terms@[5] is Counted <==> p.has_last_transaction && p.last_tx_timestamp is Some,
        terms@[5] is Counted || terms@[5] is Missing,
        terms@[6] is Scaled <==> p.has_last_transaction && p.km_from_current is Some,
        terms@[6] is Scaled || terms@[6] is Missing,
        terms@[6] is Scaled ==> terms@[6]->Scaled_value@ == p.km_from_current->0@
            && terms@[6]->Scaled_most == 1_000,
        terms@[7] is Scaled && terms@[7]->Scaled_value@ == p.km_from_home@
            && terms@[7]->Scaled_most == 1_000,
        terms@[8] is Counted && terms@[8]->Counted_count == p.tx_count_24h
            && terms@[8]->Counted_most == 20,
        terms@[9] == (Term::Flag { holds: p.is_online }),
        terms@[10] == (Term::Flag { holds: p.card_present }),
        terms@[11] is Flag,
        terms@[12] == (Term::Weight { hundredths: crate::risk_of(p.mcc@) }),
        terms@[13] is Scaled && terms@[13]->Scaled_value@ == p.merchant_avg_amount@
            && terms@[13]->Scaled_most == 10_000,
        terms@[14] is Padding,
        terms@[15] is Padding,
{
    let f = features(*p);
    assert forall|i: int| 0 <= i < 16 implies terms@[i]@ == #[trigger] f[i] by {
        assert(views(terms)[i] == terms@[i]@);
    }
    lemma_dimensions(*p);
    timestamp::lemma_parts(p.requested_at@);
    assert(terms@[0]@ == f[0] && terms@[1]@ == f[1] && terms@[2]@ == f[2] && terms@[3]@ == f[3]);
    assert(terms@[4]@ == f[4] && terms@[5]@ == f[5] && terms@[6]@ == f[6] && terms@[7]@ == f[7]);
    assert(terms@[8]@ == f[8] && terms@[9]@ == f[9] && terms@[10]@ == f[10] && terms@[11]@
        == f[11]);
    assert(terms@[12]@ == f[12] && terms@[13]@ == f[13] && terms@[14]@ == f[14] && terms@[15]@
        == f[15]);
}

/// The minutes that are computed for a request with a previous transaction are those
/// between the two timestamps.
pub proof fn lemma_minutes_term(p: &TransactionPayload, terms: [Term; 16])
    requires
        featured(*p),
        p.has_last_transaction,
        p.last_tx_timestamp is Some,
        call_ensures(vectorize, (p,), terms),
    ensures
        ({
            let now = timestamp::parts(p.requested_at@);
            let last = timestamp::parts(p.last_tx_timestamp->0@);
            &&& terms@[5] is Counted
            &&& terms@[5]->Counted_count == 1440 * (timestamp::days(
                now.year as int,
                now.month as int,
                now.day as int,
            ) - timestamp::days(last.year as int, last.month as int, last.day as int)) + 60 * (
            now.hour - last.hour) + (now.minute - last.minute)
            &&& terms@[5]->Counted_most == 1440
        }),
{
    lemma_elapsed(*p);
    assert(views(terms)[5] == terms@[5]@);
}

/// A body is scored by the answer to its features, and by nothing only where it cannot
/// be parsed or holds a timestamp that is not well-formed.
pub proof fn lemma_scores<F: Fn(&[Term; 16]) -> u8>(
    body: &[u8],
    query: F,
    p: TransactionPayload,
    frauds: usize,
)
    requires
        call_ensures(score::<F>, (body, query), frauds),
    ensures
        parser::payload_of(body@) is None ==> frauds == 0,
        p.wf() && parser::payload_of(body@) == Some(p@) && timestamp::well_formed(p@.requested_at)
            && (p@.last_transaction is Some ==> timestamp::well_formed(
            (p@.last_transaction->0).timestamp,
        )) ==> exists|terms: [Term; 16], found: u8|
            {
                &&& #[trigger] query.ensures((&terms,), found)
                &&& frauds == found
                &&& views(terms) == features(p)
            },
{
    if p.wf() && parser::payload_of(body@) == Some(p@) && timestamp::well_formed(p@.requested_at)
        && (p@.last_transaction is Some ==> timestamp::well_formed(
        (p@.last_transaction->0).timestamp,
    )) {
        lemma_undated(body@, p);
        let (terms, found) = choose|terms: [Term; 16], found: u8|
            features_of_body(body@, terms) && #[trigger] query.ensures((&terms,), found) && frauds
                == found;
        let r = choose|r: TransactionPayload|
            #![trigger features(r)]
            r.wf() && featured(r) && parser::payload_of(body@) == Some(r@) && views(terms)
                == features(r);
        lemma_featured(p, r);
        assert(query.ensures((&terms,), found) && views(terms) == features(p));
    }
}

/// Well-formed timestamps are enough for a request to have features: no other field can
/// take them away.
pub proof fn lemma_dated_is_featured(p: TransactionPayload)
    requires
        p.known_merchants_len <= 16,
        timestamp::well_formed(p.requested_at@),
        p.has_last_transaction && p.last_tx_timestamp is Some ==> timestamp::well_formed(
            p.last_tx_timestamp->0@,
        ),
        p.requested_at@.len() == 20,
    ensures
        dated(p),
        featured(p),
{
    let at = p.requested_at@;
    timestamp::lemma_well_formed(at);
    if p.has_last_transaction && p.last_tx_timestamp is Some {
        timestamp::lemma_well_formed(p.last_tx_timestamp->0@);
    }
}

} // verus!
