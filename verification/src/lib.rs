//! Fraud scoring of card transactions.
//!
//! A request is parsed ([`parser`]), turned into a vector of features
//! ([`vectorizer`], [`timestamp`]), and compared with labelled reference vectors:
//! an index of them ([`layout`], [`index`]) is searched for the nearest ones
//! ([`search`], [`ranking`], [`distance`]), and how many of those are frauds
//! decides the answer ([`responses`]). The index is laid out by [`grouping`] and
//! [`builder`], around centroids that start at random places ([`sampling`]).
//! Requests are framed by [`http`] and served by [`conn`] and [`worker`]; [`net`]
//! holds what the sockets around them decide.
//!
//! The laws that span these modules have modules of their own: what is written in a
//! request is what is read from it ([`reading`]), what a client sends is what is framed
//! ([`framing`]) and answered ([`serving`]), and what a search answers is what it counts
//! ([`answers`]).
use vstd::prelude::*;

pub mod answers;
pub mod builder;
pub mod bytes;
pub mod conn;
pub mod distance;
pub mod framing;
pub mod grouping;
pub mod http;
pub mod index;
pub mod layout;
pub mod net;
pub mod parser;
pub mod ranking;
pub mod reading;
pub mod responses;
pub mod sampling;
pub mod search;
pub mod serving;
pub mod timestamp;
pub mod vectorizer;
pub mod worker;

verus! {

/// The amount that counts as the highest.
pub const MAX_AMOUNT: u32 = 10_000;

/// The number of installments that counts as the highest.
pub const MAX_INSTALLMENTS: u32 = 12;

/// The ratio of an amount to the customer's average that counts as the highest.
pub const AMOUNT_VS_AVG_RATIO: u32 = 10;

/// The minutes since the previous transaction that count as the most: a day.
pub const MAX_MINUTES: u32 = 1_440;

/// The kilometres that count as the farthest.
pub const MAX_KM: u32 = 1_000;

/// The number of transactions in a day that counts as the highest.
pub const MAX_TX_COUNT_24H: u32 = 20;

/// The average amount of a merchant that counts as the highest.
pub const MAX_MERCHANT_AVG_AMOUNT: u32 = 10_000;

/// Number of feature dimensions.
pub const DIMS: usize = 14;

/// Number of dimensions of a stored vector. Those behind the features are zero.
pub const DIMS_PADDED: usize = 16;

/// Number of nearest neighbours to consider.
pub const K: usize = 5;

/// How many of the [`K`] neighbours must be frauds for a transaction to be
/// denied: a score of 0.6.
pub const THRESHOLD: usize = 3;

/// The risk weight of a merchant category code, in hundredths. A code that is
/// not known weighs as much as one in the middle.
pub open spec fn risk_of(mcc: Seq<u8>) -> u8 {
    if mcc == bytes::ascii("5411"@) {
        15
    } else if mcc == bytes::ascii("5812"@) {
        30
    } else if mcc == bytes::ascii("5912"@) {
        20
    } else if mcc == bytes::ascii("5944"@) {
        45
    } else if mcc == bytes::ascii("7801"@) {
        80
    } else if mcc == bytes::ascii("7802"@) {
        75
    } else if mcc == bytes::ascii("7995"@) {
        85
    } else if mcc == bytes::ascii("4511"@) {
        35
    } else if mcc == bytes::ascii("5311"@) {
        25
    } else {
        50
    }
}

/// Returns the risk weight of a merchant category code, in hundredths.
pub fn mcc_risk(mcc: &[u8; 4]) -> (risk: u8)
    ensures
        risk == risk_of(mcc@),
{
    proof {
        reveal_strlit("5411");
        reveal_strlit("5812");
        reveal_strlit("5912");
        reveal_strlit("5944");
        reveal_strlit("7801");
        reveal_strlit("7802");
        reveal_strlit("7995");
        reveal_strlit("4511");
        reveal_strlit("5311");
    }
    if bytes::bytes_equal(mcc, bytes::ascii_bytes("5411")) {
        15
    } else if bytes::bytes_equal(mcc, bytes::ascii_bytes("5812")) {
        30
    } else if bytes::bytes_equal(mcc, bytes::ascii_bytes("5912")) {
        20
    } else if bytes::bytes_equal(mcc, bytes::ascii_bytes("5944")) {
        45
    } else if bytes::bytes_equal(mcc, bytes::ascii_bytes("7801")) {
        80
    } else if bytes::bytes_equal(mcc, bytes::ascii_bytes("7802")) {
        75
    } else if bytes::bytes_equal(mcc, bytes::ascii_bytes("7995")) {
        85
    } else if bytes::bytes_equal(mcc, bytes::ascii_bytes("4511")) {
        35
    } else if bytes::bytes_equal(mcc, bytes::ascii_bytes("5311")) {
        25
    } else {
        50
    }
}

/// The weights by the number that a code writes: nine codes have one of their own, and
/// every other code, whatever it holds, weighs as much as one in the middle.
pub proof fn lemma_weights(mcc: Seq<u8>, code: int)
    requires
        mcc.len() == 4,
        code == 1000 * (mcc[0] - 0x30) + 100 * (mcc[1] - 0x30) + 10 * (mcc[2] - 0x30) + (mcc[3]
            - 0x30),
    ensures
        risk_of(mcc) != 50 ==> reading::all_digits(mcc) && set![
            5411int,
            5812,
            5912,
            5944,
            7801,
            7802,
            7995,
            4511,
            5311,
        ].contains(code),
        reading::all_digits(mcc) ==> {
            &&& code == 5411 ==> risk_of(mcc) == 15
            &&& code == 5812 ==> risk_of(mcc) == 30
            &&& code == 5912 ==> risk_of(mcc) == 20
            &&& code == 5944 ==> risk_of(mcc) == 45
            &&& code == 7801 ==> risk_of(mcc) == 80
            &&& code == 7802 ==> risk_of(mcc) == 75
            &&& code == 7995 ==> risk_of(mcc) == 85
            &&& code == 4511 ==> risk_of(mcc) == 35
            &&& code == 5311 ==> risk_of(mcc) == 25
        },
{
    reveal_strlit("5411");
    reveal_strlit("5812");
    reveal_strlit("5912");
    reveal_strlit("5944");
    reveal_strlit("7801");
    reveal_strlit("7802");
    reveal_strlit("7995");
    reveal_strlit("4511");
    reveal_strlit("5311");
    if reading::all_digits(mcc) {
        assert(0x30 <= mcc[0] <= 0x39 && 0x30 <= mcc[1] <= 0x39 && 0x30 <= mcc[2] <= 0x39 && 0x30
            <= mcc[3] <= 0x39);
        assert(code == 5411 ==> mcc =~= bytes::ascii("5411"@));
        assert(code == 5812 ==> mcc =~= bytes::ascii("5812"@));
        assert(code == 5912 ==> mcc =~= bytes::ascii("5912"@));
        assert(code == 5944 ==> mcc =~= bytes::ascii("5944"@));
        assert(code == 7801 ==> mcc =~= bytes::ascii("7801"@));
        assert(code == 7802 ==> mcc =~= bytes::ascii("7802"@));
        assert(code == 7995 ==> mcc =~= bytes::ascii("7995"@));
        assert(code == 4511 ==> mcc =~= bytes::ascii("4511"@));
        assert(code == 5311 ==> mcc =~= bytes::ascii("5311"@));
    }
}

} // verus!
