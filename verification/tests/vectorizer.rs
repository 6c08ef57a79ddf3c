use rinha::mcc_risk;
use rinha::parser::{parse, Number};
use rinha::timestamp::{
    days_from_civil, is_readable, is_well_formed, minutes_diff, sakamoto, ParsedTs,
};
use rinha::vectorizer::{has_features, is_dated, score, vectorize, Term};

fn value(n: &Number) -> f32 {
    let mut whole = 0.0f32;
    for d in n.whole {
        whole = whole * 10.0 + (d - b'0') as f32;
    }
    let mut fraction = 0.0f32;
    let mut scale = 1.0f32;
    for d in n.fraction {
        fraction = fraction * 10.0 + (d - b'0') as f32;
        scale *= 10.0;
    }
    let v = whole + fraction / scale;
    if n.negative {
        -v
    } else {
        v
    }
}

fn clamp(x: f32) -> f32 {
    x.max(0.0).min(1.0)
}

fn evaluate(terms: &[Term; 16]) -> [f32; 16] {
    let mut v = [0.0f32; 16];
    for (slot, term) in v.iter_mut().zip(terms) {
        *slot = match term {
            Term::Scaled { value: x, most } => clamp(value(x) / *most as f32),
            Term::Counted { count, most } => clamp(*count as f32 / *most as f32),
            Term::Relative { value: x, base, most } => {
                if value(base) > 0.0 {
                    clamp(value(x) / value(base) / *most as f32)
                } else {
                    0.0
                }
            }
            Term::Fraction { part, whole } => *part as f32 / *whole as f32,
            Term::Weight { hundredths } => *hundredths as f32 / 100.0,
            Term::Flag { holds } => {
                if *holds {
                    1.0
                } else {
                    0.0
                }
            }
            Term::Missing => -1.0,
            Term::Padding => 0.0,
        };
    }
    v
}

#[test]
fn known_mccs_have_expected_risk() {
    assert_eq!(mcc_risk(b"5411") as f32 / 100.0, 0.15);
    assert_eq!(mcc_risk(b"7995") as f32 / 100.0, 0.85);
    assert_eq!(mcc_risk(b"5999") as f32 / 100.0, 0.50);
}

#[test]
fn unknown_mcc_defaults_to_half() {
    assert_eq!(mcc_risk(b"0000") as f32 / 100.0, 0.5);
    assert_eq!(mcc_risk(b"9999") as f32 / 100.0, 0.5);
}

#[test]
fn each_known_mcc_has_its_weight() {
    let table: [(&[u8; 4], u8); 10] = [
        (b"5411", 15),
        (b"5812", 30),
        (b"5912", 20),
        (b"5944", 45),
        (b"7801", 80),
        (b"7802", 75),
        (b"7995", 85),
        (b"4511", 35),
        (b"5311", 25),
        (b"5999", 50),
    ];
    for (code, risk) in table {
        assert_eq!(mcc_risk(code), risk);
    }
}

#[test]
fn day_of_week_known_dates() {
    // 2000-01-01 was a Saturday; Monday=0 mapping gives 5.
    assert_eq!(ParsedTs::from_iso(b"2000-01-01T00:00:00Z").weekday_mon0(), 5);
    // 2026-01-05 was a Monday; Monday=0 mapping gives 0.
    assert_eq!(ParsedTs::from_iso(b"2026-01-05T00:00:00Z").weekday_mon0(), 0);
}

#[test]
fn hour_extraction() {
    assert_eq!(ParsedTs::from_iso(b"2026-01-05T09:10:11Z").hour, 9);
    assert_eq!(ParsedTs::from_iso(b"2026-01-05T03:00:00Z").hour, 3);
}

#[test]
fn minutes_diff_same_day() {
    let a = *b"2026-02-06T16:40:30Z";
    let b = *b"2026-02-06T15:10:10Z";
    assert_eq!(minutes_diff(ParsedTs::from_iso(&a), ParsedTs::from_iso(&b)), 90);
}

#[test]
fn null_last_transaction_yields_sentinels() {
    const NULL_LAST: &[u8] = br#"{"id":"unit-null-last","transaction":{"amount":100.0,"installments":2,"requested_at":"2026-01-05T09:10:11Z"},"customer":{"avg_amount":200.0,"tx_count_24h":3,"known_merchants":["MERCHANT-B"]},"merchant":{"id":"MERCHANT-B","mcc":"5411","avg_amount":60.0},"terminal":{"is_online":false,"card_present":true,"km_from_home":29.0},"last_transaction":null}"#;
    let p = parse(NULL_LAST).unwrap();
    let v = evaluate(&vectorize(&p));
    assert_eq!(v[5], -1.0);
    assert_eq!(v[6], -1.0);
    assert_eq!(v[9], 0.0); // is_online false
    assert_eq!(v[10], 1.0); // card_present true
    assert_eq!(v[11], 0.0); // known merchant
    assert!((v[12] - 0.15).abs() < 1e-6); // mcc 5411
    assert_eq!(v[14], 0.0);
    assert_eq!(v[15], 0.0);
}

#[test]
fn dimensions_are_clamped() {
    const BIG: &[u8] = br#"{"id":"unit-clamp","transaction":{"amount":999999.0,"installments":99,"requested_at":"2026-04-07T12:00:00Z"},"customer":{"avg_amount":1.0,"tx_count_24h":999,"known_merchants":["MERCHANT-A"]},"merchant":{"id":"MERCHANT-Z","mcc":"7995","avg_amount":999999.0},"terminal":{"is_online":true,"card_present":false,"km_from_home":99999.0},"last_transaction":null}"#;
    let p = parse(BIG).unwrap();
    let v = evaluate(&vectorize(&p));
    assert_eq!(v[0], 1.0);
    assert_eq!(v[1], 1.0);
    assert_eq!(v[2], 1.0);
    assert_eq!(v[7], 1.0);
    assert_eq!(v[8], 1.0);
    assert_eq!(v[11], 1.0);
    assert!((v[12] - 0.85).abs() < 1e-6); // mcc 7995
}

const WITH_LAST: &[u8] = br#"{"id":"unit-with-last","transaction":{"amount":345.0,"installments":6,"requested_at":"2026-02-06T16:40:30Z"},"customer":{"avg_amount":456.0,"tx_count_24h":5,"known_merchants":["MERCHANT-D"]},"merchant":{"id":"MERCHANT-D","mcc":"5912","avg_amount":210.0},"terminal":{"is_online":false,"card_present":true,"km_from_home":22.0},"last_transaction":{"timestamp":"2026-02-06T15:10:10Z","km_from_current":33.0}}"#;

#[test]
fn a_previous_transaction_is_measured() {
    let p = parse(WITH_LAST).unwrap();
    let terms = vectorize(&p);
    assert!(matches!(terms[5], Term::Counted { count: 90, most: 1440 }));
    assert!(matches!(terms[6], Term::Scaled { most: 1000, .. }));
    assert!(matches!(terms[3], Term::Fraction { part: 16, whole: 23 }));
    // 2026-02-06 was a Friday.
    assert!(matches!(terms[4], Term::Fraction { part: 4, whole: 6 }));
    let v = evaluate(&terms);
    assert_eq!(v[0], 0.0345);
    assert_eq!(v[1], 0.5);
    assert_eq!(v[5], 0.0625);
    assert_eq!(v[8], 0.25);
    assert_eq!(v[12], 0.20);
}

#[test]
fn an_average_of_zero_gives_no_ratio() {
    let text = std::str::from_utf8(WITH_LAST).unwrap();
    let zero = text.replacen("456.0", "0.0", 1);
    let p = parse(zero.as_bytes()).unwrap();
    assert_eq!(evaluate(&vectorize(&p))[2], 0.0);
}

#[test]
fn bodies_are_scored_by_their_features() {
    let seen = score(WITH_LAST, |terms: &[Term; 16]| match terms[5] {
        Term::Counted { count: 90, .. } => 4,
        _ => 1,
    });
    assert_eq!(seen, 4);
    // What cannot be parsed counts as no fraud, whatever the search would say.
    assert_eq!(score(b"{}", |_: &[Term; 16]| 5), 0);
    // So does a timestamp that cannot be read.
    let text = std::str::from_utf8(WITH_LAST).unwrap();
    for (good, bad) in [
        ("2026-02-06T16", "2026-13-06T16"),
        ("2026-02-06T16", "2026-00-06T16"),
        ("2026-02-06T16:40:30Z", "xxxxxxxxxxxxxxxxxxxx"),
        ("2026-02-06T16:40:30Z", "--------------------"),
        ("2026-02-06T15", "2026-02-O6T15"),
    ] {
        let odd = text.replacen(good, bad, 1);
        assert!(parse(odd.as_bytes()).is_some());
        assert!(!is_dated(&parse(odd.as_bytes()).unwrap()), "{bad}");
        assert_eq!(score(odd.as_bytes(), |_: &[Term; 16]| 5), 0, "{bad}");
    }
    let odd = text.replacen("2026-02-06T16", "2026-13-06T16", 1);
    assert!(!has_features(&parse(odd.as_bytes()).unwrap()));
}

#[test]
fn timestamps_are_checked() {
    assert!(is_readable(b"2026-02-06T16:40:30Z"));
    assert!(!is_readable(b"2026-0 -06T16:40:30Z"));
    assert!(is_well_formed(b"2026-02-06T16:40:30Z"));
    assert!(!is_well_formed(b"2026-02-06T1x:40:30Z"));
    assert!(!is_well_formed(b"2026-13-06T16:40:30Z"));
    // Only the digits are looked at.
    assert!(is_readable(b"2026/02/06 16.40.30Z"));
}

#[test]
fn days_are_counted_from_the_epoch() {
    assert_eq!(days_from_civil(1970, 1, 1), 0);
    assert_eq!(days_from_civil(1969, 12, 31), -1);
    assert_eq!(days_from_civil(2000, 3, 1), 11017);
    assert_eq!(days_from_civil(2024, 2, 29) + 1, days_from_civil(2024, 3, 1));
    assert_eq!(days_from_civil(2023, 2, 28) + 1, days_from_civil(2023, 3, 1));
    assert_eq!(days_from_civil(1900, 2, 28) + 1, days_from_civil(1900, 3, 1));
    assert_eq!(days_from_civil(0, 3, 1), -719468);
    // Months that do not exist, and years far away, count on.
    assert_eq!(days_from_civil(2026, 99, 1) - days_from_civil(2026, 3, 1), 2938);
    assert_eq!(days_from_civil(20_000_000_000_000_000, 3, 1), 7_304_849_999_999_280_532);
    assert_eq!(sakamoto(7_000_000_000_000_000_000, 3, 1), 3);
    assert_eq!(sakamoto(0, 1, 1), 0);
    assert_eq!(sakamoto(-1, 3, 1), 2);
}

#[test]
fn weekdays_follow_the_days() {
    assert_eq!(sakamoto(1970, 1, 1), 4);
    for y in [1, 1600, 1999, 2000, 2026] {
        for m in 1..=12 {
            assert_eq!(sakamoto(y, m, 17), (days_from_civil(y, m, 17) + 4).rem_euclid(7));
        }
    }
}

#[test]
fn minutes_add_up_over_days() {
    let a = ParsedTs::from_iso(b"2026-02-28T23:59:00Z");
    let b = ParsedTs::from_iso(b"2026-03-01T00:01:00Z");
    assert_eq!(minutes_diff(b, a), 2);
    assert_eq!(minutes_diff(a, b), -2);
    let c = ParsedTs::from_iso(b"2026-03-01T23:59:00Z");
    assert_eq!(minutes_diff(c, a), 1440);
    assert_eq!(c.total_minutes() - a.total_minutes(), 1440);
    assert_eq!(c.minute_of_day(), 1439);
    assert!(c.same_date(b) && !c.same_date(a));
    assert_eq!(b.days_since_epoch(), days_from_civil(2026, 3, 1));
}
