use rinha::parser::{
    copy20, copy4, parse, parse_bool, parse_number, parse_string, parse_string_array, parse_u32,
    skip_ws, value_start, Number, MAX_MERCHANTS,
};

/// The value that a number is written as.
fn value(n: &Number) -> f32 {
    let mut whole = 0.0f32;
    for d in n.whole {
        whole = whole * 10.0 + (d - b'0') as f32;
    }
    let mut fraction = 0.0f32;
    let mut scale = 1.0f32;
    for d in n.fraction {
        fraction = fraction * 10.0 + (d - b'0') as f32;
        scale *= 10.0;
    }
    let v = whole + fraction / scale;
    if n.negative {
        -v
    } else {
        v
    }
}

const NULL_LAST: &[u8] = br#"{
        "id": "unit-null-last",
        "transaction": { "amount": 123.45, "installments": 4, "requested_at": "2026-01-05T09:10:11Z" },
        "customer": { "avg_amount": 246.90, "tx_count_24h": 7, "known_merchants": ["MERCHANT-A","MERCHANT-B"] },
        "merchant": { "id": "MERCHANT-B", "mcc": "5411", "avg_amount": 88.50 },
        "terminal": { "is_online": false, "card_present": true, "km_from_home": 12.75 },
        "last_transaction": null
    }"#;

const WITH_LAST: &[u8] = br#"{"id":"unit-with-last","transaction":{"amount":345.67,"installments":6,"requested_at":"2026-02-06T16:40:30Z"},"customer":{"avg_amount":456.78,"tx_count_24h":5,"known_merchants":["MERCHANT-C","MERCHANT-C","MERCHANT-D","MERCHANT-D"]},"merchant":{"id":"MERCHANT-D","mcc":"5912","avg_amount":210.25},"terminal":{"is_online":false,"card_present":true,"km_from_home":22.5},"last_transaction":{"timestamp":"2026-02-06T15:10:10Z","km_from_current":33.75}}"#;

#[test]
fn parses_null_last_transaction() {
    let p = parse(NULL_LAST).unwrap();
    assert!((value(&p.amount) - 123.45).abs() < 1e-5);
    assert_eq!(p.installments, 4);
    assert_eq!(&p.requested_at, b"2026-01-05T09:10:11Z");
    assert!((value(&p.avg_amount) - 246.90).abs() < 1e-5);
    assert_eq!(p.tx_count_24h, 7);
    assert_eq!(p.known_merchants_len, 2);
    assert_eq!(p.merchant_id, b"MERCHANT-B");
    assert_eq!(&p.mcc, b"5411");
    assert!((value(&p.merchant_avg_amount) - 88.50).abs() < 1e-5);
    assert!(!p.is_online);
    assert!(p.card_present);
    assert!((value(&p.km_from_home) - 12.75).abs() < 1e-5);
    assert!(!p.has_last_transaction);
    assert!(p.last_tx_timestamp.is_none());
    assert!(p.km_from_current.is_none());
    assert!(!p.is_unknown_merchant());
}

#[test]
fn parses_compact_with_last_transaction() {
    let p = parse(WITH_LAST).unwrap();
    assert!((value(&p.amount) - 345.67).abs() < 1e-5);
    assert_eq!(p.merchant_id, b"MERCHANT-D");
    assert_eq!(&p.mcc, b"5912");
    assert!((value(&p.merchant_avg_amount) - 210.25).abs() < 1e-5);
    assert!(p.has_last_transaction);
    assert_eq!(&p.last_tx_timestamp.unwrap(), b"2026-02-06T15:10:10Z");
    assert!((value(&p.km_from_current.unwrap()) - 33.75).abs() < 1e-5);
    assert_eq!(p.known_merchants_len, 4);
    assert!(!p.is_unknown_merchant());
}

#[test]
fn detects_unknown_merchant() {
    const UNKNOWN: &[u8] = br#"{"id":"unit-unknown","transaction":{"amount":10.0,"installments":1,"requested_at":"2026-04-07T12:00:00Z"},"customer":{"avg_amount":10.0,"tx_count_24h":1,"known_merchants":["MERCHANT-A","MERCHANT-B"]},"merchant":{"id":"MERCHANT-Z","mcc":"5411","avg_amount":10.0},"terminal":{"is_online":true,"card_present":false,"km_from_home":1.0},"last_transaction":null}"#;
    let p = parse(UNKNOWN).unwrap();
    assert_eq!(p.merchant_id, b"MERCHANT-Z");
    assert!(p.is_unknown_merchant());
}

#[test]
fn malformed_returns_none() {
    assert!(parse(b"not json").is_none());
    assert!(parse(b"{}").is_none());
}

#[test]
fn every_missing_key_is_refused() {
    // Each key, and which of its occurrences belongs to the object that needs it.
    let keys = [
        ("\"transaction\":", 0),
        ("\"amount\":", 0),
        ("\"installments\":", 0),
        ("\"requested_at\":", 0),
        ("\"customer\":", 0),
        ("\"avg_amount\":", 0),
        ("\"tx_count_24h\":", 0),
        ("\"known_merchants\":", 0),
        ("\"merchant\":", 0),
        ("\"id\":", 1),
        ("\"mcc\":", 0),
        ("\"avg_amount\":", 1),
        ("\"terminal\":", 0),
        ("\"is_online\":", 0),
        ("\"card_present\":", 0),
        ("\"km_from_home\":", 0),
        ("\"last_transaction\":", 0),
        ("\"timestamp\":", 0),
        ("\"km_from_current\":", 0),
    ];
    let text = std::str::from_utf8(WITH_LAST).unwrap();
    assert!(parse(text.as_bytes()).is_some());
    for (key, which) in keys {
        let (at, _) = text.match_indices(key).nth(which).unwrap();
        let cut = format!("{}\"other\":{}", &text[..at], &text[at + key.len()..]);
        assert!(parse(cut.as_bytes()).is_none(), "{key} {which}");
    }
    // The id of the request itself is not asked for.
    assert!(parse(text.replacen("\"id\":", "\"other\":", 1).as_bytes()).is_some());
}

#[test]
fn a_field_of_another_object_does_not_count() {
    let body = br#"{"transaction":{"amount":1.0,"installments":1,"requested_at":"2026-04-07T12:00:00Z"},"customer":{"tx_count_24h":1,"known_merchants":[]},"merchant":{"id":"M","mcc":"5411","avg_amount":9.0},"terminal":{"is_online":true,"card_present":false,"km_from_home":1.0},"last_transaction":null}"#;
    assert!(parse(body).is_none());
    let text = std::str::from_utf8(body).unwrap();
    let whole = text.replacen("{\"tx_count_24h\"", "{\"avg_amount\":2.0,\"tx_count_24h\"", 1);
    let p = parse(whole.as_bytes()).unwrap();
    assert_eq!(p.avg_amount.whole, b"2");
    assert_eq!(p.merchant_avg_amount.whole, b"9");
    // An object that is not closed, or is none, is refused.
    assert!(parse(&whole.as_bytes()[..whole.len() - 30]).is_none());
    assert!(parse(whole.replacen("\"customer\":{", "\"customer\":[", 1).as_bytes()).is_none());
    assert!(parse(whole.replacen("null", "7", 1).as_bytes()).is_none());
}

#[test]
fn braces_in_strings_and_inner_objects_do_not_end_an_object() {
    let body = br#"{"transaction":{"note":"a}\"}b","more":{"x":{}},"amount":1.0,"installments":1,"requested_at":"2026-04-07T12:00:00Z"},"customer":{"avg_amount":2,"tx_count_24h":1,"known_merchants":["}","{"]},"merchant":{"id":"}","mcc":"5411","avg_amount":9.0},"terminal":{"is_online":true,"card_present":false,"km_from_home":1.0},"last_transaction":null}"#;
    let p = parse(body).unwrap();
    assert_eq!(p.amount.whole, b"1");
    assert_eq!(p.known_merchants_len, 2);
    assert!(!p.is_unknown_merchant());
    assert!(p.known_merchants[2..].iter().all(|m| m.is_empty()));
}

#[test]
fn positions_behind_the_end_hold_nothing() {
    assert!(parse_number(b"12", 3).is_none());
    assert_eq!(parse_u32(b"12", 3), None);
    assert_eq!(parse_u32(b"12", usize::MAX), None);
    assert!(parse_string(b"\"a\"", 9).is_none());
    assert!(parse_string_array(b"[]", 3).is_none());
    assert_eq!(skip_ws(b"  ", 5), 5);
}

#[test]
fn fields_are_looked_up_in_their_object() {
    // The merchant's average stands behind the customer's.
    let p = parse(WITH_LAST).unwrap();
    assert_eq!(p.avg_amount.whole, b"456");
    assert_eq!(p.merchant_avg_amount.whole, b"210");
    // The id of the request is not that of the merchant.
    assert_eq!(p.merchant_id, b"MERCHANT-D");
}

#[test]
fn numbers_are_read_as_written() {
    let n = parse_number(b"  -12.340,", 0).unwrap();
    assert!(n.negative);
    assert_eq!(n.whole, b"12");
    assert_eq!(n.fraction, b"340");
    let n = parse_number(b"x.5", 1).unwrap();
    assert!(n.whole.is_empty());
    assert_eq!(n.fraction, b"5");
    let n = parse_number(b"7.", 0).unwrap();
    assert_eq!(n.whole, b"7");
    assert!(n.fraction.is_empty());
    assert!(parse_number(b"-.", 0).is_none());
    assert!(parse_number(b"+1", 0).is_none());
    assert!(parse_number(b"", 0).is_none());
}

#[test]
fn integers_wrap_around() {
    assert_eq!(parse_u32(b" 42}", 0), Some(42));
    assert_eq!(parse_u32(b"4294967295", 0), Some(u32::MAX));
    assert_eq!(parse_u32(b"4294967296", 0), Some(0));
    assert_eq!(parse_u32(b"99999999999", 0), Some((99_999_999_999u64 % (1 << 32)) as u32));
    assert_eq!(parse_u32(b"-1", 0), None);
}

#[test]
fn booleans_and_white_space() {
    assert_eq!(parse_bool(b"\t\n true", 0), Some(true));
    assert_eq!(parse_bool(b"falsehood", 0), Some(false));
    assert_eq!(parse_bool(b"tru", 0), None);
    assert_eq!(parse_bool(b"", 0), None);
    assert_eq!(skip_ws(b" \r\n\tx ", 0), 4);
    assert_eq!(skip_ws(b"   ", 1), 3);
}

#[test]
fn strings_end_at_the_next_quote() {
    let (s, next) = parse_string(b" \"ab\"c\"", 0).unwrap();
    assert_eq!(s, b"ab");
    assert_eq!(next, 5);
    assert!(parse_string(b"\"ab", 0).is_none());
    assert!(parse_string(b"ab\"", 0).is_none());
}

#[test]
fn values_are_found_behind_the_first_key() {
    let text = b"{\"a\":1,\"b\":2,\"a\":3}";
    assert_eq!(value_start(text, "\"a\":"), Some(5));
    assert_eq!(value_start(&text[2..], "\"a\":"), Some(15));
    assert_eq!(value_start(text, "\"c\":"), None);
}

#[test]
fn lists_keep_as_many_as_there_is_room_for() {
    let mut text = String::from("[");
    for i in 0..20 {
        text.push_str(&format!("\"m{i}\" ,"));
    }
    text.push(']');
    let (items, n) = parse_string_array(text.as_bytes(), 0).unwrap();
    assert_eq!(n, MAX_MERCHANTS);
    for (i, item) in items.iter().enumerate() {
        assert_eq!(item, &format!("m{i}").as_bytes());
    }
    let (items, n) = parse_string_array(b"[]", 0).unwrap();
    assert_eq!(n, 0);
    assert!(items.iter().all(|m| m.is_empty()));
    let (items, n) = parse_string_array(b"[,\"a\"\"b\",,]", 0).unwrap();
    assert_eq!(n, 2);
    assert_eq!(items[1], b"b");
    assert!(parse_string_array(b"[\"a\"", 0).is_none());
    assert!(parse_string_array(b"[1]", 0).is_none());
    assert!(parse_string_array(b"\"a\"", 0).is_none());
}

#[test]
fn repeated_merchants_change_nothing() {
    let once = br#"{"transaction":{"amount":1,"installments":1,"requested_at":"2026-04-07T12:00:00Z"},"customer":{"avg_amount":1,"tx_count_24h":1,"known_merchants":["A","A","A"]},"merchant":{"id":"B","mcc":"5411","avg_amount":1},"terminal":{"is_online":true,"card_present":false,"km_from_home":1},"last_transaction":null}"#;
    let p = parse(once).unwrap();
    assert_eq!(p.known_merchants_len, 3);
    assert!(p.is_unknown_merchant());
}

#[test]
fn copies_need_enough_bytes() {
    assert_eq!(copy4(b"54115"), Some(*b"5411"));
    assert_eq!(copy4(b"541"), None);
    assert_eq!(copy20(b"2026-01-05T09:10:11Zrest"), Some(*b"2026-01-05T09:10:11Z"));
    assert_eq!(copy20(b"2026-01-05T09:10:11"), None);
}
