use rinha::vector::{time_features, TimeError, TimeFeatures};
use rinha::vector::{known_contains, parse_iso_z, ParseError, Parser, Span, QUANT_SCALE};

const BODY: &str = r#"{"id":"tx-1","transaction":{"amount":123.45,"installments":3,"requested_at":"2026-01-15T10:30:00Z"},"customer":{"avg_amount":100.0,"tx_count_24h":5,"known_merchants":["MERC-1","MERC-2"]},"merchant":{"id":"MERC-2","mcc":"5411","avg_amount":80.5},"terminal":{"is_online":true,"card_present":false,"km_from_home":12.5},"last_transaction":null}"#;

const BODY_WITH_LAST: &str = r#"{"id":"tx-2","transaction":{"amount":9.9,"installments":12,"requested_at":"2026-03-01T00:00:00Z"},"customer":{"avg_amount":50,"tx_count_24h":0,"known_merchants":[]},"merchant":{"id":"MERC-9","mcc":"7995","avg_amount":1e3},"terminal":{"is_online":false,"card_present":true,"km_from_home":0},"last_transaction":{"timestamp":"2026-02-28T23:59:00Z","km_from_current":-1.5}}"#;

fn text<'a>(body: &'a str, s: Span) -> &'a str {
    &body[s.start..s.end]
}

#[test]
fn parses_a_full_request() {
    let mut p = Parser::new(BODY.as_bytes());
    let f = p.parse().unwrap();
    assert_eq!(text(BODY, f.amount), "123.45");
    assert_eq!(f.installments, 3);
    assert_eq!(text(BODY, f.requested_at), "2026-01-15T10:30:00Z");
    assert_eq!(text(BODY, f.avg_amount), "100.0");
    assert_eq!(f.tx_count_24h, 5);
    assert_eq!(&BODY[f.known_lo..f.known_hi], r#""MERC-1","MERC-2""#);
    assert_eq!(text(BODY, f.merchant_id), "MERC-2");
    assert_eq!(text(BODY, f.mcc), "5411");
    assert_eq!(text(BODY, f.merchant_avg), "80.5");
    assert!(f.is_online);
    assert!(!f.card_present);
    assert_eq!(text(BODY, f.km_from_home), "12.5");
    assert!(f.last_tx.is_none());
}

#[test]
fn parses_a_request_with_last_transaction() {
    let mut p = Parser::new(BODY_WITH_LAST.as_bytes());
    let f = p.parse().unwrap();
    assert_eq!(text(BODY_WITH_LAST, f.amount), "9.9");
    assert_eq!(f.installments, 12);
    assert_eq!(f.known_lo, f.known_hi);
    assert_eq!(text(BODY_WITH_LAST, f.merchant_avg), "1e3");
    assert!(!f.is_online);
    assert!(f.card_present);
    assert_eq!(text(BODY_WITH_LAST, f.km_from_home), "0");
    let (ts, km) = f.last_tx.unwrap();
    assert_eq!(text(BODY_WITH_LAST, ts), "2026-02-28T23:59:00Z");
    assert_eq!(text(BODY_WITH_LAST, km), "-1.5");
}

#[test]
fn truncated_request_is_out_of_bounds() {
    let cut = &BODY.as_bytes()[..40];
    let mut p = Parser::new(cut);
    assert_eq!(p.parse(), Err(ParseError::OutOfBounds));
    let mut empty = Parser::new(&[]);
    assert_eq!(empty.parse(), Err(ParseError::OutOfBounds));
}

#[test]
fn cursor_primitives() {
    let buf = br#"  "key": "value", "n":42, "b":true "#;
    let mut p = Parser::new(buf);
    p.skip_to(b'"');
    assert_eq!(p.pos, 2);
    p.skip_string();
    assert_eq!(p.pos, 7);
    let s = p.parse_string_after_colon();
    assert_eq!(&buf[s.start..s.end], b"value");
    p.skip_quoted();
    assert_eq!(p.parse_u32(), 42);
    p.skip_quoted();
    assert!(p.parse_bool());
    assert_eq!(p.pos, buf.len() - 1);
}

#[test]
fn string_and_bool_readers() {
    let buf = br#"x "abc" "def"#;
    let mut p = Parser::new(buf);
    let s = p.parse_string();
    assert_eq!(&buf[s.start..s.end], b"abc");
    assert_eq!(p.pos, 7);
    let t = p.parse_string();
    assert_eq!(&buf[t.start..t.end], b"def");
    assert_eq!(t.end, buf.len());
    assert_eq!(p.pos, buf.len() + 1);
    let b = br#""b":true,"#;
    let mut q = Parser::new(b);
    assert!(q.parse_bool());
    assert_eq!(q.pos, 8);
    let mut r = Parser::new(b"\"b\": false");
    assert!(!r.parse_bool());
    assert_eq!(r.pos, 4);
}

#[test]
fn u32_wraps_like_release_arithmetic() {
    let buf = b":4294967297x";
    let mut p = Parser::new(buf);
    assert_eq!(p.parse_u32(), 1);
    assert_eq!(p.pos, 11);
    let mut q = Parser::new(b"no colon");
    assert_eq!(q.parse_u32(), 0);
    assert_eq!(q.pos, 9);
}

#[test]
fn number_span_stops_at_non_number_bytes() {
    let buf = b"\"x\": -1.5e+3,";
    let mut p = Parser::new(buf);
    let s = p.parse_number();
    assert_eq!(s.start, s.end);
    let mut p2 = Parser::new(b"\"x\":-1.5e+3,");
    let s2 = p2.parse_number();
    assert_eq!(&b"\"x\":-1.5e+3,"[s2.start..s2.end], b"-1.5e+3");
}

#[test]
fn known_merchants_lookup() {
    let buf = br#"["MERC-1","MERC-22"]"#;
    let n = buf.len();
    assert!(known_contains(buf, 1, n - 1, b"MERC-1"));
    assert!(known_contains(buf, 1, n - 1, b"MERC-22"));
    assert!(!known_contains(buf, 1, n - 1, b"MERC-2"));
    assert!(!known_contains(buf, 1, n - 1, b"ERC-1"));
    assert!(!known_contains(buf, 1, 1, b"MERC-1"));
    assert!(known_contains(b"\"\"", 0, 2, b""));
}

#[test]
fn known_merchants_match_whole_elements_only() {
    let buf = br#""A","B""#;
    assert!(!known_contains(buf, 0, 7, b","));
    assert!(known_contains(buf, 0, 7, b"A"));
    assert!(known_contains(buf, 0, 7, b"B"));
    assert!(!known_contains(buf, 0, 7, br#"A","B"#));
    assert!(!known_contains(buf, 0, 6, b"B"));
    assert!(!known_contains(br#"x"A""#, 0, 4, b"A"));
}

#[test]
fn iso_timestamps() {
    assert_eq!(parse_iso_z(b"2026-01-15T10:30:45Z"), Some((2026, 1, 15, 10, 30, 45)));
    assert_eq!(parse_iso_z(b"2026/01/15T10:30:45Z"), Some((2026, 1, 15, 10, 30, 45)));
    assert_eq!(parse_iso_z(b"2026-01-15 10:30:45Z"), None);
    assert_eq!(parse_iso_z(b"2026-01-15T10:30:45"), None);
    assert_eq!(parse_iso_z(b"2026-01-15T10:3a:45Z"), None);
    assert_eq!(parse_iso_z(b"2026-01-15T10:30:45+"), None);
}

#[test]
fn quant_scale_is_int24_max() {
    assert_eq!(QUANT_SCALE, (1 << 23) - 1);
}

#[test]
fn time_features_of_a_request() {
    let t = time_features(b"2026-01-15T10:30:00Z", None).unwrap();
    assert_eq!(t, TimeFeatures { hour: 10, weekday: 3, minutes_since_last: None });
    let t = time_features(b"2026-03-01T00:10:00Z", Some(b"2026-02-28T23:59:00Z")).unwrap();
    assert_eq!(t.minutes_since_last, Some(11));
    assert_eq!(t.weekday, 6);
    let t = time_features(b"2024-03-01T00:00:00Z", Some(b"2024-02-28T00:00:00Z")).unwrap();
    assert_eq!(t.minutes_since_last, Some(2 * 1440));
    assert_eq!(time_features(b"2026-01-15 10:30:00Z", None), Err(TimeError::RequestedAt));
    assert_eq!(
        time_features(b"2026-01-15T10:30:00Z", Some(b"yesterday")),
        Err(TimeError::LastTxTimestamp)
    );
    assert_eq!(
        time_features(b"bad", Some(b"also bad")),
        Err(TimeError::RequestedAt)
    );
}

#[test]
fn known_merchants_allow_whitespace_around_commas() {
    let buf = br#""A", "B""#;
    let n = buf.len();
    assert!(known_contains(buf, 0, n, b"B"));
    assert!(known_contains(buf, 0, n, b"A"));
    let spaced = b"[ \"A\" ,\n\t\"B\" ]";
    let m = spaced.len();
    assert!(known_contains(spaced, 1, m - 1, b"A"));
    assert!(known_contains(spaced, 1, m - 1, b"B"));
    assert!(!known_contains(spaced, 1, m - 1, b" "));
    assert!(!known_contains(br#""A" "B""#, 0, 7, b"B"));
}
