use idea_db::text::char_is_whitespace;
use idea_db::json::{canonical_json, Json};
use idea_db::util::{
    derived_id, digest_text, numeric_tokens, parse_rfc3339, sha256_hex, to_utc_key, utc_key,
};

fn num(n: &str) -> Json {
    Json::Number(n.to_string())
}

fn obj(fields: Vec<(&str, Json)>) -> Json {
    Json::Object(fields.into_iter().map(|(k, v)| (k.to_string(), v)).collect())
}

#[test]
fn canonical_json_sorts_keys_and_is_stable() {
    let a = obj(vec![
        ("b", num("1")),
        ("a", obj(vec![("z", Json::Array(vec![num("1"), num("2")])), ("y", Json::Null)])),
    ]);
    let b = obj(vec![
        ("a", obj(vec![("y", Json::Null), ("z", Json::Array(vec![num("1"), num("2")]))])),
        ("b", num("1")),
    ]);
    assert_eq!(canonical_json(&a), canonical_json(&b));
    assert_eq!(canonical_json(&a), r#"{"a":{"y":null,"z":[1,2]},"b":1}"#);
}

#[test]
fn canonical_json_preserves_array_order() {
    let a = Json::Array(vec![num("2"), num("1")]);
    let b = Json::Array(vec![num("1"), num("2")]);
    assert_ne!(canonical_json(&a), canonical_json(&b));
}

#[test]
fn canonical_json_escapes_strings() {
    let a = obj(vec![("k", Json::Str("a\"b\\c\n".to_string())), ("t", Json::Bool(true))]);
    assert_eq!(canonical_json(&a), r#"{"k":"a\"b\\c\n","t":true}"#);
}

#[test]
fn derived_id_is_deterministic() {
    assert_eq!(derived_id("rev", "k:rev_a"), derived_id("rev", "k:rev_a"));
    assert_ne!(derived_id("rev", "k:rev_a"), derived_id("rev", "k:rev_b"));
    assert!(derived_id("rev", "x").starts_with("rev_"));
}

#[test]
fn sha256_of_known_text() {
    assert_eq!(
        sha256_hex(b"abc"),
        "ba7816bf8f01cfea414140de5dae2223b00361a396177a9cb410ff61f20015ad"
    );
    assert_eq!(
        digest_text("abc"),
        "sha256:ba7816bf8f01cfea414140de5dae2223b00361a396177a9cb410ff61f20015ad"
    );
}

#[test]
fn zero_fraction_sorts_before_the_next_millisecond() {
    let zero = to_utc_key(parse_rfc3339("2026-01-04T09:00:00+09:00").unwrap());
    let one = to_utc_key(parse_rfc3339("2026-01-04T00:00:00.001Z").unwrap());
    assert_eq!(zero, "2026-01-04T00:00:00.000Z");
    assert!(zero < one);
    assert_ne!(numeric_tokens("-3 degrees"), numeric_tokens("3 degrees"));
}

#[test]
fn rfc3339_requires_an_offset() {
    assert!(parse_rfc3339("2026-09-01T10:00:00+09:00").is_some());
    assert!(parse_rfc3339("2026-09-01T01:00:00Z").is_some());
    assert!(parse_rfc3339("2026-09-01T10:00:00").is_none());
    assert!(parse_rfc3339("2026-09-01").is_none());
}

#[test]
fn utc_key_orders_across_offsets() {
    let seoul = parse_rfc3339("2026-09-01T10:00:00+09:00").unwrap();
    let utc = parse_rfc3339("2026-09-01T01:00:00Z").unwrap();
    assert_eq!(to_utc_key(seoul), to_utc_key(utc));
}

#[test]
fn utc_key_of_text() {
    assert_eq!(
        utc_key("2026-09-01T10:00:00.5+09:00"),
        Some("2026-09-01T01:00:00.500Z".to_string())
    );
    assert_eq!(utc_key("yesterday"), None);
}

#[test]
fn numeric_tokens_detect_behaviour_change() {
    assert_ne!(numeric_tokens("타임아웃 3초"), numeric_tokens("타임아웃 30초"));
    assert_eq!(
        numeric_tokens("연속 5회 실패시 30분 잠금"),
        numeric_tokens("연속 5회 실패 시 30분 동안 잠근다")
    );
    assert_eq!(numeric_tokens("1,204건"), numeric_tokens("1204건"));
    assert_eq!(numeric_tokens("30.0분"), numeric_tokens("30분"));
    assert_eq!(numeric_tokens("5회 30분"), numeric_tokens("30분 안에 5회"));
}

#[test]
fn numeric_tokens_are_sorted_normal_forms() {
    assert_eq!(numeric_tokens("30.50 and 1,000 and 007"), vec!["1000", "30.5", "7"]);
    assert!(numeric_tokens("no numbers").is_empty());
}

#[test]
fn an_instant_past_the_last_utc_year_has_no_key() {
    // Valid as written, but 10000-01-01T00:59:59Z in UTC.
    assert!(parse_rfc3339("9999-12-31T23:59:59-01:00").is_none());
    assert!(utc_key("9999-12-31T23:59:59-01:00").is_none());
    assert_eq!(utc_key("9999-12-31T23:59:59Z").unwrap(), "9999-12-31T23:59:59.000Z");
    assert_eq!(utc_key("2026-09-10T08:00:00+09:00").unwrap(), "2026-09-09T23:00:00.000Z");
}

#[test]
fn white_space_is_the_unicode_set() {
    for c in [' ', '\t', '\n', '\u{b}', '\u{c}', '\r', '\u{85}', '\u{a0}', '\u{1680}', '\u{2000}', '\u{200a}', '\u{2028}', '\u{2029}', '\u{202f}', '\u{205f}', '\u{3000}'] {
        assert!(char_is_whitespace(c), "{:?}", c);
        assert_eq!(char_is_whitespace(c), c.is_whitespace());
    }
    for c in ['a', '0', '\u{200b}', '\u{feff}', '\u{1f}', '\u{180e}'] {
        assert!(!char_is_whitespace(c), "{:?}", c);
        assert_eq!(char_is_whitespace(c), c.is_whitespace());
    }
}
