//! Staging packets: upload ids, digest binding and the size bound.

use idea_db::json::Json;
use idea_db::limits;
use idea_db::staging::{check_staging_capacity, validate_document, validate_upload_id, MAX_STAGING_ENTRIES};
use idea_db::util::digest_json;

fn obj(fields: Vec<(&str, Json)>) -> Json {
    Json::Object(fields.into_iter().map(|(k, v)| (k.to_string(), v)).collect())
}

fn package(records: Vec<Json>) -> Json {
    obj(vec![("protocol_version", Json::Number("1".to_string())), ("records", Json::Array(records))])
}

fn packet_with(package_digested: Json, package_stored: Json, summary: Json) -> Json {
    let raw = obj(vec![("source", Json::Str("raw".to_string()))]);
    obj(vec![
        ("raw_request_digest", Json::Str(digest_json(&raw))),
        ("prepared_digest", Json::Str(digest_json(&package_digested))),
        ("package", package_stored),
        ("summary", summary),
        ("created_at", Json::Str("2026-09-07T00:00:00Z".to_string())),
    ])
}

fn summary() -> Json {
    obj(vec![("records", Json::Number("0".to_string())), ("embeddings", Json::Number("0".to_string()))])
}

fn packet() -> Json {
    packet_with(package(vec![]), package(vec![]), summary())
}

#[test]
fn validates_packet_digest_and_id() {
    validate_upload_id("upload_0123456789abcdef").unwrap();
    assert!(validate_upload_id("upload bad").is_err());
    validate_document(&packet()).unwrap();
    let changed = packet_with(
        package(vec![]),
        package(vec![obj(vec![("id", Json::Str("changed".to_string()))])]),
        summary(),
    );
    assert_eq!(validate_document(&changed).unwrap_err().code, "digest_mismatch");
}

#[test]
fn rejects_packets_over_two_mebibytes() {
    let padding = obj(vec![("padding", Json::Str("x".repeat(limits::MAX_BODY_BYTES)))]);
    let value = packet_with(package(vec![]), package(vec![]), padding);
    let error = validate_document(&value).unwrap_err();
    assert_eq!(error.code, "validation_failed");
    assert_eq!(error.issues[0].code, "limit_exceeded");
}

// ---------------------------------------------------------------- own

#[test]
fn a_valid_packet_yields_its_lowercase_raw_digest_and_time() {
    let staged = validate_document(&packet()).unwrap();
    let raw = obj(vec![("source", Json::Str("raw".to_string()))]);
    assert_eq!(staged.raw_digest, digest_json(&raw));
    assert_eq!(staged.created_at, "2026-09-07T00:00:00Z");
    assert!(staged.canonical.starts_with("{\"created_at\":"));
}

#[test]
fn a_packet_must_be_an_object_with_a_summary() {
    let err = validate_document(&Json::Array(vec![])).unwrap_err();
    assert_eq!(err.issues[0].code, "invalid_type");
    let no_summary = packet_with(package(vec![]), package(vec![]), Json::Null);
    assert!(validate_document(&no_summary).is_err());
}

#[test]
fn upload_ids_are_record_ids_under_the_upload_prefix() {
    assert!(validate_upload_id("upload_0123456789ABCDEF").is_err());
    assert!(validate_upload_id("staged_0123456789abcdef").is_err());
    assert!(validate_upload_id("upload_").is_ok());
}

#[test]
fn the_staging_area_holds_a_bounded_number_of_packets() {
    assert!(check_staging_capacity(MAX_STAGING_ENTRIES as i64 - 1).is_ok());
    assert!(check_staging_capacity(MAX_STAGING_ENTRIES as i64).is_err());
}

// ---------------------------------------------------------------- stored packets

use idea_db::staging::{discard_step, put_step, staged_read, DiscardStep, PutStep, StagedNode};

fn node(digest: &str) -> StagedNode {
    StagedNode {
        raw_request_digest: Some(digest.to_string()),
        document: Some("{}".to_string()),
        applied: false,
        invalidated: false,
        withdrawn: false,
        withdrawn_at: None,
    }
}

#[test]
fn an_exact_retry_replays_and_a_different_body_conflicts() {
    assert!(matches!(put_step("upload_a", "sha256:1", &None), Ok(PutStep::Create)));
    assert!(matches!(put_step("upload_a", "sha256:1", &Some(node("sha256:1"))), Ok(PutStep::Replay(d)) if d == "{}"));
    assert_eq!(put_step("upload_a", "sha256:2", &Some(node("sha256:1"))).unwrap_err().code, "idempotency_conflict");
    let mut gone = node("sha256:1");
    gone.invalidated = true;
    assert_eq!(put_step("upload_a", "sha256:1", &Some(gone)).unwrap_err().issues[0].code, "staging_invalidated");
}

#[test]
fn reads_refuse_withdrawn_uploads() {
    assert!(staged_read("upload_a", &None).unwrap().is_none());
    assert_eq!(staged_read("upload_a", &Some(node("d"))).unwrap().as_deref(), Some("{}"));
    let mut w = node("d");
    w.withdrawn = true;
    assert_eq!(staged_read("upload_a", &Some(w)).unwrap_err().issues[0].code, "staging_withdrawn");
}

#[test]
fn a_discard_withdraws_once_and_replays_after() {
    assert_eq!(discard_step("upload_a", &None).unwrap_err().code, "not_found");
    assert!(matches!(discard_step("upload_a", &Some(node("d"))), Ok(DiscardStep::Withdraw)));
    let mut w = node("d");
    w.withdrawn = true;
    w.withdrawn_at = Some("2026-09-07T00:00:00.000Z".to_string());
    assert!(matches!(discard_step("upload_a", &Some(w)), Ok(DiscardStep::Replay(at)) if at == "2026-09-07T00:00:00.000Z"));
    let mut a = node("d");
    a.applied = true;
    let e = discard_step("upload_a", &Some(a)).unwrap_err();
    assert_eq!(e.code, "staging_already_applied");
    assert_eq!(e.status, 409);
}
