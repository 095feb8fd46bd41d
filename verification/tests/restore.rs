//! Restore documents: the envelope, the content's rows, and their order.

use idea_db::backup::{check_document, check_restore_size, check_row, content_rows, content_seq};
use idea_db::json::Json;
use idea_db::model::RecordKind;
use idea_db::util::digest_json;

fn obj(fields: Vec<(&str, Json)>) -> Json {
    Json::Object(fields.into_iter().map(|(k, v)| (k.to_string(), v)).collect())
}

fn text(s: &str) -> Json {
    Json::Str(s.to_string())
}

fn number(s: &str) -> Json {
    Json::Number(s.to_string())
}

fn row(id: &str, kind: &str, seq: &str) -> Json {
    obj(vec![
        ("id", text(id)),
        ("kind", text(kind)),
        ("seq", number(seq)),
        ("recorded_at", text("2026-09-07T00:00:01.000Z")),
        ("data", obj(vec![("title", text(id))])),
    ])
}

fn content() -> Json {
    obj(vec![("seq", number("1")), ("records", Json::Array(vec![row("proj_a", "project", "1")]))])
}

fn document(format: &str, version: &str, digest: Option<String>) -> Json {
    let c = content();
    let d = digest.unwrap_or_else(|| digest_json(&c));
    obj(vec![
        ("format", text(format)),
        ("format_version", number(version)),
        ("digest", text(&d)),
        ("content", c),
    ])
}

#[test]
fn a_document_is_checked_by_format_version_and_digest() {
    let good = document("idea_db.export", "1", None);
    assert_eq!(check_document(&good).unwrap(), digest_json(&content()));
    assert_eq!(check_document(&document("other", "1", None)).unwrap_err().code, "bad_request");
    assert_eq!(check_document(&document("idea_db.export", "2", None)).unwrap_err().code, "bad_request");
    let forged = document("idea_db.export", "1", Some("sha256:00".to_string()));
    assert_eq!(check_document(&forged).unwrap_err().code, "digest_mismatch");
}

#[test]
fn content_rows_and_seq_are_read_from_the_content() {
    let c = content();
    assert_eq!(content_rows(&c).unwrap().len(), 1);
    assert_eq!(content_seq(&c).unwrap(), 1);
    let bare = obj(vec![]);
    assert!(content_rows(&bare).is_err());
    assert!(content_seq(&bare).is_err());
}

#[test]
fn rows_must_be_complete_known_and_in_commit_order() {
    let head = check_row(&row("proj_a", "project", "3"), 0, 2).unwrap();
    assert_eq!(head.id, "proj_a");
    assert_eq!(head.kind, RecordKind::Project);
    assert_eq!(head.seq, 3);
    let early = check_row(&row("proj_a", "project", "1"), 4, 2).unwrap_err();
    assert_eq!(early.code, "validation_failed");
    assert_eq!(early.issues[0].code, "invalid_field");
    assert_eq!(early.issues[0].path, "content.records[4]");
    let unknown = check_row(&row("x_a", "widget", "3"), 1, 0).unwrap_err();
    assert_eq!(unknown.code, "bad_request");
    assert_eq!(unknown.message, "content.records[1].kind 'widget' is unknown");
    let no_id = check_row(&obj(vec![("kind", text("project"))]), 2, 0).unwrap_err();
    assert_eq!(no_id.message, "content.records[2].id is missing");
}

#[test]
fn a_restore_is_bounded_like_an_export() {
    assert!(check_restore_size(5000).is_ok());
    assert_eq!(check_restore_size(5001).unwrap_err().code, "context_too_large");
}
