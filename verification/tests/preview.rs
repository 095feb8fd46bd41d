//! The upload preview flow, step by step: what each answer from storage,
//! the validator and the embedder leads to.

use idea_db::error::{ApiError, Issue};
use idea_db::json::{canonical_json, Json};
use idea_db::limits;
use idea_db::model::{NewRecord, ProjectData, RecordData, RecordKind};
use idea_db::mutation::DryRun;
use idea_db::preview::{
    preview_start, preview_step, preview_summary, PreviewAction, PreviewEvent, PreviewPhase, PreviewState,
};
use idea_db::util::derived_id;
use idea_db::validate::Package;

fn begin(len: usize, digest: &str, key: Option<&str>, package: bool, replacement: bool) -> PreviewEvent {
    PreviewEvent::Begin {
        canonical_len: len,
        raw_digest: digest.to_string(),
        key: key.map(|k| k.to_string()),
        has_package: package,
        has_replacement: replacement,
    }
}

fn dry(valid: bool, errors: Vec<Issue>) -> DryRun {
    DryRun {
        valid,
        errors,
        warnings: vec![],
        records_to_write: 1,
        next_seq: 2,
        context_records_loaded: 0,
        resolved_previous: None,
        head_updates: None,
    }
}

fn package(records: Vec<NewRecord>) -> Package {
    Package {
        protocol_version: 1,
        idempotency_key: "k1".to_string(),
        actor: "human:test".to_string(),
        reason: "upload".to_string(),
        expected_heads: vec![],
        records,
        root_change: None,
        publish: None,
    }
}

fn project_record() -> NewRecord {
    NewRecord {
        id: "proj_x".to_string(),
        kind: RecordKind::Project,
        data: Ok(RecordData::Project(ProjectData { title: "x".to_string(), description: String::new() })),
    }
}

fn embedding_record() -> NewRecord {
    NewRecord { id: "emb_x".to_string(), kind: RecordKind::Embedding, data: Err("opaque".to_string()) }
}

fn step(st: PreviewState, ev: PreviewEvent) -> (PreviewState, PreviewAction) {
    preview_step(&st, ev)
}

fn refused(a: &PreviewAction) -> &'static str {
    match a {
        PreviewAction::Refuse(e) => e.code,
        other => panic!("expected a refusal, got {:?}", other),
    }
}

#[test]
fn an_oversized_upload_is_refused_before_anything_is_read() {
    let (st, a) = step(preview_start(), begin(limits::MAX_BODY_BYTES + 1, "sha256:aa", None, true, false));
    assert_eq!(refused(&a), "bad_request");
    assert_eq!(st.phase, PreviewPhase::Finished);
    let (_, a) = step(preview_start(), begin(limits::MAX_BODY_BYTES, "sha256:aa", None, true, false));
    assert!(matches!(a, PreviewAction::LoadStaged(_)));
}

#[test]
fn the_upload_id_is_derived_from_the_raw_digest() {
    let (st, a) = step(preview_start(), begin(10, "sha256:aa", None, true, false));
    let id = derived_id("upload", "sha256:aa");
    assert!(id.starts_with("upload_"));
    assert_eq!(st.upload_id, id);
    match a {
        PreviewAction::LoadStaged(x) => assert_eq!(x, id),
        other => panic!("{:?}", other),
    }
    assert_eq!(st.phase, PreviewPhase::AwaitStaged);
}

#[test]
fn an_exact_retry_answers_with_the_staged_summary() {
    let (st, _) = step(preview_start(), begin(10, "sha256:aa", Some("k1"), true, false));
    let summary = Json::Str("staged".to_string());
    let (st, a) = step(st, PreviewEvent::StagedFound(Some(("sha256:aa".to_string(), summary))));
    assert_eq!(st.phase, PreviewPhase::Finished);
    match a {
        PreviewAction::Answer(j) => assert_eq!(canonical_json(&j), "\"staged\""),
        other => panic!("{:?}", other),
    }
}

#[test]
fn a_different_request_under_a_staged_id_is_an_idempotency_conflict() {
    let (st, _) = step(preview_start(), begin(10, "sha256:aa", None, true, false));
    let (_, a) = step(st, PreviewEvent::StagedFound(Some(("sha256:bb".to_string(), Json::Null))));
    assert_eq!(refused(&a), "idempotency_conflict");
}

#[test]
fn a_key_with_a_receipt_is_a_conflict_before_any_capacity_check() {
    let (st, _) = step(preview_start(), begin(10, "sha256:aa", Some("k1"), true, false));
    let (st, a) = step(st, PreviewEvent::StagedFound(None));
    match a {
        PreviewAction::FindReceipt(k) => assert_eq!(k, "k1"),
        other => panic!("{:?}", other),
    }
    let (_, a) = step(st, PreviewEvent::ReceiptFound(true));
    assert_eq!(refused(&a), "idempotency_conflict");
}

#[test]
fn without_a_key_the_capacity_is_checked_next() {
    let (st, _) = step(preview_start(), begin(10, "sha256:aa", None, true, false));
    let (st, a) = step(st, PreviewEvent::StagedFound(None));
    assert!(matches!(a, PreviewAction::CountPending));
    let (_, a) = step(st, PreviewEvent::PendingCount(256));
    assert_eq!(refused(&a), "validation_failed");
}

fn at_capacity(package: bool, replacement: bool) -> (PreviewState, PreviewAction) {
    let (st, _) = step(preview_start(), begin(10, "sha256:aa", None, package, replacement));
    let (st, _) = step(st, PreviewEvent::StagedFound(None));
    step(st, PreviewEvent::PendingCount(3))
}

#[test]
fn exactly_one_of_package_and_replacement_is_required() {
    assert_eq!(refused(&at_capacity(true, true).1), "bad_request");
    assert_eq!(refused(&at_capacity(false, false).1), "bad_request");
    assert!(matches!(at_capacity(true, false).1, PreviewAction::ParsePackage));
    let (st, a) = at_capacity(false, true);
    assert!(matches!(a, PreviewAction::PrepareReplacement));
    let (_, a) = step(st, PreviewEvent::ReplacementReady);
    assert!(matches!(a, PreviewAction::ParsePackage));
}

#[test]
fn an_empty_package_or_client_embeddings_are_refused() {
    let (st, _) = at_capacity(true, false);
    let (_, a) = step(st, PreviewEvent::PackageParsed(package(vec![])));
    assert_eq!(refused(&a), "validation_failed");
    let (st, _) = at_capacity(true, false);
    let (_, a) = step(st, PreviewEvent::PackageParsed(package(vec![project_record(), embedding_record()])));
    assert_eq!(refused(&a), "validation_failed");
}

#[test]
fn the_package_is_validated_before_and_after_embedding_then_staged() {
    let (st, _) = at_capacity(true, false);
    let (st, a) = step(st, PreviewEvent::PackageParsed(package(vec![project_record()])));
    assert!(matches!(a, PreviewAction::Validate));
    let (st, a) = step(st, PreviewEvent::Validated(dry(true, vec![])));
    assert!(matches!(a, PreviewAction::CountIdeas));
    let (st, a) = step(st, PreviewEvent::IdeasFound { stored: 10, records: 1, ideas: 2, package_bytes: 1000 });
    assert!(matches!(a, PreviewAction::Embed));
    let (st, a) = step(st, PreviewEvent::Embedded { dim: 768 });
    assert!(matches!(a, PreviewAction::Embed));
    assert_eq!(st.dimension, Some(768));
    let (st, a) = step(st, PreviewEvent::Embedded { dim: 768 });
    assert!(matches!(a, PreviewAction::Revalidate));
    let (st, a) = step(st, PreviewEvent::Revalidated(dry(true, vec![])));
    assert!(matches!(a, PreviewAction::Stage));
    let (st, a) = step(st, PreviewEvent::Stored(Json::Bool(true)));
    assert!(matches!(a, PreviewAction::Answer(Json::Bool(true))));
    assert_eq!(st.phase, PreviewPhase::Finished);
}

#[test]
fn a_failed_dry_run_stops_the_preview_with_its_code() {
    let (st, _) = at_capacity(true, false);
    let (st, _) = step(st, PreviewEvent::PackageParsed(package(vec![project_record()])));
    let (_, a) = step(
        st,
        PreviewEvent::Validated(dry(false, vec![Issue::new("x".to_string(), "head_conflict", "moved".to_string())])),
    );
    assert_eq!(refused(&a), "head_conflict");
    let (st, _) = at_capacity(true, false);
    let (st, _) = step(st, PreviewEvent::PackageParsed(package(vec![project_record()])));
    let (st, _) = step(st, PreviewEvent::Validated(dry(true, vec![])));
    let (st, _) = step(st, PreviewEvent::IdeasFound { stored: 10, records: 1, ideas: 0, package_bytes: 1000 });
    let (_, a) = step(
        st,
        PreviewEvent::Revalidated(dry(false, vec![Issue::new("y".to_string(), "unknown_reference", "m".to_string())])),
    );
    assert_eq!(refused(&a), "validation_failed");
}

#[test]
fn a_failed_action_or_an_unexpected_event_ends_the_preview() {
    let (st, _) = step(preview_start(), begin(10, "sha256:aa", None, true, false));
    let (st, a) = step(st, PreviewEvent::Failed(ApiError::storage("down".to_string())));
    assert_eq!(refused(&a), "storage_error");
    assert_eq!(st.phase, PreviewPhase::Finished);
    let (_, a) = step(preview_start(), PreviewEvent::Embedded { dim: 3 });
    assert_eq!(refused(&a), "storage_error");
}

fn record_json(id: &str, kind: &str) -> Json {
    Json::Object(vec![("id".to_string(), Json::Str(id.to_string())), ("kind".to_string(), Json::Str(kind.to_string()))])
}

#[test]
fn the_summary_counts_records_and_leaves_embeddings_out_of_review() {
    let records = vec![record_json("rev_a", "revision"), record_json("emb_a", "embedding"), Json::Null];
    let s = preview_summary(
        "upload_1",
        "sha256:pp",
        Json::Object(vec![("valid".to_string(), Json::Bool(true))]),
        Json::Str("ollama/m".to_string()),
        vec![],
        Json::Null,
        &records,
    );
    assert_eq!(
        canonical_json(&s),
        [
            "{\"automatically_merged\":false,\"embedding_profile\":\"ollama/m\",\"mappings\":[],",
            "\"prepared_digest\":\"sha256:pp\",\"records\":3,\"replacement_result\":null,",
            "\"review_records\":[{\"id\":\"rev_a\",\"kind\":\"revision\"},null],",
            "\"semantic_atomicity\":\"client_review_required\",\"upload_id\":\"upload_1\",",
            "\"validation\":{\"valid\":true}}",
        ]
        .concat()
    );
}

fn validated() -> PreviewState {
    let (st, _) = at_capacity(true, false);
    let (st, _) = step(st, PreviewEvent::PackageParsed(package(vec![project_record()])));
    let (st, _) = step(st, PreviewEvent::Validated(dry(true, vec![])));
    st
}

#[test]
fn a_dimension_change_within_the_batch_is_refused() {
    let (st, _) = step(validated(), PreviewEvent::IdeasFound { stored: 0, records: 1, ideas: 3, package_bytes: 100 });
    let (st, _) = step(st, PreviewEvent::Embedded { dim: 768 });
    let (st, a) = step(st, PreviewEvent::Embedded { dim: 1024 });
    assert_eq!(refused(&a), "embedding_dimension_changed");
    assert_eq!(st.phase, PreviewPhase::Finished);
}

#[test]
fn the_staged_size_estimate_is_checked_on_the_first_vector() {
    // 2 * 1_000_000 + 3 * (4096 * 26 + 16384) passes 2 MiB.
    let (st, _) = step(validated(), PreviewEvent::IdeasFound { stored: 0, records: 1, ideas: 3, package_bytes: 1_000_000 });
    let (_, a) = step(st, PreviewEvent::Embedded { dim: 4096 });
    assert_eq!(refused(&a), "validation_failed");
}

#[test]
fn ideas_that_would_overflow_the_package_are_refused_before_embedding() {
    let (_, a) = step(
        validated(),
        PreviewEvent::IdeasFound { stored: 0, records: 1, ideas: idea_db::limits::MAX_PACKAGE_RECORDS, package_bytes: 100 },
    );
    assert_eq!(refused(&a), "validation_failed");
}

fn refused_status(a: &PreviewAction) -> u16 {
    match a {
        PreviewAction::Refuse(e) => e.status,
        other => panic!("expected a refusal, got {:?}", other),
    }
}

#[test]
fn refusals_carry_the_status_of_their_cause() {
    let (st, _) = step(validated(), PreviewEvent::IdeasFound { stored: 0, records: 1, ideas: 2, package_bytes: 100 });
    let (st, _) = step(st, PreviewEvent::Embedded { dim: 8 });
    let (_, a) = step(st, PreviewEvent::Embedded { dim: 9 });
    assert_eq!(refused_status(&a), 503);
    let (_, a) = step(preview_start(), PreviewEvent::Embedded { dim: 3 });
    assert_eq!(refused_status(&a), 502);
    let (_, a) = step(
        validated(),
        PreviewEvent::IdeasFound { stored: 0, records: 1, ideas: idea_db::limits::MAX_PACKAGE_RECORDS, package_bytes: 100 },
    );
    assert_eq!(refused_status(&a), 422);
}
