//! Upload preparation: embedding ids bound to content, the dry-run gate,
//! index coverage, Idea atoms and prepared embeddings.

use idea_db::error::Issue;
use idea_db::ingest::{check_idea_embeddings, check_preview_capacity, embedding_id, ideas, index_coverage, require_valid};
use idea_db::limits;
use idea_db::model::{
    ChangeKind, ClaimMode, EmbeddingData, EntityData, EntityKind, LineageKind, NewRecord, Origin,
    ProjectData, RecordData, RevisionData, Source, StoredRecord,
};
use idea_db::mutation::DryRun;
use idea_db::num::Num;
use idea_db::validate::{Context, Package};

fn dry(valid: bool, errors: Vec<Issue>) -> DryRun {
    DryRun {
        valid,
        errors,
        warnings: vec![],
        records_to_write: 0,
        next_seq: 1,
        context_records_loaded: 0,
        resolved_previous: None,
        head_updates: None,
    }
}

fn issue(path: &str, code: &'static str, message: &str) -> Issue {
    Issue::new(path.to_string(), code, message.to_string())
}

#[test]
fn vector_validation_and_content_binding() {
    assert_ne!(embedding_id("r", "30초", "m1"), embedding_id("r", "20초", "m1"));
    assert_ne!(embedding_id("r", "30초", "m1"), embedding_id("r", "30초", "m2"));
}

#[test]
fn invalid_validation_projection_is_never_accepted_for_staging() {
    assert!(require_valid(dry(true, vec![])).is_ok());
    let invalid = require_valid(dry(false, vec![issue("records", "empty_commit", "empty")])).unwrap_err();
    assert_eq!(invalid.code, "validation_failed");
    assert_eq!(invalid.status, 422);

    let stale = require_valid(dry(false, vec![issue("expected_heads", "head_conflict", "stale")])).unwrap_err();
    assert_eq!(stale.code, "head_conflict");
    assert_eq!(stale.status, 409);
}

#[test]
fn index_coverage_counts_only_ideas_and_lexical_is_unchecked() {
    let hybrid = index_coverage(true, 3, 2);
    assert_eq!(hybrid.eligible_idea_revisions, 3);
    assert_eq!(hybrid.indexed_idea_revisions, Some(2));
    assert_eq!(hybrid.complete, Some(false));
    let lexical = index_coverage(false, 3, 2);
    assert!(!lexical.checked);
    assert!(lexical.complete.is_none());
    assert!(lexical.indexed_idea_revisions.is_none());
}

// ---------------------------------------------------------------- own

#[test]
fn embedding_ids_are_stable_and_prefixed() {
    let a = embedding_id("rev_a", "본문", "model/idea-body-v1");
    assert_eq!(a, embedding_id("rev_a", "본문", "model/idea-body-v1"));
    assert!(a.starts_with("emb_"));
    assert_ne!(a, embedding_id("rev_b", "본문", "model/idea-body-v1"));
}

#[test]
fn a_failed_dry_run_names_its_first_error() {
    let e = require_valid(dry(false, vec![issue("records[0]", "duplicate_id", "first"), issue("records[1]", "bad_id_format", "second")]))
        .unwrap_err();
    assert_eq!(e.message, "first");
    assert_eq!(e.issues.len(), 2);
}

#[test]
fn hybrid_coverage_counts_what_is_missing() {
    let c = index_coverage(true, 5, 5);
    assert_eq!(c.unindexed_idea_revisions, Some(0));
    assert_eq!(c.complete, Some(true));
    let over = index_coverage(true, 2, 3);
    assert_eq!(over.unindexed_idea_revisions, Some(0));
}

#[test]
fn preview_capacity_leaves_room_for_the_head_records() {
    assert!(check_preview_capacity(0, 100, 100).is_ok());
    assert!(check_preview_capacity(0, limits::MAX_PACKAGE_RECORDS, 1).is_err());
    let stored = limits::MAX_PREFETCH_RECORDS - 12;
    assert!(check_preview_capacity(stored, 5, 5).is_ok());
    assert!(check_preview_capacity(stored, 5, 6).is_err());
}

fn source() -> Source {
    Source { origin: Origin::Human, capture_id: None, model: None, skill: None, claim_mode: ClaimMode::Inferred, source_anchor: None }
}

fn new(id: &str, data: RecordData) -> NewRecord {
    NewRecord { id: id.to_string(), kind: data.kind(), data: Ok(data) }
}

fn entity(kind: EntityKind) -> RecordData {
    RecordData::Entity(EntityData {
        entity_kind: kind,
        project_id: "proj_u".to_string(),
        title: "t".to_string(),
        tags: vec![],
        derived_from: vec![],
        lineage_kind: LineageKind::Original,
    })
}

fn revision(entity_id: &str, body: &str) -> RecordData {
    RecordData::Revision(RevisionData {
        entity_id: entity_id.to_string(),
        body: body.to_string(),
        tags: vec![],
        slots: vec![],
        change_kind: ChangeKind::Initial,
        correction_of: None,
        correction_reason: None,
        previous_revision_id: None,
        source: source(),
    })
}

fn upload(extra: Vec<NewRecord>) -> Package {
    let mut records = vec![
        new("ent_idea", entity(EntityKind::Idea)),
        new("rev_idea", revision("ent_idea", "잠금 정책")),
        new("ent_core", entity(EntityKind::Core)),
        new("rev_core", revision("ent_core", "묶음")),
    ];
    records.extend(extra);
    Package {
        protocol_version: 1,
        idempotency_key: "upload-key".to_string(),
        actor: "human:test".to_string(),
        reason: "upload".to_string(),
        expected_heads: vec![],
        records,
        root_change: None,
        publish: None,
    }
}

fn project_ctx() -> Context {
    let mut c = Context::new(0);
    c.insert(StoredRecord {
        id: "proj_u".to_string(),
        seq: 1,
        recorded_at: "2026-09-07T00:00:01.000Z".to_string(),
        data: RecordData::Project(ProjectData { title: "u".to_string(), description: String::new() }),
    });
    c
}

#[test]
fn only_idea_revisions_are_atoms() {
    let pkg = upload(vec![]);
    let atoms = ideas(&pkg, &project_ctx());
    assert_eq!(atoms.len(), 1);
    assert_eq!(atoms[0].revision_id, "rev_idea");
    assert_eq!(atoms[0].body, "잠금 정책");
    assert_eq!(atoms[0].project_id, "proj_u");
}

#[test]
fn every_idea_needs_one_bound_embedding() {
    let ctx = project_ctx();
    assert!(check_idea_embeddings(&upload(vec![]), &ctx).is_err());
    let profile = "local/model@sha256:abcd/idea-body-v1";
    let id = embedding_id("rev_idea", "잠금 정책", profile);
    let embedding = || {
        RecordData::Embedding(EmbeddingData {
            revision_id: "rev_idea".to_string(),
            model: profile.to_string(),
            dim: 2,
            values: vec![Num::parse("0.6").unwrap(), Num::parse("0.8").unwrap()],
            normalized: true,
        })
    };
    assert!(check_idea_embeddings(&upload(vec![new(&id, embedding())]), &ctx).is_ok());
    assert!(check_idea_embeddings(&upload(vec![new("emb_wrong", embedding())]), &ctx).is_err());
    assert!(check_idea_embeddings(&upload(vec![new(&id, embedding()), new(&id, embedding())]), &ctx).is_err());
}

// ---------------------------------------------------------------- intake checks

use idea_db::ingest::{
    check_dimension, check_no_client_embeddings, check_staging_estimate, embedding_profile, embedding_settings,
    installed_name,
};
use idea_db::json::Json;

#[test]
fn clients_never_send_embeddings() {
    assert!(check_no_client_embeddings(&upload(vec![])).is_ok());
    let embedding = RecordData::Embedding(EmbeddingData {
        revision_id: "rev_idea".to_string(),
        model: "m".to_string(),
        dim: 1,
        values: vec![Num::parse("1").unwrap()],
        normalized: true,
    });
    let err = check_no_client_embeddings(&upload(vec![new("emb_x", embedding)])).unwrap_err();
    assert_eq!(err.issues[0].code, "client_embeddings_forbidden");
}

#[test]
fn the_staged_size_estimate_is_bounded_by_two_mebibytes() {
    // 2 * 1000 + 2 * (768 * 26 + 16384) = 74704
    assert!(check_staging_estimate(1000, 2, 768).is_ok());
    assert!(check_staging_estimate(limits::MAX_BODY_BYTES / 2, 0, 768).is_ok());
    assert!(check_staging_estimate(limits::MAX_BODY_BYTES / 2 + 1, 0, 768).is_err());
    assert!(check_staging_estimate(0, 40, 2000).is_err());
    assert!(check_staging_estimate(0, 1, usize::MAX).is_err());
}

#[test]
fn a_batch_keeps_one_dimension() {
    assert_eq!(check_dimension(None, 768).unwrap(), 768);
    assert_eq!(check_dimension(Some(768), 768).unwrap(), 768);
    let e = check_dimension(Some(768), 1024).unwrap_err();
    assert_eq!(e.code, "embedding_dimension_changed");
    assert_eq!(e.status, 503);
}

#[test]
fn a_model_without_a_tag_means_its_latest_tag() {
    assert_eq!(installed_name("nomic-embed-text"), "nomic-embed-text:latest");
    assert_eq!(installed_name("nomic-embed-text:v1.5"), "nomic-embed-text:v1.5");
}

#[test]
fn the_embedding_service_must_be_a_local_origin() {
    let ok = embedding_settings(Some("http://127.0.0.1:11434/".to_string()), Some("m".to_string())).unwrap();
    assert_eq!(ok.base, "http://127.0.0.1:11434");
    assert_eq!(ok.name, "m:latest");
    let remote = embedding_settings(Some("https://example.com".to_string()), Some("m".to_string())).unwrap_err();
    assert_eq!(remote.code, "embedding_not_local");
    let path = embedding_settings(Some("http://localhost:11434/api".to_string()), Some("m".to_string())).unwrap_err();
    assert_eq!(path.code, "embedding_not_local");
    let creds = embedding_settings(Some("http://u:p@localhost:11434".to_string()), Some("m".to_string())).unwrap_err();
    assert_eq!(creds.code, "embedding_not_local");
    assert_eq!(embedding_settings(None, Some("m".to_string())).unwrap_err().code, "embedding_not_configured");
    assert_eq!(embedding_settings(Some("http://localhost".to_string()), None).unwrap_err().code, "embedding_not_configured");
    assert_eq!(embedding_settings(Some("not a url".to_string()), Some("m".to_string())).unwrap_err().code, "embedding_not_configured");
}

fn model_entry(name: &str, digest: &str) -> Json {
    Json::Object(vec![
        ("name".to_string(), Json::Str(name.to_string())),
        ("digest".to_string(), Json::Str(digest.to_string())),
    ])
}

#[test]
fn the_profile_pins_the_installed_model_by_digest() {
    let digest = "a".repeat(64);
    let tags = Json::Object(vec![(
        "models".to_string(),
        Json::Array(vec![model_entry("other:latest", &"b".repeat(64)), model_entry("m:latest", &digest)]),
    )]);
    assert_eq!(
        embedding_profile(&tags, "m:latest").unwrap(),
        format!("m:latest@sha256:{digest}/idea-body-v1")
    );
    assert_eq!(embedding_profile(&tags, "absent:latest").unwrap_err().code, "embedding_model_missing");
    let short = Json::Object(vec![("models".to_string(), Json::Array(vec![model_entry("m:latest", "abc")]))]);
    assert_eq!(embedding_profile(&short, "m:latest").unwrap_err().code, "embedding_model_missing");
}
