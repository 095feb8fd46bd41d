//! Commit admission: the capacity bound, empty commits, and replays.

use idea_db::error::ApiError;
use idea_db::json::{canonical_json, Json};
use idea_db::limits;
use idea_db::model::{
    CaptureData, SourceKind, ChangeKind, ClaimMode, Decision, EntityData, EntityKind, LineageKind, Origin, ProjectData,
    RecordData, RevisionData, Slot, Source, Stage, StoredRecord,
};
use idea_db::mutation::{
    as_replay, check_capacity, check_not_noop, check_protocol, dry_run, plan_capture, plan_commit,
    CaptureOutcome, CaptureRequest,
};
use idea_db::validate::{validate_package, Context, ExpectedHead, Package, PublishRequest, RootChange};

const CAP: usize = limits::MAX_PREFETCH_RECORDS;

fn stored(id: &str, seq: i64, data: RecordData) -> StoredRecord {
    StoredRecord {
        id: id.to_string(),
        seq,
        recorded_at: format!("2026-09-07T00:00:{:02}.000Z", seq.min(59)),
        data,
    }
}

fn entity(id: &str, seq: i64, kind: EntityKind) -> StoredRecord {
    stored(
        id,
        seq,
        RecordData::Entity(EntityData {
            entity_kind: kind,
            project_id: "proj_login".to_string(),
            title: id.to_string(),
            tags: vec![],
            derived_from: vec![],
            lineage_kind: LineageKind::Original,
        }),
    )
}

fn slot(slot_id: &str, revision_id: &str) -> Slot {
    Slot { slot_id: slot_id.to_string(), revision_id: revision_id.to_string(), roles: vec![] }
}

fn revision(id: &str, seq: i64, entity_id: &str, slots: Vec<Slot>) -> StoredRecord {
    stored(
        id,
        seq,
        RecordData::Revision(RevisionData {
            entity_id: entity_id.to_string(),
            body: id.to_string(),
            tags: vec![],
            slots,
            change_kind: ChangeKind::Initial,
            correction_of: None,
            correction_reason: None,
            previous_revision_id: None,
            source: Source {
                origin: Origin::Human,
                capture_id: None,
                model: None,
                skill: None,
                claim_mode: ClaimMode::Inferred,
                source_anchor: None,
            },
        }),
    )
}

fn context() -> Context {
    let mut ctx = Context::new(0);
    let mut records = vec![
        stored(
            "proj_login",
            1,
            RecordData::Project(ProjectData { title: "proj_login".to_string(), description: String::new() }),
        ),
        entity("ent_lockout", 2, EntityKind::Idea),
        revision("rev_lockout_1", 3, "ent_lockout", vec![]),
        entity("ent_auth", 30, EntityKind::Schema),
        revision("rev_auth", 31, "ent_auth", vec![slot("direct_policy", "rev_lockout_1")]),
        revision("rev_root", 50, "proj_login", vec![slot("auth", "rev_auth")]),
    ];
    records.sort_by(|a, b| a.id.cmp(&b.id));
    for r in records {
        ctx.insert(r);
    }
    ctx
}

fn code_of(err: &ApiError) -> &'static str {
    err.issues.first().map(|i| i.code).unwrap_or(err.code)
}

fn empty_package() -> Package {
    Package {
        protocol_version: 1,
        idempotency_key: "empty".to_string(),
        actor: "human:test".to_string(),
        reason: String::new(),
        expected_heads: vec![],
        records: vec![],
        root_change: None,
        publish: None,
    }
}

fn adopt_root() -> RootChange {
    RootChange {
        project_id: "proj_login".to_string(),
        stage: Stage::Working,
        after_revision_id: "rev_root".to_string(),
        reason: "adopt".to_string(),
        meaningful: true,
        decision: Decision {
            before: "none".to_string(),
            after: "root".to_string(),
            rationale: "adopt".to_string(),
        },
    }
}

fn publish_root(published_at: &str) -> PublishRequest {
    PublishRequest {
        project_id: "proj_login".to_string(),
        root_revision_id: "rev_root".to_string(),
        label: "v1".to_string(),
        published_at: published_at.to_string(),
        notes: String::new(),
    }
}

#[test]
fn capacity_is_checked_at_the_boundary_not_past_it() {
    check_capacity(CAP - 1, 1).expect("filling the namespace exactly is allowed");
    check_capacity(CAP, 0).expect("a commit that writes nothing new stays inside the bound");
    let err = check_capacity(CAP - 1, 2).expect_err("one record past the bound is refused");
    assert_eq!(code_of(&err), "limit_exceeded");
    assert_eq!(err.code, "validation_failed");
    assert!(err.message.contains(&CAP.to_string()), "the error should name the bound: {}", err.message);
}

#[test]
fn empty_apply_is_rejected_but_server_head_events_are_meaningful() {
    let empty = empty_package();
    assert_eq!(code_of(&check_not_noop(&empty).unwrap_err()), "empty_commit");

    let mut head_only = empty;
    head_only.root_change = Some(adopt_root());
    check_not_noop(&head_only).expect("a head change writes a server record");

    head_only.root_change = None;
    head_only.publish = Some(publish_root("2026-09-07T00:00:00Z"));
    check_not_noop(&head_only).expect("a publication writes a server record");
}

#[test]
fn a_full_namespace_still_refuses_one_more_record() {
    // The failure this guards against is a namespace that can be written
    // but never read back, so the check must bite before the write.
    assert!(check_capacity(CAP, 1).is_err());
    assert!(check_capacity(CAP + 1, 0).is_err());
}

/// The server writes `head_change` and `publication` records of its own, so
/// counting only the client's records would let a commit slip past the bound.
#[test]
fn the_capacity_count_includes_server_written_head_records() {
    let ctx = context();
    let mut pkg = empty_package();
    pkg.idempotency_key = "capacity-probe".to_string();
    pkg.reason = "move and publish the root".to_string();
    pkg.expected_heads = vec![
        ExpectedHead { project_id: "proj_login".to_string(), stage: Stage::Working, revision_id: None },
        ExpectedHead { project_id: "proj_login".to_string(), stage: Stage::Official, revision_id: None },
    ];
    let mut change = adopt_root();
    change.reason = "initial".to_string();
    change.decision.rationale = "fixture".to_string();
    pkg.root_change = Some(change);
    pkg.publish = Some(publish_root("2026-09-01T00:00:00Z"));

    let plan = validate_package(&pkg, &ctx, ctx.seq + 1, "2026-09-07T00:00:00.000Z")
        .expect("a documented root change and publication");
    let written = plan.records.len() + plan.head_records.len();
    assert_eq!(written, 2, "the client sent no records; both come from the server");

    // With one slot left, counting only the (empty) client list would wave
    // this through; counting the plan sees two records and refuses.
    check_capacity(CAP - 1, pkg.records.len()).expect("client-only count sees nothing to store");
    assert!(check_capacity(CAP - 1, written).is_err(), "counting the plan catches the two server records");
}

fn field<'a>(j: &'a Json, key: &str) -> &'a Json {
    match j {
        Json::Object(fs) => &fs.iter().find(|(k, _)| k == key).expect("field present").1,
        _ => panic!("not an object"),
    }
}

/// A replay never reaches the capacity check: it returns the stored receipt
/// before a plan is built, so a full namespace can still answer retries.
#[test]
fn a_replay_is_answered_without_planning_new_records() {
    let receipt = Json::Object(vec![
        ("idempotency_key".to_string(), Json::Str("k".to_string())),
        ("seq".to_string(), Json::Number("3".to_string())),
        ("replay".to_string(), Json::Bool(false)),
    ]);
    let stored = Json::Object(vec![("receipt".to_string(), receipt)]);
    let before_seq = canonical_json(field(field(&stored, "receipt"), "seq"));
    let before_key = canonical_json(field(field(&stored, "receipt"), "idempotency_key"));
    let replayed = as_replay(stored);
    assert_eq!(canonical_json(field(field(&replayed, "receipt"), "replay")), "true");
    assert_eq!(canonical_json(field(field(&replayed, "receipt"), "seq")), before_seq);
    assert_eq!(canonical_json(field(field(&replayed, "receipt"), "idempotency_key")), before_key);
}

// ---------------------------------------------------------------- own

#[test]
fn only_protocol_version_one_is_spoken() {
    assert!(check_protocol(1).is_ok());
    let err = check_protocol(2).unwrap_err();
    assert_eq!(err.status, 422);
}

#[test]
fn a_response_without_a_receipt_is_replayed_unchanged() {
    let stored = Json::Object(vec![("valid".to_string(), Json::Bool(true))]);
    let replayed = as_replay(stored);
    assert_eq!(canonical_json(&replayed), "{\"valid\":true}");
}

fn adopt_package() -> Package {
    let mut pkg = empty_package();
    pkg.idempotency_key = "adopt-root".to_string();
    pkg.expected_heads =
        vec![ExpectedHead { project_id: "proj_login".to_string(), stage: Stage::Working, revision_id: None }];
    pkg.root_change = Some(adopt_root());
    pkg
}

#[test]
fn a_package_that_follows_the_rules_commits() {
    let ctx = context();
    let plan = plan_commit(&adopt_package(), &ctx, ctx.seq + 1, "2026-09-07T00:00:00.000Z")
        .expect("a current head and a documented root change commit");
    assert_eq!(plan.records.len(), 0);
    assert_eq!(plan.head_records.len(), 1);
    assert_eq!(plan.head_updates.len(), 1);
    assert_eq!(plan.head_updates[0].revision_id, "rev_root");
}

#[test]
fn a_stale_expected_head_is_a_conflict_before_validation() {
    let ctx = context();
    let mut pkg = adopt_package();
    pkg.expected_heads[0].revision_id = Some("rev_auth".to_string());
    let err = plan_commit(&pkg, &ctx, ctx.seq + 1, "2026-09-07T00:00:00.000Z").unwrap_err();
    assert_eq!(err.code, "head_conflict");
}

#[test]
fn a_dry_run_of_a_valid_package_reports_what_it_would_write() {
    let ctx = context();
    let report = dry_run(&adopt_package(), &ctx, "2026-09-07T00:00:00.000Z");
    assert!(report.valid);
    assert!(report.errors.is_empty());
    assert_eq!(report.records_to_write, 1);
    assert_eq!(report.next_seq, ctx.seq + 1);
    assert_eq!(report.context_records_loaded, ctx.records.len());
}

#[test]
fn a_dry_run_of_an_empty_package_is_invalid() {
    let ctx = context();
    let report = dry_run(&empty_package(), &ctx, "2026-09-07T00:00:00.000Z");
    assert!(!report.valid);
    assert_eq!(report.errors.len(), 1);
    assert_eq!(report.errors[0].code, "empty_commit");
}

fn capture_request(id: Option<&str>, content: &str) -> CaptureRequest {
    CaptureRequest {
        id: id.map(|s| s.to_string()),
        project_id: Some("proj_login".to_string()),
        content: content.to_string(),
        media_type: "text/plain".to_string(),
        source_kind: SourceKind::Paste,
        source_ref: None,
        occurred_at: None,
        content_digest: None,
    }
}

fn capture_payload(req: &CaptureRequest) -> CaptureData {
    CaptureData {
        project_id: req.project_id.clone(),
        content: req.content.clone(),
        content_digest: None,
        media_type: req.media_type.clone(),
        source_kind: req.source_kind,
        source_ref: req.source_ref.clone(),
        occurred_at: req.occurred_at.clone(),
    }
}

#[test]
fn a_fresh_capture_is_planned_under_its_fresh_id() {
    let ctx = context();
    let req = capture_request(None, "lockout should be 10 minutes");
    let payload = capture_payload(&req);
    match plan_capture(&ctx, &req, &payload, "cap_fresh_1", ctx.seq + 1, "2026-09-07T00:00:00.000Z") {
        Ok(CaptureOutcome::Created(plan)) => {
            assert_eq!(plan.records.len(), 1);
            assert_eq!(plan.records[0].id, "cap_fresh_1");
            assert_eq!(plan.records[0].seq, ctx.seq + 1);
            assert!(plan.head_records.is_empty());
        },
        _ => panic!("a fresh capture is created"),
    }
}

#[test]
fn a_capture_id_already_holding_another_record_conflicts() {
    let ctx = context();
    let req = capture_request(Some("rev_root"), "anything");
    let payload = capture_payload(&req);
    match plan_capture(&ctx, &req, &payload, "cap_unused", ctx.seq + 1, "2026-09-07T00:00:00.000Z") {
        Err(e) => assert_eq!(e.code, "idempotency_conflict"),
        _ => panic!("a taken id is a conflict"),
    }
}
