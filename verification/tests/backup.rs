//! Restore rejection rules, exercised without a database. Each test builds a
//! document that would restore state the live write path would never have
//! produced, and asserts the replay refuses it.

use idea_db::backup::{
    check_commit_order, check_receipts, receipt_fits_scope, revalidate, find_heads, Receipt,
    ReceiptHead, ReceiptRow,
};
use idea_db::error::ApiError;
use idea_db::model::{
    ChangeKind, ClaimMode, Decision, EntityData, EntityKind, HeadChangeData, LineageKind, Origin,
    ProjectData, PublicationData, RecordData, RevisionData, Slot, Source, Stage, StoredRecord,
};
use idea_db::validate::HeadState;

const T1: &str = "2026-09-07T00:00:01.000Z";
const T2: &str = "2026-09-07T00:00:02.000Z";
const T3: &str = "2026-09-07T00:00:03.000Z";

fn rec(id: &str, seq: i64, at: &str, data: RecordData) -> StoredRecord {
    StoredRecord { id: id.to_string(), seq, recorded_at: at.to_string(), data }
}

fn project(id: &str, seq: i64, at: &str) -> StoredRecord {
    rec(
        id,
        seq,
        at,
        RecordData::Project(ProjectData { title: id.to_string(), description: String::new() }),
    )
}

fn entity(id: &str, seq: i64, at: &str, project: &str, kind: EntityKind) -> StoredRecord {
    rec(
        id,
        seq,
        at,
        RecordData::Entity(EntityData {
            entity_kind: kind,
            project_id: project.to_string(),
            title: id.to_string(),
            tags: vec![],
            derived_from: vec![],
            lineage_kind: LineageKind::Original,
        }),
    )
}

fn slot(slot_id: &str, revision_id: &str) -> Slot {
    Slot { slot_id: slot_id.to_string(), revision_id: revision_id.to_string(), roles: vec![] }
}

fn revision(id: &str, seq: i64, at: &str, entity_id: &str, slots: Vec<Slot>) -> StoredRecord {
    rec(
        id,
        seq,
        at,
        RecordData::Revision(RevisionData {
            entity_id: entity_id.to_string(),
            body: id.to_string(),
            tags: vec![],
            slots,
            change_kind: ChangeKind::Initial,
            correction_of: None,
            correction_reason: None,
            previous_revision_id: None,
            source: Source {
                origin: Origin::Human,
                capture_id: None,
                model: None,
                skill: None,
                claim_mode: ClaimMode::Inferred,
                source_anchor: None,
            },
        }),
    )
}

fn head_change(
    id: &str,
    seq: i64,
    at: &str,
    project: &str,
    before: Option<&str>,
    after: &str,
) -> StoredRecord {
    rec(
        id,
        seq,
        at,
        RecordData::HeadChange(HeadChangeData {
            project_id: project.to_string(),
            stage: Stage::Working,
            before_revision_id: before.map(str::to_string),
            after_revision_id: after.to_string(),
            reason: "restore fixture".to_string(),
            actor: "human:test".to_string(),
            meaningful: true,
            decision: Decision {
                before: "none".to_string(),
                after: "root".to_string(),
                rationale: "fixture".to_string(),
            },
        }),
    )
}

fn publication(id: &str, seq: i64, at: &str, project: &str, root: &str, published: &str) -> StoredRecord {
    rec(
        id,
        seq,
        at,
        RecordData::Publication(PublicationData {
            project_id: project.to_string(),
            root_revision_id: root.to_string(),
            label: "v1".to_string(),
            published_at: published.to_string(),
            notes: String::new(),
            actor: "human:test".to_string(),
        }),
    )
}

/// Two commits: commit 1 builds a project root, commit 2 moves the head and
/// publishes. This is the shape the live path actually produces.
fn base_records() -> Vec<StoredRecord> {
    vec![
        project("proj_a", 1, T1),
        entity("ent_schema", 1, T1, "proj_a", EntityKind::Schema),
        revision("rev_schema", 1, T1, "ent_schema", vec![]),
        revision("rev_root", 1, T1, "proj_a", vec![slot("s", "rev_schema")]),
        head_change("hc_1", 2, T2, "proj_a", None, "rev_root"),
        publication("pub_1", 2, T2, "proj_a", "rev_root", "2026-09-01T00:00:00Z"),
    ]
}

fn final_seq(records: &[StoredRecord]) -> i64 {
    records.iter().map(|r| r.seq).max().unwrap_or(0)
}

fn replay(records: &[StoredRecord]) -> Result<Vec<(String, HeadState)>, ApiError> {
    let records = records.to_vec();
    check_commit_order(&records)?;
    revalidate(&records, final_seq(&records))
}

fn expect_replay_rejects(records: &[StoredRecord], code: &str) {
    match replay(records) {
        Ok(_) => panic!("expected {code}, but the replay accepted the document"),
        Err(e) => {
            let codes: Vec<&str> = e.issues.iter().map(|i| i.code).collect();
            assert!(codes.iter().any(|c| *c == code), "expected {code}, got {codes:?}: {}", e.message);
        }
    }
}

fn expect_receipts_reject(records: &[StoredRecord], receipts: Vec<ReceiptRow>, _code: &str) {
    let records = records.to_vec();
    match check_receipts(&receipts, &records, final_seq(&records)) {
        Ok(_) => panic!("expected a refusal, but the receipts were accepted"),
        Err(e) => assert_eq!(e.code, "validation_failed", "{}", e.message),
    }
}

fn head_change_data(r: &mut StoredRecord) -> &mut HeadChangeData {
    match &mut r.data {
        RecordData::HeadChange(h) => h,
        _ => panic!("not a head change"),
    }
}

fn publication_data(r: &mut StoredRecord) -> &mut PublicationData {
    match &mut r.data {
        RecordData::Publication(p) => p,
        _ => panic!("not a publication"),
    }
}

fn revision_data(r: &mut StoredRecord) -> &mut RevisionData {
    match &mut r.data {
        RecordData::Revision(v) => v,
        _ => panic!("not a revision"),
    }
}

fn working(heads: &Vec<(String, HeadState)>, project: &str) -> Option<String> {
    find_heads(heads, project).and_then(|h| h.working_head.clone())
}

fn official(heads: &Vec<(String, HeadState)>, project: &str) -> Option<String> {
    find_heads(heads, project).and_then(|h| h.official_head.clone())
}

// ---------------------------------------------------------------- baseline

#[test]
fn a_well_formed_document_replays() {
    let heads = replay(&base_records()).expect("a document the live path could have produced");
    assert_eq!(working(&heads, "proj_a"), Some("rev_root".to_string()));
    assert_eq!(official(&heads, "proj_a"), Some("rev_root".to_string()));
}

// ---------------------------------------------------------------- timestamps

#[test]
fn one_commit_carries_one_record_time() {
    let mut records = base_records();
    records[1].recorded_at = T3.to_string();
    expect_replay_rejects(&records, "invalid_field");
}

#[test]
fn a_record_time_must_be_the_canonical_server_form() {
    let mut records = base_records();
    // Parseable, correct instant, wrong shape: the server never writes this.
    for r in records.iter_mut().filter(|r| r.seq == 1) {
        r.recorded_at = "2026-09-07T09:00:01+09:00".to_string();
    }
    expect_replay_rejects(&records, "invalid_field");

    let mut naive = base_records();
    for r in naive.iter_mut().filter(|r| r.seq == 1) {
        r.recorded_at = "2026-09-07T00:00:01".to_string();
    }
    expect_replay_rejects(&naive, "timezone_required");
}

// ---------------------------------------------------------------- head events

#[test]
fn a_head_change_must_start_from_the_head_that_existed() {
    let mut records = base_records();
    // Claims it moved from a root that was never the head.
    records[4] = head_change("hc_1", 2, T2, "proj_a", Some("rev_schema"), "rev_root");
    expect_replay_rejects(&records, "invalid_head_revision");
}

#[test]
fn a_second_head_change_must_follow_the_first() {
    let mut next_root = revision("rev_root_2", 3, T3, "proj_a", vec![slot("s", "rev_schema")]);
    revision_data(&mut next_root).change_kind = ChangeKind::Composition;
    revision_data(&mut next_root).previous_revision_id = Some("rev_root".to_string());

    // A move that continues from the current head is accepted...
    let mut good = base_records();
    good.push(next_root.clone());
    good.push(head_change("hc_2", 3, T3, "proj_a", Some("rev_root"), "rev_root_2"));
    replay(&good).expect("a head change that continues from the current head");

    // ...but one that pretends the project had no head is not.
    let mut bad = base_records();
    bad.push(next_root);
    bad.push(head_change("hc_2", 3, T3, "proj_a", None, "rev_root_2"));
    expect_replay_rejects(&bad, "invalid_head_revision");
}

#[test]
fn one_commit_moves_a_head_at_most_once() {
    let mut records = base_records();
    records.push(head_change("hc_dup", 2, T2, "proj_a", Some("rev_root"), "rev_schema"));
    expect_replay_rejects(&records, "invalid_field");
}

#[test]
fn head_events_must_carry_their_reason_actor_and_decision() {
    for field in ["reason", "actor"] {
        let mut records = base_records();
        let h = head_change_data(&mut records[4]);
        if field == "reason" {
            h.reason = "   ".to_string();
        } else {
            h.actor = "   ".to_string();
        }
        expect_replay_rejects(
            &records,
            if field == "reason" { "root_change_requires_decision" } else { "invalid_field" },
        );
    }
    let mut records = base_records();
    head_change_data(&mut records[4]).decision.rationale = String::new();
    expect_replay_rejects(&records, "root_change_requires_decision");

    let mut unlabelled = base_records();
    publication_data(&mut unlabelled[5]).label = String::new();
    expect_replay_rejects(&unlabelled, "invalid_field");

    let mut naive = base_records();
    publication_data(&mut naive[5]).published_at = "2026-09-01T00:00:00".to_string();
    expect_replay_rejects(&naive, "timezone_required");
}

#[test]
fn a_head_must_point_at_a_revision_of_its_own_project() {
    let mut records = base_records();
    records.insert(1, project("proj_b", 1, T1));
    // hc_1 now sits at index 5 and claims proj_b moved to proj_a's root.
    let last = records.len() - 2;
    records[last] = head_change("hc_1", 2, T2, "proj_b", None, "rev_root");
    expect_replay_rejects(&records, "invalid_head_revision");
}

// ---------------------------------------------------------------- plan drift

#[test]
fn a_record_the_validator_would_refuse_is_refused_on_restore() {
    let mut records = base_records();
    // A project root may only contain schemas. Keep commit order: the new
    // records belong to commit 1, alongside the root they change.
    records.insert(3, entity("ent_idea", 1, T1, "proj_a", EntityKind::Idea));
    records.insert(4, revision("rev_idea", 1, T1, "ent_idea", vec![]));
    let root = records.iter_mut().find(|r| r.id == "rev_root").expect("fixture has a root");
    revision_data(root).slots = vec![slot("s", "rev_idea")];
    expect_replay_rejects(&records, "invalid_containment");
}

#[test]
fn a_composition_may_not_claim_a_predecessor_the_validator_rejects() {
    let mut records = base_records();
    records.push(revision("rev_root_2", 3, T3, "proj_a", vec![]));
    revision_data(&mut records[6]).change_kind = ChangeKind::Composition;
    revision_data(&mut records[6]).previous_revision_id = Some("rev_schema".to_string());
    expect_replay_rejects(&records, "previous_revision_mismatch");
}

// ---------------------------------------------------------------- receipts

fn receipt(
    key: &str,
    seq: i64,
    written: &[&str],
    heads: Vec<ReceiptHead>,
    publication: Option<&str>,
) -> ReceiptRow {
    ReceiptRow {
        idempotency_key: Some(key.to_string()),
        request_digest: Some("sha256:aa".to_string()),
        seq: Some(seq),
        receipt: Some(Receipt {
            idempotency_key: Some(key.to_string()),
            request_digest: Some("sha256:aa".to_string()),
            seq: Some(seq),
            records_written: Some(written.iter().map(|w| Some(w.to_string())).collect()),
            heads: Some(heads),
            publication_id: publication.map(str::to_string),
        }),
    }
}

fn head(project: &str, stage: &str, revision: &str) -> ReceiptHead {
    ReceiptHead {
        project_id: project.to_string(),
        stage: stage.to_string(),
        revision_id: revision.to_string(),
    }
}

fn good_receipt() -> ReceiptRow {
    receipt("pkg-1", 1, &["proj_a", "ent_schema", "rev_schema", "rev_root"], vec![], None)
}

#[test]
fn a_receipt_that_describes_the_restored_commit_is_accepted() {
    let records = base_records();
    check_receipts(&vec![good_receipt()], &records, 2).expect("a receipt matching its commit");
}

#[test]
fn a_receipt_cannot_claim_records_the_document_does_not_restore() {
    expect_receipts_reject(
        &base_records(),
        vec![receipt("pkg-1", 1, &["proj_a", "ghost_record"], vec![], None)],
        "invalid_field",
    );
    // Nor can it under-claim: a package writes every record at its sequence.
    expect_receipts_reject(
        &base_records(),
        vec![receipt("pkg-1", 1, &["proj_a"], vec![], None)],
        "invalid_field",
    );
}

#[test]
fn a_receipt_cannot_claim_a_head_move_no_event_backs() {
    expect_receipts_reject(
        &base_records(),
        vec![receipt("pkg-2", 2, &["hc_1", "pub_1"], vec![head("proj_a", "working", "rev_schema")], None)],
        "invalid_field",
    );
}

#[test]
fn a_receipt_cannot_name_a_publication_its_commit_did_not_write() {
    expect_receipts_reject(
        &base_records(),
        vec![receipt("pkg-2", 2, &["hc_1", "pub_1"], vec![], Some("pub_ghost"))],
        "invalid_field",
    );
}

#[test]
fn a_receipt_body_must_agree_with_its_own_envelope() {
    let mut forged = good_receipt();
    forged.receipt.as_mut().unwrap().request_digest = Some("sha256:bb".to_string());
    expect_receipts_reject(&base_records(), vec![forged], "invalid_field");

    let mut renamed = good_receipt();
    renamed.receipt.as_mut().unwrap().idempotency_key = Some("pkg-other".to_string());
    expect_receipts_reject(&base_records(), vec![renamed], "invalid_field");

    let mut resequenced = good_receipt();
    resequenced.receipt.as_mut().unwrap().seq = Some(2);
    expect_receipts_reject(&base_records(), vec![resequenced], "invalid_field");
}

#[test]
fn a_receipt_for_an_empty_commit_is_refused() {
    let mut row = receipt("pkg-9", 2, &["hc_1", "pub_1"], vec![], None);
    row.seq = Some(9);
    row.receipt.as_mut().unwrap().seq = Some(9);
    expect_receipts_reject(&base_records(), vec![row], "invalid_field");
}

// ---------------------------------------------------------------- scoping

#[test]
fn scoped_exports_drop_receipts_that_reach_outside_the_closure() {
    let closure: Vec<String> = ["proj_a", "ent_schema", "rev_schema", "rev_root"]
        .iter()
        .map(|s| s.to_string())
        .collect();
    assert!(receipt_fits_scope(&good_receipt(), &closure));

    let outside = receipt("pkg-x", 1, &["proj_a", "rev_other_project"], vec![], None);
    assert!(
        !receipt_fits_scope(&outside, &closure),
        "a receipt naming another project's record must not ride along"
    );

    let head_outside =
        receipt("pkg-y", 1, &["proj_a"], vec![head("proj_b", "working", "rev_root")], None);
    assert!(!receipt_fits_scope(&head_outside, &closure));

    let publication_outside = receipt("pkg-z", 1, &["proj_a"], vec![], Some("pub_elsewhere"));
    assert!(!receipt_fits_scope(&publication_outside, &closure));

    let bare = ReceiptRow {
        idempotency_key: Some("pkg-w".to_string()),
        request_digest: None,
        seq: None,
        receipt: None,
    };
    assert!(
        !receipt_fits_scope(&bare, &closure),
        "a receipt with no stored response cannot be shown to fit"
    );
}

#[test]
fn a_project_cannot_restore_a_schema_as_its_head() {
    let mut records = base_records();
    head_change_data(&mut records[4]).after_revision_id = "rev_schema".to_string();
    expect_replay_rejects(&records, "invalid_head_revision");
}

#[test]
fn live_compatible_empty_before_after_with_rationale_can_restore() {
    let mut records = base_records();
    head_change_data(&mut records[4]).decision.before = String::new();
    head_change_data(&mut records[4]).decision.after = String::new();
    replay(&records).expect("live writes require rationale, but allow empty before and after text");
}
