//! Export scope: a project's reference closure, commit order, heads and
//! receipts in scope, and the manifest of what the document cannot carry.

use idea_db::backup::{Receipt, ReceiptHead, ReceiptRow};
use idea_db::export::{export_document, export_plan, owns, project_closure};
use idea_db::json::{canonical_json, Json};
use idea_db::util::digest_json;
use idea_db::model::{
    ArtifactData, ChangeKind, ClaimMode, Decision, EntityData, EntityKind, HeadChangeData,
    LineageKind, Origin, ProjectData, RecordData, RevisionData, Slot, Source, Stage, StoredRecord,
};
use idea_db::store::build_context;
use idea_db::validate::Context;

fn stored(id: &str, seq: i64, data: RecordData) -> StoredRecord {
    StoredRecord { id: id.to_string(), seq, recorded_at: format!("2026-09-07T00:00:{:02}.000Z", seq.min(59)), data }
}

fn project(id: &str, seq: i64) -> StoredRecord {
    stored(id, seq, RecordData::Project(ProjectData { title: id.to_string(), description: String::new() }))
}

fn entity(id: &str, seq: i64, kind: EntityKind, project: &str) -> StoredRecord {
    stored(
        id,
        seq,
        RecordData::Entity(EntityData {
            entity_kind: kind,
            project_id: project.to_string(),
            title: id.to_string(),
            tags: vec![],
            derived_from: vec![],
            lineage_kind: LineageKind::Original,
        }),
    )
}

fn revision(id: &str, seq: i64, entity_id: &str, slots: Vec<(&str, &str)>) -> StoredRecord {
    stored(
        id,
        seq,
        RecordData::Revision(RevisionData {
            entity_id: entity_id.to_string(),
            body: id.to_string(),
            tags: vec![],
            slots: slots
                .into_iter()
                .map(|(s, r)| Slot { slot_id: s.to_string(), revision_id: r.to_string(), roles: vec![] })
                .collect(),
            change_kind: ChangeKind::Initial,
            correction_of: None,
            correction_reason: None,
            previous_revision_id: None,
            source: Source {
                origin: Origin::Human,
                capture_id: None,
                model: None,
                skill: None,
                claim_mode: ClaimMode::Inferred,
                source_anchor: None,
            },
        }),
    )
}

fn head_change(id: &str, seq: i64, project: &str, after: &str) -> StoredRecord {
    stored(
        id,
        seq,
        RecordData::HeadChange(HeadChangeData {
            project_id: project.to_string(),
            stage: Stage::Working,
            before_revision_id: None,
            after_revision_id: after.to_string(),
            reason: "r".to_string(),
            actor: "human:test".to_string(),
            meaningful: true,
            decision: Decision { before: "b".to_string(), after: "a".to_string(), rationale: "r".to_string() },
        }),
    )
}

/// Two projects: `proj_b` reuses an idea that `proj_a` owns.
fn namespace() -> Context {
    let records = vec![
        project("proj_a", 1),
        entity("ent_idea", 1, EntityKind::Idea, "proj_a"),
        revision("rev_idea", 1, "ent_idea", vec![]),
        entity("ent_schema_a", 1, EntityKind::Schema, "proj_a"),
        revision("rev_schema_a", 1, "ent_schema_a", vec![("idea", "rev_idea")]),
        revision("rev_root_a", 1, "proj_a", vec![("s", "rev_schema_a")]),
        project("proj_b", 2),
        entity("ent_core_b", 2, EntityKind::Core, "proj_b"),
        revision("rev_core_b", 2, "ent_core_b", vec![("reuse", "rev_idea")]),
        entity("ent_schema_b", 2, EntityKind::Schema, "proj_b"),
        revision("rev_schema_b", 2, "ent_schema_b", vec![("c", "rev_core_b")]),
        revision("rev_root_b", 2, "proj_b", vec![("s", "rev_schema_b")]),
        head_change("hc_a", 3, "proj_a", "rev_root_a"),
        head_change("hc_b", 4, "proj_b", "rev_root_b"),
        stored(
            "art_b",
            5,
            RecordData::Artifact(ArtifactData {
                uri: "file:///b".to_string(),
                digest: "sha256:00".to_string(),
                digest_alg: "sha256".to_string(),
                size_bytes: None,
                media_type: None,
                included_in_export: false,
                note: String::new(),
            }),
        ),
    ];
    build_context(records, 5)
}

fn sorted(mut v: Vec<String>) -> Vec<String> {
    v.sort();
    v
}

#[test]
fn a_project_closure_pulls_in_reused_ideas_and_their_origin() {
    let ctx = namespace();
    let sel = sorted(project_closure(&ctx, "proj_b").unwrap());
    // The origin project's record is pulled in, and with it every revision
    // of that identity: its root and what the root composes.
    let expected: Vec<String> = [
        "ent_core_b", "ent_idea", "ent_schema_a", "ent_schema_b", "hc_b", "proj_a", "proj_b", "rev_core_b",
        "rev_idea", "rev_root_a", "rev_root_b", "rev_schema_a", "rev_schema_b",
    ]
    .iter()
    .map(|s| s.to_string())
    .collect();
    assert_eq!(sel, expected);
}

#[test]
fn the_closure_of_an_unknown_project_is_not_found() {
    let ctx = namespace();
    assert_eq!(project_closure(&ctx, "proj_missing").unwrap_err().code, "not_found");
    assert_eq!(project_closure(&ctx, "ent_idea").unwrap_err().code, "not_found");
}

#[test]
fn ownership_is_by_project_field() {
    let ctx = namespace();
    let ent = ctx.records.iter().find(|r| r.id == "ent_core_b").unwrap();
    assert!(owns(ent, "proj_b"));
    assert!(!owns(ent, "proj_a"));
}

/// The ids in the order the namespace wrote them.
fn written() -> Vec<String> {
    [
        "proj_a", "ent_idea", "rev_idea", "ent_schema_a", "rev_schema_a", "rev_root_a", "proj_b", "ent_core_b",
        "rev_core_b", "ent_schema_b", "rev_schema_b", "rev_root_b", "hc_a", "hc_b", "art_b",
    ]
    .iter()
    .map(|s| s.to_string())
    .collect()
}

#[test]
fn a_whole_export_is_in_commit_order_and_names_external_artifacts() {
    let ctx = namespace();
    let order = written();
    let plan = export_plan(&ctx, &order, &None, &vec![], true).unwrap();
    assert_eq!(plan.records.len(), ctx.records.len());
    let place = |id: &str| order.iter().position(|r| r == id).unwrap();
    for w in plan.records.windows(2) {
        assert!((w[0].seq, place(&w[0].id)) <= (w[1].seq, place(&w[1].id)));
    }
    // Inside one commit the records keep the order they were written in, not
    // the order of their ids.
    let ids: Vec<String> = plan.records.iter().map(|r| r.id.clone()).collect();
    assert_eq!(ids, order);
    assert_eq!(plan.heads.len(), 2);
    assert_eq!(plan.external, vec![("art_b".to_string(), "file:///b".to_string(), "sha256:00".to_string())]);
    assert!(!plan.complete_backup);
}

#[test]
fn records_missing_from_the_written_order_follow_inside_their_commit() {
    let ctx = namespace();
    let order: Vec<String> = vec!["rev_idea".to_string(), "proj_a".to_string()];
    let plan = export_plan(&ctx, &order, &None, &vec![], true).unwrap();
    assert_eq!(plan.records[0].id, "rev_idea");
    assert_eq!(plan.records[1].id, "proj_a");
    assert!(plan.records[..6].iter().all(|r| r.seq == 1));
}

fn receipt_row(written: &[&str]) -> ReceiptRow {
    ReceiptRow {
        idempotency_key: Some("k".to_string()),
        request_digest: Some("d".to_string()),
        seq: Some(2),
        receipt: Some(Receipt {
            idempotency_key: Some("k".to_string()),
            request_digest: Some("d".to_string()),
            seq: Some(2),
            records_written: Some(written.iter().map(|s| Some(s.to_string())).collect()),
            heads: Some(vec![ReceiptHead {
                project_id: "proj_b".to_string(),
                stage: "working".to_string(),
                revision_id: "rev_root_b".to_string(),
            }]),
            publication_id: None,
        }),
    }
}

#[test]
fn a_project_export_keeps_only_receipts_and_heads_inside_its_scope() {
    let ctx = namespace();
    let rows = vec![receipt_row(&["rev_root_b"]), receipt_row(&["art_b"])];
    let plan = export_plan(&ctx, &written(), &Some("proj_b".to_string()), &rows, true).unwrap();
    assert_eq!(plan.records.len(), 13);
    assert_eq!(plan.heads.len(), 1);
    assert_eq!(plan.heads[0].0, "proj_b");
    assert_eq!(plan.receipts, vec![0]);
    assert_eq!(plan.receipts_omitted, 1);
    assert!(!plan.complete_backup);
    let without = export_plan(&ctx, &written(), &Some("proj_b".to_string()), &rows, false).unwrap();
    assert!(without.receipts.is_empty());
    assert_eq!(without.receipts_omitted, 2);
}

fn member<'a>(j: &'a Json, key: &str) -> &'a Json {
    match j {
        Json::Object(fs) => &fs.iter().find(|(k, _)| k == key).expect("field present").1,
        _ => panic!("not an object"),
    }
}

#[test]
fn the_export_document_carries_the_digest_of_its_content() {
    let ctx = namespace();
    let order = written();
    let plan = export_plan(&ctx, &order, &None, &vec![], true).unwrap();
    let records: Vec<Json> = plan.records.iter().map(|r| Json::Str(r.id.clone())).collect();
    let doc = export_document(&plan, &records, &vec![], &None, "2026-09-08T00:00:00.000Z");
    let content = member(&doc, "content");
    match member(&doc, "digest") {
        Json::Str(d) => {
            assert_eq!(d, &digest_json(content));
            assert!(d.starts_with("sha256:"));
        },
        _ => panic!("the digest is a text"),
    }
    assert_eq!(canonical_json(member(&doc, "format")), "\"idea_db.export\"");
    assert_eq!(canonical_json(member(&doc, "digest_alg")), "\"sha256\"");
    assert_eq!(canonical_json(member(&doc, "scope")), "{\"closure_included\":true,\"project_id\":null}");
    match member(content, "records") {
        Json::Array(rs) => assert_eq!(rs.len(), plan.records.len()),
        _ => panic!("records are an array"),
    }
    let manifest = member(content, "manifest");
    assert_eq!(canonical_json(member(manifest, "complete_backup")), "false");
    assert_eq!(canonical_json(member(manifest, "unresolved_external_artifacts")), "[\"art_b\"]");
    // Changing the content changes the digest.
    let other = export_document(&plan, &vec![], &vec![], &None, "2026-09-08T00:00:00.000Z");
    assert_ne!(canonical_json(member(&other, "digest")), canonical_json(member(&doc, "digest")));
}
