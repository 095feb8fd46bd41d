//! Slot-path resolution, node kinds and bounded traversal over a six-level
//! composition that reuses one atom through two paths.

use idea_db::graph::{
    node_kind, origin_project, render_path, resolve_path, tree_json, walk, Limits, Occurrence,
    PathError, TreeNode, MAX_DEPTH,
};
use idea_db::model::{
    ChangeKind, ClaimMode, EntityData, EntityKind, LineageKind, NodeKind, Origin, ProjectData,
    RecordData, RevisionData, Slot, Source, StoredRecord,
};

fn record(id: &str, seq: i64, data: RecordData) -> StoredRecord {
    StoredRecord {
        id: id.to_string(),
        seq,
        recorded_at: format!("2026-09-07T00:00:{:02}.000Z", seq.min(59)),
        data,
    }
}

fn project(id: &str, seq: i64) -> StoredRecord {
    record(id, seq, RecordData::Project(ProjectData { title: id.to_string(), description: String::new() }))
}

fn entity(id: &str, seq: i64, kind: EntityKind, project: &str) -> StoredRecord {
    record(
        id,
        seq,
        RecordData::Entity(EntityData {
            entity_kind: kind,
            project_id: project.to_string(),
            title: id.to_string(),
            tags: vec![],
            derived_from: vec![],
            lineage_kind: LineageKind::Original,
        }),
    )
}

fn slot(slot_id: &str, revision_id: &str, roles: &[&str]) -> Slot {
    Slot {
        slot_id: slot_id.to_string(),
        revision_id: revision_id.to_string(),
        roles: roles.iter().map(|r| r.to_string()).collect(),
    }
}

fn revision(id: &str, seq: i64, entity_id: &str, body: &str, slots: Vec<Slot>) -> StoredRecord {
    record(
        id,
        seq,
        RecordData::Revision(RevisionData {
            entity_id: entity_id.to_string(),
            body: body.to_string(),
            tags: vec![],
            slots,
            change_kind: ChangeKind::Initial,
            correction_of: None,
            correction_reason: None,
            previous_revision_id: None,
            source: Source {
                origin: Origin::Human,
                capture_id: None,
                model: None,
                skill: None,
                claim_mode: ClaimMode::Inferred,
                source_anchor: None,
            },
        }),
    )
}

/// Six levels deep with the same atom reused through two paths (diamond).
fn deep_diamond() -> Vec<StoredRecord> {
    let mut m = vec![
        project("proj_login", 1),
        entity("ent_lockout", 2, EntityKind::Idea, "proj_login"),
        revision("rev_lockout_1", 3, "ent_lockout", "5회 실패 시 30분 잠금", vec![]),
    ];
    for (i, name) in ["l5", "l4", "l3", "l2"].iter().enumerate() {
        m.push(entity(&format!("ent_{name}"), 10 + i as i64, EntityKind::Core, "proj_login"));
    }
    m.push(revision("rev_l5", 20, "ent_l5", "레벨5", vec![slot("policy", "rev_lockout_1", &["be"])]));
    m.push(revision("rev_l4", 21, "ent_l4", "레벨4", vec![slot("inner", "rev_l5", &[])]));
    m.push(revision("rev_l3", 22, "ent_l3", "레벨3", vec![slot("session", "rev_l4", &[])]));
    m.push(entity("ent_auth", 30, EntityKind::Schema, "proj_login"));
    m.push(revision(
        "rev_auth",
        31,
        "ent_auth",
        "인증 스키마",
        vec![slot("session", "rev_l3", &["be"]), slot("direct_policy", "rev_lockout_1", &["fe"])],
    ));
    m.push(entity("ent_billing", 40, EntityKind::Schema, "proj_login"));
    m.push(revision("rev_billing", 41, "ent_billing", "결제 스키마", vec![slot("policy", "rev_lockout_1", &["be"])]));
    m.push(revision(
        "rev_root",
        50,
        "proj_login",
        "로그인 프로젝트 루트",
        vec![slot("auth", "rev_auth", &[]), slot("billing", "rev_billing", &[])],
    ));
    // Stored by id, as the original map keeps them.
    m.sort_by(|a, b| a.id.cmp(&b.id));
    m
}

fn get<'a>(g: &'a [StoredRecord], id: &str) -> &'a StoredRecord {
    g.iter().find(|r| r.id == id).unwrap()
}

fn strings(xs: &[&str]) -> Vec<String> {
    xs.iter().map(|s| s.to_string()).collect()
}

#[test]
fn resolves_a_six_level_path_to_the_shared_atom() {
    let g = deep_diamond();
    let path: Vec<String> = strings(&["auth", "session", "session", "inner", "policy"]);
    let found = resolve_path(&g, "rev_root", &path).expect("path resolves");
    assert_eq!(found.id, "rev_lockout_1");
    assert_eq!(path.len(), 5, "root + 5 slots = 6 levels");
}

#[test]
fn missing_slot_names_the_position() {
    let g = deep_diamond();
    let path = vec!["auth".to_string(), "nope".to_string()];
    let err = resolve_path(&g, "rev_root", &path).unwrap_err();
    match err {
        PathError::SlotMissing { at, slot_id } => {
            assert_eq!(at, vec!["auth".to_string()]);
            assert_eq!(slot_id, "nope");
        }
        other => panic!("expected SlotMissing, got {other:?}"),
    }
}

#[test]
fn diamond_reuse_yields_distinct_occurrences_of_one_revision() {
    let g = deep_diamond();
    let w = walk(&g, "rev_root", Limits::default());
    let uses: Vec<&Occurrence> =
        w.occurrences.iter().filter(|o| o.revision_id == "rev_lockout_1").collect();
    assert_eq!(uses.len(), 3, "one deep use plus two direct uses");
    assert_eq!(w.revisions.iter().filter(|id| *id == "rev_lockout_1").count(), 1);
    assert!(w.missing.is_empty());
    assert!(!w.truncated);
    // Root at depth 0 plus five slots: six levels.
    assert_eq!(w.max_depth_reached, 5);
}

#[test]
fn walk_respects_the_node_budget() {
    let g = deep_diamond();
    let w = walk(&g, "rev_root", Limits { max_nodes: 4, max_depth: MAX_DEPTH });
    assert!(w.truncated);
    assert_eq!(w.occurrences.len(), 4);
}

#[test]
fn node_kind_reads_project_root_revisions() {
    let g = deep_diamond();
    assert_eq!(node_kind(&g, get(&g, "rev_root")), Some(NodeKind::Project));
    assert_eq!(node_kind(&g, get(&g, "rev_auth")), Some(NodeKind::Schema));
    assert_eq!(node_kind(&g, get(&g, "rev_lockout_1")), Some(NodeKind::Idea));
}

fn count(t: &TreeNode) -> usize {
    1 + t.children.iter().map(count).sum::<usize>()
}

#[test]
fn actual_tree_output_never_exceeds_the_budget() {
    let g = deep_diamond();
    let (tree, reported, truncated, _) =
        tree_json(&g, "rev_root", Limits { max_nodes: 3, max_depth: MAX_DEPTH });
    assert!(truncated);
    assert_eq!(reported, 3);
    assert_eq!(count(&tree), reported);
}

// ---------------------------------------------------------------- own

#[test]
fn the_root_occurrence_comes_first_with_no_parent() {
    let g = deep_diamond();
    let w = walk(&g, "rev_root", Limits::default());
    let first = &w.occurrences[0];
    assert_eq!(first.revision_id, "rev_root");
    assert!(first.parent_revision_id.is_none());
    assert_eq!(first.depth, 0);
    assert!(first.slot_path.is_empty());
    // Every use site: root, auth, l3, l4, l5, lockout, direct lockout,
    // billing, billing lockout.
    assert_eq!(w.occurrences.len(), 9);
    assert_eq!(w.revisions.len(), 7);
}

#[test]
fn a_walk_from_a_missing_root_reports_it() {
    let g = deep_diamond();
    let w = walk(&g, "rev_absent", Limits::default());
    assert!(w.occurrences.is_empty());
    assert_eq!(w.missing, vec!["rev_absent".to_string()]);
}

#[test]
fn the_depth_limit_stops_a_walk() {
    let g = deep_diamond();
    let w = walk(&g, "rev_root", Limits { max_nodes: 500, max_depth: 1 });
    assert!(w.truncated);
    assert!(w.occurrences.iter().all(|o| o.depth <= 1));
    assert_eq!(w.max_depth_reached, 1);
}

#[test]
fn an_empty_path_resolves_to_the_root_and_bad_roots_are_named() {
    let g = deep_diamond();
    assert_eq!(resolve_path(&g, "rev_root", &vec![]).unwrap().id, "rev_root");
    assert!(matches!(resolve_path(&g, "rev_absent", &vec![]), Err(PathError::RootMissing)));
    assert!(matches!(resolve_path(&g, "ent_auth", &vec![]), Err(PathError::RootNotRevision)));
    let deep: Vec<String> = (0..33).map(|i| format!("s{i}")).collect();
    assert!(matches!(resolve_path(&g, "rev_root", &deep), Err(PathError::TooDeep)));
}

#[test]
fn path_errors_describe_themselves() {
    let g = deep_diamond();
    let err = resolve_path(&g, "rev_root", &strings(&["auth", "nope"])).unwrap_err();
    assert_eq!(err.message(), "slot 'nope' not found at path /auth");
    assert_eq!(render_path(&strings(&["a", "b"])), "/a/b");
    assert_eq!(render_path(&vec![]), "/");
}

#[test]
fn origin_project_follows_the_entity() {
    let g = deep_diamond();
    assert_eq!(origin_project(&g, get(&g, "rev_auth")), Some("proj_login".to_string()));
    assert_eq!(origin_project(&g, get(&g, "rev_root")), Some("proj_login".to_string()));
}

#[test]
fn a_generous_budget_shows_the_whole_tree() {
    let g = deep_diamond();
    let (tree, reported, truncated, deepest) = tree_json(&g, "rev_root", Limits::default());
    assert!(!truncated);
    assert_eq!(reported, 9);
    assert_eq!(count(&tree), 9);
    assert_eq!(deepest, 5);
    assert_eq!(tree.children.len(), 2);
    assert_eq!(tree.children[0].slot_id.as_deref(), Some("auth"));
}

#[test]
fn a_tight_budget_keeps_the_first_slots_and_marks_the_cut() {
    let g = deep_diamond();
    let (tree, reported, truncated, deepest) =
        tree_json(&g, "rev_root", Limits { max_nodes: 2, max_depth: MAX_DEPTH });
    assert!(truncated);
    assert_eq!(reported, 2);
    assert_eq!(tree.children.len(), 1);
    assert_eq!(tree.children[0].slot_id.as_deref(), Some("auth"));
    assert_eq!(tree.children[0].slot_path, vec!["auth".to_string()]);
    assert!(tree.elided);
    assert_eq!(deepest, 1);
}

#[test]
fn a_missing_root_is_one_elided_node_without_truncation() {
    let g = deep_diamond();
    let (tree, reported, truncated, deepest) = tree_json(&g, "rev_absent", Limits::default());
    assert_eq!(reported, 1);
    assert!(tree.children.is_empty());
    assert!(tree.elided);
    assert!(!truncated);
    assert_eq!(deepest, 0);
}

#[test]
fn a_node_budget_of_one_lists_only_the_root_and_truncates() {
    let g = deep_diamond();
    let w = walk(&g, "rev_root", Limits { max_nodes: 1, max_depth: MAX_DEPTH });
    assert_eq!(w.occurrences.len(), 1);
    assert_eq!(w.revisions, vec!["rev_root".to_string()]);
    assert!(w.truncated);
}
