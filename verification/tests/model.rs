use idea_db::model::{
    is_valid_id, is_valid_slug, AssessmentData, CriterionResult, EntityKind, JudgeStatus, LinkType,
    NodeKind, ProgressEstimate, ProposalOrigin, RecordData, RecordKind, Stage, StoredRecord,
};
use idea_db::num::Num;

#[test]
fn containment_table_matches_contract() {
    assert!(NodeKind::Project.may_contain(NodeKind::Schema));
    assert!(!NodeKind::Project.may_contain(NodeKind::Core));
    assert!(NodeKind::Schema.may_contain(NodeKind::Idea));
    assert!(NodeKind::Schema.may_contain(NodeKind::Core));
    assert!(!NodeKind::Schema.may_contain(NodeKind::Schema));
    assert!(NodeKind::Core.may_contain(NodeKind::Core));
    assert!(!NodeKind::Core.may_contain(NodeKind::Schema));
    assert!(!NodeKind::Core.may_contain(NodeKind::Project));
    assert!(!NodeKind::Idea.may_contain(NodeKind::Idea));
}

#[test]
fn id_and_slug_formats() {
    assert!(is_valid_id("rev_login.policy:1"));
    assert!(!is_valid_id("Rev_login"));
    assert!(!is_valid_id("ab"));
    assert!(!is_valid_id("1rev"));
    assert!(is_valid_slug("be"));
    assert!(is_valid_slug("2fa-check"));
    assert!(!is_valid_slug("BE"));
    assert!(!is_valid_slug(""));
}

#[test]
fn head_change_and_publication_are_server_only() {
    assert!(RecordKind::HeadChange.is_server_only());
    assert!(RecordKind::Publication.is_server_only());
    assert!(!RecordKind::Revision.is_server_only());
}

#[test]
fn record_kind_names_and_labels() {
    assert_eq!(RecordKind::HeadChange.as_str(), "head_change");
    assert_eq!(RecordKind::HeadChange.label(), "HeadChange");
    assert_eq!(RecordKind::Project.as_str(), "project");
    assert_eq!(RecordKind::Project.label(), "Project");
}

#[test]
fn link_types_have_relationship_names() {
    assert_eq!(LinkType::Applies.rel_type(), "APPLIES");
    assert_eq!(LinkType::Applies.as_str(), "applies");
}

#[test]
fn entity_kinds_map_to_node_kinds() {
    assert_eq!(NodeKind::from_entity(EntityKind::Schema), NodeKind::Schema);
    assert_eq!(NodeKind::from_entity(EntityKind::Core), NodeKind::Core);
    assert_eq!(NodeKind::from_entity(EntityKind::Idea), NodeKind::Idea);
    assert_eq!(NodeKind::Project.as_str(), "project");
    assert_eq!(Stage::Official.as_str(), "official");
}

#[test]
fn ids_are_bounded_in_length() {
    let long = format!("a{}", "b".repeat(200));
    assert!(!is_valid_id(&long));
    assert!(is_valid_id("abc"));
}

#[test]
fn progress_evidence_participates_in_the_record_reference_closure() {
    let data = RecordData::Assessment(AssessmentData {
        root_revision_id: "rev_root".to_string(),
        slot_path: vec![],
        target_revision_id: "rev_target".to_string(),
        baseline_id: "baseline_1".to_string(),
        evidence_cutoff_seq: 10,
        evidence_cutoff_at: "2026-01-01T00:00:00Z".to_string(),
        evaluator: "model:local".to_string(),
        rubric_version: "goal-progress-milestones-v1".to_string(),
        origin: ProposalOrigin::AiProposed,
        status: JudgeStatus::Unknown,
        criteria_results: vec![CriterionResult {
            criterion_id: "planned".to_string(),
            status: JudgeStatus::Unknown,
            observed_value: None,
            note: String::new(),
            progress_estimate: Some(ProgressEstimate {
                percent: Num::parse("20.0").expect("a decimal"),
                rationale: "plan exists".to_string(),
                evidence_record_ids: vec!["rev_plan".to_string()],
            }),
        }],
        evidence_observation_ids: vec![],
        note: String::new(),
    });
    let record = StoredRecord {
        id: "assessment_1".into(),
        seq: 11,
        recorded_at: "2026-01-01T00:00:00.000Z".into(),
        data,
    };
    assert!(record.refs().contains(&"rev_plan".to_string()));
}
