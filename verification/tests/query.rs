//! Read projections over a fixed history: the known-sequence view, the state
//! summary, goal verdicts over baselines in time, and record evidence.

use idea_db::json::Json;
use idea_db::model::{
    AssessmentData, BaselineData, ChangeKind, ClaimMode, Criterion, CriterionKind,
    CriterionResult, Decision, EntityData, EntityKind, Environment, GoalData, HeadChangeData,
    JudgeStatus, LineageKind, LinkData, LinkType, ObservationData, ObservationStatus, Origin,
    ProjectData, ProposalOrigin, RecordData, RecordKind, RevisionData, Scope, Slot, Source, Stage,
    StoredRecord,
};
use idea_db::query::{gate_status, goals, record, state, view, Gate, RequiredStatus};
use idea_db::validate::Context;

fn stored(id: &str, seq: i64, data: RecordData) -> StoredRecord {
    StoredRecord {
        id: id.to_string(),
        seq,
        recorded_at: format!("2026-09-07T00:00:{:02}.000Z", seq.min(59)),
        data,
    }
}

fn project(id: &str, seq: i64) -> StoredRecord {
    stored(id, seq, RecordData::Project(ProjectData { title: id.to_string(), description: String::new() }))
}

fn entity_with(id: &str, seq: i64, kind: EntityKind, project: &str, derived: &[&str], lineage: LineageKind) -> StoredRecord {
    stored(
        id,
        seq,
        RecordData::Entity(EntityData {
            entity_kind: kind,
            project_id: project.to_string(),
            title: id.to_string(),
            tags: vec![],
            derived_from: derived.iter().map(|s| s.to_string()).collect(),
            lineage_kind: lineage,
        }),
    )
}

fn entity(id: &str, seq: i64, kind: EntityKind, project: &str) -> StoredRecord {
    entity_with(id, seq, kind, project, &[], LineageKind::Original)
}

fn slot(slot_id: &str, revision_id: &str, roles: &[&str]) -> Slot {
    Slot {
        slot_id: slot_id.to_string(),
        revision_id: revision_id.to_string(),
        roles: roles.iter().map(|r| r.to_string()).collect(),
    }
}

fn revision(id: &str, seq: i64, entity_id: &str, body: &str, slots: Vec<Slot>) -> StoredRecord {
    stored(
        id,
        seq,
        RecordData::Revision(RevisionData {
            entity_id: entity_id.to_string(),
            body: body.to_string(),
            tags: vec![],
            slots,
            change_kind: ChangeKind::Initial,
            correction_of: None,
            correction_reason: None,
            previous_revision_id: None,
            source: Source {
                origin: Origin::Human,
                capture_id: None,
                model: None,
                skill: None,
                claim_mode: ClaimMode::Inferred,
                source_anchor: None,
            },
        }),
    )
}

fn context(records: Vec<StoredRecord>, seq: i64) -> Context {
    let mut sorted = records;
    sorted.sort_by(|a, b| a.id.cmp(&b.id));
    let mut c = Context::new(0);
    for r in sorted {
        c.insert(r);
    }
    c.seq = seq;
    c
}

/// Replace the record with the same id, or add it.
fn put(records: &mut Vec<StoredRecord>, r: StoredRecord) {
    match records.iter().position(|x| x.id == r.id) {
        Some(i) => records[i] = r,
        None => records.push(r),
    }
}

fn params(pairs: &[(&str, &str)]) -> Vec<(String, String)> {
    pairs.iter().map(|(k, v)| (k.to_string(), v.to_string())).collect()
}

fn related_records() -> Vec<StoredRecord> {
    vec![
        project("proj_q", 1),
        entity("ent_schema", 2, EntityKind::Schema, "proj_q"),
        entity_with("ent_be", 3, EntityKind::Idea, "proj_q", &["ent_fe"], LineageKind::SemanticEdit),
        entity("ent_fe", 4, EntityKind::Idea, "proj_q"),
        revision("rev_be", 5, "ent_be", "백엔드 정책", vec![]),
        revision("rev_fe", 6, "ent_fe", "프론트 구현", vec![]),
        revision(
            "rev_schema",
            7,
            "ent_schema",
            "스키마",
            vec![slot("be", "rev_be", &["be"]), slot("fe", "rev_fe", &["fe"])],
        ),
        revision("rev_root", 8, "proj_q", "프로젝트", vec![slot("schema", "rev_schema", &[])]),
        stored(
            "lnk_related",
            9,
            RecordData::Link(LinkData {
                link_type: LinkType::Applies,
                from_id: "ent_be".to_string(),
                to_id: "ent_fe".to_string(),
                note: String::new(),
                actor: "human:test".to_string(),
                impact: None,
                similarity: None,
            }),
        ),
        stored(
            "hc_q",
            10,
            RecordData::HeadChange(HeadChangeData {
                project_id: "proj_q".to_string(),
                stage: Stage::Working,
                before_revision_id: None,
                after_revision_id: "rev_root".to_string(),
                reason: "root".to_string(),
                actor: "human:test".to_string(),
                meaningful: true,
                decision: Decision { before: String::new(), after: String::new(), rationale: "test".to_string() },
            }),
        ),
    ]
}

fn related_context() -> Context {
    context(related_records(), 10)
}

fn diamond_records() -> Vec<StoredRecord> {
    let mut m = vec![
        project("proj_login", 1),
        entity("ent_lockout", 2, EntityKind::Idea, "proj_login"),
        revision("rev_lockout_1", 3, "ent_lockout", "5회 실패 시 30분 잠금", vec![]),
    ];
    for (i, name) in ["l5", "l4", "l3", "l2"].iter().enumerate() {
        m.push(entity(&format!("ent_{name}"), 10 + i as i64, EntityKind::Core, "proj_login"));
    }
    m.push(revision("rev_l5", 20, "ent_l5", "레벨5", vec![slot("policy", "rev_lockout_1", &["be"])]));
    m.push(revision("rev_l4", 21, "ent_l4", "레벨4", vec![slot("inner", "rev_l5", &[])]));
    m.push(revision("rev_l3", 22, "ent_l3", "레벨3", vec![slot("session", "rev_l4", &[])]));
    m.push(entity("ent_auth", 30, EntityKind::Schema, "proj_login"));
    m.push(revision(
        "rev_auth",
        31,
        "ent_auth",
        "인증 스키마",
        vec![slot("session", "rev_l3", &["be"]), slot("direct_policy", "rev_lockout_1", &["fe"])],
    ));
    m.push(entity("ent_billing", 40, EntityKind::Schema, "proj_login"));
    m.push(revision("rev_billing", 41, "ent_billing", "결제 스키마", vec![slot("policy", "rev_lockout_1", &["be"])]));
    m.push(revision(
        "rev_root",
        50,
        "proj_login",
        "로그인 프로젝트 루트",
        vec![slot("auth", "rev_auth", &[]), slot("billing", "rev_billing", &[])],
    ));
    m
}

fn goal(id: &str, seq: i64, criterion: &str, statement: &str) -> StoredRecord {
    stored(
        id,
        seq,
        RecordData::Goal(GoalData {
            project_id: "proj_q".to_string(),
            scope: Scope {
                root_revision_id: "rev_root".to_string(),
                slot_path: vec!["schema".to_string(), "be".to_string()],
                target_revision_id: "rev_be".to_string(),
            },
            statement: statement.to_string(),
            criteria: vec![Criterion {
                criterion_id: criterion.to_string(),
                kind: CriterionKind::Qualitative,
                statement: "충족".to_string(),
                metric: None,
                comparator: None,
                threshold: None,
                unit: None,
                required: true,
            }],
            origin: ProposalOrigin::Official,
            actor: "human:test".to_string(),
        }),
    )
}

fn baseline(id: &str, seq: i64, goal: &str, criterion: &str, from: &str, supersedes: Option<&str>) -> StoredRecord {
    stored(
        id,
        seq,
        RecordData::Baseline(BaselineData {
            goal_id: goal.to_string(),
            criterion_ids: vec![criterion.to_string()],
            constraints: vec![],
            effective_from: from.to_string(),
            supersedes: supersedes.map(str::to_string),
            actor: "human:test".to_string(),
            reason: "revision".to_string(),
        }),
    )
}

#[allow(clippy::too_many_arguments)]
fn assessment(
    id: &str,
    seq: i64,
    baseline: &str,
    criterion: &str,
    status: JudgeStatus,
    cutoff_seq: i64,
    cutoff_at: &str,
    evidence: &[&str],
) -> StoredRecord {
    stored(
        id,
        seq,
        RecordData::Assessment(AssessmentData {
            root_revision_id: "rev_root".to_string(),
            slot_path: vec!["schema".to_string(), "be".to_string()],
            target_revision_id: "rev_be".to_string(),
            baseline_id: baseline.to_string(),
            evidence_cutoff_seq: cutoff_seq,
            evidence_cutoff_at: cutoff_at.to_string(),
            evaluator: "human:test".to_string(),
            rubric_version: "v1".to_string(),
            origin: ProposalOrigin::Official,
            status,
            criteria_results: vec![CriterionResult {
                criterion_id: criterion.to_string(),
                status,
                observed_value: None,
                note: String::new(),
                progress_estimate: None,
            }],
            evidence_observation_ids: evidence.iter().map(|s| s.to_string()).collect(),
            note: String::new(),
        }),
    )
}

#[test]
fn historical_view_hides_future() {
    let c = context(diamond_records(), 100);
    let p = params(&[("known_seq", "3")]);
    let v = view(&c, &p).unwrap();
    assert!(!v.records.iter().any(|r| r.id == "rev_l5"));
}

#[test]
fn state_counts_links_by_endpoint_project() {
    let found = state(&related_context(), &vec![]).unwrap();
    let link = found.projects[0].counts.iter().find(|k| k.kind == RecordKind::Link).expect("a link count");
    assert_eq!(link.count, 1);
}

#[test]
fn goals_choose_latest_effective_unsuperseded_baseline_not_id_order() {
    let mut records = related_records();
    put(&mut records, goal("goal_q", 11, "required", "정책 목표"));
    for (id, seq, from, supersedes) in [
        ("baseline_z_old", 12, "2026-01-01T00:00:00.000Z", None),
        ("baseline_a_new", 14, "2026-02-01T00:00:00.000Z", Some("baseline_z_old")),
        ("baseline_0_future", 16, "2026-03-01T00:00:00.000Z", Some("baseline_a_new")),
    ] {
        put(&mut records, baseline(id, seq, "goal_q", "required", from, supersedes));
    }
    for (id, seq, baseline_id, status) in [
        ("assessment_old", 13, "baseline_z_old", JudgeStatus::Unmet),
        ("assessment_new", 15, "baseline_a_new", JudgeStatus::Met),
        ("assessment_future", 17, "baseline_0_future", JudgeStatus::Unmet),
    ] {
        put(
            &mut records,
            assessment(id, seq, baseline_id, "required", status, 10, "2026-01-01T00:00:00.000Z", &[]),
        );
    }
    let context = context(records, 17);

    let january = params(&[("project_id", "proj_q"), ("effective_at", "2026-01-15T00:00:00.000Z")]);
    assert_eq!(goals(&context, &january).unwrap().goals[0].gate_status, Gate::Unmet);

    let february = params(&[("project_id", "proj_q"), ("effective_at", "2026-02-15T00:00:00.000Z")]);
    let found = goals(&context, &february).unwrap();
    assert_eq!(found.goals[0].gate_status, Gate::Met);
    assert_eq!(found.goals[0].baselines.len(), 2);
}

fn no_environment() -> Environment {
    Environment { code_ref: None, data_version: None, model_version: None, config_digest: None, runtime: None }
}

#[test]
fn assessments_cannot_leak_future_evidence_into_an_earlier_effective_view() {
    let mut records = related_records();
    put(&mut records, goal("goal_time", 11, "ok", "Time bounded result"));
    put(&mut records, baseline("baseline_time", 12, "goal_time", "ok", "2026-08-01T00:00:00Z", None));
    put(
        &mut records,
        stored(
            "obs_time",
            13,
            RecordData::Observation(ObservationData {
                project_id: "proj_q".to_string(),
                target_revision_id: Some("rev_be".to_string()),
                metric: Some("passes".to_string()),
                value: Some(Json::Bool(true)),
                unit: None,
                status: ObservationStatus::Observed,
                occurred_at: "2026-08-03T09:00:00+09:00".to_string(),
                method: Some("executed test".to_string()),
                environment: no_environment(),
                artifact_ids: vec![],
                capture_id: None,
                actor: "human:test".to_string(),
                note: String::new(),
            }),
        ),
    );
    put(
        &mut records,
        assessment(
            "assessment_time",
            14,
            "baseline_time",
            "ok",
            JudgeStatus::Met,
            13,
            "2026-08-03T09:00:00+09:00",
            &["obs_time"],
        ),
    );
    let ctx = context(records, 14);
    let before = params(&[("effective_at", "2026-08-03T08:59:59.999+09:00")]);
    let detail = record(&ctx, "rev_be", &before).unwrap();
    assert!(detail.observations.is_empty());
    assert!(detail.assessments.is_empty(), "an assessment exposes future observations indirectly");

    let scope = params(&[("effective_at", "2026-08-03T08:59:59.999+09:00"), ("project_id", "proj_q")]);
    assert_eq!(goals(&ctx, &scope).unwrap().goals[0].gate_status, Gate::Unknown);
    let later = params(&[("effective_at", "2026-08-03T00:00:00Z"), ("project_id", "proj_q")]);
    assert_eq!(goals(&ctx, &later).unwrap().goals[0].gate_status, Gate::Met);
}

// ---------------------------------------------------------------- own

#[test]
fn the_current_view_knows_every_record() {
    let c = context(diamond_records(), 50);
    let v = view(&c, &vec![]).unwrap();
    assert_eq!(v.known, 50);
    assert_eq!(v.records.len(), 15);
}

#[test]
fn an_unknown_parameter_is_refused() {
    let c = related_context();
    let err = state(&c, &params(&[("colour", "blue")])).unwrap_err();
    assert_eq!(err.status, 400);
}

#[test]
fn a_record_detail_shows_the_links_at_both_ends() {
    let ctx = related_context();
    let detail = record(&ctx, "ent_be", &vec![]).unwrap();
    assert_eq!(detail.record.id, "ent_be");
    assert!(detail.outgoing.iter().any(|l| l.link_id == "lnk_related" && l.other_id == "ent_fe"));
    let other = record(&ctx, "ent_fe", &vec![]).unwrap();
    assert!(other.incoming.iter().any(|l| l.link_id == "lnk_related" && l.other_id == "ent_be"));
}

#[test]
fn a_missing_record_is_not_found() {
    let ctx = related_context();
    assert_eq!(record(&ctx, "rev_absent", &vec![]).unwrap_err().status, 404);
}

fn required(status: Option<JudgeStatus>) -> RequiredStatus {
    RequiredStatus { criterion_id: "c".to_string(), status }
}

#[test]
fn an_unmet_requirement_decides_the_gate_even_beside_a_missing_result() {
    assert_eq!(gate_status(&vec![required(Some(JudgeStatus::Unmet)), required(None)]), Gate::Unmet);
    assert_eq!(gate_status(&vec![required(None), required(Some(JudgeStatus::Disputed))]), Gate::Disputed);
    assert_eq!(gate_status(&vec![required(Some(JudgeStatus::Met)), required(None)]), Gate::Unknown);
    assert_eq!(gate_status(&vec![required(Some(JudgeStatus::Met)), required(Some(JudgeStatus::Met))]), Gate::Met);
    assert_eq!(gate_status(&vec![]), Gate::Unknown);
}

#[test]
fn goals_refuse_unknown_parameters_and_a_bad_stage() {
    let ctx = context(related_records(), 10);
    assert_eq!(goals(&ctx, &params(&[("project_id", "proj_q"), ("color", "red")])).unwrap_err().code, "bad_request");
    assert_eq!(goals(&ctx, &params(&[("project_id", "proj_q"), ("stage", "draft")])).unwrap_err().code, "bad_request");
    assert_eq!(goals(&ctx, &params(&[("stage", "working")])).unwrap_err().code, "bad_request");
    assert!(goals(&ctx, &params(&[("project_id", "proj_q")])).is_ok());
}
