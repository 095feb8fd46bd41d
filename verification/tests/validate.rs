//! Domain rules of package validation, exercised without a database.

use idea_db::error::Issue;
use idea_db::json::Json;
use idea_db::model::{
    AssessmentData, BaselineData, CaptureData, ChangeKind, ClaimMode, Comparator, Criterion,
    CriterionKind, CriterionResult, Decision, EntityData, EntityKind, Environment, EvidenceKind,
    GoalData, HeadChangeData, Impact, ImpactDirection, JudgeStatus, LineageKind, LinkData,
    LinkType, NewRecord, ObservationData, ObservationStatus, Origin, ProjectData, ProposalOrigin,
    RecordData, RecordKind, RevisionData, Scope, Slot, Source, SourceAnchor, SourceKind, Stage,
    StoredRecord, ArtifactData,
};
use idea_db::num::Num;
use idea_db::validate::{validate_package, Context, ExpectedHead, Package, Plan, RootChange};

// ---------------------------------------------------------------- fixture

fn stored(id: &str, seq: i64, data: RecordData) -> StoredRecord {
    StoredRecord {
        id: id.to_string(),
        seq,
        recorded_at: format!("2026-09-07T00:00:{:02}.000Z", seq.min(59)),
        data,
    }
}

fn project_data(title: &str) -> RecordData {
    RecordData::Project(ProjectData { title: title.to_string(), description: String::new() })
}

fn entity_data(kind: EntityKind, project: &str, title: &str) -> EntityData {
    EntityData {
        entity_kind: kind,
        project_id: project.to_string(),
        title: title.to_string(),
        tags: vec![],
        derived_from: vec![],
        lineage_kind: LineageKind::Original,
    }
}

fn slot(slot_id: &str, revision_id: &str, roles: &[&str]) -> Slot {
    Slot {
        slot_id: slot_id.to_string(),
        revision_id: revision_id.to_string(),
        roles: roles.iter().map(|r| r.to_string()).collect(),
    }
}

fn human_inferred() -> Source {
    Source {
        origin: Origin::Human,
        capture_id: None,
        model: None,
        skill: None,
        claim_mode: ClaimMode::Inferred,
        source_anchor: None,
    }
}

fn rev_data(entity_id: &str, body: &str, slots: Vec<Slot>, change_kind: ChangeKind) -> RevisionData {
    RevisionData {
        entity_id: entity_id.to_string(),
        body: body.to_string(),
        tags: vec![],
        slots,
        change_kind,
        correction_of: None,
        correction_reason: None,
        previous_revision_id: None,
        source: human_inferred(),
    }
}

fn stored_entity(id: &str, seq: i64, kind: EntityKind, project: &str) -> StoredRecord {
    stored(id, seq, RecordData::Entity(entity_data(kind, project, id)))
}

fn stored_revision(id: &str, seq: i64, entity: &str, body: &str, slots: Vec<Slot>) -> StoredRecord {
    stored(id, seq, RecordData::Revision(rev_data(entity, body, slots, ChangeKind::Initial)))
}

/// Six levels deep with the same atom reused through two paths (diamond).
fn deep_diamond() -> Vec<StoredRecord> {
    let mut m = vec![
        stored("proj_login", 1, project_data("proj_login")),
        stored_entity("ent_lockout", 2, EntityKind::Idea, "proj_login"),
        stored_revision("rev_lockout_1", 3, "ent_lockout", "5회 실패 시 30분 잠금", vec![]),
    ];
    for (i, name) in ["l5", "l4", "l3", "l2"].iter().enumerate() {
        m.push(stored_entity(&format!("ent_{name}"), 10 + i as i64, EntityKind::Core, "proj_login"));
    }
    m.push(stored_revision("rev_l5", 20, "ent_l5", "레벨5", vec![slot("policy", "rev_lockout_1", &["be"])]));
    m.push(stored_revision("rev_l4", 21, "ent_l4", "레벨4", vec![slot("inner", "rev_l5", &[])]));
    m.push(stored_revision("rev_l3", 22, "ent_l3", "레벨3", vec![slot("session", "rev_l4", &[])]));
    m.push(stored_entity("ent_auth", 30, EntityKind::Schema, "proj_login"));
    m.push(stored_revision(
        "rev_auth",
        31,
        "ent_auth",
        "인증 스키마",
        vec![slot("session", "rev_l3", &["be"]), slot("direct_policy", "rev_lockout_1", &["fe"])],
    ));
    m.push(stored_entity("ent_billing", 40, EntityKind::Schema, "proj_login"));
    m.push(stored_revision("rev_billing", 41, "ent_billing", "결제 스키마", vec![slot("policy", "rev_lockout_1", &["be"])]));
    m.push(stored_revision(
        "rev_root",
        50,
        "proj_login",
        "로그인 프로젝트 루트",
        vec![slot("auth", "rev_auth", &[]), slot("billing", "rev_billing", &[])],
    ));
    m.sort_by(|a, b| a.id.cmp(&b.id));
    m
}

fn ctx(records: Vec<StoredRecord>) -> Context {
    let mut c = Context::new(0);
    for r in records {
        c.insert(r);
    }
    c
}

fn login_ctx() -> Context {
    ctx(deep_diamond())
}

// ---------------------------------------------------------------- packages

fn new(id: &str, data: RecordData) -> NewRecord {
    NewRecord { id: id.to_string(), kind: data.kind(), data: Ok(data) }
}

fn entity(id: &str, kind: EntityKind, project: &str) -> NewRecord {
    new(id, RecordData::Entity(entity_data(kind, project, id)))
}

fn revision(id: &str, entity: &str, body: &str, slots: Vec<Slot>) -> NewRecord {
    new(id, RecordData::Revision(rev_data(entity, body, slots, ChangeKind::Initial)))
}

fn package(records: Vec<NewRecord>) -> Package {
    Package {
        protocol_version: 1,
        idempotency_key: "test-key".to_string(),
        actor: "human:test".to_string(),
        reason: "test".to_string(),
        expected_heads: vec![],
        records,
        root_change: None,
        publish: None,
    }
}

fn run(pkg: &Package, ctx: &Context) -> Result<Plan, Vec<Issue>> {
    validate_package(pkg, ctx, ctx.seq + 1, "2026-09-07T00:00:00.000Z")
}

fn codes(issues: &[Issue]) -> Vec<&str> {
    issues.iter().map(|i| i.code).collect()
}

fn expect_code(pkg: &Package, ctx: &Context, code: &str) {
    match run(pkg, ctx) {
        Ok(_) => panic!("expected {code}, but validation passed"),
        Err(issues) => assert!(codes(&issues).contains(&code), "expected {code}, got {:?}", issues),
    }
}

fn previous_of<'a>(plan: &'a Plan, id: &str) -> Option<&'a str> {
    plan.resolved_previous.iter().find(|(r, _)| r == id).map(|(_, p)| p.as_str())
}

fn strings(xs: &[&str]) -> Vec<String> {
    xs.iter().map(|s| s.to_string()).collect()
}

fn num(text: &str) -> Num {
    Num::parse(text).expect("a decimal")
}

// ---------------------------------------------------------------- references

#[test]
fn unknown_and_mistyped_references_are_rejected() {
    let ctx = login_ctx();
    expect_code(&package(vec![entity("ent_new", EntityKind::Core, "proj_missing")]), &ctx, "unknown_reference");
    // ent_lockout is an entity, not a project.
    expect_code(&package(vec![entity("ent_new", EntityKind::Core, "ent_lockout")]), &ctx, "wrong_reference_kind");
}

#[test]
fn a_revision_cannot_contain_itself() {
    let ctx = login_ctx();
    let pkg = package(vec![
        entity("ent_new", EntityKind::Core, "proj_login"),
        revision("rev_new", "ent_new", "self", vec![slot("me", "rev_new", &[])]),
    ]);
    expect_code(&pkg, &ctx, "self_reference");
}

#[test]
fn mutual_containment_is_a_cycle() {
    let ctx = login_ctx();
    let pkg = package(vec![
        entity("ent_a", EntityKind::Core, "proj_login"),
        entity("ent_b", EntityKind::Core, "proj_login"),
        revision("rev_a", "ent_a", "a", vec![slot("b", "rev_b", &[])]),
        revision("rev_b", "ent_b", "b", vec![slot("a", "rev_a", &[])]),
    ]);
    expect_code(&pkg, &ctx, "cycle_detected");
}

#[test]
fn ids_are_immutable_and_unique() {
    let ctx = login_ctx();
    expect_code(&package(vec![entity("ent_lockout", EntityKind::Idea, "proj_login")]), &ctx, "duplicate_id");
    expect_code(&package(vec![entity("Ent_Upper", EntityKind::Idea, "proj_login")]), &ctx, "bad_id_format");
}

#[test]
fn head_change_records_cannot_be_submitted_by_a_client() {
    let ctx = login_ctx();
    let pkg = package(vec![new(
        "hc_forged",
        RecordData::HeadChange(HeadChangeData {
            project_id: "proj_login".to_string(),
            stage: Stage::Working,
            before_revision_id: None,
            after_revision_id: "rev_root".to_string(),
            reason: "r".to_string(),
            actor: "a".to_string(),
            meaningful: true,
            decision: Decision { before: String::new(), after: String::new(), rationale: "r".to_string() },
        }),
    )]);
    expect_code(&pkg, &ctx, "forbidden_kind");
}

// ---------------------------------------------------------------- containment

#[test]
fn containment_rules_hold_for_every_level() {
    let ctx = login_ctx();
    // An idea is atomic.
    expect_code(
        &package(vec![
            entity("ent_atom", EntityKind::Idea, "proj_login"),
            revision("rev_atom", "ent_atom", "atom", vec![slot("x", "rev_lockout_1", &[])]),
        ]),
        &ctx,
        "atom_cannot_contain",
    );
    // A core may not contain a schema.
    expect_code(
        &package(vec![
            entity("ent_wrap", EntityKind::Core, "proj_login"),
            revision("rev_wrap", "ent_wrap", "wrap", vec![slot("s", "rev_auth", &[])]),
        ]),
        &ctx,
        "invalid_containment",
    );
    // A project root takes schemas only.
    expect_code(
        &package(vec![revision("rev_root_2", "proj_login", "root", vec![slot("policy", "rev_lockout_1", &[])])]),
        &ctx,
        "invalid_containment",
    );
}

#[test]
fn a_project_root_may_hold_many_unrelated_schemas() {
    let ctx = login_ctx();
    let pkg = package(vec![new(
        "rev_root_2",
        RecordData::Revision(rev_data(
            "proj_login",
            "여러 스키마 루트",
            vec![
                slot("auth", "rev_auth", &[]),
                slot("billing", "rev_billing", &[]),
                slot("auth_again", "rev_auth", &[]),
            ],
            ChangeKind::Composition,
        )),
    )]);
    let plan = run(&pkg, &ctx).expect("unrelated sibling schemas need no invented wrapper");
    assert_eq!(plan.records.len(), 1);
    assert_eq!(previous_of(&plan, "rev_root_2"), Some("rev_root"));
}

// ---------------------------------------------------------------- reuse

#[test]
fn an_idea_may_be_reused_by_another_project() {
    let ctx = login_ctx();
    let pkg = package(vec![
        new("proj_admin", project_data("관리자 콘솔")),
        entity("ent_admin_core", EntityKind::Core, "proj_admin"),
        revision(
            "rev_admin_core",
            "ent_admin_core",
            "관리자도 같은 잠금 정책을 쓴다",
            vec![slot("policy", "rev_lockout_1", &["be"])],
        ),
    ]);
    run(&pkg, &ctx).expect("cross-project reuse of an idea is allowed");
}

#[test]
fn a_schema_stays_inside_its_origin_project() {
    let ctx = login_ctx();
    let pkg = package(vec![
        new("proj_admin", project_data("관리자 콘솔")),
        revision("rev_admin_root", "proj_admin", "관리자 루트", vec![slot("auth", "rev_auth", &[])]),
    ]);
    expect_code(&pkg, &ctx, "schema_cross_project_composition");
}

// ---------------------------------------------------------------- edits

fn correction(id: &str, entity: &str, body: &str, of: &str, reason: Option<&str>) -> NewRecord {
    let mut d = rev_data(entity, body, vec![], ChangeKind::Correction);
    d.correction_of = Some(of.to_string());
    d.correction_reason = reason.map(str::to_string);
    new(id, RecordData::Revision(d))
}

#[test]
fn a_wording_fix_is_a_correction() {
    let ctx = login_ctx();
    let pkg = package(vec![correction(
        "rev_lockout_1b",
        "ent_lockout",
        "연속 5회 실패 시 30분 동안 잠근다",
        "rev_lockout_1",
        Some("문장 다듬음"),
    )]);
    let plan = run(&pkg, &ctx).expect("same numbers, cosmetic");
    assert!(
        codes(&plan.warnings).contains(&"correction_needs_human_review"),
        "the numeric guard must not be presented as proof of equivalence"
    );
}

#[test]
fn changing_a_number_cannot_be_filed_as_a_correction() {
    let ctx = login_ctx();
    let pkg = package(vec![correction(
        "rev_lockout_1b",
        "ent_lockout",
        "5회 실패 시 10분 잠금",
        "rev_lockout_1",
        Some("오타"),
    )]);
    expect_code(&pkg, &ctx, "semantic_edit_required");
}

#[test]
fn a_correction_stays_inside_one_entity_and_needs_a_reason() {
    let ctx = login_ctx();
    expect_code(
        &package(vec![correction("rev_x", "ent_l5", "레벨5", "rev_lockout_1", Some("이유"))]),
        &ctx,
        "correction_entity_mismatch",
    );
    expect_code(
        &package(vec![correction("rev_x", "ent_lockout", "5회 실패 시 30분 잠금", "rev_lockout_1", None)]),
        &ctx,
        "correction_requires_reason",
    );
}

#[test]
fn a_semantic_edit_starts_a_new_entity_with_lineage() {
    let ctx = login_ctx();
    let mut derived = entity_data(EntityKind::Idea, "proj_login", "10분 잠금");
    derived.derived_from = strings(&["ent_lockout"]);
    derived.lineage_kind = LineageKind::SemanticEdit;
    let good = package(vec![
        new("ent_lockout_v2", RecordData::Entity(derived)),
        new(
            "rev_lockout_v2",
            RecordData::Revision(rev_data("ent_lockout_v2", "5회 실패 시 10분 잠금", vec![], ChangeKind::Semantic)),
        ),
    ]);
    run(&good, &ctx).expect("new entity plus derived_from");

    let bad = package(vec![new(
        "rev_lockout_v2",
        RecordData::Revision(rev_data("ent_lockout", "5회 실패 시 10분 잠금", vec![], ChangeKind::Semantic)),
    )]);
    expect_code(&bad, &ctx, "semantic_requires_new_entity");
}

#[test]
fn composition_versions_structure_but_never_an_idea() {
    let ctx = login_ctx();
    let ok = package(vec![new(
        "rev_auth_2",
        RecordData::Revision(rev_data(
            "ent_auth",
            "인증 스키마 v2",
            vec![slot("session", "rev_l3", &[])],
            ChangeKind::Composition,
        )),
    )]);
    let plan = run(&ok, &ctx).expect("schema composition is allowed");
    assert_eq!(
        previous_of(&plan, "rev_auth_2"),
        Some("rev_auth"),
        "the server resolves the predecessor when the client omits it"
    );

    let bad = package(vec![new(
        "rev_lockout_2",
        RecordData::Revision(rev_data("ent_lockout", "다른 본문", vec![], ChangeKind::Composition)),
    )]);
    expect_code(&bad, &ctx, "composition_not_allowed_on_idea");
}

#[test]
fn an_entity_gets_exactly_one_initial_revision() {
    let ctx = login_ctx();
    expect_code(
        &package(vec![revision("rev_lockout_again", "ent_lockout", "다시", vec![])]),
        &ctx,
        "initial_already_exists",
    );
}

// ---------------------------------------------------------------- provenance

const MEETING: &str = "회의 요약: 연속 5회 실패 시 30분 잠금. 이후 논의 계속.";

fn anchored(body: &str, start: usize, end: usize) -> Package {
    let mut d = rev_data("ent_from_note", body, vec![], ChangeKind::Initial);
    d.source = Source {
        origin: Origin::Human,
        capture_id: Some("cap_meeting".to_string()),
        model: None,
        skill: None,
        claim_mode: ClaimMode::Extracted,
        source_anchor: Some(SourceAnchor { capture_id: "cap_meeting".to_string(), start, end }),
    };
    package(vec![
        entity("ent_from_note", EntityKind::Idea, "proj_login"),
        new("rev_from_note", RecordData::Revision(d)),
    ])
}

#[test]
fn an_extracted_claim_must_match_its_anchor_exactly() {
    let mut ctx = login_ctx();
    ctx.insert(stored(
        "cap_meeting",
        60,
        RecordData::Capture(CaptureData {
            project_id: Some("proj_login".to_string()),
            content: MEETING.to_string(),
            content_digest: None,
            media_type: "text/plain".to_string(),
            source_kind: SourceKind::Note,
            source_ref: None,
            occurred_at: None,
        }),
    ));

    let quote = "연속 5회 실패 시 30분 잠금";
    let chars: Vec<char> = MEETING.chars().collect();
    let n = quote.chars().count();
    let start = chars
        .windows(n)
        .position(|w| w.iter().collect::<String>() == quote)
        .expect("quote is present");
    let end = start + n;
    run(&anchored(quote, start, end), &ctx).expect("an exact quote is an extracted claim");
    // A paraphrase over the same span is not an extracted claim.
    expect_code(&anchored("5회 실패하면 30분 잠긴다", start, end), &ctx, "source_anchor_text_mismatch");
    expect_code(&anchored(quote, start, 9999), &ctx, "source_anchor_out_of_range");
}

#[test]
fn an_inferred_claim_carries_no_anchor() {
    let ctx = login_ctx();
    let mut d = rev_data("ent_guess", "추론한 내용", vec![], ChangeKind::Initial);
    d.source = Source {
        origin: Origin::Ai,
        capture_id: None,
        model: Some("local-qwen3-8b".to_string()),
        skill: None,
        claim_mode: ClaimMode::Inferred,
        source_anchor: Some(SourceAnchor { capture_id: "cap_x".to_string(), start: 0, end: 1 }),
    };
    let pkg = package(vec![
        entity("ent_guess", EntityKind::Idea, "proj_login"),
        new("rev_guess", RecordData::Revision(d)),
    ]);
    expect_code(&pkg, &ctx, "inferred_must_not_anchor");
}

#[test]
fn a_declared_capture_digest_must_be_true() {
    let ctx = login_ctx();
    let pkg = package(vec![new(
        "cap_bad",
        RecordData::Capture(CaptureData {
            project_id: None,
            content: "원문".to_string(),
            content_digest: Some("sha256:0000".to_string()),
            media_type: "text/plain".to_string(),
            source_kind: SourceKind::Note,
            source_ref: None,
            occurred_at: None,
        }),
    )]);
    expect_code(&pkg, &ctx, "content_digest_mismatch");
}

#[test]
fn artifact_bytes_are_not_storable_in_this_release() {
    let ctx = login_ctx();
    let pkg = package(vec![new(
        "art_run",
        RecordData::Artifact(ArtifactData {
            uri: "file:///runs/a.json".to_string(),
            digest: "sha256:ab".to_string(),
            digest_alg: "sha256".to_string(),
            size_bytes: None,
            media_type: None,
            included_in_export: true,
            note: String::new(),
        }),
    )]);
    expect_code(&pkg, &ctx, "artifact_bytes_unsupported");
}

// ---------------------------------------------------------------- goals

fn scope(path: &[&str], target: &str) -> Scope {
    Scope {
        root_revision_id: "rev_root".to_string(),
        slot_path: strings(path),
        target_revision_id: target.to_string(),
    }
}

fn quantitative(id: &str, threshold: &str) -> Criterion {
    Criterion {
        criterion_id: id.to_string(),
        kind: CriterionKind::Quantitative,
        statement: "탈취율".to_string(),
        metric: Some("takeover_rate".to_string()),
        comparator: Some(Comparator::Lte),
        threshold: Some(num(threshold)),
        unit: Some("ratio".to_string()),
        required: true,
    }
}

fn qualitative(id: &str, required: bool) -> Criterion {
    Criterion {
        criterion_id: id.to_string(),
        kind: CriterionKind::Qualitative,
        statement: "q".to_string(),
        metric: None,
        comparator: None,
        threshold: None,
        unit: None,
        required,
    }
}

fn goal(id: &str, path: &[&str], statement: &str, criteria: Vec<Criterion>, origin: ProposalOrigin, actor: &str) -> NewRecord {
    new(
        id,
        RecordData::Goal(GoalData {
            project_id: "proj_login".to_string(),
            scope: scope(path, "rev_lockout_1"),
            statement: statement.to_string(),
            criteria,
            origin,
            actor: actor.to_string(),
        }),
    )
}

fn goal_lockout() -> NewRecord {
    goal(
        "goal_lockout",
        &["auth", "direct_policy"],
        "탈취를 막으면서 정상 사용자를 막지 않는다",
        vec![quantitative("c_takeover", "0.001")],
        ProposalOrigin::Official,
        "human:test",
    )
}

fn goal_package(extra: Vec<NewRecord>) -> Package {
    let mut records = vec![goal_lockout()];
    records.extend(extra);
    package(records)
}

fn baseline(id: &str, goal: &str, criteria: &[&str], from: &str, supersedes: Option<&str>, reason: &str) -> NewRecord {
    new(
        id,
        RecordData::Baseline(BaselineData {
            goal_id: goal.to_string(),
            criterion_ids: strings(criteria),
            constraints: vec![],
            effective_from: from.to_string(),
            supersedes: supersedes.map(str::to_string),
            actor: "human:test".to_string(),
            reason: reason.to_string(),
        }),
    )
}

fn result(criterion: &str, status: JudgeStatus) -> CriterionResult {
    CriterionResult {
        criterion_id: criterion.to_string(),
        status,
        observed_value: None,
        note: String::new(),
        progress_estimate: None,
    }
}

#[allow(clippy::too_many_arguments)]
fn assessment_data(
    path: &[&str],
    target: &str,
    baseline: &str,
    cutoff_seq: i64,
    cutoff_at: &str,
    status: JudgeStatus,
    results: Vec<CriterionResult>,
    evidence: &[&str],
) -> AssessmentData {
    AssessmentData {
        root_revision_id: "rev_root".to_string(),
        slot_path: strings(path),
        target_revision_id: target.to_string(),
        baseline_id: baseline.to_string(),
        evidence_cutoff_seq: cutoff_seq,
        evidence_cutoff_at: cutoff_at.to_string(),
        evaluator: "human:test".to_string(),
        rubric_version: "v1".to_string(),
        origin: ProposalOrigin::Official,
        status,
        criteria_results: results,
        evidence_observation_ids: strings(evidence),
        note: String::new(),
    }
}

fn observation_data(value: Json, occurred_at: &str, target: Option<&str>, metric: &str) -> ObservationData {
    ObservationData {
        project_id: "proj_login".to_string(),
        target_revision_id: target.map(str::to_string),
        metric: Some(metric.to_string()),
        value: Some(value),
        unit: None,
        status: ObservationStatus::Observed,
        occurred_at: occurred_at.to_string(),
        method: None,
        environment: Environment {
            code_ref: None,
            data_version: None,
            model_version: None,
            config_digest: None,
            runtime: None,
        },
        artifact_ids: vec![],
        capture_id: None,
        actor: "human:test".to_string(),
        note: String::new(),
    }
}

#[test]
fn a_goal_scope_must_resolve_to_its_target() {
    let ctx = login_ctx();
    let pkg = package(vec![goal(
        "goal_bad",
        &["auth"],
        "s",
        vec![qualitative("c1", false)],
        ProposalOrigin::Official,
        "human:test",
    )]);
    expect_code(&pkg, &ctx, "goal_scope_mismatch");
}

fn bl_1() -> NewRecord {
    baseline("bl_1", "goal_lockout", &["c_takeover"], "2026-09-01T00:00:00+09:00", None, "1차")
}

fn asm_1(path: &[&str]) -> NewRecord {
    new(
        "asm_1",
        RecordData::Assessment(assessment_data(
            path,
            "rev_lockout_1",
            "bl_1",
            1000,
            "2026-09-10T00:00:00+09:00",
            JudgeStatus::Unknown,
            vec![result("c_takeover", JudgeStatus::Unknown)],
            &[],
        )),
    )
}

#[test]
fn an_assessment_must_match_its_baseline_scope() {
    let ctx = login_ctx();
    run(&goal_package(vec![bl_1(), asm_1(&["auth", "direct_policy"])]), &ctx).expect("matching scope");
    // Same atom, different use site: the baseline does not carry over.
    expect_code(&goal_package(vec![bl_1(), asm_1(&["billing", "policy"])]), &ctx, "baseline_scope_mismatch");
}

#[test]
fn evidence_recorded_after_the_cutoff_is_refused() {
    let mut ctx = login_ctx();
    ctx.insert(stored(
        "obs_late",
        900,
        RecordData::Observation(observation_data(
            Json::Number("0.0004".to_string()),
            "2026-09-20T00:00:00+09:00",
            None,
            "takeover_rate",
        )),
    ));
    ctx.seq = 900;
    let pkg = goal_package(vec![
        bl_1(),
        new(
            "asm_1",
            RecordData::Assessment(assessment_data(
                &["auth", "direct_policy"],
                "rev_lockout_1",
                "bl_1",
                100,
                "2026-09-06T00:00:00+09:00",
                JudgeStatus::Met,
                vec![result("c_takeover", JudgeStatus::Met)],
                &["obs_late"],
            )),
        ),
    ]);
    expect_code(&pkg, &ctx, "evidence_after_cutoff");
}

#[test]
fn a_baseline_may_supersede_another_goal_at_the_same_scope() {
    let ctx = login_ctx();
    let stricter = goal(
        "goal_lockout_v2",
        &["auth", "direct_policy"],
        "더 엄격한 기준",
        vec![quantitative("c_takeover", "0.0001")],
        ProposalOrigin::Official,
        "human:test",
    );
    let next = baseline(
        "bl_2",
        "goal_lockout_v2",
        &["c_takeover"],
        "2026-10-01T00:00:00+09:00",
        Some("bl_1"),
        "기준 강화",
    );
    run(&goal_package(vec![stricter, bl_1(), next]), &ctx)
        .expect("a threshold change needs a new goal, and the baseline chain survives it");

    let elsewhere = goal(
        "goal_other",
        &["billing", "policy"],
        "다른 사용 위치",
        vec![qualitative("c_takeover", true)],
        ProposalOrigin::Official,
        "human:test",
    );
    let crossing = baseline(
        "bl_3",
        "goal_other",
        &["c_takeover"],
        "2026-10-01T00:00:00+09:00",
        Some("bl_1"),
        "잘못된 승계",
    );
    expect_code(&goal_package(vec![elsewhere, bl_1(), crossing]), &ctx, "baseline_supersede_scope_mismatch");
}

#[test]
fn an_ai_proposed_goal_cannot_back_an_official_assessment() {
    let ctx = login_ctx();
    let pkg = package(vec![
        goal(
            "goal_ai",
            &["auth", "direct_policy"],
            "모델이 제안한 목표",
            vec![qualitative("c1", true)],
            ProposalOrigin::AiProposed,
            "ai:local-qwen3-8b",
        ),
        baseline("bl_ai", "goal_ai", &["c1"], "2026-09-01T00:00:00+09:00", None, "검토용"),
        new(
            "asm_ai",
            RecordData::Assessment(assessment_data(
                &["auth", "direct_policy"],
                "rev_lockout_1",
                "bl_ai",
                1000,
                "2026-09-10T00:00:00+09:00",
                JudgeStatus::Met,
                vec![result("c1", JudgeStatus::Met)],
                &[],
            )),
        ),
    ]);
    expect_code(&pkg, &ctx, "official_assessment_from_proposed_goal");
}

// ---------------------------------------------------------------- links

fn link(id: &str, link_type: LinkType, from: &str, to: &str, impact: Option<Impact>) -> NewRecord {
    new(
        id,
        RecordData::Link(LinkData {
            link_type,
            from_id: from.to_string(),
            to_id: to.to_string(),
            note: String::new(),
            actor: "human:test".to_string(),
            impact,
            similarity: None,
        }),
    )
}

#[test]
fn link_endpoints_are_type_checked() {
    let ctx = login_ctx();
    // `applies` connects entities, not revisions.
    expect_code(
        &package(vec![link("lnk_1", LinkType::Applies, "rev_auth", "rev_lockout_1", None)]),
        &ctx,
        "invalid_link_endpoints",
    );
}

fn impact_package(evidence: EvidenceKind, method: Option<&str>) -> Package {
    let goal_g = goal(
        "goal_g",
        &["auth", "direct_policy"],
        "s",
        vec![qualitative("c1", false)],
        ProposalOrigin::Official,
        "human:test",
    );
    let impact = Impact {
        scope: "CS 문의".to_string(),
        direction: ImpactDirection::Decrease,
        metric: None,
        magnitude: None,
        unit: None,
        evidence_kind: evidence,
        observation_ids: vec![],
        method: method.map(str::to_string),
    };
    package(vec![goal_g, link("lnk_i", LinkType::Impact, "ent_lockout", "goal_g", Some(impact))])
}

#[test]
fn an_impact_claim_separates_estimate_from_observation() {
    let ctx = login_ctx();
    run(&impact_package(EvidenceKind::Estimated, Some("과거 사례 비교")), &ctx).expect("an estimate states its method");
    expect_code(&impact_package(EvidenceKind::Estimated, None), &ctx, "impact_evidence_mismatch");
    expect_code(&impact_package(EvidenceKind::Observed, None), &ctx, "impact_evidence_mismatch");
}

// ---------------------------------------------------------------- head

fn expected(project: &str, revision: Option<&str>) -> Vec<ExpectedHead> {
    vec![ExpectedHead {
        project_id: project.to_string(),
        stage: Stage::Working,
        revision_id: revision.map(str::to_string),
    }]
}

fn root_change(project: &str, after: &str, reason: &str, meaningful: bool, decision: [&str; 3]) -> Option<RootChange> {
    Some(RootChange {
        project_id: project.to_string(),
        stage: Stage::Working,
        after_revision_id: after.to_string(),
        reason: reason.to_string(),
        meaningful,
        decision: Decision {
            before: decision[0].to_string(),
            after: decision[1].to_string(),
            rationale: decision[2].to_string(),
        },
    })
}

#[test]
fn every_root_change_carries_a_decision() {
    let ctx = login_ctx();
    let mut pkg = package(vec![]);
    pkg.expected_heads = expected("proj_login", None);
    pkg.root_change = root_change("proj_login", "rev_root", "", false, ["", "", ""]);
    expect_code(&pkg, &ctx, "root_change_requires_decision");

    pkg.root_change = root_change(
        "proj_login",
        "rev_root",
        "최초 구성",
        true,
        ["루트 없음", "auth/billing", "정책 재사용을 위해"],
    );
    let plan = run(&pkg, &ctx).expect("a documented root change is accepted");
    assert_eq!(plan.head_updates.len(), 1);
    assert!(plan.head_records.iter().any(|r| r.kind() == RecordKind::HeadChange));
}

#[test]
fn a_head_must_belong_to_its_project() {
    let mut ctx = login_ctx();
    ctx.insert(stored("proj_admin", 70, project_data("관리자")));
    let mut pkg = package(vec![]);
    pkg.expected_heads = expected("proj_admin", None);
    pkg.root_change = root_change("proj_admin", "rev_root", "잘못된 루트", true, ["", "", "이유"]);
    expect_code(&pkg, &ctx, "invalid_head_revision");
}

#[test]
fn batch_first_revisions_and_chronological_cycles_cannot_bypass_immutability() {
    let c = login_ctx();
    expect_code(
        &package(vec![
            entity("ent_new", EntityKind::Idea, "proj_login"),
            revision("rev_new_a", "ent_new", "a", vec![]),
            revision("rev_new_b", "ent_new", "b", vec![]),
        ]),
        &c,
        "initial_already_exists",
    );
    let lineage = |id: &str, title: &str, from: &str| {
        let mut d = entity_data(EntityKind::Idea, "proj_login", title);
        d.derived_from = strings(&[from]);
        d.lineage_kind = LineageKind::SemanticEdit;
        new(id, RecordData::Entity(d))
    };
    expect_code(
        &package(vec![lineage("ent_a", "a", "ent_b"), lineage("ent_b", "b", "ent_a")]),
        &c,
        "history_cycle_detected",
    );
    let composed = |id: &str, previous: &str| {
        let mut d = rev_data("ent_auth", "a", vec![], ChangeKind::Composition);
        d.previous_revision_id = Some(previous.to_string());
        new(id, RecordData::Revision(d))
    };
    expect_code(
        &package(vec![composed("rev_new_a", "rev_new_b"), composed("rev_new_b", "rev_new_a")]),
        &c,
        "history_cycle_detected",
    );
}

#[test]
fn goals_cannot_claim_a_different_project_than_their_scope() {
    let mut c = login_ctx();
    c.insert(stored("proj_other", 1, project_data("proj_other")));
    let mut p = goal_package(vec![]);
    if let Ok(RecordData::Goal(g)) = &mut p.records[0].data {
        g.project_id = "proj_other".to_string();
    }
    expect_code(&p, &c, "goal_project_mismatch");
}

fn judged_package() -> Package {
    let mut met = result("c_takeover", JudgeStatus::Met);
    met.observed_value = Some(num("0.0004"));
    let mut judged = assessment_data(
        &["auth", "direct_policy"],
        "rev_lockout_1",
        "bl_checked",
        1000,
        "2026-09-01T00:00:00Z",
        JudgeStatus::Met,
        vec![met],
        &["obs_checked"],
    );
    judged.rubric_version = "1".to_string();
    goal_package(vec![
        baseline("bl_checked", "goal_lockout", &["c_takeover"], "2026-01-01T00:00:00Z", None, "fixed"),
        new(
            "obs_checked",
            RecordData::Observation(observation_data(
                Json::Number("0.0004".to_string()),
                "2026-01-01T00:00:00Z",
                Some("rev_lockout_1"),
                "takeover_rate",
            )),
        ),
        new("asm_checked", RecordData::Assessment(judged)),
    ])
}

fn assessment_of(p: &mut Package) -> &mut AssessmentData {
    match &mut p.records[3].data {
        Ok(RecordData::Assessment(a)) => a,
        _ => unreachable!(),
    }
}

#[test]
fn evidence_and_completion_must_agree_with_scope_and_required_criteria() {
    let c = login_ctx();
    run(&judged_package(), &c).expect("scoped observation supports official assessment");

    let mut wrong = judged_package();
    if let Ok(RecordData::Observation(o)) = &mut wrong.records[2].data {
        o.target_revision_id = Some("rev_auth".to_string());
    }
    expect_code(&wrong, &c, "evidence_scope_mismatch");

    let mut duplicated = judged_package();
    let a = assessment_of(&mut duplicated);
    let mut again = result("c_takeover", JudgeStatus::Met);
    again.observed_value = Some(num("0.0004"));
    a.criteria_results.push(again);
    expect_code(&duplicated, &c, "duplicate_criterion_result");

    let mut conflicting = judged_package();
    assessment_of(&mut conflicting).criteria_results[0].status = JudgeStatus::Unmet;
    expect_code(&conflicting, &c, "assessment_status_mismatch");

    let mut unsupported = judged_package();
    assessment_of(&mut unsupported).evidence_observation_ids = vec![];
    expect_code(&unsupported, &c, "assessment_missing_evidence");
}

#[test]
fn qualitative_observations_do_not_require_invented_numeric_values() {
    let c = login_ctx();
    for value in [Json::Str("인터뷰에서 사용자가 목적을 설명했다".to_string()), Json::Bool(true)] {
        let p = package(vec![new(
            "obs_words",
            RecordData::Observation(observation_data(
                value,
                "2026-01-01T00:00:00Z",
                Some("rev_lockout_1"),
                "interview_result",
            )),
        )]);
        run(&p, &c).expect("qualitative scalar evidence");
    }
}

#[test]
fn project_head_must_be_the_projects_own_revision() {
    let ctx = login_ctx();
    let mut pkg = package(vec![]);
    pkg.expected_heads = expected("proj_login", Some("rev_root"));
    pkg.root_change = root_change(
        "proj_login",
        "rev_lockout_1",
        "attempt narrow head",
        true,
        ["root", "atom", "test"],
    );
    expect_code(&pkg, &ctx, "invalid_head_revision");
}

// ---------------------------------------------------------------- own

#[test]
fn an_accepted_package_is_stamped_with_the_batch_seq_and_time() {
    let ctx = login_ctx();
    let pkg = package(vec![
        entity("ent_fresh", EntityKind::Idea, "proj_login"),
        revision("rev_fresh", "ent_fresh", "새 아이디어", vec![]),
    ]);
    let plan = run(&pkg, &ctx).expect("a fresh idea is accepted");
    assert_eq!(plan.records.len(), 2);
    for (out, raw) in plan.records.iter().zip(pkg.records.iter()) {
        assert_eq!(out.id, raw.id);
        assert_eq!(out.seq, ctx.seq + 1);
        assert_eq!(out.recorded_at, "2026-09-07T00:00:00.000Z");
    }
    assert!(plan.head_records.is_empty());
    assert!(plan.publication_id.is_none());
}

#[test]
fn an_oversized_package_is_refused_with_one_issue() {
    let ctx = login_ctx();
    let records: Vec<NewRecord> = (0..(idea_db::limits::MAX_PACKAGE_RECORDS + 1))
        .map(|i| entity(&format!("ent_many_{i}"), EntityKind::Idea, "proj_login"))
        .collect();
    let issues = run(&package(records), &ctx).unwrap_err();
    assert_eq!(issues.len(), 1);
    assert_eq!(issues[0].path, "records");
    assert_eq!(issues[0].code, "limit_exceeded");
}

#[test]
fn an_undecodable_payload_is_refused() {
    let ctx = login_ctx();
    let pkg = package(vec![NewRecord {
        id: "ent_broken".to_string(),
        kind: RecordKind::Entity,
        data: Err("missing field `title`".to_string()),
    }]);
    assert!(run(&pkg, &ctx).is_err());
}

fn tz_assessment(occurred_at: &str) -> (Context, Package) {
    let mut ctx = login_ctx();
    ctx.insert(stored(
        "obs_tz",
        5,
        RecordData::Observation(observation_data(
            Json::Number("0.0004".to_string()),
            occurred_at,
            Some("rev_lockout_1"),
            "takeover_rate",
        )),
    ));
    let pkg = goal_package(vec![
        bl_1(),
        new(
            "asm_1",
            RecordData::Assessment(assessment_data(
                &["auth", "direct_policy"],
                "rev_lockout_1",
                "bl_1",
                1000,
                "2026-09-10T00:00:00Z",
                JudgeStatus::Unknown,
                vec![result("c_takeover", JudgeStatus::Unknown)],
                &["obs_tz"],
            )),
        ),
    ]);
    (ctx, pkg)
}

#[test]
fn an_observation_is_compared_with_the_cutoff_as_an_instant() {
    // 08:00+09:00 is 23:00Z the day before: inside the cutoff, though its
    // text sorts after the cutoff's.
    let (ctx, pkg) = tz_assessment("2026-09-10T08:00:00+09:00");
    run(&pkg, &ctx).expect("in time");
    // 09:30+09:00 is 00:30Z: past the cutoff.
    let (ctx, pkg) = tz_assessment("2026-09-10T09:30:00+09:00");
    expect_code(&pkg, &ctx, "evidence_after_cutoff");
}

fn issue_at<'a>(issues: &'a [Issue], code: &str) -> Option<&'a str> {
    issues.iter().find(|i| i.code == code).map(|i| i.path.as_str())
}

#[test]
fn a_baseline_names_each_fault_where_it_lies() {
    let ctx = login_ctx();
    let pkg = goal_package(vec![baseline("bl_x", "goal_lockout", &["c_nope"], "2026-09-01T00:00:00Z", None, "r")]);
    let issues = run(&pkg, &ctx).unwrap_err();
    assert!(issue_at(&issues, "unknown_criterion").unwrap().ends_with(".criterion_ids[0]"));
    assert!(issue_at(&issues, "baseline_missing_required_criterion").unwrap().ends_with(".criterion_ids"));
    let pkg = goal_package(vec![baseline(
        "bl_x",
        "goal_lockout",
        &["c_takeover"],
        "2026-09-01T00:00:00Z",
        Some("bl_missing"),
        "r",
    )]);
    let issues = run(&pkg, &ctx).unwrap_err();
    assert!(issue_at(&issues, "unknown_reference").unwrap().ends_with(".supersedes"));
    run(&goal_package(vec![bl_1()]), &ctx).expect("a clean baseline");
}

#[test]
fn link_faults_carry_their_codes_and_paths() {
    let ctx = login_ctx();
    let issues = run(&package(vec![link("lnk_1", LinkType::Applies, "rev_auth", "ent_missing", None)]), &ctx).unwrap_err();
    assert!(issue_at(&issues, "invalid_link_endpoints").unwrap().ends_with(".from_id"));
    assert!(issue_at(&issues, "unknown_reference").unwrap().ends_with(".to_id"));
    let issues = run(&impact_package(EvidenceKind::Estimated, None), &ctx).unwrap_err();
    assert!(issue_at(&issues, "impact_evidence_mismatch").unwrap().ends_with(".impact.method"));
    let issues = run(&impact_package(EvidenceKind::Observed, None), &ctx).unwrap_err();
    assert!(issue_at(&issues, "impact_evidence_mismatch").unwrap().ends_with(".impact.observation_ids"));
}
