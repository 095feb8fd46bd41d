//! Search over a selected composition: lexical and vector ranking, related
//! revisions of other roles, and the candidate lane.

use idea_db::model::{
    CandidateData, CandidateStatus, ChangeKind, ClaimMode, Decision, EmbeddingData, EntityData,
    EntityKind, HeadChangeData, LineageKind, LinkData, LinkType, Origin, ProjectData,
    ProposedKind, RecordData, RevisionData, Slot, Source, Stage, StoredRecord,
};
use idea_db::num::Num;
use idea_db::search::{lex, search, tokens, SearchReport, SearchRequest, VectorProfile};
use idea_db::validate::Context;

fn stored(id: &str, seq: i64, data: RecordData) -> StoredRecord {
    StoredRecord {
        id: id.to_string(),
        seq,
        recorded_at: format!("2026-09-07T00:00:{:02}.000Z", seq.min(59)),
        data,
    }
}

fn entity_with(id: &str, seq: i64, kind: EntityKind, derived: &[&str], lineage: LineageKind) -> StoredRecord {
    stored(
        id,
        seq,
        RecordData::Entity(EntityData {
            entity_kind: kind,
            project_id: "proj_q".to_string(),
            title: id.to_string(),
            tags: vec![],
            derived_from: derived.iter().map(|s| s.to_string()).collect(),
            lineage_kind: lineage,
        }),
    )
}

fn entity(id: &str, seq: i64, kind: EntityKind) -> StoredRecord {
    entity_with(id, seq, kind, &[], LineageKind::Original)
}

fn slot(slot_id: &str, revision_id: &str, roles: &[&str]) -> Slot {
    Slot {
        slot_id: slot_id.to_string(),
        revision_id: revision_id.to_string(),
        roles: roles.iter().map(|r| r.to_string()).collect(),
    }
}

fn revision(id: &str, seq: i64, entity_id: &str, body: &str, slots: Vec<Slot>) -> StoredRecord {
    stored(
        id,
        seq,
        RecordData::Revision(RevisionData {
            entity_id: entity_id.to_string(),
            body: body.to_string(),
            tags: vec![],
            slots,
            change_kind: ChangeKind::Initial,
            correction_of: None,
            correction_reason: None,
            previous_revision_id: None,
            source: Source {
                origin: Origin::Human,
                capture_id: None,
                model: None,
                skill: None,
                claim_mode: ClaimMode::Inferred,
                source_anchor: None,
            },
        }),
    )
}

fn link(id: &str, seq: i64, link_type: LinkType, from: &str, to: &str) -> StoredRecord {
    stored(
        id,
        seq,
        RecordData::Link(LinkData {
            link_type,
            from_id: from.to_string(),
            to_id: to.to_string(),
            note: String::new(),
            actor: "human:test".to_string(),
            impact: None,
            similarity: None,
        }),
    )
}

fn related_records() -> Vec<StoredRecord> {
    vec![
        stored("proj_q", 1, RecordData::Project(ProjectData { title: "proj_q".to_string(), description: String::new() })),
        entity("ent_schema", 2, EntityKind::Schema),
        entity_with("ent_be", 3, EntityKind::Idea, &["ent_fe"], LineageKind::SemanticEdit),
        entity("ent_fe", 4, EntityKind::Idea),
        revision("rev_be", 5, "ent_be", "백엔드 정책", vec![]),
        revision("rev_fe", 6, "ent_fe", "프론트 구현", vec![]),
        revision(
            "rev_schema",
            7,
            "ent_schema",
            "스키마",
            vec![slot("be", "rev_be", &["be"]), slot("fe", "rev_fe", &["fe"])],
        ),
        revision("rev_root", 8, "proj_q", "프로젝트", vec![slot("schema", "rev_schema", &[])]),
        link("lnk_related", 9, LinkType::Applies, "ent_be", "ent_fe"),
        stored(
            "hc_q",
            10,
            RecordData::HeadChange(HeadChangeData {
                project_id: "proj_q".to_string(),
                stage: Stage::Working,
                before_revision_id: None,
                after_revision_id: "rev_root".to_string(),
                reason: "root".to_string(),
                actor: "human:test".to_string(),
                meaningful: true,
                decision: Decision { before: String::new(), after: String::new(), rationale: "test".to_string() },
            }),
        ),
    ]
}

/// A context as the store reads it: records by id, heads from the head
/// changes.
fn context(records: Vec<StoredRecord>, seq: i64) -> Context {
    idea_db::store::build_context(records, seq)
}

fn put(records: &mut Vec<StoredRecord>, r: StoredRecord) {
    match records.iter().position(|x| x.id == r.id) {
        Some(i) => records[i] = r,
        None => records.push(r),
    }
}

fn request(query: &str, roles: &[&str], lanes: &[&str], limit: usize) -> SearchRequest {
    SearchRequest {
        project_id: "proj_q".to_string(),
        query: query.to_string(),
        stage: None,
        known_seq: None,
        known_at: None,
        effective_at: None,
        roles: roles.iter().map(|s| s.to_string()).collect(),
        tags: vec![],
        lanes: lanes.iter().map(|s| s.to_string()).collect(),
        limit: Some(limit),
        vector: None,
    }
}

fn run(ctx: &Context, req: &SearchRequest) -> SearchReport {
    search(ctx, req, &vec![]).expect("search succeeds")
}

#[test]
fn role_mismatched_linked_entity_is_related() {
    let found = run(&context(related_records(), 10), &request("정책", &["fe"], &["official"], 20));
    assert!(found.results.iter().all(|row| row.revision_id != "rev_be"));
    assert!(found.related.iter().any(|row| row.revision_id == "rev_be"));
}

#[test]
fn derived_lineage_is_related_without_a_link_record() {
    let records: Vec<StoredRecord> = related_records().into_iter().filter(|r| r.id != "lnk_related").collect();
    let found = run(&context(records, 10), &request("정책", &["fe"], &["official"], 20));
    assert!(found
        .related
        .iter()
        .any(|row| row.revision_id == "rev_be" && row.link_type == LinkType::Derived));
}

#[test]
fn vector_rank_reranks_before_limit() {
    let mut records = related_records();
    put(&mut records, revision("rev_fe", 6, "ent_fe", "정책 프론트 구현", vec![]));
    put(
        &mut records,
        stored(
            "embedding_fe",
            11,
            RecordData::Embedding(EmbeddingData {
                revision_id: "rev_fe".to_string(),
                model: "test-vector".to_string(),
                dim: 2,
                values: vec![Num::parse("1.0").unwrap(), Num::parse("0.0").unwrap()],
                normalized: true,
            }),
        ),
    );
    let ctx = context(records, 11);
    let mut req = request("정책", &[], &[], 1);
    req.vector = Some(VectorProfile { model: "test-vector".to_string(), dim: 2, len: 2 });
    // The only embedding of the profile is the most similar one.
    let found = search(&ctx, &req, &vec![("embedding_fe".to_string(), 0)]).unwrap();
    assert_eq!(found.results[0].revision_id, "rev_fe");
    assert_eq!(found.results[0].vector_rank, Some(1));
}

#[test]
fn lexical_search_without_a_match_has_no_results() {
    let found = run(&context(related_records(), 10), &request("not-present", &[], &[], 20));
    assert!(found.results.is_empty());
}

fn candidate(id: &str, seq: i64, project: &str) -> StoredRecord {
    stored(
        id,
        seq,
        RecordData::Candidate(CandidateData {
            project_id: project.to_string(),
            capture_id: None,
            proposed_kind: ProposedKind::Idea,
            title: "찾을 후보".to_string(),
            body: "정책 후보".to_string(),
            origin: Origin::Human,
            model: None,
            skill: None,
            claim_mode: ClaimMode::Inferred,
            source_anchor: None,
            status: CandidateStatus::Pending,
        }),
    )
}

#[test]
fn candidate_lane_filters_to_project_and_query() {
    let mut records = related_records();
    put(&mut records, candidate("candidate_local", 11, "proj_q"));
    put(&mut records, candidate("candidate_other", 12, "other"));
    let found = run(&context(records, 12), &request("찾을", &[], &["candidate"], 20));
    assert_eq!(found.candidates.len(), 1);
    assert_eq!(found.candidates[0].candidate_id, "candidate_local");
}

#[test]
fn unrelated_links_do_not_create_related_results() {
    let mut records = related_records();
    put(&mut records, entity("ent_other", 11, EntityKind::Idea));
    put(&mut records, revision("rev_other", 12, "ent_other", "무관한 항목", vec![]));
    put(
        &mut records,
        revision(
            "rev_schema",
            7,
            "ent_schema",
            "스키마",
            vec![
                slot("be", "rev_be", &["be"]),
                slot("fe", "rev_fe", &["fe"]),
                slot("other", "rev_other", &["be"]),
            ],
        ),
    );
    put(&mut records, link("lnk_unrelated", 13, LinkType::Depends, "ent_fe", "ent_other"));
    let found = run(&context(records, 13), &request("정책", &["fe"], &[], 20));
    assert!(found.related.iter().all(|row| row.revision_id != "rev_other"));
}

// ---------------------------------------------------------------- own

#[test]
fn tokens_are_lowercase_words_and_cjk_pairs() {
    assert_eq!(tokens("Login-Policy 2 fails"), vec!["login", "policy", "2", "fails"]);
    assert_eq!(tokens("密码策略"), vec!["密码策略", "密码", "码策", "策略"]);
    assert!(tokens("  --  ").is_empty());
}

#[test]
fn the_lexical_score_counts_every_query_token() {
    let q = tokens("lock lock");
    assert_eq!(lex(&q, "lock and lock again"), 4);
    assert_eq!(lex(&tokens("absent"), "lock"), 0);
}

#[test]
fn lexical_ties_rank_by_revision_id() {
    let mut records = related_records();
    put(&mut records, revision("rev_fe", 6, "ent_fe", "정책 프론트 구현", vec![]));
    let found = run(&context(records, 10), &request("정책", &[], &[], 20));
    let ids: Vec<&str> = found.results.iter().map(|h| h.revision_id.as_str()).collect();
    assert_eq!(ids, vec!["rev_be", "rev_fe"]);
    assert_eq!(found.results[0].lexical_rank, Some(1));
    assert_eq!(found.results[1].lexical_rank, Some(2));
    assert_eq!(found.results[0].entity_id, "ent_be");
    assert_eq!(found.results[0].occurrences.len(), 1);
    assert_eq!(found.results[0].occurrences[0].roles, vec!["be".to_string()]);
}

#[test]
fn an_empty_query_without_a_vector_admits_every_revision() {
    let found = run(&context(related_records(), 10), &request("", &[], &["official"], 20));
    assert_eq!(found.results.len(), 4);
    assert_eq!(found.vector.eligible_revisions, 4);
    assert_eq!(found.vector.with_matching_embedding, 0);
}

#[test]
fn a_bad_limit_or_vector_is_refused() {
    let ctx = context(related_records(), 10);
    assert_eq!(search(&ctx, &request("정책", &[], &[], 0), &vec![]).unwrap_err().code, "bad_request");
    assert!(search(&ctx, &request("정책", &[], &[], 201), &vec![]).is_err());
    let mut req = request("정책", &[], &[], 5);
    req.vector = Some(VectorProfile { model: "m".to_string(), dim: 3, len: 2 });
    assert!(search(&ctx, &req, &vec![]).is_err());
}

#[test]
fn a_project_without_a_head_finds_nothing() {
    let records: Vec<StoredRecord> = related_records().into_iter().filter(|r| r.id != "hc_q").collect();
    let found = run(&context(records, 10), &request("정책", &[], &[], 20));
    assert!(found.root_revision_id.is_none());
    assert!(found.results.is_empty());
}
