//! What an export holds: the records of the whole namespace or of one
//! project's reference closure, in commit order, with the heads and receipts
//! inside that scope and a manifest of what the document cannot carry.
//! Reading the namespace and writing the document stay with the caller.

use vstd::prelude::*;

use crate::backup::{fits_scope, receipt_fits_scope, ReceiptRow};
use crate::error::ApiError;
use crate::graph;
use crate::json::{self, Json, JsonV};
use crate::limits;
use crate::model::{data_refs, views, RecordData, RecordKind, StoredRecord};
use crate::search::{key_before, order_keys, Key};
use crate::text;
use crate::util;
use crate::preview::deeps;
use crate::validate::{Context, HeadState};

verus! {

// ---------------------------------------------------------------- closure

/// A record belongs to a project directly, before any closure expansion.
pub open spec fn owns_spec(r: StoredRecord, project: Seq<char>) -> bool {
    match r.data {
        RecordData::Entity(d) => d.project_id@ == project,
        RecordData::Candidate(d) => d.project_id@ == project,
        RecordData::Observation(d) => d.project_id@ == project,
        RecordData::Goal(d) => d.project_id@ == project,
        RecordData::HeadChange(d) => d.project_id@ == project,
        RecordData::Publication(d) => d.project_id@ == project,
        RecordData::Capture(d) => d.project_id matches Some(x) && x@ == project,
        _ => false,
    }
}

/// A project's closure holds every record that names the project in its
/// project field (entities, candidates, observations, goals, head changes,
/// publications and captures), the project itself, and what hangs off a
/// selected record: the revisions of a selected entity, the baselines of a
/// selected goal, the assessments of a selected baseline.
pub proof fn law_closure_holds_project_records(rs: Seq<StoredRecord>, project: Seq<char>, sel: Set<Seq<char>>, j: int)
    requires
        is_closure(rs, project, sel),
        0 <= j < rs.len(),
    ensures
        sel.contains(project),
        (rs[j].data matches RecordData::Entity(d) && d.project_id@ == project) ==> sel.contains(rs[j].id@),
        (rs[j].data matches RecordData::Candidate(d) && d.project_id@ == project) ==> sel.contains(rs[j].id@),
        (rs[j].data matches RecordData::Observation(d) && d.project_id@ == project) ==> sel.contains(rs[j].id@),
        (rs[j].data matches RecordData::Goal(d) && d.project_id@ == project) ==> sel.contains(rs[j].id@),
        (rs[j].data matches RecordData::HeadChange(d) && d.project_id@ == project) ==> sel.contains(rs[j].id@),
        (rs[j].data matches RecordData::Publication(d) && d.project_id@ == project) ==> sel.contains(rs[j].id@),
        (rs[j].data matches RecordData::Capture(d) && d.project_id matches Some(x) && x@ == project) ==> sel.contains(
            rs[j].id@,
        ),
        (rs[j].data matches RecordData::Revision(d) && sel.contains(d.entity_id@)) ==> sel.contains(rs[j].id@),
        (rs[j].data matches RecordData::Baseline(d) && sel.contains(d.goal_id@)) ==> sel.contains(rs[j].id@),
        (rs[j].data matches RecordData::Assessment(d) && sel.contains(d.baseline_id@)) ==> sel.contains(rs[j].id@),
{
    assert(seeds(rs, project).contains(project));
    if owns_spec(rs[j], project) {
        assert(seeds(rs, project).contains(rs[j].id@));
    }
    if attaches(rs[j], sel) {
        assert(sel.contains(rs[j].id@));
    }
}

/// Direct project ownership.
pub fn owns(r: &StoredRecord, project: &str) -> (b: bool)
    ensures
        b == owns_spec(*r, project@),
{
    match &r.data {
        RecordData::Entity(d) => text::str_eq(d.project_id.as_str(), project),
        RecordData::Candidate(d) => text::str_eq(d.project_id.as_str(), project),
        RecordData::Observation(d) => text::str_eq(d.project_id.as_str(), project),
        RecordData::Goal(d) => text::str_eq(d.project_id.as_str(), project),
        RecordData::HeadChange(d) => text::str_eq(d.project_id.as_str(), project),
        RecordData::Publication(d) => text::str_eq(d.project_id.as_str(), project),
        RecordData::Capture(d) => match &d.project_id {
            Some(x) => text::str_eq(x.as_str(), project),
            None => false,
        },
        _ => false,
    }
}

/// A record hangs off a selection: every revision of a selected identity,
/// the baselines of a selected goal, the assessments of a selected baseline,
/// the embeddings of a selected revision, the promotions of a selected
/// candidate, and links between two selected records.
pub open spec fn attaches(r: StoredRecord, sel: Set<Seq<char>>) -> bool {
    match r.data {
        RecordData::Revision(d) => sel.contains(d.entity_id@),
        RecordData::Baseline(d) => sel.contains(d.goal_id@),
        RecordData::Assessment(d) => sel.contains(d.baseline_id@),
        RecordData::Embedding(d) => sel.contains(d.revision_id@),
        RecordData::Promotion(d) => sel.contains(d.candidate_id@),
        RecordData::Link(d) => sel.contains(d.from_id@) && sel.contains(d.to_id@),
        _ => false,
    }
}

/// An id of a stored record.
pub open spec fn stored_id(rs: Seq<StoredRecord>, id: Seq<char>) -> bool {
    graph::first_with_id(rs, id) is Some
}

/// A selected record's reference `k` to a stored record is selected too.
pub open spec fn ref_kept(rs: Seq<StoredRecord>, sel: Set<Seq<char>>, id: Seq<char>, k: int) -> bool {
    match graph::first_with_id(rs, id) {
        Some(r) => (0 <= k < data_refs(r.data).len() && stored_id(rs, data_refs(r.data)[k])) ==> sel.contains(
            data_refs(r.data)[k],
        ),
        None => true,
    }
}

/// A selection that nothing leads out of: the stored references of its
/// records, and the records that hang off it, are all in it.
pub open spec fn closed_under(rs: Seq<StoredRecord>, sel: Set<Seq<char>>) -> bool {
    &&& forall|id: Seq<char>, k: int| sel.contains(id) ==> #[trigger] ref_kept(rs, sel, id, k)
    &&& forall|j: int| 0 <= j < rs.len() && #[trigger] attaches(rs[j], sel) ==> sel.contains(rs[j].id@)
}

/// What a project's closure starts from: the project and what it owns.
pub open spec fn seeds(rs: Seq<StoredRecord>, project: Seq<char>) -> Set<Seq<char>> {
    Set::new(|id: Seq<char>| id == project || exists|j: int| 0 <= j < rs.len() && rs[j].id@ == id && #[trigger] owns_spec(rs[j], project))
}

/// The reference closure of a project: the least closed selection holding
/// the project and what it owns.
pub open spec fn is_closure(rs: Seq<StoredRecord>, project: Seq<char>, sel: Set<Seq<char>>) -> bool {
    &&& seeds(rs, project).subset_of(sel)
    &&& closed_under(rs, sel)
    &&& forall|s: Set<Seq<char>>| #[trigger] closed_under(rs, s) && seeds(rs, project).subset_of(s) ==> sel.subset_of(s)
}

/// The records whose ids are `rs`'s ids.
pub open spec fn ids_of(rs: Seq<StoredRecord>) -> Seq<Seq<char>> {
    rs.map_values(|r: StoredRecord| r.id@)
}

proof fn lemma_found_is_stored(rs: Seq<StoredRecord>, id: Seq<char>)
    requires
        stored_id(rs, id),
    ensures
        ids_of(rs).contains(id),
        graph::first_with_id(rs, id).unwrap().id@ == id,
    decreases rs.len(),
{
    if rs[0].id@ == id {
        assert(ids_of(rs)[0] == id);
    } else {
        lemma_found_is_stored(rs.drop_first(), id);
        let k = choose|k: int| 0 <= k < ids_of(rs.drop_first()).len() && ids_of(rs.drop_first())[k] == id;
        assert(ids_of(rs)[k + 1] == id);
    }
}

/// A selection of distinct stored ids is no larger than the records.
proof fn lemma_selection_size(rs: Seq<StoredRecord>, sel: Seq<Seq<char>>)
    requires
        sel.no_duplicates(),
        forall|a: int| 0 <= a < sel.len() ==> stored_id(rs, #[trigger] sel[a]),
    ensures
        sel.len() <= rs.len(),
{
    sel.unique_seq_to_set();
    ids_of(rs).lemma_cardinality_of_set();
    assert forall|x: Seq<char>| sel.to_set().contains(x) implies ids_of(rs).to_set().contains(x) by {
        let a = choose|a: int| 0 <= a < sel.len() && sel[a] == x;
        lemma_found_is_stored(rs, sel[a]);
    }
    vstd::set_lib::lemma_len_subset(sel.to_set(), ids_of(rs).to_set());
}

fn listed(v: &Vec<String>, s: &str) -> (r: bool)
    ensures
        r == views(v@).contains(s@),
{
    let r = text::contains_str(v, s);
    proof {
        if r {
            let i = choose|i: int| 0 <= i < v@.len() && (#[trigger] v@[i])@ == s@;
            assert(views(v@)[i] == s@);
        }
        if views(v@).contains(s@) {
            let i = choose|i: int| 0 <= i < views(v@).len() && views(v@)[i] == s@;
            assert(v@[i]@ == s@);
        }
    }
    r
}

fn attaches_to(r: &StoredRecord, sel: &Vec<String>) -> (b: bool)
    ensures
        b == attaches(*r, views(sel@).to_set()),
{
    match &r.data {
        RecordData::Revision(d) => listed(sel, d.entity_id.as_str()),
        RecordData::Baseline(d) => listed(sel, d.goal_id.as_str()),
        RecordData::Assessment(d) => listed(sel, d.baseline_id.as_str()),
        RecordData::Embedding(d) => listed(sel, d.revision_id.as_str()),
        RecordData::Promotion(d) => listed(sel, d.candidate_id.as_str()),
        RecordData::Link(d) => listed(sel, d.from_id.as_str()) && listed(sel, d.to_id.as_str()),
        _ => false,
    }
}

/// The project is stored as a project.
pub open spec fn project_found(rs: Seq<StoredRecord>, project: Seq<char>) -> bool {
    graph::first_with_id(rs, project) matches Some(x) && x.kind_of() == RecordKind::Project
}

/// Adding a stored id every closed superset of the seeds holds keeps the
/// selection below every such superset.
pub open spec fn below_closed(rs: Seq<StoredRecord>, project: Seq<char>, sel: Set<Seq<char>>) -> bool {
    forall|s: Set<Seq<char>>| #[trigger] closed_under(rs, s) && seeds(rs, project).subset_of(s) ==> sel.subset_of(s)
}

/// The records of a project plus everything they point at, or what hangs off
/// them: the ids of the project's reference closure. A missing project is
/// not found.
pub fn project_closure(ctx: &Context, project: &str) -> (r: Result<Vec<String>, ApiError>)
    ensures
        r is Ok <==> project_found(ctx.records@, project@),
        r matches Err(e) ==> e.code == "not_found",
        r matches Ok(sel) ==> views(sel@).no_duplicates() && is_closure(ctx.records@, project@, views(sel@).to_set())
            && forall|a: int| 0 <= a < sel@.len() ==> stored_id(ctx.records@, #[trigger] views(sel@)[a]),
{
    let rs = &ctx.records;
    match graph::find_record(rs, project) {
        Some(x) => {
            if x.kind() != RecordKind::Project {
                let mut m = text::owned("project ");
                text::push_str(&mut m, project);
                text::push_str(&mut m, " not found");
                return Err(ApiError::not_found(m));
            }
        },
        None => {
            let mut m = text::owned("project ");
            text::push_str(&mut m, project);
            text::push_str(&mut m, " not found");
            return Err(ApiError::not_found(m));
        },
    }
    let ghost seed = seeds(rs@, project@);
    let mut sel: Vec<String> = Vec::new();
    sel.push(text::owned(project));
    proof {
        assert(views(sel@) =~= seq![project@]);
        assert(views(sel@)[0] == project@);
        assert forall|s: Set<Seq<char>>| #[trigger] closed_under(rs@, s) && seed.subset_of(s) implies views(
            sel@,
        ).to_set().subset_of(s) by {
            assert(seed.contains(project@));
        }
    }
    // The project and what it owns.
    let mut j: usize = 0;
    while j < rs.len()
        invariant
            0 <= j <= rs@.len(),
            rs@ == ctx.records@,
                    project_found(rs@, project@),
            seed == seeds(rs@, project@),
            stored_id(rs@, project@),
            views(sel@).no_duplicates(),
            views(sel@).contains(project@),
            forall|a: int| 0 <= a < views(sel@).len() ==> stored_id(rs@, #[trigger] views(sel@)[a]),
            forall|k: int| 0 <= k < j && owns_spec(#[trigger] rs@[k], project@) ==> views(sel@).contains(rs@[k].id@),
            views(sel@).to_set().subset_of(seed),
            below_closed(rs@, project@, views(sel@).to_set()),
        decreases rs@.len() - j,
    {
        if owns(&rs[j], project) && !listed(&sel, rs[j].id.as_str()) {
            let ghost before = views(sel@);
            sel.push(rs[j].id.clone());
            proof {
                let id = rs@[j as int].id@;
                assert(views(sel@) == before.push(id));
                assert(stored_id(rs@, id)) by {
                    lemma_first_with_id_of(rs@, j as int);
                }
                assert(seed.contains(id));
                assert forall|a: int, b: int| 0 <= a < b < views(sel@).len() implies views(sel@)[a] != views(sel@)[b] by {
                    if b == before.len() {
                        assert(views(sel@)[a] == before[a]);
                    } else {
                        assert(views(sel@)[a] == before[a] && views(sel@)[b] == before[b]);
                    }
                }
                assert forall|x: Seq<char>| views(sel@).to_set().contains(x) implies seed.contains(x) by {
                    let a = choose|a: int| 0 <= a < views(sel@).len() && views(sel@)[a] == x;
                    if a < before.len() {
                        assert(before[a] == x);
                        assert(before.to_set().contains(x));
                    }
                }
                assert(views(sel@).contains(project@)) by {
                    let a = choose|a: int| 0 <= a < before.len() && before[a] == project@;
                    assert(views(sel@)[a] == project@);
                }
                assert forall|k: int| 0 <= k < j + 1 && owns_spec(#[trigger] rs@[k], project@) implies views(sel@).contains(rs@[k].id@) by {
                    if k < j {
                        let a = choose|a: int| 0 <= a < before.len() && before[a] == rs@[k].id@;
                        assert(views(sel@)[a] == rs@[k].id@);
                    } else {
                        assert(views(sel@)[before.len() as int] == id);
                    }
                }
                assert forall|s: Set<Seq<char>>| #[trigger] closed_under(rs@, s) && seed.subset_of(s) implies views(
                    sel@,
                ).to_set().subset_of(s) by {
                    assert(before.to_set().subset_of(s));
                    assert forall|x: Seq<char>| views(sel@).to_set().contains(x) implies s.contains(x) by {
                        let a = choose|a: int| 0 <= a < views(sel@).len() && views(sel@)[a] == x;
                        if a < before.len() {
                            assert(before[a] == x);
                            assert(before.to_set().contains(x));
                        }
                    }
                }
            }
        } else {
            proof {
                if owns_spec(rs@[j as int], project@) {
                    assert(views(sel@).contains(rs@[j as int].id@));
                }
            }
        }
        j += 1;
    }
    proof {
        assert forall|x: Seq<char>| seed.contains(x) implies views(sel@).to_set().contains(x) by {
            if x != project@ {
                let k = choose|k: int| 0 <= k < rs@.len() && rs@[k].id@ == x && #[trigger] owns_spec(rs@[k], project@);
                assert(views(sel@).contains(rs@[k].id@));
            }
        }
        lemma_selection_size(rs@, views(sel@));
    }
    // Grow until nothing more is pulled in.
    loop
        invariant
            rs@ == ctx.records@,
                    project_found(rs@, project@),
            seed == seeds(rs@, project@),
            views(sel@).no_duplicates(),
            forall|a: int| 0 <= a < views(sel@).len() ==> stored_id(rs@, #[trigger] views(sel@)[a]),
            seed.subset_of(views(sel@).to_set()),
            below_closed(rs@, project@, views(sel@).to_set()),
            sel@.len() <= rs@.len(),
        decreases rs@.len() - sel@.len(),
    {
        let start = sel.len();
        let ghost start_sel = views(sel@);
        let mut added = false;
        // Forward references of every selected record.
        let mut i: usize = 0;
        while i < sel.len()
            invariant
                0 <= i <= sel@.len(),
                rs@ == ctx.records@,
                    project_found(rs@, project@),
                seed == seeds(rs@, project@),
                views(sel@).no_duplicates(),
                forall|a: int| 0 <= a < views(sel@).len() ==> stored_id(rs@, #[trigger] views(sel@)[a]),
                seed.subset_of(views(sel@).to_set()),
                below_closed(rs@, project@, views(sel@).to_set()),
                start_sel.len() == start,
                start_sel.to_set().subset_of(views(sel@).to_set()),
                added <==> sel@.len() > start,
                !added ==> views(sel@) == start_sel,
                sel@.len() >= start,
                sel@.len() <= rs@.len(),
                forall|a: int, k: int| 0 <= a < i ==> #[trigger] ref_kept(rs@, views(sel@).to_set(), views(sel@)[a], k),
            decreases rs@.len() - sel@.len(), sel@.len() - i,
        {
            proof {
                lemma_selection_size(rs@, views(sel@));
            }
            let rec = match graph::find_record(rs, sel[i].as_str()) {
                Some(r) => r,
                None => {
                    proof {
                        assert(stored_id(rs@, views(sel@)[i as int]));
                    }
                    i += 1;
                    continue;
                },
            };
            let refs = rec.refs();
            let ghost own = views(sel@)[i as int];
            let ghost it_len = sel@.len();
            let mut k: usize = 0;
            while k < refs.len()
                invariant
                    0 <= k <= refs@.len(),
                    sel@.len() >= it_len,
                    i < sel@.len(),
                    views(sel@)[i as int] == own,
                    graph::first_with_id(rs@, own) == Some(*rec),
                    views(refs@) == data_refs(rec.data),
                    rs@ == ctx.records@,
                    project_found(rs@, project@),
                    seed == seeds(rs@, project@),
                    views(sel@).no_duplicates(),
                    forall|a: int| 0 <= a < views(sel@).len() ==> stored_id(rs@, #[trigger] views(sel@)[a]),
                    seed.subset_of(views(sel@).to_set()),
                    below_closed(rs@, project@, views(sel@).to_set()),
                    start_sel.len() == start,
                    start_sel.to_set().subset_of(views(sel@).to_set()),
                    added <==> sel@.len() > start,
                    !added ==> views(sel@) == start_sel,
                    sel@.len() >= start,
                    sel@.len() <= rs@.len(),
                    forall|a: int, q: int| 0 <= a < i ==> #[trigger] ref_kept(rs@, views(sel@).to_set(), views(sel@)[a], q),
                    forall|q: int| 0 <= q < k && stored_id(rs@, data_refs(rec.data)[q]) ==> views(sel@).to_set().contains(
                        #[trigger] data_refs(rec.data)[q],
                    ),
                decreases refs@.len() - k,
            {
                let target = &refs[k];
                assert(views(refs@)[k as int] == target@);
                if graph::find_record(rs, target.as_str()).is_some() && !listed(&sel, target.as_str()) {
                    let ghost before = views(sel@);
                    sel.push(target.clone());
                    added = true;
                    proof {
                        assert(views(sel@) == before.push(target@));
                        assert forall|a: int, b: int| 0 <= a < b < views(sel@).len() implies views(sel@)[a] != views(sel@)[b] by {
                            if b == before.len() {
                                assert(views(sel@)[a] == before[a]);
                            } else {
                                assert(views(sel@)[a] == before[a] && views(sel@)[b] == before[b]);
                            }
                        }
                        assert forall|x: Seq<char>| before.to_set().contains(x) implies views(sel@).to_set().contains(x) by {
                            let a = choose|a: int| 0 <= a < before.len() && before[a] == x;
                            assert(views(sel@)[a] == x);
                        }
                        assert(views(sel@).to_set().contains(target@)) by {
                            assert(views(sel@)[before.len() as int] == target@);
                        }
                        assert forall|s: Set<Seq<char>>| #[trigger] closed_under(rs@, s) && seed.subset_of(s) implies views(
                            sel@,
                        ).to_set().subset_of(s) by {
                            assert(before.to_set().subset_of(s));
                            assert(s.contains(own)) by {
                                assert(before[i as int] == own);
                                assert(before.to_set().contains(own));
                            }
                            assert(ref_kept(rs@, s, own, k as int));
                            assert forall|x: Seq<char>| views(sel@).to_set().contains(x) implies s.contains(x) by {
                                let a = choose|a: int| 0 <= a < views(sel@).len() && views(sel@)[a] == x;
                                if a < before.len() {
                                    assert(before[a] == x);
                                    assert(before.to_set().contains(x));
                                }
                            }
                        }
                        assert forall|a: int, q: int| 0 <= a < i implies #[trigger] ref_kept(rs@, views(sel@).to_set(), views(sel@)[a], q) by {
                            assert(views(sel@)[a] == before[a]);
                            assert(ref_kept(rs@, before.to_set(), before[a], q));
                        }
                        lemma_selection_size(rs@, views(sel@));
                    }
                } else {
                    proof {
                        if stored_id(rs@, target@) {
                            assert(views(sel@).contains(target@));
                        }
                    }
                }
                k += 1;
            }
            proof {
                assert forall|q: int| #![trigger ref_kept(rs@, views(sel@).to_set(), views(sel@)[i as int], q)]
                    ref_kept(rs@, views(sel@).to_set(), views(sel@)[i as int], q) by {
                    assert(views(refs@).len() == data_refs(rec.data).len());
                }
            }
            i += 1;
        }
        // Records that hang off the selection.
        let mut j: usize = 0;
        while j < rs.len()
            invariant
                0 <= j <= rs@.len(),
                rs@ == ctx.records@,
                    project_found(rs@, project@),
                seed == seeds(rs@, project@),
                views(sel@).no_duplicates(),
                forall|a: int| 0 <= a < views(sel@).len() ==> stored_id(rs@, #[trigger] views(sel@)[a]),
                seed.subset_of(views(sel@).to_set()),
                below_closed(rs@, project@, views(sel@).to_set()),
                start_sel.len() == start,
                added <==> sel@.len() > start,
                !added ==> views(sel@) == start_sel,
                sel@.len() >= start,
                sel@.len() <= rs@.len(),
                !added ==> forall|a: int, q: int| 0 <= a < views(sel@).len() ==> #[trigger] ref_kept(rs@, views(sel@).to_set(), views(sel@)[a], q),
                !added ==> forall|k: int| 0 <= k < j && #[trigger] attaches(rs@[k], views(sel@).to_set()) ==> views(sel@).to_set().contains(rs@[k].id@),
            decreases rs@.len() - j,
        {
            if !listed(&sel, rs[j].id.as_str()) && attaches_to(&rs[j], &sel) {
                let ghost before = views(sel@);
                sel.push(rs[j].id.clone());
                added = true;
                proof {
                    let id = rs@[j as int].id@;
                    assert(views(sel@) == before.push(id));
                    assert(stored_id(rs@, id)) by {
                        lemma_first_with_id_of(rs@, j as int);
                    }
                    assert forall|a: int, b: int| 0 <= a < b < views(sel@).len() implies views(sel@)[a] != views(sel@)[b] by {
                        if b == before.len() {
                            assert(views(sel@)[a] == before[a]);
                        } else {
                            assert(views(sel@)[a] == before[a] && views(sel@)[b] == before[b]);
                        }
                    }
                    assert forall|x: Seq<char>| before.to_set().contains(x) implies views(sel@).to_set().contains(x) by {
                        let a = choose|a: int| 0 <= a < before.len() && before[a] == x;
                        assert(views(sel@)[a] == x);
                    }
                    assert forall|s: Set<Seq<char>>| #[trigger] closed_under(rs@, s) && seed.subset_of(s) implies views(
                        sel@,
                    ).to_set().subset_of(s) by {
                        assert(before.to_set().subset_of(s));
                        lemma_attaches_monotone(rs@[j as int], before.to_set(), s);
                        assert(s.contains(id));
                        assert forall|x: Seq<char>| views(sel@).to_set().contains(x) implies s.contains(x) by {
                            let a = choose|a: int| 0 <= a < views(sel@).len() && views(sel@)[a] == x;
                            if a < before.len() {
                                assert(before[a] == x);
                                assert(before.to_set().contains(x));
                            }
                        }
                    }
                    lemma_selection_size(rs@, views(sel@));
                }
            } else {
                proof {
                    if attaches(rs@[j as int], views(sel@).to_set()) {
                        let id = rs@[j as int].id@;
                        assert(views(sel@).contains(id));
                        let a = choose|a: int| 0 <= a < views(sel@).len() && views(sel@)[a] == id;
                        assert(views(sel@).to_set().contains(id));
                    }
                }
            }
            j += 1;
        }
        if !added {
            proof {
                assert(closed_under(rs@, views(sel@).to_set())) by {
                    assert forall|id: Seq<char>, q: int| views(sel@).to_set().contains(id) implies #[trigger] ref_kept(
                        rs@,
                        views(sel@).to_set(),
                        id,
                        q,
                    ) by {
                        let a = choose|a: int| 0 <= a < views(sel@).len() && views(sel@)[a] == id;
                        assert(ref_kept(rs@, views(sel@).to_set(), views(sel@)[a], q));
                    }
                }
            }
            return Ok(sel);
        }
    }
}

// ---------------------------------------------------------------- plan

/// What an export document holds, before it is written.
#[derive(Debug)]
pub struct ExportPlan {
    pub seq: i64,
    /// The ids in scope.
    pub selected: Vec<String>,
    /// The records in scope, in commit order: by `seq`, then id.
    pub records: Vec<StoredRecord>,
    /// The heads in scope.
    pub heads: Vec<(String, HeadState)>,
    /// Positions of the receipts the export carries.
    pub receipts: Vec<usize>,
    pub receipts_omitted: usize,
    /// Artifacts whose bytes the document cannot carry: id, uri, digest.
    pub external: Vec<(String, String, String)>,
    pub complete_backup: bool,
}

/// Where `id` first stands in `written` (its length when it is absent).
pub open spec fn place_of(written: Seq<String>, id: Seq<char>) -> int
    decreases written.len(),
{
    if written.len() == 0 {
        0
    } else if written[0]@ == id {
        0
    } else {
        1 + place_of(written.drop_first(), id)
    }
}

/// `a` may come before `b` in an export: an earlier commit, or the same
/// commit and no later in `written`, the order the records were written in
/// (a commit's records in its package's array order).
pub open spec fn commit_le(written: Seq<String>, a: StoredRecord, b: StoredRecord) -> bool {
    a.seq < b.seq || (a.seq == b.seq && place_of(written, a.id@) <= place_of(written, b.id@))
}

/// The stored record of a selected id.
pub open spec fn record_of(rs: Seq<StoredRecord>, id: Seq<char>) -> StoredRecord {
    graph::first_with_id(rs, id).unwrap()
}

/// The export's records are exactly the selected ids' records, each once,
/// by commit and, inside one commit, in the order they were written.
pub open spec fn records_right(rs: Seq<StoredRecord>, written: Seq<String>, sel: Seq<Seq<char>>, out: Seq<StoredRecord>) -> bool {
    &&& out.len() == sel.len()
    &&& forall|k: int| 0 <= k < out.len() ==> #[trigger] from_selection(rs, sel, out[k])
    &&& forall|a: int| 0 <= a < sel.len() ==> #[trigger] exported(rs, out, sel[a])
    &&& forall|k: int, l: int| 0 <= k < l < out.len() ==> commit_le(written, #[trigger] out[k], #[trigger] out[l])
}

pub open spec fn from_selection(rs: Seq<StoredRecord>, sel: Seq<Seq<char>>, r: StoredRecord) -> bool {
    exists|a: int| 0 <= a < sel.len() && r.same_as(&#[trigger] record_of(rs, sel[a]))
}

pub open spec fn exported(rs: Seq<StoredRecord>, out: Seq<StoredRecord>, id: Seq<char>) -> bool {
    exists|k: int| 0 <= k < out.len() && (#[trigger] out[k]).same_as(&record_of(rs, id))
}

/// A head in scope: its project is selected, and it is the exported project
/// when one is named.
pub open spec fn head_in_scope(sel: Seq<Seq<char>>, project: Option<Seq<char>>, h: (String, HeadState)) -> bool {
    sel.contains(h.0@) && match project {
        Some(p) => h.0@ == p,
        None => true,
    }
}

pub open spec fn heads_in(sel: Seq<Seq<char>>, project: Option<Seq<char>>, hs: Seq<(String, HeadState)>) -> Seq<(String, HeadState)> {
    hs.filter(|h: (String, HeadState)| head_in_scope(sel, project, h))
}

/// The receipts that fit the scope, by position.
pub open spec fn receipts_in(rows: Seq<ReceiptRow>, selected: Seq<String>, n: int) -> Seq<usize>
    decreases n,
{
    if n <= 0 {
        Seq::empty()
    } else {
        receipts_in(rows, selected, n - 1) + if fits_scope(rows[n - 1], selected) {
            seq![(n - 1) as usize]
        } else {
            Seq::empty()
        }
    }
}

/// The artifacts among records, as id, uri and digest.
pub open spec fn artifacts_of(rs: Seq<StoredRecord>) -> Seq<(Seq<char>, Seq<char>, Seq<char>)>
    decreases rs.len(),
{
    if rs.len() == 0 {
        Seq::empty()
    } else {
        artifacts_of(rs.drop_last()) + match rs.last().data {
            RecordData::Artifact(a) => seq![(rs.last().id@, a.uri@, a.digest@)],
            _ => Seq::empty(),
        }
    }
}

pub open spec fn opt_text(o: Option<String>) -> Option<Seq<char>> {
    match o {
        Some(s) => Some(s@),
        None => None,
    }
}

/// What an export holds, for the whole namespace or one project.
pub open spec fn plan_right(
    ctx: &Context,
    written: Seq<String>,
    project: Option<String>,
    rows: Seq<ReceiptRow>,
    with_receipts: bool,
    p: ExportPlan,
) -> bool {
    let rs = ctx.records@;
    let sel = views(p.selected@);
    &&& p.seq == ctx.seq
    &&& match project {
        None => sel == ids_of(rs),
        Some(x) => is_closure(rs, x@, sel.to_set()) && sel.no_duplicates(),
    }
    &&& sel.len() <= limits::MAX_EXPORT_RECORDS
    &&& records_right(rs, written, sel, p.records@)
    &&& p.heads@ == heads_in(sel, opt_text(project), ctx.heads@)
    &&& p.receipts@ == if with_receipts { receipts_in(rows, p.selected@, rows.len() as int) } else { Seq::empty() }
    &&& p.receipts_omitted == rows.len() - p.receipts@.len()
    &&& p.external@.map_values(|e: (String, String, String)| (e.0@, e.1@, e.2@)) == artifacts_of(p.records@)
    &&& p.complete_backup == (p.external@.len() == 0 && p.receipts_omitted == 0)
}

proof fn lemma_place(written: Seq<String>, id: Seq<char>, i: int)
    requires
        0 <= i <= written.len(),
        i < written.len() ==> written[i]@ == id,
        forall|j: int| 0 <= j < i ==> (#[trigger] written[j])@ != id,
    ensures
        place_of(written, id) == i,
    decreases i,
{
    if i > 0 {
        assert(written[0]@ != id);
        assert forall|j: int| 0 <= j < i - 1 implies (#[trigger] written.drop_first()[j])@ != id by {
            assert(written.drop_first()[j] == written[j + 1]);
        }
        if i < written.len() {
            assert(written.drop_first()[i - 1] == written[i]);
        }
        lemma_place(written.drop_first(), id, i - 1);
    }
}

/// Where `id` first stands in `written`.
fn find_place(written: &Vec<String>, id: &str) -> (r: usize)
    ensures
        r == place_of(written@, id@),
        r <= written@.len(),
{
    let mut i: usize = 0;
    while i < written.len()
        invariant
            0 <= i <= written@.len(),
            forall|j: int| 0 <= j < i ==> (#[trigger] written@[j])@ != id@,
        decreases written@.len() - i,
    {
        if text::str_eq(written[i].as_str(), id) {
            proof {
                lemma_place(written@, id@, i as int);
            }
            return i;
        }
        i += 1;
    }
    proof {
        lemma_place(written@, id@, i as int);
    }
    i
}

/// The selected records, ordered by commit and, inside one commit, by their
/// place in `written`: first by place, then stably by commit.
fn records_in_order(rs: &Vec<StoredRecord>, written: &Vec<String>, sel: &Vec<String>) -> (out: Vec<StoredRecord>)
    requires
        forall|a: int| 0 <= a < sel@.len() ==> stored_id(rs@, #[trigger] views(sel@)[a]),
    ensures
        records_right(rs@, written@, views(sel@), out@),
{
    let ghost sv = views(sel@);
    let mut picked: Vec<StoredRecord> = Vec::new();
    let mut places: Vec<Key> = Vec::new();
    let mut a: usize = 0;
    while a < sel.len()
        invariant
            0 <= a <= sel@.len(),
            sv == views(sel@),
            forall|x: int| 0 <= x < sel@.len() ==> stored_id(rs@, #[trigger] sv[x]),
            picked@.len() == a,
            places@.len() == a,
            forall|x: int|
                0 <= x < a ==> (#[trigger] picked@[x]).same_as(&record_of(rs@, sv[x])) && places@[x].den == 1
                    && places@[x].id@ == Seq::<char>::empty() && places@[x].num == u64::MAX - place_of(
                    written@,
                    picked@[x].id@,
                ) && 0 <= place_of(written@, picked@[x].id@) <= written@.len(),
        decreases sel@.len() - a,
    {
        let r = match graph::find_record(rs, sel[a].as_str()) {
            Some(r) => r,
            None => {
                proof {
                    assert(stored_id(rs@, sv[a as int]));
                }
                return Vec::new();
            },
        };
        let c = r.clone();
        let ix = find_place(written, r.id.as_str());
        places.push(Key { num: u64::MAX - ix as u64, den: 1, id: String::new() });
        picked.push(c);
        a += 1;
    }
    assert forall|i: int| 0 <= i < places@.len() implies (#[trigger] places@[i]).den > 0 by {
        assert(picked@[i].same_as(&record_of(rs@, sv[i])));
    }
    let by_place = order_keys(&places);
    let mut commits: Vec<Key> = Vec::new();
    let mut k: usize = 0;
    while k < by_place.len()
        invariant
            0 <= k <= by_place@.len(),
            by_place@.len() == places@.len(),
            places@.len() == picked@.len(),
            forall|x: int| 0 <= x < by_place@.len() ==> (#[trigger] by_place@[x]) < places@.len(),
            commits@.len() == k,
            forall|x: int|
                0 <= x < k ==> (#[trigger] commits@[x]).den == 1 && commits@[x].id@ == Seq::<char>::empty()
                    && commits@[x].num == (i64::MAX - picked@[by_place@[x] as int].seq) as u64,
        decreases by_place@.len() - k,
    {
        let r = &picked[by_place[k]];
        let num = (i64::MAX as i128 - r.seq as i128) as u64;
        commits.push(Key { num, den: 1, id: String::new() });
        k += 1;
    }
    let by_commit = order_keys(&commits);
    let mut out: Vec<StoredRecord> = Vec::new();
    let mut m: usize = 0;
    while m < by_commit.len()
        invariant
            0 <= m <= by_commit@.len(),
            by_commit@.len() == commits@.len(),
            commits@.len() == by_place@.len(),
            by_place@.len() == picked@.len(),
            forall|x: int| 0 <= x < by_commit@.len() ==> (#[trigger] by_commit@[x]) < commits@.len(),
            forall|x: int| 0 <= x < by_place@.len() ==> (#[trigger] by_place@[x]) < picked@.len(),
            out@.len() == m,
            forall|x: int|
                0 <= x < m ==> (#[trigger] out@[x]).same_as(&picked@[by_place@[by_commit@[x] as int] as int]),
        decreases by_commit@.len() - m,
    {
        out.push(picked[by_place[by_commit[m]]].clone());
        m += 1;
    }
    proof {
        let src = |x: int| by_place@[by_commit@[x] as int] as int;
        assert forall|x: int| 0 <= x < out@.len() implies #[trigger] from_selection(rs@, sv, out@[x]) by {
            let i = src(x);
            assert(picked@[i].same_as(&record_of(rs@, sv[i])));
        }
        assert forall|i: int| 0 <= i < sv.len() implies #[trigger] exported(rs@, out@, sv[i]) by {
            assert(crate::search::holds_index(by_place@, i));
            let p = choose|p: int| 0 <= p < by_place@.len() && by_place@[p] == i;
            assert(crate::search::holds_index(by_commit@, p));
            let x = choose|x: int| 0 <= x < by_commit@.len() && by_commit@[x] == p;
            assert(out@[x].same_as(&picked@[i]));
        }
        assert forall|x: int, y: int| 0 <= x < y < out@.len() implies commit_le(
            written@,
            #[trigger] out@[x],
            #[trigger] out@[y],
        ) by {
            let (p, q) = (by_commit@[x] as int, by_commit@[y] as int);
            let (i, j) = (by_place@[p] as int, by_place@[q] as int);
            assert(key_before(commits@, p, q));
            assert(out@[x].same_as(&picked@[i]) && out@[y].same_as(&picked@[j]));
            assert(picked@[i].same_as(&record_of(rs@, sv[i])));
            assert(picked@[j].same_as(&record_of(rs@, sv[j])));
            let (np, nq) = (commits@[p].num as int, commits@[q].num as int);
            assert(np * 1 == np && nq * 1 == nq);
            json::lemma_seq_lt_irreflexive(Seq::<char>::empty());
            if picked@[i].seq == picked@[j].seq {
                assert(p < q);
                assert(key_before(places@, i, j));
                let (ni, nj) = (places@[i].num as int, places@[j].num as int);
                assert(ni * 1 == ni && nj * 1 == nj);
            }
        }
    }
    out
}

fn all_ids(rs: &Vec<StoredRecord>) -> (r: Vec<String>)
    ensures
        views(r@) == ids_of(rs@),
        forall|a: int| 0 <= a < r@.len() ==> stored_id(rs@, #[trigger] views(r@)[a]),
{
    let mut out: Vec<String> = Vec::new();
    let mut i: usize = 0;
    while i < rs.len()
        invariant
            0 <= i <= rs@.len(),
            views(out@) == ids_of(rs@).take(i as int),
            forall|a: int| 0 <= a < out@.len() ==> stored_id(rs@, #[trigger] views(out@)[a]),
        decreases rs@.len() - i,
    {
        let ghost before = views(out@);
        out.push(rs[i].id.clone());
        proof {
            assert(views(out@) == before.push(rs@[i as int].id@));
            assert(ids_of(rs@)[i as int] == rs@[i as int].id@);
            assert(views(out@) =~= ids_of(rs@).take(i + 1));
            lemma_first_with_id_of(rs@, i as int);
            assert forall|a: int| 0 <= a < out@.len() implies stored_id(rs@, #[trigger] views(out@)[a]) by {
                if a < before.len() {
                    assert(views(out@)[a] == before[a]);
                }
            }
        }
        i += 1;
    }
    assert(ids_of(rs@).take(rs@.len() as int) =~= ids_of(rs@));
    out
}

fn heads_of(hs: &Vec<(String, HeadState)>, sel: &Vec<String>, project: &Option<String>) -> (r: Vec<(String, HeadState)>)
    ensures
        r@ == heads_in(views(sel@), opt_text(*project), hs@),
{
    let mut out: Vec<(String, HeadState)> = Vec::new();
    let mut i: usize = 0;
    while i < hs.len()
        invariant
            0 <= i <= hs@.len(),
            out@ == heads_in(views(sel@), opt_text(*project), hs@.take(i as int)),
        decreases hs@.len() - i,
    {
        proof {
            reveal(Seq::filter);
            assert(hs@.take(i + 1).drop_last() =~= hs@.take(i as int));
            assert(hs@.take(i + 1).last() == hs@[i as int]);
        }
        let inside = listed(sel, hs[i].0.as_str()) && match project {
            Some(p) => text::str_eq(hs[i].0.as_str(), p.as_str()),
            None => true,
        };
        if inside {
            out.push((hs[i].0.clone(), hs[i].1.clone()));
            proof {
                assert(out@.last().0@ == hs@[i as int].0@);
                assert(out@.last() == hs@[i as int]);
            }
        }
        i += 1;
    }
    assert(hs@.take(hs@.len() as int) =~= hs@);
    out
}

fn receipts_kept(rows: &Vec<ReceiptRow>, sel: &Vec<String>) -> (r: Vec<usize>)
    ensures
        r@ == receipts_in(rows@, sel@, rows@.len() as int),
{
    let mut out: Vec<usize> = Vec::new();
    let mut i: usize = 0;
    while i < rows.len()
        invariant
            0 <= i <= rows@.len(),
            out@ == receipts_in(rows@, sel@, i as int),
            out@.len() <= i,
        decreases rows@.len() - i,
    {
        if receipt_fits_scope(&rows[i], sel) {
            out.push(i);
        }
        i += 1;
    }
    out
}

fn artifacts_in(rs: &Vec<StoredRecord>) -> (r: Vec<(String, String, String)>)
    ensures
        r@.map_values(|e: (String, String, String)| (e.0@, e.1@, e.2@)) == artifacts_of(rs@),
{
    let mut out: Vec<(String, String, String)> = Vec::new();
    let mut i: usize = 0;
    while i < rs.len()
        invariant
            0 <= i <= rs@.len(),
            out@.map_values(|e: (String, String, String)| (e.0@, e.1@, e.2@)) == artifacts_of(rs@.take(i as int)),
        decreases rs@.len() - i,
    {
        assert(rs@.take(i + 1).drop_last() =~= rs@.take(i as int));
        assert(rs@.take(i + 1).last() == rs@[i as int]);
        let ghost before = out@;
        match &rs[i].data {
            RecordData::Artifact(a) => {
                out.push((rs[i].id.clone(), a.uri.clone(), a.digest.clone()));
                assert(out@.map_values(|e: (String, String, String)| (e.0@, e.1@, e.2@)) =~= before.map_values(
                    |e: (String, String, String)| (e.0@, e.1@, e.2@),
                ).push((rs@[i as int].id@, a.uri@, a.digest@)));
            },
            _ => {},
        }
        i += 1;
    }
    assert(rs@.take(rs@.len() as int) =~= rs@);
    out
}

/// What to export: every record, or one project's reference closure, within
/// the export bound, ordered by commit and, inside a commit, by `written` (the
/// ids in the order the store wrote them, a package's records in its array
/// order); the heads and receipts inside that scope; and whether the document
/// is a complete backup (no external artifacts, no receipt left out).
pub fn export_plan(
    ctx: &Context,
    written: &Vec<String>,
    project: &Option<String>,
    rows: &Vec<ReceiptRow>,
    with_receipts: bool,
) -> (r: Result<ExportPlan, ApiError>)
    ensures
        match project {
            Some(p) => !project_found(ctx.records@, p@) ==> (r matches Err(e) && e.code == "not_found"),
            None => true,
        },
        r matches Err(e) ==> e.code == "not_found" || (e.code == "validation_failed" && e.issues@.len() == 1 && e.issues@[0].is(
            "project_id"@,
            "export_scope_unsupported",
        )),
        r matches Ok(p) ==> plan_right(ctx, written@, *project, rows@, with_receipts, p),
{
    let selected = match project {
        None => all_ids(&ctx.records),
        Some(p) => match project_closure(ctx, p.as_str()) {
            Ok(s) => s,
            Err(e) => return Err(e),
        },
    };
    if selected.len() > limits::MAX_EXPORT_RECORDS {
        let mut m = text::owned("the reference closure holds ");
        let n = text::usize_text(selected.len());
        text::push_str(&mut m, n.as_str());
        text::push_str(&mut m, " records, above the 5000 export bound");
        return Err(ApiError::issue(text::owned("project_id"), "export_scope_unsupported", m));
    }
    let records = records_in_order(&ctx.records, written, &selected);
    let heads = heads_of(&ctx.heads, &selected, project);
    let receipts = if with_receipts {
        receipts_kept(rows, &selected)
    } else {
        Vec::new()
    };
    proof {
        if with_receipts {
            lemma_receipts_in_len(rows@, selected@, rows@.len() as int);
        }
    }
    let omitted = rows.len() - receipts.len();
    let external = artifacts_in(&records);
    let complete = external.len() == 0 && omitted == 0;
    Ok(
        ExportPlan {
            seq: ctx.seq,
            selected,
            records,
            heads,
            receipts,
            receipts_omitted: omitted,
            external,
            complete_backup: complete,
        },
    )
}

proof fn lemma_receipts_in_len(rows: Seq<ReceiptRow>, sel: Seq<String>, n: int)
    ensures
        receipts_in(rows, sel, n).len() <= if n < 0 { 0 } else { n },
    decreases n,
{
    if n > 0 {
        lemma_receipts_in_len(rows, sel, n - 1);
    }
}

proof fn lemma_first_with_id_of(rs: Seq<StoredRecord>, j: int)
    requires
        0 <= j < rs.len(),
    ensures
        stored_id(rs, rs[j].id@),
    decreases j,
{
    if j > 0 && rs[0].id@ != rs[j].id@ {
        lemma_first_with_id_of(rs.drop_first(), j - 1);
        assert(rs.drop_first()[j - 1] == rs[j]);
    }
}

proof fn lemma_attaches_monotone(r: StoredRecord, a: Set<Seq<char>>, b: Set<Seq<char>>)
    requires
        a.subset_of(b),
        attaches(r, a),
    ensures
        attaches(r, b),
{
}


// ---------------------------------------------------------------- document

/// A text, or `null` when absent.
pub open spec fn opt_str_jv(o: Option<String>) -> JsonV {
    match o {
        Some(s) => JsonV::Str(s@),
        None => JsonV::Null,
    }
}

/// A head row of the document.
pub open spec fn head_jv(h: (String, HeadState)) -> JsonV {
    JsonV::Object(
        seq![
            ("project_id"@, JsonV::Str(h.0@)),
            ("working_head"@, opt_str_jv(h.1.working_head)),
            ("working_head_seq"@, JsonV::Number(text::spec_int_text(h.1.working_head_seq as int))),
            ("official_head"@, opt_str_jv(h.1.official_head)),
            ("official_publication_id"@, opt_str_jv(h.1.official_publication_id)),
        ],
    )
}

/// An artifact the document cannot carry: id, uri and digest.
pub open spec fn artifact_jv(a: (String, String, String)) -> JsonV {
    JsonV::Object(
        seq![
            ("artifact_id"@, JsonV::Str(a.0@)),
            ("uri"@, JsonV::Str(a.1@)),
            ("digest"@, JsonV::Str(a.2@)),
            ("included_in_export"@, JsonV::Bool(false)),
        ],
    )
}

/// What the document says it leaves out: the artifacts whose bytes it lacks,
/// whether it is a complete backup, and how many receipts it carries and
/// omits.
pub open spec fn manifest_jv(plan: &ExportPlan) -> JsonV {
    JsonV::Object(
        seq![
            ("external_artifacts"@, JsonV::Array(plan.external@.map_values(|a: (String, String, String)| artifact_jv(a)))),
            (
                "unresolved_external_artifacts"@,
                JsonV::Array(plan.external@.map_values(|a: (String, String, String)| JsonV::Str(a.0@))),
            ),
            ("complete_backup"@, JsonV::Bool(plan.complete_backup)),
            ("receipts_included"@, JsonV::Number(text::spec_int_text(plan.receipts@.len() as int))),
            ("receipts_omitted"@, JsonV::Number(text::spec_int_text(plan.receipts_omitted as int))),
        ],
    )
}

/// The content of the document: the plan's sequence number, its records as
/// `records` writes them, its heads, the receipt rows it keeps out of
/// `rows`, and the manifest.
pub open spec fn content_jv(plan: &ExportPlan, records: Seq<JsonV>, rows: Seq<JsonV>) -> JsonV {
    JsonV::Object(
        seq![
            ("seq"@, JsonV::Number(text::spec_int_text(plan.seq as int))),
            ("records"@, JsonV::Array(records)),
            ("heads"@, JsonV::Array(plan.heads@.map_values(|h: (String, HeadState)| head_jv(h)))),
            ("receipts"@, JsonV::Array(plan.receipts@.map_values(|k: usize| rows[k as int]))),
            ("manifest"@, manifest_jv(plan)),
        ],
    )
}

/// The export document: format, versions, time of export, scope, and the
/// content with the sha256 digest of its canonical text.
pub open spec fn document_jv(
    plan: &ExportPlan,
    records: Seq<JsonV>,
    rows: Seq<JsonV>,
    project: Option<String>,
    exported_at: Seq<char>,
) -> JsonV {
    let content = content_jv(plan, records, rows);
    JsonV::Object(
        seq![
            ("format"@, JsonV::Str(crate::backup::FORMAT@)),
            ("format_version"@, JsonV::Number(text::spec_int_text(crate::backup::FORMAT_VERSION as int))),
            ("protocol_version"@, JsonV::Number(text::spec_int_text(crate::model::PROTOCOL_VERSION as int))),
            ("exported_at"@, JsonV::Str(exported_at)),
            (
                "scope"@,
                JsonV::Object(seq![("project_id"@, opt_str_jv(project)), ("closure_included"@, JsonV::Bool(true))]),
            ),
            ("digest_alg"@, JsonV::Str("sha256"@)),
            ("digest"@, JsonV::Str(util::spec_digest_text(json::canon(content)))),
            ("content"@, content),
        ],
    )
}

proof fn lemma_object_deep(fs: Vec<(String, Json)>, want: Seq<(Seq<char>, JsonV)>)
    requires
        fs@.len() == want.len(),
        forall|k: int| 0 <= k < want.len() ==> (#[trigger] fs@[k]).0@ == want[k].0 && fs@[k].1.deep() == want[k].1,
    ensures
        Json::Object(fs).deep() == JsonV::Object(want),
{
    if let JsonV::Object(a) = Json::Object(fs).deep() {
        assert(a =~= want);
    }
}

proof fn lemma_items_deep(items: Vec<Json>, want: Seq<JsonV>)
    requires
        items@.len() == want.len(),
        forall|k: int| 0 <= k < want.len() ==> (#[trigger] items@[k]).deep() == want[k],
    ensures
        Json::Array(items).deep() == JsonV::Array(want),
{
    if let JsonV::Array(a) = Json::Array(items).deep() {
        assert(a =~= want);
    }
}

fn opt_str_json(o: &Option<String>) -> (r: Json)
    ensures
        r.deep() == opt_str_jv(*o),
{
    match o {
        Some(s) => Json::Str(s.clone()),
        None => Json::Null,
    }
}

fn head_json(h: &(String, HeadState)) -> (r: Json)
    ensures
        r.deep() == head_jv(*h),
{
    let mut fs: Vec<(String, Json)> = Vec::new();
    fs.push((text::owned("project_id"), Json::Str(h.0.clone())));
    fs.push((text::owned("working_head"), opt_str_json(&h.1.working_head)));
    fs.push((text::owned("working_head_seq"), Json::Number(text::int_text(h.1.working_head_seq))));
    fs.push((text::owned("official_head"), opt_str_json(&h.1.official_head)));
    fs.push((text::owned("official_publication_id"), opt_str_json(&h.1.official_publication_id)));
    let ghost want = head_jv(*h)->Object_0;
    proof {
        assert forall|k: int| 0 <= k < want.len() implies (#[trigger] fs@[k]).0@ == want[k].0 && fs@[k].1.deep()
            == want[k].1 by {}
        lemma_object_deep(fs, want);
    }
    Json::Object(fs)
}

fn artifact_json(a: &(String, String, String)) -> (r: Json)
    ensures
        r.deep() == artifact_jv(*a),
{
    let mut fs: Vec<(String, Json)> = Vec::new();
    fs.push((text::owned("artifact_id"), Json::Str(a.0.clone())));
    fs.push((text::owned("uri"), Json::Str(a.1.clone())));
    fs.push((text::owned("digest"), Json::Str(a.2.clone())));
    fs.push((text::owned("included_in_export"), Json::Bool(false)));
    let ghost want = artifact_jv(*a)->Object_0;
    proof {
        assert forall|k: int| 0 <= k < want.len() implies (#[trigger] fs@[k]).0@ == want[k].0 && fs@[k].1.deep()
            == want[k].1 by {}
        lemma_object_deep(fs, want);
    }
    Json::Object(fs)
}

fn manifest_json(plan: &ExportPlan) -> (r: Json)
    ensures
        r.deep() == manifest_jv(plan),
{
    let mut arts: Vec<Json> = Vec::new();
    let mut ids: Vec<Json> = Vec::new();
    let ghost wa = plan.external@.map_values(|a: (String, String, String)| artifact_jv(a));
    let ghost wi = plan.external@.map_values(|a: (String, String, String)| JsonV::Str(a.0@));
    let mut i: usize = 0;
    while i < plan.external.len()
        invariant
            0 <= i <= plan.external@.len(),
            wa == plan.external@.map_values(|a: (String, String, String)| artifact_jv(a)),
            wi == plan.external@.map_values(|a: (String, String, String)| JsonV::Str(a.0@)),
            arts@.len() == i && ids@.len() == i,
            forall|k: int| 0 <= k < i ==> (#[trigger] arts@[k]).deep() == wa[k],
            forall|k: int| 0 <= k < i ==> (#[trigger] ids@[k]).deep() == wi[k],
        decreases plan.external@.len() - i,
    {
        arts.push(artifact_json(&plan.external[i]));
        ids.push(Json::Str(plan.external[i].0.clone()));
        i += 1;
    }
    proof {
        lemma_items_deep(arts, wa);
        lemma_items_deep(ids, wi);
    }
    let mut fs: Vec<(String, Json)> = Vec::new();
    fs.push((text::owned("external_artifacts"), Json::Array(arts)));
    fs.push((text::owned("unresolved_external_artifacts"), Json::Array(ids)));
    fs.push((text::owned("complete_backup"), Json::Bool(plan.complete_backup)));
    fs.push((text::owned("receipts_included"), Json::Number(text::usize_text(plan.receipts.len()))));
    fs.push((text::owned("receipts_omitted"), Json::Number(text::usize_text(plan.receipts_omitted))));
    let ghost want = manifest_jv(plan)->Object_0;
    proof {
        assert forall|k: int| 0 <= k < want.len() implies (#[trigger] fs@[k]).0@ == want[k].0 && fs@[k].1.deep()
            == want[k].1 by {}
        lemma_object_deep(fs, want);
    }
    Json::Object(fs)
}

/// The export document of `plan` (see [`document_jv`]): `records` are the
/// plan's records as JSON, and `rows` the receipt rows the plan's receipt
/// positions index.
pub fn export_document(
    plan: &ExportPlan,
    records: &Vec<Json>,
    rows: &Vec<Json>,
    project: &Option<String>,
    exported_at: &str,
) -> (r: Json)
    requires
        forall|i: int| 0 <= i < plan.receipts@.len() ==> (#[trigger] plan.receipts@[i]) < rows@.len(),
    ensures
        r.deep() == document_jv(plan, deeps(records@), deeps(rows@), *project, exported_at@),
{
    let mut recs: Vec<Json> = Vec::new();
    let mut i: usize = 0;
    while i < records.len()
        invariant
            0 <= i <= records@.len(),
            recs@.len() == i,
            forall|k: int| 0 <= k < i ==> (#[trigger] recs@[k]).deep() == records@[k].deep(),
        decreases records@.len() - i,
    {
        recs.push(json::copy_json(&records[i]));
        i += 1;
    }
    let mut heads: Vec<Json> = Vec::new();
    let ghost wh = plan.heads@.map_values(|h: (String, HeadState)| head_jv(h));
    let mut i: usize = 0;
    while i < plan.heads.len()
        invariant
            0 <= i <= plan.heads@.len(),
            wh == plan.heads@.map_values(|h: (String, HeadState)| head_jv(h)),
            heads@.len() == i,
            forall|k: int| 0 <= k < i ==> (#[trigger] heads@[k]).deep() == wh[k],
        decreases plan.heads@.len() - i,
    {
        heads.push(head_json(&plan.heads[i]));
        i += 1;
    }
    let mut kept: Vec<Json> = Vec::new();
    let ghost wr = plan.receipts@.map_values(|k: usize| deeps(rows@)[k as int]);
    let mut i: usize = 0;
    while i < plan.receipts.len()
        invariant
            0 <= i <= plan.receipts@.len(),
            forall|j: int| 0 <= j < plan.receipts@.len() ==> (#[trigger] plan.receipts@[j]) < rows@.len(),
            wr == plan.receipts@.map_values(|k: usize| deeps(rows@)[k as int]),
            kept@.len() == i,
            forall|k: int| 0 <= k < i ==> (#[trigger] kept@[k]).deep() == wr[k],
        decreases plan.receipts@.len() - i,
    {
        kept.push(json::copy_json(&rows[plan.receipts[i]]));
        i += 1;
    }
    proof {
        lemma_items_deep(recs, deeps(records@));
        lemma_items_deep(heads, wh);
        lemma_items_deep(kept, wr);
    }
    let mut cs: Vec<(String, Json)> = Vec::new();
    cs.push((text::owned("seq"), Json::Number(text::int_text(plan.seq))));
    cs.push((text::owned("records"), Json::Array(recs)));
    cs.push((text::owned("heads"), Json::Array(heads)));
    cs.push((text::owned("receipts"), Json::Array(kept)));
    cs.push((text::owned("manifest"), manifest_json(plan)));
    let ghost wc = content_jv(plan, deeps(records@), deeps(rows@))->Object_0;
    proof {
        assert forall|k: int| 0 <= k < wc.len() implies (#[trigger] cs@[k]).0@ == wc[k].0 && cs@[k].1.deep()
            == wc[k].1 by {}
        lemma_object_deep(cs, wc);
    }
    let content = Json::Object(cs);
    let digest = util::digest_json(&content);
    let mut sc: Vec<(String, Json)> = Vec::new();
    sc.push((text::owned("project_id"), opt_str_json(project)));
    sc.push((text::owned("closure_included"), Json::Bool(true)));
    let ghost ws = seq![("project_id"@, opt_str_jv(*project)), ("closure_included"@, JsonV::Bool(true))];
    proof {
        assert forall|k: int| 0 <= k < ws.len() implies (#[trigger] sc@[k]).0@ == ws[k].0 && sc@[k].1.deep()
            == ws[k].1 by {}
        lemma_object_deep(sc, ws);
    }
    let mut fs: Vec<(String, Json)> = Vec::new();
    fs.push((text::owned("format"), Json::Str(text::owned(crate::backup::FORMAT))));
    fs.push((text::owned("format_version"), Json::Number(text::usize_text(crate::backup::FORMAT_VERSION as usize))));
    fs.push((text::owned("protocol_version"), Json::Number(text::usize_text(crate::model::PROTOCOL_VERSION as usize))));
    fs.push((text::owned("exported_at"), Json::Str(text::owned(exported_at))));
    fs.push((text::owned("scope"), Json::Object(sc)));
    fs.push((text::owned("digest_alg"), Json::Str(text::owned("sha256"))));
    fs.push((text::owned("digest"), Json::Str(digest)));
    fs.push((text::owned("content"), content));
    let ghost want = document_jv(plan, deeps(records@), deeps(rows@), *project, exported_at@)->Object_0;
    proof {
        assert forall|k: int| 0 <= k < want.len() implies (#[trigger] fs@[k]).0@ == want[k].0 && fs@[k].1.deep()
            == want[k].1 by {}
        lemma_object_deep(fs, want);
    }
    Json::Object(fs)
}

} // verus!
