//! Read projections over one consistent set of records: time-travel views,
//! head selection, snapshots, goals and state summaries.

use vstd::prelude::*;

use crate::error::ApiError;
use crate::graph::{self, Limits, Lookup};
use crate::json;
use crate::limits;
use crate::model::{
    copy_strings, views, AssessmentData, ChangeKind, LineageKind, LinkData, LinkType, SourceKind, BaselineData, Criterion, CriterionResult, GoalData, JudgeStatus, NodeKind,
    ProposalOrigin, RecordData, RecordKind, Stage, StoredRecord,
};
use crate::mutation::opt_view;
use crate::store;
use crate::text;
use crate::util;
use crate::validate::Context;

verus! {

// ---------------------------------------------------------------- parameters

/// The value of the first parameter named `key`.
pub open spec fn param_of(p: Seq<(String, String)>, key: Seq<char>) -> Option<String>
    decreases p.len(),
{
    if p.len() == 0 {
        None
    } else if p[0].0@ == key {
        Some(p[0].1)
    } else {
        param_of(p.drop_first(), key)
    }
}

/// A parameter added last is found only where no earlier one has its name.
pub proof fn lemma_param_push(p: Seq<(String, String)>, x: (String, String), key: Seq<char>)
    ensures
        param_of(p.push(x), key) == if param_of(p, key) is Some {
            param_of(p, key)
        } else if x.0@ == key {
            Some(x.1)
        } else {
            None
        },
    decreases p.len(),
{
    if p.len() == 0 {
        assert(p.push(x).drop_first() =~= Seq::<(String, String)>::empty());
        assert(p.push(x)[0] == x);
        assert(param_of(Seq::<(String, String)>::empty(), key) is None);
    } else {
        assert(p.push(x).drop_first() =~= p.drop_first().push(x));
        assert(p.push(x)[0] == p[0]);
        lemma_param_push(p.drop_first(), x, key);
    }
}

/// The value of the parameter named `key`.
pub fn param<'a>(p: &'a Vec<(String, String)>, key: &str) -> (r: Option<&'a String>)
    ensures
        match r {
            Some(v) => param_of(p@, key@) == Some(*v),
            None => param_of(p@, key@) is None,
        },
{
    let mut i: usize = 0;
    assert(p@.skip(0) == p@);
    while i < p.len()
        invariant
            0 <= i <= p@.len(),
            param_of(p@, key@) == param_of(p@.skip(i as int), key@),
        decreases p@.len() - i,
    {
        assert(p@.skip(i as int).drop_first() == p@.skip(i + 1));
        if text::str_eq(p[i].0.as_str(), key) {
            return Some(&p[i].1);
        }
        i += 1;
    }
    None
}

pub open spec fn listed_in(allowed: Seq<&str>, k: Seq<char>) -> bool {
    exists|j: int| 0 <= j < allowed.len() && (#[trigger] allowed[j])@ == k
}

/// Every parameter is one the endpoint knows.
pub fn check_params(p: &Vec<(String, String)>, allowed: &[&str]) -> (r: Result<(), ApiError>)
    ensures
        r is Ok <==> forall|i: int| 0 <= i < p@.len() ==> listed_in(allowed@, (#[trigger] p@[i]).0@),
        r matches Err(e) ==> e.code == "bad_request",
{
    let mut i: usize = 0;
    while i < p.len()
        invariant
            0 <= i <= p@.len(),
            forall|k: int| 0 <= k < i ==> listed_in(allowed@, (#[trigger] p@[k]).0@),
        decreases p@.len() - i,
    {
        let mut j: usize = 0;
        let mut found = false;
        while j < allowed.len()
            invariant
                0 <= i < p@.len(),
                0 <= j <= allowed@.len(),
                found ==> listed_in(allowed@, p@[i as int].0@),
                !found ==> forall|m: int| 0 <= m < j ==> (#[trigger] allowed@[m])@ != p@[i as int].0@,
            decreases allowed@.len() - j,
        {
            if text::str_eq(allowed[j], p[i].0.as_str()) {
                found = true;
            }
            j += 1;
        }
        if !found {
            let mut m = text::owned("unknown query parameter '");
            text::push_str(&mut m, p[i].0.as_str());
            text::push_str(&mut m, "'");
            return Err(ApiError::bad_request(m));
        }
        i += 1;
    }
    Ok(())
}

/// A count parameter: `default` when absent, else a number in `1..=max`.
pub fn count_param(p: &Vec<(String, String)>, key: &str, default: usize, max: usize) -> (r: Result<
    usize,
    ApiError,
>)
    ensures
        match param_of(p@, key@) {
            None => r == Ok::<usize, ApiError>(default),
            Some(v) => match text::unsigned_value(v@) {
                Some(n) => if 1 <= n <= max {
                    r == Ok::<usize, ApiError>(n as usize)
                } else {
                    r matches Err(e) && e.code == "bad_request"
                },
                None => r matches Err(e) && e.code == "bad_request",
            },
        },
{
    match param(p, key) {
        None => Ok(default),
        Some(v) => {
            match text::parse_usize(v.as_str()) {
                Some(n) => if n > 0 && n <= max {
                    return Ok(n);
                },
                None => {},
            }
            let mut m = text::owned(key);
            text::push_str(&mut m, " must be 1..=");
            let t = text::usize_text(max);
            text::push_str(&mut m, t.as_str());
            Err(ApiError::bad_request(m))
        },
    }
}

/// The `stage` parameter, `working` when absent.
pub fn stage_param(p: &Vec<(String, String)>) -> (r: Result<Stage, ApiError>)
    ensures
        match param_of(p@, "stage"@) {
            None => r == Ok::<Stage, ApiError>(Stage::Working),
            Some(v) => if v@ == "working"@ {
                r == Ok::<Stage, ApiError>(Stage::Working)
            } else if v@ == "official"@ {
                r == Ok::<Stage, ApiError>(Stage::Official)
            } else {
                r matches Err(e) && e.code == "bad_request"
            },
        },
{
    proof {
        reveal_strlit("stage");
    }
    match param(p, "stage") {
        None => Ok(Stage::Working),
        Some(v) => if text::str_eq(v.as_str(), "working") {
            Ok(Stage::Working)
        } else if text::str_eq(v.as_str(), "official") {
            Ok(Stage::Official)
        } else {
            Err(ApiError::bad_request(text::owned("stage must be working or official")))
        },
    }
}

/// A timestamp parameter as its UTC key.
pub fn time_param(v: &str, name: &str) -> (r: Result<String, ApiError>)
    ensures
        match util::spec_utc_key(v@) {
            Some(k) => r matches Ok(x) && x@ == k,
            None => r matches Err(e) && e.code == "bad_request",
        },
{
    match util::utc_key(v) {
        Some(k) => Ok(k),
        None => {
            let mut m = text::owned(name);
            text::push_str(&mut m, " must be RFC 3339 with offset");
            Err(ApiError::bad_request(m))
        },
    }
}

// ---------------------------------------------------------------- time travel

/// The records known at a point of the history, and the effective-time cut
/// that projections apply on top.
#[derive(Debug)]
pub struct KnownView {
    pub records: Vec<StoredRecord>,
    pub known: i64,
    pub known_at: Option<String>,
    pub effective: Option<String>,
}

/// `a <= b` on UTC keys.
pub open spec fn key_le(a: Seq<char>, b: Seq<char>) -> bool {
    !json::seq_lt(b, a)
}

/// A record recorded no later than the cut.
pub open spec fn recorded_by(r: StoredRecord, cut: Seq<char>) -> bool {
    match util::spec_utc_key(r.recorded_at@) {
        Some(k) => key_le(k, cut),
        None => false,
    }
}

/// The last sequence number recorded by `cut`, 0 when there is none.
pub open spec fn last_seq_by(rs: Seq<StoredRecord>, cut: Seq<char>) -> int
    decreases rs.len(),
{
    if rs.len() == 0 {
        0
    } else {
        let rest = last_seq_by(rs.drop_last(), cut);
        if recorded_by(rs.last(), cut) && (!exists_recorded_by(rs.drop_last(), cut) || rest
            < rs.last().seq) {
            rs.last().seq as int
        } else {
            rest
        }
    }
}

pub open spec fn exists_recorded_by(rs: Seq<StoredRecord>, cut: Seq<char>) -> bool {
    exists|i: int| 0 <= i < rs.len() && recorded_by(#[trigger] rs[i], cut)
}

/// The records with a sequence number of at most `known`, in order.
pub open spec fn known_records(rs: Seq<StoredRecord>, known: int) -> Seq<StoredRecord> {
    rs.filter(|r: StoredRecord| r.seq <= known)
}

/// How the parameters select the known sequence number, or `None` when they
/// are refused.
pub open spec fn selected_known(ctx: &Context, p: Seq<(String, String)>) -> Option<int> {
    let ks = param_of(p, "known_seq"@);
    let ka = param_of(p, "known_at"@);
    let ea = param_of(p, "effective_at"@);
    if ks is Some && ka is Some {
        None
    } else if ka matches Some(a) && util::spec_utc_key(a@) is None {
        None
    } else if ea matches Some(e) && util::spec_utc_key(e@) is None {
        None
    } else {
        match ks {
            Some(v) => match text::signed_value(v@) {
                Some(n) => if 0 <= n <= ctx.seq {
                    Some(n)
                } else {
                    None
                },
                None => None,
            },
            None => match ka {
                Some(a) => Some(last_seq_by(ctx.records@, util::spec_utc_key(a@).unwrap())),
                None => Some(ctx.seq as int),
            },
        }
    }
}

fn last_seq(rs: &Vec<StoredRecord>, cut: &str) -> (r: i64)
    ensures
        r == last_seq_by(rs@, cut@),
{
    let mut best: i64 = 0;
    let mut any = false;
    let mut i: usize = 0;
    while i < rs.len()
        invariant
            0 <= i <= rs@.len(),
            best == last_seq_by(rs@.take(i as int), cut@),
            any == exists_recorded_by(rs@.take(i as int), cut@),
        decreases rs@.len() - i,
    {
        let r = &rs[i];
        let ghost pre = rs@.take(i as int);
        assert(rs@.take(i + 1).drop_last() =~= pre);
        assert(rs@.take(i + 1).last() == *r);
        let hit = match util::utc_key(r.recorded_at.as_str()) {
            Some(k) => !json::str_lt(cut, k.as_str()),
            None => false,
        };
        assert(hit == recorded_by(*r, cut@));
        if hit && (!any || best < r.seq) {
            best = r.seq;
        }
        proof {
            assert(exists_recorded_by(rs@.take(i + 1), cut@) == (any || hit)) by {
                if hit {
                    assert(rs@.take(i + 1)[i as int] == *r);
                }
                if any {
                    let w = choose|w: int| 0 <= w < pre.len() && recorded_by(#[trigger] pre[w], cut@);
                    assert(rs@.take(i + 1)[w] == pre[w]);
                }
                if exists_recorded_by(rs@.take(i + 1), cut@) {
                    let w = choose|w: int|
                        0 <= w < rs@.take(i + 1).len() && recorded_by(#[trigger] rs@.take(i + 1)[w], cut@);
                    if w < i {
                        assert(pre[w] == rs@.take(i + 1)[w]);
                    }
                }
            }
        }
        any = any || hit;
        i += 1;
    }
    assert(rs@.take(rs@.len() as int) =~= rs@);
    best
}

fn keep_known(rs: &Vec<StoredRecord>, known: i64) -> (r: Vec<StoredRecord>)
    ensures
        r@.len() == known_records(rs@, known as int).len(),
        forall|i: int| 0 <= i < r@.len() ==> (#[trigger] r@[i]).same_as(&known_records(rs@, known as int)[i]),
{
    let mut out: Vec<StoredRecord> = Vec::new();
    let mut i: usize = 0;
    while i < rs.len()
        invariant
            0 <= i <= rs@.len(),
            out@.len() == known_records(rs@.take(i as int), known as int).len(),
            forall|k: int|
                0 <= k < out@.len() ==> (#[trigger] out@[k]).same_as(
                    &known_records(rs@.take(i as int), known as int)[k],
                ),
        decreases rs@.len() - i,
    {
        let ghost pre = rs@.take(i as int);
        assert(rs@.take(i + 1) =~= pre.push(rs@[i as int]));
        proof {
            pre.lemma_filter_push(rs@[i as int], |r: StoredRecord| r.seq <= known as int);
        }
        if rs[i].seq <= known {
            out.push(rs[i].clone());
        }
        i += 1;
    }
    assert(rs@.take(rs@.len() as int) =~= rs@);
    out
}

/// The records known at the selected point of the history. `known_seq` and
/// `known_at` are exclusive; timestamps must carry an offset.
pub fn view(ctx: &Context, p: &Vec<(String, String)>) -> (r: Result<KnownView, ApiError>)
    ensures
        r is Ok <==> selected_known(ctx, p@) is Some,
        r matches Err(e) ==> e.code == "bad_request",
        r matches Ok(v) ==> {
            let known = selected_known(ctx, p@).unwrap();
            &&& v.known == known
            &&& v.records@.len() == known_records(ctx.records@, known).len()
            &&& forall|i: int|
                0 <= i < v.records@.len() ==> (#[trigger] v.records@[i]).same_as(
                    &known_records(ctx.records@, known)[i],
                )
            &&& opt_view(v.known_at) == match param_of(p@, "known_at"@) {
                Some(a) => util::spec_utc_key(a@),
                None => None,
            }
            &&& opt_view(v.effective) == match param_of(p@, "effective_at"@) {
                Some(a) => util::spec_utc_key(a@),
                None => None,
            }
        },
{
    let ks = param(p, "known_seq");
    let ka = param(p, "known_at");
    let ea = param(p, "effective_at");
    if ks.is_some() && ka.is_some() {
        return Err(ApiError::bad_request(text::owned("known_seq and known_at are mutually exclusive")));
    }
    let known_at = match ka {
        Some(a) => match time_param(a.as_str(), "known_at") {
            Ok(k) => Some(k),
            Err(e) => return Err(e),
        },
        None => None,
    };
    let effective = match ea {
        Some(a) => match time_param(a.as_str(), "effective_at") {
            Ok(k) => Some(k),
            Err(e) => return Err(e),
        },
        None => None,
    };
    let known: i64 = match ks {
        Some(v) => match text::parse_i64(v.as_str()) {
            Some(n) => if 0 <= n && n <= ctx.seq {
                n
            } else {
                return Err(ApiError::bad_request(text::owned("known_seq must be 0..=current sequence")));
            },
            None => return Err(ApiError::bad_request(text::owned("known_seq must be 0..=current sequence"))),
        },
        None => match &known_at {
            Some(cut) => last_seq(&ctx.records, cut.as_str()),
            None => ctx.seq,
        },
    };
    let records = keep_known(&ctx.records, known);
    Ok(KnownView { records, known, known_at, effective })
}


// ---------------------------------------------------------------- projects

/// The project a record belongs to, following a revision to its entity at
/// most `fuel` times.
pub open spec fn project_within(rs: Seq<StoredRecord>, r: StoredRecord, fuel: nat) -> Option<Seq<char>>
    decreases fuel,
{
    match r.data {
        RecordData::Project(_) => Some(r.id@),
        RecordData::Entity(d) => Some(d.project_id@),
        RecordData::Revision(d) => if fuel == 0 {
            None
        } else {
            match graph::first_with_id(rs, d.entity_id@) {
                Some(x) => project_within(rs, x, (fuel - 1) as nat),
                None => None,
            }
        },
        RecordData::Capture(d) => opt_view(d.project_id),
        RecordData::Candidate(d) => Some(d.project_id@),
        RecordData::Observation(d) => Some(d.project_id@),
        RecordData::Goal(d) => Some(d.project_id@),
        RecordData::HeadChange(d) => Some(d.project_id@),
        RecordData::Publication(d) => Some(d.project_id@),
        _ => None,
    }
}

/// The project a record belongs to. A chain of revisions longer than the
/// record set would revisit a record, so the chain is followed no further.
pub open spec fn project_of(rs: Seq<StoredRecord>, r: StoredRecord) -> Option<Seq<char>> {
    project_within(rs, r, rs.len() + 1)
}

fn project_in(rs: &Vec<StoredRecord>, r: &StoredRecord, fuel: usize) -> (p: Option<String>)
    ensures
        opt_view(p) == project_within(rs@, *r, fuel as nat),
    decreases fuel,
{
    match &r.data {
        RecordData::Project(_) => Some(r.id.clone()),
        RecordData::Entity(d) => Some(d.project_id.clone()),
        RecordData::Revision(d) => {
            if fuel == 0 {
                None
            } else {
                match graph::find_record(rs, d.entity_id.as_str()) {
                    Some(x) => project_in(rs, x, fuel - 1),
                    None => None,
                }
            }
        },
        RecordData::Capture(d) => d.project_id.clone(),
        RecordData::Candidate(d) => Some(d.project_id.clone()),
        RecordData::Observation(d) => Some(d.project_id.clone()),
        RecordData::Goal(d) => Some(d.project_id.clone()),
        RecordData::HeadChange(d) => Some(d.project_id.clone()),
        RecordData::Publication(d) => Some(d.project_id.clone()),
        _ => None,
    }
}

/// The project a record belongs to.
pub fn project_of_record(rs: &Vec<StoredRecord>, r: &StoredRecord) -> (p: Option<String>)
    requires
        rs@.len() < usize::MAX,
    ensures
        opt_view(p) == project_of(rs@, *r),
{
    project_in(rs, r, rs.len() + 1)
}

/// A record belongs to `project`; a link belongs to the projects of its
/// endpoints.
pub open spec fn belongs(rs: Seq<StoredRecord>, r: StoredRecord, project: Seq<char>) -> bool {
    match r.data {
        RecordData::Link(l) => {
            ||| (graph::first_with_id(rs, l.from_id@) matches Some(x) && project_of(rs, x) == Some(
                project,
            ))
            ||| (graph::first_with_id(rs, l.to_id@) matches Some(x) && project_of(rs, x) == Some(
                project,
            ))
        },
        _ => project_of(rs, r) == Some(project),
    }
}

fn endpoint_in(rs: &Vec<StoredRecord>, id: &str, project: &str) -> (b: bool)
    requires
        rs@.len() < usize::MAX,
    ensures
        b == (graph::first_with_id(rs@, id@) matches Some(x) && project_of(rs@, x) == Some(project@)),
{
    match graph::find_record(rs, id) {
        Some(x) => match project_of_record(rs, x) {
            Some(q) => text::str_eq(q.as_str(), project),
            None => false,
        },
        None => false,
    }
}

/// Whether `r` belongs to `project`.
pub fn belongs_to_project(r: &StoredRecord, project: &str, rs: &Vec<StoredRecord>) -> (b: bool)
    requires
        rs@.len() < usize::MAX,
    ensures
        b == belongs(rs@, *r, project@),
{
    match &r.data {
        RecordData::Link(l) => endpoint_in(rs, l.from_id.as_str(), project) || endpoint_in(
            rs,
            l.to_id.as_str(),
            project,
        ),
        _ => match project_of_record(rs, r) {
            Some(q) => text::str_eq(q.as_str(), project),
            None => false,
        },
    }
}

// ---------------------------------------------------------------- heads

/// What selected a root revision.
#[derive(Debug)]
pub enum Selector {
    /// The working head change that set it.
    HeadChange(String),
    /// The publication that made it official.
    Publication(String),
    /// The caller named it.
    Explicit,
}

/// A root revision and what selected it.
#[derive(Debug)]
pub struct RootChoice {
    pub revision_id: String,
    pub by: Selector,
}

/// A publication of `project` visible at the effective-time cut.
pub open spec fn published_by(r: StoredRecord, project: Seq<char>, effective: Option<Seq<char>>) -> bool {
    &&& store::publication_of(r, project)
    &&& match effective {
        None => true,
        Some(cut) => match r.data {
            RecordData::Publication(pb) => match util::spec_utc_key(pb.published_at@) {
                Some(k) => key_le(k, cut),
                None => false,
            },
            _ => false,
        },
    }
}

/// The working head of `project`: the target of its latest working head change.
pub open spec fn working_root(rs: Seq<StoredRecord>, project: Seq<char>, c: Option<RootChoice>) -> bool {
    match c {
        None => forall|j: int| 0 <= j < rs.len() ==> !store::working_move(#[trigger] rs[j], project),
        Some(c) => exists|w: int|
            #![trigger rs[w]]
            0 <= w < rs.len() && store::working_move(rs[w], project) && (forall|j: int|
                0 <= j < rs.len() && store::working_move(#[trigger] rs[j], project) ==> !store::later(
                    rs[j],
                    rs[w],
                )) && opt_view(store::after_of(rs[w])) == Some(c.revision_id@) && c.by
                == Selector::HeadChange(rs[w].id),
    }
}

/// The official head of `project` at the cut: the root of the publication
/// that takes precedence.
pub open spec fn official_root(
    rs: Seq<StoredRecord>,
    project: Seq<char>,
    effective: Option<Seq<char>>,
    c: Option<RootChoice>,
) -> bool {
    match c {
        None => forall|j: int| 0 <= j < rs.len() ==> !published_by(#[trigger] rs[j], project, effective),
        Some(c) => exists|w: int|
            #![trigger rs[w]]
            0 <= w < rs.len() && published_by(rs[w], project, effective) && (forall|j: int|
                0 <= j < rs.len() && published_by(#[trigger] rs[j], project, effective)
                    ==> !store::precedes(rs[j], rs[w])) && opt_view(store::root_of(rs[w])) == Some(
                c.revision_id@,
            ) && c.by == Selector::Publication(rs[w].id),
    }
}

fn working_choice(rs: &Vec<StoredRecord>, project: &str) -> (c: Option<RootChoice>)
    ensures
        working_root(rs@, project@, c),
{
    let mut best: Option<usize> = None;
    let mut i: usize = 0;
    while i < rs.len()
        invariant
            0 <= i <= rs@.len(),
            match best {
                None => forall|j: int| 0 <= j < i ==> !store::working_move(#[trigger] rs@[j], project@),
                Some(b) => b < i && store::working_move(rs@[b as int], project@) && forall|j: int|
                    0 <= j < i && store::working_move(#[trigger] rs@[j], project@) ==> !store::later(
                        rs@[j],
                        rs@[b as int],
                    ),
            },
        decreases rs@.len() - i,
    {
        let r = &rs[i];
        let hit = match &r.data {
            RecordData::HeadChange(h) => h.stage == Stage::Working && text::str_eq(
                h.project_id.as_str(),
                project,
            ),
            _ => false,
        };
        assert(hit == store::working_move(*r, project@));
        if !hit {
            assert forall|j: int| 0 <= j < i + 1 && best is None implies !store::working_move(#[trigger] rs@[j], project@) by {
                if j == i {
                    assert(rs@[j] == *r);
                }
            }
        }
        if hit {
            match best {
                None => {
                    proof {
                        json::lemma_seq_lt_irreflexive(r.id@);
                        assert forall|j: int|
                            0 <= j < i + 1 && store::working_move(#[trigger] rs@[j], project@)
                                implies !store::later(rs@[j], rs@[i as int]) by {
                            if j == i {
                                assert(rs@[j] == *r);
                            }
                        }
                    }
                    best = Some(i);
                },
                Some(b) => {
                    let cur = &rs[b];
                    let newer = r.seq > cur.seq || (r.seq == cur.seq && json::str_lt(
                        cur.id.as_str(),
                        r.id.as_str(),
                    ));
                    if newer {
                        proof {
                            assert forall|j: int|
                                0 <= j < i + 1 && store::working_move(#[trigger] rs@[j], project@)
                                    implies !store::later(rs@[j], rs@[i as int]) by {
                                if j < i && store::later(rs@[j], rs@[i as int]) {
                                    store::lemma_later_trans(rs@[j], rs@[i as int], rs@[b as int]);
                                }
                                if j == i {
                                    json::lemma_seq_lt_irreflexive(rs@[j].id@);
                                }
                            }
                        }
                        best = Some(i);
                    }
                },
            }
        }
        i += 1;
    }
    match best {
        None => None,
        Some(b) => match &rs[b].data {
            RecordData::HeadChange(h) => Some(
                RootChoice {
                    revision_id: h.after_revision_id.clone(),
                    by: Selector::HeadChange(rs[b].id.clone()),
                },
            ),
            _ => {
                proof {
                    assert(false);
                }
                None
            },
        },
    }
}

fn pub_key(r: &StoredRecord) -> (k: String)
    ensures
        k@ == store::published_key(*r),
{
    match &r.data {
        RecordData::Publication(p) => match util::utc_key(p.published_at.as_str()) {
            Some(k) => k,
            None => String::new(),
        },
        _ => String::new(),
    }
}

fn official_choice(rs: &Vec<StoredRecord>, project: &str, effective: &Option<String>) -> (c: Option<
    RootChoice,
>)
    ensures
        official_root(rs@, project@, opt_view(*effective), c),
{
    let ghost eff = opt_view(*effective);
    let mut best: Option<usize> = None;
    let mut i: usize = 0;
    while i < rs.len()
        invariant
            0 <= i <= rs@.len(),
            eff == opt_view(*effective),
            match best {
                None => forall|j: int| 0 <= j < i ==> !published_by(#[trigger] rs@[j], project@, eff),
                Some(b) => b < i && published_by(rs@[b as int], project@, eff) && forall|j: int|
                    0 <= j < i && published_by(#[trigger] rs@[j], project@, eff) ==> !store::precedes(
                        rs@[j],
                        rs@[b as int],
                    ),
            },
        decreases rs@.len() - i,
    {
        let r = &rs[i];
        let hit = match &r.data {
            RecordData::Publication(pb) => text::str_eq(pb.project_id.as_str(), project) && match effective {
                None => true,
                Some(cut) => match util::utc_key(pb.published_at.as_str()) {
                    Some(k) => !json::str_lt(cut.as_str(), k.as_str()),
                    None => false,
                },
            },
            _ => false,
        };
        assert(hit == published_by(*r, project@, eff));
        if !hit {
            assert forall|j: int| 0 <= j < i + 1 && best is None implies !published_by(#[trigger] rs@[j], project@, eff) by {
                if j == i {
                    assert(rs@[j] == *r);
                }
            }
        }
        if hit {
            match best {
                None => {
                    proof {
                        json::lemma_seq_lt_irreflexive(r.id@);
                        json::lemma_seq_lt_irreflexive(store::published_key(*r));
                        assert forall|j: int|
                            0 <= j < i + 1 && published_by(#[trigger] rs@[j], project@, eff)
                                implies !store::precedes(rs@[j], rs@[i as int]) by {
                            if j == i {
                                assert(rs@[j] == *r);
                            }
                        }
                    }
                    best = Some(i);
                },
                Some(b) => {
                    let cur = &rs[b];
                    let kr = pub_key(r);
                    let kb = pub_key(cur);
                    let newer = json::str_lt(kb.as_str(), kr.as_str()) || (text::str_eq(
                        kb.as_str(),
                        kr.as_str(),
                    ) && (r.seq > cur.seq || (r.seq == cur.seq && json::str_lt(
                        cur.id.as_str(),
                        r.id.as_str(),
                    ))));
                    assert(newer == store::precedes(*r, *cur));
                    if newer {
                        proof {
                            assert forall|j: int|
                                0 <= j < i + 1 && published_by(#[trigger] rs@[j], project@, eff)
                                    implies !store::precedes(rs@[j], rs@[i as int]) by {
                                if j < i && store::precedes(rs@[j], rs@[i as int]) {
                                    store::lemma_precedes_trans(rs@[j], rs@[i as int], rs@[b as int]);
                                }
                                if j == i {
                                    json::lemma_seq_lt_irreflexive(store::published_key(rs@[j]));
                                    json::lemma_seq_lt_irreflexive(rs@[j].id@);
                                }
                            }
                        }
                        best = Some(i);
                    }
                },
            }
        }
        i += 1;
    }
    match best {
        None => None,
        Some(b) => match &rs[b].data {
            RecordData::Publication(p) => Some(
                RootChoice {
                    revision_id: p.root_revision_id.clone(),
                    by: Selector::Publication(rs[b].id.clone()),
                },
            ),
            _ => {
                proof {
                    assert(false);
                }
                None
            },
        },
    }
}

/// The root of `project` on `stage` in a view: the working head, or the
/// official head at the view's effective-time cut.
pub fn head_root(v: &KnownView, project: &str, stage: Stage) -> (c: Option<RootChoice>)
    ensures
        stage == Stage::Working ==> working_root(v.records@, project@, c),
        stage == Stage::Official ==> official_root(v.records@, project@, opt_view(v.effective), c),
{
    match stage {
        Stage::Working => working_choice(&v.records, project),
        Stage::Official => official_choice(&v.records, project, &v.effective),
    }
}

/// `id` is a project-root revision of `project`.
pub open spec fn project_root_of(rs: Seq<StoredRecord>, project: Seq<char>, id: Seq<char>) -> bool {
    graph::first_with_id(rs, id) matches Some(r) && (r.data matches RecordData::Revision(d)
        && d.entity_id@ == project)
}

/// Whether `id` is a project-root revision of `project`.
pub fn valid_root(v: &KnownView, project: &str, id: &str) -> (b: bool)
    ensures
        b == project_root_of(v.records@, project@, id@),
{
    match graph::find_record(&v.records, id) {
        Some(r) => match &r.data {
            RecordData::Revision(d) => text::str_eq(d.entity_id.as_str(), project),
            _ => false,
        },
        None => false,
    }
}


/// The root a view's projections start from.
pub open spec fn head_rel(v: &KnownView, project: Seq<char>, stage: Stage, c: Option<RootChoice>) -> bool {
    match stage {
        Stage::Working => working_root(v.records@, project, c),
        Stage::Official => official_root(v.records@, project, opt_view(v.effective), c),
    }
}

/// The root a projection starts from: the caller's `root_revision_id`, or the
/// head of the stage. Either must be a project-root revision of the project.
pub fn selected(v: &KnownView, p: &Vec<(String, String)>, stage: Stage, project: &str) -> (r: Result<
    Option<RootChoice>,
    ApiError,
>)
    ensures
        match param_of(p@, "root_revision_id"@) {
            Some(x) => {
                &&& (r is Ok <==> project_root_of(v.records@, project@, x@))
                &&& r matches Ok(c) ==> c == Some(RootChoice { revision_id: x, by: Selector::Explicit })
            },
            None => {
                &&& r matches Ok(c) ==> head_rel(v, project@, stage, c) && (c matches Some(ch)
                    ==> project_root_of(v.records@, project@, ch.revision_id@))
                &&& r is Err ==> exists|ch: RootChoice|
                    head_rel(v, project@, stage, Some(ch)) && !project_root_of(
                        v.records@,
                        project@,
                        #[trigger] ch.revision_id@,
                    )
            },
        },
        r matches Err(e) ==> e.code == "bad_request",
{
    let choice = match param(p, "root_revision_id") {
        Some(x) => Some(RootChoice { revision_id: x.clone(), by: Selector::Explicit }),
        None => head_root(v, project, stage),
    };
    match choice {
        None => Ok(None),
        Some(c) => {
            if !valid_root(v, project, c.revision_id.as_str()) {
                return Err(
                    ApiError::bad_request(
                        text::owned("root_revision_id must be this project's project-root revision"),
                    ),
                );
            }
            Ok(Some(c))
        },
    }
}

/// Who owns a revision, as projections show it.
#[derive(Debug)]
pub struct Owner {
    pub entity_id: String,
    pub entity_kind: String,
    pub title: String,
}

/// The owner of the revision `d` in `rs`: its project or entity, with kind
/// and title; `unknown` when the owner is missing.
pub open spec fn owner_of(rs: Seq<StoredRecord>, entity_id: Seq<char>, o: Owner) -> bool {
    match graph::first_with_id(rs, entity_id) {
        Some(x) => match x.data {
            RecordData::Project(pd) => o.entity_id@ == x.id@ && o.entity_kind@ == "project"@
                && o.title == pd.title,
            RecordData::Entity(e) => o.entity_id@ == x.id@ && o.entity_kind@ == NodeKind::of_entity(
                e.entity_kind,
            ).name() && o.title == e.title,
            _ => o.entity_id@ == entity_id && o.entity_kind@ == "unknown"@ && o.title@ == entity_id,
        },
        None => o.entity_id@ == entity_id && o.entity_kind@ == "unknown"@ && o.title@ == entity_id,
    }
}

/// The owner of a revision record.
pub fn owner(rs: &Vec<StoredRecord>, r: &StoredRecord) -> (o: Owner)
    requires
        r.data is Revision,
    ensures
        owner_of(rs@, r.data->Revision_0.entity_id@, o),
{
    let d = match &r.data {
        RecordData::Revision(d) => d,
        _ => {
            proof {
                assert(false);
            }
            return Owner { entity_id: String::new(), entity_kind: String::new(), title: String::new() };
        },
    };
    match graph::find_record(rs, d.entity_id.as_str()) {
        Some(x) => match &x.data {
            RecordData::Project(pd) => Owner {
                entity_id: x.id.clone(),
                entity_kind: text::owned("project"),
                title: pd.title.clone(),
            },
            RecordData::Entity(e) => Owner {
                entity_id: x.id.clone(),
                entity_kind: text::owned(NodeKind::from_entity(e.entity_kind).as_str()),
                title: e.title.clone(),
            },
            _ => Owner {
                entity_id: d.entity_id.clone(),
                entity_kind: text::owned("unknown"),
                title: d.entity_id.clone(),
            },
        },
        None => Owner {
            entity_id: d.entity_id.clone(),
            entity_kind: text::owned("unknown"),
            title: d.entity_id.clone(),
        },
    }
}

/// The first `n` characters of `s`, marked with an ellipsis when cut.
pub open spec fn shortened(s: Seq<char>, n: nat) -> Seq<char> {
    if s.len() > n {
        s.take(n as int).push('…')
    } else {
        s
    }
}

/// A preview of a text: at most `n` characters and an ellipsis.
pub fn short(s: &str, n: usize) -> (r: String)
    ensures
        r@ == shortened(s@, n as nat),
{
    let cs = text::chars_of(s);
    if cs.len() <= n {
        return text::owned(s);
    }
    let mut r = String::new();
    let mut i: usize = 0;
    while i < n
        invariant
            0 <= i <= n < cs@.len(),
            cs@ == s@,
            r@ == s@.take(i as int),
        decreases n - i,
    {
        text::push_char(&mut r, cs[i]);
        assert(s@.take(i + 1) =~= s@.take(i as int).push(s@[i as int]));
        i += 1;
    }
    text::push_char(&mut r, '…');
    r
}


// ---------------------------------------------------------------- goals

/// A time that parses and is no later than the cut.
pub open spec fn by_cut(t: Seq<char>, cut: Seq<char>) -> bool {
    match util::spec_utc_key(t) {
        Some(k) => key_le(k, cut),
        None => false,
    }
}

fn time_by_cut(t: &str, cut: &str) -> (b: bool)
    ensures
        b == by_cut(t@, cut@),
{
    match util::utc_key(t) {
        Some(k) => !json::str_lt(cut, k.as_str()),
        None => false,
    }
}

/// A judgment is not projected before the observation window it evaluates:
/// its evidence cutoff and its baseline must both be in effect at the cut.
pub open spec fn assessment_shown(rs: Seq<StoredRecord>, effective: Option<Seq<char>>, a: AssessmentData) -> bool {
    match effective {
        None => true,
        Some(cut) => by_cut(a.evidence_cutoff_at@, cut) && (graph::first_with_id(rs, a.baseline_id@) matches Some(b)
            && (b.data matches RecordData::Baseline(bd) && by_cut(bd.effective_from@, cut))),
    }
}

/// Whether an assessment may be projected at the view's effective time.
pub fn assessment_visible(v: &KnownView, a: &AssessmentData) -> (b: bool)
    ensures
        b == assessment_shown(v.records@, opt_view(v.effective), *a),
{
    match &v.effective {
        None => true,
        Some(cut) => {
            time_by_cut(a.evidence_cutoff_at.as_str(), cut.as_str()) && match graph::find_record(
                &v.records,
                a.baseline_id.as_str(),
            ) {
                Some(b) => match &b.data {
                    RecordData::Baseline(bd) => time_by_cut(bd.effective_from.as_str(), cut.as_str()),
                    _ => false,
                },
                None => false,
            }
        },
    }
}

/// The status a required criterion has in an assessment.
#[derive(Debug)]
pub struct RequiredStatus {
    pub criterion_id: String,
    pub status: Option<JudgeStatus>,
}

/// The status the first result for `id` gives, if any.
pub open spec fn result_for(results: Seq<CriterionResult>, id: Seq<char>) -> Option<JudgeStatus>
    decreases results.len(),
{
    if results.len() == 0 {
        None
    } else if results[0].criterion_id@ == id {
        Some(results[0].status)
    } else {
        result_for(results.drop_first(), id)
    }
}

/// A criterion the verdict counts: required, and adopted by the baseline.
pub open spec fn gating(c: Criterion, b: BaselineData) -> bool {
    c.required && views(b.criterion_ids@).contains(c.criterion_id@)
}

/// The goal's gating criteria, in goal order.
pub open spec fn gating_criteria(g: GoalData, b: BaselineData) -> Seq<Criterion> {
    g.criteria@.filter(|c: Criterion| gating(c, b))
}

fn status_for(results: &Vec<CriterionResult>, id: &str) -> (r: Option<JudgeStatus>)
    ensures
        r == result_for(results@, id@),
{
    let mut i: usize = 0;
    assert(results@.skip(0) == results@);
    while i < results.len()
        invariant
            0 <= i <= results@.len(),
            result_for(results@, id@) == result_for(results@.skip(i as int), id@),
        decreases results@.len() - i,
    {
        assert(results@.skip(i as int).drop_first() == results@.skip(i + 1));
        if text::str_eq(results[i].criterion_id.as_str(), id) {
            return Some(results[i].status);
        }
        i += 1;
    }
    None
}

/// Required criteria of a goal under a baseline, with their statuses in an
/// assessment.
pub fn required_criteria_status(goal: &GoalData, baseline: &BaselineData, assessment: &AssessmentData) -> (r:
    Vec<RequiredStatus>)
    ensures
        r@.len() == gating_criteria(*goal, *baseline).len(),
        forall|i: int|
            0 <= i < r@.len() ==> {
                let c = gating_criteria(*goal, *baseline)[i];
                &&& (#[trigger] r@[i]).criterion_id == c.criterion_id
                &&& r@[i].status == result_for(assessment.criteria_results@, c.criterion_id@)
            },
        statuses(r@) == required_statuses(*goal, *baseline, *assessment),
{
    let ghost f = |c: Criterion| gating(c, *baseline);
    let mut out: Vec<RequiredStatus> = Vec::new();
    let mut i: usize = 0;
    while i < goal.criteria.len()
        invariant
            0 <= i <= goal.criteria@.len(),
            f == (|c: Criterion| gating(c, *baseline)),
            out@.len() == goal.criteria@.take(i as int).filter(f).len(),
            forall|k: int|
                0 <= k < out@.len() ==> {
                    let c = goal.criteria@.take(i as int).filter(f)[k];
                    &&& (#[trigger] out@[k]).criterion_id == c.criterion_id
                    &&& out@[k].status == result_for(assessment.criteria_results@, c.criterion_id@)
                },
        decreases goal.criteria@.len() - i,
    {
        let c = &goal.criteria[i];
        proof {
            assert(goal.criteria@.take(i + 1) =~= goal.criteria@.take(i as int).push(*c));
            goal.criteria@.take(i as int).lemma_filter_push(*c, f);
        }
        let adopted = text::contains_str(&baseline.criterion_ids, c.criterion_id.as_str());
        proof {
            if adopted {
                let j = choose|j: int|
                    0 <= j < baseline.criterion_ids@.len() && (#[trigger] baseline.criterion_ids@[j])@
                        == c.criterion_id@;
                assert(views(baseline.criterion_ids@)[j] == c.criterion_id@);
            }
            if views(baseline.criterion_ids@).contains(c.criterion_id@) {
                let j = choose|j: int|
                    0 <= j < views(baseline.criterion_ids@).len() && views(baseline.criterion_ids@)[j]
                        == c.criterion_id@;
                assert(baseline.criterion_ids@[j]@ == c.criterion_id@);
            }
        }
        if c.required && adopted {
            let st = status_for(&assessment.criteria_results, c.criterion_id.as_str());
            out.push(RequiredStatus { criterion_id: c.criterion_id.clone(), status: st });
        }
        i += 1;
    }
    assert(goal.criteria@.take(goal.criteria@.len() as int) =~= goal.criteria@);
    assert(statuses(out@) =~= required_statuses(*goal, *baseline, *assessment));
    out
}

/// The verdict a goal shows.
#[derive(Clone, Copy, Debug, PartialEq, Eq, Structural)]
pub enum Gate {
    Met,
    Unmet,
    Disputed,
    Unknown,
}

impl Gate {
    pub open spec fn name(self) -> Seq<char> {
        match self {
            Gate::Met => "met"@,
            Gate::Unmet => "unmet"@,
            Gate::Disputed => "disputed"@,
            Gate::Unknown => "unknown"@,
        }
    }

    pub fn as_str(self) -> (r: &'static str)
        ensures
            r@ == self.name(),
    {
        match self {
            Gate::Met => "met",
            Gate::Unmet => "unmet",
            Gate::Disputed => "disputed",
            Gate::Unknown => "unknown",
        }
    }
}

/// The statuses of a list of required criteria.
pub open spec fn statuses(rs: Seq<RequiredStatus>) -> Seq<Option<JudgeStatus>> {
    rs.map_values(|r: RequiredStatus| r.status)
}

pub open spec fn some_status(ss: Seq<Option<JudgeStatus>>, s: JudgeStatus) -> bool {
    exists|i: int| 0 <= i < ss.len() && ss[i] == Some(s)
}

/// The verdict over required criteria only: unmet when any required criterion
/// is unmet, else disputed when any is disputed, else met when every one is
/// met, else unknown (no required criterion, or one without a result or with
/// another status).
pub open spec fn gate_of(ss: Seq<Option<JudgeStatus>>) -> Gate {
    if ss.len() == 0 {
        Gate::Unknown
    } else if some_status(ss, JudgeStatus::Unmet) {
        Gate::Unmet
    } else if some_status(ss, JudgeStatus::Disputed) {
        Gate::Disputed
    } else if forall|i: int| 0 <= i < ss.len() ==> ss[i] == Some(JudgeStatus::Met) {
        Gate::Met
    } else {
        Gate::Unknown
    }
}

/// The verdict's precedence among required statuses: an unmet criterion
/// outranks a disputed one, and a met verdict needs every criterion met.
pub proof fn law_gate_precedence(ss: Seq<Option<JudgeStatus>>)
    ensures
        (exists|i: int| 0 <= i < ss.len() && ss[i] == Some(JudgeStatus::Unmet)) ==> gate_of(ss) == Gate::Unmet,
        gate_of(ss) == Gate::Unmet ==> exists|i: int| 0 <= i < ss.len() && ss[i] == Some(JudgeStatus::Unmet),
        gate_of(ss) == Gate::Disputed <==> ((forall|i: int| 0 <= i < ss.len() ==> ss[i] != Some(JudgeStatus::Unmet))
            && exists|i: int| 0 <= i < ss.len() && ss[i] == Some(JudgeStatus::Disputed)),
        gate_of(ss) == Gate::Met <==> (ss.len() > 0 && forall|i: int| 0 <= i < ss.len() ==> ss[i] == Some(JudgeStatus::Met)),
        ss.len() == 0 ==> gate_of(ss) == Gate::Unknown,
{
    if gate_of(ss) == Gate::Met {
        assert(ss.len() > 0);
    }
    if ss.len() > 0 && forall|i: int| 0 <= i < ss.len() ==> ss[i] == Some(JudgeStatus::Met) {
        assert(!some_status(ss, JudgeStatus::Unmet));
        assert(!some_status(ss, JudgeStatus::Disputed));
    }
}

/// The statuses the required criteria of `g` under `b` have in `a`.
pub open spec fn required_statuses(g: GoalData, b: BaselineData, a: AssessmentData) -> Seq<Option<JudgeStatus>> {
    gating_criteria(g, b).map_values(|c: Criterion| result_for(a.criteria_results@, c.criterion_id@))
}

/// The verdict of a list of required-criterion statuses.
pub fn gate_status(rs: &Vec<RequiredStatus>) -> (g: Gate)
    ensures
        g == gate_of(statuses(rs@)),
{
    let mut unmet = false;
    let mut disputed = false;
    let mut all_met = true;
    let mut i: usize = 0;
    while i < rs.len()
        invariant
            0 <= i <= rs@.len(),
            unmet == exists|k: int| 0 <= k < i && (#[trigger] rs@[k]).status == Some(JudgeStatus::Unmet),
            disputed == exists|k: int| 0 <= k < i && (#[trigger] rs@[k]).status == Some(JudgeStatus::Disputed),
            all_met == forall|k: int| 0 <= k < i ==> (#[trigger] rs@[k]).status == Some(JudgeStatus::Met),
        decreases rs@.len() - i,
    {
        match rs[i].status {
            None => {
                all_met = false;
            },
            Some(JudgeStatus::Unmet) => {
                unmet = true;
                all_met = false;
            },
            Some(JudgeStatus::Disputed) => {
                disputed = true;
                all_met = false;
            },
            Some(JudgeStatus::Met) => {},
            Some(_) => {
                all_met = false;
            },
        }
        i += 1;
    }
    proof {
        let ss = statuses(rs@);
        assert(unmet == some_status(ss, JudgeStatus::Unmet)) by {
            if unmet {
                let k = choose|k: int| 0 <= k < rs@.len() && (#[trigger] rs@[k]).status == Some(JudgeStatus::Unmet);
                assert(ss[k] == Some(JudgeStatus::Unmet));
            }
            if some_status(ss, JudgeStatus::Unmet) {
                let k = choose|k: int| 0 <= k < ss.len() && ss[k] == Some(JudgeStatus::Unmet);
                assert(rs@[k].status == Some(JudgeStatus::Unmet));
            }
        }
        assert(disputed == some_status(ss, JudgeStatus::Disputed)) by {
            if disputed {
                let k = choose|k: int| 0 <= k < rs@.len() && (#[trigger] rs@[k]).status == Some(JudgeStatus::Disputed);
                assert(ss[k] == Some(JudgeStatus::Disputed));
            }
            if some_status(ss, JudgeStatus::Disputed) {
                let k = choose|k: int| 0 <= k < ss.len() && ss[k] == Some(JudgeStatus::Disputed);
                assert(rs@[k].status == Some(JudgeStatus::Disputed));
            }
        }
        assert(all_met == forall|i: int| 0 <= i < ss.len() ==> ss[i] == Some(JudgeStatus::Met)) by {
            if !all_met {
                let k = choose|k: int| 0 <= k < rs@.len() && !((#[trigger] rs@[k]).status == Some(JudgeStatus::Met));
                assert(ss[k] != Some(JudgeStatus::Met));
            }
        }
    }
    if rs.len() == 0 {
        Gate::Unknown
    } else if unmet {
        Gate::Unmet
    } else if disputed {
        Gate::Disputed
    } else if all_met {
        Gate::Met
    } else {
        Gate::Unknown
    }
}


/// The effective-from key of a baseline record; empty when it does not parse.
pub open spec fn baseline_key(r: StoredRecord) -> Seq<char> {
    match r.data {
        RecordData::Baseline(b) => match util::spec_utc_key(b.effective_from@) {
            Some(k) => k,
            None => Seq::empty(),
        },
        _ => Seq::empty(),
    }
}

/// Baseline order: effective time, then commit order.
pub open spec fn baseline_before(a: StoredRecord, b: StoredRecord) -> bool {
    json::seq_lt(baseline_key(a), baseline_key(b)) || (baseline_key(a) == baseline_key(b)
        && store::later(b, a))
}

proof fn lemma_baseline_before_trans(a: StoredRecord, b: StoredRecord, c: StoredRecord)
    requires
        baseline_before(a, b),
        baseline_before(b, c),
    ensures
        baseline_before(a, c),
{
    let (ka, kb, kc) = (baseline_key(a), baseline_key(b), baseline_key(c));
    if json::seq_lt(ka, kb) && json::seq_lt(kb, kc) {
        json::lemma_seq_lt_trans(ka, kb, kc);
    } else if json::seq_lt(ka, kb) {
    } else if json::seq_lt(kb, kc) {
    } else {
        store::lemma_later_trans(c, b, a);
    }
}

/// A baseline of `goal` in effect at the cut.
pub open spec fn baseline_in_effect(r: StoredRecord, goal: Seq<char>, effective: Option<Seq<char>>) -> bool {
    match r.data {
        RecordData::Baseline(b) => b.goal_id@ == goal && match util::spec_utc_key(b.effective_from@) {
            Some(k) => match effective {
                None => true,
                Some(cut) => key_le(k, cut),
            },
            None => false,
        },
        _ => false,
    }
}

/// A baseline in effect at the cut that supersedes `base`.
pub open spec fn successor_of(r: StoredRecord, base: Seq<char>, effective: Option<Seq<char>>) -> bool {
    match r.data {
        RecordData::Baseline(b) => opt_view(b.supersedes) == Some(base) && match util::spec_utc_key(
            b.effective_from@,
        ) {
            Some(k) => match effective {
                None => true,
                Some(cut) => key_le(k, cut),
            },
            None => false,
        },
        _ => false,
    }
}

pub open spec fn superseded(rs: Seq<StoredRecord>, base: Seq<char>, effective: Option<Seq<char>>) -> bool {
    exists|j: int| 0 <= j < rs.len() && successor_of(#[trigger] rs[j], base, effective)
}

/// The goal's scope is the use site in the selected root.
pub open spec fn in_snapshot(v: &KnownView, root: Seq<char>, g: GoalData) -> bool {
    &&& g.scope.root_revision_id@ == root
    &&& graph::resolved(&v.records, g.scope.root_revision_id@, views(g.scope.slot_path@)) matches Ok(t)
        && t.id@ == g.scope.target_revision_id@
}

/// An assessment still judges the goal's use site in the selected root.
pub open spec fn judges_scope(v: &KnownView, root: Seq<char>, g: GoalData, a: AssessmentData) -> bool {
    &&& a.root_revision_id@ == root
    &&& views(a.slot_path@) == views(g.scope.slot_path@)
    &&& a.target_revision_id@ == g.scope.target_revision_id@
    &&& graph::resolved(&v.records, a.root_revision_id@, views(a.slot_path@)) matches Ok(t)
        && t.id@ == a.target_revision_id@
}

/// An official assessment of `base` that may be projected and still judges
/// the goal's use site.
pub open spec fn official_for(v: &KnownView, root: Seq<char>, g: GoalData, base: Seq<char>, r: StoredRecord) -> bool {
    match r.data {
        RecordData::Assessment(a) => {
            &&& a.baseline_id@ == base
            &&& assessment_shown(v.records@, opt_view(v.effective), a)
            &&& judges_scope(v, root, g, a)
            &&& a.origin == ProposalOrigin::Official
        },
        _ => false,
    }
}

/// `a` is the latest official assessment of `base`.
pub open spec fn latest_official(v: &KnownView, root: Seq<char>, g: GoalData, base: Seq<char>, a: int) -> bool {
    &&& 0 <= a < v.records@.len()
    &&& official_for(v, root, g, base, v.records@[a])
    &&& forall|j: int|
        0 <= j < v.records@.len() && official_for(v, root, g, base, #[trigger] v.records@[j])
            ==> !store::later(v.records@[j], v.records@[a])
}

pub open spec fn has_official(v: &KnownView, root: Seq<char>, g: GoalData, base: Seq<char>) -> bool {
    exists|j: int| 0 <= j < v.records@.len() && official_for(v, root, g, base, #[trigger] v.records@[j])
}

/// Whether baseline `r` may decide the verdict of `goal`: it is in effect,
/// nothing supersedes it, and an official assessment judges it.
pub open spec fn gate_candidate(v: &KnownView, root: Seq<char>, g: GoalData, goal: Seq<char>, r: StoredRecord) -> bool {
    &&& baseline_in_effect(r, goal, opt_view(v.effective))
    &&& !superseded(v.records@, r.id@, opt_view(v.effective))
    &&& has_official(v, root, g, r.id@)
}

/// The verdict of a goal: unknown unless its scope is in the snapshot; then the
/// required-criteria verdict of the latest official assessment under the latest
/// baseline that can carry it, unknown when there is none.
pub open spec fn goal_gate(v: &KnownView, root: Seq<char>, g: GoalData, goal: Seq<char>, gate: Gate) -> bool {
    if !in_snapshot(v, root, g) {
        gate == Gate::Unknown
    } else if !exists|b: int| 0 <= b < v.records@.len() && gate_candidate(v, root, g, goal, #[trigger] v.records@[b]) {
        gate == Gate::Unknown
    } else {
        exists|b: int, a: int|
            #![trigger v.records@[b], v.records@[a]]
            0 <= b < v.records@.len() && gate_candidate(v, root, g, goal, v.records@[b]) && (forall|j: int|
                0 <= j < v.records@.len() && gate_candidate(v, root, g, goal, #[trigger] v.records@[j])
                    ==> !baseline_before(v.records@[b], v.records@[j])) && latest_official(
                v,
                root,
                g,
                v.records@[b].id@,
                a,
            ) && gate == gate_of(
                required_statuses(
                    g,
                    v.records@[b].data->Baseline_0,
                    v.records@[a].data->Assessment_0,
                ),
            )
    }
}

fn scope_judged(v: &KnownView, root: &str, g: &GoalData, a: &AssessmentData) -> (b: bool)
    ensures
        b == judges_scope(v, root@, *g, *a),
{
    if !text::str_eq(a.root_revision_id.as_str(), root) {
        return false;
    }
    if a.slot_path.len() != g.scope.slot_path.len() {
        assert(views(a.slot_path@).len() != views(g.scope.slot_path@).len());
        return false;
    }
    let mut i: usize = 0;
    while i < a.slot_path.len()
        invariant
            0 <= i <= a.slot_path@.len(),
            a.slot_path@.len() == g.scope.slot_path@.len(),
            forall|k: int| 0 <= k < i ==> (#[trigger] a.slot_path@[k])@ == g.scope.slot_path@[k]@,
        decreases a.slot_path@.len() - i,
    {
        if !text::str_eq(a.slot_path[i].as_str(), g.scope.slot_path[i].as_str()) {
            assert(views(a.slot_path@)[i as int] != views(g.scope.slot_path@)[i as int]);
            return false;
        }
        i += 1;
    }
    assert(views(a.slot_path@) =~= views(g.scope.slot_path@));
    if !text::str_eq(a.target_revision_id.as_str(), g.scope.target_revision_id.as_str()) {
        return false;
    }
    match graph::resolve_path(&v.records, a.root_revision_id.as_str(), &a.slot_path) {
        Ok(t) => text::str_eq(t.id.as_str(), a.target_revision_id.as_str()),
        Err(_) => false,
    }
}

/// Whether a goal's scope is the use site in the selected root.
pub fn goal_in_snapshot(v: &KnownView, root: &str, g: &GoalData) -> (b: bool)
    ensures
        b == in_snapshot(v, root@, *g),
{
    text::str_eq(g.scope.root_revision_id.as_str(), root) && match graph::resolve_path(
        &v.records,
        g.scope.root_revision_id.as_str(),
        &g.scope.slot_path,
    ) {
        Ok(t) => text::str_eq(t.id.as_str(), g.scope.target_revision_id.as_str()),
        Err(_) => false,
    }
}

fn is_official_for(v: &KnownView, root: &str, g: &GoalData, base: &str, r: &StoredRecord) -> (b: bool)
    ensures
        b == official_for(v, root@, *g, base@, *r),
{
    match &r.data {
        RecordData::Assessment(a) => text::str_eq(a.baseline_id.as_str(), base) && assessment_visible(v, a)
            && scope_judged(v, root, g, a) && a.origin == ProposalOrigin::Official,
        _ => false,
    }
}

/// The latest official assessment of `base`, by commit order.
fn official_assessment(v: &KnownView, root: &str, g: &GoalData, base: &str) -> (r: Option<usize>)
    ensures
        match r {
            Some(a) => latest_official(v, root@, *g, base@, a as int),
            None => !has_official(v, root@, *g, base@),
        },
{
    let rs = &v.records;
    let mut best: Option<usize> = None;
    let mut i: usize = 0;
    while i < rs.len()
        invariant
            0 <= i <= rs@.len(),
            rs@ == v.records@,
            match best {
                None => forall|j: int| 0 <= j < i ==> !official_for(v, root@, *g, base@, #[trigger] rs@[j]),
                Some(b) => b < i && official_for(v, root@, *g, base@, rs@[b as int]) && forall|j: int|
                    0 <= j < i && official_for(v, root@, *g, base@, #[trigger] rs@[j]) ==> !store::later(
                        rs@[j],
                        rs@[b as int],
                    ),
            },
        decreases rs@.len() - i,
    {
        let r = &rs[i];
        let hit = is_official_for(v, root, g, base, r);
        proof {
            json::lemma_seq_lt_irreflexive(r.id@);
        }
        if !hit {
            assert forall|j: int| 0 <= j < i + 1 && best is None implies !official_for(v, root@, *g, base@, #[trigger] rs@[j]) by {
                if j == i {
                    assert(rs@[j] == *r);
                }
            }
        } else {
            match best {
                None => {
                    assert forall|j: int|
                        0 <= j < i + 1 && official_for(v, root@, *g, base@, #[trigger] rs@[j])
                            implies !store::later(rs@[j], rs@[i as int]) by {
                        if j == i {
                            assert(rs@[j] == *r);
                        }
                    }
                    best = Some(i);
                },
                Some(b) => {
                    let cur = &rs[b];
                    let newer = r.seq > cur.seq || (r.seq == cur.seq && json::str_lt(cur.id.as_str(), r.id.as_str()));
                    if newer {
                        proof {
                            assert forall|j: int|
                                0 <= j < i + 1 && official_for(v, root@, *g, base@, #[trigger] rs@[j])
                                    implies !store::later(rs@[j], rs@[i as int]) by {
                                if j < i && store::later(rs@[j], rs@[i as int]) {
                                    store::lemma_later_trans(rs@[j], rs@[i as int], rs@[b as int]);
                                }
                                if j == i {
                                    assert(rs@[j] == *r);
                                }
                            }
                        }
                        best = Some(i);
                    }
                },
            }
        }
        i += 1;
    }
    match best {
        Some(b) => Some(b),
        None => {
            proof {
                if has_official(v, root@, *g, base@) {
                    let j = choose|j: int| 0 <= j < v.records@.len() && official_for(v, root@, *g, base@, #[trigger] v.records@[j]);
                    assert(!official_for(v, root@, *g, base@, rs@[j]));
                }
            }
            None
        },
    }
}

fn is_successor(r: &StoredRecord, base: &str, effective: &Option<String>) -> (b: bool)
    ensures
        b == successor_of(*r, base@, opt_view(*effective)),
{
    match &r.data {
        RecordData::Baseline(c) => {
            let sup = match &c.supersedes {
                Some(x) => text::str_eq(x.as_str(), base),
                None => false,
            };
            sup && match util::utc_key(c.effective_from.as_str()) {
                Some(k) => match effective {
                    None => true,
                    Some(cut) => !json::str_lt(cut.as_str(), k.as_str()),
                },
                None => false,
            }
        },
        _ => false,
    }
}

/// The baseline that supersedes `base` at the cut, latest first.
fn superseded_by(v: &KnownView, base: &str) -> (r: Option<usize>)
    ensures
        match r {
            Some(k) => {
                &&& k < v.records@.len()
                &&& successor_of(v.records@[k as int], base@, opt_view(v.effective))
                &&& forall|j: int|
                    0 <= j < v.records@.len() && successor_of(#[trigger] v.records@[j], base@, opt_view(v.effective))
                        ==> !baseline_before(v.records@[k as int], v.records@[j])
            },
            None => !superseded(v.records@, base@, opt_view(v.effective)),
        },
{
    let rs = &v.records;
    let ghost eff = opt_view(v.effective);
    let mut best: Option<usize> = None;
    let mut i: usize = 0;
    while i < rs.len()
        invariant
            0 <= i <= rs@.len(),
            rs@ == v.records@,
            eff == opt_view(v.effective),
            match best {
                None => forall|j: int| 0 <= j < i ==> !successor_of(#[trigger] rs@[j], base@, eff),
                Some(b) => b < i && successor_of(rs@[b as int], base@, eff) && forall|j: int|
                    0 <= j < i && successor_of(#[trigger] rs@[j], base@, eff) ==> !baseline_before(
                        rs@[b as int],
                        rs@[j],
                    ),
            },
        decreases rs@.len() - i,
    {
        let r = &rs[i];
        let hit = is_successor(r, base, &v.effective);
        proof {
            json::lemma_seq_lt_irreflexive(r.id@);
            json::lemma_seq_lt_irreflexive(baseline_key(*r));
        }
        if !hit {
            assert forall|j: int| 0 <= j < i + 1 && best is None implies !successor_of(#[trigger] rs@[j], base@, eff) by {
                if j == i {
                    assert(rs@[j] == *r);
                }
            }
        } else {
            match best {
                None => {
                    assert forall|j: int|
                        0 <= j < i + 1 && successor_of(#[trigger] rs@[j], base@, eff)
                            implies !baseline_before(rs@[i as int], rs@[j]) by {
                        if j == i {
                            assert(rs@[j] == *r);
                        }
                    }
                    best = Some(i);
                },
                Some(b) => {
                    let cur = &rs[b];
                    let kr = baseline_key_of(r);
                    let kb = baseline_key_of(cur);
                    let newer = json::str_lt(kb.as_str(), kr.as_str()) || (text::str_eq(kb.as_str(), kr.as_str())
                        && (r.seq > cur.seq || (r.seq == cur.seq && json::str_lt(cur.id.as_str(), r.id.as_str()))));
                    assert(newer == baseline_before(*cur, *r));
                    if newer {
                        proof {
                            assert forall|j: int|
                                0 <= j < i + 1 && successor_of(#[trigger] rs@[j], base@, eff)
                                    implies !baseline_before(rs@[i as int], rs@[j]) by {
                                if j < i && baseline_before(rs@[i as int], rs@[j]) {
                                    lemma_baseline_before_trans(rs@[b as int], rs@[i as int], rs@[j]);
                                }
                                if j == i {
                                    assert(rs@[j] == *r);
                                }
                            }
                        }
                        best = Some(i);
                    } else {
                        proof {
                            json::lemma_seq_lt_total(baseline_key(*cur), baseline_key(*r));
                            json::lemma_seq_lt_total(cur.id@, r.id@);
                            assert forall|j: int|
                                0 <= j < i + 1 && successor_of(#[trigger] rs@[j], base@, eff)
                                    implies !baseline_before(rs@[b as int], rs@[j]) by {
                                if j == i {
                                    assert(rs@[j] == *r);
                                }
                            }
                        }
                    }
                },
            }
        }
        i += 1;
    }
    match best {
        Some(b) => Some(b),
        None => {
            proof {
                if superseded(v.records@, base@, eff) {
                    let j = choose|j: int| 0 <= j < v.records@.len() && successor_of(#[trigger] v.records@[j], base@, eff);
                    assert(!successor_of(rs@[j], base@, eff));
                }
            }
            None
        },
    }
}

fn baseline_key_of(r: &StoredRecord) -> (k: String)
    ensures
        k@ == baseline_key(*r),
{
    match &r.data {
        RecordData::Baseline(b) => match util::utc_key(b.effective_from.as_str()) {
            Some(k) => k,
            None => String::new(),
        },
        _ => String::new(),
    }
}


fn in_effect(r: &StoredRecord, goal: &str, effective: &Option<String>) -> (b: bool)
    ensures
        b == baseline_in_effect(*r, goal@, opt_view(*effective)),
{
    match &r.data {
        RecordData::Baseline(c) => text::str_eq(c.goal_id.as_str(), goal) && match util::utc_key(
            c.effective_from.as_str(),
        ) {
            Some(k) => match effective {
                None => true,
                Some(cut) => !json::str_lt(cut.as_str(), k.as_str()),
            },
            None => false,
        },
        _ => false,
    }
}

/// The verdict a goal shows, with the required-criteria statuses behind it.
pub fn goal_gate_status(v: &KnownView, root: &str, g: &GoalData, goal: &str) -> (r: (Gate, Vec<RequiredStatus>))
    ensures
        goal_gate(v, root@, *g, goal@, r.0),
        r.0 == gate_of(statuses(r.1@)) || r.1@.len() == 0,
{
    if !goal_in_snapshot(v, root, g) {
        return (Gate::Unknown, Vec::new());
    }
    let rs = &v.records;
    let mut best: Option<(usize, usize)> = None;
    let mut i: usize = 0;
    while i < rs.len()
        invariant
            0 <= i <= rs@.len(),
            rs@ == v.records@,
            match best {
                None => forall|j: int| 0 <= j < i ==> !gate_candidate(v, root@, *g, goal@, #[trigger] rs@[j]),
                Some((b, a)) => {
                    &&& b < i
                    &&& gate_candidate(v, root@, *g, goal@, rs@[b as int])
                    &&& latest_official(v, root@, *g, rs@[b as int].id@, a as int)
                    &&& forall|j: int|
                        0 <= j < i && gate_candidate(v, root@, *g, goal@, #[trigger] rs@[j]) ==> !baseline_before(
                            rs@[b as int],
                            rs@[j],
                        )
                },
            },
        decreases rs@.len() - i,
    {
        let r = &rs[i];
        let mut chosen: Option<usize> = None;
        if in_effect(r, goal, &v.effective) {
            if superseded_by(v, r.id.as_str()).is_none() {
                chosen = official_assessment(v, root, g, r.id.as_str());
            }
        }
        proof {
            json::lemma_seq_lt_irreflexive(r.id@);
            json::lemma_seq_lt_irreflexive(baseline_key(*r));
            assert(rs@[i as int] == *r);
            if chosen is None && baseline_in_effect(*r, goal@, opt_view(v.effective)) && !superseded(v.records@, r.id@, opt_view(v.effective)) {
                assert(!has_official(v, root@, *g, r.id@));
            }
            assert(chosen is Some <==> gate_candidate(v, root@, *g, goal@, *r));
        }
        match chosen {
            None => {},
            Some(a) => {
                match best {
                    None => {
                        best = Some((i, a));
                    },
                    Some((b, ab)) => {
                        let cur = &rs[b];
                        let kr = baseline_key_of(r);
                        let kb = baseline_key_of(cur);
                        let newer = json::str_lt(kb.as_str(), kr.as_str()) || (text::str_eq(kb.as_str(), kr.as_str())
                            && (r.seq > cur.seq || (r.seq == cur.seq && json::str_lt(cur.id.as_str(), r.id.as_str()))));
                        assert(newer == baseline_before(*cur, *r));
                        if newer {
                            proof {
                                assert forall|j: int|
                                    0 <= j < i + 1 && gate_candidate(v, root@, *g, goal@, #[trigger] rs@[j])
                                        implies !baseline_before(rs@[i as int], rs@[j]) by {
                                    if j < i && baseline_before(rs@[i as int], rs@[j]) {
                                        lemma_baseline_before_trans(rs@[b as int], rs@[i as int], rs@[j]);
                                    }
                                }
                            }
                            best = Some((i, a));
                        } else {
                            proof {
                                json::lemma_seq_lt_total(baseline_key(*cur), baseline_key(*r));
                                json::lemma_seq_lt_total(cur.id@, r.id@);
                            }
                        }
                    },
                }
            },
        }
        i += 1;
    }
    match best {
        None => {
            proof {
                if exists|b: int| 0 <= b < v.records@.len() && gate_candidate(v, root@, *g, goal@, #[trigger] v.records@[b]) {
                    let b = choose|b: int| 0 <= b < v.records@.len() && gate_candidate(v, root@, *g, goal@, #[trigger] v.records@[b]);
                    assert(!gate_candidate(v, root@, *g, goal@, rs@[b]));
                }
            }
            (Gate::Unknown, Vec::new())
        },
        Some((b, a)) => {
            let bd = match &rs[b].data {
                RecordData::Baseline(x) => x,
                _ => {
                    proof {
                        assert(false);
                    }
                    return (Gate::Unknown, Vec::new());
                },
            };
            let ad = match &rs[a].data {
                RecordData::Assessment(x) => x,
                _ => {
                    proof {
                        assert(false);
                    }
                    return (Gate::Unknown, Vec::new());
                },
            };
            let req = required_criteria_status(g, bd, ad);
            let gate = gate_status(&req);
            proof {
                assert(gate_candidate(v, root@, *g, goal@, v.records@[b as int]));
                assert(latest_official(v, root@, *g, v.records@[b as int].id@, a as int));
            }
            (gate, req)
        },
    }
}


// ---------------------------------------------------------------- goal report

/// An assessment as a goal projection shows it.
#[derive(Debug)]
pub struct AssessmentRow {
    pub assessment_id: String,
    pub status: JudgeStatus,
    pub gate_status: Gate,
    pub evaluator: String,
    pub rubric_version: String,
    pub recorded_at: String,
    pub evidence_cutoff_seq: i64,
    pub criteria_results: Vec<CriterionResult>,
    pub required_criteria_status: Vec<RequiredStatus>,
}

/// Why an assessment no longer judges its goal's use site.
#[derive(Clone, Copy, Debug, PartialEq, Eq, Structural)]
pub enum StaleReason {
    RootNotInSnapshot,
    TargetChanged,
}

#[derive(Debug)]
pub struct StaleAssessment {
    pub assessment_id: String,
    pub goal_id: String,
    pub baseline_id: String,
    pub reason: StaleReason,
    pub status: JudgeStatus,
    pub recorded_at: String,
}

#[derive(Debug)]
pub struct BaselineRow {
    pub baseline_id: String,
    pub effective_from: String,
    pub supersedes: Option<String>,
    pub criterion_ids: Vec<String>,
    pub official_assessment: Option<AssessmentRow>,
    pub superseded_by: Option<String>,
    pub proposed_assessments: Vec<AssessmentRow>,
}

#[derive(Debug)]
pub struct GoalRow {
    pub goal_id: String,
    pub statement: String,
    pub origin: ProposalOrigin,
    pub slot_path: Vec<String>,
    pub target_revision_id: String,
    pub in_current_snapshot: bool,
    pub origin_project_id: String,
    pub criteria: Vec<Criterion>,
    pub baselines: Vec<BaselineRow>,
    pub gate_status: Gate,
    pub required_criteria_status: Vec<RequiredStatus>,
}

#[derive(Debug)]
pub struct ProposedGoal {
    pub goal_id: String,
    pub statement: String,
    pub origin: ProposalOrigin,
}

/// A use site in the snapshot that no goal scopes.
#[derive(Debug)]
pub struct MissingGoal {
    pub slot_path: Vec<String>,
    pub revision_id: String,
    pub entity_id: String,
    pub entity_kind: String,
}

#[derive(Debug)]
pub struct GoalsReport {
    pub project_id: String,
    pub stage: Stage,
    pub known_seq: i64,
    pub root_revision_id: Option<String>,
    pub goals: Vec<GoalRow>,
    pub stale_assessments: Vec<StaleAssessment>,
    pub missing_goal_occurrences: Vec<MissingGoal>,
    pub proposed_goals: Vec<ProposedGoal>,
    pub truncated: bool,
}

/// A goal record of `project` with the given origin.
pub open spec fn goal_of(r: StoredRecord, project: Seq<char>, origin: ProposalOrigin) -> bool {
    r.data matches RecordData::Goal(g) && g.project_id@ == project && g.origin == origin
}

/// The goals of `project` with `origin`, in record order.
pub open spec fn goals_with(rs: Seq<StoredRecord>, project: Seq<char>, origin: ProposalOrigin) -> Seq<StoredRecord> {
    rs.filter(|r: StoredRecord| goal_of(r, project, origin))
}

/// Whether `x` comes strictly before `y`: by commit order `(seq, id)`, or,
/// in baseline order, first by the canonical `effective_from` key.
pub open spec fn rec_before(x: StoredRecord, y: StoredRecord, by_baseline: bool) -> bool {
    let commit = x.seq < y.seq || (x.seq == y.seq && json::seq_lt(x.id@, y.id@));
    if by_baseline {
        json::seq_lt(baseline_key(x), baseline_key(y)) || (baseline_key(x) == baseline_key(y)
            && commit)
    } else {
        commit
    }
}

proof fn lemma_rec_before_irreflexive(x: StoredRecord, by_baseline: bool)
    ensures
        !rec_before(x, x, by_baseline),
{
    json::lemma_seq_lt_irreflexive(x.id@);
    json::lemma_seq_lt_irreflexive(baseline_key(x));
}

proof fn lemma_rec_before_trans(x: StoredRecord, y: StoredRecord, z: StoredRecord, by_baseline: bool)
    requires
        rec_before(x, y, by_baseline),
        rec_before(y, z, by_baseline),
    ensures
        rec_before(x, z, by_baseline),
{
    if json::seq_lt(x.id@, y.id@) && json::seq_lt(y.id@, z.id@) {
        json::lemma_seq_lt_trans(x.id@, y.id@, z.id@);
    }
    let (kx, ky, kz) = (baseline_key(x), baseline_key(y), baseline_key(z));
    if json::seq_lt(kx, ky) && json::seq_lt(ky, kz) {
        json::lemma_seq_lt_trans(kx, ky, kz);
    }
}

fn record_order_before(rs: &Vec<StoredRecord>, a: usize, b: usize, by_baseline: bool) -> (r: bool)
    requires
        a < rs@.len(),
        b < rs@.len(),
    ensures
        r == rec_before(rs@[a as int], rs@[b as int], by_baseline),
{
    let x = &rs[a];
    let y = &rs[b];
    if by_baseline {
        let kx = baseline_key_of(x);
        let ky = baseline_key_of(y);
        if json::str_lt(kx.as_str(), ky.as_str()) {
            return true;
        }
        if !text::str_eq(kx.as_str(), ky.as_str()) {
            return false;
        }
    }
    x.seq < y.seq || (x.seq == y.seq && json::str_lt(x.id.as_str(), y.id.as_str()))
}

/// No index of `out` names a record that comes before one named earlier.
#[verifier::opaque]
pub open spec fn in_order(rs: Seq<StoredRecord>, out: Seq<usize>, by_baseline: bool) -> bool {
    forall|i: int, j: int|
        0 <= i < j < out.len() ==> !rec_before(
            rs[#[trigger] out[j] as int],
            rs[#[trigger] out[i] as int],
            by_baseline,
        )
}

/// Order indices of records ascending: by commit order, or by baseline order.
fn sort_records(rs: &Vec<StoredRecord>, idx: Vec<usize>, by_baseline: bool) -> (out: Vec<usize>)
    requires
        forall|i: int| 0 <= i < idx@.len() ==> idx@[i] < rs@.len(),
    ensures
        out@.len() == idx@.len(),
        forall|i: int| 0 <= i < out@.len() ==> idx@.contains(#[trigger] out@[i]),
        forall|i: int| 0 <= i < idx@.len() ==> out@.contains(#[trigger] idx@[i]),
        in_order(rs@, out@, by_baseline),
{
    let mut out: Vec<usize> = Vec::new();
    let mut k: usize = 0;
    while k < idx.len()
        invariant
            0 <= k <= idx@.len(),
            forall|i: int| 0 <= i < idx@.len() ==> idx@[i] < rs@.len(),
            out@.len() == k,
            forall|i: int| 0 <= i < out@.len() ==> idx@.contains(#[trigger] out@[i]),
            forall|i: int| 0 <= i < k ==> out@.contains(#[trigger] idx@[i]),
            forall|i: int, j: int|
                0 <= i < j < out@.len() ==> !rec_before(
                    rs@[#[trigger] out@[j] as int],
                    rs@[#[trigger] out@[i] as int],
                    by_baseline,
                ),
        decreases idx@.len() - k,
    {
        let x = idx[k];
        let mut p: usize = 0;
        while p < out.len()
            invariant
                0 <= p <= out@.len(),
                x < rs@.len(),
                forall|i: int| 0 <= i < out@.len() ==> idx@.contains(#[trigger] out@[i]),
                forall|i: int| 0 <= i < idx@.len() ==> idx@[i] < rs@.len(),
                forall|i: int| 0 <= i < p ==> !rec_before(rs@[x as int], rs@[#[trigger] out@[i] as int], by_baseline),
            ensures
                0 <= p <= out@.len(),
                forall|i: int| 0 <= i < p ==> !rec_before(rs@[x as int], rs@[#[trigger] out@[i] as int], by_baseline),
                p < out@.len() ==> rec_before(rs@[x as int], rs@[out@[p as int] as int], by_baseline),
            decreases out@.len() - p,
        {
            assert(idx@.contains(out@[p as int]));
            if record_order_before(rs, x, out[p], by_baseline) {
                break;
            }
            p += 1;
        }
        let ghost before = out@;
        out.insert(p, x);
        proof {
            assert(idx@[k as int] == x);
            assert forall|i: int, j: int|
                0 <= i < j < out@.len() implies !rec_before(
                    rs@[#[trigger] out@[j] as int],
                    rs@[#[trigger] out@[i] as int],
                    by_baseline,
                ) by {
                if j < p {
                    assert(out@[i] == before[i] && out@[j] == before[j]);
                } else if j == p {
                    assert(out@[i] == before[i] && out@[j] == x);
                } else if i < p {
                    assert(out@[i] == before[i] && out@[j] == before[j - 1]);
                } else if i == p {
                    assert(out@[i] == x && out@[j] == before[j - 1]);
                    let y = rs@[before[j - 1] as int];
                    let q = rs@[before[p as int] as int];
                    if rec_before(y, rs@[x as int], by_baseline) {
                        lemma_rec_before_trans(y, rs@[x as int], q, by_baseline);
                        if j - 1 == p {
                            lemma_rec_before_irreflexive(q, by_baseline);
                        } else {
                            assert(!rec_before(rs@[before[j - 1] as int], rs@[before[p as int] as int], by_baseline));
                        }
                    }
                } else {
                    assert(out@[i] == before[i - 1] && out@[j] == before[j - 1]);
                }
            }
            assert forall|i: int| 0 <= i < k + 1 implies out@.contains(#[trigger] idx@[i]) by {
                if i == k {
                    assert(out@[p as int] == x);
                } else {
                    let m = choose|m: int| 0 <= m < before.len() && before[m] == idx@[i];
                    if m < p {
                        assert(out@[m] == before[m]);
                    } else {
                        assert(out@[m + 1] == before[m]);
                    }
                }
            }
            assert forall|i: int| 0 <= i < out@.len() implies idx@.contains(#[trigger] out@[i]) by {
                if i < p {
                    assert(out@[i] == before[i]);
                } else if i == p {
                    assert(out@[i] == x);
                } else {
                    assert(out@[i] == before[i - 1]);
                }
            }
        }
        k += 1;
    }
    proof {
        reveal(in_order);
    }
    out
}

fn copy_results(v: &Vec<CriterionResult>) -> (r: Vec<CriterionResult>)
    ensures
        r@.len() == v@.len(),
        forall|i: int| 0 <= i < r@.len() ==> (#[trigger] r@[i]).same_as(&v@[i]),
{
    let mut out: Vec<CriterionResult> = Vec::new();
    let mut i: usize = 0;
    while i < v.len()
        invariant
            0 <= i <= v@.len(),
            out@.len() == i,
            forall|k: int| 0 <= k < i ==> (#[trigger] out@[k]).same_as(&v@[k]),
        decreases v@.len() - i,
    {
        out.push(v[i].clone());
        i += 1;
    }
    out
}

fn copy_criteria(v: &Vec<Criterion>) -> (r: Vec<Criterion>)
    ensures
        r@.len() == v@.len(),
        forall|i: int| 0 <= i < r@.len() ==> (#[trigger] r@[i]).same_as(&v@[i]),
{
    let mut out: Vec<Criterion> = Vec::new();
    let mut i: usize = 0;
    while i < v.len()
        invariant
            0 <= i <= v@.len(),
            out@.len() == i,
            forall|k: int| 0 <= k < i ==> (#[trigger] out@[k]).same_as(&v@[k]),
        decreases v@.len() - i,
    {
        out.push(v[i].clone());
        i += 1;
    }
    out
}

/// A baseline row names a baseline of the goal in effect at the cut.
pub open spec fn row_backed(v: &KnownView, goal: Seq<char>, row: BaselineRow) -> bool {
    exists|j: int|
        0 <= j < v.records@.len() && (#[trigger] v.records@[j]).id == row.baseline_id
            && baseline_in_effect(v.records@[j], goal, opt_view(v.effective))
}

/// Some row is for the baseline `id`.
#[verifier::opaque]
pub open spec fn has_row(rows: Seq<BaselineRow>, id: Seq<char>) -> bool {
    exists|k: int| 0 <= k < rows.len() && (#[trigger] rows[k]).baseline_id@ == id
}

/// Positions of the baselines of `goal` in effect at the cut.
fn pick_baselines(rs: &Vec<StoredRecord>, goal_id: &str, effective: &Option<String>) -> (picked: Vec<usize>)
    ensures
        forall|j: int|
            0 <= j < rs@.len() && baseline_in_effect(#[trigger] rs@[j], goal_id@, opt_view(*effective))
                ==> picked@.contains(j as usize),
        forall|k: int|
            0 <= k < picked@.len() ==> (#[trigger] picked@[k]) < rs@.len() && baseline_in_effect(
                rs@[picked@[k] as int],
                goal_id@,
                opt_view(*effective),
            ),
{
    let mut picked: Vec<usize> = Vec::new();
    let mut i: usize = 0;
    while i < rs.len()
        invariant
            0 <= i <= rs@.len(),
            forall|j: int|
                0 <= j < i && baseline_in_effect(#[trigger] rs@[j], goal_id@, opt_view(*effective))
                    ==> picked@.contains(j as usize),
            forall|k: int|
                0 <= k < picked@.len() ==> (#[trigger] picked@[k]) < rs@.len() && baseline_in_effect(
                    rs@[picked@[k] as int],
                    goal_id@,
                    opt_view(*effective),
                ),
        decreases rs@.len() - i,
    {
        let ghost before = picked@;
        if in_effect(&rs[i], goal_id, effective) {
            picked.push(i);
            proof {
                assert(picked@[before.len() as int] == i);
                assert forall|x: usize| before.contains(x) implies picked@.contains(x) by {
                    let t = choose|t: int| 0 <= t < before.len() && before[t] == x;
                    assert(picked@[t] == x);
                }
            }
        }
        i += 1;
    }
    picked
}

/// The baselines of one goal, in baseline order, with their assessments;
/// assessments that no longer judge the goal's use site go to `stale`.
fn baseline_rows(
    v: &KnownView,
    root: &str,
    goal_id: &str,
    g: &GoalData,
) -> (r: (Vec<BaselineRow>, Vec<StaleAssessment>))
    ensures
        forall|k: int| 0 <= k < r.0@.len() ==> row_backed(v, goal_id@, #[trigger] r.0@[k]),
        forall|j: int|
            0 <= j < v.records@.len() && baseline_in_effect(#[trigger] v.records@[j], goal_id@, opt_view(v.effective))
                ==> has_row(r.0@, v.records@[j].id@),
{
    let mut stale: Vec<StaleAssessment> = Vec::new();
    let rs = &v.records;
    let picked = pick_baselines(rs, goal_id, &v.effective);
    let ghost picked_v = picked@;
    let ordered = sort_records(rs, picked, true);
    proof {
        assert forall|k: int| 0 <= k < ordered@.len() implies (#[trigger] ordered@[k]) < rs@.len() && baseline_in_effect(
            rs@[ordered@[k] as int],
            goal_id@,
            opt_view(v.effective),
        ) by {
            assert(picked_v.contains(ordered@[k]));
            let t = choose|t: int| 0 <= t < picked_v.len() && picked_v[t] == ordered@[k];
        }
    }
    let mut out: Vec<BaselineRow> = Vec::new();
    let mut n: usize = 0;
    while n < ordered.len()
        invariant
            0 <= n <= ordered@.len(),
            rs@ == v.records@,
            forall|k: int|
                0 <= k < ordered@.len() ==> (#[trigger] ordered@[k]) < rs@.len() && baseline_in_effect(
                    rs@[ordered@[k] as int],
                    goal_id@,
                    opt_view(v.effective),
                ),
            forall|k: int| 0 <= k < out@.len() ==> row_backed(v, goal_id@, #[trigger] out@[k]),
            out@.len() == n,
            forall|k: int| 0 <= k < n ==> (#[trigger] out@[k]).baseline_id@ == rs@[ordered@[k] as int].id@,
        decreases ordered@.len() - n,
    {
        let bi = ordered[n];
        let br = &rs[bi];
        assert(baseline_in_effect(rs@[bi as int], goal_id@, opt_view(v.effective)));
        let bd = match &br.data {
            RecordData::Baseline(x) => x,
            _ => {
                assert(false);
                n += 1;
                continue;
            },
        };
        let mut mine: Vec<usize> = Vec::new();
        let mut j: usize = 0;
        while j < rs.len()
            invariant
                0 <= j <= rs@.len(),
                rs@ == v.records@,
                forall|k: int| 0 <= k < mine@.len() ==> (#[trigger] mine@[k]) < rs@.len(),
            decreases rs@.len() - j,
        {
            match &rs[j].data {
                RecordData::Assessment(a) => if text::str_eq(a.baseline_id.as_str(), br.id.as_str()) {
                    mine.push(j);
                },
                _ => {},
            }
            j += 1;
        }
        let ghost mine_v = mine@;
        let ordered_a = sort_records(rs, mine, false);
        proof {
            assert forall|k: int| 0 <= k < ordered_a@.len() implies (#[trigger] ordered_a@[k]) < rs@.len() by {
                assert(mine_v.contains(ordered_a@[k]));
                let t = choose|t: int| 0 <= t < mine_v.len() && mine_v[t] == ordered_a@[k];
            }
        }
        let mut official: Option<AssessmentRow> = None;
        let mut proposed: Vec<AssessmentRow> = Vec::new();
        let mut m: usize = 0;
        while m < ordered_a.len()
            invariant
                0 <= m <= ordered_a@.len(),
                rs@ == v.records@,
                forall|k: int| 0 <= k < ordered_a@.len() ==> (#[trigger] ordered_a@[k]) < rs@.len(),
            decreases ordered_a@.len() - m,
        {
            let ar = &rs[ordered_a[m]];
            match &ar.data {
                RecordData::Assessment(a) => {
                    if assessment_visible(v, a) {
                        if !scope_judged(v, root, g, a) {
                            let reason = if !text::str_eq(a.root_revision_id.as_str(), root) {
                                StaleReason::RootNotInSnapshot
                            } else {
                                StaleReason::TargetChanged
                            };
                            stale.push(
                                StaleAssessment {
                                    assessment_id: ar.id.clone(),
                                    goal_id: text::owned(goal_id),
                                    baseline_id: br.id.clone(),
                                    reason,
                                    status: a.status,
                                    recorded_at: ar.recorded_at.clone(),
                                },
                            );
                        } else {
                            let required = required_criteria_status(g, bd, a);
                            let gate = gate_status(&required);
                            let row = AssessmentRow {
                                assessment_id: ar.id.clone(),
                                status: a.status,
                                gate_status: gate,
                                evaluator: a.evaluator.clone(),
                                rubric_version: a.rubric_version.clone(),
                                recorded_at: ar.recorded_at.clone(),
                                evidence_cutoff_seq: a.evidence_cutoff_seq,
                                criteria_results: copy_results(&a.criteria_results),
                                required_criteria_status: required,
                            };
                            if a.origin == ProposalOrigin::Official {
                                official = Some(row);
                            } else {
                                proposed.push(row);
                            }
                        }
                    }
                },
                _ => {},
            }
            m += 1;
        }
        let successor = match superseded_by(v, br.id.as_str()) {
            Some(k) => Some(rs[k].id.clone()),
            None => None,
        };
        let row = BaselineRow {
            baseline_id: br.id.clone(),
            effective_from: bd.effective_from.clone(),
            supersedes: bd.supersedes.clone(),
            criterion_ids: copy_strings(&bd.criterion_ids),
            official_assessment: official,
            superseded_by: successor,
            proposed_assessments: proposed,
        };
        proof {
            assert(v.records@[bi as int].id == row.baseline_id);
            assert(row_backed(v, goal_id@, row));
        }
        let ghost before = out@;
        out.push(row);
        proof {
            assert forall|k: int| 0 <= k < out@.len() implies row_backed(v, goal_id@, #[trigger] out@[k]) by {
                if k < before.len() {
                    assert(out@[k] == before[k]);
                }
            }
            assert forall|k: int| 0 <= k < n + 1 implies (#[trigger] out@[k]).baseline_id@ == rs@[ordered@[k] as int].id@ by {
                if k < before.len() {
                    assert(out@[k] == before[k]);
                }
            }
        }
        n += 1;
    }
    proof {
        assert(rs@.len() == rs.len());
        lemma_rows_complete(v, picked_v, ordered@, out@, goal_id@);
    }
    (out, stale)
}

proof fn lemma_rows_complete(
    v: &KnownView,
    picked: Seq<usize>,
    ordered: Seq<usize>,
    out: Seq<BaselineRow>,
    goal: Seq<char>,
)
    requires
        v.records@.len() <= usize::MAX,
        forall|j: int|
            0 <= j < v.records@.len() && baseline_in_effect(#[trigger] v.records@[j], goal, opt_view(v.effective))
                ==> picked.contains(j as usize),
        forall|i: int| 0 <= i < picked.len() ==> ordered.contains(#[trigger] picked[i]),
        out.len() == ordered.len(),
        forall|k: int| 0 <= k < ordered.len() ==> (#[trigger] out[k]).baseline_id@ == v.records@[ordered[k] as int].id@,
    ensures
        forall|j: int|
            0 <= j < v.records@.len() && baseline_in_effect(#[trigger] v.records@[j], goal, opt_view(v.effective))
                ==> has_row(out, v.records@[j].id@),
{
    reveal(has_row);
    assert forall|j: int|
        0 <= j < v.records@.len() && baseline_in_effect(#[trigger] v.records@[j], goal, opt_view(v.effective))
            implies has_row(out, v.records@[j].id@) by {
        assert(picked.contains(j as usize));
        let t = choose|t: int| 0 <= t < picked.len() && picked[t] == j as usize;
        assert(ordered.contains(picked[t]));
        let k = choose|k: int| 0 <= k < ordered.len() && ordered[k] == j as usize;
        assert(out[k].baseline_id@ == v.records@[ordered[k] as int].id@);
    }
}


/// The goal rows of a report match the official goals of the project, in
/// record order, with the verdict each shows.
pub open spec fn goal_rows_right(v: &KnownView, project: Seq<char>, root: Seq<char>, rows: Seq<GoalRow>) -> bool {
    let gs = goals_with(v.records@, project, ProposalOrigin::Official);
    &&& rows.len() == gs.len()
    &&& forall|i: int|
        0 <= i < rows.len() ==> {
            let gr = gs[i];
            let g = gr.data->Goal_0;
            &&& (#[trigger] rows[i]).goal_id == gr.id
            &&& rows[i].in_current_snapshot == in_snapshot(v, root, g)
            &&& goal_gate(v, root, g, gr.id@, rows[i].gate_status)
            &&& rows[i].origin == ProposalOrigin::Official
            &&& forall|k: int|
                0 <= k < rows[i].baselines@.len() ==> row_backed(v, gr.id@, #[trigger] rows[i].baselines@[k])
        }
}

/// A listed use site is one of the walk's.
pub open spec fn from_walk(walk: &graph::Walk, m: MissingGoal) -> bool {
    exists|k: int|
        0 <= k < walk.occurrences@.len() && (#[trigger] walk.occurrences@[k]).revision_id == m.revision_id
}

/// Some goal row scopes the use site `o`: same target revision, same slot path.
pub open spec fn goal_covers(rows: Seq<GoalRow>, o: graph::Occurrence) -> bool {
    exists|j: int|
        0 <= j < rows.len() && (#[trigger] rows[j]).target_revision_id@ == o.revision_id@
            && views(rows[j].slot_path@) == views(o.slot_path@)
}

/// A use site reported as missing a goal: no row scopes it, and its revision
/// is on record.
pub open spec fn lacks_goal(rs: Seq<StoredRecord>, rows: Seq<GoalRow>, o: graph::Occurrence) -> bool {
    !goal_covers(rows, o) && graph::first_with_id(rs, o.revision_id@) is Some
}

fn missing_goals(v: &KnownView, walk: &graph::Walk, rows: &Vec<GoalRow>) -> (r: Vec<MissingGoal>)
    ensures
        forall|i: int| 0 <= i < r@.len() ==> from_walk(walk, #[trigger] r@[i]),
        r@.len() == walk.occurrences@.filter(|o: graph::Occurrence| lacks_goal(v.records@, rows@, o)).len(),
        forall|i: int|
            0 <= i < r@.len() ==> {
                let o = walk.occurrences@.filter(|o: graph::Occurrence| lacks_goal(v.records@, rows@, o))[i];
                &&& (#[trigger] r@[i]).revision_id@ == o.revision_id@
                &&& r@[i].slot_path@ == o.slot_path@
            },
{
    let ghost f = |o: graph::Occurrence| lacks_goal(v.records@, rows@, o);
    let ghost ws = walk.occurrences@;
    let mut out: Vec<MissingGoal> = Vec::new();
    let mut k: usize = 0;
    assert(ws.take(0).filter(f) =~= Seq::<graph::Occurrence>::empty());
    while k < walk.occurrences.len()
        invariant
            0 <= k <= walk.occurrences@.len(),
            ws == walk.occurrences@,
            f == (|o: graph::Occurrence| lacks_goal(v.records@, rows@, o)),
            forall|i: int| 0 <= i < out@.len() ==> from_walk(walk, #[trigger] out@[i]),
            out@.len() == ws.take(k as int).filter(f).len(),
            forall|i: int|
                0 <= i < out@.len() ==> {
                    &&& (#[trigger] out@[i]).revision_id@ == ws.take(k as int).filter(f)[i].revision_id@
                    &&& out@[i].slot_path@ == ws.take(k as int).filter(f)[i].slot_path@
                },
        decreases walk.occurrences@.len() - k,
    {
        proof {
            assert(ws.take(k + 1) =~= ws.take(k as int).push(ws[k as int]));
            ws.take(k as int).lemma_filter_push(ws[k as int], f);
        }
        let o = &walk.occurrences[k];
        let mut covered = false;
        let mut j: usize = 0;
        while j < rows.len()
            invariant
                0 <= j <= rows@.len(),
                covered == exists|x: int|
                    0 <= x < j && (#[trigger] rows@[x]).target_revision_id@ == o.revision_id@
                        && views(rows@[x].slot_path@) == views(o.slot_path@),
            decreases rows@.len() - j,
        {
            let g = &rows[j];
            if text::str_eq(g.target_revision_id.as_str(), o.revision_id.as_str()) && g.slot_path.len()
                == o.slot_path.len() {
                let mut same = true;
                let mut t: usize = 0;
                while t < g.slot_path.len()
                    invariant
                        0 <= t <= g.slot_path@.len(),
                        g.slot_path@.len() == o.slot_path@.len(),
                        same == forall|y: int| 0 <= y < t ==> (#[trigger] g.slot_path@[y])@ == o.slot_path@[y]@,
                    decreases g.slot_path@.len() - t,
                {
                    if !text::str_eq(g.slot_path[t].as_str(), o.slot_path[t].as_str()) {
                        same = false;
                    }
                    t += 1;
                }
                proof {
                    if same {
                        assert(views(g.slot_path@) =~= views(o.slot_path@));
                    } else {
                        let y = choose|y: int| 0 <= y < t && !((#[trigger] g.slot_path@[y])@ == o.slot_path@[y]@);
                        assert(views(g.slot_path@)[y] != views(o.slot_path@)[y]);
                    }
                }
                if same {
                    covered = true;
                }
            } else {
                proof {
                    if g.target_revision_id@ == o.revision_id@ {
                        assert(views(g.slot_path@).len() != views(o.slot_path@).len());
                    }
                }
            }
            j += 1;
        }
        assert(covered == goal_covers(rows@, *o));
        if !covered {
            match graph::find_record(&v.records, o.revision_id.as_str()) {
                Some(r) => {
                    let (entity_id, entity_kind) = match &r.data {
                        RecordData::Revision(_) => {
                            let who = owner(&v.records, r);
                            (who.entity_id, who.entity_kind)
                        },
                        _ => (o.revision_id.clone(), text::owned("unknown")),
                    };
                    let ghost before = out@;
                    out.push(
                        MissingGoal {
                            slot_path: copy_strings(&o.slot_path),
                            revision_id: o.revision_id.clone(),
                            entity_id,
                            entity_kind,
                        },
                    );
                    proof {
                        assert forall|i: int| 0 <= i < out@.len() implies from_walk(walk, #[trigger] out@[i]) by {
                            if i < before.len() {
                                assert(out@[i] == before[i]);
                            } else {
                                assert(walk.occurrences@[k as int].revision_id == out@[i].revision_id);
                            }
                        }
                        assert(f(ws[k as int]));
                        assert forall|i: int| 0 <= i < out@.len() implies {
                            &&& (#[trigger] out@[i]).revision_id@ == ws.take(k + 1).filter(f)[i].revision_id@
                            &&& out@[i].slot_path@ == ws.take(k + 1).filter(f)[i].slot_path@
                        } by {
                            if i < before.len() {
                                assert(out@[i] == before[i]);
                            }
                        }
                    }
                },
                None => {},
            }
        }
        k += 1;
    }
    assert(ws.take(ws.len() as int) =~= ws);
    out
}

/// The goals of a project under a selected root: each official goal with its
/// baselines, assessments and verdict; proposed goals apart; assessments whose
/// use site moved as stale; and the snapshot's use sites no goal scopes.
pub fn goals_report(v: &KnownView, project: &str, stage: Stage, root: Option<String>, max_nodes: usize) -> (r:
    GoalsReport)
    ensures
        r.project_id@ == project@,
        r.stage == stage,
        r.known_seq == v.known,
        r.root_revision_id == root,
        root is None ==> r.goals@.len() == 0 && r.proposed_goals@.len() == 0
            && r.stale_assessments@.len() == 0 && r.missing_goal_occurrences@.len() == 0 && !r.truncated,
        root matches Some(rt) ==> {
            &&& goal_rows_right(v, project@, rt@, r.goals@)
            &&& r.proposed_goals@.len() == goals_with(v.records@, project@, ProposalOrigin::AiProposed).len()
            &&& forall|i: int|
                0 <= i < r.proposed_goals@.len() ==> (#[trigger] r.proposed_goals@[i]).goal_id == goals_with(
                    v.records@,
                    project@,
                    ProposalOrigin::AiProposed,
                )[i].id
        },
{
    let root_id = match &root {
        None => {
            return GoalsReport {
                project_id: text::owned(project),
                stage,
                known_seq: v.known,
                root_revision_id: None,
                goals: Vec::new(),
                stale_assessments: Vec::new(),
                missing_goal_occurrences: Vec::new(),
                proposed_goals: Vec::new(),
                truncated: false,
            };
        },
        Some(x) => x,
    };
    let walk = graph::walk(&v.records, root_id.as_str(), Limits { max_nodes, max_depth: graph::MAX_DEPTH });
    let rs = &v.records;
    let ghost fo = |r: StoredRecord| goal_of(r, project@, ProposalOrigin::Official);
    let ghost fp = |r: StoredRecord| goal_of(r, project@, ProposalOrigin::AiProposed);
    let mut rows: Vec<GoalRow> = Vec::new();
    let mut proposed: Vec<ProposedGoal> = Vec::new();
    let mut stale: Vec<StaleAssessment> = Vec::new();
    let mut i: usize = 0;
    while i < rs.len()
        invariant
            0 <= i <= rs@.len(),
            rs@ == v.records@,
            fo == (|r: StoredRecord| goal_of(r, project@, ProposalOrigin::Official)),
            fp == (|r: StoredRecord| goal_of(r, project@, ProposalOrigin::AiProposed)),
            goal_rows_right_prefix(v, project@, root_id@, rows@, rs@.take(i as int).filter(fo)),
            proposed@.len() == rs@.take(i as int).filter(fp).len(),
            forall|k: int|
                0 <= k < proposed@.len() ==> (#[trigger] proposed@[k]).goal_id == rs@.take(i as int).filter(fp)[k].id,
        decreases rs@.len() - i,
    {
        let gr = &rs[i];
        proof {
            assert(rs@.take(i + 1) =~= rs@.take(i as int).push(*gr));
            rs@.take(i as int).lemma_filter_push(*gr, fo);
            rs@.take(i as int).lemma_filter_push(*gr, fp);
        }
        match &gr.data {
            RecordData::Goal(g) => {
                if text::str_eq(g.project_id.as_str(), project) {
                    if g.origin == ProposalOrigin::AiProposed {
                        proposed.push(
                            ProposedGoal {
                                goal_id: gr.id.clone(),
                                statement: g.statement.clone(),
                                origin: g.origin,
                            },
                        );
                    } else {
                        let exact = goal_in_snapshot(v, root_id.as_str(), g);
                        let (bases, mut gone) = baseline_rows(v, root_id.as_str(), gr.id.as_str(), g);
                        stale.append(&mut gone);
                        let (gate, required) = if exact {
                            goal_gate_status(v, root_id.as_str(), g, gr.id.as_str())
                        } else {
                            (Gate::Unknown, Vec::new())
                        };
                        let row = GoalRow {
                            goal_id: gr.id.clone(),
                            statement: g.statement.clone(),
                            origin: g.origin,
                            slot_path: copy_strings(&g.scope.slot_path),
                            target_revision_id: g.scope.target_revision_id.clone(),
                            in_current_snapshot: exact,
                            origin_project_id: g.project_id.clone(),
                            criteria: copy_criteria(&g.criteria),
                            baselines: bases,
                            gate_status: gate,
                            required_criteria_status: required,
                        };
                        let ghost before = rows@;
                        rows.push(row);
                        proof {
                            lemma_rows_prefix_push(v, project@, root_id@, before, row, rs@.take(i as int).filter(fo), *gr);
                        }
                    }
                }
            },
            _ => {},
        }
        i += 1;
    }
    proof {
        assert(rs@.take(rs@.len() as int) =~= rs@);
    }
    let missing = missing_goals(v, &walk, &rows);
    GoalsReport {
        project_id: text::owned(project),
        stage,
        known_seq: v.known,
        root_revision_id: root,
        goals: rows,
        stale_assessments: stale,
        missing_goal_occurrences: missing,
        proposed_goals: proposed,
        truncated: walk.truncated,
    }
}

pub open spec fn goal_row_right(v: &KnownView, root: Seq<char>, gr: StoredRecord, row: GoalRow) -> bool {
    let g = gr.data->Goal_0;
    &&& row.goal_id == gr.id
    &&& row.in_current_snapshot == in_snapshot(v, root, g)
    &&& goal_gate(v, root, g, gr.id@, row.gate_status)
    &&& row.origin == ProposalOrigin::Official
    &&& forall|k: int| 0 <= k < row.baselines@.len() ==> row_backed(v, gr.id@, #[trigger] row.baselines@[k])
}

pub open spec fn goal_rows_right_prefix(
    v: &KnownView,
    project: Seq<char>,
    root: Seq<char>,
    rows: Seq<GoalRow>,
    gs: Seq<StoredRecord>,
) -> bool {
    &&& rows.len() == gs.len()
    &&& forall|i: int| 0 <= i < rows.len() ==> goal_row_right(v, root, gs[i], #[trigger] rows[i])
}

proof fn lemma_rows_prefix_push(
    v: &KnownView,
    project: Seq<char>,
    root: Seq<char>,
    rows: Seq<GoalRow>,
    row: GoalRow,
    gs: Seq<StoredRecord>,
    gr: StoredRecord,
)
    requires
        goal_rows_right_prefix(v, project, root, rows, gs),
        goal_row_right(v, root, gr, row),
    ensures
        goal_rows_right_prefix(v, project, root, rows.push(row), gs.push(gr)),
{
    assert forall|i: int| 0 <= i < rows.len() + 1 implies goal_row_right(v, root, gs.push(gr)[i], #[trigger] rows.push(row)[i]) by {
        if i < rows.len() {
            assert(rows.push(row)[i] == rows[i]);
            assert(gs.push(gr)[i] == gs[i]);
        }
    }
}


/// The required `project_id` parameter.
pub fn project_param(p: &Vec<(String, String)>) -> (r: Result<&String, ApiError>)
    ensures
        match param_of(p@, "project_id"@) {
            Some(x) => r == Ok::<&String, ApiError>(&x),
            None => r matches Err(e) && e.code == "bad_request",
        },
{
    match param(p, "project_id") {
        Some(x) => Ok(x),
        None => Err(ApiError::bad_request(text::owned("project_id is required"))),
    }
}

pub open spec fn known_params(p: Seq<(String, String)>, allowed: Seq<&str>) -> bool {
    forall|i: int| 0 <= i < p.len() ==> listed_in(allowed, (#[trigger] p[i]).0@)
}

/// A view as [`view`] answers it for the parameters `p`.
pub open spec fn view_of(ctx: &Context, p: Seq<(String, String)>, v: KnownView) -> bool {
    &&& selected_known(ctx, p) matches Some(known)
    &&& v.known == known
    &&& v.records@.len() == known_records(ctx.records@, known).len()
    &&& forall|i: int|
        0 <= i < v.records@.len() ==> (#[trigger] v.records@[i]).same_as(&known_records(ctx.records@, known)[i])
    &&& opt_view(v.known_at) == match param_of(p, "known_at"@) {
        Some(a) => util::spec_utc_key(a@),
        None => None,
    }
    &&& opt_view(v.effective) == match param_of(p, "effective_at"@) {
        Some(a) => util::spec_utc_key(a@),
        None => None,
    }
}

/// A `stage` that is absent, `working` or `official`.
pub open spec fn stage_ok(p: Seq<(String, String)>) -> bool {
    match param_of(p, "stage"@) {
        None => true,
        Some(v) => v@ == "working"@ || v@ == "official"@,
    }
}

/// The stage the parameters select (working unless `official`).
pub open spec fn stage_of(p: Seq<(String, String)>) -> Stage {
    match param_of(p, "stage"@) {
        Some(v) => if v@ == "official"@ {
            Stage::Official
        } else {
            Stage::Working
        },
        None => Stage::Working,
    }
}

/// The root a projection would start from is not a project-root revision of
/// the project: the caller's `root_revision_id`, or the head of the stage.
pub open spec fn root_refused(v: &KnownView, p: Seq<(String, String)>, project: Seq<char>, stage: Stage) -> bool {
    match param_of(p, "root_revision_id"@) {
        Some(x) => !project_root_of(v.records@, project, x@),
        None => exists|ch: RootChoice|
            head_rel(v, project, stage, Some(ch)) && !project_root_of(v.records@, project, #[trigger] ch.revision_id@),
    }
}

pub open spec fn choice_id(c: Option<RootChoice>) -> Option<String> {
    match c {
        Some(ch) => Some(ch.revision_id),
        None => None,
    }
}

/// The root a projection starts from: the caller's `root_revision_id`, or the
/// head of the stage; either way a project-root revision of the project.
pub open spec fn root_right(v: &KnownView, p: Seq<(String, String)>, project: Seq<char>, stage: Stage, root: Option<String>) -> bool {
    &&& match param_of(p, "root_revision_id"@) {
        Some(x) => root == Some(x),
        None => exists|c: Option<RootChoice>| head_rel(v, project, stage, c) && #[trigger] choice_id(c) == root,
    }
    &&& root matches Some(rt) ==> project_root_of(v.records@, project, rt@)
}

/// The goal report of `project` at the selected root of the view `v`.
pub open spec fn goals_right(v: &KnownView, p: Seq<(String, String)>, project: Seq<char>, rep: GoalsReport) -> bool {
    &&& rep.project_id@ == project
    &&& rep.stage == stage_of(p)
    &&& rep.known_seq == v.known
    &&& root_right(v, p, project, stage_of(p), rep.root_revision_id)
    &&& match rep.root_revision_id {
        None => rep.goals@.len() == 0 && rep.proposed_goals@.len() == 0 && rep.stale_assessments@.len() == 0
            && rep.missing_goal_occurrences@.len() == 0 && !rep.truncated,
        Some(rt) => {
            &&& goal_rows_right(v, project, rt@, rep.goals@)
            &&& rep.proposed_goals@.len() == goals_with(v.records@, project, ProposalOrigin::AiProposed).len()
            &&& forall|i: int|
                0 <= i < rep.proposed_goals@.len() ==> (#[trigger] rep.proposed_goals@[i]).goal_id == goals_with(
                    v.records@,
                    project,
                    ProposalOrigin::AiProposed,
                )[i].id
        },
    }
}

/// `GET /api/goals`: the goal report of a project at a selected root.
pub fn goals(ctx: &Context, p: &Vec<(String, String)>) -> (r: Result<GoalsReport, ApiError>)
    ensures
        !known_params(
            p@,
            seq![
                "project_id",
                "stage",
                "known_seq",
                "known_at",
                "effective_at",
                "root_revision_id",
                "max_nodes",
            ],
        ) ==> r is Err,
        param_of(p@, "project_id"@) is None ==> r is Err,
        selected_known(ctx, p@) is None ==> r is Err,
        r matches Ok(rep) ==> {
            &&& Some(rep.project_id@) == opt_view(param_of(p@, "project_id"@))
            &&& rep.known_seq == selected_known(ctx, p@).unwrap()
            &&& exists|v: KnownView| #[trigger] view_of(ctx, p@, v) && goals_right(&v, p@, rep.project_id@, rep)
        },
        r is Err ==> {
            ||| !known_params(
                p@,
                seq![
                    "project_id",
                    "stage",
                    "known_seq",
                    "known_at",
                    "effective_at",
                    "root_revision_id",
                    "max_nodes",
                ],
            )
            ||| param_of(p@, "project_id"@) is None
            ||| selected_known(ctx, p@) is None
            ||| !stage_ok(p@)
            ||| !count_ok(p@, "max_nodes"@, limits::MAX_SNAPSHOT_NODES as int)
            ||| exists|v: KnownView|
                #[trigger] view_of(ctx, p@, v) && root_refused(&v, p@, param_of(p@, "project_id"@).unwrap()@, stage_of(p@))
        },
        r matches Err(e) ==> e.code == "bad_request",
{
    let allowed: [&str; 7] = [
        "project_id",
        "stage",
        "known_seq",
        "known_at",
        "effective_at",
        "root_revision_id",
        "max_nodes",
    ];
    proof {
        assert(allowed@ =~= seq![
            "project_id",
            "stage",
            "known_seq",
            "known_at",
            "effective_at",
            "root_revision_id",
            "max_nodes",
        ]);
    }
    match check_params(p, &allowed) {
        Ok(()) => {},
        Err(e) => return Err(e),
    }
    let project = match project_param(p) {
        Ok(x) => x,
        Err(e) => return Err(e),
    };
    let v = match view(ctx, p) {
        Ok(v) => v,
        Err(e) => return Err(e),
    };
    assert(view_of(ctx, p@, v));
    proof {
        reveal_strlit("working");
        reveal_strlit("official");
        assert("working"@[0] != "official"@[0]);
    }
    let s = match stage_param(p) {
        Ok(s) => s,
        Err(e) => return Err(e),
    };
    assert(s == stage_of(p@));
    let max = match count_param(p, "max_nodes", limits::DEFAULT_SNAPSHOT_NODES, limits::MAX_SNAPSHOT_NODES) {
        Ok(n) => n,
        Err(e) => return Err(e),
    };
    let root = match selected(&v, p, s, project.as_str()) {
        Ok(c) => c,
        Err(e) => {
            assert(root_refused(&v, p@, project@, s));
            return Err(e);
        },
    };
    let ghost rc = root;
    let root_id = match root {
        Some(c) => Some(c.revision_id),
        None => None,
    };
    assert(choice_id(rc) == root_id);
    let rep = goals_report(&v, project.as_str(), s, root_id, max);
    assert(goals_right(&v, p@, rep.project_id@, rep));
    Ok(rep)
}


// ---------------------------------------------------------------- state

/// How many records of one kind a project has.
#[derive(Debug)]
pub struct KindCount {
    pub kind: RecordKind,
    pub count: usize,
}

/// One project as the state summary shows it.
#[derive(Debug)]
pub struct ProjectSummary {
    pub project_id: String,
    pub title: String,
    pub counts: Vec<KindCount>,
    pub working_head: Option<String>,
    pub working_head_seq: i64,
    pub official_head: Option<String>,
    pub official_publication_id: Option<String>,
    pub publication_count: usize,
}

/// The state summary: every project, and a page of matching records.
#[derive(Debug)]
pub struct StateReport {
    pub seq: i64,
    pub projects: Vec<ProjectSummary>,
    pub records: Vec<StoredRecord>,
    pub total_matched: usize,
    pub truncated: bool,
}

/// The kinds a project summary counts, in the order it lists them.
pub open spec fn counted_kinds() -> Seq<RecordKind> {
    seq![
        RecordKind::Entity,
        RecordKind::Revision,
        RecordKind::Capture,
        RecordKind::Candidate,
        RecordKind::Goal,
        RecordKind::Baseline,
        RecordKind::Assessment,
        RecordKind::Observation,
        RecordKind::Link,
        RecordKind::Artifact,
        RecordKind::Embedding,
        RecordKind::Promotion,
        RecordKind::HeadChange,
        RecordKind::Publication,
    ]
}

/// The records of `kind` that belong to `project`.
pub open spec fn count_of(rs: Seq<StoredRecord>, kind: RecordKind, project: Seq<char>) -> nat {
    rs.filter(|r: StoredRecord| r.kind_of() == kind && belongs(rs, r, project)).len()
}

fn count_kind(rs: &Vec<StoredRecord>, kind: RecordKind, project: &str) -> (n: usize)
    requires
        rs@.len() < usize::MAX,
    ensures
        n == count_of(rs@, kind, project@),
{
    let ghost f = |r: StoredRecord| r.kind_of() == kind && belongs(rs@, r, project@);
    let mut n: usize = 0;
    let mut i: usize = 0;
    while i < rs.len()
        invariant
            0 <= i <= rs@.len(),
            rs@.len() < usize::MAX,
            f == (|r: StoredRecord| r.kind_of() == kind && belongs(rs@, r, project@)),
            n == rs@.take(i as int).filter(f).len(),
            n <= i,
        decreases rs@.len() - i,
    {
        proof {
            assert(rs@.take(i + 1) =~= rs@.take(i as int).push(rs@[i as int]));
            rs@.take(i as int).lemma_filter_push(rs@[i as int], f);
        }
        if rs[i].kind() == kind && belongs_to_project(&rs[i], project, rs) {
            n += 1;
        }
        i += 1;
    }
    assert(rs@.take(rs@.len() as int) =~= rs@);
    n
}

/// `(a_seq, a_after)` is greater than `(b_seq, b_after)`.
pub open spec fn move_after(a: StoredRecord, b: StoredRecord) -> bool {
    a.seq > b.seq || (a.seq == b.seq && json::seq_lt(
        store::after_of(b).unwrap()@,
        store::after_of(a).unwrap()@,
    ))
}

/// The working head a summary shows: the working head change greatest by
/// `(seq, after_revision_id)`.
pub open spec fn summary_working(rs: Seq<StoredRecord>, project: Seq<char>, w: Option<(i64, String)>) -> bool {
    match w {
        None => forall|j: int| 0 <= j < rs.len() ==> !store::working_move(#[trigger] rs[j], project),
        Some((seq, after)) => exists|k: int|
            #![trigger rs[k]]
            0 <= k < rs.len() && store::working_move(rs[k], project) && rs[k].seq == seq
                && store::after_of(rs[k]) == Some(after) && forall|j: int|
                0 <= j < rs.len() && store::working_move(#[trigger] rs[j], project) ==> !move_after(rs[j], rs[k]),
    }
}

proof fn lemma_move_after_trans(a: StoredRecord, b: StoredRecord, c: StoredRecord)
    requires
        move_after(a, b),
        move_after(b, c),
    ensures
        move_after(a, c),
{
    if a.seq == b.seq && b.seq == c.seq {
        json::lemma_seq_lt_trans(
            store::after_of(c).unwrap()@,
            store::after_of(b).unwrap()@,
            store::after_of(a).unwrap()@,
        );
    }
}

fn summary_working_head(rs: &Vec<StoredRecord>, project: &str) -> (w: Option<(i64, String)>)
    ensures
        summary_working(rs@, project@, w),
{
    let mut best: Option<usize> = None;
    let mut i: usize = 0;
    while i < rs.len()
        invariant
            0 <= i <= rs@.len(),
            match best {
                None => forall|j: int| 0 <= j < i ==> !store::working_move(#[trigger] rs@[j], project@),
                Some(b) => b < i && store::working_move(rs@[b as int], project@) && forall|j: int|
                    0 <= j < i && store::working_move(#[trigger] rs@[j], project@) ==> !move_after(
                        rs@[j],
                        rs@[b as int],
                    ),
            },
        decreases rs@.len() - i,
    {
        let r = &rs[i];
        let hit = match &r.data {
            RecordData::HeadChange(h) => h.stage == Stage::Working && text::str_eq(h.project_id.as_str(), project),
            _ => false,
        };
        assert(hit == store::working_move(*r, project@));
        assert(rs@[i as int] == *r);
        if !hit {
            assert forall|j: int| 0 <= j < i + 1 && best is None implies !store::working_move(#[trigger] rs@[j], project@) by {
                if j == i {
                    assert(rs@[j] == *r);
                }
            }
        } else {
            let ra = match &r.data {
                RecordData::HeadChange(h) => &h.after_revision_id,
                _ => {
                    proof {
                        assert(false);
                    }
                    return None;
                },
            };
            proof {
                json::lemma_seq_lt_irreflexive(ra@);
            }
            match best {
                None => {
                    best = Some(i);
                },
                Some(b) => {
                    let cur = &rs[b];
                    let ca = match &cur.data {
                        RecordData::HeadChange(h) => &h.after_revision_id,
                        _ => {
                            proof {
                                assert(false);
                            }
                            return None;
                        },
                    };
                    let newer = r.seq > cur.seq || (r.seq == cur.seq && json::str_lt(ca.as_str(), ra.as_str()));
                    assert(newer == move_after(*r, *cur));
                    if newer {
                        proof {
                            assert forall|j: int|
                                0 <= j < i + 1 && store::working_move(#[trigger] rs@[j], project@)
                                    implies !move_after(rs@[j], rs@[i as int]) by {
                                if j < i && move_after(rs@[j], rs@[i as int]) {
                                    lemma_move_after_trans(rs@[j], rs@[i as int], rs@[b as int]);
                                }
                            }
                        }
                        best = Some(i);
                    } else {
                        proof {
                            json::lemma_seq_lt_total(ca@, ra@);
                        }
                    }
                },
            }
        }
        i += 1;
    }
    match best {
        None => None,
        Some(b) => match &rs[b].data {
            RecordData::HeadChange(h) => Some((rs[b].seq, h.after_revision_id.clone())),
            _ => {
                proof {
                    assert(false);
                }
                None
            },
        },
    }
}

/// A project's summary: its title, its records counted by kind, its heads.
pub open spec fn summary_right(rs: Seq<StoredRecord>, pr: StoredRecord, s: ProjectSummary) -> bool {
    let p = pr.id@;
    &&& s.project_id == pr.id
    &&& s.title == pr.data->Project_0.title
    &&& s.counts@.len() == counted_kinds().len()
    &&& forall|k: int|
        0 <= k < s.counts@.len() ==> (#[trigger] s.counts@[k]).kind == counted_kinds()[k] && s.counts@[k].count
            == count_of(rs, counted_kinds()[k], p)
    &&& s.publication_count == rs.filter(|r: StoredRecord| store::publication_of(r, p)).len()
    &&& match s.working_head {
        None => summary_working(rs, p, None) && s.working_head_seq == 0,
        Some(h) => summary_working(rs, p, Some((s.working_head_seq, h))),
    }
    &&& (s.official_head is None <==> s.official_publication_id is None)
    &&& match (s.official_head, s.official_publication_id) {
        (Some(h), Some(id)) => official_root(
            rs,
            p,
            None,
            Some(RootChoice { revision_id: h, by: Selector::Publication(id) }),
        ),
        _ => official_root(rs, p, None, None),
    }
}

fn project_summary(rs: &Vec<StoredRecord>, pr: &StoredRecord) -> (s: ProjectSummary)
    requires
        rs@.len() < usize::MAX,
        pr.data is Project,
    ensures
        summary_right(rs@, *pr, s),
{
    let title = match &pr.data {
        RecordData::Project(d) => d.title.clone(),
        _ => String::new(),
    };
    let kinds: [RecordKind; 14] = [
        RecordKind::Entity,
        RecordKind::Revision,
        RecordKind::Capture,
        RecordKind::Candidate,
        RecordKind::Goal,
        RecordKind::Baseline,
        RecordKind::Assessment,
        RecordKind::Observation,
        RecordKind::Link,
        RecordKind::Artifact,
        RecordKind::Embedding,
        RecordKind::Promotion,
        RecordKind::HeadChange,
        RecordKind::Publication,
    ];
    assert(kinds@ =~= counted_kinds());
    let mut counts: Vec<KindCount> = Vec::new();
    let mut k: usize = 0;
    while k < 14
        invariant
            0 <= k <= 14,
            kinds@ == counted_kinds(),
            rs@.len() < usize::MAX,
            counts@.len() == k,
            forall|j: int|
                0 <= j < k ==> (#[trigger] counts@[j]).kind == counted_kinds()[j] && counts@[j].count
                    == count_of(rs@, counted_kinds()[j], pr.id@),
        decreases 14 - k,
    {
        let n = count_kind(rs, kinds[k], pr.id.as_str());
        counts.push(KindCount { kind: kinds[k], count: n });
        k += 1;
    }
    let working = summary_working_head(rs, pr.id.as_str());
    let (working_head, working_head_seq) = match working {
        Some((seq, after)) => (Some(after), seq),
        None => (None, 0),
    };
    let none: Option<String> = None;
    let official = official_choice(rs, pr.id.as_str(), &none);
    let (official_head, official_publication_id) = match official {
        Some(c) => match c.by {
            Selector::Publication(id) => (Some(c.revision_id), Some(id)),
            _ => {
                proof {
                    assert(false);
                }
                (None, None)
            },
        },
        None => (None, None),
    };
    let ghost f = |r: StoredRecord| store::publication_of(r, pr.id@);
    let mut published: usize = 0;
    let mut i: usize = 0;
    while i < rs.len()
        invariant
            0 <= i <= rs@.len(),
            rs@.len() < usize::MAX,
            f == (|r: StoredRecord| store::publication_of(r, pr.id@)),
            published == rs@.take(i as int).filter(f).len(),
            published <= i,
        decreases rs@.len() - i,
    {
        proof {
            assert(rs@.take(i + 1) =~= rs@.take(i as int).push(rs@[i as int]));
            rs@.take(i as int).lemma_filter_push(rs@[i as int], f);
        }
        let hit = match &rs[i].data {
            RecordData::Publication(pb) => text::str_eq(pb.project_id.as_str(), pr.id.as_str()),
            _ => false,
        };
        if hit {
            published += 1;
        }
        i += 1;
    }
    assert(rs@.take(rs@.len() as int) =~= rs@);
    ProjectSummary {
        project_id: pr.id.clone(),
        title,
        counts,
        working_head,
        working_head_seq,
        official_head,
        official_publication_id,
        publication_count: published,
    }
}


/// A listed record is a copy of a record the listing selects.
pub open spec fn listed_match(v: &KnownView, project: Option<&str>, kinds: Option<Vec<RecordKind>>, r: StoredRecord) -> bool {
    selected_in(v.records@, opt_str_view(project), opt_kinds(kinds), r)
}

/// `r` carries the values of a record of `rs` that the listing selects.
pub open spec fn selected_in(rs: Seq<StoredRecord>, project: Option<Seq<char>>, kinds: Option<Seq<RecordKind>>, r: StoredRecord) -> bool {
    exists|j: int| 0 <= j < rs.len() && state_match(rs, #[trigger] rs[j], project, kinds) && r.same_as(&rs[j])
}

/// What the state listing answers over the records `rs` known at `seq`: every
/// project summarised, the number of records selected by `project` and
/// `kinds`, and a page of at most `limit` of them from `offset`.
pub open spec fn state_answer(
    rs: Seq<StoredRecord>,
    seq: int,
    project: Option<Seq<char>>,
    kinds: Option<Seq<RecordKind>>,
    limit: int,
    offset: int,
    r: StateReport,
) -> bool {
    let total = rs.filter(|x: StoredRecord| state_match(rs, x, project, kinds)).len();
    &&& r.seq == seq
    &&& r.projects@.len() == rs.filter(|x: StoredRecord| x.data is Project).len()
    &&& forall|i: int|
        0 <= i < r.projects@.len() ==> summary_right(
            rs,
            rs.filter(|x: StoredRecord| x.data is Project)[i],
            #[trigger] r.projects@[i],
        )
    &&& r.total_matched == total
    &&& r.records@.len() == if offset >= total {
        0
    } else if limit < total - offset {
        limit
    } else {
        total - offset
    }
    &&& forall|i: int| 0 <= i < r.records@.len() ==> selected_in(rs, project, kinds, #[trigger] r.records@[i])
    &&& r.truncated == (offset + limit < total)
}

/// A record the state listing selects: of the project, when one is named,
/// and of the listed kinds, when they are listed.
pub open spec fn state_match(rs: Seq<StoredRecord>, r: StoredRecord, project: Option<Seq<char>>, kinds: Option<Seq<RecordKind>>) -> bool {
    &&& match project {
        None => true,
        Some(p) => belongs(rs, r, p),
    }
    &&& match kinds {
        None => true,
        Some(ks) => ks.contains(r.kind_of()),
    }
}

fn kind_listed(ks: &Vec<RecordKind>, k: RecordKind) -> (b: bool)
    ensures
        b == ks@.contains(k),
{
    let mut i: usize = 0;
    while i < ks.len()
        invariant
            0 <= i <= ks@.len(),
            forall|j: int| 0 <= j < i ==> ks@[j] != k,
        decreases ks@.len() - i,
    {
        if ks[i] == k {
            assert(ks@[i as int] == k);
            return true;
        }
        i += 1;
    }
    false
}

pub open spec fn opt_str_view(o: Option<&str>) -> Option<Seq<char>> {
    match o {
        Some(s) => Some(s@),
        None => None,
    }
}

pub open spec fn opt_kinds(o: Option<Vec<RecordKind>>) -> Option<Seq<RecordKind>> {
    match o {
        Some(v) => Some(v@),
        None => None,
    }
}

/// The state summary of a view: every project with its counts and heads, and
/// the page `offset..offset + limit` of the selected records in commit order.
pub fn state_report(
    v: &KnownView,
    project: Option<&str>,
    kinds: &Option<Vec<RecordKind>>,
    limit: usize,
    offset: usize,
) -> (r: StateReport)
    requires
        v.records@.len() < usize::MAX,
    ensures
        r.seq == v.known,
        r.projects@.len() == v.records@.filter(|x: StoredRecord| x.data is Project).len(),
        forall|i: int|
            0 <= i < r.projects@.len() ==> summary_right(
                v.records@,
                v.records@.filter(|x: StoredRecord| x.data is Project)[i],
                #[trigger] r.projects@[i],
            ),
        r.total_matched == v.records@.filter(
            |x: StoredRecord| state_match(v.records@, x, opt_str_view(project), opt_kinds(*kinds)),
        ).len(),
        r.records@.len() == if offset >= r.total_matched {
            0
        } else if limit < r.total_matched - offset {
            limit as int
        } else {
            r.total_matched - offset
        },
        forall|i: int|
            0 <= i < r.records@.len() ==> listed_match(v, project, *kinds, #[trigger] r.records@[i]),
        r.truncated == (offset + limit < r.total_matched),
        state_answer(v.records@, v.known as int, opt_str_view(project), opt_kinds(*kinds), limit as int, offset as int, r),
{
    let rs = &v.records;
    let ghost fm = |x: StoredRecord| state_match(rs@, x, opt_str_view(project), opt_kinds(*kinds));
    let ghost fp = |x: StoredRecord| x.data is Project;
    let mut picked: Vec<usize> = Vec::new();
    let mut projects: Vec<ProjectSummary> = Vec::new();
    let mut i: usize = 0;
    while i < rs.len()
        invariant
            0 <= i <= rs@.len(),
            rs@ == v.records@,
            rs@.len() < usize::MAX,
            fm == (|x: StoredRecord| state_match(rs@, x, opt_str_view(project), opt_kinds(*kinds))),
            fp == (|x: StoredRecord| x.data is Project),
            picked@.len() == rs@.take(i as int).filter(fm).len(),
            forall|k: int|
                0 <= k < picked@.len() ==> (#[trigger] picked@[k]) < rs@.len() && state_match(
                    rs@,
                    rs@[picked@[k] as int],
                    opt_str_view(project),
                    opt_kinds(*kinds),
                ),
            projects@.len() == rs@.take(i as int).filter(fp).len(),
            forall|k: int|
                0 <= k < projects@.len() ==> summary_right(
                    rs@,
                    rs@.take(i as int).filter(fp)[k],
                    #[trigger] projects@[k],
                ),
        decreases rs@.len() - i,
    {
        let r = &rs[i];
        proof {
            assert(rs@.take(i + 1) =~= rs@.take(i as int).push(*r));
            rs@.take(i as int).lemma_filter_push(*r, fm);
            rs@.take(i as int).lemma_filter_push(*r, fp);
        }
        let in_project = match project {
            None => true,
            Some(p) => belongs_to_project(r, p, rs),
        };
        let in_kinds = match kinds {
            None => true,
            Some(ks) => kind_listed(ks, r.kind()),
        };
        if in_project && in_kinds {
            picked.push(i);
        }
        match &r.data {
            RecordData::Project(_) => {
                let summary = project_summary(rs, r);
                projects.push(summary);
            },
            _ => {},
        }
        i += 1;
    }
    proof {
        assert(rs@.take(rs@.len() as int) =~= rs@);
    }
    let total = picked.len();
    let ghost picked_v = picked@;
    let ordered = sort_records(rs, picked, false);
    let mut page: Vec<StoredRecord> = Vec::new();
    let start: usize = if offset < total {
        offset
    } else {
        total
    };
    let mut k: usize = start;
    {
        while k < total && k - start < limit
            invariant
                start <= k <= total,
                k - start <= limit,
                start == if offset < total { offset } else { total },
                total == ordered@.len(),
                rs@ == v.records@,
                page@.len() == k - start,
                forall|m: int| 0 <= m < ordered@.len() ==> picked_v.contains(#[trigger] ordered@[m]),
                forall|t: int|
                    0 <= t < picked_v.len() ==> (#[trigger] picked_v[t]) < rs@.len() && state_match(
                        rs@,
                        rs@[picked_v[t] as int],
                        opt_str_view(project),
                        opt_kinds(*kinds),
                    ),
                forall|t: int| 0 <= t < page@.len() ==> listed_match(v, project, *kinds, #[trigger] page@[t]),
            decreases total - k,
        {
            assert(picked_v.contains(ordered@[k as int]));
            let x = ordered[k];
            let c = rs[x].clone();
            let ghost before = page@;
            proof {
                assert(listed_match(v, project, *kinds, c)) by {
                    assert(c.same_as(&v.records@[x as int]));
                }
            }
            page.push(c);
            proof {
                assert(listed_match(v, project, *kinds, c)) by {
                    assert(c.same_as(&v.records@[x as int]));
                }
                assert forall|t: int| 0 <= t < page@.len() implies listed_match(v, project, *kinds, #[trigger] page@[t]) by {
                    if t < before.len() {
                        assert(page@[t] == before[t]);
                    }
                }
            }
            k += 1;
        }
    }
    let truncated = offset < total && limit < total - offset;
    StateReport { seq: v.known, projects, records: page, total_matched: total, truncated }
}


proof fn lemma_param_concat(a: Seq<(String, String)>, b: Seq<(String, String)>, key: Seq<char>)
    ensures
        param_of(a + b, key) == if param_of(a, key) is Some {
            param_of(a, key)
        } else {
            param_of(b, key)
        },
    decreases a.len(),
{
    if a.len() > 0 {
        assert((a + b).drop_first() =~= a.drop_first() + b);
        lemma_param_concat(a.drop_first(), b, key);
    } else {
        assert(a + b =~= b);
    }
}

proof fn lemma_param_absent(p: Seq<(String, String)>, allowed: Seq<&str>, key: Seq<char>)
    requires
        known_params(p, allowed),
        !listed_in(allowed, key),
    ensures
        param_of(p, key) is None,
    decreases p.len(),
{
    if p.len() > 0 {
        assert(listed_in(allowed, p[0].0@));
        assert(known_params(p.drop_first(), allowed)) by {
            assert forall|i: int| 0 <= i < p.drop_first().len() implies listed_in(allowed, (#[trigger] p.drop_first()[i]).0@) by {
                assert(p.drop_first()[i] == p[i + 1]);
            }
        }
        lemma_param_absent(p.drop_first(), allowed, key);
    }
}


proof fn lemma_state_query(p: Seq<(String, String)>, pre: Seq<(String, String)>, al: Seq<&str>)
    requires
        al == seq!["project_id", "kinds", "limit", "offset", "max_seq"],
        known_params(p, al),
        match param_of(p, "max_seq"@) {
            Some(m) => pre.len() == 1 && pre[0].0@ == "known_seq"@ && pre[0].1 == m,
            None => pre.len() == 0,
        },
    ensures
        param_of(pre + p, "known_at"@) is None,
        param_of(pre + p, "effective_at"@) is None,
        param_of(pre + p, "known_seq"@) == param_of(p, "max_seq"@),
{
    reveal_strlit("known_seq");
    reveal_strlit("known_at");
    reveal_strlit("effective_at");
    reveal_strlit("project_id");
    reveal_strlit("kinds");
    reveal_strlit("limit");
    reveal_strlit("offset");
    reveal_strlit("max_seq");
    assert(!listed_in(al, "known_seq"@)) by {
        assert forall|j: int| 0 <= j < al.len() implies (#[trigger] al[j])@ != "known_seq"@ by {
            assert(al[j]@.len() != 9 || al[j]@[0] != 'k' || al[j]@[1] != 'n');
        }
    }
    assert(!listed_in(al, "known_at"@)) by {
        assert forall|j: int| 0 <= j < al.len() implies (#[trigger] al[j])@ != "known_at"@ by {
            assert(al[j]@.len() != 8 || al[j]@[0] != 'k' || al[j]@[1] != 'n');
        }
    }
    assert(!listed_in(al, "effective_at"@)) by {
        assert forall|j: int| 0 <= j < al.len() implies (#[trigger] al[j])@ != "effective_at"@ by {
            assert(al[j]@.len() != 12 || al[j]@[0] != 'e');
        }
    }
    lemma_param_absent(p, al, "known_seq"@);
    lemma_param_absent(p, al, "known_at"@);
    lemma_param_absent(p, al, "effective_at"@);
    lemma_param_concat(pre, p, "known_seq"@);
    lemma_param_concat(pre, p, "known_at"@);
    lemma_param_concat(pre, p, "effective_at"@);
    if pre.len() > 0 {
        assert(pre.drop_first() =~= Seq::<(String, String)>::empty());
        assert("known_seq"@ != "known_at"@) by {
            assert("known_seq"@.len() != "known_at"@.len());
        }
        assert("known_seq"@ != "effective_at"@) by {
            assert("known_seq"@.len() != "effective_at"@.len());
        }
        assert(param_of(pre, "known_at"@) == param_of(pre.drop_first(), "known_at"@));
        assert(param_of(pre, "effective_at"@) == param_of(pre.drop_first(), "effective_at"@));
    }
}

/// The sequence number a state request reads at: `max_seq` when given, the
/// current one otherwise.
pub open spec fn state_seq(ctx: &Context, p: Seq<(String, String)>) -> Option<int> {
    match param_of(p, "max_seq"@) {
        Some(m) => match text::signed_value(m@) {
            Some(n) => if 0 <= n <= ctx.seq {
                Some(n)
            } else {
                None
            },
            None => None,
        },
        None => Some(ctx.seq as int),
    }
}

/// A count parameter that is absent, or a number in `1..=max`.
pub open spec fn count_ok(p: Seq<(String, String)>, key: Seq<char>, max: int) -> bool {
    match param_of(p, key) {
        None => true,
        Some(v) => text::unsigned_value(v@) matches Some(n) && 1 <= n <= max,
    }
}

/// An `offset` that is absent, or a non-negative number that fits `usize`.
pub open spec fn offset_ok(p: Seq<(String, String)>) -> bool {
    match param_of(p, "offset"@) {
        None => true,
        Some(v) => text::unsigned_value(v@) matches Some(n) && n <= usize::MAX,
    }
}

/// Some record kind has the wire name `t`.
pub open spec fn kind_named(t: Seq<char>) -> bool {
    exists|k: RecordKind| k.name() == t
}

/// A `kinds` list that is absent, or names only record kinds, comma separated.
pub open spec fn kinds_ok(p: Seq<(String, String)>) -> bool {
    match param_of(p, "kinds"@) {
        None => true,
        Some(v) => forall|i: int|
            0 <= i < text::pieces(v@, ',').len() ==> kind_named(#[trigger] text::pieces(v@, ',')[i]),
    }
}

/// The project the state listing is narrowed to.
pub open spec fn state_project(p: Seq<(String, String)>) -> Option<Seq<char>> {
    match param_of(p, "project_id"@) {
        Some(v) => Some(v@),
        None => None,
    }
}

/// The page size the state listing uses.
pub open spec fn state_limit(p: Seq<(String, String)>) -> int {
    match param_of(p, "limit"@) {
        Some(v) => text::unsigned_value(v@).unwrap() as int,
        None => limits::DEFAULT_LIST_LIMIT as int,
    }
}

/// The page start the state listing uses.
pub open spec fn state_offset(p: Seq<(String, String)>) -> int {
    match param_of(p, "offset"@) {
        Some(v) => text::unsigned_value(v@).unwrap() as int,
        None => 0,
    }
}

/// `ks` are the kinds the `kinds` parameter names, in its order.
pub open spec fn state_kinds(p: Seq<(String, String)>, ks: Option<Seq<RecordKind>>) -> bool {
    match (param_of(p, "kinds"@), ks) {
        (None, None) => true,
        (Some(v), Some(ks)) => ks.len() == text::pieces(v@, ',').len() && forall|i: int|
            0 <= i < ks.len() ==> (#[trigger] ks[i]).name() == text::pieces(v@, ',')[i],
        _ => false,
    }
}

/// `vs` carry the values of `rs`, one for one.
pub open spec fn same_records(vs: Seq<StoredRecord>, rs: Seq<StoredRecord>) -> bool {
    vs.len() == rs.len() && forall|i: int| 0 <= i < vs.len() ==> (#[trigger] vs[i]).same_as(&rs[i])
}

/// The state listing answers `rep` for the parameters `p`: what the listing
/// gives over values of the records known at its sequence number, selected,
/// narrowed and paged as the parameters say.
pub open spec fn state_right(ctx: &Context, p: Seq<(String, String)>, rep: StateReport) -> bool {
    exists|vs: Seq<StoredRecord>, ks: Option<Seq<RecordKind>>|
        #[trigger] state_answer(vs, rep.seq as int, state_project(p), ks, state_limit(p), state_offset(p), rep)
            && state_kinds(p, ks) && same_records(vs, known_records(ctx.records@, rep.seq as int))
}

/// `GET /api/state`: projects with counts and heads, and a page of records
/// selected by project and kind. `max_seq` reads the state as of a sequence
/// number.
pub fn state(ctx: &Context, p: &Vec<(String, String)>) -> (r: Result<StateReport, ApiError>)
    requires
        ctx.records@.len() < usize::MAX,
    ensures
        !known_params(p@, seq!["project_id", "kinds", "limit", "offset", "max_seq"]) ==> r is Err,
        known_params(p@, seq!["project_id", "kinds", "limit", "offset", "max_seq"]) && state_seq(ctx, p@) is None
            ==> r is Err,
        r matches Ok(rep) ==> state_seq(ctx, p@) == Some(rep.seq as int),
        r matches Ok(rep) ==> state_right(ctx, p@, rep),
        r matches Err(e) ==> e.code == "bad_request",
        r is Ok <==> (known_params(p@, seq!["project_id", "kinds", "limit", "offset", "max_seq"])
            && state_seq(ctx, p@) is Some && count_ok(p@, "limit"@, limits::MAX_LIST_LIMIT as int)
            && offset_ok(p@) && kinds_ok(p@)),
{
    let allowed: [&str; 5] = ["project_id", "kinds", "limit", "offset", "max_seq"];
    let ghost al = seq!["project_id", "kinds", "limit", "offset", "max_seq"];
    proof {
        assert(allowed@ =~= al);
    }
    match check_params(p, &allowed) {
        Ok(()) => {},
        Err(e) => return Err(e),
    }
    let mut q: Vec<(String, String)> = Vec::new();
    let mx = param(p, "max_seq");
    match mx {
        Some(m) => {
            q.push((text::owned("known_seq"), m.clone()));
        },
        None => {},
    }
    let ghost pre = q@;
    let mut i: usize = 0;
    while i < p.len()
        invariant
            0 <= i <= p@.len(),
            q@ == pre + p@.take(i as int),
        decreases p@.len() - i,
    {
        q.push((p[i].0.clone(), p[i].1.clone()));
        proof {
            assert(p@.take(i + 1) =~= p@.take(i as int).push(p@[i as int]));
            assert(q@ =~= pre + p@.take(i + 1));
        }
        i += 1;
    }
    proof {
        assert(p@.take(p@.len() as int) =~= p@);
        lemma_state_query(p@, pre, al);
    }
    let v = match view(ctx, &q) {
        Ok(v) => v,
        Err(e) => return Err(e),
    };
    let limit = match count_param(p, "limit", limits::DEFAULT_LIST_LIMIT, limits::MAX_LIST_LIMIT) {
        Ok(n) => n,
        Err(e) => return Err(e),
    };
    let offset: usize = match param(p, "offset") {
        None => 0,
        Some(x) => match text::parse_usize(x.as_str()) {
            Some(n) => n,
            None => return Err(ApiError::bad_request(text::owned("offset must be non-negative"))),
        },
    };
    let kinds: Option<Vec<RecordKind>> = match param(p, "kinds") {
        None => None,
        Some(x) => {
            let names = text::split_on(x.as_str(), ',');
            let ghost pc = text::pieces(x@, ',');
            assert(forall|jj: int| 0 <= jj < names@.len() ==> (#[trigger] names@[jj])@ == pc[jj]) by {
                assert forall|jj: int| 0 <= jj < names@.len() implies (#[trigger] names@[jj])@ == pc[jj] by {
                    assert(names@.map_values(|y: String| y@)[jj] == names@[jj]@);
                }
            }
            let mut ks: Vec<RecordKind> = Vec::new();
            let mut j: usize = 0;
            while j < names.len()
                invariant
                    0 <= j <= names@.len(),
                    names@.len() == pc.len(),
                    pc == text::pieces(x@, ','),
                    param_of(p@, "kinds"@) == Some(*x),
                    forall|jj: int| 0 <= jj < names@.len() ==> (#[trigger] names@[jj])@ == pc[jj],
                    forall|jj: int| 0 <= jj < j ==> kind_named(#[trigger] pc[jj]),
                    ks@.len() == j,
                    forall|jj: int| 0 <= jj < j ==> (#[trigger] ks@[jj]).name() == pc[jj],
                decreases names@.len() - j,
            {
                match RecordKind::parse_str(names[j].as_str()) {
                    Some(k) => {
                        assert(kind_named(pc[j as int]));
                        ks.push(k)
                    },
                    None => {
                        assert(!kind_named(pc[j as int]));
                        assert(!kinds_ok(p@)) by {
                            let v = param_of(p@, "kinds"@).unwrap();
                            assert(v@ == x@);
                            assert(text::pieces(v@, ',') == pc);
                            assert(0 <= j < text::pieces(v@, ',').len());
                            assert(!kind_named(text::pieces(v@, ',')[j as int]));
                        }
                        let mut m = text::owned("unknown record kind '");
                        text::push_str(&mut m, names[j].as_str());
                        text::push_str(&mut m, "'");
                        return Err(ApiError::bad_request(m));
                    },
                }
                j += 1;
            }
            Some(ks)
        },
    };
    let project: Option<&str> = match param(p, "project_id") {
        Some(x) => Some(x.as_str()),
        None => None,
    };
    proof {
        assert(v.records@.len() <= ctx.records@.len()) by {
            ctx.records@.lemma_filter_len(|r: StoredRecord| r.seq <= v.known as int);
        }
    }
    let rep = state_report(&v, project, &kinds, limit, offset);
    proof {
        assert(opt_str_view(project) == state_project(p@));
        assert(limit as int == state_limit(p@));
        assert(offset as int == state_offset(p@));
        assert(state_kinds(p@, opt_kinds(kinds)));
        assert(same_records(v.records@, known_records(ctx.records@, rep.seq as int)));
        assert(state_answer(
            v.records@,
            rep.seq as int,
            state_project(p@),
            opt_kinds(kinds),
            state_limit(p@),
            state_offset(p@),
            rep,
        ));
        assert(state_right(ctx, p@, rep));
    }
    Ok(rep)
}


// ---------------------------------------------------------------- snapshots

/// How a projection selected its point in time and its root.
#[derive(Debug)]
pub struct SelectedBy {
    pub known_seq: i64,
    pub known_at: Option<String>,
    pub effective_at: Option<String>,
    pub head_change_id: Option<String>,
    pub publication_id: Option<String>,
}

/// The selection record of a view and a root choice.
pub fn selected_by(v: &KnownView, choice: &Option<RootChoice>) -> (r: SelectedBy)
    ensures
        r.known_seq == v.known,
        r.known_at == v.known_at,
        r.effective_at == v.effective,
        r.head_change_id == match choice {
            Some(c) => match c.by {
                Selector::HeadChange(id) => Some(id),
                _ => None,
            },
            None => None,
        },
        r.publication_id == match choice {
            Some(c) => match c.by {
                Selector::Publication(id) => Some(id),
                _ => None,
            },
            None => None,
        },
{
    let (h, pb) = match choice {
        Some(c) => match &c.by {
            Selector::HeadChange(id) => (Some(id.clone()), None),
            Selector::Publication(id) => (None, Some(id.clone())),
            Selector::Explicit => (None, None),
        },
        None => (None, None),
    };
    SelectedBy {
        known_seq: v.known,
        known_at: v.known_at.clone(),
        effective_at: v.effective.clone(),
        head_change_id: h,
        publication_id: pb,
    }
}

/// One distinct revision of a snapshot.
#[derive(Debug)]
pub struct SnapshotNode {
    pub revision_id: String,
    pub entity_id: String,
    pub entity_kind: String,
    pub title: String,
    pub body: String,
    pub tags: Vec<String>,
    pub change_kind: ChangeKind,
    pub seq: i64,
    pub recorded_at: String,
    pub occurrence_count: usize,
}

#[derive(Debug)]
pub struct SnapshotReport {
    pub project_id: String,
    pub stage: Stage,
    pub selected_by: SelectedBy,
    pub root_revision_id: Option<String>,
    pub tree: Option<graph::TreeNode>,
    pub nodes: Vec<SnapshotNode>,
    pub node_count: usize,
    pub revision_count: usize,
    pub max_depth_reached: usize,
    pub truncated: bool,
}

/// Occurrences of `id` in a walk.
pub open spec fn uses_of(occs: Seq<graph::Occurrence>, id: Seq<char>) -> nat {
    occs.filter(|o: graph::Occurrence| o.revision_id@ == id).len()
}

fn count_uses(occs: &Vec<graph::Occurrence>, id: &str) -> (n: usize)
    ensures
        n == uses_of(occs@, id@),
{
    let ghost f = |o: graph::Occurrence| o.revision_id@ == id@;
    let mut n: usize = 0;
    let mut i: usize = 0;
    while i < occs.len()
        invariant
            0 <= i <= occs@.len(),
            f == (|o: graph::Occurrence| o.revision_id@ == id@),
            n == occs@.take(i as int).filter(f).len(),
            n <= i,
        decreases occs@.len() - i,
    {
        proof {
            assert(occs@.take(i + 1) =~= occs@.take(i as int).push(occs@[i as int]));
            occs@.take(i as int).lemma_filter_push(occs@[i as int], f);
        }
        if text::str_eq(occs[i].revision_id.as_str(), id) {
            n += 1;
        }
        i += 1;
    }
    assert(occs@.take(occs@.len() as int) =~= occs@);
    n
}

/// The snapshot of a selected root: the nested tree within the node and
/// depth budgets, and each distinct revision with how often it is used.
pub fn snapshot_report(
    v: &KnownView,
    project: &str,
    stage: Stage,
    choice: Option<RootChoice>,
    max_nodes: usize,
    depth: usize,
) -> (r: SnapshotReport)
    ensures
        r.project_id@ == project@,
        r.stage == stage,
        r.selected_by.known_seq == v.known,
        choice is None ==> r.root_revision_id is None && r.tree is None && r.nodes@.len() == 0
            && r.node_count == 0 && !r.truncated,
        choice matches Some(c) ==> {
            &&& r.root_revision_id == Some(c.revision_id)
            &&& r.tree matches Some(t) && t.revision_id@ == c.revision_id@
            &&& r.node_count <= max_nodes
            &&& max_nodes > 0 ==> graph::tree_size(r.tree.unwrap()) == r.node_count
            &&& r.max_depth_reached <= depth
            &&& forall|i: int|
                0 <= i < r.nodes@.len() ==> graph::is_revision(&v.records, (#[trigger] r.nodes@[i]).revision_id@)
        },
{
    let sel = selected_by(v, &choice);
    let c = match choice {
        None => {
            return SnapshotReport {
                project_id: text::owned(project),
                stage,
                selected_by: sel,
                root_revision_id: None,
                tree: None,
                nodes: Vec::new(),
                node_count: 0,
                revision_count: 0,
                max_depth_reached: 0,
                truncated: false,
            };
        },
        Some(c) => c,
    };
    let limits = Limits { max_nodes, max_depth: depth };
    let (tree, node_count, tree_truncated, deepest) = graph::tree_json(&v.records, c.revision_id.as_str(), limits);
    let walk = graph::walk(&v.records, c.revision_id.as_str(), limits);
    let mut nodes: Vec<SnapshotNode> = Vec::new();
    let mut i: usize = 0;
    while i < walk.revisions.len()
        invariant
            0 <= i <= walk.revisions@.len(),
            walk.sound(&v.records, c.revision_id@, limits),
            forall|k: int|
                0 <= k < nodes@.len() ==> graph::is_revision(&v.records, (#[trigger] nodes@[k]).revision_id@),
        decreases walk.revisions@.len() - i,
    {
        match graph::find_record(&v.records, walk.revisions[i].as_str()) {
            Some(r) => match &r.data {
                RecordData::Revision(d) => {
                    let who = owner(&v.records, r);
                    let uses = count_uses(&walk.occurrences, walk.revisions[i].as_str());
                    nodes.push(
                        SnapshotNode {
                            revision_id: r.id.clone(),
                            entity_id: who.entity_id,
                            entity_kind: who.entity_kind,
                            title: who.title,
                            body: d.body.clone(),
                            tags: copy_strings(&d.tags),
                            change_kind: d.change_kind,
                            seq: r.seq,
                            recorded_at: r.recorded_at.clone(),
                            occurrence_count: uses,
                        },
                    );
                },
                _ => {},
            },
            None => {},
        }
        i += 1;
    }
    SnapshotReport {
        project_id: text::owned(project),
        stage,
        selected_by: sel,
        root_revision_id: Some(c.revision_id),
        tree: Some(tree),
        nodes,
        node_count,
        revision_count: walk.revisions.len(),
        max_depth_reached: deepest,
        truncated: tree_truncated || walk.truncated,
    }
}

/// `GET /api/snapshot`.
pub fn snapshot(ctx: &Context, p: &Vec<(String, String)>) -> (r: Result<SnapshotReport, ApiError>)
    ensures
        !known_params(
            p@,
            seq![
                "project_id",
                "stage",
                "known_seq",
                "known_at",
                "effective_at",
                "max_nodes",
                "depth",
                "root_revision_id",
            ],
        ) ==> r is Err,
        param_of(p@, "project_id"@) is None ==> r is Err,
        selected_known(ctx, p@) is None ==> r is Err,
        r matches Ok(rep) ==> rep.selected_by.known_seq == selected_known(ctx, p@).unwrap(),
        r matches Err(e) ==> e.code == "bad_request",
{
    let allowed: [&str; 8] = [
        "project_id",
        "stage",
        "known_seq",
        "known_at",
        "effective_at",
        "max_nodes",
        "depth",
        "root_revision_id",
    ];
    proof {
        assert(allowed@ =~= seq![
            "project_id",
            "stage",
            "known_seq",
            "known_at",
            "effective_at",
            "max_nodes",
            "depth",
            "root_revision_id",
        ]);
    }
    match check_params(p, &allowed) {
        Ok(()) => {},
        Err(e) => return Err(e),
    }
    let project = match project_param(p) {
        Ok(x) => x,
        Err(e) => return Err(e),
    };
    let v = match view(ctx, p) {
        Ok(v) => v,
        Err(e) => return Err(e),
    };
    let s = match stage_param(p) {
        Ok(s) => s,
        Err(e) => return Err(e),
    };
    let max = match count_param(p, "max_nodes", limits::DEFAULT_SNAPSHOT_NODES, limits::MAX_SNAPSHOT_NODES) {
        Ok(n) => n,
        Err(e) => return Err(e),
    };
    let depth = match count_param(p, "depth", graph::MAX_DEPTH, graph::MAX_DEPTH) {
        Ok(n) => n,
        Err(e) => return Err(e),
    };
    let choice = match selected(&v, p, s, project.as_str()) {
        Ok(c) => c,
        Err(e) => return Err(e),
    };
    Ok(snapshot_report(&v, project.as_str(), s, choice, max, depth))
}

/// The occurrences a listing reports of `wanted`: its own use sites, and with
/// `by_entity` those of every revision of that entity.
pub open spec fn wanted_use(rs: Seq<StoredRecord>, o: graph::Occurrence, wanted: Seq<char>, by_entity: bool) -> bool {
    o.revision_id@ == wanted || (by_entity && (graph::first_with_id(rs, o.revision_id@) matches Some(r)
        && (r.data matches RecordData::Revision(d) && d.entity_id@ == wanted)))
}

fn is_wanted_use(rs: &Vec<StoredRecord>, o: &graph::Occurrence, wanted: &str, by_entity: bool) -> (b: bool)
    ensures
        b == wanted_use(rs@, *o, wanted@, by_entity),
{
    if text::str_eq(o.revision_id.as_str(), wanted) {
        return true;
    }
    by_entity && match graph::find_record(rs, o.revision_id.as_str()) {
        Some(r) => match &r.data {
            RecordData::Revision(d) => text::str_eq(d.entity_id.as_str(), wanted),
            _ => false,
        },
        None => false,
    }
}

fn copy_occurrence(o: &graph::Occurrence) -> (r: graph::Occurrence)
    ensures
        r.slot_path@ == o.slot_path@,
        r.revision_id == o.revision_id,
        r.roles@ == o.roles@,
        r.parent_revision_id == o.parent_revision_id,
        r.depth == o.depth,
{
    graph::Occurrence {
        slot_path: copy_strings(&o.slot_path),
        revision_id: o.revision_id.clone(),
        roles: copy_strings(&o.roles),
        parent_revision_id: o.parent_revision_id.clone(),
        depth: o.depth,
    }
}

/// The use sites of `wanted` in a walk, in traversal order.
pub fn wanted_uses(rs: &Vec<StoredRecord>, occs: &Vec<graph::Occurrence>, wanted: &str, by_entity: bool) -> (r: Vec<
    graph::Occurrence,
>)
    ensures
        r@.len() == occs@.filter(|o: graph::Occurrence| wanted_use(rs@, o, wanted@, by_entity)).len(),
        forall|i: int|
            0 <= i < r@.len() ==> (#[trigger] r@[i]).revision_id == occs@.filter(
                |o: graph::Occurrence| wanted_use(rs@, o, wanted@, by_entity),
            )[i].revision_id,
{
    let ghost f = |o: graph::Occurrence| wanted_use(rs@, o, wanted@, by_entity);
    let mut out: Vec<graph::Occurrence> = Vec::new();
    let mut i: usize = 0;
    while i < occs.len()
        invariant
            0 <= i <= occs@.len(),
            f == (|o: graph::Occurrence| wanted_use(rs@, o, wanted@, by_entity)),
            out@.len() == occs@.take(i as int).filter(f).len(),
            forall|k: int| 0 <= k < out@.len() ==> (#[trigger] out@[k]).revision_id == occs@.take(i as int).filter(f)[k].revision_id,
        decreases occs@.len() - i,
    {
        proof {
            assert(occs@.take(i + 1) =~= occs@.take(i as int).push(occs@[i as int]));
            occs@.take(i as int).lemma_filter_push(occs@[i as int], f);
        }
        if is_wanted_use(rs, &occs[i], wanted, by_entity) {
            out.push(copy_occurrence(&occs[i]));
        }
        i += 1;
    }
    assert(occs@.take(occs@.len() as int) =~= occs@);
    out
}

#[derive(Debug)]
pub struct OccurrenceReport {
    pub selected_by: SelectedBy,
    pub occurrences: Vec<graph::Occurrence>,
    pub truncated: bool,
}

/// `GET /api/occurrences`: where a revision, or any revision of an entity, is
/// used in the selected root.
pub fn occurrences(ctx: &Context, p: &Vec<(String, String)>) -> (r: Result<OccurrenceReport, ApiError>)
    ensures
        !known_params(
            p@,
            seq!["project_id", "entity_id", "revision_id", "stage", "known_seq", "known_at", "max_nodes"],
        ) ==> r is Err,
        param_of(p@, "project_id"@) is None ==> r is Err,
        (param_of(p@, "entity_id"@) is Some) == (param_of(p@, "revision_id"@) is Some) ==> r is Err,
        r matches Err(e) ==> e.code == "bad_request",
{
    let allowed: [&str; 7] = ["project_id", "entity_id", "revision_id", "stage", "known_seq", "known_at", "max_nodes"];
    proof {
        assert(allowed@ =~= seq!["project_id", "entity_id", "revision_id", "stage", "known_seq", "known_at", "max_nodes"]);
    }
    match check_params(p, &allowed) {
        Ok(()) => {},
        Err(e) => return Err(e),
    }
    let project = match project_param(p) {
        Ok(x) => x,
        Err(e) => return Err(e),
    };
    let ent = param(p, "entity_id");
    let rev = param(p, "revision_id");
    if ent.is_some() == rev.is_some() {
        return Err(ApiError::bad_request(text::owned("exactly one of entity_id or revision_id is required")));
    }
    let v = match view(ctx, p) {
        Ok(v) => v,
        Err(e) => return Err(e),
    };
    let s = match stage_param(p) {
        Ok(s) => s,
        Err(e) => return Err(e),
    };
    let max = match count_param(p, "max_nodes", limits::DEFAULT_SNAPSHOT_NODES, limits::MAX_SNAPSHOT_NODES) {
        Ok(n) => n,
        Err(e) => return Err(e),
    };
    let choice = match selected(&v, p, s, project.as_str()) {
        Ok(c) => c,
        Err(e) => return Err(e),
    };
    let sel = selected_by(&v, &choice);
    let root = match choice {
        None => {
            return Ok(OccurrenceReport { selected_by: sel, occurrences: Vec::new(), truncated: false });
        },
        Some(c) => c.revision_id,
    };
    let (wanted, by_entity) = match ent {
        Some(e) => (e, true),
        None => (rev.unwrap(), false),
    };
    let walk = graph::walk(&v.records, root.as_str(), Limits { max_nodes: max, max_depth: graph::MAX_DEPTH });
    let rows = wanted_uses(&v.records, &walk.occurrences, wanted.as_str(), by_entity);
    Ok(OccurrenceReport { selected_by: sel, occurrences: rows, truncated: walk.truncated })
}


// ---------------------------------------------------------------- captures

/// A capture as the capture listing shows it.
#[derive(Debug)]
pub struct CaptureRow {
    pub id: String,
    pub seq: i64,
    pub recorded_at: String,
    pub occurred_at: Option<String>,
    pub source_kind: SourceKind,
    pub content_digest: Option<String>,
    pub content_length: usize,
    pub content_preview: String,
    pub content: Option<String>,
    pub candidate_count: usize,
}

#[derive(Debug)]
pub struct CaptureList {
    pub captures: Vec<CaptureRow>,
    pub total_matched: usize,
    pub truncated: bool,
}

pub open spec fn capture_of(r: StoredRecord, project: Seq<char>) -> bool {
    r.data matches RecordData::Capture(c) && opt_view(c.project_id) == Some(project)
}

pub open spec fn candidate_from(r: StoredRecord, capture: Seq<char>) -> bool {
    r.data matches RecordData::Candidate(c) && opt_view(c.capture_id) == Some(capture)
}

/// A capture row shows its capture: a preview of at most 400 characters,
/// the full text only when asked for, and how many candidates came from it.
pub open spec fn capture_row_right(rs: Seq<StoredRecord>, r: StoredRecord, with_content: bool, row: CaptureRow) -> bool {
    let c = r.data->Capture_0;
    &&& row.id == r.id
    &&& row.seq == r.seq
    &&& row.recorded_at == r.recorded_at
    &&& row.occurred_at == c.occurred_at
    &&& row.source_kind == c.source_kind
    &&& row.content_digest == c.content_digest
    &&& row.content_length == c.content@.len()
    &&& row.content_preview@ == shortened(c.content@, 400)
    &&& (with_content ==> row.content == Some(c.content))
    &&& (!with_content ==> row.content is None)
    &&& row.candidate_count == rs.filter(|x: StoredRecord| candidate_from(x, r.id@)).len()
}

pub open spec fn capture_listed(rs: Seq<StoredRecord>, project: Seq<char>, with_content: bool, row: CaptureRow) -> bool {
    exists|j: int|
        0 <= j < rs.len() && capture_of(#[trigger] rs[j], project) && capture_row_right(rs, rs[j], with_content, row)
}

fn capture_row(rs: &Vec<StoredRecord>, r: &StoredRecord, with_content: bool) -> (row: CaptureRow)
    requires
        r.data is Capture,
    ensures
        capture_row_right(rs@, *r, with_content, row),
{
    let c = match &r.data {
        RecordData::Capture(c) => c,
        _ => {
            proof {
                assert(false);
            }
            return CaptureRow {
                id: String::new(),
                seq: 0,
                recorded_at: String::new(),
                occurred_at: None,
                source_kind: SourceKind::Note,
                content_digest: None,
                content_length: 0,
                content_preview: String::new(),
                content: None,
                candidate_count: 0,
            };
        },
    };
    let ghost f = |x: StoredRecord| candidate_from(x, r.id@);
    let mut n: usize = 0;
    let mut i: usize = 0;
    while i < rs.len()
        invariant
            0 <= i <= rs@.len(),
            f == (|x: StoredRecord| candidate_from(x, r.id@)),
            n == rs@.take(i as int).filter(f).len(),
            n <= i,
        decreases rs@.len() - i,
    {
        proof {
            assert(rs@.take(i + 1) =~= rs@.take(i as int).push(rs@[i as int]));
            rs@.take(i as int).lemma_filter_push(rs@[i as int], f);
        }
        let hit = match &rs[i].data {
            RecordData::Candidate(d) => match &d.capture_id {
                Some(x) => text::str_eq(x.as_str(), r.id.as_str()),
                None => false,
            },
            _ => false,
        };
        if hit {
            n += 1;
        }
        i += 1;
    }
    assert(rs@.take(rs@.len() as int) =~= rs@);
    CaptureRow {
        id: r.id.clone(),
        seq: r.seq,
        recorded_at: r.recorded_at.clone(),
        occurred_at: c.occurred_at.clone(),
        source_kind: c.source_kind,
        content_digest: c.content_digest.clone(),
        content_length: text::char_count(c.content.as_str()),
        content_preview: short(c.content.as_str(), 400),
        content: if with_content {
            Some(c.content.clone())
        } else {
            None
        },
        candidate_count: n,
    }
}

/// `GET /api/captures`: a project's captures in commit order, a page at a time.
pub fn captures(ctx: &Context, p: &Vec<(String, String)>) -> (r: Result<CaptureList, ApiError>)
    ensures
        !known_params(p@, seq!["project_id", "limit", "offset", "include_content"]) ==> r is Err,
        param_of(p@, "project_id"@) is None ==> r is Err,
        r matches Ok(list) ==> {
            let project = param_of(p@, "project_id"@).unwrap()@;
            let with_content = param_of(p@, "include_content"@) matches Some(x) && x@ == "true"@;
            &&& list.total_matched == ctx.records@.filter(|x: StoredRecord| capture_of(x, project)).len()
            &&& forall|i: int|
                0 <= i < list.captures@.len() ==> capture_listed(ctx.records@, project, with_content, #[trigger] list.captures@[i])
        },
        r matches Err(e) ==> e.code == "bad_request",
{
    let allowed: [&str; 4] = ["project_id", "limit", "offset", "include_content"];
    proof {
        assert(allowed@ =~= seq!["project_id", "limit", "offset", "include_content"]);
    }
    match check_params(p, &allowed) {
        Ok(()) => {},
        Err(e) => return Err(e),
    }
    let project = match project_param(p) {
        Ok(x) => x,
        Err(e) => return Err(e),
    };
    let limit = match count_param(p, "limit", limits::DEFAULT_CAPTURE_LIST_LIMIT, limits::MAX_CAPTURE_LIST_LIMIT) {
        Ok(n) => n,
        Err(e) => return Err(e),
    };
    let offset: usize = match param(p, "offset") {
        None => 0,
        Some(x) => match text::parse_usize(x.as_str()) {
            Some(n) => n,
            None => return Err(ApiError::bad_request(text::owned("offset must be non-negative"))),
        },
    };
    proof {
        reveal_strlit("true");
    }
    let with_content = match param(p, "include_content") {
        None => false,
        Some(x) => if text::str_eq(x.as_str(), "true") {
            true
        } else if text::str_eq(x.as_str(), "false") {
            false
        } else {
            return Err(ApiError::bad_request(text::owned("include_content must be true or false")));
        },
    };
    let ghost inc = param_of(p@, "include_content"@) matches Some(x) && x@ == "true"@;
    assert(with_content == inc) by {
        reveal_strlit("false");
        match param_of(p@, "include_content"@) {
            Some(x) => {
                if x@ == "false"@ {
                    assert(x@.len() != "true"@.len());
                }
            },
            None => {},
        }
    }
    let rs = &ctx.records;
    let ghost f = |x: StoredRecord| capture_of(x, project@);
    let mut picked: Vec<usize> = Vec::new();
    let mut i: usize = 0;
    while i < rs.len()
        invariant
            0 <= i <= rs@.len(),
            f == (|x: StoredRecord| capture_of(x, project@)),
            picked@.len() == rs@.take(i as int).filter(f).len(),
            forall|k: int| 0 <= k < picked@.len() ==> (#[trigger] picked@[k]) < rs@.len() && capture_of(rs@[picked@[k] as int], project@),
        decreases rs@.len() - i,
    {
        proof {
            assert(rs@.take(i + 1) =~= rs@.take(i as int).push(rs@[i as int]));
            rs@.take(i as int).lemma_filter_push(rs@[i as int], f);
        }
        let hit = match &rs[i].data {
            RecordData::Capture(c) => match &c.project_id {
                Some(x) => text::str_eq(x.as_str(), project.as_str()),
                None => false,
            },
            _ => false,
        };
        if hit {
            picked.push(i);
        }
        i += 1;
    }
    assert(rs@.take(rs@.len() as int) =~= rs@);
    let total = picked.len();
    let ghost picked_v = picked@;
    let ordered = sort_records(rs, picked, false);
    let start: usize = if offset < total {
        offset
    } else {
        total
    };
    let mut rows: Vec<CaptureRow> = Vec::new();
    let mut k: usize = start;
    while k < total && k - start < limit
        invariant
            start <= k <= total,
            total == ordered@.len(),
            forall|m: int| 0 <= m < ordered@.len() ==> picked_v.contains(#[trigger] ordered@[m]),
            forall|t: int| 0 <= t < picked_v.len() ==> (#[trigger] picked_v[t]) < rs@.len() && capture_of(rs@[picked_v[t] as int], project@),
            forall|t: int| 0 <= t < rows@.len() ==> capture_listed(rs@, project@, with_content, #[trigger] rows@[t]),
        decreases total - k,
    {
        assert(picked_v.contains(ordered@[k as int]));
        let x = ordered[k];
        let row = capture_row(rs, &rs[x], with_content);
        let ghost before = rows@;
        proof {
            assert(capture_listed(rs@, project@, with_content, row)) by {
                assert(capture_of(rs@[x as int], project@));
            }
        }
        rows.push(row);
        proof {
            assert forall|t: int| 0 <= t < rows@.len() implies capture_listed(rs@, project@, with_content, #[trigger] rows@[t]) by {
                if t < before.len() {
                    assert(rows@[t] == before[t]);
                }
            }
        }
        k += 1;
    }
    let truncated = offset < total && limit < total - offset;
    Ok(CaptureList { captures: rows, total_matched: total, truncated })
}


// ---------------------------------------------------------------- record detail

/// A revision of the entity a record belongs to.
#[derive(Debug)]
pub struct RevisionBrief {
    pub id: String,
    pub seq: i64,
    pub change_kind: ChangeKind,
    pub correction_of: Option<String>,
    pub body_preview: String,
}

/// A lineage neighbour: an entity this one derives from, or one derived from it.
#[derive(Debug)]
pub struct LineageRow {
    pub id: String,
    pub title: Option<String>,
    pub lineage_kind: Option<LineageKind>,
}

/// A link at one end of a record: its id, type, the other end and the link.
#[derive(Debug)]
pub struct LinkRow {
    pub link_id: String,
    pub link_type: LinkType,
    pub other_id: String,
    pub data: LinkData,
}

/// A use site of a record in some project's selected root.
#[derive(Debug)]
pub struct UseSite {
    pub root_revision_id: String,
    pub occurrence: graph::Occurrence,
    pub stage: Stage,
}

#[derive(Debug)]
pub struct RecordDetail {
    pub record: StoredRecord,
    pub entity: Option<StoredRecord>,
    pub revisions_of_entity: Vec<RevisionBrief>,
    pub derived_from: Vec<LineageRow>,
    pub derives: Vec<LineageRow>,
    pub corrections: Vec<StoredRecord>,
    pub outgoing: Vec<LinkRow>,
    pub incoming: Vec<LinkRow>,
    pub observations: Vec<StoredRecord>,
    pub assessments: Vec<StoredRecord>,
    pub occurrences: Vec<UseSite>,
}

/// The detail sections a record request asks for.
#[derive(Debug)]
pub struct Sections {
    pub links: bool,
    pub lineage: bool,
    pub evidence: bool,
    pub occurrences: bool,
}

pub open spec fn section_names() -> Seq<Seq<char>> {
    seq!["links"@, "lineage"@, "evidence"@, "occurrences"@]
}

/// The `sections` parameter: a comma list of known detail sections, all by
/// default.
pub fn parse_sections(p: &Vec<(String, String)>) -> (r: Result<Sections, ApiError>)
    ensures
        match param_of(p@, "sections"@) {
            None => r matches Ok(x) && x.links && x.lineage && x.evidence && x.occurrences,
            Some(w) => r is Ok <==> all_sections_known(text::pieces(w@, ',')),
        },
        r matches Err(e) ==> e.code == "bad_request",
{
    proof {
        reveal_strlit("links");
        reveal_strlit("lineage");
        reveal_strlit("evidence");
        reveal_strlit("occurrences");
    }
    let v = match param(p, "sections") {
        None => {
            return Ok(Sections { links: true, lineage: true, evidence: true, occurrences: true });
        },
        Some(v) => v,
    };
    let names = text::split_on(v.as_str(), ',');
    let ghost ps = text::pieces(v@, ',');
    let mut out = Sections { links: false, lineage: false, evidence: false, occurrences: false };
    let mut known = true;
    let mut i: usize = 0;
    while i < names.len()
        invariant
            0 <= i <= names@.len(),
            names@.map_values(|x: String| x@) == ps,
            known == all_sections_known(ps.take(i as int)),
        decreases names@.len() - i,
    {
        let n = names[i].as_str();
        assert(ps[i as int] == names@[i as int]@);
        let hit = if text::str_eq(n, "links") {
            out.links = true;
            true
        } else if text::str_eq(n, "lineage") {
            out.lineage = true;
            true
        } else if text::str_eq(n, "evidence") {
            out.evidence = true;
            true
        } else if text::str_eq(n, "occurrences") {
            out.occurrences = true;
            true
        } else {
            false
        };
        proof {
            let x = ps[i as int];
            if hit {
                assert(section_names().contains(x)) by {
                    if x == "links"@ {
                        assert(section_names()[0] == x);
                    } else if x == "lineage"@ {
                        assert(section_names()[1] == x);
                    } else if x == "evidence"@ {
                        assert(section_names()[2] == x);
                    } else {
                        assert(section_names()[3] == x);
                    }
                }
            } else {
                assert(!section_names().contains(x)) by {
                    if section_names().contains(x) {
                        let j = choose|j: int| 0 <= j < section_names().len() && section_names()[j] == x;
                        assert(j == 0 || j == 1 || j == 2 || j == 3);
                    }
                }
            }
            assert(ps.take(i + 1) =~= ps.take(i as int).push(x));
            assert(all_sections_known(ps.take(i + 1)) == (all_sections_known(ps.take(i as int)) && section_names().contains(x))) by {
                if all_sections_known(ps.take(i + 1)) {
                    assert forall|k: int| 0 <= k < ps.take(i as int).len() implies section_names().contains(#[trigger] ps.take(i as int)[k]) by {
                        assert(ps.take(i + 1)[k] == ps.take(i as int)[k]);
                    }
                    assert(ps.take(i + 1)[i as int] == x);
                }
            }
        }
        known = known && hit;
        i += 1;
    }
    proof {
        assert(ps.take(names@.len() as int) =~= ps);
    }
    if !known {
        return Err(ApiError::bad_request(text::owned("sections has an unknown section")));
    }
    Ok(out)
}

/// Every piece names a detail section.
pub open spec fn all_sections_known(ps: Seq<Seq<char>>) -> bool {
    forall|i: int| 0 <= i < ps.len() ==> section_names().contains(#[trigger] ps[i])
}

/// Use sites of `wanted` across every project's root on `stage`.
fn all_occurrences(v: &KnownView, stage: Stage, wanted: &str) -> (r: Vec<UseSite>)
    ensures
        forall|i: int|
            0 <= i < r@.len() ==> wanted_use(v.records@, (#[trigger] r@[i]).occurrence, wanted@, true),
{
    let rs = &v.records;
    let mut out: Vec<UseSite> = Vec::new();
    let mut i: usize = 0;
    while i < rs.len()
        invariant
            0 <= i <= rs@.len(),
            rs@ == v.records@,
            forall|k: int| 0 <= k < out@.len() ==> wanted_use(v.records@, (#[trigger] out@[k]).occurrence, wanted@, true),
        decreases rs@.len() - i,
    {
        let pr = &rs[i];
        match &pr.data {
            RecordData::Project(_) => {
                match head_root(v, pr.id.as_str(), stage) {
                    Some(c) => {
                        if valid_root(v, pr.id.as_str(), c.revision_id.as_str()) {
                            let limits = Limits { max_nodes: 500, max_depth: graph::MAX_DEPTH };
                            let walk = graph::walk(rs, c.revision_id.as_str(), limits);
                            let mut k: usize = 0;
                            while k < walk.occurrences.len()
                                invariant
                                    0 <= k <= walk.occurrences@.len(),
                                    rs@ == v.records@,
                                    forall|m: int| 0 <= m < out@.len() ==> wanted_use(v.records@, (#[trigger] out@[m]).occurrence, wanted@, true),
                                decreases walk.occurrences@.len() - k,
                            {
                                let o = &walk.occurrences[k];
                                if is_wanted_use(rs, o, wanted, true) {
                                    let site = UseSite {
                                        root_revision_id: c.revision_id.clone(),
                                        occurrence: copy_occurrence(o),
                                        stage,
                                    };
                                    let ghost before = out@;
                                    proof {
                                        assert(wanted_use(v.records@, site.occurrence, wanted@, true));
                                    }
                                    out.push(site);
                                    proof {
                                        assert forall|m: int| 0 <= m < out@.len() implies wanted_use(v.records@, (#[trigger] out@[m]).occurrence, wanted@, true) by {
                                            if m < before.len() {
                                                assert(out@[m] == before[m]);
                                            }
                                        }
                                    }
                                }
                                k += 1;
                            }
                        }
                    },
                    None => {},
                }
            },
            _ => {},
        }
        i += 1;
    }
    out
}

fn lineage_row(x: &StoredRecord) -> (r: LineageRow)
    ensures
        r.id == x.id,
{
    match &x.data {
        RecordData::Entity(e) => LineageRow { id: x.id.clone(), title: Some(e.title.clone()), lineage_kind: Some(e.lineage_kind) },
        _ => LineageRow { id: x.id.clone(), title: None, lineage_kind: None },
    }
}

/// An observation that targets `id` and occurred by the cut.
pub open spec fn observes(r: StoredRecord, id: Seq<char>, effective: Option<Seq<char>>) -> bool {
    r.data matches RecordData::Observation(o) && opt_view(o.target_revision_id) == Some(id) && match effective {
        None => true,
        Some(cut) => by_cut(o.occurred_at@, cut),
    }
}

/// An assessment of `id` that may be projected at the cut.
pub open spec fn assesses(rs: Seq<StoredRecord>, r: StoredRecord, id: Seq<char>, effective: Option<Seq<char>>) -> bool {
    r.data matches RecordData::Assessment(a) && a.target_revision_id@ == id && assessment_shown(rs, effective, a)
}

/// A record's detail at the selected time: the record, its entity and the
/// entity's revisions, lineage, links, evidence visible at the effective
/// time, and its use sites.
pub fn record_detail(v: &KnownView, id: &str, stage: Stage, sections: &Sections) -> (r: Result<RecordDetail, ApiError>)
    ensures
        r is Ok <==> graph::first_with_id(v.records@, id@) is Some,
        r matches Err(e) ==> e.code == "not_found",
        r matches Ok(d) ==> {
            &&& d.record.same_as(&graph::first_with_id(v.records@, id@).unwrap())
            &&& forall|i: int| 0 <= i < d.observations@.len() ==> observes(#[trigger] d.observations@[i], id@, opt_view(v.effective))
            &&& forall|i: int| 0 <= i < d.assessments@.len() ==> assesses(v.records@, #[trigger] d.assessments@[i], id@, opt_view(v.effective))
            &&& forall|i: int| 0 <= i < d.outgoing@.len() ==> (#[trigger] d.outgoing@[i]).data.from_id@ == id@
            &&& forall|i: int| 0 <= i < d.incoming@.len() ==> (#[trigger] d.incoming@[i]).data.to_id@ == id@
            &&& (!sections.links ==> d.outgoing@.len() == 0 && d.incoming@.len() == 0)
            &&& (!sections.evidence ==> d.observations@.len() == 0 && d.assessments@.len() == 0)
            &&& (!sections.occurrences ==> d.occurrences@.len() == 0)
            &&& (!sections.lineage ==> d.derived_from@.len() == 0 && d.derives@.len() == 0 && d.corrections@.len() == 0)
            &&& forall|i: int| 0 <= i < d.occurrences@.len() ==> wanted_use(v.records@, (#[trigger] d.occurrences@[i]).occurrence, id@, true)
        },
{
    let rs = &v.records;
    let r = match graph::find_record(rs, id) {
        Some(x) => x,
        None => {
            let mut m = text::owned("record ");
            text::push_str(&mut m, id);
            text::push_str(&mut m, " not found at selected time");
            return Err(ApiError::not_found(m));
        },
    };
    let entity: Option<&StoredRecord> = match &r.data {
        RecordData::Revision(d) => match graph::find_record(rs, d.entity_id.as_str()) {
            Some(e) => if e.kind() == RecordKind::Entity {
                Some(e)
            } else {
                None
            },
            None => None,
        },
        _ => None,
    };
    let mut revisions: Vec<RevisionBrief> = Vec::new();
    let mut derived_from: Vec<LineageRow> = Vec::new();
    let mut derives: Vec<LineageRow> = Vec::new();
    let mut corrections: Vec<StoredRecord> = Vec::new();
    let mut outgoing: Vec<LinkRow> = Vec::new();
    let mut incoming: Vec<LinkRow> = Vec::new();
    let mut observations: Vec<StoredRecord> = Vec::new();
    let mut assessments: Vec<StoredRecord> = Vec::new();
    match entity {
        Some(e) => {
            let mut i: usize = 0;
            while i < rs.len()
                invariant
                    0 <= i <= rs@.len(),
                decreases rs@.len() - i,
            {
                match &rs[i].data {
                    RecordData::Revision(d) => if text::str_eq(d.entity_id.as_str(), e.id.as_str()) {
                        revisions.push(
                            RevisionBrief {
                                id: rs[i].id.clone(),
                                seq: rs[i].seq,
                                change_kind: d.change_kind,
                                correction_of: d.correction_of.clone(),
                                body_preview: short(d.body.as_str(), 400),
                            },
                        );
                    },
                    _ => {},
                }
                i += 1;
            }
        },
        None => {},
    }
    if sections.lineage {
        match entity {
            Some(e) => {
                match &e.data {
                    RecordData::Entity(ed) => {
                        let mut k: usize = 0;
                        while k < ed.derived_from.len()
                            invariant
                                0 <= k <= ed.derived_from@.len(),
                            decreases ed.derived_from@.len() - k,
                        {
                            match graph::find_record(rs, ed.derived_from[k].as_str()) {
                                Some(x) => derived_from.push(lineage_row(x)),
                                None => {},
                            }
                            k += 1;
                        }
                    },
                    _ => {},
                }
                let mut i: usize = 0;
                while i < rs.len()
                    invariant
                        0 <= i <= rs@.len(),
                    decreases rs@.len() - i,
                {
                    match &rs[i].data {
                        RecordData::Entity(x) => if text::contains_str(&x.derived_from, e.id.as_str()) {
                            derives.push(lineage_row(&rs[i]));
                        },
                        _ => {},
                    }
                    i += 1;
                }
            },
            None => {},
        }
        let mut i: usize = 0;
        while i < rs.len()
            invariant
                0 <= i <= rs@.len(),
            decreases rs@.len() - i,
        {
            let hit = match &rs[i].data {
                RecordData::Revision(d) => match &d.correction_of {
                    Some(c) => text::str_eq(c.as_str(), id),
                    None => false,
                },
                _ => false,
            };
            if hit {
                corrections.push(rs[i].clone());
            }
            i += 1;
        }
    }
    if sections.links {
        let mut i: usize = 0;
        while i < rs.len()
            invariant
                0 <= i <= rs@.len(),
                forall|k: int| 0 <= k < outgoing@.len() ==> (#[trigger] outgoing@[k]).data.from_id@ == id@,
                forall|k: int| 0 <= k < incoming@.len() ==> (#[trigger] incoming@[k]).data.to_id@ == id@,
            decreases rs@.len() - i,
        {
            match &rs[i].data {
                RecordData::Link(l) => {
                    if text::str_eq(l.from_id.as_str(), id) {
                        let c = l.clone();
                        outgoing.push(LinkRow { link_id: rs[i].id.clone(), link_type: l.link_type, other_id: l.to_id.clone(), data: c });
                    }
                    if text::str_eq(l.to_id.as_str(), id) {
                        let c = l.clone();
                        incoming.push(LinkRow { link_id: rs[i].id.clone(), link_type: l.link_type, other_id: l.from_id.clone(), data: c });
                    }
                },
                _ => {},
            }
            i += 1;
        }
    }
    if sections.evidence {
        let mut i: usize = 0;
        while i < rs.len()
            invariant
                0 <= i <= rs@.len(),
                rs@ == v.records@,
                forall|k: int| 0 <= k < observations@.len() ==> observes(#[trigger] observations@[k], id@, opt_view(v.effective)),
                forall|k: int| 0 <= k < assessments@.len() ==> assesses(v.records@, #[trigger] assessments@[k], id@, opt_view(v.effective)),
            decreases rs@.len() - i,
        {
            let x = &rs[i];
            match &x.data {
                RecordData::Observation(o) => {
                    let hit = match &o.target_revision_id {
                        Some(t) => text::str_eq(t.as_str(), id) && match &v.effective {
                            None => true,
                            Some(cut) => time_by_cut(o.occurred_at.as_str(), cut.as_str()),
                        },
                        None => false,
                    };
                    if hit {
                        let c = x.clone();
                        assert(observes(*x, id@, opt_view(v.effective)));
                        observations.push(c);
                    }
                },
                RecordData::Assessment(a) => {
                    if text::str_eq(a.target_revision_id.as_str(), id) && assessment_visible(v, a) {
                        let c = x.clone();
                        assessments.push(c);
                    }
                },
                _ => {},
            }
            i += 1;
        }
    }
    let occurrences = if sections.occurrences {
        all_occurrences(v, stage, id)
    } else {
        Vec::new()
    };
    Ok(
        RecordDetail {
            record: r.clone(),
            entity: match entity {
                Some(e) => Some(e.clone()),
                None => None,
            },
            revisions_of_entity: revisions,
            derived_from,
            derives,
            corrections,
            outgoing,
            incoming,
            observations,
            assessments,
            occurrences,
        },
    )
}

/// `GET /api/record/{id}`.
pub fn record(ctx: &Context, id: &str, p: &Vec<(String, String)>) -> (r: Result<RecordDetail, ApiError>)
    ensures
        !known_params(p@, seq!["sections", "stage", "known_seq", "known_at", "effective_at"]) ==> r is Err,
        selected_known(ctx, p@) is None ==> r is Err,
        r matches Err(e) ==> e.code == "bad_request" || e.code == "not_found",
{
    let allowed: [&str; 5] = ["sections", "stage", "known_seq", "known_at", "effective_at"];
    proof {
        assert(allowed@ =~= seq!["sections", "stage", "known_seq", "known_at", "effective_at"]);
    }
    match check_params(p, &allowed) {
        Ok(()) => {},
        Err(e) => return Err(e),
    }
    let v = match view(ctx, p) {
        Ok(v) => v,
        Err(e) => return Err(e),
    };
    if graph::find_record(&v.records, id).is_none() {
        let mut m = text::owned("record ");
        text::push_str(&mut m, id);
        text::push_str(&mut m, " not found at selected time");
        return Err(ApiError::not_found(m));
    }
    let s = match stage_param(p) {
        Ok(s) => s,
        Err(e) => return Err(e),
    };
    let sections = match parse_sections(p) {
        Ok(x) => x,
        Err(e) => return Err(e),
    };
    record_detail(&v, id, s, &sections)
}

} // verus!
