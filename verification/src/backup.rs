//! Restore checks for an exported document.
//!
//! A document is only a proposal: every record is re-validated by the same
//! validator that guards live writes, commit by commit, and the heads are
//! re-derived from the record events instead of being copied out of the
//! document. A backup can therefore restore state, but it cannot introduce
//! state the running server would have refused.

use vstd::prelude::*;

use crate::error::{has_code, ApiError, Issue};
use crate::graph::{self, Lookup};
use crate::json::{self, Json};
use crate::limits;
use crate::staging;
use crate::model::{ChangeKind, NewRecord, RecordData, RecordKind, Stage, StoredRecord};
use crate::store;
use crate::text;
use crate::util;
use crate::validate::{self, Context, HeadState, Package};

verus! {

pub const FORMAT_VERSION: u32 = 1;

fn refuse(path: String, code: &'static str, message: String) -> (e: ApiError)
    ensures
        e.code == "validation_failed",
        e.issues@.len() == 1,
        e.issues@[0].code == code,
        e.issues@[0].path == path,
        e.carries(code),
{
    let e = ApiError::issue(path, code, message);
    assert(e.issues@[0].code == code);
    e
}

fn record_path(id: &String) -> (r: String)
    ensures
        r@ == "content.records["@ + id@ + "]"@,
{
    let mut p = text::owned("content.records[");
    text::push_str(&mut p, id.as_str());
    text::push_str(&mut p, "]");
    p
}

// ---------------------------------------------------------------- timestamps

/// The one record time a commit may carry: the canonical UTC form of the
/// first record's time, shared by every record of the commit.
pub open spec fn commit_time_ok(group: Seq<StoredRecord>) -> bool {
    &&& group.len() > 0
    &&& util::spec_utc_key(group[0].recorded_at@) == Some(group[0].recorded_at@)
    &&& forall|i: int| 0 <= i < group.len() ==> (#[trigger] group[i]).recorded_at@ == group[0].recorded_at@
}

/// A commit's server timestamp, which every record in that commit shares.
///
/// The live path stamps one `recorded_at` per commit and writes it in
/// canonical UTC millisecond form. A document whose records disagree inside
/// one commit, or whose timestamp is merely parseable rather than canonical,
/// did not come from a commit this server would have made.
pub fn group_recorded_at(seq: i64, group: &Vec<StoredRecord>) -> (r: Result<String, ApiError>)
    ensures
        match r {
            Ok(stamp) => commit_time_ok(group@) && stamp@ == group@[0].recorded_at@,
            Err(e) => !commit_time_ok(group@) && (group@.len() > 0 && util::spec_utc_key(
                group@[0].recorded_at@,
            ) is None ==> e.carries("timezone_required")) && (group@.len() > 0
                && util::spec_utc_key(group@[0].recorded_at@) is Some ==> e.carries(
                "invalid_field",
            )),
        },
{
    if group.len() == 0 {
        let mut p = text::owned("content.records[seq=");
        text::push_str(&mut p, text::int_text(seq).as_str());
        text::push_str(&mut p, "]");
        return Err(refuse(p, "invalid_field", text::owned("empty commit")));
    }
    let first = &group[0];
    let stamp = first.recorded_at.clone();
    let mut path = record_path(&first.id);
    text::push_str(&mut path, ".recorded_at");
    let canonical = match util::utc_key(stamp.as_str()) {
        Some(c) => c,
        None => {
            let mut m = text::owned("'");
            text::push_str(&mut m, stamp.as_str());
            text::push_str(&mut m, "' is not RFC 3339 with an explicit offset");
            return Err(refuse(path, "timezone_required", m));
        },
    };
    if !text::str_eq(canonical.as_str(), stamp.as_str()) {
        let mut m = text::owned("'");
        text::push_str(&mut m, stamp.as_str());
        text::push_str(&mut m, "' is not the canonical server form '");
        text::push_str(&mut m, canonical.as_str());
        text::push_str(&mut m, "'");
        return Err(refuse(path, "invalid_field", m));
    }
    let mut i: usize = 1;
    while i < group.len()
        invariant
            1 <= i <= group@.len(),
            stamp@ == group@[0].recorded_at@,
            util::spec_utc_key(group@[0].recorded_at@) == Some(group@[0].recorded_at@),
            forall|j: int| 0 <= j < i ==> (#[trigger] group@[j]).recorded_at@ == group@[0].recorded_at@,
        decreases group@.len() - i,
    {
        if !text::str_eq(group[i].recorded_at.as_str(), stamp.as_str()) {
            assert(group@[i as int].recorded_at@ != group@[0].recorded_at@);
            assert(!commit_time_ok(group@));
            let mut p = record_path(&group[i].id);
            text::push_str(&mut p, ".recorded_at");
            let mut m = text::owned("commit ");
            text::push_str(&mut m, text::int_text(seq).as_str());
            text::push_str(&mut m, " carries two record times, '");
            text::push_str(&mut m, stamp.as_str());
            text::push_str(&mut m, "' and '");
            text::push_str(&mut m, group[i].recorded_at.as_str());
            text::push_str(&mut m, "'");
            return Err(refuse(p, "invalid_field", m));
        }
        i += 1;
    }
    Ok(stamp)
}

// ---------------------------------------------------------------- head events

/// Running head state during a replay: the working head of each project, and
/// the head events seen, one per project, stage and commit.
#[derive(Debug)]
pub struct Replay {
    pub heads: Vec<(String, Option<String>)>,
    pub events: Vec<(String, Stage, i64)>,
}

/// The working head of `project` during a replay.
pub open spec fn replayed_head(heads: Seq<(String, Option<String>)>, project: Seq<char>) -> Option<String>
    decreases heads.len(),
{
    if heads.len() == 0 {
        None
    } else if heads[0].0@ == project {
        heads[0].1
    } else {
        replayed_head(heads.drop_first(), project)
    }
}

pub open spec fn seen_event(events: Seq<(String, Stage, i64)>, project: Seq<char>, stage: Stage, seq: i64) -> bool {
    exists|i: int|
        0 <= i < events.len() && (#[trigger] events[i]).0@ == project && events[i].1 == stage
            && events[i].2 == seq
}

pub open spec fn opt_view(o: Option<String>) -> Option<Seq<char>> {
    match o {
        Some(s) => Some(s@),
        None => None,
    }
}

/// The verdict on one head event: `Ok` when the event is a legal move, else
/// the code of the first rule it breaks.
pub open spec fn head_event_verdict(ctx: &Context, replay: &Replay, rec: StoredRecord) -> Result<
    (),
    &'static str,
> {
    let target = match rec.data {
        RecordData::HeadChange(d) => if d.stage != Stage::Working {
            Err("invalid_field")
        } else if !d.meaningful || text::spec_is_blank(d.reason@) || text::spec_is_blank(
            d.decision.rationale@,
        ) {
            Err("root_change_requires_decision")
        } else if text::spec_is_blank(d.actor@) {
            Err("invalid_field")
        } else if opt_view(replayed_head(replay.heads@, d.project_id@)) != opt_view(
            d.before_revision_id,
        ) {
            Err("invalid_head_revision")
        } else {
            Ok((d.project_id@, d.after_revision_id@, Stage::Working))
        },
        RecordData::Publication(d) => if util::spec_rfc3339_utc(d.published_at@) is None {
            Err("timezone_required")
        } else if text::spec_is_blank(d.label@) || text::spec_is_blank(d.actor@) {
            Err("invalid_field")
        } else {
            Ok((d.project_id@, d.root_revision_id@, Stage::Official))
        },
        _ => Err(""),
    };
    match target {
        Err(code) => if code == "" {
            Ok(())
        } else {
            Err(code)
        },
        Ok((project, revision, stage)) => if seen_event(replay.events@, project, stage, rec.seq) {
            Err("invalid_field")
        } else if !(ctx.holds(project) matches Some(p) && p.kind_of() == RecordKind::Project) {
            Err("unknown_reference")
        } else if !(ctx.holds(revision) matches Some(r) && r.kind_of() == RecordKind::Revision) {
            Err("unknown_reference")
        } else if !validate::head_revision_ok(ctx, project, revision) {
            Err("invalid_head_revision")
        } else {
            Ok(())
        },
    }
}

fn replay_head(replay: &Replay, project: &String) -> (r: Option<String>)
    ensures
        r == replayed_head(replay.heads@, project@),
{
    let mut i: usize = 0;
    assert(replay.heads@.skip(0) == replay.heads@);
    while i < replay.heads.len()
        invariant
            0 <= i <= replay.heads@.len(),
            replayed_head(replay.heads@, project@) == replayed_head(replay.heads@.skip(i as int), project@),
        decreases replay.heads@.len() - i,
    {
        assert(replay.heads@.skip(i as int).drop_first() == replay.heads@.skip(i + 1));
        if text::str_eq(replay.heads[i].0.as_str(), project.as_str()) {
            return replay.heads[i].1.clone();
        }
        i += 1;
    }
    None
}

fn opt_same(a: &Option<String>, b: &Option<String>) -> (r: bool)
    ensures
        r == (opt_view(*a) == opt_view(*b)),
{
    match (a, b) {
        (Some(x), Some(y)) => text::str_eq(x.as_str(), y.as_str()),
        (None, None) => true,
        _ => false,
    }
}

fn event_seen(replay: &Replay, project: &String, stage: Stage, seq: i64) -> (r: bool)
    ensures
        r == seen_event(replay.events@, project@, stage, seq),
{
    let mut i: usize = 0;
    while i < replay.events.len()
        invariant
            0 <= i <= replay.events@.len(),
            forall|j: int|
                0 <= j < i ==> !((#[trigger] replay.events@[j]).0@ == project@ && replay.events@[j].1
                    == stage && replay.events@[j].2 == seq),
        decreases replay.events@.len() - i,
    {
        if text::str_eq(replay.events[i].0.as_str(), project.as_str()) && replay.events[i].1 == stage
            && replay.events[i].2 == seq {
            return true;
        }
        i += 1;
    }
    false
}

/// Head events carry the authority to move a head, so they get the same
/// checks the live path applies before it writes one, plus the continuity
/// checks a live sequence gets for free: a head change must start from the
/// head that actually existed, and one commit moves a given head at most once.
pub fn check_head_event(ctx: &Context, replay: &mut Replay, rec: &StoredRecord) -> (r: Result<
    (),
    ApiError,
>)
    ensures
        match head_event_verdict(ctx, old(replay), *rec) {
            Ok(()) => r is Ok,
            Err(code) => r matches Err(e) && e.carries(code),
        },
{
    let path = record_path(&rec.id);
    let (project_id, revision_id, stage) = match &rec.data {
        RecordData::HeadChange(d) => {
            if d.stage != Stage::Working {
                return Err(
                    refuse(
                        path,
                        "invalid_field",
                        text::owned("head_change records the working stage only"),
                    ),
                );
            }
            if !d.meaningful || text::is_blank(d.reason.as_str()) || text::is_blank(
                d.decision.rationale.as_str(),
            ) {
                return Err(
                    refuse(
                        path,
                        "root_change_requires_decision",
                        text::owned(
                            "an imported head change must carry its reason and before/after decision",
                        ),
                    ),
                );
            }
            if text::is_blank(d.actor.as_str()) {
                return Err(
                    refuse(
                        path,
                        "invalid_field",
                        text::owned("an imported head change must name its actor"),
                    ),
                );
            }
            // The move must start where the head actually was at this point in
            // the replay. Otherwise a document could graft an unrelated history.
            let current = replay_head(replay, &d.project_id);
            if !opt_same(&current, &d.before_revision_id) {
                let mut m = text::owned("claims it moved from another head than the working head at seq ");
                text::push_str(&mut m, text::int_text(rec.seq).as_str());
                return Err(refuse(path, "invalid_head_revision", m));
            }
            (&d.project_id, &d.after_revision_id, Stage::Working)
        },
        RecordData::Publication(d) => {
            if util::parse_rfc3339(d.published_at.as_str()).is_none() {
                let mut m = text::owned("published_at '");
                text::push_str(&mut m, d.published_at.as_str());
                text::push_str(&mut m, "' has no explicit offset");
                return Err(refuse(path, "timezone_required", m));
            }
            if text::is_blank(d.label.as_str()) || text::is_blank(d.actor.as_str()) {
                return Err(
                    refuse(
                        path,
                        "invalid_field",
                        text::owned("an imported publication must carry a label and an actor"),
                    ),
                );
            }
            (&d.project_id, &d.root_revision_id, Stage::Official)
        },
        _ => return Ok(()),
    };
    if event_seen(replay, project_id, stage, rec.seq) {
        let mut m = text::owned("commit ");
        text::push_str(&mut m, text::int_text(rec.seq).as_str());
        text::push_str(&mut m, " moves the ");
        text::push_str(&mut m, stage.as_str());
        text::push_str(&mut m, " head of ");
        text::push_str(&mut m, project_id.as_str());
        text::push_str(&mut m, " more than once");
        return Err(refuse(path, "invalid_field", m));
    }
    replay.events.push((project_id.clone(), stage, rec.seq));
    let project_ok = match ctx.get(project_id.as_str()) {
        Some(p) => p.kind() == RecordKind::Project,
        None => false,
    };
    if !project_ok {
        let mut m = text::owned("project ");
        text::push_str(&mut m, project_id.as_str());
        text::push_str(&mut m, " not found");
        return Err(refuse(path, "unknown_reference", m));
    }
    let revision = match ctx.get(revision_id.as_str()) {
        Some(r) => {
            if r.kind() != RecordKind::Revision {
                let mut m = text::owned("revision ");
                text::push_str(&mut m, revision_id.as_str());
                text::push_str(&mut m, " not found");
                return Err(refuse(path, "unknown_reference", m));
            }
            r
        },
        None => {
            let mut m = text::owned("revision ");
            text::push_str(&mut m, revision_id.as_str());
            text::push_str(&mut m, " not found");
            return Err(refuse(path, "unknown_reference", m));
        },
    };
    let own = match revision.as_revision() {
        Some(data) => text::str_eq(data.entity_id.as_str(), project_id.as_str()),
        None => false,
    };
    if !own {
        let mut m = revision_id.clone();
        text::push_str(&mut m, " must be a revision of Project ");
        text::push_str(&mut m, project_id.as_str());
        text::push_str(&mut m, " itself");
        return Err(refuse(path, "invalid_head_revision", m));
    }
    if stage == Stage::Working {
        let mut i: usize = 0;
        let mut found = false;
        while i < replay.heads.len()
            decreases replay.heads@.len() - i,
        {
            if !found && text::str_eq(replay.heads[i].0.as_str(), project_id.as_str()) {
                let name = replay.heads[i].0.clone();
                replay.heads.set(i, (name, Some(revision_id.clone())));
                found = true;
            }
            i += 1;
        }
        if !found {
            replay.heads.push((project_id.clone(), Some(revision_id.clone())));
        }
    }
    Ok(())
}


// ---------------------------------------------------------------- replay

/// Distinct sequence numbers of `records`, ascending.
fn commit_seqs(records: &Vec<StoredRecord>) -> (r: Vec<i64>)
    ensures
        forall|a: int, b: int| 0 <= a < b < r@.len() ==> r@[a] < r@[b],
        forall|i: int| 0 <= i < records@.len() ==> r@.contains(#[trigger] records@[i].seq),
{
    let mut out: Vec<i64> = Vec::new();
    let mut i: usize = 0;
    while i < records.len()
        invariant
            0 <= i <= records@.len(),
            forall|a: int, b: int| 0 <= a < b < out@.len() ==> out@[a] < out@[b],
            forall|j: int| 0 <= j < i ==> out@.contains(#[trigger] records@[j].seq),
        decreases records@.len() - i,
    {
        let s = records[i].seq;
        let mut p: usize = 0;
        while p < out.len() && out[p] < s
            invariant
                0 <= p <= out@.len(),
                forall|x: int| 0 <= x < p ==> out@[x] < s,
            decreases out@.len() - p,
        {
            p += 1;
        }
        if p < out.len() && out[p] == s {
            assert(out@.contains(s)) by {
                assert(out@[p as int] == s);
            }
        } else {
            let ghost before = out@;
            out.insert(p, s);
            proof {
                assert(out@ == before.take(p as int).push(s) + before.skip(p as int));
                assert(out@[p as int] == s);
                assert forall|j: int| 0 <= j < i implies out@.contains(#[trigger] records@[j].seq) by {
                    let v = records@[j].seq;
                    assert(before.contains(v));
                    let x = choose|x: int| 0 <= x < before.len() && before[x] == v;
                    if x < p {
                        assert(out@[x] == v);
                    } else {
                        assert(out@[x + 1] == v);
                    }
                }
            }
        }
        i += 1;
    }
    out
}

/// The records of `records` in commit `seq`, in document order.
pub open spec fn in_commit(records: Seq<StoredRecord>, seq: i64) -> Seq<StoredRecord> {
    records.filter(|x: StoredRecord| x.seq == seq)
}

/// The records of one commit, in document order.
fn commit_group(records: &Vec<StoredRecord>, seq: i64) -> (r: Vec<StoredRecord>)
    ensures
        forall|i: int| 0 <= i < r@.len() ==> (#[trigger] r@[i]).seq == seq,
        r@.len() == in_commit(records@, seq).len(),
        forall|i: int| 0 <= i < r@.len() ==> (#[trigger] r@[i]).same_as(&in_commit(records@, seq)[i]),
{
    let ghost f = |x: StoredRecord| x.seq == seq;
    let mut out: Vec<StoredRecord> = Vec::new();
    let mut i: usize = 0;
    assert(records@.take(0).filter(f) =~= Seq::<StoredRecord>::empty());
    while i < records.len()
        invariant
            0 <= i <= records@.len(),
            f == (|x: StoredRecord| x.seq == seq),
            forall|j: int| 0 <= j < out@.len() ==> (#[trigger] out@[j]).seq == seq,
            out@.len() == records@.take(i as int).filter(f).len(),
            forall|j: int| 0 <= j < out@.len() ==> (#[trigger] out@[j]).same_as(&records@.take(i as int).filter(f)[j]),
        decreases records@.len() - i,
    {
        proof {
            assert(records@.take(i + 1) =~= records@.take(i as int).push(records@[i as int]));
            records@.take(i as int).lemma_filter_push(records@[i as int], f);
        }
        if records[i].seq == seq {
            let c = records[i].clone();
            out.push(c);
        }
        i += 1;
    }
    assert(records@.take(records@.len() as int) =~= records@);
    out
}

/// What the validator plans for a restored payload differs from the payload
/// exactly when it is a composition that leaves out its predecessor while the
/// entity already has revisions: the plan names the latest of them.
pub open spec fn plan_differs(ctx: &Context, d: RecordData) -> bool {
    match d {
        RecordData::Revision(r) => r.change_kind == ChangeKind::Composition
            && r.previous_revision_id is None && ctx.revisions_of(r.entity_id@).len() > 0,
        _ => false,
    }
}

fn plan_changes(ctx: &Context, d: &RecordData) -> (r: bool)
    ensures
        r == plan_differs(ctx, *d),
{
    match d {
        RecordData::Revision(r) => r.change_kind == ChangeKind::Composition
            && r.previous_revision_id.is_none() && ctx.existing_revisions(r.entity_id.as_str()).len() > 0,
        _ => false,
    }
}

/// Replay the document one commit at a time through the live validator.
///
/// Each commit is submitted as the package it once was, so imports are held
/// to exactly the invariants a live write is held to, and the plan the
/// validator produces is held against the document. Head events are checked
/// separately because a package may not submit them directly, but they are
/// held to the same rules the live head path applies.
pub fn revalidate(records: &Vec<StoredRecord>, final_seq: i64) -> (r: Result<
    Vec<(String, HeadState)>,
    ApiError,
>)
    ensures
        r is Ok ==> forall|i: int|
            0 <= i < records@.len() ==> 1 <= (#[trigger] records@[i]).seq <= final_seq,
        (exists|i: int| 0 <= i < records@.len() && !(1 <= #[trigger] records@[i].seq <= final_seq))
            ==> (r matches Err(e) && e.code == "validation_failed" && e.issues@.len() == 1
            && e.issues@[0].code == "invalid_field" && exists|i: int|
            0 <= i < records@.len() && !(1 <= #[trigger] records@[i].seq <= final_seq)
                && e.issues@[0].path@ == "content.records["@ + records@[i].id@ + "]"@),
        r matches Ok(heads) ==> forall|a: int, b: int|
            0 <= a < b < heads@.len() ==> (#[trigger] heads@[a]).0@ != (#[trigger] heads@[b]).0@,
{
    let mut i: usize = 0;
    while i < records.len()
        invariant
            0 <= i <= records@.len(),
            forall|j: int| 0 <= j < i ==> 1 <= (#[trigger] records@[j]).seq <= final_seq,
        decreases records@.len() - i,
    {
        if records[i].seq < 1 || records[i].seq > final_seq {
            let mut m = text::owned("seq ");
            text::push_str(&mut m, text::int_text(records[i].seq).as_str());
            text::push_str(&mut m, " is outside 1..");
            text::push_str(&mut m, text::int_text(final_seq).as_str());
            return Err(refuse(record_path(&records[i].id), "invalid_field", m));
        }
        i += 1;
    }
    let mut ctx = Context::new(0);
    let mut replay = Replay { heads: Vec::new(), events: Vec::new() };
    let seqs = commit_seqs(records);
    let mut duplicate = false;
    let mut g: usize = 0;
    while g < seqs.len()
        invariant
            forall|j: int| 0 <= j < records@.len() ==> 1 <= (#[trigger] records@[j]).seq <= final_seq,
        decreases seqs@.len() - g,
    {
        let seq = seqs[g];
        let group = commit_group(records, seq);
        let recorded_at = match group_recorded_at(seq, &group) {
            Ok(t) => t,
            Err(e) => return Err(e),
        };
        let mut client: Vec<NewRecord> = Vec::new();
        let mut events: Vec<usize> = Vec::new();
        let mut k: usize = 0;
        while k < group.len()
            invariant
                forall|x: int| 0 <= x < events@.len() ==> (#[trigger] events@[x]) < group@.len(),
                forall|j: int| 0 <= j < records@.len() ==> 1 <= (#[trigger] records@[j]).seq <= final_seq,
            decreases group@.len() - k,
        {
            if group[k].kind().is_server_only() {
                events.push(k);
            } else {
                client.push(NewRecord {
                    id: group[k].id.clone(),
                    kind: group[k].kind(),
                    data: Ok(group[k].data.clone()),
                });
            }
            k += 1;
        }
        let mut key = text::owned("import:");
        text::push_str(&mut key, text::int_text(seq).as_str());
        let pkg = Package {
            protocol_version: crate::model::PROTOCOL_VERSION,
            idempotency_key: key,
            actor: text::owned("import"),
            reason: text::owned("restore"),
            expected_heads: Vec::new(),
            records: client,
            root_change: None,
            publish: None,
        };
        ctx.seq = if seq > 0 { seq - 1 } else { 0 };
        let plan = match validate::validate_package(&pkg, &ctx, seq, recorded_at.as_str()) {
            Ok(p) => p,
            Err(issues) => return Err(ApiError::validation(issues)),
        };
        // The plan is the normalised truth: anything the document says that
        // the validator would not have produced is a difference, not a detail.
        let mut k: usize = 0;
        while k < pkg.records.len()
            invariant
                forall|j: int| 0 <= j < records@.len() ==> 1 <= (#[trigger] records@[j]).seq <= final_seq,
            decreases pkg.records@.len() - k,
        {
            if let Ok(d) = &pkg.records[k].data {
                if plan_changes(&ctx, d) {
                    let mut p = record_path(&pkg.records[k].id);
                    text::push_str(&mut p, ".data");
                    return Err(
                        refuse(
                            p,
                            "invalid_field",
                            text::owned("record payload differs from the validated plan"),
                        ),
                    );
                }
            }
            k += 1;
        }
        let mut k: usize = 0;
        while k < plan.records.len()
            invariant
                forall|j: int| 0 <= j < records@.len() ==> 1 <= (#[trigger] records@[j]).seq <= final_seq,
            decreases plan.records@.len() - k,
        {
            ctx.insert(plan.records[k].clone());
            k += 1;
        }
        let mut k: usize = 0;
        while k < events.len()
            invariant
                forall|x: int| 0 <= x < events@.len() ==> (#[trigger] events@[x]) < group@.len(),
                forall|j: int| 0 <= j < records@.len() ==> 1 <= (#[trigger] records@[j]).seq <= final_seq,
            decreases events@.len() - k,
        {
            let rec = &group[events[k]];
            match check_head_event(&ctx, &mut replay, rec) {
                Ok(()) => {},
                Err(e) => return Err(e),
            }
            if ctx.get(rec.id.as_str()).is_some() {
                duplicate = true;
            }
            ctx.insert(rec.clone());
            k += 1;
        }
        g += 1;
    }
    if duplicate || ctx.records.len() != records.len() {
        return Err(
            refuse(
                text::owned("content.records"),
                "duplicate_id",
                text::owned("the document repeats an application id"),
            ),
        );
    }
    Ok(store::derive_heads(&ctx.records))
}


// ---------------------------------------------------------------- declared heads

/// A head row as a document declares it.
#[derive(Debug)]
pub struct DeclaredHead {
    pub project_id: String,
    pub working_head: Option<String>,
    pub official_head: Option<String>,
}

/// The heads `derived` holds for `project`, if any.
pub open spec fn heads_for(derived: Seq<(String, HeadState)>, project: Seq<char>) -> Option<HeadState>
    decreases derived.len(),
{
    if derived.len() == 0 {
        None
    } else if derived[0].0@ == project {
        Some(derived[0].1)
    } else {
        heads_for(derived.drop_first(), project)
    }
}

/// The heads derived for `project`.
pub fn find_heads<'a>(derived: &'a Vec<(String, HeadState)>, project: &str) -> (r: Option<&'a HeadState>)
    ensures
        match r {
            Some(h) => heads_for(derived@, project@) == Some(*h),
            None => heads_for(derived@, project@) is None,
        },
{
    let mut i: usize = 0;
    assert(derived@.skip(0) == derived@);
    while i < derived.len()
        invariant
            0 <= i <= derived@.len(),
            heads_for(derived@, project@) == heads_for(derived@.skip(i as int), project@),
        decreases derived@.len() - i,
    {
        assert(derived@.skip(i as int).drop_first() == derived@.skip(i + 1));
        if text::str_eq(derived[i].0.as_str(), project) {
            return Some(&derived[i].1);
        }
        i += 1;
    }
    None
}

/// A declared row agrees with the heads the records give its project.
pub open spec fn declared_ok(derived: Seq<(String, HeadState)>, row: DeclaredHead) -> bool {
    match heads_for(derived, row.project_id@) {
        Some(h) => opt_view(row.working_head) == opt_view(h.working_head) && opt_view(
            row.official_head,
        ) == opt_view(h.official_head),
        None => false,
    }
}

/// The document may state heads, but the records decide them.
pub fn check_declared_heads(declared: &Vec<DeclaredHead>, derived: &Vec<(String, HeadState)>) -> (r:
    Result<(), ApiError>)
    ensures
        r is Ok <==> forall|i: int| 0 <= i < declared@.len() ==> declared_ok(derived@, #[trigger] declared@[i]),
        r matches Err(e) ==> e.carries("unknown_reference") || e.carries("invalid_head_revision"),
{
    let mut i: usize = 0;
    while i < declared.len()
        invariant
            0 <= i <= declared@.len(),
            forall|j: int| 0 <= j < i ==> declared_ok(derived@, #[trigger] declared@[j]),
        decreases declared@.len() - i,
    {
        let row = &declared[i];
        let path = crate::validate::index_path("content.heads", i);
        let actual = match find_heads(derived, row.project_id.as_str()) {
            Some(h) => h,
            None => {
                let mut m = text::owned("project ");
                text::push_str(&mut m, row.project_id.as_str());
                text::push_str(&mut m, " is not in the document");
                return Err(refuse(path, "unknown_reference", m));
            },
        };
        if !opt_same(&row.working_head, &actual.working_head) || !opt_same(
            &row.official_head,
            &actual.official_head,
        ) {
            return Err(
                refuse(
                    path,
                    "invalid_head_revision",
                    text::owned("declared heads do not match the head events in the document"),
                ),
            );
        }
        i += 1;
    }
    Ok(())
}

// ---------------------------------------------------------------- receipts

/// A head move a receipt claims.
#[derive(Debug)]
pub struct ReceiptHead {
    pub project_id: String,
    pub stage: String,
    pub revision_id: String,
}

/// The receipt inside a stored response. `records_written` keeps `None` for
/// an entry that is not a string; `heads` is `None` when it is not a list.
#[derive(Debug)]
pub struct Receipt {
    pub idempotency_key: Option<String>,
    pub request_digest: Option<String>,
    pub seq: Option<i64>,
    pub records_written: Option<Vec<Option<String>>>,
    pub heads: Option<Vec<ReceiptHead>>,
    pub publication_id: Option<String>,
}

/// A stored receipt row: its envelope and the response it replays.
#[derive(Debug)]
pub struct ReceiptRow {
    pub idempotency_key: Option<String>,
    pub request_digest: Option<String>,
    pub seq: Option<i64>,
    pub receipt: Option<Receipt>,
}

pub open spec fn in_ids(ids: Seq<String>, id: Seq<char>) -> bool {
    exists|i: int| 0 <= i < ids.len() && (#[trigger] ids[i])@ == id
}

/// Whether every receipt the document holds fits its export scope.
pub open spec fn fits_scope(row: ReceiptRow, selected: Seq<String>) -> bool {
    match row.receipt {
        None => false,
        Some(r) => {
            &&& (match r.records_written {
                Some(ws) => ws@.len() > 0 && forall|i: int|
                    0 <= i < ws@.len() ==> (#[trigger] ws@[i] matches Some(id) && in_ids(selected, id@)),
                None => false,
            })
            &&& (match r.heads {
                Some(hs) => forall|i: int|
                    0 <= i < hs@.len() ==> in_ids(selected, (#[trigger] hs@[i]).project_id@) && in_ids(
                        selected,
                        hs@[i].revision_id@,
                    ),
                None => true,
            })
            &&& (match r.publication_id {
                Some(p) => in_ids(selected, p@),
                None => true,
            })
        },
    }
}

fn selected_has(selected: &Vec<String>, id: &str) -> (r: bool)
    ensures
        r == in_ids(selected@, id@),
{
    text::contains_str(selected, id)
}

/// A receipt belongs in a scoped export only when everything it describes is
/// in the export. A receipt whose written records reach outside the closure
/// would leak unrelated ids and, on restore, promise a replay for records the
/// document does not contain.
pub fn receipt_fits_scope(row: &ReceiptRow, selected: &Vec<String>) -> (r: bool)
    ensures
        r == fits_scope(*row, selected@),
{
    let receipt = match &row.receipt {
        Some(r) => r,
        None => return false,
    };
    let written_ok = match &receipt.records_written {
        Some(ws) => {
            let mut ok = ws.len() > 0;
            let mut i: usize = 0;
            while i < ws.len()
                invariant
                    0 <= i <= ws@.len(),
                    ok == (ws@.len() > 0 && forall|j: int|
                        0 <= j < i ==> (#[trigger] ws@[j] matches Some(id) && in_ids(selected@, id@))),
                decreases ws@.len() - i,
            {
                let here = match &ws[i] {
                    Some(id) => selected_has(selected, id.as_str()),
                    None => false,
                };
                ok = ok && here;
                i += 1;
            }
            ok
        },
        None => false,
    };
    let heads_ok = match &receipt.heads {
        Some(hs) => {
            let mut ok = true;
            let mut i: usize = 0;
            while i < hs.len()
                invariant
                    0 <= i <= hs@.len(),
                    ok == forall|j: int|
                        0 <= j < i ==> in_ids(selected@, (#[trigger] hs@[j]).project_id@) && in_ids(
                            selected@,
                            hs@[j].revision_id@,
                        ),
                decreases hs@.len() - i,
            {
                let here = selected_has(selected, hs[i].project_id.as_str()) && selected_has(
                    selected,
                    hs[i].revision_id.as_str(),
                );
                ok = ok && here;
                i += 1;
            }
            ok
        },
        None => true,
    };
    let publication_ok = match &receipt.publication_id {
        Some(p) => selected_has(selected, p.as_str()),
        None => true,
    };
    written_ok && heads_ok && publication_ok
}

pub open spec fn entry_is(o: Option<String>, id: Seq<char>) -> bool {
    match o {
        Some(x) => x@ == id,
        None => false,
    }
}

/// The ids a receipt claims as written: its string entries.
pub open spec fn claimed_ids(r: Receipt) -> Set<Seq<char>> {
    match r.records_written {
        Some(ws) => Set::new(|id: Seq<char>| exists|i: int| 0 <= i < ws@.len() && entry_is(#[trigger] ws@[i], id)),
        None => Set::empty(),
    }
}

/// The ids of the records restored at commit `seq`.
pub open spec fn commit_ids(records: Seq<StoredRecord>, seq: i64) -> Set<Seq<char>> {
    Set::new(|id: Seq<char>| exists|i: int| 0 <= i < records.len() && (#[trigger] records[i]).seq == seq && records[i].id@ == id)
}

/// A head move a receipt claims is backed by a head event of its commit.
pub open spec fn head_backed(records: Seq<StoredRecord>, seq: i64, h: ReceiptHead) -> bool {
    exists|i: int|
        0 <= i < records.len() && (#[trigger] records[i]).seq == seq && match records[i].data {
            RecordData::HeadChange(d) => h.stage@ == "working"@ && d.project_id@ == h.project_id@
                && d.after_revision_id@ == h.revision_id@,
            RecordData::Publication(d) => h.stage@ == "official"@ && d.project_id@ == h.project_id@
                && d.root_revision_id@ == h.revision_id@,
            _ => false,
        }
}


/// One receipt row describes a commit the document restores: envelope and
/// response agree on key, digest and sequence, the sequence lies in the
/// document, the written records are exactly that commit's records, every
/// claimed head move is backed by a head event of the commit, and a named
/// publication was written by it.
pub open spec fn row_ok(row: ReceiptRow, records: Seq<StoredRecord>, final_seq: i64) -> bool {
    &&& row.idempotency_key is Some
    &&& row.request_digest is Some
    &&& row.seq is Some
    &&& 1 <= row.seq.unwrap() <= final_seq
    &&& match row.receipt {
        Some(r) => receipt_describes(r, row, records, row.seq.unwrap()),
        None => false,
    }
}

/// The response's receipt agrees with its envelope and describes commit
/// `seq` of `records`.
pub open spec fn receipt_describes(r: Receipt, row: ReceiptRow, records: Seq<StoredRecord>, seq: i64) -> bool {
    &&& opt_view(r.idempotency_key) == opt_view(row.idempotency_key)
    &&& opt_view(r.request_digest) == opt_view(row.request_digest)
    &&& r.seq == Some(seq)
    &&& commit_ids(records, seq) != Set::<Seq<char>>::empty()
    &&& claimed_ids(r) == commit_ids(records, seq)
    &&& (match r.heads {
        Some(hs) => forall|i: int| 0 <= i < hs@.len() ==> head_backed(records, seq, #[trigger] hs@[i]),
        None => true,
    })
    &&& (match r.publication_id {
        Some(p) => exists|i: int|
            0 <= i < records.len() && (#[trigger] records[i]).id@ == p@ && records[i].seq == seq
                && records[i].kind_of() == RecordKind::Publication,
        None => true,
    })
}

/// Every row is right and no key is used twice.
pub open spec fn receipts_ok(rows: Seq<ReceiptRow>, records: Seq<StoredRecord>, final_seq: i64) -> bool {
    &&& forall|i: int| 0 <= i < rows.len() ==> row_ok(#[trigger] rows[i], records, final_seq)
    &&& forall|i: int, j: int|
        0 <= i < j < rows.len() ==> opt_view((#[trigger] rows[i]).idempotency_key) != opt_view(
            (#[trigger] rows[j]).idempotency_key,
        )
}

pub open spec fn row_heads(row: ReceiptRow) -> Option<Vec<ReceiptHead>> {
    match row.receipt {
        Some(r) => r.heads,
        None => None,
    }
}

pub open spec fn key_seen(seen: Seq<String>, key: Option<String>) -> bool {
    match key {
        Some(k) => in_ids(seen, k@),
        None => false,
    }
}

fn commit_has(records: &Vec<StoredRecord>, seq: i64, id: &str) -> (r: bool)
    ensures
        r == commit_ids(records@, seq).contains(id@),
{
    let mut i: usize = 0;
    while i < records.len()
        invariant
            0 <= i <= records@.len(),
            forall|j: int| 0 <= j < i ==> !((#[trigger] records@[j]).seq == seq && records@[j].id@ == id@),
        decreases records@.len() - i,
    {
        if records[i].seq == seq && text::str_eq(records[i].id.as_str(), id) {
            return true;
        }
        i += 1;
    }
    false
}

fn claims(ws: &Vec<Option<String>>, id: &str) -> (r: bool)
    ensures
        r == exists|i: int| 0 <= i < ws@.len() && entry_is(#[trigger] ws@[i], id@),
{
    let mut i: usize = 0;
    while i < ws.len()
        invariant
            0 <= i <= ws@.len(),
            forall|j: int| 0 <= j < i ==> !entry_is(#[trigger] ws@[j], id@),
        decreases ws@.len() - i,
    {
        if let Some(x) = &ws[i] {
            if text::str_eq(x.as_str(), id) {
                return true;
            }
        }
        i += 1;
    }
    false
}

/// Whether the claimed ids are exactly the ids of commit `seq`.
fn claims_commit(r: &Receipt, records: &Vec<StoredRecord>, seq: i64) -> (ok: bool)
    ensures
        ok == (claimed_ids(*r) == commit_ids(records@, seq)),
{
    let empty: Vec<Option<String>> = Vec::new();
    let ws = match &r.records_written {
        Some(ws) => ws,
        None => &empty,
    };
    assert(claimed_ids(*r) =~= Set::new(|id: Seq<char>| exists|i: int| 0 <= i < ws@.len() && entry_is(#[trigger] ws@[i], id)));
    let mut i: usize = 0;
    while i < ws.len()
        invariant
            0 <= i <= ws@.len(),
            forall|id: Seq<char>| #[trigger] claimed_ids(*r).contains(id) <==> exists|j: int| 0 <= j < ws@.len() && entry_is(#[trigger] ws@[j], id),
            forall|j: int| 0 <= j < i ==> (#[trigger] ws@[j] matches Some(x) ==> commit_ids(records@, seq).contains(x@)),
        decreases ws@.len() - i,
    {
        if let Some(x) = &ws[i] {
            if !commit_has(records, seq, x.as_str()) {
                proof {
                    assert(entry_is(ws@[i as int], x@));
                    assert(claimed_ids(*r).contains(x@));
                }
                return false;
            }
        }
        i += 1;
    }
    let mut k: usize = 0;
    while k < records.len()
        invariant
            0 <= k <= records@.len(),
            forall|id: Seq<char>| #[trigger] claimed_ids(*r).contains(id) <==> exists|j: int| 0 <= j < ws@.len() && entry_is(#[trigger] ws@[j], id),
            forall|j: int| 0 <= j < ws@.len() ==> (#[trigger] ws@[j] matches Some(x) ==> commit_ids(records@, seq).contains(x@)),
            forall|j: int| 0 <= j < k && (#[trigger] records@[j]).seq == seq ==> claimed_ids(*r).contains(records@[j].id@),
        decreases records@.len() - k,
    {
        if records[k].seq == seq && !claims(ws, records[k].id.as_str()) {
            proof {
                assert(commit_ids(records@, seq).contains(records@[k as int].id@));
            }
            return false;
        }
        k += 1;
    }
    proof {
        assert forall|id: Seq<char>| claimed_ids(*r).contains(id) <==> commit_ids(records@, seq).contains(id) by {
            if claimed_ids(*r).contains(id) {
                let j = choose|j: int| 0 <= j < ws@.len() && entry_is(#[trigger] ws@[j], id);
                assert(ws@[j] matches Some(x) && x@ == id);
            }
            if commit_ids(records@, seq).contains(id) {
                let j = choose|j: int| 0 <= j < records@.len() && (#[trigger] records@[j]).seq == seq && records@[j].id@ == id;
            }
        }
        assert(claimed_ids(*r) =~= commit_ids(records@, seq));
    }
    true
}

fn is_backed(records: &Vec<StoredRecord>, seq: i64, h: &ReceiptHead) -> (r: bool)
    ensures
        r == head_backed(records@, seq, *h),
{
    proof {
        reveal_strlit("working");
        reveal_strlit("official");
    }
    let mut i: usize = 0;
    while i < records.len()
        invariant
            0 <= i <= records@.len(),
            forall|j: int|
                0 <= j < i ==> !((#[trigger] records@[j]).seq == seq && match records@[j].data {
                    RecordData::HeadChange(d) => h.stage@ == "working"@ && d.project_id@ == h.project_id@
                        && d.after_revision_id@ == h.revision_id@,
                    RecordData::Publication(d) => h.stage@ == "official"@ && d.project_id@ == h.project_id@
                        && d.root_revision_id@ == h.revision_id@,
                    _ => false,
                }),
        decreases records@.len() - i,
    {
        let r = &records[i];
        let hit = r.seq == seq && match &r.data {
            RecordData::HeadChange(d) => text::str_eq(h.stage.as_str(), "working") && text::str_eq(
                d.project_id.as_str(),
                h.project_id.as_str(),
            ) && text::str_eq(d.after_revision_id.as_str(), h.revision_id.as_str()),
            RecordData::Publication(d) => text::str_eq(h.stage.as_str(), "official") && text::str_eq(
                d.project_id.as_str(),
                h.project_id.as_str(),
            ) && text::str_eq(d.root_revision_id.as_str(), h.revision_id.as_str()),
            _ => false,
        };
        if hit {
            return true;
        }
        i += 1;
    }
    false
}

fn wrote_publication(records: &Vec<StoredRecord>, seq: i64, id: &str) -> (r: bool)
    ensures
        r == exists|i: int|
            0 <= i < records@.len() && (#[trigger] records@[i]).id@ == id@ && records@[i].seq == seq
                && records@[i].kind_of() == RecordKind::Publication,
{
    let mut i: usize = 0;
    while i < records.len()
        invariant
            0 <= i <= records@.len(),
            forall|j: int|
                0 <= j < i ==> !((#[trigger] records@[j]).id@ == id@ && records@[j].seq == seq
                    && records@[j].kind_of() == RecordKind::Publication),
        decreases records@.len() - i,
    {
        if records[i].seq == seq && records[i].kind() == RecordKind::Publication && text::str_eq(
            records[i].id.as_str(),
            id,
        ) {
            return true;
        }
        i += 1;
    }
    false
}

/// Check every receipt against the records that are actually restored.
///
/// A receipt stores a digest of a request body the document does not carry,
/// so nothing here can show the digest belongs to a real request. What is
/// checked is that the receipt describes the restored graph: its key, digest
/// and sequence agree with the response it carries, and the records, heads
/// and publication that response claims are exactly the ones at that commit.
/// A receipt that would replay a success the records cannot show is refused.
pub fn check_receipts(rows: &Vec<ReceiptRow>, records: &Vec<StoredRecord>, final_seq: i64) -> (r:
    Result<(), ApiError>)
    ensures
        r is Ok <==> receipts_ok(rows@, records@, final_seq),
        r matches Err(e) ==> e.code == "bad_request" || e.carries("invalid_field") || e.carries(
            "duplicate_id",
        ),
{
    let mut seen: Vec<String> = Vec::new();
    let mut i: usize = 0;
    while i < rows.len()
        invariant
            0 <= i <= rows@.len(),
            forall|j: int| 0 <= j < i ==> row_ok(#[trigger] rows@[j], records@, final_seq),
            forall|a: int, b: int|
                0 <= a < b < i ==> opt_view((#[trigger] rows@[a]).idempotency_key) != opt_view(
                    (#[trigger] rows@[b]).idempotency_key,
                ),
            forall|k: int| 0 <= k < seen@.len() ==> exists|j: int| 0 <= j < i && rows@[j].idempotency_key == Some(#[trigger] seen@[k]),
            forall|j: int| 0 <= j < i ==> key_seen(seen@, (#[trigger] rows@[j]).idempotency_key),
        decreases rows@.len() - i,
    {
        let row = &rows[i];
        let path = crate::validate::index_path("content.receipts", i);
        let key = match &row.idempotency_key {
            Some(k) => k,
            None => {
                let mut m = path.clone();
                text::push_str(&mut m, ".idempotency_key is missing");
                return Err(ApiError::bad_request(m));
            },
        };
        if text::contains_str(&seen, key.as_str()) {
            proof {
                let k = choose|k: int| 0 <= k < seen@.len() && (#[trigger] seen@[k])@ == key@;
                let j = choose|j: int| 0 <= j < i && rows@[j].idempotency_key == Some(#[trigger] seen@[k]);
                assert(opt_view(rows@[j].idempotency_key) == opt_view(rows@[i as int].idempotency_key));
            }
            let mut m = text::owned("receipt key ");
            text::push_str(&mut m, key.as_str());
            text::push_str(&mut m, " appears twice");
            return Err(refuse(path, "duplicate_id", m));
        }
        let digest = match &row.request_digest {
            Some(d) => d,
            None => {
                let mut m = path.clone();
                text::push_str(&mut m, ".request_digest is missing");
                return Err(ApiError::bad_request(m));
            },
        };
        let seq = match row.seq {
            Some(s) => s,
            None => -1,
        };
        if seq < 1 || seq > final_seq {
            return Err(refuse(path, "invalid_field", text::owned("receipt seq is outside the document")));
        }
        let receipt = match &row.receipt {
            Some(r) => r,
            None => {
                return Err(refuse(path, "invalid_field", text::owned("stored response carries no receipt")));
            },
        };
        if !opt_same(&receipt.idempotency_key, &row.idempotency_key) {
            return Err(refuse(path, "invalid_field", text::owned("stored response names a different idempotency key")));
        }
        if !opt_same(&receipt.request_digest, &row.request_digest) {
            return Err(refuse(path, "invalid_field", text::owned("stored response carries a different request digest")));
        }
        let same_seq = match receipt.seq {
            Some(s) => s == seq,
            None => false,
        };
        if !same_seq {
            return Err(refuse(path, "invalid_field", text::owned("stored response was recorded at a different sequence")));
        }
        // A receipt exists only for a package commit, and a package commit
        // writes every record at its sequence.
        let mut any = false;
        let mut k: usize = 0;
        while k < records.len()
            invariant
                0 <= k <= records@.len(),
                any == exists|j: int| 0 <= j < k && (#[trigger] records@[j]).seq == seq,
            decreases records@.len() - k,
        {
            if records[k].seq == seq {
                any = true;
            }
            k += 1;
        }
        if !any {
            proof {
                assert(commit_ids(records@, seq) =~= Set::<Seq<char>>::empty());
            }
            let mut m = text::owned("no restored record belongs to commit ");
            text::push_str(&mut m, text::int_text(seq).as_str());
            return Err(refuse(path, "invalid_field", m));
        }
        proof {
            let j = choose|j: int| 0 <= j < records@.len() && (#[trigger] records@[j]).seq == seq;
            assert(commit_ids(records@, seq).contains(records@[j].id@));
        }
        if !claims_commit(receipt, records, seq) {
            let mut m = text::owned("the claimed records differ from the records of commit ");
            text::push_str(&mut m, text::int_text(seq).as_str());
            return Err(refuse(path, "invalid_field", m));
        }
        if let Some(hs) = &receipt.heads {
            let mut h: usize = 0;
            while h < hs.len()
                invariant
                    0 <= h <= hs@.len(),
                    i < rows@.len(),
                    row_heads(rows@[i as int]) == Some(*hs),
                    rows@[i as int].seq == Some(seq),
                    forall|x: int| 0 <= x < h ==> head_backed(records@, seq, #[trigger] hs@[x]),
                decreases hs@.len() - h,
            {
                if !is_backed(records, seq, &hs[h]) {
                    proof {
                        if rows@[i as int].receipt is Some {
                            let rr = rows@[i as int].receipt.unwrap();
                            assert(rr.heads == Some(*hs));
                            let hv = hs@;
                            assert(!head_backed(records@, seq, hv[h as int]));
                            assert(!(forall|x: int| 0 <= x < hv.len() ==> head_backed(records@, seq, #[trigger] hv[x])));
                            assert(rr.heads->Some_0@ == hv);
                            assert(!receipt_describes(rr, rows@[i as int], records@, seq));
                        }
                    }
                    assert(!row_ok(rows@[i as int], records@, final_seq));
                    let mut m = text::owned("claims a head move that no head event at commit ");
                    text::push_str(&mut m, text::int_text(seq).as_str());
                    text::push_str(&mut m, " backs");
                    return Err(refuse(path, "invalid_field", m));
                }
                h += 1;
            }
        }
        if let Some(publication_id) = &receipt.publication_id {
            if !wrote_publication(records, seq, publication_id.as_str()) {
                assert(!row_ok(rows@[i as int], records@, final_seq));
                let mut m = text::owned("names publication ");
                text::push_str(&mut m, publication_id.as_str());
                text::push_str(&mut m, ", which its commit did not write");
                return Err(refuse(path, "invalid_field", m));
            }
        }
        let ghost old_seen = seen@;
        seen.push(key.clone());
        proof {
            assert(forall|k: int| 0 <= k < old_seen.len() ==> seen@[k] == #[trigger] old_seen[k]);
            assert(seen@[seen@.len() - 1] == *key);
            assert(row_ok(rows@[i as int], records@, final_seq));
            assert forall|a: int, b: int| 0 <= a < b < i + 1 implies opt_view((#[trigger] rows@[a]).idempotency_key) != opt_view(
                (#[trigger] rows@[b]).idempotency_key,
            ) by {
                if b == i {
                    assert(key_seen(old_seen, rows@[a].idempotency_key));
                }
            }
        }
        i += 1;
    }
    Ok(())
}


/// Records of a document must come in commit order: sequence numbers never
/// decrease.
pub fn check_commit_order(records: &Vec<StoredRecord>) -> (r: Result<(), ApiError>)
    ensures
        r is Ok <==> forall|i: int| 0 < i < records@.len() ==> records@[i - 1].seq <= #[trigger] records@[i].seq,
        r matches Err(e) ==> e.carries("invalid_field"),
{
    let mut i: usize = 1;
    while i < records.len()
        invariant
            1 <= i,
            i <= records@.len() || records@.len() == 0,
            forall|j: int| 0 < j < i && j < records@.len() ==> records@[j - 1].seq <= #[trigger] records@[j].seq,
        decreases records@.len() - i,
    {
        if records[i].seq < records[i - 1].seq {
            let path = crate::validate::index_path("content.records", i);
            return Err(refuse(path, "invalid_field", text::owned("records are not in commit order")));
        }
        i += 1;
    }
    Ok(())
}


// ---------------------------------------------------------------- documents

pub const FORMAT: &'static str = "idea_db.export";

/// A field of an object value.
pub open spec fn doc_field(doc: Json, key: Seq<char>) -> Option<Json> {
    staging::field_of(staging::fields(doc), key)
}

/// A text field of an object value.
pub open spec fn doc_text(doc: Json, key: Seq<char>) -> Option<Seq<char>> {
    match doc_field(doc, key) {
        Some(Json::Str(s)) => Some(s@),
        _ => None,
    }
}

/// A non-negative integer field, as JSON reads it.
pub open spec fn doc_unsigned(doc: Json, key: Seq<char>) -> Option<nat> {
    match doc_field(doc, key) {
        Some(Json::Number(t)) => match text::unsigned_value(t@) {
            Some(n) => if n <= u64::MAX {
                Some(n)
            } else {
                None
            },
            None => None,
        },
        _ => None,
    }
}

/// A signed 64-bit integer field, as JSON reads it.
pub open spec fn doc_signed(doc: Json, key: Seq<char>) -> Option<int> {
    match doc_field(doc, key) {
        Some(Json::Number(t)) => match text::signed_value(t@) {
            Some(n) => if i64::MIN <= n <= i64::MAX {
                Some(n)
            } else {
                None
            },
            None => None,
        },
        _ => None,
    }
}

fn field<'a>(doc: &'a Json, key: &str) -> (r: Option<&'a Json>)
    ensures
        match r {
            Some(v) => doc_field(*doc, key@) == Some(*v),
            None => doc_field(*doc, key@) is None,
        },
{
    match doc {
        Json::Object(fs) => staging::get_field(fs, key),
        _ => None,
    }
}

fn text_field<'a>(doc: &'a Json, key: &str) -> (r: Option<&'a String>)
    ensures
        match r {
            Some(s) => doc_text(*doc, key@) == Some(s@),
            None => doc_text(*doc, key@) is None,
        },
{
    match field(doc, key) {
        Some(Json::Str(s)) => Some(s),
        _ => None,
    }
}

fn signed_field(doc: &Json, key: &str) -> (r: Option<i64>)
    ensures
        match r {
            Some(n) => doc_signed(*doc, key@) == Some(n as int),
            None => doc_signed(*doc, key@) is None,
        },
{
    match field(doc, key) {
        Some(Json::Number(t)) => text::parse_i64(t.as_str()),
        _ => None,
    }
}

/// An export document this server can restore from: its format, its
/// version, a content, and a declared digest equal to the content's.
/// Yields the recomputed digest.
pub fn check_document(doc: &Json) -> (r: Result<String, ApiError>)
    ensures
        doc_text(*doc, "format"@) != Some("idea_db.export"@) ==> (r matches Err(e) && e.code == "bad_request"),
        doc_text(*doc, "format"@) == Some("idea_db.export"@) && doc_unsigned(*doc, "format_version"@) != Some(1nat) ==> (
        r matches Err(e) && e.code == "bad_request"),
        doc_field(*doc, "content"@) is None ==> r is Err,
        doc_text(*doc, "digest"@) is None ==> r is Err,
        r is Ok <==> {
            &&& doc_text(*doc, "format"@) == Some("idea_db.export"@)
            &&& doc_unsigned(*doc, "format_version"@) == Some(1nat)
            &&& doc_field(*doc, "content"@) matches Some(c) && doc_text(*doc, "digest"@) == Some(
                util::spec_digest_text(json::canon(c.deep())),
            )
        },
        r matches Ok(d) ==> d@ == util::spec_digest_text(json::canon(doc_field(*doc, "content"@).unwrap().deep())),
        r matches Err(e) ==> e.code == "bad_request" || e.code == "digest_mismatch",
{
    let ok_format = match text_field(doc, "format") {
        Some(f) => text::str_eq(f.as_str(), FORMAT),
        None => false,
    };
    if !ok_format {
        return Err(ApiError::bad_request(text::owned("document is not an idea_db export")));
    }
    let version = match field(doc, "format_version") {
        Some(Json::Number(t)) => text::parse_usize(t.as_str()),
        _ => None,
    };
    let ok_version = match version {
        Some(v) => v == 1,
        None => false,
    };
    proof {
        match doc_field(*doc, "format_version"@) {
            Some(Json::Number(t)) => {
                if let Some(n) = text::unsigned_value(t@) {
                    if n <= u64::MAX && n > usize::MAX {
                        assert(n != 1);
                    }
                }
            },
            _ => {},
        }
    }
    if !ok_version {
        return Err(ApiError::bad_request(text::owned("unsupported export format_version, expected 1")));
    }
    let content = match field(doc, "content") {
        Some(c) => c,
        None => return Err(ApiError::bad_request(text::owned("document has no content"))),
    };
    let declared = match text_field(doc, "digest") {
        Some(d) => d,
        None => return Err(ApiError::bad_request(text::owned("document has no digest"))),
    };
    let actual = util::digest_json(content);
    if !text::str_eq(declared.as_str(), actual.as_str()) {
        return Err(ApiError::digest_mismatch(declared.as_str(), actual.as_str()));
    }
    Ok(actual)
}

/// The record rows of a document's content.
pub fn content_rows(content: &Json) -> (r: Result<&Vec<Json>, ApiError>)
    ensures
        match doc_field(*content, "records"@) {
            Some(Json::Array(rows)) => r matches Ok(x) && x@ == rows@,
            _ => r matches Err(e) && e.code == "bad_request",
        },
{
    match field(content, "records") {
        Some(Json::Array(rows)) => Ok(rows),
        _ => Err(ApiError::bad_request(text::owned("document content has no records array"))),
    }
}

/// The sequence number a document's content was exported at.
pub fn content_seq(content: &Json) -> (r: Result<i64, ApiError>)
    ensures
        match doc_signed(*content, "seq"@) {
            Some(n) => r == Ok::<i64, ApiError>(n as i64),
            None => r matches Err(e) && e.code == "bad_request",
        },
{
    match signed_field(content, "seq") {
        Some(n) => Ok(n),
        None => Err(ApiError::bad_request(text::owned("document content has no seq"))),
    }
}

/// A restore holds no more records than an export may.
pub fn check_restore_size(n: usize) -> (r: Result<(), ApiError>)
    ensures
        r is Ok <==> n <= limits::MAX_EXPORT_RECORDS,
        r matches Err(e) ==> e.code == "context_too_large",
{
    if n > limits::MAX_EXPORT_RECORDS {
        return Err(ApiError::context_too_large(n, limits::MAX_EXPORT_RECORDS));
    }
    Ok(())
}

/// What a restored row says before its payload is decoded.
#[derive(Debug)]
pub struct RowHead {
    pub id: String,
    pub kind: RecordKind,
    pub seq: i64,
    pub recorded_at: String,
}

/// The row's kind text is the name of record kind `k`.
pub open spec fn kind_named(row: Json, k: RecordKind) -> bool {
    doc_text(row, "kind"@) == Some(k.name())
}

/// A row names its id, a known kind, a sequence number no earlier than the
/// previous row's, and its record time.
pub open spec fn row_head_ok(row: Json, last_seq: i64) -> bool {
    &&& doc_text(row, "id"@) is Some
    &&& exists|k: RecordKind| #[trigger] kind_named(row, k)
    &&& doc_signed(row, "seq"@) matches Some(s) && s >= last_seq
    &&& doc_text(row, "recorded_at"@) is Some
}

fn row_path(index: usize) -> (r: String)
    ensures
        r@ == "content.records["@ + text::spec_int_text(index as int) + "]"@,
{
    let mut p = text::owned("content.records[");
    let n = text::usize_text(index);
    text::push_str(&mut p, n.as_str());
    text::push_str(&mut p, "]");
    p
}

fn missing(path: &String, what: &str) -> (e: ApiError)
    ensures
        e.code == "bad_request",
{
    let mut m = path.clone();
    text::push_str(&mut m, what);
    ApiError::bad_request(m)
}

/// The head of row `index` of a document, refused as the restore refuses it:
/// a missing field or an unknown kind is a bad request, a sequence number
/// earlier than the previous row's breaks commit order.
pub fn check_row(row: &Json, index: usize, last_seq: i64) -> (r: Result<RowHead, ApiError>)
    ensures
        r is Ok <==> row_head_ok(*row, last_seq),
        r matches Ok(h) ==> {
            &&& Some(h.id@) == doc_text(*row, "id"@)
            &&& kind_named(*row, h.kind)
            &&& Some(h.seq as int) == doc_signed(*row, "seq"@)
            &&& Some(h.recorded_at@) == doc_text(*row, "recorded_at"@)
        },
        r matches Err(e) ==> e.code == "bad_request" || (e.code == "validation_failed" && e.issues@.len() == 1
            && e.issues@[0].code == "invalid_field"),
{
    let path = row_path(index);
    let id = match text_field(row, "id") {
        Some(i) => i,
        None => return Err(missing(&path, ".id is missing")),
    };
    let kind_text = match text_field(row, "kind") {
        Some(k) => k,
        None => return Err(missing(&path, ".kind is missing")),
    };
    let kind = match RecordKind::parse_str(kind_text.as_str()) {
        Some(k) => k,
        None => {
            assert forall|k: RecordKind| !#[trigger] kind_named(*row, k) by {}
            let mut m = path.clone();
            text::push_str(&mut m, ".kind '");
            text::push_str(&mut m, kind_text.as_str());
            text::push_str(&mut m, "' is unknown");
            return Err(ApiError::bad_request(m));
        },
    };
    assert(kind_named(*row, kind));
    let seq = match signed_field(row, "seq") {
        Some(s) => s,
        None => return Err(missing(&path, ".seq is missing")),
    };
    if seq < last_seq {
        return Err(refuse(path, "invalid_field", text::owned("records are not in commit order")));
    }
    let recorded_at = match text_field(row, "recorded_at") {
        Some(t) => t,
        None => return Err(missing(&path, ".recorded_at is missing")),
    };
    Ok(RowHead { id: id.clone(), kind, seq, recorded_at: recorded_at.clone() })
}

} // verus!
