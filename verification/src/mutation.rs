//! Decisions of the write paths: whether a package may commit, how an
//! occurrence replacement is planned, and what a commit reports.
//!
//! The transaction, the lock and the receipt lookup stay with the caller;
//! each function here decides from values read under that lock.

use vstd::prelude::*;

use crate::error::{ApiError, Issue};
use crate::graph::{self, Limits, Lookup, Occurrence, PathError};
use crate::json::{Json, JsonV};
use crate::limits;
use crate::model::{
    copy_strings, views, CaptureData, ChangeKind, Decision, NewRecord, RecordData, RecordKind,
    RevisionData, Slot, SourceKind, Stage, StoredRecord, PROTOCOL_VERSION,
};
use crate::text;
use crate::util;
use crate::validate::{self, Context, ExpectedHead, HeadState, Overlay, Package, Plan, RootChange};

verus! {

// ---------------------------------------------------------------- checks

/// Only protocol version 1 is understood.
pub fn check_protocol(version: u32) -> (r: Result<(), ApiError>)
    ensures
        r is Ok <==> version == PROTOCOL_VERSION,
        r matches Err(e) ==> e.code == "unsupported_protocol_version" && e.status == 422,
{
    if version != PROTOCOL_VERSION {
        return Err(ApiError::unsupported_protocol_version(version));
    }
    Ok(())
}

/// A package that writes nothing, moves no head and publishes nothing.
pub open spec fn is_noop(pkg: &Package) -> bool {
    pkg.records@.len() == 0 && pkg.root_change is None && pkg.publish is None
}

/// A commit must change something.
pub fn check_not_noop(pkg: &Package) -> (r: Result<(), ApiError>)
    ensures
        r is Ok <==> !is_noop(pkg),
        r matches Err(e) ==> {
            &&& e.code == "validation_failed"
            &&& e.status == 422
            &&& e.issues@.len() == 1
            &&& e.issues@[0].is("records"@, "empty_commit")
        },
{
    if pkg.records.len() == 0 && pkg.root_change.is_none() && pkg.publish.is_none() {
        Err(
            ApiError::issue(
                text::owned("records"),
                "empty_commit",
                text::owned(
                    "a package must write a record, move the working head, or publish a root",
                ),
            ),
        )
    } else {
        Ok(())
    }
}

/// Refuse a commit that would push the namespace past the size every read is
/// bounded by; the count includes the head records the server adds.
pub fn check_capacity(existing: usize, incoming: usize) -> (r: Result<(), ApiError>)
    ensures
        r is Ok <==> existing + incoming <= limits::MAX_PREFETCH_RECORDS,
        r matches Err(e) ==> {
            &&& e.code == "validation_failed"
            &&& e.issues@.len() == 1
            &&& e.issues@[0].is("records"@, "limit_exceeded")
        },
{
    if existing <= limits::MAX_PREFETCH_RECORDS && incoming <= limits::MAX_PREFETCH_RECORDS
        - existing {
        return Ok(());
    }
    let mut m = text::owned("this commit would store ");
    if existing <= usize::MAX - incoming {
        let total = text::usize_text(existing + incoming);
        text::push_str(&mut m, total.as_str());
        text::push_str(&mut m, " records (");
    } else {
        text::push_str(&mut m, "more records than can be counted (");
    }
    let e = text::usize_text(existing);
    text::push_str(&mut m, e.as_str());
    text::push_str(&mut m, " existing + ");
    let n = text::usize_text(incoming);
    text::push_str(&mut m, n.as_str());
    text::push_str(&mut m, " new), past the ");
    let cap = text::usize_text(limits::MAX_PREFETCH_RECORDS);
    text::push_str(&mut m, cap.as_str());
    text::push_str(&mut m, " the namespace can be read back at");
    Err(ApiError::issue(text::owned("records"), "limit_exceeded", m))
}

// ---------------------------------------------------------------- heads

/// The head state of `project`: the first entry under its id.
pub open spec fn head_in(heads: Seq<(String, HeadState)>, project: Seq<char>) -> Option<HeadState>
    decreases heads.len(),
{
    if heads.len() == 0 {
        None
    } else if heads[0].0@ == project {
        Some(heads[0].1)
    } else {
        head_in(heads.drop_first(), project)
    }
}

pub open spec fn opt_view(o: Option<String>) -> Option<Seq<char>> {
    match o {
        Some(s) => Some(s@),
        None => None,
    }
}

/// The current head of `project` on `stage`.
pub open spec fn actual_head(heads: Seq<(String, HeadState)>, project: Seq<char>, stage: Stage) -> Option<
    Seq<char>,
> {
    match head_in(heads, project) {
        None => None,
        Some(h) => match stage {
            Stage::Working => opt_view(h.working_head),
            Stage::Official => opt_view(h.official_head),
        },
    }
}

/// The head a client expects is the head there is.
pub open spec fn head_matches(ctx: &Context, want: ExpectedHead) -> bool {
    actual_head(ctx.heads@, want.project_id@, want.stage) == opt_view(want.revision_id)
}

pub open spec fn opt_json(o: Option<Seq<char>>) -> JsonV {
    match o {
        Some(s) => JsonV::Str(s),
        None => JsonV::Null,
    }
}

/// The detail of a head conflict.
pub open spec fn conflict_view(want: ExpectedHead, actual: Option<Seq<char>>) -> JsonV {
    JsonV::Object(
        seq![
            ("project_id"@, JsonV::Str(want.project_id@)),
            ("stage"@, JsonV::Str(want.stage.name())),
            ("expected"@, opt_json(opt_view(want.revision_id))),
            ("actual"@, opt_json(actual)),
        ],
    )
}

fn find_head<'a>(heads: &'a Vec<(String, HeadState)>, project: &str) -> (r: Option<&'a HeadState>)
    ensures
        match r {
            Some(h) => head_in(heads@, project@) == Some(*h),
            None => head_in(heads@, project@) is None,
        },
{
    let mut i: usize = 0;
    assert(heads@.skip(0) == heads@);
    while i < heads.len()
        invariant
            0 <= i <= heads@.len(),
            head_in(heads@, project@) == head_in(heads@.skip(i as int), project@),
        decreases heads@.len() - i,
    {
        assert(heads@.skip(i as int).drop_first() == heads@.skip(i + 1));
        if text::str_eq(heads[i].0.as_str(), project) {
            return Some(&heads[i].1);
        }
        i += 1;
    }
    None
}

/// The current head of `project` on `stage`.
pub fn current_head(ctx: &Context, project: &str, stage: Stage) -> (r: Option<String>)
    ensures
        opt_view(r) == actual_head(ctx.heads@, project@, stage),
{
    match find_head(&ctx.heads, project) {
        None => None,
        Some(h) => match stage {
            Stage::Working => h.working_head.clone(),
            Stage::Official => h.official_head.clone(),
        },
    }
}

fn opt_str_json(o: &Option<String>) -> (r: Json)
    ensures
        r.deep() == opt_json(opt_view(*o)),
{
    match o {
        Some(s) => Json::Str(s.clone()),
        None => Json::Null,
    }
}

fn same_opt(a: &Option<String>, b: &Option<String>) -> (r: bool)
    ensures
        r == (opt_view(*a) == opt_view(*b)),
{
    match (a, b) {
        (Some(x), Some(y)) => text::str_eq(x.as_str(), y.as_str()),
        (None, None) => true,
        _ => false,
    }
}

fn conflict_json(want: &ExpectedHead, actual: &Option<String>) -> (r: Json)
    ensures
        r.deep() == conflict_view(*want, opt_view(*actual)),
{
    let mut fields: Vec<(String, Json)> = Vec::new();
    fields.push((text::owned("project_id"), Json::Str(want.project_id.clone())));
    fields.push((text::owned("stage"), Json::Str(text::owned(want.stage.as_str()))));
    fields.push((text::owned("expected"), opt_str_json(&want.revision_id)));
    fields.push((text::owned("actual"), opt_str_json(actual)));
    let ghost fs = fields@;
    let r = Json::Object(fields);
    proof {
        let exp = seq![
            ("project_id"@, JsonV::Str(want.project_id@)),
            ("stage"@, JsonV::Str(want.stage.name())),
            ("expected"@, opt_json(opt_view(want.revision_id))),
            ("actual"@, opt_json(opt_view(*actual))),
        ];
        if let JsonV::Object(x) = r.deep() {
            assert(x.len() == 4);
            assert(x[0] == (fs[0].0@, fs[0].1.deep()));
            assert(x[1] == (fs[1].0@, fs[1].1.deep()));
            assert(x[2] == (fs[2].0@, fs[2].1.deep()));
            assert(x[3] == (fs[3].0@, fs[3].1.deep()));
            assert(x =~= exp);
        }
    }
    r
}

/// Compare-and-set against the heads read under the lock: every expected
/// head must be the current one; the first that is not is reported.
pub fn check_heads(expected: &Vec<ExpectedHead>, ctx: &Context) -> (r: Result<(), ApiError>)
    ensures
        r is Ok <==> forall|i: int|
            0 <= i < expected@.len() ==> head_matches(ctx, #[trigger] expected@[i]),
        r matches Err(e) ==> {
            &&& e.code == "head_conflict"
            &&& e.status == 409
            &&& exists|i: int|
                #![trigger expected@[i]]
                0 <= i < expected@.len() && !head_matches(ctx, expected@[i]) && (forall|j: int|
                    0 <= j < i ==> head_matches(ctx, #[trigger] expected@[j])) && (e.details
                    matches Some(d) && d.deep() == conflict_view(
                    expected@[i],
                    actual_head(ctx.heads@, expected@[i].project_id@, expected@[i].stage),
                ))
        },
{
    let mut i: usize = 0;
    while i < expected.len()
        invariant
            0 <= i <= expected@.len(),
            forall|j: int| 0 <= j < i ==> head_matches(ctx, #[trigger] expected@[j]),
        decreases expected@.len() - i,
    {
        let want = &expected[i];
        let actual = current_head(ctx, want.project_id.as_str(), want.stage);
        if !same_opt(&actual, &want.revision_id) {
            let d = conflict_json(want, &actual);
            let e = ApiError::head_conflict(d);
            assert(!head_matches(ctx, expected@[i as int]));
            return Err(e);
        }
        i += 1;
    }
    Ok(())
}


// ---------------------------------------------------------------- occurrences

#[derive(Clone, Copy, Debug, PartialEq, Eq, Structural)]
pub enum ReplaceMode {
    NewRevision,
    ExistingRevision,
}

/// The revision that replaces the leaf, with its decoded payload.
#[derive(Debug)]
pub struct EmbeddedRevision {
    pub id: String,
    pub data: Result<RecordData, String>,
}

#[derive(Debug)]
pub struct Replacement {
    pub mode: ReplaceMode,
    pub new_revision: Option<EmbeddedRevision>,
    pub new_records: Vec<NewRecord>,
    pub target_revision_id: Option<String>,
}

/// Edit one use site of the working head.
#[derive(Debug)]
pub struct ReplaceRequest {
    pub protocol_version: u32,
    pub idempotency_key: String,
    pub actor: String,
    pub reason: String,
    pub project_id: String,
    pub stage: Stage,
    pub expected_root_revision_id: String,
    pub slot_path: Vec<String>,
    pub replacement: Replacement,
    pub root_change_reason: String,
    pub decision: Decision,
}

/// The shape a replacement request must have before it is planned.
pub open spec fn replace_request_ok(req: &ReplaceRequest) -> bool {
    &&& req.stage == Stage::Working
    &&& 1 <= req.slot_path@.len() <= graph::MAX_DEPTH
    &&& req.replacement.mode == ReplaceMode::NewRevision ==> req.replacement.new_revision is Some
    &&& req.replacement.mode == ReplaceMode::ExistingRevision
        ==> req.replacement.target_revision_id is Some
}

/// Refuse a replacement request that cannot be planned, naming the field.
pub fn validate_replace_request(req: &ReplaceRequest) -> (r: Result<(), ApiError>)
    ensures
        r is Ok <==> replace_request_ok(req),
        r matches Err(e) ==> e.code == "validation_failed" && e.issues@.len() == 1 && {
            let i = e.issues@[0];
            if req.stage != Stage::Working {
                i.is("stage"@, "invalid_field")
            } else if req.slot_path@.len() == 0 {
                i.is("slot_path"@, "invalid_field")
            } else if req.slot_path@.len() > graph::MAX_DEPTH {
                i.is("slot_path"@, "limit_exceeded")
            } else if req.replacement.mode == ReplaceMode::NewRevision {
                i.is("replacement.new_revision"@, "invalid_field")
            } else {
                i.is("replacement.target_revision_id"@, "invalid_field")
            }
        },
{
    if req.stage != Stage::Working {
        return Err(
            ApiError::issue(
                text::owned("stage"),
                "invalid_field",
                text::owned("an occurrence replacement moves the working head"),
            ),
        );
    }
    if req.slot_path.len() == 0 {
        return Err(
            ApiError::issue(
                text::owned("slot_path"),
                "invalid_field",
                text::owned("replacing the root itself is a package, not an occurrence edit"),
            ),
        );
    }
    if req.slot_path.len() > graph::MAX_DEPTH {
        return Err(
            ApiError::issue(
                text::owned("slot_path"),
                "limit_exceeded",
                text::owned("slot path deeper than 32"),
            ),
        );
    }
    match req.replacement.mode {
        ReplaceMode::NewRevision => if req.replacement.new_revision.is_none() {
            return Err(
                ApiError::issue(
                    text::owned("replacement.new_revision"),
                    "invalid_field",
                    text::owned("mode 'new_revision' must carry the new revision"),
                ),
            );
        },
        ReplaceMode::ExistingRevision => if req.replacement.target_revision_id.is_none() {
            return Err(
                ApiError::issue(
                    text::owned("replacement.target_revision_id"),
                    "invalid_field",
                    text::owned("mode 'existing_revision' must name the target revision"),
                ),
            );
        },
    }
    Ok(())
}

/// One step down: the revision the first slot named `slot_id` of `cur` pins.
pub open spec fn step_down(ctx: &Context, cur: StoredRecord, slot_id: Seq<char>) -> Option<StoredRecord> {
    match cur.data {
        RecordData::Revision(r) => match graph::slot_named(r.slots@, slot_id) {
            Some(s) => match ctx.holds(s.revision_id@) {
                Some(ch) => if ch.kind_of() == RecordKind::Revision {
                    Some(ch)
                } else {
                    None
                },
                None => None,
            },
            None => None,
        },
        _ => None,
    }
}

/// The revision at depth `d` of `path` under `root`.
pub open spec fn chain_at(ctx: &Context, root: StoredRecord, path: Seq<Seq<char>>, d: nat) -> Option<
    StoredRecord,
>
    decreases d,
{
    if d == 0 {
        Some(root)
    } else {
        match chain_at(ctx, root, path, (d - 1) as nat) {
            None => None,
            Some(c) => step_down(ctx, c, path[d - 1]),
        }
    }
}

/// The expected root, when it is a revision.
pub open spec fn root_revision(ctx: &Context, req: &ReplaceRequest) -> Option<StoredRecord> {
    match ctx.holds(req.expected_root_revision_id@) {
        Some(r) => if r.kind_of() == RecordKind::Revision {
            Some(r)
        } else {
            None
        },
        None => None,
    }
}

/// The ancestor at depth `d` of the edited path.
pub open spec fn ancestor(ctx: &Context, req: &ReplaceRequest, d: nat) -> StoredRecord {
    chain_at(ctx, root_revision(ctx, req).unwrap(), views(req.slot_path@), d).unwrap()
}

/// The id a copied ancestor gets: derived from the request key and the old id,
/// so that a retry derives the same ids.
pub open spec fn copy_id(key: Seq<char>, old_id: Seq<char>) -> Seq<char> {
    util::spec_derived_id("rev"@, key + ":"@ + old_id)
}

/// The revision that takes the leaf's place.
pub open spec fn leaf_new_id(req: &ReplaceRequest) -> Seq<char> {
    match req.replacement.mode {
        ReplaceMode::NewRevision => req.replacement.new_revision.unwrap().id@,
        ReplaceMode::ExistingRevision => req.replacement.target_revision_id.unwrap()@,
    }
}

/// The id at depth `d` of the new chain.
pub open spec fn new_id_at(ctx: &Context, req: &ReplaceRequest, d: nat) -> Seq<char> {
    if d >= req.slot_path@.len() {
        leaf_new_id(req)
    } else {
        copy_id(req.idempotency_key@, ancestor(ctx, req, d).id@)
    }
}

/// `new` keeps every slot of `old` and repoints each slot named `slot_id` to
/// `child`.
pub open spec fn repointed(new: Seq<Slot>, old: Seq<Slot>, slot_id: Seq<char>, child: Seq<char>) -> bool {
    &&& new.len() == old.len()
    &&& forall|k: int|
        0 <= k < new.len() ==> {
            &&& (#[trigger] new[k]).slot_id == old[k].slot_id
            &&& new[k].roles@ == old[k].roles@
            &&& new[k].revision_id@ == if old[k].slot_id@ == slot_id {
                child
            } else {
                old[k].revision_id@
            }
        }
}

/// `new` is the composition copy of `old` that pins `child` under `slot_id`.
pub open spec fn composition_copy(
    new: RevisionData,
    old: RevisionData,
    slot_id: Seq<char>,
    child: Seq<char>,
    previous: Seq<char>,
) -> bool {
    &&& new.entity_id == old.entity_id
    &&& new.body == old.body
    &&& new.tags@ == old.tags@
    &&& repointed(new.slots@, old.slots@, slot_id, child)
    &&& new.change_kind == ChangeKind::Composition
    &&& opt_view(new.previous_revision_id) == Some(previous)
    &&& new.correction_of is None
    &&& new.correction_reason is None
    &&& new.source == old.source
}

/// One row of the replacement mapping: what a use site on the edited path
/// named before and names after.
#[derive(Debug)]
pub struct MappingEntry {
    pub slot_path: Vec<String>,
    pub old_revision_id: String,
    pub new_revision_id: String,
}

/// A planned replacement: the package to commit, the mapping from root to
/// leaf, and the replaced ids from leaf to root.
#[derive(Debug)]
pub struct Prepared {
    pub package: Package,
    pub mapping: Vec<MappingEntry>,
    pub old_chain: Vec<String>,
}

/// Number of client records before the copied ancestors.
pub open spec fn leading(req: &ReplaceRequest) -> int {
    req.replacement.new_records@.len() + if req.replacement.mode == ReplaceMode::NewRevision {
        1int
    } else {
        0int
    }
}

/// Why a replacement cannot be planned, in the order it is checked.
pub open spec fn refused_code(ctx: &Context, req: &ReplaceRequest) -> Option<&'static str> {
    let want = ExpectedHead {
        project_id: req.project_id,
        stage: Stage::Working,
        revision_id: Some(req.expected_root_revision_id),
    };
    if !head_matches(ctx, want) {
        Some("head_conflict")
    } else if root_revision(ctx, req) is None {
        Some("unknown_reference")
    } else if chain_at(
        ctx,
        root_revision(ctx, req).unwrap(),
        views(req.slot_path@),
        req.slot_path@.len(),
    ) is None {
        Some("slot_path_not_found")
    } else if req.replacement.mode == ReplaceMode::ExistingRevision && !graph::is_revision(
        ctx,
        req.replacement.target_revision_id.unwrap()@,
    ) {
        Some("unknown_reference")
    } else {
        None
    }
}

/// What a planned replacement holds.
pub open spec fn planned(ctx: &Context, req: &ReplaceRequest, p: Prepared) -> bool {
    let n = req.slot_path@.len();
    let base = leading(req);
    let pkg = p.package;
    &&& pkg.protocol_version == PROTOCOL_VERSION
    &&& pkg.idempotency_key == req.idempotency_key
    &&& pkg.actor == req.actor
    &&& pkg.reason == req.reason
    &&& pkg.expected_heads@.len() == 1
    &&& pkg.expected_heads@[0].project_id == req.project_id
    &&& pkg.expected_heads@[0].stage == Stage::Working
    &&& pkg.expected_heads@[0].revision_id == Some(req.expected_root_revision_id)
    &&& pkg.publish is None
    &&& pkg.root_change matches Some(rc) && {
        &&& rc.project_id == req.project_id
        &&& rc.stage == Stage::Working
        &&& rc.after_revision_id@ == new_id_at(ctx, req, 0)
        &&& rc.reason == req.root_change_reason
        &&& rc.meaningful
        &&& rc.decision == req.decision
    }
    &&& pkg.records@.len() == base + n
    &&& forall|i: int|
        0 <= i < req.replacement.new_records@.len() ==> (#[trigger] pkg.records@[i]).same_as(
            &req.replacement.new_records@[i],
        )
    &&& req.replacement.mode == ReplaceMode::NewRevision ==> {
        let e = req.replacement.new_revision.unwrap();
        let r = pkg.records@[req.replacement.new_records@.len() as int];
        &&& r.id == e.id
        &&& r.kind == RecordKind::Revision
        &&& (NewRecord { id: e.id, kind: RecordKind::Revision, data: e.data }).same_as(&r)
    }
    &&& forall|j: int|
        0 <= j < n ==> {
            let d = (n - 1 - j) as nat;
            let old = ancestor(ctx, req, d);
            let r = #[trigger] pkg.records@[base + j];
            &&& r.id@ == copy_id(req.idempotency_key@, old.id@)
            &&& r.kind == RecordKind::Revision
            &&& r.data matches Ok(RecordData::Revision(nd))
            &&& old.data matches RecordData::Revision(od)
            &&& composition_copy(nd, od, req.slot_path@[d as int]@, new_id_at(ctx, req, d + 1), old.id@)
        }
    &&& p.mapping@.len() == n + 1
    &&& forall|d: int|
        0 <= d <= n ==> {
            let m = #[trigger] p.mapping@[d];
            &&& views(m.slot_path@) == views(req.slot_path@).take(d)
            &&& m.old_revision_id@ == ancestor(ctx, req, d as nat).id@
            &&& m.new_revision_id@ == new_id_at(ctx, req, d as nat)
        }
    &&& p.old_chain@.len() == n + 1
    &&& forall|j: int|
        0 <= j <= n ==> (#[trigger] p.old_chain@[j])@ == ancestor(ctx, req, (n - j) as nat).id@
}

fn copy_new_record(r: &NewRecord) -> (c: NewRecord)
    ensures
        c.same_as(r),
{
    r.clone()
}

fn repoint(slots: &Vec<Slot>, slot_id: &str, child: &str) -> (r: Vec<Slot>)
    ensures
        repointed(r@, slots@, slot_id@, child@),
{
    let mut out: Vec<Slot> = Vec::new();
    let mut k: usize = 0;
    while k < slots.len()
        invariant
            0 <= k <= slots@.len(),
            out@.len() == k,
            forall|i: int|
                0 <= i < k ==> {
                    &&& (#[trigger] out@[i]).slot_id == slots@[i].slot_id
                    &&& out@[i].roles@ == slots@[i].roles@
                    &&& out@[i].revision_id@ == if slots@[i].slot_id@ == slot_id@ {
                        child@
                    } else {
                        slots@[i].revision_id@
                    }
                },
        decreases slots@.len() - k,
    {
        let s = &slots[k];
        let target = if text::str_eq(s.slot_id.as_str(), slot_id) {
            text::owned(child)
        } else {
            s.revision_id.clone()
        };
        out.push(Slot { slot_id: s.slot_id.clone(), revision_id: target, roles: copy_strings(&s.roles) });
        k += 1;
    }
    out
}

fn copy_revision(old: &RevisionData, slot_id: &str, child: &str, previous: &str) -> (r: RevisionData)
    ensures
        composition_copy(r, *old, slot_id@, child@, previous@),
{
    RevisionData {
        entity_id: old.entity_id.clone(),
        body: old.body.clone(),
        tags: copy_strings(&old.tags),
        slots: repoint(&old.slots, slot_id, child),
        change_kind: ChangeKind::Composition,
        correction_of: None,
        correction_reason: None,
        previous_revision_id: Some(text::owned(previous)),
        source: old.source.clone(),
    }
}


fn walk_path<'a>(ctx: &'a Context, root: &'a StoredRecord, path: &Vec<String>) -> (r: Result<
    Vec<&'a StoredRecord>,
    ApiError,
>)
    requires
        root.kind_of() == RecordKind::Revision,
    ensures
        match r {
            Ok(chain) => {
                &&& chain@.len() == path@.len() + 1
                &&& forall|d: int|
                    0 <= d <= path@.len() ==> chain_at(ctx, *root, views(path@), d as nat) == Some(
                        *#[trigger] chain@[d],
                    )
            },
            Err(e) => {
                &&& chain_at(ctx, *root, views(path@), path@.len()) is None
                &&& e.code == "validation_failed"
                &&& e.issues@.len() == 1
                &&& e.issues@[0].is("slot_path"@, "slot_path_not_found")
            },
        },
{
    let ghost p = views(path@);
    let mut chain: Vec<&StoredRecord> = Vec::new();
    chain.push(root);
    let mut d: usize = 0;
    while d < path.len()
        invariant
            0 <= d <= path@.len(),
            p == views(path@),
            chain@.len() == d + 1,
            forall|e: int| 0 <= e <= d ==> chain_at(ctx, *root, p, e as nat) == Some(*#[trigger] chain@[e]),
            forall|e: int| 0 <= e <= d ==> (#[trigger] chain@[e]).kind_of() == RecordKind::Revision,
        decreases path@.len() - d,
    {
        let current = chain[d];
        assert(chain_at(ctx, *root, p, d as nat) == Some(*current));
        assert(current.kind_of() == RecordKind::Revision);
        let rev = match current.as_revision() {
            Some(r) => r,
            None => {
                proof {
                    assert(false);
                }
                return Err(ApiError::storage(text::owned("unreachable")));
            },
        };
        let slot = match graph::find_slot(&rev.slots, path[d].as_str()) {
            Some(s) => s,
            None => {
                proof {
                    assert(chain_at(ctx, *root, p, (d + 1) as nat) is None);
                    lemma_chain_stays_none(ctx, *root, p, (d + 1) as nat, path@.len());
                }
                let at = graph::copy_prefix(path, d);
                let fault = PathError::SlotMissing { at, slot_id: path[d].clone() };
                return Err(ApiError::issue(text::owned("slot_path"), "slot_path_not_found", fault.message()));
            },
        };
        let child = match ctx.get(slot.revision_id.as_str()) {
            Some(c) => c,
            None => {
                proof {
                    assert(chain_at(ctx, *root, p, (d + 1) as nat) is None);
                    lemma_chain_stays_none(ctx, *root, p, (d + 1) as nat, path@.len());
                }
                let mut m = text::owned("revision ");
                text::push_str(&mut m, slot.revision_id.as_str());
                text::push_str(&mut m, " is missing");
                return Err(ApiError::issue(text::owned("slot_path"), "slot_path_not_found", m));
            },
        };
        if child.kind() != RecordKind::Revision {
            proof {
                assert(chain_at(ctx, *root, p, (d + 1) as nat) is None);
                lemma_chain_stays_none(ctx, *root, p, (d + 1) as nat, path@.len());
            }
            let mut m = text::owned("revision ");
            text::push_str(&mut m, slot.revision_id.as_str());
            text::push_str(&mut m, " is missing");
            return Err(ApiError::issue(text::owned("slot_path"), "slot_path_not_found", m));
        }
        chain.push(child);
        proof {
            assert(chain_at(ctx, *root, p, (d + 1) as nat) == Some(*child));
        }
        d += 1;
    }
    Ok(chain)
}

proof fn lemma_chain_stays_none(ctx: &Context, root: StoredRecord, path: Seq<Seq<char>>, d: nat, n: nat)
    requires
        d <= n,
        chain_at(ctx, root, path, d) is None,
    ensures
        chain_at(ctx, root, path, n) is None,
    decreases n - d,
{
    if d < n {
        lemma_chain_stays_none(ctx, root, path, d + 1, n);
    }
}

/// Plan an occurrence replacement from state read under the write lock: copy
/// only the ancestors on the selected path, each keeping every slot it had
/// and repointing only the slot on the path, and move the working head to the
/// copied root. Every other use site stays pinned to what it named.
pub fn prepare_replacement(ctx: &Context, req: &ReplaceRequest) -> (r: Result<Prepared, ApiError>)
    requires
        replace_request_ok(req),
    ensures
        r is Ok <==> refused_code(ctx, req) is None,
        match r {
            Ok(p) => planned(ctx, req, p),
            Err(e) => if refused_code(ctx, req) == Some("head_conflict") {
                e.code == "head_conflict"
            } else {
                &&& e.code == "validation_failed"
                &&& e.issues@.len() == 1
                &&& e.issues@[0].code == refused_code(ctx, req).unwrap()
            },
        },
{
    let mut expected: Vec<ExpectedHead> = Vec::new();
    expected.push(
        ExpectedHead {
            project_id: req.project_id.clone(),
            stage: Stage::Working,
            revision_id: Some(req.expected_root_revision_id.clone()),
        },
    );
    let ghost want = expected@[0];
    match check_heads(&expected, ctx) {
        Ok(()) => {
            assert(head_matches(ctx, expected@[0]));
        },
        Err(e) => {
            return Err(e);
        },
    }
    let root = match ctx.get(req.expected_root_revision_id.as_str()) {
        Some(x) => x,
        None => {
            let mut m = req.expected_root_revision_id.clone();
            text::push_str(&mut m, " is not a revision");
            return Err(ApiError::issue(text::owned("expected_root_revision_id"), "unknown_reference", m));
        },
    };
    if root.kind() != RecordKind::Revision {
        let mut m = req.expected_root_revision_id.clone();
        text::push_str(&mut m, " is not a revision");
        return Err(ApiError::issue(text::owned("expected_root_revision_id"), "unknown_reference", m));
    }
    assert(root_revision(ctx, req) == Some(*root));
    let chain = match walk_path(ctx, root, &req.slot_path) {
        Ok(c) => c,
        Err(e) => {
            return Err(e);
        },
    };
    let n = req.slot_path.len();
    let leaf_old = chain[n];
    // The leaf is replaced outright; only its ancestors are copied.
    let mut records: Vec<NewRecord> = Vec::new();
    let mut i: usize = 0;
    while i < req.replacement.new_records.len()
        invariant
            0 <= i <= req.replacement.new_records@.len(),
            records@.len() == i,
            forall|k: int|
                0 <= k < i ==> (#[trigger] records@[k]).same_as(&req.replacement.new_records@[k]),
        decreases req.replacement.new_records@.len() - i,
    {
        records.push(copy_new_record(&req.replacement.new_records[i]));
        i += 1;
    }
    let leaf_new_id = match req.replacement.mode {
        ReplaceMode::NewRevision => {
            let e = req.replacement.new_revision.as_ref().unwrap();
            let data = match &e.data {
                Ok(d) => Ok(d.clone()),
                Err(x) => Err(x.clone()),
            };
            records.push(NewRecord { id: e.id.clone(), kind: RecordKind::Revision, data });
            e.id.clone()
        },
        ReplaceMode::ExistingRevision => {
            let target = req.replacement.target_revision_id.as_ref().unwrap();
            let known = match ctx.get(target.as_str()) {
                Some(t) => t.kind() == RecordKind::Revision,
                None => false,
            };
            if !known {
                let mut m = target.clone();
                text::push_str(&mut m, " is not an existing revision");
                return Err(ApiError::issue(text::owned("replacement.target_revision_id"), "unknown_reference", m));
            }
            target.clone()
        },
    };
    assert(refused_code(ctx, req) is None);
    let ghost base = leading(req);
    assert(records@.len() == base);
    let mut backwards: Vec<MappingEntry> = Vec::new();
    backwards.push(
        MappingEntry {
            slot_path: copy_strings(&req.slot_path),
            old_revision_id: leaf_old.id.clone(),
            new_revision_id: leaf_new_id.clone(),
        },
    );
    let mut old_chain: Vec<String> = Vec::new();
    old_chain.push(leaf_old.id.clone());
    let mut child_id = leaf_new_id;
    proof {
        assert(views(req.slot_path@).take(n as int) =~= views(req.slot_path@));
    }
    let mut j: usize = 0;
    while j < n
        invariant
            0 <= j <= n,
            n == req.slot_path@.len(),
            replace_request_ok(req),
            refused_code(ctx, req) is None,
            root_revision(ctx, req) == Some(*root),
            chain@.len() == n + 1,
            forall|d: int|
                0 <= d <= n ==> chain_at(ctx, *root, views(req.slot_path@), d as nat) == Some(
                    *#[trigger] chain@[d],
                ),
            base == leading(req),
            records@.len() == base + j,
            forall|k: int|
                0 <= k < req.replacement.new_records@.len() ==> (#[trigger] records@[k]).same_as(
                    &req.replacement.new_records@[k],
                ),
            req.replacement.mode == ReplaceMode::NewRevision ==> {
                let e = req.replacement.new_revision.unwrap();
                let r = records@[req.replacement.new_records@.len() as int];
                &&& r.id == e.id
                &&& r.kind == RecordKind::Revision
                &&& (NewRecord { id: e.id, kind: RecordKind::Revision, data: e.data }).same_as(&r)
            },
            forall|k: int|
                0 <= k < j ==> {
                    let d = (n - 1 - k) as nat;
                    let old = ancestor(ctx, req, d);
                    let r = #[trigger] records@[base + k];
                    &&& r.id@ == copy_id(req.idempotency_key@, old.id@)
                    &&& r.kind == RecordKind::Revision
                    &&& r.data matches Ok(RecordData::Revision(nd))
                    &&& old.data matches RecordData::Revision(od)
                    &&& composition_copy(
                        nd,
                        od,
                        req.slot_path@[d as int]@,
                        new_id_at(ctx, req, d + 1),
                        old.id@,
                    )
                },
            child_id@ == new_id_at(ctx, req, (n - j) as nat),
            backwards@.len() == j + 1,
            forall|k: int|
                0 <= k <= j ==> {
                    let d = n - k;
                    let m = #[trigger] backwards@[k];
                    &&& views(m.slot_path@) == views(req.slot_path@).take(d)
                    &&& m.old_revision_id@ == ancestor(ctx, req, d as nat).id@
                    &&& m.new_revision_id@ == new_id_at(ctx, req, d as nat)
                },
            old_chain@.len() == j + 1,
            forall|k: int|
                0 <= k <= j ==> (#[trigger] old_chain@[k])@ == ancestor(ctx, req, (n - k) as nat).id@,
        decreases n - j,
    {
        let depth = n - 1 - j;
        let anc = chain[depth];
        assert(ancestor(ctx, req, depth as nat) == *anc);
        let od = match anc.as_revision() {
            Some(r) => r,
            None => {
                proof {
                    assert(anc.kind_of() == RecordKind::Revision) by {
                        if depth > 0 {
                            assert(chain_at(ctx, *root, views(req.slot_path@), depth as nat)
                                == step_down(
                                ctx,
                                chain_at(ctx, *root, views(req.slot_path@), (depth - 1) as nat).unwrap(),
                                views(req.slot_path@)[depth - 1],
                            ));
                        }
                    }
                    assert(false);
                }
                return Err(ApiError::storage(text::owned("unreachable")));
            },
        };
        let mut seed = text::concat(req.idempotency_key.as_str(), ":");
        text::push_str(&mut seed, anc.id.as_str());
        let new_id = util::derived_id("rev", seed.as_str());
        let nd = copy_revision(od, req.slot_path[depth].as_str(), child_id.as_str(), anc.id.as_str());
        proof {
            assert(req.slot_path@[depth as int]@ == views(req.slot_path@)[depth as int]);
        }
        records.push(
            NewRecord { id: new_id.clone(), kind: RecordKind::Revision, data: Ok(RecordData::Revision(nd)) },
        );
        backwards.push(
            MappingEntry {
                slot_path: graph::copy_prefix(&req.slot_path, depth),
                old_revision_id: anc.id.clone(),
                new_revision_id: new_id.clone(),
            },
        );
        old_chain.push(anc.id.clone());
        child_id = new_id;
        j += 1;
    }
    // Root first.
    let mut mapping: Vec<MappingEntry> = Vec::new();
    let mut k: usize = 0;
    while k <= n
        invariant
            0 <= k <= n + 1,
            n == req.slot_path@.len(),
            n <= graph::MAX_DEPTH,
            backwards@.len() == n + 1,
            mapping@.len() == k,
            forall|d: int|
                0 <= d < k ==> {
                    &&& (#[trigger] mapping@[d]).slot_path@ == backwards@[n - d].slot_path@
                    &&& mapping@[d].old_revision_id == backwards@[n - d].old_revision_id
                    &&& mapping@[d].new_revision_id == backwards@[n - d].new_revision_id
                },
        decreases n + 1 - k,
    {
        let e = &backwards[n - k];
        mapping.push(
            MappingEntry {
                slot_path: copy_strings(&e.slot_path),
                old_revision_id: e.old_revision_id.clone(),
                new_revision_id: e.new_revision_id.clone(),
            },
        );
        k += 1;
    }
    let package = Package {
        protocol_version: PROTOCOL_VERSION,
        idempotency_key: req.idempotency_key.clone(),
        actor: req.actor.clone(),
        reason: req.reason.clone(),
        expected_heads: expected,
        records,
        root_change: Some(
            RootChange {
                project_id: req.project_id.clone(),
                stage: Stage::Working,
                after_revision_id: child_id,
                reason: req.root_change_reason.clone(),
                meaningful: true,
                decision: req.decision.clone(),
            },
        ),
        publish: None,
    };
    Ok(Prepared { package, mapping, old_chain })
}


fn copy_occurrence(o: &Occurrence) -> (r: Occurrence)
    ensures
        r.slot_path@ == o.slot_path@,
        r.revision_id == o.revision_id,
        r.roles@ == o.roles@,
        r.parent_revision_id == o.parent_revision_id,
        r.depth == o.depth,
{
    Occurrence {
        slot_path: copy_strings(&o.slot_path),
        revision_id: o.revision_id.clone(),
        roles: copy_strings(&o.roles),
        parent_revision_id: o.parent_revision_id.clone(),
        depth: o.depth,
    }
}

/// The traversal budget of a replacement's evidence walk.
pub open spec fn evidence_limits() -> Limits {
    Limits { max_nodes: limits::MAX_SNAPSHOT_NODES, max_depth: graph::MAX_DEPTH }
}

/// Use sites in the new root that still point at a revision the replacement
/// copied or replaced elsewhere: the evidence that a shared revision kept
/// its other homes. The walk sees the planned records over stored state.
pub fn pinned_unchanged(plan: &Plan, ctx: &Context, new_root: &str, old_chain: &Vec<String>) -> (r:
    Vec<Occurrence>)
    ensures
        forall|i: int|
            0 <= i < r@.len() ==> {
                &&& (#[trigger] r@[i]).sited(
                    &(Overlay { base: ctx, added: &plan.records }),
                    new_root@,
                    evidence_limits(),
                )
                &&& views(old_chain@).contains(r@[i].revision_id@)
            },
{
    let overlay = Overlay { base: ctx, added: &plan.records };
    let limits = Limits { max_nodes: limits::MAX_SNAPSHOT_NODES, max_depth: graph::MAX_DEPTH };
    let walk = graph::walk(&overlay, new_root, limits);
    let mut out: Vec<Occurrence> = Vec::new();
    let mut i: usize = 0;
    while i < walk.occurrences.len()
        invariant
            0 <= i <= walk.occurrences@.len(),
            walk.sound(&overlay, new_root@, limits),
            limits == evidence_limits(),
            overlay == (Overlay { base: ctx, added: &plan.records }),
            forall|k: int|
                0 <= k < out@.len() ==> {
                    &&& (#[trigger] out@[k]).sited(&overlay, new_root@, limits)
                    &&& views(old_chain@).contains(out@[k].revision_id@)
                },
        decreases walk.occurrences@.len() - i,
    {
        let o = &walk.occurrences[i];
        assert(o.sited(&overlay, new_root@, limits));
        if text::contains_str(old_chain, o.revision_id.as_str()) {
            let c = copy_occurrence(o);
            proof {
                let j = choose|j: int| 0 <= j < old_chain@.len() && (#[trigger] old_chain@[j])@ == o.revision_id@;
                assert(views(old_chain@)[j] == o.revision_id@);
                assert(views(c.slot_path@) == views(o.slot_path@));
                assert(views(c.roles@) == views(o.roles@));
            }
            out.push(c);
        }
        i += 1;
    }
    out
}

// ---------------------------------------------------------------- commits

/// A staged upload as read under the lock.
#[derive(Debug)]
pub struct StagedRow {
    pub prepared_digest: Option<String>,
    pub invalidated: bool,
    pub withdrawn: bool,
}

/// A staged package may be applied only while its exact prepared upload is
/// live: present, not invalidated, not withdrawn, and digest-equal.
pub fn check_staged(upload_id: &str, row: &Option<StagedRow>, request_digest: &str) -> (r: Result<
    (),
    ApiError,
>)
    ensures
        r is Ok <==> (row matches Some(s) && !s.invalidated && !s.withdrawn
            && opt_view(s.prepared_digest) == Some(request_digest@)),
        r matches Err(e) ==> match row {
            None => e.code == "not_found",
            Some(s) => if s.invalidated {
                e.code == "validation_failed" && e.issues@[0].is("upload_id"@, "staging_invalidated")
            } else if s.withdrawn {
                e.code == "validation_failed" && e.issues@[0].is("upload_id"@, "staging_withdrawn")
            } else {
                e.code == "bad_request"
            },
        },
{
    let s = match row {
        None => {
            let mut m = text::owned("staged upload ");
            text::push_str(&mut m, upload_id);
            text::push_str(&mut m, " not found");
            return Err(ApiError::not_found(m));
        },
        Some(s) => s,
    };
    if s.invalidated {
        let mut m = text::owned("staged upload ");
        text::push_str(&mut m, upload_id);
        text::push_str(
            &mut m,
            " was invalidated by a domain restore; prepare again with a new idempotency key",
        );
        return Err(ApiError::issue(text::owned("upload_id"), "staging_invalidated", m));
    }
    if s.withdrawn {
        let mut m = text::owned("staged upload ");
        text::push_str(&mut m, upload_id);
        text::push_str(&mut m, " was withdrawn; prepare a new upload");
        return Err(ApiError::issue(text::owned("upload_id"), "staging_withdrawn", m));
    }
    let same = match &s.prepared_digest {
        Some(d) => text::str_eq(d.as_str(), request_digest),
        None => false,
    };
    if !same {
        return Err(
            ApiError::bad_request(
                text::owned("prepared_digest mismatch; apply only the reviewed upload handle"),
            ),
        );
    }
    Ok(())
}

/// What an idempotency key already on file means for a request.
#[derive(Clone, Copy, Debug, PartialEq, Eq, Structural)]
pub enum Idempotency {
    /// No receipt: commit.
    Fresh,
    /// The same request again: answer with the stored response.
    Replay,
}

/// Idempotency is decided before heads are compared: the exact same request
/// gets its original receipt back; a different body under a used key is a
/// conflict.
pub fn idempotency(key: &str, stored_digest: &Option<String>, request_digest: &str) -> (r: Result<
    Idempotency,
    ApiError,
>)
    ensures
        stored_digest is None ==> r == Ok::<Idempotency, ApiError>(Idempotency::Fresh),
        stored_digest matches Some(d) && d@ == request_digest@ ==> r == Ok::<Idempotency, ApiError>(
            Idempotency::Replay,
        ),
        stored_digest matches Some(d) && d@ != request_digest@ ==> (r matches Err(e) && e.code
            == "idempotency_conflict"),
{
    match stored_digest {
        None => Ok(Idempotency::Fresh),
        Some(d) => if text::str_eq(d.as_str(), request_digest) {
            Ok(Idempotency::Replay)
        } else {
            Err(ApiError::idempotency_conflict(key))
        },
    }
}

/// Every expected head of the package is the current one.
pub open spec fn heads_current(pkg: &Package, ctx: &Context) -> bool {
    forall|i: int| 0 <= i < pkg.expected_heads@.len() ==> head_matches(ctx, #[trigger] pkg.expected_heads@[i])
}

/// How many records a package stores: its own and the server's head records.
pub open spec fn write_count(pkg: &Package) -> int {
    pkg.records@.len() + (if pkg.root_change is Some { 1int } else { 0 }) + (if pkg.publish is Some {
        1int
    } else {
        0
    })
}

/// A commit is owed: the package changes something, its expected heads are
/// current, it follows the rules, and the namespace stays readable after it.
pub open spec fn commit_owed(pkg: &Package, ctx: &Context, seq: i64, now: Seq<char>) -> bool {
    &&& !is_noop(pkg)
    &&& heads_current(pkg, ctx)
    &&& validate::package_follows_rules(pkg, ctx, seq, now)
    &&& ctx.records@.len() + write_count(pkg) <= limits::MAX_PREFETCH_RECORDS
}

/// Decide a fresh commit from the state read under the lock: it must change
/// something, its expected heads must be current, it must validate, and the
/// namespace must stay readable afterwards.
pub fn plan_commit(pkg: &Package, ctx: &Context, seq: i64, applied_at: &str) -> (r: Result<
    Plan,
    ApiError,
>)
    ensures
        is_noop(pkg) ==> (r matches Err(e) && e.code == "validation_failed" && e.issues@[0].is(
            "records"@,
            "empty_commit",
        )),
        !is_noop(pkg) && !(forall|i: int|
            0 <= i < pkg.expected_heads@.len() ==> head_matches(ctx, #[trigger] pkg.expected_heads@[i]))
            ==> (r matches Err(e) && e.code == "head_conflict"),
        commit_owed(pkg, ctx, seq, applied_at@) ==> r is Ok,
        r matches Ok(plan) ==> {
            &&& !is_noop(pkg)
            &&& heads_current(pkg, ctx)
            &&& ctx.records@.len() + write_count(pkg) <= limits::MAX_PREFETCH_RECORDS
            &&& plan.head_records@.len() + plan.records@.len() == write_count(pkg)
            &&& validate::shape_ok(pkg, ctx)
            &&& validate::label_ok(pkg.idempotency_key@) && validate::label_ok(pkg.actor@)
            &&& validate::staged_right(pkg, ctx, seq, applied_at@, plan.records@)
            &&& validate::staging_clean(pkg, ctx, &plan.records)
            &&& plan.head_updates@.len() == plan.head_records@.len()
            &&& (pkg.root_change matches Some(rc) ==> validate::head_change_record(
                plan.head_records@[0],
                pkg,
                rc,
                validate::working_head_in(ctx.heads@, rc.project_id@),
            ))
            &&& (pkg.publish matches Some(pb) ==> validate::publication_record(
                plan.head_records@[plan.head_records@.len() - 1],
                pkg,
                pb,
            ))
        },
        !is_noop(pkg) && heads_current(pkg, ctx) && ctx.records@.len() + write_count(pkg)
            > limits::MAX_PREFETCH_RECORDS ==> r is Err,
{
    match check_not_noop(pkg) {
        Ok(()) => {},
        Err(e) => return Err(e),
    }
    match check_heads(&pkg.expected_heads, ctx) {
        Ok(()) => {},
        Err(e) => return Err(e),
    }
    let plan = match validate::validate_package(pkg, ctx, seq, applied_at) {
        Ok(p) => p,
        Err(issues) => return Err(ApiError::validation(issues)),
    };
    match check_capacity(ctx.records.len(), plan.records.len() + plan.head_records.len()) {
        Ok(()) => {},
        Err(e) => return Err(e),
    }
    Ok(plan)
}


/// A head a commit moved, as its receipt reports it.
#[derive(Debug)]
pub struct HeadMove {
    pub project_id: String,
    pub stage: Stage,
    pub revision_id: String,
    pub seq: i64,
}

/// What a committed package answers, and what a replay answers again.
#[derive(Debug)]
pub struct CommitReceipt {
    pub idempotency_key: String,
    pub request_digest: String,
    pub applied_at: String,
    pub seq: i64,
    pub replay: bool,
    /// Every record the commit stores, the server's head records last.
    pub records_written: Vec<String>,
    pub heads: Vec<HeadMove>,
    pub publication_id: Option<String>,
    pub resolved_previous: Vec<(String, String)>,
    pub warnings: Vec<Issue>,
}

pub open spec fn record_ids(rs: Seq<StoredRecord>) -> Seq<Seq<char>> {
    rs.map_values(|r: StoredRecord| r.id@)
}

/// The heads a plan moves, stamped with the commit's sequence number.
pub fn head_moves(plan: &Plan, seq: i64) -> (r: Vec<HeadMove>)
    ensures
        r@.len() == plan.head_updates@.len(),
        forall|i: int|
            0 <= i < r@.len() ==> {
                &&& (#[trigger] r@[i]).project_id == plan.head_updates@[i].project_id
                &&& r@[i].stage == plan.head_updates@[i].stage
                &&& r@[i].revision_id == plan.head_updates@[i].revision_id
                &&& r@[i].seq == seq
            },
{
    let mut out: Vec<HeadMove> = Vec::new();
    let mut i: usize = 0;
    while i < plan.head_updates.len()
        invariant
            0 <= i <= plan.head_updates@.len(),
            out@.len() == i,
            forall|k: int|
                0 <= k < i ==> {
                    &&& (#[trigger] out@[k]).project_id == plan.head_updates@[k].project_id
                    &&& out@[k].stage == plan.head_updates@[k].stage
                    &&& out@[k].revision_id == plan.head_updates@[k].revision_id
                    &&& out@[k].seq == seq
                },
        decreases plan.head_updates@.len() - i,
    {
        let h = &plan.head_updates[i];
        out.push(
            HeadMove {
                project_id: h.project_id.clone(),
                stage: h.stage,
                revision_id: h.revision_id.clone(),
                seq,
            },
        );
        i += 1;
    }
    out
}

fn copy_pairs(v: &Vec<(String, String)>) -> (r: Vec<(String, String)>)
    ensures
        r@ == v@,
{
    let mut out: Vec<(String, String)> = Vec::new();
    let mut i: usize = 0;
    while i < v.len()
        invariant
            0 <= i <= v@.len(),
            out@ == v@.take(i as int),
        decreases v@.len() - i,
    {
        out.push((v[i].0.clone(), v[i].1.clone()));
        assert(out@ =~= v@.take(i + 1));
        i += 1;
    }
    assert(v@.take(v@.len() as int) =~= v@);
    out
}

fn copy_issues(v: &Vec<Issue>) -> (r: Vec<Issue>)
    ensures
        r@ == v@,
{
    let mut out: Vec<Issue> = Vec::new();
    let mut i: usize = 0;
    while i < v.len()
        invariant
            0 <= i <= v@.len(),
            out@ == v@.take(i as int),
        decreases v@.len() - i,
    {
        out.push(v[i].clone());
        assert(out@ =~= v@.take(i + 1));
        i += 1;
    }
    assert(v@.take(v@.len() as int) =~= v@);
    out
}

fn push_ids(out: &mut Vec<String>, rs: &Vec<StoredRecord>)
    ensures
        views(final(out)@) == views(old(out)@) + record_ids(rs@),
{
    let ghost start = views(out@);
    let mut i: usize = 0;
    while i < rs.len()
        invariant
            0 <= i <= rs@.len(),
            views(out@) == start + record_ids(rs@).take(i as int),
        decreases rs@.len() - i,
    {
        let ghost prev = out@;
        out.push(rs[i].id.clone());
        assert(views(out@) =~= views(prev).push(rs@[i as int].id@));
        assert(record_ids(rs@).take(i + 1) =~= record_ids(rs@).take(i as int).push(rs@[i as int].id@));
        assert(views(out@) =~= start + record_ids(rs@).take(i + 1));
        i += 1;
    }
    assert(record_ids(rs@).take(rs@.len() as int) =~= record_ids(rs@));
}

/// The receipt a fresh commit stores and answers with.
pub fn commit_receipt(pkg: &Package, plan: &Plan, seq: i64, applied_at: &str, request_digest: &str) -> (r:
    CommitReceipt)
    ensures
        r.idempotency_key == pkg.idempotency_key,
        r.request_digest@ == request_digest@,
        r.applied_at@ == applied_at@,
        r.seq == seq,
        !r.replay,
        views(r.records_written@) == record_ids(plan.records@) + record_ids(plan.head_records@),
        r.heads@.len() == plan.head_updates@.len(),
        forall|i: int|
            0 <= i < r.heads@.len() ==> {
                &&& (#[trigger] r.heads@[i]).project_id == plan.head_updates@[i].project_id
                &&& r.heads@[i].stage == plan.head_updates@[i].stage
                &&& r.heads@[i].revision_id == plan.head_updates@[i].revision_id
                &&& r.heads@[i].seq == seq
            },
        r.publication_id == plan.publication_id,
        r.resolved_previous@ == plan.resolved_previous@,
        r.warnings@ == plan.warnings@,
{
    let mut written: Vec<String> = Vec::new();
    assert(views(written@) =~= Seq::<Seq<char>>::empty());
    push_ids(&mut written, &plan.records);
    push_ids(&mut written, &plan.head_records);
    assert(views(written@) =~= record_ids(plan.records@) + record_ids(plan.head_records@));
    CommitReceipt {
        idempotency_key: pkg.idempotency_key.clone(),
        request_digest: text::owned(request_digest),
        applied_at: text::owned(applied_at),
        seq,
        replay: false,
        records_written: written,
        heads: head_moves(plan, seq),
        publication_id: plan.publication_id.clone(),
        resolved_previous: copy_pairs(&plan.resolved_previous),
        warnings: copy_issues(&plan.warnings),
    }
}


/// The answer to a dry run: whether the package would commit now, and why
/// not.
#[derive(Debug)]
pub struct DryRun {
    pub valid: bool,
    pub errors: Vec<Issue>,
    pub warnings: Vec<Issue>,
    pub records_to_write: usize,
    pub next_seq: i64,
    pub context_records_loaded: usize,
    /// Present when the package validated.
    pub resolved_previous: Option<Vec<(String, String)>>,
    pub head_updates: Option<Vec<HeadMove>>,
}

/// Validate a package against the state a real apply would see, and report
/// instead of committing.
pub fn dry_run(pkg: &Package, ctx: &Context, now: &str) -> (r: DryRun)
    requires
        ctx.seq < i64::MAX,
    ensures
        r.next_seq == ctx.seq + 1,
        r.context_records_loaded == ctx.records@.len(),
        is_noop(pkg) ==> !r.valid && r.records_to_write == 0 && r.errors@.len() == 1
            && r.errors@[0].is("records"@, "empty_commit"),
        !is_noop(pkg) && !(forall|i: int|
            0 <= i < pkg.expected_heads@.len() ==> head_matches(ctx, #[trigger] pkg.expected_heads@[i]))
            ==> !r.valid,
        commit_owed(pkg, ctx, (ctx.seq + 1) as i64, now@) ==> r.valid,
        !is_noop(pkg) && heads_current(pkg, ctx) && ctx.records@.len() + write_count(pkg)
            > limits::MAX_PREFETCH_RECORDS ==> !r.valid,
        r.valid ==> {
            &&& !is_noop(pkg)
            &&& heads_current(pkg, ctx)
            &&& r.errors@.len() == 0
            &&& r.records_to_write == write_count(pkg)
            &&& ctx.records@.len() + r.records_to_write <= limits::MAX_PREFETCH_RECORDS
            &&& validate::shape_ok(pkg, ctx)
            &&& validate::label_ok(pkg.idempotency_key@) && validate::label_ok(pkg.actor@)
            &&& exists|sv: Vec<StoredRecord>|
                #[trigger] validate::staged_right(pkg, ctx, (ctx.seq + 1) as i64, now@, sv@)
                    && validate::staging_clean(pkg, ctx, &sv)
        },
        !r.valid ==> r.errors@.len() > 0,
{
    let next_seq = ctx.seq + 1;
    let loaded = ctx.records.len();
    match check_not_noop(pkg) {
        Ok(()) => {},
        Err(e) => {
            return DryRun {
                valid: false,
                errors: e.issues,
                warnings: Vec::new(),
                records_to_write: 0,
                next_seq,
                context_records_loaded: loaded,
                resolved_previous: None,
                head_updates: None,
            };
        },
    }
    let head_issue = check_heads(&pkg.expected_heads, ctx);
    match validate::validate_package(pkg, ctx, next_seq, now) {
        Ok(plan) => {
            let writes = plan.records.len() + plan.head_records.len();
            let mut errors: Vec<Issue> = Vec::new();
            match head_issue {
                Ok(()) => {},
                Err(e) => {
                    errors.push(Issue::new(text::owned("expected_heads"), e.code, e.message));
                },
            }
            match check_capacity(loaded, writes) {
                Ok(()) => {},
                Err(e) => {
                    errors.push(Issue::new(text::owned("records"), e.code, e.message));
                },
            }
            let valid = errors.len() == 0;
            assert(validate::staged_right(pkg, ctx, next_seq, now@, plan.records@));
            let moves = head_moves(&plan, next_seq);
            DryRun {
                valid,
                errors,
                warnings: plan.warnings,
                records_to_write: writes,
                next_seq,
                context_records_loaded: loaded,
                resolved_previous: Some(plan.resolved_previous),
                head_updates: Some(moves),
            }
        },
        Err(issues) => {
            DryRun {
                valid: false,
                errors: issues,
                warnings: Vec::new(),
                records_to_write: 0,
                next_seq,
                context_records_loaded: loaded,
                resolved_previous: None,
                head_updates: None,
            }
        },
    }
}


// ---------------------------------------------------------------- captures

/// A raw capture submitted for intake.
#[derive(Debug)]
pub struct CaptureRequest {
    /// An explicit id doubles as the idempotency key.
    pub id: Option<String>,
    pub project_id: Option<String>,
    pub content: String,
    pub media_type: String,
    pub source_kind: SourceKind,
    pub source_ref: Option<String>,
    pub occurred_at: Option<String>,
    pub content_digest: Option<String>,
}

/// What a capture request stores: its fields, with the server's digest.
pub fn capture_data(req: &CaptureRequest, digest: &str) -> (r: CaptureData)
    ensures
        r.project_id == req.project_id,
        r.content == req.content,
        opt_view(r.content_digest) == Some(digest@),
        r.media_type == req.media_type,
        r.source_kind == req.source_kind,
        r.source_ref == req.source_ref,
        r.occurred_at == req.occurred_at,
{
    CaptureData {
        project_id: req.project_id.clone(),
        content: req.content.clone(),
        content_digest: Some(text::owned(digest)),
        media_type: req.media_type.clone(),
        source_kind: req.source_kind,
        source_ref: req.source_ref.clone(),
        occurred_at: req.occurred_at.clone(),
    }
}

/// A declared digest must be the digest of the content.
pub fn check_declared_digest(req: &CaptureRequest) -> (r: Result<String, ApiError>)
    ensures
        match r {
            Ok(d) => {
                &&& d@ == util::spec_digest_text(req.content@)
                &&& (req.content_digest matches Some(x) ==> x@ == d@)
            },
            Err(e) => {
                &&& req.content_digest matches Some(x) && x@ != util::spec_digest_text(
                    req.content@,
                )
                &&& e.code == "validation_failed"
                &&& e.issues@.len() == 1
                &&& e.issues@[0].is("content_digest"@, "content_digest_mismatch")
            },
        },
{
    let digest = util::digest_text(req.content.as_str());
    match &req.content_digest {
        Some(declared) => if !text::str_eq(declared.as_str(), digest.as_str()) {
            let mut m = text::owned("declared ");
            text::push_str(&mut m, declared.as_str());
            text::push_str(&mut m, " but content hashes to ");
            text::push_str(&mut m, digest.as_str());
            return Err(ApiError::issue(text::owned("content_digest"), "content_digest_mismatch", m));
        },
        None => {},
    }
    Ok(digest)
}

fn same_opt_str(a: &Option<String>, b: &Option<String>) -> (r: bool)
    ensures
        r == (opt_view(*a) == opt_view(*b)),
{
    same_opt(a, b)
}

/// Two capture payloads carry the same values.
pub open spec fn same_capture(a: CaptureData, b: CaptureData) -> bool {
    &&& opt_view(a.project_id) == opt_view(b.project_id)
    &&& a.content@ == b.content@
    &&& opt_view(a.content_digest) == opt_view(b.content_digest)
    &&& a.media_type@ == b.media_type@
    &&& a.source_kind == b.source_kind
    &&& opt_view(a.source_ref) == opt_view(b.source_ref)
    &&& opt_view(a.occurred_at) == opt_view(b.occurred_at)
}

fn captures_equal(a: &CaptureData, b: &CaptureData) -> (r: bool)
    ensures
        r == same_capture(*a, *b),
{
    same_opt_str(&a.project_id, &b.project_id) && text::str_eq(a.content.as_str(), b.content.as_str())
        && same_opt_str(&a.content_digest, &b.content_digest) && text::str_eq(
        a.media_type.as_str(),
        b.media_type.as_str(),
    ) && a.source_kind == b.source_kind && same_opt_str(&a.source_ref, &b.source_ref)
        && same_opt_str(&a.occurred_at, &b.occurred_at)
}

/// The id a capture is stored under: its explicit id, else the fresh one.
pub open spec fn capture_id(req: &CaptureRequest, fresh_id: Seq<char>) -> Seq<char> {
    match req.id {
        Some(id) => id@,
        None => fresh_id,
    }
}

/// A capture owed a new record: its id is well formed and not on file, the
/// idempotency key it makes fits, its payload breaks no rule, the history it
/// joins is acyclic, and one more record keeps the namespace readable.
pub open spec fn capture_owed(ctx: &Context, id: Seq<char>, payload: CaptureData) -> bool {
    &&& crate::model::id_format(vstd::utf8::encode_utf8(id))
    &&& ctx.holds(id) is None
    &&& validate::label_ok("capture:"@ + id)
    &&& (payload.project_id matches Some(p) ==> ctx.holds(p@) matches Some(x) && x.kind_of()
        == RecordKind::Project)
    &&& 1 <= payload.content@.len() <= limits::MAX_CAPTURE_CHARS
    &&& (payload.content_digest matches Some(x) ==> x@ == util::spec_digest_text(payload.content@))
    &&& (payload.occurred_at matches Some(at) ==> util::spec_utc_key(at@) is Some)
    &&& validate::history_acyclic(ctx.records@)
    &&& ctx.records@.len() + 1 <= limits::MAX_PREFETCH_RECORDS
}

/// How a capture request is answered.
#[derive(Debug)]
pub enum CaptureOutcome {
    /// The explicit id is on file with the same payload.
    Replay(StoredRecord),
    /// A new capture record, planned for writing.
    Created(Plan),
}

/// The one-record package a capture makes follows the rules when the capture
/// is owed a record.
proof fn lemma_capture_follows_rules(
    pkg: &Package,
    ctx: &Context,
    id: Seq<char>,
    payload: CaptureData,
    seq: i64,
    now: Seq<char>,
)
    requires
        capture_owed(ctx, id, payload),
        pkg.records@.len() == 1,
        pkg.records@[0].id@ == id,
        pkg.records@[0].kind == RecordKind::Capture,
        pkg.records@[0].data == Ok::<RecordData, String>(RecordData::Capture(payload)),
        pkg.idempotency_key@ == "capture:"@ + id,
        pkg.actor@ == "capture"@,
        pkg.root_change is None,
        pkg.publish is None,
    ensures
        validate::package_follows_rules(pkg, ctx, seq, now),
{
    reveal_strlit("capture");
    assert(vstd::utf8::is_ascii_chars("capture"@));
    vstd::utf8::is_ascii_chars_encode_utf8("capture"@);
    assert(!text::spec_is_whitespace(pkg.actor@[0])) by {
        reveal(text::spec_is_whitespace);
    }
    assert(validate::label_ok(pkg.actor@));
    assert(validate::shape_item_ok(pkg, ctx, 0));
    assert(validate::shape_ok(pkg, ctx));
    assert forall|sv: Vec<StoredRecord>| #[trigger]
        validate::staged_right(pkg, ctx, seq, now, sv@) implies validate::staging_clean(pkg, ctx, &sv) by {
        let rec = sv@[0];
        assert(rec.data == RecordData::Capture(payload));
        let lk = Overlay { base: ctx, added: &sv };
        if let Some(p) = payload.project_id {
            assert(p@ != id);
            assert(rec.id@ == id);
            assert(graph::first_with_id(sv@.drop_first(), p@) is None);
            assert(graph::first_with_id(sv@, p@) is None);
            assert(lk.holds(p@) == ctx.holds(p@));
            validate::lemma_one_kind(RecordKind::Project, RecordKind::Project);
            assert(validate::needed(&lk, p@, seq![RecordKind::Project]) is Some);
        }
        assert(validate::opt_needed(&lk, payload.project_id, RecordKind::Project));
        assert(validate::record_clean(&lk, ctx, rec));
        assert forall|i: int| 0 <= i < sv@.len() implies #[trigger] validate::record_clean(&lk, ctx, sv@[i]) by {
            assert(i == 0);
        }
        assert(validate::slot_ranked(sv@, seq![0nat]));
        assert forall|k: int, x: Seq<char>, y: Seq<char>| 0 <= k < sv@.len() implies !#[trigger] validate::history_pair(sv@[k], x, y) by {
            assert(k == 0);
        }
        validate::lemma_history_extend_flat(ctx.records@, sv@);
    }
}

/// Decide a capture from state read under the lock. An explicit id is the
/// idempotency key: on file with the same payload it replays, with another
/// payload it conflicts. Without an id the capture takes `fresh_id`, so two
/// identical pastes are two records.
pub fn plan_capture(
    ctx: &Context,
    req: &CaptureRequest,
    payload: &CaptureData,
    fresh_id: &str,
    seq: i64,
    now: &str,
) -> (r: Result<CaptureOutcome, ApiError>)
    ensures
        match req.id {
            Some(id) => match ctx.holds(id@) {
                Some(existing) => match r {
                    Ok(CaptureOutcome::Replay(x)) => x.same_as(&existing) && (existing.data matches RecordData::Capture(c)
                        && same_capture(c, *payload)),
                    Ok(CaptureOutcome::Created(_)) => false,
                    Err(e) => e.code == "idempotency_conflict" && !(existing.data matches RecordData::Capture(c)
                        && same_capture(c, *payload)),
                },
                None => true,
            },
            None => true,
        },
        (req.id matches Some(id) ==> ctx.holds(id@) is None) && capture_owed(
            ctx,
            capture_id(req, fresh_id@),
            *payload,
        ) ==> r matches Ok(CaptureOutcome::Created(_)),
        r matches Ok(CaptureOutcome::Created(plan)) ==> {
            &&& plan.records@.len() == 1
            &&& plan.records@[0].id@ == match req.id {
                Some(id) => id@,
                None => fresh_id@,
            }
            &&& plan.records@[0].seq == seq
            &&& plan.records@[0].recorded_at@ == now@
            &&& plan.head_records@.len() == 0
            &&& ctx.records@.len() + 1 <= limits::MAX_PREFETCH_RECORDS
        },
{
    let id = match &req.id {
        Some(id) => {
            match ctx.get(id.as_str()) {
                Some(existing) => {
                    let same = match &existing.data {
                        RecordData::Capture(c) => captures_equal(c, payload),
                        _ => false,
                    };
                    if same {
                        return Ok(CaptureOutcome::Replay(existing.clone()));
                    } else {
                        return Err(ApiError::idempotency_conflict(id.as_str()));
                    }
                },
                None => id.clone(),
            }
        },
        None => text::owned(fresh_id),
    };
    let mut records: Vec<NewRecord> = Vec::new();
    records.push(
        NewRecord { id: id.clone(), kind: RecordKind::Capture, data: Ok(RecordData::Capture(payload.clone())) },
    );
    let pkg = Package {
        protocol_version: PROTOCOL_VERSION,
        idempotency_key: text::concat("capture:", id.as_str()),
        actor: text::owned("capture"),
        reason: text::owned("raw capture"),
        expected_heads: Vec::new(),
        records,
        root_change: None,
        publish: None,
    };
    proof {
        if capture_owed(ctx, id@, *payload) {
            lemma_capture_follows_rules(&pkg, ctx, id@, *payload, seq, now@);
        }
    }
    let plan = match validate::validate_package(&pkg, ctx, seq, now) {
        Ok(p) => p,
        Err(issues) => return Err(ApiError::validation(issues)),
    };
    match check_capacity(ctx.records.len(), plan.records.len() + plan.head_records.len()) {
        Ok(()) => {},
        Err(e) => return Err(e),
    }
    Ok(CaptureOutcome::Created(plan))
}


// ---------------------------------------------------------------- replays

/// Index of the first field named `key`.
pub open spec fn field_index(fs: Seq<(Seq<char>, JsonV)>, key: Seq<char>) -> Option<int>
    decreases fs.len(),
{
    if fs.len() == 0 {
        None
    } else if fs.last().0 == key && field_index(fs.drop_last(), key) is None {
        Some(fs.len() - 1)
    } else {
        field_index(fs.drop_last(), key)
    }
}

/// `fs` with the field `key` set to `value`: replaced where it is, added at
/// the end otherwise.
pub open spec fn with_field(fs: Seq<(Seq<char>, JsonV)>, key: Seq<char>, value: JsonV) -> Seq<
    (Seq<char>, JsonV),
> {
    match field_index(fs, key) {
        Some(i) => fs.update(i, (key, value)),
        None => fs.push((key, value)),
    }
}

/// A stored receipt value marked as a replay.
pub open spec fn marked(receipt: JsonV) -> JsonV {
    match receipt {
        JsonV::Object(fs) => JsonV::Object(with_field(fs, "replay"@, JsonV::Bool(true))),
        _ => JsonV::Object(seq![("replay"@, JsonV::Bool(true))]),
    }
}

/// A stored response answered again: its receipt says `replay: true`, and
/// nothing else changes.
pub open spec fn replayed(stored: JsonV) -> JsonV {
    match stored {
        JsonV::Object(fs) => match field_index(fs, "receipt"@) {
            Some(i) => JsonV::Object(fs.update(i, ("receipt"@, marked(fs[i].1)))),
            None => stored,
        },
        _ => stored,
    }
}

/// A receipt that can be marked: an object, or null.
pub open spec fn markable(stored: JsonV) -> bool {
    match stored {
        JsonV::Object(fs) => match field_index(fs, "receipt"@) {
            Some(i) => fs[i].1 is Object || fs[i].1 is Null,
            None => true,
        },
        _ => true,
    }
}

proof fn lemma_field_index(fs: Seq<(Seq<char>, JsonV)>, key: Seq<char>, i: int)
    requires
        0 <= i < fs.len(),
        fs[i].0 == key,
        forall|j: int| 0 <= j < i ==> fs[j].0 != key,
    ensures
        field_index(fs, key) == Some(i),
    decreases fs.len(),
{
    if i < fs.len() - 1 {
        lemma_field_index(fs.drop_last(), key, i);
    } else {
        lemma_no_field(fs.drop_last(), key);
    }
}

proof fn lemma_no_field(fs: Seq<(Seq<char>, JsonV)>, key: Seq<char>)
    requires
        forall|j: int| 0 <= j < fs.len() ==> fs[j].0 != key,
    ensures
        field_index(fs, key) is None,
    decreases fs.len(),
{
    if fs.len() > 0 {
        lemma_no_field(fs.drop_last(), key);
    }
}

proof fn lemma_field_index_means(fs: Seq<(Seq<char>, JsonV)>, key: Seq<char>)
    ensures
        match field_index(fs, key) {
            Some(i) => 0 <= i < fs.len() && fs[i].0 == key && forall|j: int| 0 <= j < i ==> fs[j].0 != key,
            None => forall|j: int| 0 <= j < fs.len() ==> fs[j].0 != key,
        },
    decreases fs.len(),
{
    if fs.len() > 0 {
        let d = fs.drop_last();
        lemma_field_index_means(d, key);
        assert forall|j: int| 0 <= j < d.len() implies d[j] == fs[j] by {}
    }
}

proof fn lemma_with_field_twice(fs: Seq<(Seq<char>, JsonV)>, key: Seq<char>, value: JsonV)
    ensures
        with_field(with_field(fs, key, value), key, value) == with_field(fs, key, value),
        field_index(with_field(fs, key, value), key) is Some,
{
    lemma_field_index_means(fs, key);
    let once = with_field(fs, key, value);
    match field_index(fs, key) {
        Some(i) => {
            assert forall|j: int| 0 <= j < i implies once[j].0 != key by {}
            lemma_field_index(once, key, i);
            assert(once.update(i, (key, value)) =~= once);
        },
        None => {
            assert forall|j: int| 0 <= j < fs.len() implies once[j].0 != key by {}
            lemma_field_index(once, key, fs.len() as int);
            assert(once.update(fs.len() as int, (key, value)) =~= once);
        },
    }
}

/// Answering a stored response again changes nothing more: marking a replay
/// is idempotent, and what it marks stays markable.
pub proof fn law_replay_idempotent(stored: JsonV)
    requires
        markable(stored),
    ensures
        markable(replayed(stored)),
        replayed(replayed(stored)) == replayed(stored),
{
    match stored {
        JsonV::Object(fs) => match field_index(fs, "receipt"@) {
            Some(i) => {
                lemma_field_index_means(fs, "receipt"@);
                let m = marked(fs[i].1);
                let up = fs.update(i, ("receipt"@, m));
                assert forall|j: int| 0 <= j < i implies up[j].0 != "receipt"@ by {}
                lemma_field_index(up, "receipt"@, i);
                match fs[i].1 {
                    JsonV::Object(rf) => {
                        lemma_with_field_twice(rf, "replay"@, JsonV::Bool(true));
                    },
                    _ => {
                        let one = seq![("replay"@, JsonV::Bool(true))];
                        lemma_with_field_twice(Seq::empty(), "replay"@, JsonV::Bool(true));
                        assert(with_field(Seq::empty(), "replay"@, JsonV::Bool(true)) =~= one);
                    },
                }
                assert(up.update(i, ("receipt"@, marked(m))) =~= up);
            },
            None => {},
        },
        _ => {},
    }
}

fn find_field(fs: &Vec<(String, Json)>, key: &str) -> (r: Option<usize>)
    ensures
        match r {
            Some(i) => i < fs@.len() && fs@[i as int].0@ == key@ && forall|j: int|
                0 <= j < i ==> (#[trigger] fs@[j]).0@ != key@,
            None => forall|j: int| 0 <= j < fs@.len() ==> (#[trigger] fs@[j]).0@ != key@,
        },
{
    let mut i: usize = 0;
    while i < fs.len()
        invariant
            0 <= i <= fs@.len(),
            forall|j: int| 0 <= j < i ==> (#[trigger] fs@[j]).0@ != key@,
        decreases fs@.len() - i,
    {
        if text::str_eq(fs[i].0.as_str(), key) {
            return Some(i);
        }
        i += 1;
    }
    None
}

pub open spec fn field_views(fs: Seq<(String, Json)>) -> Seq<(Seq<char>, JsonV)> {
    Seq::new(fs.len(), |i: int| (fs[i].0@, fs[i].1.deep()))
}

proof fn lemma_object_deep(j: Json)
    requires
        j is Object,
    ensures
        j.deep() == JsonV::Object(field_views(j->Object_0@)),
{
    let fs = j->Object_0@;
    if let JsonV::Object(x) = j.deep() {
        assert(x =~= field_views(fs));
    }
}

fn mark_receipt(receipt: Json) -> (r: Json)
    ensures
        r.deep() == marked(receipt.deep()),
{
    match receipt {
        Json::Object(fs) => {
            let ghost before = fs@;
            let mut fs = fs;
            proof {
                lemma_object_deep(Json::Object(fs));
            }
            let ghost fv = field_views(before);
            match find_field(&fs, "replay") {
                Some(i) => {
                    proof {
                        assert forall|j: int| 0 <= j < i implies fv[j].0 != "replay"@ by {
                            assert(before[j].0@ != "replay"@);
                        }
                        lemma_field_index(fv, "replay"@, i as int);
                    }
                    fs.set(i, (text::owned("replay"), Json::Bool(true)));
                    proof {
                        assert(field_views(fs@) =~= fv.update(i as int, ("replay"@, JsonV::Bool(true))));
                        lemma_object_deep(Json::Object(fs));
                    }
                },
                None => {
                    proof {
                        assert forall|j: int| 0 <= j < fv.len() implies fv[j].0 != "replay"@ by {
                            assert(before[j].0@ != "replay"@);
                        }
                        lemma_no_field(fv, "replay"@);
                    }
                    fs.push((text::owned("replay"), Json::Bool(true)));
                    proof {
                        assert(field_views(fs@) =~= fv.push(("replay"@, JsonV::Bool(true))));
                        lemma_object_deep(Json::Object(fs));
                    }
                },
            }
            Json::Object(fs)
        },
        _ => {
            let mut fs: Vec<(String, Json)> = Vec::new();
            fs.push((text::owned("replay"), Json::Bool(true)));
            proof {
                assert(field_views(fs@) =~= seq![("replay"@, JsonV::Bool(true))]);
                lemma_object_deep(Json::Object(fs));
            }
            Json::Object(fs)
        },
    }
}

/// Mark a stored response as a replay without changing anything else.
pub fn as_replay(stored: Json) -> (r: Json)
    requires
        markable(stored.deep()),
    ensures
        r.deep() == replayed(stored.deep()),
{
    match stored {
        Json::Object(fs) => {
            let ghost before = fs@;
            proof {
                lemma_object_deep(Json::Object(fs));
            }
            let ghost fv = field_views(before);
            match find_field(&fs, "receipt") {
                Some(i) => {
                    proof {
                        assert forall|j: int| 0 <= j < i implies fv[j].0 != "receipt"@ by {
                            assert(before[j].0@ != "receipt"@);
                        }
                        lemma_field_index(fv, "receipt"@, i as int);
                    }
                    let mut fs = fs;
                    let old = fs.remove(i);
                    assert(old == before[i as int]);
                    let m = mark_receipt(old.1);
                    fs.insert(i, (text::owned("receipt"), m));
                    proof {
                        assert(field_views(fs@) =~= fv.update(
                            i as int,
                            ("receipt"@, marked(fv[i as int].1)),
                        ));
                        lemma_object_deep(Json::Object(fs));
                    }
                    Json::Object(fs)
                },
                None => {
                    proof {
                        assert forall|j: int| 0 <= j < fv.len() implies fv[j].0 != "receipt"@ by {
                            assert(before[j].0@ != "receipt"@);
                        }
                        lemma_no_field(fv, "receipt"@);
                    }
                    Json::Object(fs)
                },
            }
        },
        other => other,
    }
}

} // verus!
