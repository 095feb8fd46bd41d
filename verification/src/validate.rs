//! Deterministic domain validation. Pure over a pre-fetched `Context`, so
//! every rule is checkable without storage.

use vstd::prelude::*;

use crate::error::Issue;
use crate::graph::{self, Lookup, PathError, PathFault};
use crate::limits;
use crate::model::{
    views, ChangeKind, ClaimMode, CaptureData, Comparator, Criterion, CriterionKind, Decision,
    EntityKind, EvidenceKind, HeadChangeData, JudgeStatus, LineageKind, LinkData, LinkType,
    NewRecord, NodeKind, ObservationData, ObservationStatus, Origin, ProposalOrigin,
    PublicationData, RecordData, RecordKind, RevisionData, Scope, SourceAnchor, Stage,
    Slot, StoredRecord, is_valid_id, is_valid_slug, slug_format, id_format,
};
use crate::num::Num;
use crate::text;
use crate::util;

verus! {

// ---------------------------------------------------------------- request

#[derive(Debug)]
pub struct ExpectedHead {
    pub project_id: String,
    pub stage: Stage,
    pub revision_id: Option<String>,
}

#[derive(Debug)]
pub struct RootChange {
    pub project_id: String,
    pub stage: Stage,
    pub after_revision_id: String,
    pub reason: String,
    pub meaningful: bool,
    pub decision: Decision,
}

#[derive(Debug)]
pub struct PublishRequest {
    pub project_id: String,
    pub root_revision_id: String,
    pub label: String,
    pub published_at: String,
    pub notes: String,
}

#[derive(Debug)]
pub struct Package {
    pub protocol_version: u32,
    pub idempotency_key: String,
    pub actor: String,
    pub reason: String,
    pub expected_heads: Vec<ExpectedHead>,
    pub records: Vec<NewRecord>,
    pub root_change: Option<RootChange>,
    pub publish: Option<PublishRequest>,
}

// ---------------------------------------------------------------- context

#[derive(Debug)]
pub struct HeadState {
    pub working_head: Option<String>,
    pub working_head_seq: i64,
    pub official_head: Option<String>,
    pub official_publication_id: Option<String>,
}

impl HeadState {
    pub fn new() -> (r: HeadState)
        ensures
            r.working_head is None,
            r.working_head_seq == 0,
            r.official_head is None,
            r.official_publication_id is None,
    {
        HeadState {
            working_head: None,
            working_head_seq: 0,
            official_head: None,
            official_publication_id: None,
        }
    }
}

impl Clone for HeadState {
    fn clone(&self) -> (r: Self)
        ensures
            r == *self,
    {
        HeadState {
            working_head: self.working_head.clone(),
            working_head_seq: self.working_head_seq,
            official_head: self.official_head.clone(),
            official_publication_id: self.official_publication_id.clone(),
        }
    }
}

/// Everything validation may know about existing state.
#[derive(Debug)]
pub struct Context {
    pub records: Vec<StoredRecord>,
    /// Project id and its heads.
    pub heads: Vec<(String, HeadState)>,
    /// Entity id and its existing revisions, ascending by `(seq, id)`.
    pub entity_revisions: Vec<(String, Vec<(i64, String)>)>,
    pub promoted_candidates: Vec<String>,
    pub seq: i64,
}

impl Lookup for Context {
    open spec fn holds(&self, id: Seq<char>) -> Option<StoredRecord> {
        graph::first_with_id(self.records@, id)
    }

    fn get(&self, id: &str) -> (r: Option<&StoredRecord>) {
        graph::find_record(&self.records, id)
    }
}

/// The revisions of `entity` recorded before, as listed in `table`.
pub open spec fn revisions_in(table: Seq<(String, Vec<(i64, String)>)>, entity: Seq<char>) -> Seq<
    (i64, String),
>
    decreases table.len(),
{
    if table.len() == 0 {
        Seq::empty()
    } else if table[0].0@ == entity {
        table[0].1@
    } else {
        revisions_in(table.drop_first(), entity)
    }
}

/// What a context is given under a new id, it then holds; nothing it held
/// before changes.
pub proof fn law_insert_then_holds(before: &Context, after: &Context, rec: StoredRecord, id: Seq<char>)
    requires
        after.records@ == before.records@.push(rec),
    ensures
        before.holds(rec.id@) is None ==> after.holds(rec.id@) == Some(rec),
        before.holds(id) is Some ==> after.holds(id) == before.holds(id),
{
    graph::law_add_then_find(before.records@, rec, id);
}

impl Context {
    /// No two records share an id, and no project has two head rows.
    pub open spec fn wf(&self) -> bool {
        &&& forall|a: int, b: int|
            0 <= a < b < self.records@.len() ==> (#[trigger] self.records@[a]).id@ != (
            #[trigger] self.records@[b]).id@
        &&& forall|a: int, b: int|
            0 <= a < b < self.heads@.len() ==> (#[trigger] self.heads@[a]).0@ != (#[trigger] self.heads@[b]).0@
    }

    pub fn new(seq: i64) -> (r: Context)
        ensures
            r.wf(),
            r.records@.len() == 0,
            r.heads@.len() == 0,
            r.entity_revisions@.len() == 0,
            r.promoted_candidates@.len() == 0,
            r.seq == seq,
    {
        Context {
            records: Vec::new(),
            heads: Vec::new(),
            entity_revisions: Vec::new(),
            promoted_candidates: Vec::new(),
            seq,
        }
    }

    pub open spec fn revisions_of(&self, entity: Seq<char>) -> Seq<(i64, String)> {
        revisions_in(self.entity_revisions@, entity)
    }

    /// Existing revisions of `entity`, ascending by `(seq, id)`.
    pub fn existing_revisions(&self, entity: &str) -> (r: &[(i64, String)])
        ensures
            r@ == self.revisions_of(entity@),
    {
        let mut i: usize = 0;
        assert(self.entity_revisions@.skip(0) == self.entity_revisions@);
        while i < self.entity_revisions.len()
            invariant
                0 <= i <= self.entity_revisions@.len(),
                self.revisions_of(entity@) == revisions_in(
                    self.entity_revisions@.skip(i as int),
                    entity@,
                ),
            decreases self.entity_revisions@.len() - i,
        {
            assert(self.entity_revisions@.skip(i as int).drop_first()
                == self.entity_revisions@.skip(i + 1));
            if text::str_eq(self.entity_revisions[i].0.as_str(), entity) {
                return self.entity_revisions[i].1.as_slice();
            }
            i += 1;
        }
        &[]
    }

    /// Add a record: its revision joins its entity's revisions in `(seq, id)`
    /// order, a promotion marks its candidate, and the sequence number keeps
    /// the highest seen.
    pub fn insert(&mut self, rec: StoredRecord)
        ensures
            final(self).records@ == old(self).records@.push(rec),
            final(self).seq == (if rec.seq > old(self).seq { rec.seq } else { old(self).seq }),
            final(self).heads@ == old(self).heads@,
            old(self).wf() && old(self).holds(rec.id@) is None ==> final(self).wf(),
    {
        let ghost before = self.records@;
        if let Some(rev) = rec.as_revision() {
            let mut found: Option<usize> = None;
            let mut i: usize = 0;
            while i < self.entity_revisions.len()
                invariant
                    found matches Some(k) ==> k < self.entity_revisions@.len(),
                decreases self.entity_revisions@.len() - i,
            {
                if found.is_none() && text::str_eq(self.entity_revisions[i].0.as_str(), rev.entity_id.as_str()) {
                    found = Some(i);
                }
                i += 1;
            }
            let k = match found {
                Some(k) => k,
                None => {
                    self.entity_revisions.push((rev.entity_id.clone(), Vec::new()));
                    self.entity_revisions.len() - 1
                },
            };
            let mut list = self.entity_revisions[k].1.clone();
            let mut p: usize = 0;
            while p < list.len() && (list[p].0 < rec.seq || (list[p].0 == rec.seq
                && !crate::json::str_lt(rec.id.as_str(), list[p].1.as_str())))
                invariant
                    p <= list@.len(),
                decreases list@.len() - p,
            {
                p += 1;
            }
            list.insert(p, (rec.seq, rec.id.clone()));
            let name = self.entity_revisions[k].0.clone();
            self.entity_revisions.set(k, (name, list));
        }
        if let RecordData::Promotion(pr) = &rec.data {
            self.promoted_candidates.push(pr.candidate_id.clone());
        }
        if rec.seq > self.seq {
            self.seq = rec.seq;
        }
        self.records.push(rec);
        proof {
            if old(self).wf() && graph::first_with_id(before, rec.id@) is None {
                assert forall|a: int, b: int|
                    0 <= a < b < self.records@.len() implies (#[trigger] self.records@[a]).id@ != (
                    #[trigger] self.records@[b]).id@ by {
                    if b == before.len() {
                        graph::lemma_absent_id(before, rec.id@, a);
                        assert(self.records@[a] == before[a]);
                    } else {
                        assert(self.records@[a] == before[a]);
                        assert(self.records@[b] == before[b]);
                    }
                }
            }
        }
    }

    pub open spec fn was_promoted(&self, candidate: Seq<char>) -> bool {
        exists|i: int|
            0 <= i < self.promoted_candidates@.len() && (#[trigger] self.promoted_candidates@[i])@
                == candidate
    }

    pub fn promoted(&self, candidate: &str) -> (r: bool)
        ensures
            r == self.was_promoted(candidate@),
    {
        text::contains_str(&self.promoted_candidates, candidate)
    }
}

/// Existing records plus the records a package is about to write; the
/// package's own records are seen first.
#[derive(Debug)]
pub struct Overlay<'a> {
    pub base: &'a Context,
    pub added: &'a Vec<StoredRecord>,
}

impl<'a> Lookup for Overlay<'a> {
    open spec fn holds(&self, id: Seq<char>) -> Option<StoredRecord> {
        match graph::first_with_id(self.added@, id) {
            Some(r) => Some(r),
            None => self.base.holds(id),
        }
    }

    fn get(&self, id: &str) -> (r: Option<&StoredRecord>) {
        match graph::find_record(self.added, id) {
            Some(r) => Some(r),
            None => self.base.get(id),
        }
    }
}

#[derive(Debug)]
pub struct HeadUpdate {
    pub project_id: String,
    pub stage: Stage,
    pub revision_id: String,
    pub publication_id: Option<String>,
}

#[derive(Debug)]
pub struct Plan {
    /// The package's own records, stamped, in package order.
    pub records: Vec<StoredRecord>,
    /// The `head_change` and `publication` records the server writes.
    pub head_records: Vec<StoredRecord>,
    pub head_updates: Vec<HeadUpdate>,
    pub warnings: Vec<Issue>,
    pub publication_id: Option<String>,
    /// `previous_revision_id` the server inferred for `composition`
    /// revisions: revision id and the predecessor.
    pub resolved_previous: Vec<(String, String)>,
}

// ---------------------------------------------------------------- issues

/// `new` is `old` followed by more issues.
pub open spec fn grew(old: Seq<Issue>, new: Seq<Issue>) -> bool {
    new.len() >= old.len() && new.take(old.len() as int) == old
}

/// `new` is `old` followed by exactly one issue, at `path` with `code`.
pub open spec fn pushed(old: Seq<Issue>, new: Seq<Issue>, path: Seq<char>, code: &'static str) -> bool {
    new.len() == old.len() + 1 && new.take(old.len() as int) == old && new.last().is(path, code)
}

/// Path and code of each issue, in order.
pub open spec fn keys(issues: Seq<Issue>) -> Seq<(Seq<char>, &'static str)> {
    issues.map_values(|i: Issue| (i.path@, i.code))
}

fn report(issues: &mut Vec<Issue>, path: String, code: &'static str, message: String)
    ensures
        pushed(old(issues)@, final(issues)@, path@, code),
        final(issues)@.last().message == message,
        keeps(old(issues)@, final(issues)@),
{
    issues.push(Issue::new(path, code, message));
    assert(issues@.take(old(issues)@.len() as int) =~= old(issues)@);
    proof {
        lemma_keeps(old(issues)@, issues@);
    }
}

/// `after` keeps what `before` held: whatever `before` grew from, `after`
/// grew from too, and every issue it held past a position it still holds.
pub open spec fn keeps(before: Seq<Issue>, after: Seq<Issue>) -> bool {
    &&& grew(before, after)
    &&& forall|base: Seq<Issue>| #[trigger] grew(base, before) ==> grew(base, after)
    &&& forall|from: int, path: Seq<char>, code: &'static str|
        from >= 0 && #[trigger] has_new(before, from, path, code) ==> has_new(after, from, path, code)
}

proof fn lemma_keeps(before: Seq<Issue>, after: Seq<Issue>)
    requires
        grew(before, after),
    ensures
        keeps(before, after),
{
    assert forall|base: Seq<Issue>| #[trigger] grew(base, before) implies grew(base, after) by {
        lemma_grew_trans(base, before, after);
    }
    assert forall|from: int, path: Seq<char>, code: &'static str|
        from >= 0 && #[trigger] has_new(before, from, path, code) implies has_new(after, from, path, code) by {
        lemma_has_new_grew(before, after, from, path, code);
    }
}

proof fn lemma_keeps_trans(a: Seq<Issue>, b: Seq<Issue>, c: Seq<Issue>)
    requires
        keeps(a, b),
        keeps(b, c),
    ensures
        keeps(a, c),
{
    lemma_grew_trans(a, b, c);
    lemma_keeps(a, c);
}

proof fn lemma_keeps_refl(a: Seq<Issue>)
    ensures
        keeps(a, a),
{
    lemma_grew_refl(a);
    lemma_keeps(a, a);
}

proof fn lemma_grew_trans(a: Seq<Issue>, b: Seq<Issue>, c: Seq<Issue>)
    requires
        grew(a, b),
        grew(b, c),
    ensures
        grew(a, c),
{
    assert(c.take(a.len() as int) =~= c.take(b.len() as int).take(a.len() as int));
}

proof fn lemma_grew_refl(a: Seq<Issue>)
    ensures
        grew(a, a),
{
    assert(a.take(a.len() as int) =~= a);
}

proof fn lemma_pushed_grew(a: Seq<Issue>, b: Seq<Issue>, p: Seq<char>, c: &'static str)
    requires
        pushed(a, b, p, c),
    ensures
        grew(a, b),
        b.len() > a.len(),
{
}

// ---------------------------------------------------------------- checks

pub open spec fn length_code(len: int, max: int) -> &'static str {
    if len > max {
        "limit_exceeded"
    } else {
        "invalid_field"
    }
}

/// A text field's length in characters must lie in `min..=max`.
pub fn check_text(issues: &mut Vec<Issue>, path: &str, value: &str, min: usize, max: usize)
    ensures
        if min <= value@.len() <= max {
            final(issues)@ == old(issues)@
        } else {
            pushed(old(issues)@, final(issues)@, path@, length_code(value@.len() as int, max as int))
        },
        keeps(old(issues)@, final(issues)@),
{
    proof {
        lemma_keeps_refl(issues@);
    }
    let len = text::char_count(value);
    if len < min || len > max {
        let mut m = text::owned("length ");
        text::push_str(&mut m, text::usize_text(len).as_str());
        text::push_str(&mut m, " is outside ");
        text::push_str(&mut m, text::usize_text(min).as_str());
        text::push_str(&mut m, "..");
        text::push_str(&mut m, text::usize_text(max).as_str());
        report(issues, text::owned(path), if len > max { "limit_exceeded" } else { "invalid_field" }, m);
    }
}

/// Index text `name[i]`.
pub open spec fn indexed(name: Seq<char>, i: int) -> Seq<char> {
    name + "["@ + text::spec_int_text(i) + "]"@
}

pub fn index_path(name: &str, i: usize) -> (r: String)
    ensures
        r@ == indexed(name@, i as int),
{
    let mut r = text::owned(name);
    text::push_str(&mut r, "[");
    text::push_str(&mut r, text::usize_text(i).as_str());
    text::push_str(&mut r, "]");
    r
}

/// Issues of a slug list: too many entries, then each malformed entry.
pub open spec fn slug_keys(path: Seq<char>, values: Seq<String>, max_count: int) -> Seq<
    (Seq<char>, &'static str),
> {
    (if values.len() > max_count {
        seq![(path, "limit_exceeded")]
    } else {
        Seq::empty()
    }) + bad_slug_keys(path, values, values.len() as int)
}

pub open spec fn bad_slug_keys(path: Seq<char>, values: Seq<String>, n: int) -> Seq<
    (Seq<char>, &'static str),
>
    decreases n,
{
    if n <= 0 {
        Seq::empty()
    } else {
        bad_slug_keys(path, values, n - 1) + if slug_format(
            vstd::utf8::encode_utf8(values[n - 1]@),
        ) {
            Seq::empty()
        } else {
            seq![(indexed(path, n - 1), "invalid_field")]
        }
    }
}

/// At most `max` values, each a slug.
pub open spec fn slugs_ok(values: Seq<String>, max: int) -> bool {
    values.len() <= max && forall|q: int| 0 <= q < values.len() ==> slug_format(vstd::utf8::encode_utf8(#[trigger] values[q]@))
}

proof fn lemma_bad_slug_len(path: Seq<char>, values: Seq<String>, n: int)
    requires
        0 <= n <= values.len(),
    ensures
        bad_slug_keys(path, values, n).len() == 0 <==> forall|q: int|
            0 <= q < n ==> slug_format(vstd::utf8::encode_utf8(#[trigger] values[q]@)),
    decreases n,
{
    if n > 0 {
        lemma_bad_slug_len(path, values, n - 1);
    }
}

pub fn check_slugs(issues: &mut Vec<Issue>, path: &str, values: &Vec<String>, max_count: usize)
    ensures
        keys(final(issues)@) == keys(old(issues)@) + slug_keys(path@, values@, max_count as int),
        grew(old(issues)@, final(issues)@),
        final(issues)@.len() == old(issues)@.len() <==> slugs_ok(values@, max_count as int),
{
    proof {
        lemma_bad_slug_len(path@, values@, values@.len() as int);
    }
    if values.len() > max_count {
        let mut m = text::usize_text(values.len());
        text::push_str(&mut m, " entries exceeds ");
        text::push_str(&mut m, text::usize_text(max_count).as_str());
        report(issues, text::owned(path), "limit_exceeded", m);
    }
    let ghost mid = issues@;
    proof {
        lemma_grew_refl(mid);
        lemma_grew_refl(old(issues)@);
    }
    assert(keys(mid) == keys(old(issues)@) + (if values@.len() > max_count {
        seq![(path@, "limit_exceeded")]
    } else {
        Seq::empty()
    })) by {
        assert(keys(mid) =~= keys(old(issues)@) + (if values@.len() > max_count {
            seq![(path@, "limit_exceeded")]
        } else {
            Seq::empty()
        }));
    }
    let mut i: usize = 0;
    while i < values.len()
        invariant
            0 <= i <= values@.len(),
            grew(mid, issues@),
            grew(old(issues)@, mid),
            keys(issues@) == keys(mid) + bad_slug_keys(path@, values@, i as int),
        decreases values@.len() - i,
    {
        let ghost before = issues@;
        if !is_valid_slug(values[i].as_str()) {
            let mut m = text::owned("'");
            text::push_str(&mut m, values[i].as_str());
            text::push_str(&mut m, "' is not a valid slug");
            report(issues, index_path(path, i), "invalid_field", m);
            assert(keys(issues@) =~= keys(before) + seq![(indexed(path@, i as int), "invalid_field")]);
        }
        proof {
            lemma_grew_refl(before);
            lemma_grew_trans(mid, before, issues@);
        }
        i += 1;
    }
    proof {
        lemma_grew_trans(old(issues)@, mid, issues@);
    }
    proof {
        assert(keys(issues@).len() == issues@.len());
        assert(keys(old(issues)@).len() == old(issues)@.len());
    }
}


/// Some issue at `path` with `code` was added after `old`.
pub open spec fn added(old: Seq<Issue>, new: Seq<Issue>, path: Seq<char>, code: &'static str) -> bool {
    grew(old, new) && exists|i: int| old.len() <= i < new.len() && (#[trigger] new[i]).is(path, code)
}

proof fn lemma_added_grows(a: Seq<Issue>, b: Seq<Issue>, c: Seq<Issue>, p: Seq<char>, code: &'static str)
    requires
        added(a, b, p, code),
        grew(b, c),
    ensures
        added(a, c, p, code),
{
    lemma_grew_trans(a, b, c);
    let i = choose|i: int| a.len() <= i < b.len() && (#[trigger] b[i]).is(p, code);
    assert(c.take(b.len() as int)[i] == c[i]);
}

proof fn lemma_added_before(a: Seq<Issue>, b: Seq<Issue>, c: Seq<Issue>, p: Seq<char>, code: &'static str)
    requires
        grew(a, b),
        added(b, c, p, code),
    ensures
        added(a, c, p, code),
{
    lemma_grew_trans(a, b, c);
}

proof fn lemma_pushed_added(a: Seq<Issue>, b: Seq<Issue>, p: Seq<char>, code: &'static str)
    requires
        pushed(a, b, p, code),
    ensures
        added(a, b, p, code),
{
    assert(b[b.len() - 1].is(p, code));
}

/// The UTC key of a timestamp, or an issue when it has no explicit offset.
pub fn check_timestamp(issues: &mut Vec<Issue>, path: &str, value: &str) -> (r: Option<String>)
    ensures
        match util::spec_utc_key(value@) {
            Some(k) => r is Some && r.unwrap()@ == k && final(issues)@ == old(issues)@,
            None => r is None && pushed(old(issues)@, final(issues)@, path@, "timezone_required"),
        },
        keeps(old(issues)@, final(issues)@),
{
    proof {
        lemma_keeps_refl(issues@);
    }
    match util::utc_key(value) {
        Some(k) => Some(k),
        None => {
            let mut m = text::owned("'");
            text::push_str(&mut m, value);
            text::push_str(&mut m, "' is not RFC 3339 with an explicit offset");
            report(issues, text::owned(path), "timezone_required", m);
            None
        },
    }
}

pub open spec fn blank_or_absent(o: Option<String>) -> bool {
    match o {
        Some(s) => text::spec_is_blank(s@),
        None => true,
    }
}

fn is_blank_or_absent(o: &Option<String>) -> (r: bool)
    ensures
        r == blank_or_absent(*o),
{
    match o {
        Some(s) => text::is_blank(s.as_str()),
        None => true,
    }
}

/// An ai-origin record names the model or the skill that produced it.
pub fn check_origin_attribution(
    issues: &mut Vec<Issue>,
    path: &str,
    origin: Origin,
    model: &Option<String>,
    skill: &Option<String>,
)
    ensures
        if origin == Origin::Ai && blank_or_absent(*model) && blank_or_absent(*skill) {
            pushed(old(issues)@, final(issues)@, path@ + ".model"@, "invalid_field")
        } else {
            final(issues)@ == old(issues)@
        },
{
    if origin == Origin::Ai && is_blank_or_absent(model) && is_blank_or_absent(skill) {
        report(
            issues,
            text::concat(path, ".model"),
            "invalid_field",
            text::owned("ai-origin records must name a model or a skill"),
        );
    }
}

pub open spec fn kind_listed(kinds: Seq<RecordKind>, k: RecordKind) -> bool {
    exists|i: int| 0 <= i < kinds.len() && kinds[i] == k
}

pub proof fn lemma_one_kind(k: RecordKind, x: RecordKind)
    ensures
        kind_listed(seq![k], x) <==> x == k,
{
    if x == k {
        assert(seq![k][0] == x);
    }
}

fn kind_in(kinds: &Vec<RecordKind>, k: RecordKind) -> (r: bool)
    ensures
        r == kind_listed(kinds@, k),
{
    let mut i: usize = 0;
    while i < kinds.len()
        invariant
            0 <= i <= kinds@.len(),
            forall|j: int| 0 <= j < i ==> kinds@[j] != k,
        decreases kinds@.len() - i,
    {
        if kinds[i] == k {
            return true;
        }
        i += 1;
    }
    false
}

/// The wire names of `kinds`, joined by `|`.
pub open spec fn kinds_text(kinds: Seq<RecordKind>) -> Seq<char>
    decreases kinds.len(),
{
    if kinds.len() == 0 {
        Seq::empty()
    } else if kinds.len() == 1 {
        kinds[0].name()
    } else {
        kinds_text(kinds.drop_last()) + "|"@ + kinds.last().name()
    }
}

fn kind_names(kinds: &Vec<RecordKind>) -> (m: String)
    ensures
        m@ == kinds_text(kinds@),
{
    let mut m = String::new();
    let mut i: usize = 0;
    while i < kinds.len()
        invariant
            0 <= i <= kinds@.len(),
            m@ == kinds_text(kinds@.take(i as int)),
        decreases kinds@.len() - i,
    {
        assert(kinds@.take(i + 1).drop_last() == kinds@.take(i as int));
        if i > 0 {
            text::push_str(&mut m, "|");
        }
        text::push_str(&mut m, kinds[i].as_str());
        i += 1;
    }
    assert(kinds@.take(kinds@.len() as int) == kinds@);
    m
}

/// What `need` makes of a reference: the record when it exists with one of
/// the wanted kinds.
pub open spec fn needed<L: Lookup>(lk: &L, id: Seq<char>, kinds: Seq<RecordKind>) -> Option<
    StoredRecord,
> {
    match lk.holds(id) {
        Some(r) => if kind_listed(kinds, r.kind_of()) {
            Some(r)
        } else {
            None
        },
        None => None,
    }
}

/// The issue a failed reference gives.
pub open spec fn need_code<L: Lookup>(lk: &L, id: Seq<char>) -> &'static str {
    if lk.holds(id) is None {
        "unknown_reference"
    } else {
        "wrong_reference_kind"
    }
}

/// A reference must name an existing record of one of `kinds`.
pub fn need<'a, L: Lookup>(
    lk: &'a L,
    issues: &mut Vec<Issue>,
    path: &str,
    id: &str,
    kinds: &Vec<RecordKind>,
) -> (r: Option<&'a StoredRecord>)
    ensures
        match needed(lk, id@, kinds@) {
            Some(rec) => r == Some(&rec) && final(issues)@ == old(issues)@,
            None => r is None && pushed(old(issues)@, final(issues)@, path@, need_code(lk, id@)),
        },
        keeps(old(issues)@, final(issues)@),
{
    proof {
        lemma_keeps_refl(issues@);
    }
    match lk.get(id) {
        None => {
            report(issues, text::owned(path), "unknown_reference", text::concat(id, " not found"));
            None
        },
        Some(r) => {
            if kind_in(kinds, r.kind()) {
                Some(r)
            } else {
                let mut m = text::owned(id);
                text::push_str(&mut m, " is a '");
                text::push_str(&mut m, r.kind().as_str());
                text::push_str(&mut m, "' record, expected ");
                text::push_str(&mut m, kind_names(kinds).as_str());
                report(issues, text::owned(path), "wrong_reference_kind", m);
                None
            }
        },
    }
}

/// `"sha256:" + 64 lower-case hex digits`, as an artifact digest must read.
pub open spec fn artifact_digest_format(d: Seq<char>) -> bool {
    &&& d.len() == 71
    &&& d.take(7) == util::sha256_prefix()
    &&& forall|i: int|
        7 <= i < 71 ==> ('0' <= #[trigger] d[i] <= '9') || ('a' <= d[i] <= 'f')
}

fn is_artifact_digest(d: &str) -> (r: bool)
    ensures
        r == artifact_digest_format(d@),
{
    let cs = text::chars_of(d);
    if cs.len() != 71 {
        return false;
    }
    proof {
        reveal_strlit("sha256:");
        assert("sha256:"@ =~= util::sha256_prefix());
    }
    if !text::starts_with(d, "sha256:") {
        return false;
    }
    let mut i: usize = 7;
    while i < 71
        invariant
            7 <= i <= 71,
            cs@ == d@,
            cs@.len() == 71,
            forall|j: int| 7 <= j < i ==> ('0' <= #[trigger] cs@[j] <= '9') || ('a' <= cs@[j] <= 'f'),
        decreases 71 - i,
    {
        let c = cs[i];
        if !(('0' <= c && c <= '9') || ('a' <= c && c <= 'f')) {
            return false;
        }
        i += 1;
    }
    true
}

/// A declared capture digest must be the digest of the content.
pub fn check_content_digest(issues: &mut Vec<Issue>, d: &str, c: &CaptureData)
    ensures
        match c.content_digest {
            Some(declared) => if declared@ == util::spec_digest_text(c.content@) {
                final(issues)@ == old(issues)@
            } else {
                pushed(
                    old(issues)@,
                    final(issues)@,
                    d@ + ".content_digest"@,
                    "content_digest_mismatch",
                )
            },
            None => final(issues)@ == old(issues)@,
        },
{
    if let Some(declared) = &c.content_digest {
        let actual = util::digest_text(c.content.as_str());
        if !text::str_eq(declared.as_str(), actual.as_str()) {
            let mut m = text::owned("declared ");
            text::push_str(&mut m, declared.as_str());
            text::push_str(&mut m, " but content hashes to ");
            text::push_str(&mut m, actual.as_str());
            report(issues, text::concat(d, ".content_digest"), "content_digest_mismatch", m);
        }
    }
}


/// `cs[start..end]` reads exactly `body`.
fn slice_equals(cs: &Vec<char>, start: usize, end: usize, body: &str) -> (r: bool)
    requires
        start <= end <= cs@.len(),
    ensures
        r == (cs@.subrange(start as int, end as int) == body@),
{
    let b = text::chars_of(body);
    if b.len() != end - start {
        return false;
    }
    let mut k: usize = 0;
    while k < b.len()
        invariant
            0 <= k <= b@.len(),
            b@.len() == end - start,
            start <= end <= cs@.len(),
            b@ == body@,
            forall|j: int| 0 <= j < k ==> cs@[start + j] == b@[j],
        decreases b@.len() - k,
    {
        if cs[start + k] != b[k] {
            assert(cs@.subrange(start as int, end as int)[k as int] != body@[k as int]);
            return false;
        }
        k += 1;
    }
    assert(cs@.subrange(start as int, end as int) =~= body@);
    true
}

pub open spec fn capture_kinds() -> Seq<RecordKind> {
    seq![RecordKind::Capture]
}

/// A list of one wanted kind.
pub fn one_kind(k: RecordKind) -> (r: Vec<RecordKind>)
    ensures
        r@ == seq![k],
{
    let mut v: Vec<RecordKind> = Vec::new();
    v.push(k);
    v
}

/// A list of two wanted kinds.
pub fn two_kinds(a: RecordKind, b: RecordKind) -> (r: Vec<RecordKind>)
    ensures
        r@ == seq![a, b],
{
    let mut v: Vec<RecordKind> = Vec::new();
    v.push(a);
    v.push(b);
    v
}

/// A list of three wanted kinds.
pub fn three_kinds(a: RecordKind, b: RecordKind, c: RecordKind) -> (r: Vec<RecordKind>)
    ensures
        r@ == seq![a, b, c],
{
    let mut v: Vec<RecordKind> = Vec::new();
    v.push(a);
    v.push(b);
    v.push(c);
    v
}

/// An anchored claim is exactly the anchored text of an existing capture, an
/// inferred claim has no anchor, and a declared capture agrees with the
/// anchor's.
pub open spec fn anchor_ok<L: Lookup>(
    lk: &L,
    mode: ClaimMode,
    anchor: Option<SourceAnchor>,
    capture_id: Option<String>,
    body: Seq<char>,
) -> bool {
    &&& (capture_id is Some ==> needed(lk, capture_id.unwrap()@, capture_kinds()) is Some)
    &&& match (mode, anchor) {
        (ClaimMode::Extracted, None) => false,
        (ClaimMode::Inferred, Some(_)) => false,
        (ClaimMode::Inferred, None) => true,
        (ClaimMode::Extracted, Some(a)) => {
            &&& (capture_id is Some ==> capture_id.unwrap()@ == a.capture_id@)
            &&& match lk.holds(a.capture_id@) {
                Some(rec) => match rec.data {
                    RecordData::Capture(c) => a.start < a.end && a.end <= c.content@.len()
                        && c.content@.subrange(a.start as int, a.end as int) == body,
                    _ => false,
                },
                None => false,
            }
        },
    }
}

/// An extracted claim anchored inside an existing capture whose anchored text
/// is not the claim.
pub open spec fn anchor_text_differs<L: Lookup>(
    lk: &L,
    mode: ClaimMode,
    anchor: Option<SourceAnchor>,
    body: Seq<char>,
) -> bool {
    mode == ClaimMode::Extracted && match anchor {
        Some(a) => match lk.holds(a.capture_id@) {
            Some(rec) => match rec.data {
                RecordData::Capture(c) => a.start < a.end && a.end <= c.content@.len()
                    && c.content@.subrange(a.start as int, a.end as int) != body,
                _ => false,
            },
            None => false,
        },
        None => false,
    }
}

/// The anchored slice must be exactly the claimed text. A paraphrase is
/// `inferred`, not `extracted`.
pub fn check_anchor<L: Lookup>(
    lk: &L,
    issues: &mut Vec<Issue>,
    path: &str,
    mode: ClaimMode,
    anchor: &Option<SourceAnchor>,
    capture_id: &Option<String>,
    body: &str,
)
    ensures
        grew(old(issues)@, final(issues)@),
        anchor_ok(lk, mode, *anchor, *capture_id, body@) ==> final(issues)@ == old(issues)@,
        !anchor_ok(lk, mode, *anchor, *capture_id, body@) ==> final(issues)@.len() > old(issues)@.len(),
        mode == ClaimMode::Extracted && anchor is None ==> added(
            old(issues)@,
            final(issues)@,
            path@ + ".source_anchor"@,
            "missing_source_anchor",
        ),
        mode == ClaimMode::Inferred && anchor is Some ==> added(
            old(issues)@,
            final(issues)@,
            path@ + ".source_anchor"@,
            "inferred_must_not_anchor",
        ),
        anchor_text_differs(lk, mode, *anchor, body@) ==> added(
            old(issues)@,
            final(issues)@,
            path@ + ".source_anchor"@,
            "source_anchor_text_mismatch",
        ),
{
    proof {
        lemma_grew_refl(old(issues)@);
    }
    if let Some(id) = capture_id {
        need(lk, issues, text::concat(path, ".capture_id").as_str(), id.as_str(), &one_kind(RecordKind::Capture));
    }
    let ghost after_capture = issues@;
    proof {
        lemma_grew_refl(after_capture);
        if capture_id is Some && needed(lk, capture_id.unwrap()@, capture_kinds()) is None {
            lemma_pushed_grew(old(issues)@, issues@, path@ + ".capture_id"@, need_code(lk, capture_id.unwrap()@));
            assert(after_capture.len() > old(issues)@.len());
        }
    }
    match (mode, anchor) {
        (ClaimMode::Extracted, None) => {
            report(
                issues,
                text::concat(path, ".source_anchor"),
                "missing_source_anchor",
                text::owned("extracted claims must anchor to a capture"),
            );
            proof {
                lemma_pushed_added(after_capture, issues@, path@ + ".source_anchor"@, "missing_source_anchor");
                lemma_added_before(old(issues)@, after_capture, issues@, path@ + ".source_anchor"@, "missing_source_anchor");
            }
        },
        (ClaimMode::Inferred, Some(_)) => {
            report(
                issues,
                text::concat(path, ".source_anchor"),
                "inferred_must_not_anchor",
                text::owned("inferred claims must not carry a source anchor"),
            );
            proof {
                lemma_pushed_added(after_capture, issues@, path@ + ".source_anchor"@, "inferred_must_not_anchor");
                lemma_added_before(old(issues)@, after_capture, issues@, path@ + ".source_anchor"@, "inferred_must_not_anchor");
            }
        },
        (ClaimMode::Inferred, None) => {},
        (ClaimMode::Extracted, Some(a)) => {
            if let Some(declared) = capture_id {
                if !text::str_eq(declared.as_str(), a.capture_id.as_str()) {
                    let mut m = declared.clone();
                    text::push_str(&mut m, " differs from anchor capture ");
                    text::push_str(&mut m, a.capture_id.as_str());
                    report(issues, text::concat(path, ".capture_id"), "source_capture_mismatch", m);
                    proof {
                        lemma_pushed_grew(after_capture, issues@, path@ + ".capture_id"@, "source_capture_mismatch");
                    }
                }
            }
            let ghost after_declared = issues@;
            proof {
                lemma_grew_refl(after_declared);
                lemma_grew_trans(old(issues)@, after_capture, after_declared);
            }
            let anchor_path = text::concat(path, ".source_anchor");
            let cap = match need(lk, issues, anchor_path.as_str(), a.capture_id.as_str(), &one_kind(RecordKind::Capture)) {
                Some(c) => c,
                None => {
                    proof {
                        lemma_pushed_grew(after_declared, issues@, anchor_path@, need_code(lk, a.capture_id@));
                        lemma_grew_trans(old(issues)@, after_declared, issues@);
                        if let Some(rec) = lk.holds(a.capture_id@) {
                            lemma_one_kind(RecordKind::Capture, rec.kind_of());
                        }
                    }
                    return;
                },
            };
            proof {
                lemma_one_kind(RecordKind::Capture, cap.kind_of());
            }
            let content = match cap.as_capture() {
                Some(c) => text::chars_of(c.content.as_str()),
                None => Vec::new(),
            };
            if a.start >= a.end || a.end > content.len() {
                let mut m = text::owned("[");
                text::push_str(&mut m, text::usize_text(a.start).as_str());
                text::push_str(&mut m, ", ");
                text::push_str(&mut m, text::usize_text(a.end).as_str());
                text::push_str(&mut m, ") is not inside a capture of ");
                text::push_str(&mut m, text::usize_text(content.len()).as_str());
                text::push_str(&mut m, " characters");
                report(issues, anchor_path, "source_anchor_out_of_range", m);
                proof {
                    lemma_pushed_grew(after_declared, issues@, path@ + ".source_anchor"@, "source_anchor_out_of_range");
                    lemma_grew_trans(old(issues)@, after_declared, issues@);
                }
                return;
            }
            if !slice_equals(&content, a.start, a.end, body) {
                report(
                    issues,
                    anchor_path,
                    "source_anchor_text_mismatch",
                    text::owned(
                        "anchored text differs from the claim; use claim_mode 'inferred' for a paraphrase",
                    ),
                );
                proof {
                    lemma_pushed_added(after_declared, issues@, path@ + ".source_anchor"@, "source_anchor_text_mismatch");
                    lemma_added_before(old(issues)@, after_declared, issues@, path@ + ".source_anchor"@, "source_anchor_text_mismatch");
                }
            }
        },
    }
}


// ---------------------------------------------------------------- revisions

/// Containment kind of the owner named by `entity`: `Project` for a project
/// record, the entity kind for an entity record.
pub open spec fn owner_kind<L: Lookup>(lk: &L, entity: Seq<char>) -> Option<NodeKind> {
    match lk.holds(entity) {
        Some(o) => match o.data {
            RecordData::Project(_) => Some(NodeKind::Project),
            RecordData::Entity(e) => Some(NodeKind::of_entity(e.entity_kind)),
            _ => None,
        },
        None => None,
    }
}

/// A slot that pins an existing revision whose kind its owner may not hold.
pub open spec fn breaks_containment<L: Lookup>(
    lk: &L,
    rec_id: Seq<char>,
    owner: NodeKind,
    s: Slot,
) -> bool {
    s.revision_id@ != rec_id && match lk.holds(s.revision_id@) {
        Some(child) => child.kind_of() == RecordKind::Revision && match graph::kind_of_revision(
            lk,
            child,
        ) {
            Some(ck) => !owner.contains(ck),
            None => false,
        },
        None => false,
    }
}

/// A correction whose numbers differ from the revision it corrects.
pub open spec fn correction_changes_numbers<L: Lookup>(lk: &L, r: RevisionData) -> bool {
    r.change_kind == ChangeKind::Correction && match r.correction_of {
        Some(p) => match lk.holds(p@) {
            Some(prev) => match prev.data {
                RecordData::Revision(pr) => pr.entity_id@ == r.entity_id@
                    && util::spec_numeric_tokens(pr.body@) != util::spec_numeric_tokens(r.body@),
                _ => false,
            },
            None => false,
        },
        None => false,
    }
}

pub proof fn lemma_two_kinds(a: RecordKind, b: RecordKind, x: RecordKind)
    ensures
        kind_listed(seq![a, b], x) <==> (x == a || x == b),
{
    if x == a {
        assert(seq![a, b][0] == x);
    }
    if x == b {
        assert(seq![a, b][1] == x);
    }
}

pub proof fn lemma_three_kinds(a: RecordKind, b: RecordKind, c: RecordKind, x: RecordKind)
    ensures
        kind_listed(seq![a, b, c], x) <==> (x == a || x == b || x == c),
{
    if x == a {
        assert(seq![a, b, c][0] == x);
    }
    if x == b {
        assert(seq![a, b, c][1] == x);
    }
    if x == c {
        assert(seq![a, b, c][2] == x);
    }
}

/// Number of revisions of `entity` among `rs` that start an entity
/// (`initial` or `semantic`).
pub open spec fn starts_of(rs: Seq<StoredRecord>, entity: Seq<char>) -> nat
    decreases rs.len(),
{
    if rs.len() == 0 {
        0
    } else {
        starts_of(rs.drop_last(), entity) + match rs.last().data {
            RecordData::Revision(v) => if v.entity_id@ == entity && (v.change_kind
                == ChangeKind::Initial || v.change_kind == ChangeKind::Semantic) {
                1nat
            } else {
                0nat
            },
            _ => 0nat,
        }
    }
}

fn count_starts(rs: &Vec<StoredRecord>, entity: &str) -> (r: usize)
    ensures
        r == starts_of(rs@, entity@),
{
    let mut n: usize = 0;
    let mut i: usize = 0;
    while i < rs.len()
        invariant
            0 <= i <= rs@.len(),
            n == starts_of(rs@.take(i as int), entity@),
            n <= i,
        decreases rs@.len() - i,
    {
        assert(rs@.take(i + 1).drop_last() == rs@.take(i as int));
        if let Some(v) = rs[i].as_revision() {
            if text::str_eq(v.entity_id.as_str(), entity) && (v.change_kind == ChangeKind::Initial
                || v.change_kind == ChangeKind::Semantic) {
                n += 1;
            }
        }
        i += 1;
    }
    assert(rs@.take(rs@.len() as int) == rs@);
    n
}

fn find_pair<'a>(pairs: &'a Vec<(String, String)>, key: &str) -> (r: Option<&'a String>)
    ensures
        r matches Some(v) ==> exists|i: int|
            0 <= i < pairs@.len() && pairs@[i].0@ == key@ && pairs@[i].1 == *v
                && forall|j: int| 0 <= j < i ==> (#[trigger] pairs@[j]).0@ != key@,
        r is None ==> forall|i: int| 0 <= i < pairs@.len() ==> (#[trigger] pairs@[i]).0@ != key@,
{
    let mut i: usize = 0;
    while i < pairs.len()
        invariant
            0 <= i <= pairs@.len(),
            forall|j: int| 0 <= j < i ==> (#[trigger] pairs@[j]).0@ != key@,
        decreases pairs@.len() - i,
    {
        if text::str_eq(pairs[i].0.as_str(), key) {
            return Some(&pairs[i].1);
        }
        i += 1;
    }
    None
}

/// A correction of a revision of the same entity whose numbers are unchanged:
/// it passes, with a warning that a person must confirm the meaning.
pub open spec fn correction_keeps_numbers<L: Lookup>(lk: &L, r: RevisionData) -> bool {
    r.change_kind == ChangeKind::Correction && match r.correction_of {
        Some(p) => match lk.holds(p@) {
            Some(prev) => match prev.data {
                RecordData::Revision(pr) => pr.entity_id@ == r.entity_id@
                    && util::spec_numeric_tokens(pr.body@) == util::spec_numeric_tokens(r.body@),
                _ => false,
            },
            None => false,
        },
        None => false,
    }
}

/// A correction whose `correction_of` names a revision of another entity.
pub open spec fn correction_crosses_entity<L: Lookup>(lk: &L, r: RevisionData) -> bool {
    r.change_kind == ChangeKind::Correction && match r.correction_of {
        Some(p) => match lk.holds(p@) {
            Some(prev) => match prev.data {
                RecordData::Revision(pr) => pr.entity_id@ != r.entity_id@,
                _ => false,
            },
            None => false,
        },
        None => false,
    }
}

/// Slot `q` raises nothing: a slug id no earlier slot uses, slug roles, and
/// a pinned revision other than this one, on record, whose kind the owner
/// may hold, and which, if a Schema, comes from the owner's own project.
pub open spec fn slot_clean(lk: &Overlay, owner_id: Seq<char>, rec_id: Seq<char>, k: NodeKind, slots: Seq<Slot>, q: int) -> bool {
    let s = slots[q];
    &&& slug_format(vstd::utf8::encode_utf8(s.slot_id@))
    &&& !slot_named_before(slots, q, s.slot_id@)
    &&& slugs_ok(s.roles@, limits::MAX_ROLES as int)
    &&& s.revision_id@ != rec_id
    &&& needed(lk, s.revision_id@, seq![RecordKind::Revision]) matches Some(child)
    &&& graph::kind_of_revision(lk, child) matches Some(ck)
    &&& k.contains(ck)
    &&& ck == NodeKind::Schema ==> graph::origin_of_revision(lk, child) == Some(owner_id)
}

/// One of the first `n` slots has id `x`.
pub open spec fn slot_named_before(slots: Seq<Slot>, n: int, x: Seq<char>) -> bool {
    exists|t: int| 0 <= t < n && (#[trigger] slots[t]).slot_id@ == x
}

proof fn lemma_slot_prefix(lk: &Overlay, owner_id: Seq<char>, rec_id: Seq<char>, k: NodeKind, slots: Seq<Slot>, i: int)
    requires
        0 <= i,
    ensures
        (forall|q: int| 0 <= q < i + 1 ==> #[trigger] slot_clean(lk, owner_id, rec_id, k, slots, q)) <==> ((forall|q: int|
            0 <= q < i ==> #[trigger] slot_clean(lk, owner_id, rec_id, k, slots, q)) && slot_clean(
            lk,
            owner_id,
            rec_id,
            k,
            slots,
            i,
        )),
{
}

proof fn lemma_seen_slot(before: Seq<String>, after: Seq<String>, slots: Seq<Slot>, i: int)
    requires
        0 <= i < slots.len(),
        forall|x: Seq<char>| #[trigger] lists(before, x) == slot_named_before(slots, i, x),
        after == before || (after.len() > 0 && after == before.push(after.last()) && after.last()@ == slots[i].slot_id@),
        after == before ==> lists(before, slots[i].slot_id@),
    ensures
        forall|x: Seq<char>| #[trigger] lists(after, x) == slot_named_before(slots, i + 1, x),
{
    assert forall|x: Seq<char>| #[trigger] lists(after, x) == slot_named_before(slots, i + 1, x) by {
        if slot_named_before(slots, i + 1, x) && !slot_named_before(slots, i, x) {
            assert(slots[i].slot_id@ == x);
            if after != before {
                assert(after[after.len() - 1]@ == x);
            }
        }
        if slot_named_before(slots, i, x) {
            let t = choose|t: int| 0 <= t < i && (#[trigger] slots[t]).slot_id@ == x;
            assert(slots[t].slot_id@ == x);
            assert(slot_named_before(slots, i + 1, x));
            assert(lists(before, x));
            let m = choose|m: int| 0 <= m < before.len() && (#[trigger] before[m])@ == x;
            if after != before {
                assert(after[m] == before[m]);
            }
        }
        if lists(after, x) && !lists(before, x) {
            let m = choose|m: int| 0 <= m < after.len() && (#[trigger] after[m])@ == x;
            if m < before.len() {
                assert(after[m] == before[m]);
            }
            assert(slots[i].slot_id@ == x);
        }
    }
}

/// The change kind and its predecessor raise nothing.
pub open spec fn change_clean(lk: &Overlay, ctx: &Context, r: RevisionData, k: NodeKind, owner: StoredRecord) -> bool {
    match r.change_kind {
        ChangeKind::Initial => ctx.revisions_of(r.entity_id@).len() == 0 && r.correction_of is None
            && r.previous_revision_id is None,
        ChangeKind::Composition => k != NodeKind::Idea && r.correction_of is None && match r.previous_revision_id {
            Some(p) => needed(lk, p@, seq![RecordKind::Revision]) matches Some(prev) && (prev.data matches RecordData::Revision(
                pr,
            ) && pr.entity_id@ == r.entity_id@),
            None => ctx.revisions_of(r.entity_id@).len() > 0,
        },
        ChangeKind::Correction => {
            &&& r.previous_revision_id is None
            &&& r.correction_of matches Some(p)
            &&& r.correction_reason matches Some(rs) && !text::spec_is_blank(rs@) && 1 <= rs@.len() <= 500
            &&& needed(lk, p@, seq![RecordKind::Revision]) matches Some(prev)
            &&& prev.data matches RecordData::Revision(pr) ==> pr.entity_id@ == r.entity_id@
                && util::spec_numeric_tokens(pr.body@) == util::spec_numeric_tokens(r.body@)
        },
        ChangeKind::Semantic => {
            &&& graph::first_with_id(lk.added@, r.entity_id@) is Some
            &&& owner.data matches RecordData::Entity(e) && e.derived_from@.len() > 0
            &&& r.correction_of is None
            &&& r.previous_revision_id is None
        },
    }
}

/// A revision raises nothing: a body of 1..=MAX_BODY_CHARS characters, slug
/// tags, an owner on record, and, where the owner is a project or entity, at
/// most MAX_SLOTS clean slots, one start of the entity in the batch, a clean
/// change kind, attribution of an ai origin, and a matching source anchor.
pub open spec fn revision_clean(lk: &Overlay, ctx: &Context, rec_id: Seq<char>, r: RevisionData) -> bool {
    &&& 1 <= r.body@.len() <= limits::MAX_BODY_CHARS
    &&& slugs_ok(r.tags@, limits::MAX_TAGS as int)
    &&& needed(lk, r.entity_id@, seq![RecordKind::Entity, RecordKind::Project]) matches Some(owner)
    &&& owner_kind(lk, r.entity_id@) matches Some(k) ==> {
        &&& r.slots@.len() <= limits::MAX_SLOTS
        &&& forall|q: int| 0 <= q < r.slots@.len() ==> #[trigger] slot_clean(lk, owner.id@, rec_id, k, r.slots@, q)
        &&& starts_of(lk.added@, r.entity_id@) <= 1
        &&& change_clean(lk, ctx, r, k, owner)
        &&& !(r.source.origin == Origin::Ai && blank_or_absent(r.source.model) && blank_or_absent(r.source.skill))
        &&& anchor_ok(lk, r.source.claim_mode, r.source.source_anchor, r.source.capture_id, r.body@)
    }
}

/// The path of slot `i`'s revision reference.
pub open spec fn slot_ref_path(d: Seq<char>, i: int) -> Seq<char> {
    indexed(d + ".slots"@, i) + ".revision_id"@
}

/// The code a containment refusal carries: an Idea is an atom.
pub open spec fn containment_code(k: NodeKind) -> &'static str {
    if k == NodeKind::Idea {
        "atom_cannot_contain"
    } else {
        "invalid_containment"
    }
}

/// A slot that may hold its Schema by kind but pins a Schema of another
/// project than the owner `owner_id`.
pub open spec fn schema_crossing<L: Lookup>(
    lk: &L,
    owner_id: Seq<char>,
    rec_id: Seq<char>,
    owner: NodeKind,
    s: Slot,
) -> bool {
    s.revision_id@ != rec_id && match lk.holds(s.revision_id@) {
        Some(child) => {
            &&& child.kind_of() == RecordKind::Revision
            &&& graph::kind_of_revision(lk, child) == Some(NodeKind::Schema)
            &&& owner.contains(NodeKind::Schema)
            &&& graph::origin_of_revision(lk, child) != Some(owner_id)
        },
        None => false,
    }
}

/// Revision rules: body and tags, owner, slots and containment, change kind
/// and predecessor, source attribution and anchor.
#[verifier::rlimit(100)]
#[verifier::spinoff_prover]
pub fn validate_revision(
    rec: &StoredRecord,
    r: &RevisionData,
    d: &str,
    lk: &Overlay,
    ctx: &Context,
    issues: &mut Vec<Issue>,
    plan: &mut Plan,
)
    ensures
        final(issues)@.len() >= old(issues)@.len(),
        final(plan).records@ == old(plan).records@,
        final(plan).head_records@ == old(plan).head_records@,
        final(plan).head_updates@ == old(plan).head_updates@,
        final(plan).publication_id == old(plan).publication_id,
        final(plan).warnings@.len() >= old(plan).warnings@.len(),
        owner_kind(lk, r.entity_id@) is Some && correction_keeps_numbers(lk, *r) ==> exists|k: int|
            old(plan).warnings@.len() <= k < final(plan).warnings@.len() && (#[trigger] final(plan).warnings@[k]).is(
                d@ + ".body"@,
                "correction_needs_human_review",
            ),
        owner_kind(lk, r.entity_id@) is None ==> final(issues)@.len() > old(issues)@.len(),
        (exists|i: int| 0 <= i < r.slots@.len() && (#[trigger] r.slots@[i]).revision_id@ == rec.id@)
            ==> final(issues)@.len() > old(issues)@.len(),
        (owner_kind(lk, r.entity_id@) matches Some(k) && exists|i: int|
            0 <= i < r.slots@.len() && breaks_containment(lk, rec.id@, k, #[trigger] r.slots@[i]))
            ==> final(issues)@.len() > old(issues)@.len(),
        (owner_kind(lk, r.entity_id@) is Some && correction_changes_numbers(lk, *r))
            ==> final(issues)@.len() > old(issues)@.len(),
        (owner_kind(lk, r.entity_id@) is Some && r.change_kind == ChangeKind::Initial
            && ctx.revisions_of(r.entity_id@).len() > 0) ==> final(issues)@.len() > old(issues)@.len(),
        (owner_kind(lk, r.entity_id@) is Some && starts_of(lk.added@, r.entity_id@) > 1)
            ==> final(issues)@.len() > old(issues)@.len(),
        forall|i: int|
            0 <= i < r.slots@.len() && (owner_kind(lk, r.entity_id@) matches Some(k) && breaks_containment(
                lk,
                rec.id@,
                k,
                #[trigger] r.slots@[i],
            )) ==> has_new(
                final(issues)@,
                old(issues)@.len() as int,
                slot_ref_path(d@, i),
                containment_code(owner_kind(lk, r.entity_id@).unwrap()),
            ),
        forall|i: int|
            0 <= i < r.slots@.len() && (owner_kind(lk, r.entity_id@) matches Some(k) && schema_crossing(
                lk,
                lk.holds(r.entity_id@).unwrap().id@,
                rec.id@,
                k,
                #[trigger] r.slots@[i],
            )) ==> has_new(
                final(issues)@,
                old(issues)@.len() as int,
                slot_ref_path(d@, i),
                "schema_cross_project_composition",
            ),
        owner_kind(lk, r.entity_id@) is Some && starts_of(lk.added@, r.entity_id@) > 1 ==> has_new(
            final(issues)@,
            old(issues)@.len() as int,
            d@ + ".change_kind"@,
            "initial_already_exists",
        ),
        owner_kind(lk, r.entity_id@) is Some && r.change_kind == ChangeKind::Initial && ctx.revisions_of(
            r.entity_id@,
        ).len() > 0 ==> has_new(final(issues)@, old(issues)@.len() as int, d@ + ".change_kind"@, "initial_already_exists"),
        owner_kind(lk, r.entity_id@) is Some && r.change_kind == ChangeKind::Correction && r.correction_of is None
            ==> has_new(final(issues)@, old(issues)@.len() as int, d@ + ".correction_of"@, "correction_requires_reason"),
        owner_kind(lk, r.entity_id@) is Some && r.change_kind == ChangeKind::Correction && r.correction_of is Some && (
        match r.correction_reason {
            Some(reason) => text::spec_is_blank(reason@),
            None => true,
        }) ==> has_new(final(issues)@, old(issues)@.len() as int, d@ + ".correction_reason"@, "correction_requires_reason"),
        owner_kind(lk, r.entity_id@) is Some && correction_crosses_entity(lk, *r) ==> has_new(
            final(issues)@,
            old(issues)@.len() as int,
            d@ + ".correction_of"@,
            "correction_entity_mismatch",
        ),
        owner_kind(lk, r.entity_id@) is Some && correction_changes_numbers(lk, *r) ==> has_new(
            final(issues)@,
            old(issues)@.len() as int,
            d@ + ".body"@,
            "semantic_edit_required",
        ),
        final(issues)@.len() == old(issues)@.len() <==> revision_clean(lk, ctx, rec.id@, *r),
{
    let ghost base = old(issues)@.len() as int;
    check_text(issues, text::concat(d, ".body").as_str(), r.body.as_str(), 1, limits::MAX_BODY_CHARS);
    check_slugs(issues, text::concat(d, ".tags").as_str(), &r.tags, limits::MAX_TAGS);
    let ghost start = issues@;
    let ghost c0 = 1 <= r.body@.len() <= limits::MAX_BODY_CHARS && slugs_ok(r.tags@, limits::MAX_TAGS as int);
    assert(start.len() == base <==> c0);
    assert(start.len() >= base);
    let owner = match need(
        lk,
        issues,
        text::concat(d, ".entity_id").as_str(),
        r.entity_id.as_str(),
        &two_kinds(RecordKind::Entity, RecordKind::Project),
    ) {
        Some(o) => o,
        None => {
            proof {
                if let Some(o) = lk.holds(r.entity_id@) {
                    lemma_two_kinds(RecordKind::Entity, RecordKind::Project, o.kind_of());
                }
            }
            return;
        },
    };
    proof {
        lemma_two_kinds(RecordKind::Entity, RecordKind::Project, owner.kind_of());
    }
    let kind = match &owner.data {
        RecordData::Project(_) => NodeKind::Project,
        RecordData::Entity(e) => NodeKind::from_entity(e.entity_kind),
        _ => return,
    };
    assert(owner_kind(lk, r.entity_id@) == Some(kind));

    // --- slots ---
    if r.slots.len() > limits::MAX_SLOTS {
        let mut m = text::usize_text(r.slots.len());
        text::push_str(&mut m, " slots exceeds ");
        text::push_str(&mut m, text::usize_text(limits::MAX_SLOTS).as_str());
        report(issues, text::concat(d, ".slots"), "limit_exceeded", m);
    }
    let ghost before_slots = issues@;
    let mut seen_slots: Vec<String> = Vec::new();
    let mut i: usize = 0;
    while i < r.slots.len()
        invariant
            0 <= i <= r.slots@.len(),
            issues@.len() >= before_slots.len(),
            owner_kind(lk, r.entity_id@) == Some(kind),
            (exists|j: int| 0 <= j < i && (#[trigger] r.slots@[j]).revision_id@ == rec.id@)
                ==> issues@.len() > before_slots.len(),
            (exists|j: int| 0 <= j < i && breaks_containment(lk, rec.id@, kind, #[trigger] r.slots@[j]))
                ==> issues@.len() > before_slots.len(),
            base == old(issues)@.len(),
            before_slots.len() >= base,
            issues@.len() >= base,
            lk.holds(r.entity_id@) == Some(*owner),
            forall|x: Seq<char>| #[trigger] lists(seen_slots@, x) == slot_named_before(r.slots@, i as int, x),
            issues@.len() == base <==> (c0 && r.slots@.len() <= limits::MAX_SLOTS && forall|q: int|
                0 <= q < i ==> #[trigger] slot_clean(lk, owner.id@, rec.id@, kind, r.slots@, q)),
            forall|j: int|
                0 <= j < i && breaks_containment(lk, rec.id@, kind, #[trigger] r.slots@[j]) ==> has_new(
                    issues@,
                    base,
                    slot_ref_path(d@, j),
                    containment_code(kind),
                ),
            forall|j: int|
                0 <= j < i && schema_crossing(lk, owner.id@, rec.id@, kind, #[trigger] r.slots@[j]) ==> has_new(
                    issues@,
                    base,
                    slot_ref_path(d@, j),
                    "schema_cross_project_composition",
                ),
        decreases r.slots@.len() - i,
    {
        let ghost at_start = issues@;
        let ghost before_seen = seen_slots@;
        let slot = &r.slots[i];
        assert(lists(seen_slots@, slot.slot_id@) == slot_named_before(r.slots@, i as int, slot.slot_id@));
        let sp = index_path(text::concat(d, ".slots").as_str(), i);
        if !is_valid_slug(slot.slot_id.as_str()) {
            let mut m = text::owned("'");
            text::push_str(&mut m, slot.slot_id.as_str());
            text::push_str(&mut m, "' is not a valid slug");
            report(issues, text::concat(sp.as_str(), ".slot_id"), "invalid_field", m);
        }
        if text::contains_str(&seen_slots, slot.slot_id.as_str()) {
            let mut m = text::owned("slot '");
            text::push_str(&mut m, slot.slot_id.as_str());
            text::push_str(&mut m, "' appears twice");
            report(issues, text::concat(sp.as_str(), ".slot_id"), "duplicate_slot_id", m);
        } else {
            seen_slots.push(slot.slot_id.clone());
        }
        check_slugs(issues, text::concat(sp.as_str(), ".roles").as_str(), &slot.roles, limits::MAX_ROLES);
        if text::str_eq(slot.revision_id.as_str(), rec.id.as_str()) {
            report(
                issues,
                text::concat(sp.as_str(), ".revision_id"),
                "self_reference",
                text::owned("a revision cannot contain itself"),
            );
            proof {
                assert(issues@.take(at_start.len() as int) =~= at_start);
                lemma_keeps(at_start, issues@);
                assert(!breaks_containment(lk, rec.id@, kind, r.slots@[i as int]));
                assert(!schema_crossing(lk, owner.id@, rec.id@, kind, r.slots@[i as int]));
                lemma_seen_slot(before_seen, seen_slots@, r.slots@, i as int);
                lemma_slot_prefix(lk, owner.id@, rec.id@, kind, r.slots@, i as int);
                assert(slot_clean(lk, owner.id@, rec.id@, kind, r.slots@, i as int) <==> issues@.len() == at_start.len());
            }
            i += 1;
            continue;
        }
        let child = match need(
            lk,
            issues,
            text::concat(sp.as_str(), ".revision_id").as_str(),
            slot.revision_id.as_str(),
            &one_kind(RecordKind::Revision),
        ) {
            Some(c) => c,
            None => {
                proof {
                    if let Some(c) = lk.holds(slot.revision_id@) {
                        lemma_one_kind(RecordKind::Revision, c.kind_of());
                    }
                    assert(issues@.take(at_start.len() as int) =~= at_start);
                    lemma_keeps(at_start, issues@);
                    lemma_seen_slot(before_seen, seen_slots@, r.slots@, i as int);
                    lemma_slot_prefix(lk, owner.id@, rec.id@, kind, r.slots@, i as int);
                    assert(slot_clean(lk, owner.id@, rec.id@, kind, r.slots@, i as int) <==> issues@.len() == at_start.len());
                }
                i += 1;
                continue;
            },
        };
        proof {
            lemma_one_kind(RecordKind::Revision, child.kind_of());
        }
        let ghost before_kind = issues@;
        let child_kind = match graph::node_kind(lk, child) {
            Some(k) => k,
            None => {
                let mut m = text::owned("owner of revision ");
                text::push_str(&mut m, child.id.as_str());
                text::push_str(&mut m, " not found");
                report(issues, text::concat(sp.as_str(), ".revision_id"), "unknown_reference", m);
                proof {
                    assert(issues@.take(at_start.len() as int) =~= at_start);
                    lemma_keeps(at_start, issues@);
                    lemma_seen_slot(before_seen, seen_slots@, r.slots@, i as int);
                    lemma_slot_prefix(lk, owner.id@, rec.id@, kind, r.slots@, i as int);
                    assert(slot_clean(lk, owner.id@, rec.id@, kind, r.slots@, i as int) <==> issues@.len() == at_start.len());
                }
                i += 1;
                continue;
            },
        };
        if !kind.may_contain(child_kind) {
            let code = if kind == NodeKind::Idea {
                "atom_cannot_contain"
            } else {
                "invalid_containment"
            };
            let mut m = text::owned("a '");
            text::push_str(&mut m, kind.as_str());
            text::push_str(&mut m, "' revision may not contain a '");
            text::push_str(&mut m, child_kind.as_str());
            text::push_str(&mut m, "' revision");
            report(issues, text::concat(sp.as_str(), ".revision_id"), code, m);
            proof {
                assert(issues@.take(at_start.len() as int) =~= at_start);
                lemma_keeps(at_start, issues@);
                reveal(has_new);
                assert(issues@[issues@.len() - 1].is(slot_ref_path(d@, i as int), containment_code(kind)));
                assert(!schema_crossing(lk, owner.id@, rec.id@, kind, r.slots@[i as int]));
                lemma_seen_slot(before_seen, seen_slots@, r.slots@, i as int);
                lemma_slot_prefix(lk, owner.id@, rec.id@, kind, r.slots@, i as int);
                assert(slot_clean(lk, owner.id@, rec.id@, kind, r.slots@, i as int) <==> issues@.len() == at_start.len());
            }
            i += 1;
            continue;
        }
        // A Schema stays inside its origin project; Core/Idea may be reused
        // across projects by the same trusted owner.
        if child_kind == NodeKind::Schema {
            let child_origin = graph::origin_project(lk, child);
            let same = match &child_origin {
                Some(o) => text::str_eq(o.as_str(), owner.id.as_str()),
                None => false,
            };
            if !same {
                let mut m = text::owned("schema revision ");
                text::push_str(&mut m, child.id.as_str());
                text::push_str(&mut m, " belongs to project ");
                match &child_origin {
                    Some(o) => text::push_str(&mut m, o.as_str()),
                    None => text::push_str(&mut m, "(none)"),
                }
                text::push_str(&mut m, " and cannot be composed under project ");
                text::push_str(&mut m, owner.id.as_str());
                report(
                    issues,
                    text::concat(sp.as_str(), ".revision_id"),
                    "schema_cross_project_composition",
                    m,
                );
                proof {
                    reveal(has_new);
                    assert(issues@[issues@.len() - 1].is(
                        slot_ref_path(d@, i as int),
                        "schema_cross_project_composition",
                    ));
                }
            }
        }
        assert(!breaks_containment(lk, rec.id@, kind, r.slots@[i as int]));
        proof {
            assert(issues@.take(at_start.len() as int) =~= at_start);
            lemma_keeps(at_start, issues@);
            lemma_seen_slot(before_seen, seen_slots@, r.slots@, i as int);
            lemma_slot_prefix(lk, owner.id@, rec.id@, kind, r.slots@, i as int);
            assert(slot_clean(lk, owner.id@, rec.id@, kind, r.slots@, i as int) <==> issues@.len() == at_start.len());
        }
        i += 1;
    }
    let ghost after_slots = issues@;
    let ghost c_slots = c0 && r.slots@.len() <= limits::MAX_SLOTS && forall|q: int|
        0 <= q < r.slots@.len() ==> #[trigger] slot_clean(lk, owner.id@, rec.id@, kind, r.slots@, q);
    assert(after_slots.len() == base <==> c_slots);

    // --- change kind ---
    let existing = ctx.existing_revisions(r.entity_id.as_str());
    let starts_in_batch = count_starts(lk.added, r.entity_id.as_str());
    if starts_in_batch > 1 {
        report(
            issues,
            text::concat(d, ".change_kind"),
            "initial_already_exists",
            text::owned("an entity can have only one first revision, including within a batch"),
        );
        proof {
            reveal(has_new);
            assert(issues@[issues@.len() - 1].is(d@ + ".change_kind"@, "initial_already_exists"));
            assert(has_new(issues@, base, d@ + ".change_kind"@, "initial_already_exists"));
        }
    }
    match r.change_kind {
        ChangeKind::Initial => {
            if existing.len() > 0 {
                let mut m = text::owned("entity ");
                text::push_str(&mut m, r.entity_id.as_str());
                text::push_str(&mut m, " already has ");
                text::push_str(&mut m, text::usize_text(existing.len()).as_str());
                text::push_str(&mut m, " revision(s)");
                report(issues, text::concat(d, ".change_kind"), "initial_already_exists", m);
                proof {
                    reveal(has_new);
                    assert(issues@[issues@.len() - 1].is(d@ + ".change_kind"@, "initial_already_exists"));
                    assert(has_new(issues@, base, d@ + ".change_kind"@, "initial_already_exists"));
                }
            }
            if r.correction_of.is_some() || r.previous_revision_id.is_some() {
                report(
                    issues,
                    text::concat(d, ".correction_of"),
                    "invalid_field",
                    text::owned("an initial revision has no predecessor"),
                );
            }
        },
        ChangeKind::Composition => {
            if kind == NodeKind::Idea {
                report(
                    issues,
                    text::concat(d, ".change_kind"),
                    "composition_not_allowed_on_idea",
                    text::owned("an idea has no composition; use 'correction' or a new derived entity"),
                );
            }
            if r.correction_of.is_some() {
                report(
                    issues,
                    text::concat(d, ".correction_of"),
                    "invalid_field",
                    text::owned("correction_of applies to change_kind 'correction' only"),
                );
            }
            match &r.previous_revision_id {
                Some(prev_id) => {
                    if let Some(prev) = need(
                        lk,
                        issues,
                        text::concat(d, ".previous_revision_id").as_str(),
                        prev_id.as_str(),
                        &one_kind(RecordKind::Revision),
                    ) {
                        let same_entity = match prev.as_revision() {
                            Some(p) => text::str_eq(p.entity_id.as_str(), r.entity_id.as_str()),
                            None => false,
                        };
                        if !same_entity {
                            let mut m = prev_id.clone();
                            text::push_str(&mut m, " is a revision of a different entity");
                            report(
                                issues,
                                text::concat(d, ".previous_revision_id"),
                                "previous_revision_mismatch",
                                m,
                            );
                        }
                    }
                },
                None => {
                    // A composition that names no predecessor was given the
                    // latest one when it was staged; none exists here.
                    if existing.len() == 0 {
                        let mut m = text::owned("entity ");
                        text::push_str(&mut m, r.entity_id.as_str());
                        text::push_str(&mut m, " has no previous revision; use change_kind 'initial'");
                        report(
                            issues,
                            text::concat(d, ".previous_revision_id"),
                            "previous_revision_mismatch",
                            m,
                        );
                    }
                },
            }
        },
        ChangeKind::Correction => {
            if r.previous_revision_id.is_some() {
                report(
                    issues,
                    text::concat(d, ".previous_revision_id"),
                    "invalid_field",
                    text::owned("a correction uses correction_of only"),
                );
            }
            let prev_id = match &r.correction_of {
                Some(p) => p,
                None => {
                    report(
                        issues,
                        text::concat(d, ".correction_of"),
                        "correction_requires_reason",
                        text::owned("a correction must name the exact revision it corrects"),
                    );
                    proof {
                        reveal(has_new);
                        assert(issues@[issues@.len() - 1].is(d@ + ".correction_of"@, "correction_requires_reason"));
                        assert(has_new(issues@, base, d@ + ".correction_of"@, "correction_requires_reason"));
                        assert(issues@.take(after_slots.len() as int) =~= after_slots);
                        lemma_keeps(after_slots, issues@);
                    }
                    return;
                },
            };
            match &r.correction_reason {
                Some(reason) => {
                    if text::is_blank(reason.as_str()) {
                        report(
                            issues,
                            text::concat(d, ".correction_reason"),
                            "correction_requires_reason",
                            text::owned("a correction must carry an explicit reason"),
                        );
                        proof {
                            reveal(has_new);
                            assert(issues@[issues@.len() - 1].is(d@ + ".correction_reason"@, "correction_requires_reason"));
                            assert(has_new(issues@, base, d@ + ".correction_reason"@, "correction_requires_reason"));
                        }
                    } else {
                        check_text(
                            issues,
                            text::concat(d, ".correction_reason").as_str(),
                            reason.as_str(),
                            1,
                            500,
                        );
                    }
                },
                None => {
                    report(
                        issues,
                        text::concat(d, ".correction_reason"),
                        "correction_requires_reason",
                        text::owned("a correction must carry an explicit reason"),
                    );
                    proof {
                        reveal(has_new);
                        assert(issues@[issues@.len() - 1].is(d@ + ".correction_reason"@, "correction_requires_reason"));
                        assert(has_new(issues@, base, d@ + ".correction_reason"@, "correction_requires_reason"));
                    }
                },
            }
            let ghost before_prev = issues@;
            if let Some(prev) = need(
                lk,
                issues,
                text::concat(d, ".correction_of").as_str(),
                prev_id.as_str(),
                &one_kind(RecordKind::Revision),
            ) {
                proof {
                    lemma_one_kind(RecordKind::Revision, prev.kind_of());
                }
                if let Some(prev_rev) = prev.as_revision() {
                    if !text::str_eq(prev_rev.entity_id.as_str(), r.entity_id.as_str()) {
                        report(
                            issues,
                            text::concat(d, ".correction_of"),
                            "correction_entity_mismatch",
                            text::owned("a correction stays inside the same entity"),
                        );
                        proof {
                            reveal(has_new);
                            assert(issues@[issues@.len() - 1].is(d@ + ".correction_of"@, "correction_entity_mismatch"));
                            assert(has_new(issues@, base, d@ + ".correction_of"@, "correction_entity_mismatch"));
                        }
                    } else {
                        let before_tokens = util::numeric_tokens(prev_rev.body.as_str());
                        let after_tokens = util::numeric_tokens(r.body.as_str());
                        if !util::same_tokens(&before_tokens, &after_tokens) {
                            report(
                                issues,
                                text::concat(d, ".body"),
                                "semantic_edit_required",
                                text::owned(
                                    "the numbers changed, so this is a semantic edit: create a new derived entity",
                                ),
                            );
                            proof {
                                reveal(has_new);
                                assert(issues@[issues@.len() - 1].is(d@ + ".body"@, "semantic_edit_required"));
                                assert(has_new(issues@, base, d@ + ".body"@, "semantic_edit_required"));
                            }
                        } else {
                            let ghost w0 = plan.warnings@.len();
                            plan.warnings.push(
                                Issue::new(
                                    text::concat(d, ".body"),
                                    "correction_needs_human_review",
                                    text::owned(
                                        "the numeric guard passed; it does not prove the meaning is unchanged",
                                    ),
                                ),
                            );
                            assert(plan.warnings@[w0 as int].is(d@ + ".body"@, "correction_needs_human_review"));
                        }
                    }
                }
            } else {
                proof {
                    if let Some(p) = lk.holds(prev_id@) {
                        lemma_one_kind(RecordKind::Revision, p.kind_of());
                    }
                }
            }
        },
        ChangeKind::Semantic => {
            let created_here = graph::find_record(lk.added, r.entity_id.as_str()).is_some();
            let lineage_ok = match owner.as_entity() {
                Some(e) => e.derived_from.len() > 0,
                None => false,
            };
            if !created_here || !lineage_ok {
                report(
                    issues,
                    text::concat(d, ".change_kind"),
                    "semantic_requires_new_entity",
                    text::owned(
                        "a semantic edit creates a new entity in this package with derived_from set",
                    ),
                );
            }
            if r.correction_of.is_some() || r.previous_revision_id.is_some() {
                report(
                    issues,
                    text::concat(d, ".correction_of"),
                    "invalid_field",
                    text::owned("a semantic revision starts a new entity and has no predecessor"),
                );
            }
        },
    }

    let ghost before_source = issues@;
    assert(before_source.len() >= after_slots.len());
    assert(before_source.len() == base <==> (c_slots && starts_of(lk.added@, r.entity_id@) <= 1 && change_clean(
        lk,
        ctx,
        *r,
        kind,
        *owner,
    )));
    check_origin_attribution(
        issues,
        text::concat(d, ".source").as_str(),
        r.source.origin,
        &r.source.model,
        &r.source.skill,
    );
    check_anchor(
        lk,
        issues,
        text::concat(d, ".source").as_str(),
        r.source.claim_mode,
        &r.source.source_anchor,
        &r.source.capture_id,
        r.body.as_str(),
    );
    proof {
        assert(issues@.take(after_slots.len() as int) =~= after_slots);
        lemma_keeps(after_slots, issues@);
        assert(issues@.take(before_source.len() as int) =~= before_source);
        lemma_keeps(before_source, issues@);
    }
}


// ---------------------------------------------------------------- scopes and goals

/// What a scope's path must do: resolve under its root to its target.
pub open spec fn scope_ok<L: Lookup>(lk: &L, scope: Scope) -> bool {
    scope.slot_path@.len() <= graph::MAX_DEPTH && match graph::resolved(
        lk,
        scope.root_revision_id@,
        views(scope.slot_path@),
    ) {
        Ok(found) => found.id@ == scope.target_revision_id@,
        Err(_) => false,
    }
}

/// A scope whose path resolves, but to another revision than its target.
pub open spec fn scope_misses_target<L: Lookup>(lk: &L, scope: Scope) -> bool {
    scope.slot_path@.len() <= graph::MAX_DEPTH && match graph::resolved(
        lk,
        scope.root_revision_id@,
        views(scope.slot_path@),
    ) {
        Ok(found) => found.id@ != scope.target_revision_id@,
        Err(_) => false,
    }
}

/// A scope's slot path must resolve from its root to exactly its target.
pub fn check_scope<L: Lookup>(
    lk: &L,
    issues: &mut Vec<Issue>,
    path: &str,
    scope: &Scope,
    mismatch_code: &'static str,
)
    ensures
        scope_ok(lk, *scope) ==> final(issues)@ == old(issues)@,
        !scope_ok(lk, *scope) ==> final(issues)@.len() == old(issues)@.len() + 1,
        grew(old(issues)@, final(issues)@),
        keeps(old(issues)@, final(issues)@),
        scope_misses_target(lk, *scope) ==> pushed(
            old(issues)@,
            final(issues)@,
            path@ + ".target_revision_id"@,
            mismatch_code,
        ),
{
    if scope.slot_path.len() > graph::MAX_DEPTH {
        report(
            issues,
            text::concat(path, ".slot_path"),
            "limit_exceeded",
            text::owned("slot path deeper than 32"),
        );
        proof {
            lemma_pushed_grew(old(issues)@, issues@, path@ + ".slot_path"@, "limit_exceeded");
                    lemma_keeps(old(issues)@, issues@);
        }
        return;
    }
    match graph::resolve_path(lk, scope.root_revision_id.as_str(), &scope.slot_path) {
        Ok(found) => {
            if !text::str_eq(found.id.as_str(), scope.target_revision_id.as_str()) {
                let mut m = text::owned("path ");
                text::push_str(&mut m, graph::render_path(&scope.slot_path).as_str());
                text::push_str(&mut m, " under ");
                text::push_str(&mut m, scope.root_revision_id.as_str());
                text::push_str(&mut m, " resolves to ");
                text::push_str(&mut m, found.id.as_str());
                text::push_str(&mut m, ", not ");
                text::push_str(&mut m, scope.target_revision_id.as_str());
                report(issues, text::concat(path, ".target_revision_id"), mismatch_code, m);
                proof {
                    lemma_pushed_grew(old(issues)@, issues@, path@ + ".target_revision_id"@, mismatch_code);
                    lemma_keeps(old(issues)@, issues@);
                }
            } else {
                proof {
                    lemma_keeps_refl(issues@);
                }
            }
        },
        Err(e) => {
            let code = match e {
                PathError::RootMissing | PathError::RootNotRevision => "unknown_reference",
                _ => "slot_path_not_found",
            };
            report(issues, text::concat(path, ".slot_path"), code, e.message());
            proof {
                lemma_pushed_grew(old(issues)@, issues@, path@ + ".slot_path"@, code);
                    lemma_keeps(old(issues)@, issues@);
            }
        },
    }
}

fn contains_id(ids: &Vec<String>, id: &str) -> (r: bool)
    ensures
        r == exists|i: int| 0 <= i < ids@.len() && (#[trigger] ids@[i])@ == id@,
{
    text::contains_str(ids, id)
}

/// A goal's criteria: 1..=32 of them, unique slug ids, statements, and the
/// fields each kind needs or forbids.
/// Criterion `q` raises nothing: a slug id no earlier criterion uses, a
/// statement of 1..=1000 characters, and metric, comparator and threshold all
/// set on a quantitative criterion and all absent on a qualitative one.
pub open spec fn criterion_fine(cs: Seq<Criterion>, q: int) -> bool {
    let c = cs[q];
    &&& slug_format(vstd::utf8::encode_utf8(c.criterion_id@))
    &&& forall|t: int| 0 <= t < q ==> (#[trigger] cs[t]).criterion_id@ != c.criterion_id@
    &&& 1 <= c.statement@.len() <= 1000
    &&& match c.kind {
        CriterionKind::Quantitative => c.metric is Some && c.comparator is Some && c.threshold is Some,
        CriterionKind::Qualitative => c.metric is None && c.comparator is None && c.threshold is None,
    }
}

/// A goal's criteria raise nothing.
pub open spec fn criteria_fine(cs: Seq<Criterion>) -> bool {
    &&& 1 <= cs.len() <= 32
    &&& forall|q: int| 0 <= q < cs.len() ==> #[trigger] criterion_fine(cs, q)
}

pub fn check_criteria(issues: &mut Vec<Issue>, path: &str, criteria: &Vec<Criterion>)
    ensures
        final(issues)@.len() == old(issues)@.len() <==> criteria_fine(criteria@),
        grew(old(issues)@, final(issues)@),
        final(issues)@.len() >= old(issues)@.len(),
        (criteria@.len() == 0 || criteria@.len() > 32) ==> final(issues)@.len() > old(issues)@.len(),
        (exists|i: int|
            0 <= i < criteria@.len() && (#[trigger] criteria@[i]).kind == CriterionKind::Quantitative
                && (criteria@[i].metric is None || criteria@[i].comparator is None
                || criteria@[i].threshold is None)) ==> final(issues)@.len() > old(issues)@.len(),
{
    proof {
        lemma_grew_refl(issues@);
    }
    let ghost base = old(issues)@.len();
    if criteria.len() == 0 || criteria.len() > 32 {
        report(issues, text::owned(path), "invalid_field", text::owned("a goal needs 1..32 criteria"));
    }
    let ghost start = issues@;
    let mut ids: Vec<String> = Vec::new();
    let mut i: usize = 0;
    while i < criteria.len()
        invariant
            0 <= i <= criteria@.len(),
            issues@.len() >= start.len(),
            grew(old(issues)@, issues@),
            start.len() == base <==> 1 <= criteria@.len() <= 32,
            start.len() >= base,
            forall|x: Seq<char>| #[trigger] lists(ids@, x) == exists|t: int| 0 <= t < i && (#[trigger] criteria@[t]).criterion_id@ == x,
            issues@.len() == base <==> (start.len() == base && forall|q: int| 0 <= q < i ==> #[trigger] criterion_fine(criteria@, q)),
            (exists|j: int|
                0 <= j < i && (#[trigger] criteria@[j]).kind == CriterionKind::Quantitative && (
                criteria@[j].metric is None || criteria@[j].comparator is None
                    || criteria@[j].threshold is None)) ==> issues@.len() > start.len(),
        decreases criteria@.len() - i,
    {
        let c = &criteria[i];
        let cp = index_path(path, i);
        let ghost at = issues@;
        let ghost before_ids = ids@;
        assert(lists(ids@, c.criterion_id@) == exists|t: int| 0 <= t < i && (#[trigger] criteria@[t]).criterion_id@ == c.criterion_id@);
        if !is_valid_slug(c.criterion_id.as_str()) {
            let mut m = text::owned("'");
            text::push_str(&mut m, c.criterion_id.as_str());
            text::push_str(&mut m, "' is not a valid slug");
            report(issues, text::concat(cp.as_str(), ".criterion_id"), "invalid_field", m);
        }
        if contains_id(&ids, c.criterion_id.as_str()) {
            let mut m = text::owned("criterion '");
            text::push_str(&mut m, c.criterion_id.as_str());
            text::push_str(&mut m, "' appears twice");
            report(issues, text::concat(cp.as_str(), ".criterion_id"), "invalid_field", m);
        } else {
            ids.push(c.criterion_id.clone());
        }
        check_text(issues, text::concat(cp.as_str(), ".statement").as_str(), c.statement.as_str(), 1, 1000);
        let quantified = c.metric.is_some() && c.comparator.is_some() && c.threshold.is_some();
        match c.kind {
            CriterionKind::Quantitative => {
                if !quantified {
                    report(
                        issues,
                        cp,
                        "invalid_field",
                        text::owned("a quantitative criterion needs metric, comparator and threshold"),
                    );
                }
            },
            CriterionKind::Qualitative => {
                if c.metric.is_some() || c.comparator.is_some() || c.threshold.is_some() {
                    report(
                        issues,
                        cp,
                        "invalid_field",
                        text::owned(
                            "a qualitative criterion must leave metric, comparator and threshold null",
                        ),
                    );
                }
            },
        }
        proof {
            assert(issues@.take(at.len() as int) =~= at);
            lemma_grew_trans(old(issues)@, at, issues@);
            assert(criterion_fine(criteria@, i as int) <==> issues@.len() == at.len());
            assert forall|x: Seq<char>| #[trigger] lists(ids@, x) == exists|t: int|
                0 <= t < i + 1 && (#[trigger] criteria@[t]).criterion_id@ == x by {
                if exists|t: int| 0 <= t < i + 1 && (#[trigger] criteria@[t]).criterion_id@ == x {
                    let t = choose|t: int| 0 <= t < i + 1 && (#[trigger] criteria@[t]).criterion_id@ == x;
                    if t < i {
                        assert(lists(before_ids, x));
                        let m = choose|m: int| 0 <= m < before_ids.len() && (#[trigger] before_ids[m])@ == x;
                        assert(ids@[m] == before_ids[m]);
                    } else if !lists(before_ids, x) {
                        assert(ids@[ids@.len() - 1]@ == x);
                    }
                }
                if lists(ids@, x) {
                    let m = choose|m: int| 0 <= m < ids@.len() && (#[trigger] ids@[m])@ == x;
                    if m < before_ids.len() {
                        assert(ids@[m] == before_ids[m]);
                        assert(lists(before_ids, x));
                    } else {
                        assert(criteria@[i as int].criterion_id@ == x);
                    }
                }
            }
            if (forall|q: int| 0 <= q < i ==> #[trigger] criterion_fine(criteria@, q)) && criterion_fine(criteria@, i as int) {
                assert forall|q: int| 0 <= q < i + 1 implies #[trigger] criterion_fine(criteria@, q) by {
                    if q == i {
                        assert(criterion_fine(criteria@, i as int));
                    }
                }
            }
        }
        i += 1;
    }
    proof {
        if issues@.len() == base {
            assert(issues@ =~= old(issues)@);
        }
    }
}

/// Whether two scopes name the same occurrence.
pub fn same_scope(a: &Scope, b: &Scope) -> (r: bool)
    ensures
        r == (a.root_revision_id@ == b.root_revision_id@ && views(a.slot_path@) == views(
            b.slot_path@,
        ) && a.target_revision_id@ == b.target_revision_id@),
{
    text::str_eq(a.root_revision_id.as_str(), b.root_revision_id.as_str()) && util::same_tokens(
        &a.slot_path,
        &b.slot_path,
    ) && text::str_eq(a.target_revision_id.as_str(), b.target_revision_id.as_str())
}

/// The goal a baseline names, when it is on record as a goal.
pub open spec fn baseline_goal(lk: &Overlay, b: crate::model::BaselineData) -> Option<crate::model::GoalData> {
    match lk.holds(b.goal_id@) {
        Some(g) => match g.data {
            RecordData::Goal(gd) => Some(gd),
            _ => None,
        },
        None => None,
    }
}

/// The goal defines a criterion `id`.
pub open spec fn goal_has_criterion(g: crate::model::GoalData, id: Seq<char>) -> bool {
    exists|t: int| 0 <= t < g.criteria@.len() && (#[trigger] g.criteria@[t]).criterion_id@ == id
}

/// Every adopted criterion is one of the goal's.
pub open spec fn criteria_known(g: crate::model::GoalData, ids: Seq<String>) -> bool {
    forall|q: int| 0 <= q < ids.len() ==> #[trigger] goal_has_criterion(g, ids[q]@)
}

/// A required criterion is adopted.
pub open spec fn required_listed(c: Criterion, ids: Seq<String>) -> bool {
    c.required ==> exists|q: int| 0 <= q < ids.len() && (#[trigger] ids[q])@ == c.criterion_id@
}

/// Every required criterion of the goal is adopted.
pub open spec fn required_known(g: crate::model::GoalData, ids: Seq<String>) -> bool {
    forall|q: int| 0 <= q < g.criteria@.len() ==> #[trigger] required_listed(g.criteria@[q], ids)
}

/// The goal of the baseline `id`, when both are on record.
pub open spec fn superseded_goal(lk: &Overlay, id: Seq<char>) -> Option<crate::model::GoalData> {
    match lk.holds(id) {
        Some(p) => {
            let gid = match p.data {
                RecordData::Baseline(pb) => pb.goal_id@,
                _ => Seq::empty(),
            };
            match lk.holds(gid) {
                Some(g) => match g.data {
                    RecordData::Goal(gd) => Some(gd),
                    _ => None,
                },
                None => None,
            }
        },
        None => None,
    }
}

/// A baseline raises no issue exactly when its reason has its length, its
/// `effective_from` is an instant, its goal is on record, every criterion it
/// adopts is the goal's, every required criterion of the goal is adopted,
/// and a superseded baseline is on record with a goal at the same scope.
pub open spec fn baseline_clean(lk: &Overlay, b: crate::model::BaselineData) -> bool {
    &&& 1 <= b.reason@.len() <= 500
    &&& util::spec_utc_key(b.effective_from@) is Some
    &&& needed(lk, b.goal_id@, seq![RecordKind::Goal]) is Some
    &&& baseline_goal(lk, b) matches Some(g) && {
        &&& criteria_known(g, b.criterion_ids@)
        &&& required_known(g, b.criterion_ids@)
        &&& match b.supersedes {
            None => true,
            Some(p) => {
                &&& needed(lk, p@, seq![RecordKind::Baseline]) is Some
                &&& superseded_goal(lk, p@) matches Some(pg) && pg.scope.root_revision_id@ == g.scope.root_revision_id@
                    && views(pg.scope.slot_path@) == views(g.scope.slot_path@) && pg.scope.target_revision_id@
                    == g.scope.target_revision_id@
            },
        }
    }
}

/// Baseline rules: reason and effective time, the goal it adopts, criteria
/// the goal defines with every required one chosen, and a superseded
/// baseline at the same occurrence scope.
#[verifier::rlimit(60)]
#[verifier::spinoff_prover]
pub fn validate_baseline(b: &crate::model::BaselineData, d: &str, lk: &Overlay, issues: &mut Vec<Issue>)
    ensures
        final(issues)@.len() >= old(issues)@.len(),
        needed(lk, b.goal_id@, seq![RecordKind::Goal]) is None ==> final(issues)@.len() > old(issues)@.len(),
        final(issues)@ == old(issues)@ <==> baseline_clean(lk, *b),
        grew(old(issues)@, final(issues)@),
{
    proof {
        lemma_grew_refl(issues@);
    }
    let ghost base = old(issues)@.len();
    check_text(issues, text::concat(d, ".reason").as_str(), b.reason.as_str(), 1, 500);
    check_timestamp(issues, text::concat(d, ".effective_from").as_str(), b.effective_from.as_str());
    let ghost head_clean = 1 <= b.reason@.len() <= 500 && util::spec_utc_key(b.effective_from@) is Some;
    assert(issues@.len() == base <==> head_clean);
    assert(grew(old(issues)@, issues@)) by {
        assert(issues@.take(base as int) =~= old(issues)@);
    }
    let goal_rec = match need(
        lk,
        issues,
        text::concat(d, ".goal_id").as_str(),
        b.goal_id.as_str(),
        &one_kind(RecordKind::Goal),
    ) {
        Some(g) => g,
        None => {
            proof {
                if let Some(g) = lk.holds(b.goal_id@) {
                    lemma_one_kind(RecordKind::Goal, g.kind_of());
                }
                assert(issues@.take(base as int) =~= old(issues)@);
            }
            return;
        },
    };
    proof {
        lemma_one_kind(RecordKind::Goal, goal_rec.kind_of());
    }
    let goal = match goal_rec.as_goal() {
        Some(g) => g,
        None => {
            assert(false);
            return;
        },
    };
    assert(baseline_goal(lk, *b) == Some(*goal));
    let mut i: usize = 0;
    while i < b.criterion_ids.len()
        invariant
            issues@.len() >= old(issues)@.len(),
            0 <= i <= b.criterion_ids@.len(),
            base == old(issues)@.len(),
            grew(old(issues)@, issues@),
            issues@.len() == base <==> (head_clean && forall|q: int|
                0 <= q < i ==> #[trigger] goal_has_criterion(*goal, b.criterion_ids@[q]@)),
        decreases b.criterion_ids@.len() - i,
    {
        let ghost at = issues@;
        let cid = &b.criterion_ids[i];
        let mut known = false;
        let mut k: usize = 0;
        while k < goal.criteria.len()
            invariant
                0 <= k <= goal.criteria@.len(),
                known == exists|t: int| 0 <= t < k && (#[trigger] goal.criteria@[t]).criterion_id@ == cid@,
            decreases goal.criteria@.len() - k,
        {
            if text::str_eq(goal.criteria[k].criterion_id.as_str(), cid.as_str()) {
                known = true;
            }
            k += 1;
        }
        if !known {
            let mut m = text::owned("goal ");
            text::push_str(&mut m, b.goal_id.as_str());
            text::push_str(&mut m, " has no criterion '");
            text::push_str(&mut m, cid.as_str());
            text::push_str(&mut m, "'");
            report(
                issues,
                index_path(text::concat(d, ".criterion_ids").as_str(), i),
                "unknown_criterion",
                m,
            );
        }
        proof {
            assert(known == goal_has_criterion(*goal, b.criterion_ids@[i as int]@));
            assert(issues@.take(at.len() as int) =~= at);
            lemma_grew_trans(old(issues)@, at, issues@);
            if (forall|q: int| 0 <= q < i ==> #[trigger] goal_has_criterion(*goal, b.criterion_ids@[q]@)) && known {
                assert forall|q: int| 0 <= q < i + 1 implies #[trigger] goal_has_criterion(
                    *goal,
                    b.criterion_ids@[q]@,
                ) by {
                    if q == i {
                        assert(known);
                    }
                }
            }
        }
        i += 1;
    }
    let mut k: usize = 0;
    while k < goal.criteria.len()
        invariant
            issues@.len() >= old(issues)@.len(),
            0 <= k <= goal.criteria@.len(),
            base == old(issues)@.len(),
            grew(old(issues)@, issues@),
            issues@.len() == base <==> (head_clean && criteria_known(*goal, b.criterion_ids@) && forall|q: int|
                0 <= q < k ==> #[trigger] required_listed(goal.criteria@[q], b.criterion_ids@)),
        decreases goal.criteria@.len() - k,
    {
        let ghost at = issues@;
        let c = &goal.criteria[k];
        if c.required && !contains_id(&b.criterion_ids, c.criterion_id.as_str()) {
            let mut m = text::owned("required criterion '");
            text::push_str(&mut m, c.criterion_id.as_str());
            text::push_str(&mut m, "' is missing");
            report(
                issues,
                text::concat(d, ".criterion_ids"),
                "baseline_missing_required_criterion",
                m,
            );
        }
        proof {
            assert(issues@.take(at.len() as int) =~= at);
            lemma_grew_trans(old(issues)@, at, issues@);
            let ok = required_listed(goal.criteria@[k as int], b.criterion_ids@);
            assert(ok <==> issues@.len() == at.len());
            if (forall|q: int| 0 <= q < k ==> #[trigger] required_listed(goal.criteria@[q], b.criterion_ids@)) && ok {
                assert forall|q: int| 0 <= q < k + 1 implies #[trigger] required_listed(
                    goal.criteria@[q],
                    b.criterion_ids@,
                ) by {
                    if q == k {
                        assert(ok);
                    }
                }
            }
        }
        k += 1;
    }
    let ghost mid = issues@;
    let ghost mid_clean = head_clean && criteria_known(*goal, b.criterion_ids@) && required_known(*goal, b.criterion_ids@);
    assert(issues@.len() == base <==> mid_clean);
    // A threshold change needs a new goal, so `supersedes` may cross goals as
    // long as the occurrence scope is identical.
    if let Some(prev_id) = &b.supersedes {
        if let Some(prev) = need(
            lk,
            issues,
            text::concat(d, ".supersedes").as_str(),
            prev_id.as_str(),
            &one_kind(RecordKind::Baseline),
        ) {
            let prev_goal_id = match prev.as_baseline() {
                Some(p) => p.goal_id.clone(),
                None => String::new(),
            };
            let prev_goal = match lk.get(prev_goal_id.as_str()) {
                Some(g) => g.as_goal(),
                None => None,
            };
            match prev_goal {
                Some(pg) => {
                    if !same_scope(&pg.scope, &goal.scope) {
                        let mut m = text::owned("superseded goal ");
                        text::push_str(&mut m, prev_goal_id.as_str());
                        text::push_str(&mut m, " is scoped to ");
                        text::push_str(&mut m, pg.scope.root_revision_id.as_str());
                        text::push_str(&mut m, graph::render_path(&pg.scope.slot_path).as_str());
                        text::push_str(&mut m, " but this goal is scoped to ");
                        text::push_str(&mut m, goal.scope.root_revision_id.as_str());
                        text::push_str(&mut m, graph::render_path(&goal.scope.slot_path).as_str());
                        report(
                            issues,
                            text::concat(d, ".supersedes"),
                            "baseline_supersede_scope_mismatch",
                            m,
                        );
                    }
                },
                None => {
                    let mut m = text::owned("goal ");
                    text::push_str(&mut m, prev_goal_id.as_str());
                    text::push_str(&mut m, " of the superseded baseline not found");
                    report(issues, text::concat(d, ".supersedes"), "unknown_reference", m);
                },
            }
        } else {
            proof {
                if let Some(p) = lk.holds(prev_id@) {
                    lemma_one_kind(RecordKind::Baseline, p.kind_of());
                }
            }
        }
    }
    proof {
        assert(issues@.take(mid.len() as int) =~= mid);
        lemma_grew_trans(old(issues)@, mid, issues@);
        if issues@.len() == base {
            assert(issues@ =~= old(issues)@);
        }
    }
}


// ---------------------------------------------------------------- assessments

/// What a comparator accepts, given the order of observed against threshold.
pub open spec fn comparator_holds(c: Comparator, order: int) -> bool {
    match c {
        Comparator::Lt => order < 0,
        Comparator::Lte => order <= 0,
        Comparator::Gt => order > 0,
        Comparator::Gte => order >= 0,
        Comparator::Eq => order == 0,
        Comparator::Ne => order != 0,
    }
}

pub fn comparator_accepts(comparator: Comparator, observed: &Num, threshold: &Num) -> (r: bool)
    ensures
        r == comparator_holds(comparator, crate::num::num_order(observed.parts(), threshold.parts())),
{
    let o = observed.compare(threshold);
    match comparator {
        Comparator::Lt => o < 0,
        Comparator::Lte => o <= 0,
        Comparator::Gt => o > 0,
        Comparator::Gte => o >= 0,
        Comparator::Eq => o == 0,
        Comparator::Ne => o != 0,
    }
}

/// Each comparator accepts an observed value by the order of observed against
/// threshold exactly as its name says: `>=` when observed is not below the
/// threshold, `<=` when not above, `>` when above, `<` when below, `=` when
/// equal and `!=` when not; and the comparators pair up as complements.
pub proof fn law_comparator_meaning(observed: (bool, Seq<u8>, Seq<u8>), threshold: (bool, Seq<u8>, Seq<u8>))
    ensures
        ({
            let o = crate::num::num_order(observed, threshold);
            &&& comparator_holds(Comparator::Gte, o) <==> o >= 0
            &&& comparator_holds(Comparator::Lte, o) <==> o <= 0
            &&& comparator_holds(Comparator::Gt, o) <==> o > 0
            &&& comparator_holds(Comparator::Lt, o) <==> o < 0
            &&& comparator_holds(Comparator::Eq, o) <==> o == 0
            &&& comparator_holds(Comparator::Ne, o) <==> o != 0
            &&& comparator_holds(Comparator::Gte, o) <==> !comparator_holds(Comparator::Lt, o)
            &&& comparator_holds(Comparator::Lte, o) <==> !comparator_holds(Comparator::Gt, o)
            &&& comparator_holds(Comparator::Gte, o) <==> (comparator_holds(Comparator::Gt, o)
                || comparator_holds(Comparator::Eq, o))
        }),
{
}

/// On whole numbers each comparator accepts an observed value exactly as the
/// numbers compare: `>=` accepts `n` against threshold `m` when `n >= m`,
/// `<=` when `n <= m`, and so on.
pub proof fn law_comparator_on_whole_numbers(n: nat, m: nat)
    ensures
        ({
            let o = crate::num::num_order(
                (false, crate::num::whole_digits(n), Seq::empty()),
                (false, crate::num::whole_digits(m), Seq::empty()),
            );
            &&& comparator_holds(Comparator::Gte, o) <==> n >= m
            &&& comparator_holds(Comparator::Lte, o) <==> n <= m
            &&& comparator_holds(Comparator::Gt, o) <==> n > m
            &&& comparator_holds(Comparator::Lt, o) <==> n < m
            &&& comparator_holds(Comparator::Eq, o) <==> n == m
            &&& comparator_holds(Comparator::Ne, o) <==> n != m
        }),
{
    crate::num::law_num_order(
        (false, crate::num::whole_digits(n), Seq::empty()),
        (false, crate::num::whole_digits(m), Seq::empty()),
        n,
        m,
    );
}

/// Against a threshold, an observed value with one more non-zero fraction
/// digit (0.95 against 0.9) passes `>=` and `>` and fails `<=`, `<` and `=`;
/// a value below the next whole number fails `>=` against it.
pub proof fn law_comparator_on_fractions(n: nat, f: Seq<u8>, d: u8)
    requires
        crate::num::digits_ok(f),
        0 < d < 10,
    ensures
        ({
            let o = crate::num::num_order(
                (false, crate::num::whole_digits(n), f.push(d)),
                (false, crate::num::whole_digits(n), f),
            );
            &&& comparator_holds(Comparator::Gte, o) && comparator_holds(Comparator::Gt, o)
            &&& !comparator_holds(Comparator::Lte, o) && !comparator_holds(Comparator::Lt, o)
            &&& !comparator_holds(Comparator::Eq, o) && comparator_holds(Comparator::Ne, o)
        }),
        !comparator_holds(
            Comparator::Gte,
            crate::num::num_order(
                (false, crate::num::whole_digits(n), f),
                (false, crate::num::whole_digits(n + 1), Seq::empty()),
            ),
        ),
{
    crate::num::law_num_fraction(n, f, d);
}

/// The decimal a JSON number value holds, if it is one.
pub open spec fn json_decimal(v: Option<crate::json::Json>) -> Option<(bool, Seq<u8>, Seq<u8>)> {
    match v {
        Some(crate::json::Json::Number(t)) => crate::num::parse_decimal(t@),
        _ => None,
    }
}

fn value_decimal(v: &Option<crate::json::Json>) -> (r: Option<Num>)
    ensures
        match r {
            Some(n) => json_decimal(*v) == Some(n.parts()),
            None => json_decimal(*v) is None,
        },
{
    match v {
        Some(crate::json::Json::Number(t)) => Num::parse(t.as_str()),
        _ => None,
    }
}

fn opt_str_eq(a: &Option<String>, b: &Option<String>) -> (r: bool)
    ensures
        r == (match (a, b) {
            (Some(x), Some(y)) => x@ == y@,
            (None, None) => true,
            _ => false,
        }),
{
    match (a, b) {
        (Some(x), Some(y)) => text::str_eq(x.as_str(), y.as_str()),
        (None, None) => true,
        _ => false,
    }
}

fn is_target(o: &Option<String>, target: &String) -> (r: bool)
    ensures
        r == (o matches Some(x) && x@ == target@),
{
    match o {
        Some(x) => text::str_eq(x.as_str(), target.as_str()),
        None => false,
    }
}

/// An observation that carries a quantitative criterion's observed value:
/// observed, in the goal's project, of the assessed revision, on the
/// criterion's metric, with a value equal to the observed value.
pub open spec fn carries_value(
    observation: ObservationData,
    criterion: Criterion,
    observed_value: (bool, Seq<u8>, Seq<u8>),
    goal_project: Seq<char>,
    target: Seq<char>,
) -> bool {
    &&& observation.status == ObservationStatus::Observed
    &&& observation.project_id@ == goal_project
    &&& observation.target_revision_id matches Some(x) && x@ == target
    &&& match (observation.metric, criterion.metric) {
        (Some(x), Some(y)) => x@ == y@,
        (None, None) => true,
        _ => false,
    }
    &&& json_decimal(observation.value) matches Some(p) && crate::num::num_order(p, observed_value) == 0
}

fn observation_supports_quantitative_met(
    observation: &ObservationData,
    criterion: &Criterion,
    observed_value: &Num,
    goal_project: &String,
    target: &String,
) -> (r: bool)
    ensures
        r == carries_value(*observation, *criterion, observed_value.parts(), goal_project@, target@),
{
    if observation.status != ObservationStatus::Observed {
        return false;
    }
    if !text::str_eq(observation.project_id.as_str(), goal_project.as_str()) {
        return false;
    }
    if !is_target(&observation.target_revision_id, target) {
        return false;
    }
    if !opt_str_eq(&observation.metric, &criterion.metric) {
        return false;
    }
    match value_decimal(&observation.value) {
        Some(n) => n.same_value(observed_value),
        None => false,
    }
}

/// A goal criterion that is required and adopted by the baseline.
pub open spec fn adopted(c: Criterion, allowed: Seq<String>) -> bool {
    c.required && exists|i: int| 0 <= i < allowed.len() && (#[trigger] allowed[i])@ == c.criterion_id@
}

/// An observation that scopes an official `met`: observed, in the goal's
/// project, of the assessed revision.
pub open spec fn scoping(o: ObservationData, goal_project: Seq<char>, target: Seq<char>) -> bool {
    &&& o.status == ObservationStatus::Observed
    &&& o.project_id@ == goal_project
    &&& o.target_revision_id matches Some(t) && t@ == target
}

/// Some cited evidence id names a scoping observation.
pub open spec fn scoped_evidence(lk: &Overlay, a: crate::model::AssessmentData, goal_project: Seq<char>) -> bool {
    exists|i: int|
        0 <= i < a.evidence_observation_ids@.len() && (lk.holds((#[trigger] a.evidence_observation_ids@[i])@) matches Some(
            rec,
        ) && (rec.data matches RecordData::Observation(o) && scoping(o, goal_project, a.target_revision_id@)))
}

/// The first `met` result for `criterion_id`.
pub open spec fn first_met(results: Seq<crate::model::CriterionResult>, criterion_id: Seq<char>) -> Option<
    crate::model::CriterionResult,
>
    decreases results.len(),
{
    if results.len() == 0 {
        None
    } else {
        match first_met(results.drop_last(), criterion_id) {
            Some(x) => Some(x),
            None => if results.last().criterion_id@ == criterion_id && results.last().status
                == JudgeStatus::Met {
                Some(results.last())
            } else {
                None
            },
        }
    }
}

/// A quantitative `met` result that its criterion refuses: no observed
/// value, or one the comparator and threshold do not accept.
pub open spec fn quantity_refused(c: Criterion, res: crate::model::CriterionResult) -> bool {
    match res.observed_value {
        None => true,
        Some(v) => match (c.comparator, c.threshold) {
            (Some(cmp), Some(t)) => !comparator_holds(cmp, crate::num::num_order(v.parts(), t.parts())),
            _ => true,
        },
    }
}

/// Criterion `k` is an adopted required quantitative one whose `met` result
/// it refuses.
pub open spec fn refused_at(a: crate::model::AssessmentData, goal: crate::model::GoalData, allowed: Seq<String>, k: int) -> bool {
    &&& adopted(goal.criteria@[k], allowed)
    &&& goal.criteria@[k].kind == CriterionKind::Quantitative
    &&& first_met(a.criteria_results@, goal.criteria@[k].criterion_id@) matches Some(res) && quantity_refused(
        goal.criteria@[k],
        res,
    )
}

/// `after` holds, past position `from`, an issue at `path` with `code`.
#[verifier::opaque]
pub open spec fn has_new(after: Seq<Issue>, from: int, path: Seq<char>, code: &'static str) -> bool {
    exists|i: int| from <= i < after.len() && (#[trigger] after[i]).is(path, code)
}

proof fn lemma_has_new_grew(a: Seq<Issue>, b: Seq<Issue>, from: int, path: Seq<char>, code: &'static str)
    requires
        grew(a, b),
        from >= 0,
    ensures
        has_new(a, from, path, code) ==> has_new(b, from, path, code),
{
    reveal(has_new);
    if has_new(a, from, path, code) {
        let i = choose|i: int| from <= i < a.len() && (#[trigger] a[i]).is(path, code);
        assert(b.take(a.len() as int)[i] == b[i]);
    }
}

/// `ev` holds exactly the observations that the cited `ids` name.
#[verifier::opaque]
pub open spec fn mirrors(lk: &Overlay, ids: Seq<String>, ev: Seq<&ObservationData>) -> bool {
    &&& forall|m: int| #![trigger ev[m]]
        0 <= m < ev.len() ==> exists|j: int|
            0 <= j < ids.len() && (lk.holds((#[trigger] ids[j])@) matches Some(rec) && rec.data
                == RecordData::Observation(*ev[m]))
    &&& forall|j: int|
        0 <= j < ids.len() ==> (lk.holds((#[trigger] ids[j])@) matches Some(rec) ==> (rec.data matches RecordData::Observation(
            o,
        ) ==> exists|m: int| 0 <= m < ev.len() && *ev[m] == o))
}

/// Some cited evidence observation carries the observed value `v` of
/// criterion `c`.
pub open spec fn evidence_carries(
    lk: &Overlay,
    a: crate::model::AssessmentData,
    c: Criterion,
    v: (bool, Seq<u8>, Seq<u8>),
    goal_project: Seq<char>,
) -> bool {
    exists|j: int|
        0 <= j < a.evidence_observation_ids@.len() && (lk.holds((#[trigger] a.evidence_observation_ids@[j])@) matches Some(
            rec,
        ) && (rec.data matches RecordData::Observation(o) && carries_value(o, c, v, goal_project, a.target_revision_id@)))
}

proof fn lemma_mirror_carries(
    lk: &Overlay,
    a: crate::model::AssessmentData,
    ev: Seq<&ObservationData>,
    c: Criterion,
    v: (bool, Seq<u8>, Seq<u8>),
    goal_project: Seq<char>,
)
    requires
        mirrors(lk, a.evidence_observation_ids@, ev),
    ensures
        (exists|m: int| 0 <= m < ev.len() && carries_value(*(#[trigger] ev[m]), c, v, goal_project, a.target_revision_id@))
            <==> evidence_carries(lk, a, c, v, goal_project),
{
    reveal(mirrors);
    let ids = a.evidence_observation_ids@;
    if exists|m: int| 0 <= m < ev.len() && carries_value(*(#[trigger] ev[m]), c, v, goal_project, a.target_revision_id@) {
        let m = choose|m: int| 0 <= m < ev.len() && carries_value(*(#[trigger] ev[m]), c, v, goal_project, a.target_revision_id@);
        let j = choose|j: int|
            0 <= j < ids.len() && (lk.holds((#[trigger] ids[j])@) matches Some(rec) && rec.data
                == RecordData::Observation(*ev[m]));
        assert(ids[j] == a.evidence_observation_ids@[j]);
    }
    if evidence_carries(lk, a, c, v, goal_project) {
        let j = choose|j: int|
            0 <= j < ids.len() && (lk.holds((#[trigger] ids[j])@) matches Some(rec) && (rec.data matches RecordData::Observation(
                o,
            ) && carries_value(o, c, v, goal_project, a.target_revision_id@)));
        if let Some(rec) = lk.holds(ids[j]@) {
            if let RecordData::Observation(o) = rec.data {
                let m = choose|m: int| 0 <= m < ev.len() && *ev[m] == o;
                assert(carries_value(*ev[m], c, v, goal_project, a.target_revision_id@));
            }
        }
    }
}

/// Criterion `k` is an adopted required quantitative one whose `met` result
/// has an observed value that no cited observation carries.
pub open spec fn unsupported_at(
    lk: &Overlay,
    a: crate::model::AssessmentData,
    goal: crate::model::GoalData,
    allowed: Seq<String>,
    k: int,
) -> bool {
    &&& adopted(goal.criteria@[k], allowed)
    &&& goal.criteria@[k].kind == CriterionKind::Quantitative
    &&& first_met(a.criteria_results@, goal.criteria@[k].criterion_id@) matches Some(res)
        && res.observed_value matches Some(v)
        && !evidence_carries(lk, a, goal.criteria@[k], v.parts(), goal.project_id@)
}

/// `met` is backed by the results: some required criterion is adopted, and
/// every adopted required criterion has a `met` result.
pub open spec fn met_backed(a: crate::model::AssessmentData, goal: crate::model::GoalData, allowed: Seq<String>) -> bool {
    &&& exists|k: int| 0 <= k < goal.criteria@.len() && adopted(#[trigger] goal.criteria@[k], allowed)
    &&& forall|k: int|
        0 <= k < goal.criteria@.len() && adopted(#[trigger] goal.criteria@[k], allowed) ==> has_met(
            a.criteria_results@,
            goal.criteria@[k].criterion_id@,
        )
}

fn required_adopted(c: &Criterion, allowed: &Vec<String>) -> (r: bool)
    ensures
        r == adopted(*c, allowed@),
{
    c.required && contains_id(allowed, c.criterion_id.as_str())
}

/// Some result for `criterion_id` is `met`.
pub open spec fn has_met(results: Seq<crate::model::CriterionResult>, criterion_id: Seq<char>) -> bool {
    exists|i: int|
        0 <= i < results.len() && (#[trigger] results[i]).criterion_id@ == criterion_id
            && results[i].status == JudgeStatus::Met
}

fn result_met(results: &Vec<crate::model::CriterionResult>, criterion_id: &String) -> (r: bool)
    ensures
        r == has_met(results@, criterion_id@),
{
    let mut i: usize = 0;
    while i < results.len()
        invariant
            0 <= i <= results@.len(),
            forall|j: int|
                0 <= j < i ==> !((#[trigger] results@[j]).criterion_id@ == criterion_id@
                    && results@[j].status == JudgeStatus::Met),
        decreases results@.len() - i,
    {
        if text::str_eq(results[i].criterion_id.as_str(), criterion_id.as_str())
            && results[i].status == JudgeStatus::Met {
            return true;
        }
        i += 1;
    }
    false
}

/// `p` equals the whole number `k`.
pub open spec fn equals_whole(p: (bool, Seq<u8>, Seq<u8>), k: nat) -> bool {
    crate::num::num_order(p, (false, crate::num::whole_digits(k), Seq::<u8>::empty())) == 0
}

/// A progress percentage on a 20-point step: 0, 20, 40, 60, 80 or 100.
pub open spec fn milestone(p: (bool, Seq<u8>, Seq<u8>)) -> bool {
    equals_whole(p, 0) || equals_whole(p, 20) || equals_whole(p, 40) || equals_whole(p, 60)
        || equals_whole(p, 80) || equals_whole(p, 100)
}

fn is_milestone(p: &Num) -> (r: bool)
    ensures
        r == milestone(p.parts()),
{
    let mut k: u64 = 0;
    while k <= 100
        invariant
            k <= 120,
            k % 20 == 0,
            forall|j: nat| j < k && j % 20 == 0 ==> !#[trigger] equals_whole(p.parts(), j),
        decreases 120 - k,
    {
        if p.same_value(&Num::from_u64(k)) {
            return true;
        }
        k += 20;
    }
    false
}

/// A found record is an observation recorded after the cutoff sequence.
pub open spec fn recorded_past_cutoff_seq<L: Lookup>(lk: &L, id: Seq<char>, cutoff: i64) -> bool {
    match lk.holds(id) {
        Some(rec) => rec.kind_of() == RecordKind::Observation && rec.seq > cutoff,
        None => false,
    }
}

/// The assessment claims the goal's exact use site: root, slot path and
/// target.
pub open spec fn same_place(scope: Scope, a: crate::model::AssessmentData) -> bool {
    &&& scope.root_revision_id@ == a.root_revision_id@
    &&& views(scope.slot_path@) == views(a.slot_path@)
    &&& scope.target_revision_id@ == a.target_revision_id@
}

/// The baseline an assessment names, when it exists.
pub open spec fn assessment_baseline<L: Lookup>(lk: &L, a: crate::model::AssessmentData) -> Option<
    crate::model::BaselineData,
> {
    match lk.holds(a.baseline_id@) {
        Some(b) => match b.data {
            RecordData::Baseline(bd) => Some(bd),
            _ => None,
        },
        None => None,
    }
}

/// The goal behind an assessment's baseline, when both exist.
pub open spec fn assessment_goal<L: Lookup>(lk: &L, a: crate::model::AssessmentData) -> Option<
    crate::model::GoalData,
> {
    match lk.holds(a.baseline_id@) {
        Some(b) => match b.data {
            RecordData::Baseline(bd) => match lk.holds(bd.goal_id@) {
                Some(g) => match g.data {
                    RecordData::Goal(gd) => Some(gd),
                    _ => None,
                },
                None => None,
            },
            _ => None,
        },
        None => None,
    }
}

/// Assessment rules: scope, text fields, cutoff, the baseline and its goal,
/// criteria results, progress estimates and their evidence, the status the
/// results support, and evidence observations within scope and cutoff.
/// Some id in `ids` is `x`.
pub open spec fn lists(ids: Seq<String>, x: Seq<char>) -> bool {
    exists|m: int| 0 <= m < ids.len() && (#[trigger] ids[m])@ == x
}

/// One of the first `n` results names `x`.
pub open spec fn named_before(a: crate::model::AssessmentData, n: int, x: Seq<char>) -> bool {
    exists|j: int| 0 <= j < n && (#[trigger] a.criteria_results@[j]).criterion_id@ == x
}

/// The assessment's root, slot path and target resolve to one another.
pub open spec fn place_resolves(lk: &Overlay, a: crate::model::AssessmentData) -> bool {
    a.slot_path@.len() <= graph::MAX_DEPTH && match graph::resolved(lk, a.root_revision_id@, views(a.slot_path@)) {
        Ok(found) => found.id@ == a.target_revision_id@,
        Err(_) => false,
    }
}

/// Result `i` names an adopted criterion that no earlier result names.
pub open spec fn result_clean(a: crate::model::AssessmentData, allowed: Seq<String>, i: int) -> bool {
    &&& exists|k: int| 0 <= k < allowed.len() && (#[trigger] allowed[k])@ == a.criteria_results@[i].criterion_id@
    &&& forall|j: int|
        0 <= j < i ==> (#[trigger] a.criteria_results@[j]).criterion_id@ != a.criteria_results@[i].criterion_id@
}

/// Result `q` names an adopted criterion once, and its progress estimate,
/// if any, raises nothing.
pub open spec fn result_fine(
    lk: &Overlay,
    a: crate::model::AssessmentData,
    allowed: Seq<String>,
    project: Seq<char>,
    q: int,
) -> bool {
    &&& result_clean(a, allowed, q)
    &&& a.criteria_results@[q].progress_estimate matches Some(e) ==> estimate_clean(
        lk,
        a,
        project,
        e,
        util::spec_utc_key(a.evidence_cutoff_at@),
    )
}

/// Every result is fine.
pub open spec fn results_fine(lk: &Overlay, a: crate::model::AssessmentData, allowed: Seq<String>, project: Seq<char>) -> bool {
    forall|q: int| 0 <= q < a.criteria_results@.len() ==> #[trigger] result_fine(lk, a, allowed, project, q)
}

/// Some result is given for `id`.
pub open spec fn has_result(a: crate::model::AssessmentData, id: Seq<char>) -> bool {
    exists|i: int| 0 <= i < a.criteria_results@.len() && (#[trigger] a.criteria_results@[i]).criterion_id@ == id
}

/// Every required criterion the baseline adopts has a result.
pub open spec fn required_covered(a: crate::model::AssessmentData, g: crate::model::GoalData, allowed: Seq<String>) -> bool {
    forall|k: int|
        0 <= k < g.criteria@.len() && adopted(#[trigger] g.criteria@[k], allowed) ==> has_result(
            a,
            g.criteria@[k].criterion_id@,
        )
}

/// An assessment raises no issue exactly when: its place resolves, its
/// evaluator and rubric have their lengths, its cutoff time is an instant,
/// its baseline is on record, and, where the baseline is, the baseline's goal
/// is on record with the same place, an official assessment does not rest on
/// an ai-proposed goal, every result names an adopted criterion once and
/// carries a clean progress estimate if any, every adopted required criterion
/// has a result, a `met` is backed by its results (an official one also by
/// its evidence), and every cited observation is clean.
pub open spec fn assessment_clean(lk: &Overlay, a: crate::model::AssessmentData) -> bool {
    &&& place_resolves(lk, a)
    &&& 1 <= a.evaluator@.len() <= 200
    &&& 1 <= a.rubric_version@.len() <= 100
    &&& util::spec_utc_key(a.evidence_cutoff_at@) is Some
    &&& needed(lk, a.baseline_id@, seq![RecordKind::Baseline]) is Some
    &&& match assessment_baseline(lk, a) {
        None => true,
        Some(b) => match assessment_goal(lk, a) {
            None => false,
            Some(g) => {
                &&& same_place(g.scope, a)
                &&& !(a.origin == ProposalOrigin::Official && g.origin == ProposalOrigin::AiProposed)
                &&& results_fine(lk, a, b.criterion_ids@, g.project_id@)
                &&& required_covered(a, g, b.criterion_ids@)
                &&& a.status == JudgeStatus::Met ==> met_backed(a, g, b.criterion_ids@)
                &&& a.status == JudgeStatus::Met && a.origin == ProposalOrigin::Official ==> official_met_clean(
                    lk,
                    a,
                    g,
                    b.criterion_ids@,
                )
                &&& forall|i: int|
                    0 <= i < a.evidence_observation_ids@.len() ==> evidence_clean(
                        lk,
                        (#[trigger] a.evidence_observation_ids@[i])@,
                        g.project_id@,
                        a.target_revision_id@,
                        a.evidence_cutoff_seq,
                        util::spec_utc_key(a.evidence_cutoff_at@),
                    )
            },
        },
    }
}

#[verifier::rlimit(40)]
#[verifier::spinoff_prover]
pub fn validate_assessment(a: &crate::model::AssessmentData, d: &str, lk: &Overlay, issues: &mut Vec<Issue>)
    ensures
        final(issues)@.len() >= old(issues)@.len(),
        keeps(old(issues)@, final(issues)@),
        needed(lk, a.baseline_id@, seq![RecordKind::Baseline]) is None ==> has_new(
            final(issues)@,
            old(issues)@.len() as int,
            d@ + ".baseline_id"@,
            need_code(lk, a.baseline_id@),
        ),
        assessment_goal(lk, *a) matches Some(g) && !same_place(g.scope, *a) ==> has_new(
            final(issues)@,
            old(issues)@.len() as int,
            d@ + ".baseline_id"@,
            "baseline_scope_mismatch",
        ),
        assessment_goal(lk, *a) matches Some(g) && a.origin == ProposalOrigin::Official && g.origin
            == ProposalOrigin::AiProposed ==> has_new(
            final(issues)@,
            old(issues)@.len() as int,
            d@ + ".origin"@,
            "official_assessment_from_proposed_goal",
        ),
        forall|i: int|
            0 <= i < a.evidence_observation_ids@.len() && assessment_goal(lk, *a) is Some && recorded_past_cutoff_seq(
                lk,
                (#[trigger] a.evidence_observation_ids@[i])@,
                a.evidence_cutoff_seq,
            ) ==> has_new(final(issues)@, old(issues)@.len() as int, evidence_path(d@, i), "evidence_after_cutoff"),
        forall|i: int|
            0 <= i < a.evidence_observation_ids@.len() && assessment_goal(lk, *a) is Some && occurred_after_cutoff(
                lk,
                (#[trigger] a.evidence_observation_ids@[i])@,
                util::spec_utc_key(a.evidence_cutoff_at@),
            ) ==> has_new(final(issues)@, old(issues)@.len() as int, evidence_path(d@, i), "evidence_after_cutoff"),
        forall|i: int|
            0 <= i < a.evidence_observation_ids@.len() && (assessment_goal(lk, *a) matches Some(g) && evidence_off_scope(
                lk,
                (#[trigger] a.evidence_observation_ids@[i])@,
                g.project_id@,
                a.target_revision_id@,
            )) ==> has_new(final(issues)@, old(issues)@.len() as int, evidence_path(d@, i), "evidence_scope_mismatch"),
        assessment_goal(lk, *a) matches Some(g) && a.status == JudgeStatus::Met && (assessment_baseline(lk, *a) matches Some(
            b,
        ) && !met_backed(*a, g, b.criterion_ids@)) ==> has_new(
            final(issues)@,
            old(issues)@.len() as int,
            d@ + ".status"@,
            "assessment_status_mismatch",
        ),
        assessment_goal(lk, *a) matches Some(g) && a.status == JudgeStatus::Met && a.origin
            == ProposalOrigin::Official && !scoped_evidence(lk, *a, g.project_id@) ==> has_new(
            final(issues)@,
            old(issues)@.len() as int,
            d@ + ".evidence_observation_ids"@,
            "assessment_missing_evidence",
        ),
        final(issues)@ == old(issues)@ <==> assessment_clean(lk, *a),
{
    proof {
        lemma_keeps_refl(issues@);
    }
    let ghost base = old(issues)@.len() as int;
    let scope = Scope {
        root_revision_id: a.root_revision_id.clone(),
        slot_path: crate::model::copy_strings(&a.slot_path),
        target_revision_id: a.target_revision_id.clone(),
    };
    assert(scope_ok(lk, scope) == place_resolves(lk, *a));
    check_scope(lk, issues, d, &scope, "assessment_scope_mismatch");
    check_text(issues, text::concat(d, ".evaluator").as_str(), a.evaluator.as_str(), 1, 200);
    check_text(issues, text::concat(d, ".rubric_version").as_str(), a.rubric_version.as_str(), 1, 100);
    let cutoff_at = check_timestamp(
        issues,
        text::concat(d, ".evidence_cutoff_at").as_str(),
        a.evidence_cutoff_at.as_str(),
    );
    let ghost head_clean = place_resolves(lk, *a) && 1 <= a.evaluator@.len() <= 200 && 1 <= a.rubric_version@.len() <= 100
        && util::spec_utc_key(a.evidence_cutoff_at@) is Some;
    assert(issues@.len() == base <==> head_clean);

    let baseline_rec = match need(
        lk,
        issues,
        text::concat(d, ".baseline_id").as_str(),
        a.baseline_id.as_str(),
        &one_kind(RecordKind::Baseline),
    ) {
        Some(b) => b,
        None => {
            proof {
                reveal(has_new);
                assert(issues@[issues@.len() - 1].is(d@ + ".baseline_id"@, need_code(lk, a.baseline_id@)));
                if let Some(b) = lk.holds(a.baseline_id@) {
                    lemma_one_kind(RecordKind::Baseline, b.kind_of());
                }
            }
            return;
        },
    };
    proof {
        lemma_one_kind(RecordKind::Baseline, baseline_rec.kind_of());
    }
    let baseline = match baseline_rec.as_baseline() {
        Some(b) => b,
        None => {
            assert(assessment_baseline(lk, *a) is None);
            return;
        },
    };
    assert(assessment_baseline(lk, *a) == Some(*baseline));
    let goal_rec = match lk.get(baseline.goal_id.as_str()) {
        Some(g) => g,
        None => {
            let mut m = text::owned("goal ");
            text::push_str(&mut m, baseline.goal_id.as_str());
            text::push_str(&mut m, " of the baseline not found");
            report(issues, text::concat(d, ".baseline_id"), "unknown_reference", m);
            return;
        },
    };
    let goal = match goal_rec.as_goal() {
        Some(g) => g,
        None => {
            let mut m = text::owned("goal ");
            text::push_str(&mut m, baseline.goal_id.as_str());
            text::push_str(&mut m, " of the baseline not found");
            report(issues, text::concat(d, ".baseline_id"), "unknown_reference", m);
            return;
        },
    };
    if !same_scope(&goal.scope, &scope) {
        let mut m = text::owned("baseline goal is scoped to ");
        text::push_str(&mut m, goal.scope.root_revision_id.as_str());
        text::push_str(&mut m, graph::render_path(&goal.scope.slot_path).as_str());
        text::push_str(&mut m, " -> ");
        text::push_str(&mut m, goal.scope.target_revision_id.as_str());
        text::push_str(&mut m, ", the assessment claims ");
        text::push_str(&mut m, scope.root_revision_id.as_str());
        text::push_str(&mut m, graph::render_path(&scope.slot_path).as_str());
        text::push_str(&mut m, " -> ");
        text::push_str(&mut m, scope.target_revision_id.as_str());
        report(issues, text::concat(d, ".baseline_id"), "baseline_scope_mismatch", m);
        proof {
            reveal(has_new);
            assert(issues@[issues@.len() - 1].is(d@ + ".baseline_id"@, "baseline_scope_mismatch"));
        }
    }
    if a.origin == ProposalOrigin::Official && goal.origin == ProposalOrigin::AiProposed {
        report(
            issues,
            text::concat(d, ".origin"),
            "official_assessment_from_proposed_goal",
            text::owned("an ai-proposed goal cannot back an official assessment"),
        );
        proof {
            reveal(has_new);
            assert(issues@[issues@.len() - 1].is(d@ + ".origin"@, "official_assessment_from_proposed_goal"));
        }
    }
    let ghost scope_off = !same_place(goal.scope, *a);
    let ghost proposed = a.origin == ProposalOrigin::Official && goal.origin == ProposalOrigin::AiProposed;
    assert(assessment_goal(lk, *a) == Some(*goal));
    let ghost mid_clean = head_clean && !scope_off && !proposed;
    assert(issues@.len() == base <==> mid_clean);

    let ghost after_goal = issues@;
    assert(after_goal.len() >= old(issues)@.len());
    let allowed = &baseline.criterion_ids;
    let mut covered: Vec<String> = Vec::new();
    let mut i: usize = 0;
    while i < a.criteria_results.len()
        invariant
            issues@.len() >= after_goal.len(),
            keeps(old(issues)@, issues@),
            base == old(issues)@.len(),
            scope_off ==> has_new(issues@, base, d@ + ".baseline_id"@, "baseline_scope_mismatch"),
            proposed ==> has_new(issues@, base, d@ + ".origin"@, "official_assessment_from_proposed_goal"),
            0 <= i <= a.criteria_results@.len(),
            forall|x: Seq<char>| #[trigger] lists(covered@, x) == named_before(*a, i as int, x),
            text_opt(cutoff_at) == util::spec_utc_key(a.evidence_cutoff_at@),
            issues@.len() == base <==> mid_clean && forall|q: int|
                0 <= q < i ==> #[trigger] result_fine(lk, *a, allowed@, goal.project_id@, q),
        decreases a.criteria_results@.len() - i,
    {
        let ghost start_len = issues@.len();
        let ghost before_covered = covered@;
        let res = &a.criteria_results[i];
        proof {
            assert(lists(covered@, res.criterion_id@) == named_before(*a, i as int, res.criterion_id@));
        }
        let rp = index_path(text::concat(d, ".criteria_results").as_str(), i);
        if !contains_id(allowed, res.criterion_id.as_str()) {
            let mut m = text::owned("baseline ");
            text::push_str(&mut m, a.baseline_id.as_str());
            text::push_str(&mut m, " does not adopt '");
            text::push_str(&mut m, res.criterion_id.as_str());
            text::push_str(&mut m, "'");
            report(issues, text::concat(rp.as_str(), ".criterion_id"), "unknown_criterion", m);
        }
        if contains_id(&covered, res.criterion_id.as_str()) {
            report(
                issues,
                text::concat(rp.as_str(), ".criterion_id"),
                "duplicate_criterion_result",
                text::owned("a criterion can have only one result per assessment"),
            );
        } else {
            covered.push(res.criterion_id.clone());
        }
        let ghost before_estimate = issues@.len();
        if let Some(estimate) = &res.progress_estimate {
            check_estimate(a, goal, estimate, rp.as_str(), lk, &cutoff_at, issues);
        }
        proof {
            let id = a.criteria_results@[i as int].criterion_id@;
            assert forall|x: Seq<char>| #[trigger] lists(covered@, x) == named_before(*a, i + 1, x) by {
                if named_before(*a, i + 1, x) && !named_before(*a, i as int, x) {
                    assert(x == id);
                }
                if named_before(*a, i as int, x) {
                    let j = choose|j: int| 0 <= j < i && (#[trigger] a.criteria_results@[j]).criterion_id@ == x;
                    assert(a.criteria_results@[j].criterion_id@ == x);
                }
                if lists(covered@, x) && !lists(before_covered, x) {
                    assert(covered@[covered@.len() - 1]@ == id);
                    let m = choose|m: int| 0 <= m < covered@.len() && (#[trigger] covered@[m])@ == x;
                    if m < before_covered.len() {
                        assert(covered@[m] == before_covered[m]);
                    }
                    assert(a.criteria_results@[i as int].criterion_id@ == x);
                }
                if lists(before_covered, x) {
                    let m = choose|m: int| 0 <= m < before_covered.len() && (#[trigger] before_covered[m])@ == x;
                    assert(covered@[m] == before_covered[m]);
                }
                if x == id && !lists(before_covered, x) {
                    assert(covered@[covered@.len() - 1]@ == id);
                }
            }
            assert(result_clean(*a, allowed@, i as int) <==> before_estimate == start_len);
            assert(result_fine(lk, *a, allowed@, goal.project_id@, i as int) <==> issues@.len() == start_len);
            if (forall|q: int| 0 <= q < i ==> #[trigger] result_fine(lk, *a, allowed@, goal.project_id@, q))
                && result_fine(lk, *a, allowed@, goal.project_id@, i as int) {
                assert forall|q: int| 0 <= q < i + 1 implies #[trigger] result_fine(
                    lk,
                    *a,
                    allowed@,
                    goal.project_id@,
                    q,
                ) by {
                    if q == i {
                        assert(result_fine(lk, *a, allowed@, goal.project_id@, i as int));
                    }
                }
            }
        }
        i += 1;
    }
    let mut k: usize = 0;
    while k < goal.criteria.len()
        invariant
            issues@.len() >= after_goal.len(),
            keeps(old(issues)@, issues@),
            base == old(issues)@.len(),
            scope_off ==> has_new(issues@, base, d@ + ".baseline_id"@, "baseline_scope_mismatch"),
            proposed ==> has_new(issues@, base, d@ + ".origin"@, "official_assessment_from_proposed_goal"),
            0 <= k <= goal.criteria@.len(),
            forall|x: Seq<char>| #[trigger] lists(covered@, x) == named_before(*a, a.criteria_results@.len() as int, x),
            issues@.len() == base <==> mid_clean && results_fine(lk, *a, allowed@, goal.project_id@) && forall|q: int|
                0 <= q < k && adopted(#[trigger] goal.criteria@[q], allowed@) ==> has_result(
                    *a,
                    goal.criteria@[q].criterion_id@,
                ),
        decreases goal.criteria@.len() - k,
    {
        let ghost start_len = issues@.len();
        let c = &goal.criteria[k];
        proof {
            assert(lists(covered@, c.criterion_id@) == named_before(*a, a.criteria_results@.len() as int, c.criterion_id@));
        }
        if required_adopted(c, allowed) && !contains_id(&covered, c.criterion_id.as_str()) {
            let mut m = text::owned("required criterion '");
            text::push_str(&mut m, c.criterion_id.as_str());
            text::push_str(&mut m, "' has no result");
            report(
                issues,
                text::concat(d, ".criteria_results"),
                "assessment_missing_required_criterion",
                m,
            );
        }
        proof {
            assert((adopted(goal.criteria@[k as int], allowed@) ==> has_result(*a, goal.criteria@[k as int].criterion_id@))
                <==> issues@.len() == start_len);
        }
        k += 1;
    }

    let ghost before_met = issues@;
    let ghost tail_clean = mid_clean && results_fine(lk, *a, allowed@, goal.project_id@) && required_covered(
        *a,
        *goal,
        allowed@,
    );
    assert(issues@.len() == base <==> tail_clean);
    if a.status == JudgeStatus::Met {
        check_met(a, goal, allowed, d, lk, issues);
        assert(a.origin != ProposalOrigin::Official ==> (issues@.len() == before_met.len() <==> met_backed(
            *a,
            *goal,
            allowed@,
        )));
        assert(a.origin == ProposalOrigin::Official ==> (issues@.len() == before_met.len() <==> official_met_clean(
            lk,
            *a,
            *goal,
            allowed@,
        )));
        proof {
            lemma_keeps(before_met, issues@);
            reveal(has_new);
            if !met_backed(*a, *goal, allowed@) {
                assert(issues@[before_met.len() as int].is(d@ + ".status"@, "assessment_status_mismatch"));
            }
        }
    } else {
        proof {
            lemma_keeps_refl(issues@);
        }
    }
    assert(text_opt(cutoff_at) == util::spec_utc_key(a.evidence_cutoff_at@));
    let ghost before_obs = issues@;
    assess_observations(a, d, lk, goal, &cutoff_at, issues);
    proof {
        lemma_keeps_trans(old(issues)@, before_obs, issues@);
        reveal(has_new);
        if issues@.len() == base {
            assert(issues@ =~= old(issues)@);
        }
    }
}

/// Evidence record `x` is cited among the first `n`.
pub open spec fn cited_before(ids: Seq<String>, n: int, x: Seq<char>) -> bool {
    exists|t: int| 0 <= t < n && (#[trigger] ids[t])@ == x
}

/// A progress estimate's evidence record belongs to the assessed project.
pub open spec fn evidence_belongs(lk: &Overlay, ev: StoredRecord, project: Seq<char>) -> bool {
    match ev.data {
        RecordData::Capture(c) => c.project_id matches Some(p) && p@ == project,
        RecordData::Revision(_) => graph::origin_of_revision(lk, ev) == Some(project),
        RecordData::Observation(o) => o.project_id@ == project,
        _ => false,
    }
}

/// Evidence record `j` of an estimate raises nothing: cited once, on record
/// as a capture, revision or observation of the project, and neither
/// recorded nor occurred past the cutoff.
pub open spec fn estimate_evidence_clean(
    lk: &Overlay,
    a: crate::model::AssessmentData,
    project: Seq<char>,
    ids: Seq<String>,
    j: int,
    cutoff: Option<Seq<char>>,
) -> bool {
    &&& !cited_before(ids, j, ids[j]@)
    &&& needed(lk, ids[j]@, seq![RecordKind::Capture, RecordKind::Revision, RecordKind::Observation]) matches Some(ev)
        && {
        &&& evidence_belongs(lk, ev, project)
        &&& ev.seq <= a.evidence_cutoff_seq
        &&& !(cutoff matches Some(c) && util::spec_utc_key(ev.recorded_at@) matches Some(k) && crate::json::seq_lt(c, k))
        &&& !(cutoff matches Some(c) && ev.data matches RecordData::Observation(o) && util::spec_utc_key(
            o.occurred_at@,
        ) matches Some(k) && crate::json::seq_lt(c, k))
    }
}

/// The estimate's own fields raise nothing.
pub open spec fn estimate_head_clean(a: crate::model::AssessmentData, e: crate::model::ProgressEstimate) -> bool {
    &&& a.origin == ProposalOrigin::AiProposed
    &&& crate::num::num_order(e.percent.parts(), (false, crate::num::whole_digits(0), Seq::<u8>::empty())) >= 0
    &&& crate::num::num_order(e.percent.parts(), (false, crate::num::whole_digits(100), Seq::<u8>::empty())) <= 0
    &&& a.rubric_version@ == "goal-progress-milestones-v1"@ ==> milestone(e.percent.parts())
    &&& 1 <= e.rationale@.len() <= 2000
    &&& !text::spec_is_blank(e.rationale@)
    &&& 1 <= e.evidence_record_ids@.len() <= 64
}

/// A progress estimate raises nothing.
pub open spec fn estimate_clean(
    lk: &Overlay,
    a: crate::model::AssessmentData,
    project: Seq<char>,
    e: crate::model::ProgressEstimate,
    cutoff: Option<Seq<char>>,
) -> bool {
    &&& estimate_head_clean(a, e)
    &&& forall|j: int|
        0 <= j < e.evidence_record_ids@.len() ==> #[trigger] estimate_evidence_clean(
            lk,
            a,
            project,
            e.evidence_record_ids@,
            j,
            cutoff,
        )
}

proof fn lemma_clean_prefix(
    lk: &Overlay,
    a: crate::model::AssessmentData,
    project: Seq<char>,
    ids: Seq<String>,
    j: int,
    cutoff: Option<Seq<char>>,
)
    requires
        0 <= j,
    ensures
        (forall|q: int| 0 <= q < j + 1 ==> #[trigger] estimate_evidence_clean(lk, a, project, ids, q, cutoff)) <==> ((
        forall|q: int| 0 <= q < j ==> #[trigger] estimate_evidence_clean(lk, a, project, ids, q, cutoff))
            && estimate_evidence_clean(lk, a, project, ids, j, cutoff)),
{
}

proof fn lemma_seen_step(seen: Seq<String>, before: Seq<String>, ids: Seq<String>, j: int)
    requires
        0 <= j < ids.len(),
        forall|x: Seq<char>| #[trigger] lists(before, x) == cited_before(ids, j, x),
        seen == before || seen == before.push(ids[j]),
        seen == before ==> cited_before(ids, j, ids[j]@),
    ensures
        forall|x: Seq<char>| #[trigger] lists(seen, x) == cited_before(ids, j + 1, x),
{
    assert forall|x: Seq<char>| #[trigger] lists(seen, x) == cited_before(ids, j + 1, x) by {
        if cited_before(ids, j + 1, x) && !cited_before(ids, j, x) {
            assert(ids[j]@ == x);
            if seen == before {
                assert(lists(before, x));
            } else {
                assert(seen[seen.len() - 1] == ids[j]);
            }
        }
        if cited_before(ids, j, x) {
            let t = choose|t: int| 0 <= t < j && (#[trigger] ids[t])@ == x;
            assert(ids[t]@ == x);
            assert(lists(before, x));
            let m = choose|m: int| 0 <= m < before.len() && (#[trigger] before[m])@ == x;
            if seen != before {
                assert(seen[m] == before[m]);
            }
        }
        if lists(seen, x) && !lists(before, x) {
            let m = choose|m: int| 0 <= m < seen.len() && (#[trigger] seen[m])@ == x;
            if m < before.len() {
                assert(seen[m] == before[m]);
            }
            assert(ids[j]@ == x);
        }
    }
}

/// A progress estimate: only on ai-proposed assessments, a percentage in
/// `0..=100` (a milestone under the milestone rubric), a rationale, and 1..=64
/// distinct evidence records of the assessed project within the cutoff.
fn check_estimate(
    a: &crate::model::AssessmentData,
    goal: &crate::model::GoalData,
    estimate: &crate::model::ProgressEstimate,
    rp: &str,
    lk: &Overlay,
    cutoff_at: &Option<String>,
    issues: &mut Vec<Issue>,
)
    ensures
        final(issues)@.len() >= old(issues)@.len(),
        a.origin != ProposalOrigin::AiProposed ==> final(issues)@.len() > old(issues)@.len(),
        keeps(old(issues)@, final(issues)@),
        final(issues)@.len() == old(issues)@.len() <==> estimate_clean(lk, *a, goal.project_id@, *estimate, text_opt(*cutoff_at)),
{
    proof {
        lemma_keeps_refl(issues@);
        reveal_strlit("goal-progress-milestones-v1");
    }
    let ghost base = old(issues)@.len();
    let estimate_path = text::concat(rp, ".progress_estimate");
    if a.origin != ProposalOrigin::AiProposed {
        report(
            issues,
            estimate_path.clone(),
            "official_progress_estimate",
            text::owned("progress estimates are allowed only on ai_proposed assessments"),
        );
    }
    let zero = Num::from_u64(0);
    let hundred = Num::from_u64(100);
    if estimate.percent.compare(&zero) < 0 || estimate.percent.compare(&hundred) > 0 {
        report(
            issues,
            text::concat(estimate_path.as_str(), ".percent"),
            "invalid_progress_estimate",
            text::owned("progress estimate percent must be finite and between 0 and 100"),
        );
    }
    proof {
        reveal_strlit("goal-progress-milestones-v1");
    }
    if text::str_eq(a.rubric_version.as_str(), "goal-progress-milestones-v1") && !is_milestone(
        &estimate.percent,
    ) {
        report(
            issues,
            text::concat(estimate_path.as_str(), ".percent"),
            "invalid_progress_milestone",
            text::owned("goal-progress-milestones-v1 permits only 0, 20, 40, 60, 80, or 100"),
        );
    }
    check_text(
        issues,
        text::concat(estimate_path.as_str(), ".rationale").as_str(),
        estimate.rationale.as_str(),
        1,
        2000,
    );
    if text::is_blank(estimate.rationale.as_str()) {
        report(
            issues,
            text::concat(estimate_path.as_str(), ".rationale"),
            "invalid_progress_estimate",
            text::owned("progress estimate rationale must contain non-whitespace text"),
        );
    }
    if estimate.evidence_record_ids.len() == 0 {
        report(
            issues,
            text::concat(estimate_path.as_str(), ".evidence_record_ids"),
            "progress_estimate_missing_evidence",
            text::owned("progress estimates need at least one evidence record"),
        );
    }
    if estimate.evidence_record_ids.len() > 64 {
        report(
            issues,
            text::concat(estimate_path.as_str(), ".evidence_record_ids"),
            "limit_exceeded",
            text::owned("progress estimate evidence exceeds 64 records"),
        );
    }
    let ghost pre_clean = estimate_head_clean(*a, *estimate);
    assert(issues@.len() == base <==> pre_clean);
    let mut seen: Vec<String> = Vec::new();
    let mut j: usize = 0;
    while j < estimate.evidence_record_ids.len()
        invariant
            issues@.len() >= old(issues)@.len(),
            a.origin != ProposalOrigin::AiProposed ==> issues@.len() > old(issues)@.len(),
            keeps(old(issues)@, issues@),
            0 <= j <= estimate.evidence_record_ids@.len(),
            base == old(issues)@.len(),
            forall|x: Seq<char>| #[trigger] lists(seen@, x) == cited_before(estimate.evidence_record_ids@, j as int, x),
            issues@.len() == base <==> (pre_clean && forall|q: int|
                0 <= q < j ==> #[trigger] estimate_evidence_clean(
                    lk,
                    *a,
                    goal.project_id@,
                    estimate.evidence_record_ids@,
                    q,
                    text_opt(*cutoff_at),
                )),
        decreases estimate.evidence_record_ids@.len() - j,
    {
        let ghost start_len = issues@.len();
        let ghost before_seen = seen@;
        let evidence_id = &estimate.evidence_record_ids[j];
        let evidence_path = index_path(
            text::concat(estimate_path.as_str(), ".evidence_record_ids").as_str(),
            j,
        );
        assert(lists(seen@, evidence_id@) == cited_before(estimate.evidence_record_ids@, j as int, evidence_id@));
        if contains_id(&seen, evidence_id.as_str()) {
            report(
                issues,
                evidence_path.clone(),
                "duplicate_evidence_record",
                text::owned("a progress estimate may cite an evidence record only once"),
            );
        } else {
            seen.push(evidence_id.clone());
        }
        let evidence = match need(
            lk,
            issues,
            evidence_path.as_str(),
            evidence_id.as_str(),
            &three_kinds(RecordKind::Capture, RecordKind::Revision, RecordKind::Observation),
        ) {
            Some(e) => e,
            None => {
                proof {
                    if let Some(e) = lk.holds(evidence_id@) {
                        lemma_three_kinds(RecordKind::Capture, RecordKind::Revision, RecordKind::Observation, e.kind_of());
                    }
                    lemma_seen_step(seen@, before_seen, estimate.evidence_record_ids@, j as int);
                    assert(!estimate_evidence_clean(
                        lk,
                        *a,
                        goal.project_id@,
                        estimate.evidence_record_ids@,
                        j as int,
                        text_opt(*cutoff_at),
                    ));
                    lemma_clean_prefix(lk, *a, goal.project_id@, estimate.evidence_record_ids@, j as int, text_opt(*cutoff_at));
                }
                j += 1;
                continue;
            },
        };
        let ghost ev_rec = *evidence;
        let belongs = match &evidence.data {
            RecordData::Capture(capture) => match &capture.project_id {
                Some(p) => text::str_eq(p.as_str(), goal.project_id.as_str()),
                None => false,
            },
            RecordData::Revision(_) => match graph::origin_project(lk, evidence) {
                Some(p) => text::str_eq(p.as_str(), goal.project_id.as_str()),
                None => false,
            },
            RecordData::Observation(observation) => text::str_eq(
                observation.project_id.as_str(),
                goal.project_id.as_str(),
            ),
            _ => false,
        };
        if !belongs {
            report(
                issues,
                evidence_path.clone(),
                "progress_evidence_project_mismatch",
                text::owned("progress estimate evidence must belong to the assessed Project"),
            );
        }
        if evidence.seq > a.evidence_cutoff_seq {
            let mut m = text::owned("evidence was recorded at seq ");
            text::push_str(&mut m, text::int_text(evidence.seq).as_str());
            text::push_str(&mut m, ", past cutoff ");
            text::push_str(&mut m, text::int_text(a.evidence_cutoff_seq).as_str());
            report(issues, evidence_path.clone(), "evidence_after_cutoff", m);
        }
        if let Some(cutoff) = cutoff_at {
            if let Some(recorded) = util::utc_key(evidence.recorded_at.as_str()) {
                if crate::json::str_lt(cutoff.as_str(), recorded.as_str()) {
                    let mut m = text::owned("evidence was recorded at ");
                    text::push_str(&mut m, evidence.recorded_at.as_str());
                    text::push_str(&mut m, ", past cutoff ");
                    text::push_str(&mut m, a.evidence_cutoff_at.as_str());
                    report(issues, evidence_path.clone(), "evidence_after_cutoff", m);
                }
            }
            if let Some(observation) = evidence.as_observation() {
                if let Some(occurred) = util::utc_key(observation.occurred_at.as_str()) {
                    if crate::json::str_lt(cutoff.as_str(), occurred.as_str()) {
                        let mut m = text::owned("observation occurred at ");
                        text::push_str(&mut m, observation.occurred_at.as_str());
                        text::push_str(&mut m, ", past cutoff ");
                        text::push_str(&mut m, a.evidence_cutoff_at.as_str());
                        report(issues, evidence_path, "evidence_after_cutoff", m);
                    }
                }
            }
        }
        proof {
            lemma_seen_step(seen@, before_seen, estimate.evidence_record_ids@, j as int);
            assert(belongs == evidence_belongs(lk, ev_rec, goal.project_id@));
            assert(estimate_evidence_clean(
                lk,
                *a,
                goal.project_id@,
                estimate.evidence_record_ids@,
                j as int,
                text_opt(*cutoff_at),
            ) <==> issues@.len() == start_len);
            lemma_clean_prefix(lk, *a, goal.project_id@, estimate.evidence_record_ids@, j as int, text_opt(*cutoff_at));
        }
        j += 1;
    }
}

/// Criterion `k` neither refuses nor lacks support for its `met` result.
pub open spec fn quant_clean(
    lk: &Overlay,
    a: crate::model::AssessmentData,
    goal: crate::model::GoalData,
    allowed: Seq<String>,
    k: int,
) -> bool {
    !refused_at(a, goal, allowed, k) && !unsupported_at(lk, a, goal, allowed, k)
}

/// An official `met` that raises nothing: backed by its results, citing
/// observations, one of them scoping, and every adopted quantitative
/// criterion's value within its threshold and carried by the evidence.
pub open spec fn official_met_clean(
    lk: &Overlay,
    a: crate::model::AssessmentData,
    goal: crate::model::GoalData,
    allowed: Seq<String>,
) -> bool {
    &&& met_backed(a, goal, allowed)
    &&& a.evidence_observation_ids@.len() > 0
    &&& scoped_evidence(lk, a, goal.project_id@)
    &&& forall|k: int| 0 <= k < goal.criteria@.len() ==> #[trigger] quant_clean(lk, a, goal, allowed, k)
}

proof fn lemma_quant_prefix(
    lk: &Overlay,
    a: crate::model::AssessmentData,
    goal: crate::model::GoalData,
    allowed: Seq<String>,
    k: int,
)
    requires
        0 <= k,
    ensures
        (forall|j: int| 0 <= j < k + 1 ==> #[trigger] quant_clean(lk, a, goal, allowed, j)) <==> ((forall|j: int|
            0 <= j < k ==> #[trigger] quant_clean(lk, a, goal, allowed, j)) && quant_clean(lk, a, goal, allowed, k)),
{
}

/// `met` needs every adopted required criterion met; an official `met` needs
/// observed, scoped evidence, and each quantitative one an observed value the
/// comparator accepts and an observation that carries it.
#[verifier::rlimit(40)]
#[verifier::spinoff_prover]
fn check_met(
    a: &crate::model::AssessmentData,
    goal: &crate::model::GoalData,
    allowed: &Vec<String>,
    d: &str,
    lk: &Overlay,
    issues: &mut Vec<Issue>,
)
    ensures
        final(issues)@.len() >= old(issues)@.len(),
        grew(old(issues)@, final(issues)@),
        !met_backed(*a, *goal, allowed@) ==> final(issues)@.len() > old(issues)@.len()
            && final(issues)@[old(issues)@.len() as int].is(d@ + ".status"@, "assessment_status_mismatch"),
        a.origin != ProposalOrigin::Official ==> final(issues)@.len() == old(issues)@.len() + (if met_backed(
            *a,
            *goal,
            allowed@,
        ) {
            0int
        } else {
            1int
        }),
        a.origin == ProposalOrigin::Official && a.evidence_observation_ids@.len() > 0 && (exists|k: int|
            0 <= k < goal.criteria@.len() && #[trigger] refused_at(*a, *goal, allowed@, k)) ==> has_new(
            final(issues)@,
            old(issues)@.len() as int,
            d@ + ".criteria_results"@,
            "assessment_status_mismatch",
        ),
        a.origin == ProposalOrigin::Official && a.evidence_observation_ids@.len() > 0 && (exists|k: int|
            0 <= k < goal.criteria@.len() && #[trigger] unsupported_at(lk, *a, *goal, allowed@, k)) ==> has_new(
            final(issues)@,
            old(issues)@.len() as int,
            d@ + ".evidence_observation_ids"@,
            "assessment_missing_evidence",
        ),
        a.origin == ProposalOrigin::Official ==> (final(issues)@.len() == old(issues)@.len() <==> official_met_clean(
            lk,
            *a,
            *goal,
            allowed@,
        )),
        a.origin == ProposalOrigin::Official && !scoped_evidence(lk, *a, goal.project_id@) ==> exists|i: int|
            old(issues)@.len() <= i < final(issues)@.len() && (#[trigger] final(issues)@[i]).is(
                d@ + ".evidence_observation_ids"@,
                "assessment_missing_evidence",
            ),
{
    proof {
        lemma_grew_refl(issues@);
    }
    let mut any_required = false;
    let mut all_met = true;
    let mut k: usize = 0;
    while k < goal.criteria.len()
        invariant
            0 <= k <= goal.criteria@.len(),
            any_required == exists|j: int| 0 <= j < k && adopted(#[trigger] goal.criteria@[j], allowed@),
            all_met == forall|j: int|
                0 <= j < k && adopted(#[trigger] goal.criteria@[j], allowed@) ==> has_met(
                    a.criteria_results@,
                    goal.criteria@[j].criterion_id@,
                ),
        decreases goal.criteria@.len() - k,
    {
        let c = &goal.criteria[k];
        if required_adopted(c, allowed) {
            any_required = true;
            if !result_met(&a.criteria_results, &c.criterion_id) {
                all_met = false;
            }
        }
        k += 1;
    }
    assert(any_required && all_met <==> met_backed(*a, *goal, allowed@));
    if !any_required || !all_met {
        report(
            issues,
            text::concat(d, ".status"),
            "assessment_status_mismatch",
            text::owned("met requires at least one required criterion and all required criteria met"),
        );
        proof {
            lemma_pushed_grew(old(issues)@, issues@, d@ + ".status"@, "assessment_status_mismatch");
        }
    }
    let ghost mid = issues@;
    if a.evidence_observation_ids.len() == 0 && a.origin == ProposalOrigin::Official {
        report(
            issues,
            text::concat(d, ".evidence_observation_ids"),
            "assessment_missing_evidence",
            text::owned("official met assessments need scoped observations"),
        );
        proof {
            lemma_pushed_grew(mid, issues@, d@ + ".evidence_observation_ids"@, "assessment_missing_evidence");
            lemma_grew_trans(old(issues)@, mid, issues@);
            assert(issues@[mid.len() as int].is(d@ + ".evidence_observation_ids"@, "assessment_missing_evidence"));
            if !met_backed(*a, *goal, allowed@) {
                assert(issues@[old(issues)@.len() as int] == mid[old(issues)@.len() as int]);
            }
        }
    }
    if a.origin != ProposalOrigin::Official || a.evidence_observation_ids.len() == 0 {
        return;
    }
    let ghost mid2 = issues@;
    let mut evidence: Vec<&ObservationData> = Vec::new();
    let mut i: usize = 0;
    while i < a.evidence_observation_ids.len()
        invariant
            0 <= i <= a.evidence_observation_ids@.len(),
            forall|m: int| #![trigger evidence@[m]]
                0 <= m < evidence@.len() ==> exists|j: int|
                    0 <= j < i && (lk.holds((#[trigger] a.evidence_observation_ids@[j])@) matches Some(rec)
                        && rec.data == RecordData::Observation(*evidence@[m])),
            forall|j: int|
                0 <= j < i ==> (lk.holds((#[trigger] a.evidence_observation_ids@[j])@) matches Some(rec)
                    ==> (rec.data matches RecordData::Observation(o) ==> exists|m: int|
                        0 <= m < evidence@.len() && *evidence@[m] == o)),
        decreases a.evidence_observation_ids@.len() - i,
    {
        let ghost before = evidence@;
        if let Some(rec) = lk.get(a.evidence_observation_ids[i].as_str()) {
            if let Some(o) = rec.as_observation() {
                evidence.push(o);
                proof {
                    assert(evidence@[before.len() as int] == o);
                    assert forall|m: int| #![trigger evidence@[m]]
                        0 <= m < evidence@.len() implies exists|j: int|
                            0 <= j < i + 1 && (lk.holds((#[trigger] a.evidence_observation_ids@[j])@) matches Some(rec)
                                && rec.data == RecordData::Observation(*evidence@[m])) by {
                        if m < before.len() {
                            assert(evidence@[m] == before[m]);
                        } else {
                            assert(lk.holds(a.evidence_observation_ids@[i as int]@) == Some(*rec));
                        }
                    }
                    assert forall|j: int|
                        0 <= j < i + 1 implies (lk.holds((#[trigger] a.evidence_observation_ids@[j])@) matches Some(rec)
                            ==> (rec.data matches RecordData::Observation(o) ==> exists|m: int|
                                0 <= m < evidence@.len() && *evidence@[m] == o)) by {
                        if j < i {
                            if let Some(rec2) = lk.holds(a.evidence_observation_ids@[j]@) {
                                if let RecordData::Observation(o2) = rec2.data {
                                    let m = choose|m: int| 0 <= m < before.len() && *before[m] == o2;
                                    assert(evidence@[m] == before[m]);
                                }
                            }
                        } else {
                            assert(*evidence@[before.len() as int] == *o);
                        }
                    }
                }
            }
        }
        i += 1;
    }
    assert(mirrors(lk, a.evidence_observation_ids@, evidence@)) by {
        reveal(mirrors);
    }
    let mut scoped = false;
    let mut e: usize = 0;
    while e < evidence.len()
        invariant
            0 <= e <= evidence@.len(),
            scoped == exists|m: int| 0 <= m < e && scoping(*(#[trigger] evidence@[m]), goal.project_id@, a.target_revision_id@),
        decreases evidence@.len() - e,
    {
        let o = evidence[e];
        if o.status == ObservationStatus::Observed && text::str_eq(
            o.project_id.as_str(),
            goal.project_id.as_str(),
        ) && is_target(&o.target_revision_id, &a.target_revision_id) {
            scoped = true;
        }
        e += 1;
    }
    proof {
        if scoped_evidence(lk, *a, goal.project_id@) {
            let j = choose|j: int|
                0 <= j < a.evidence_observation_ids@.len() && (lk.holds((#[trigger] a.evidence_observation_ids@[j])@) matches Some(
                    rec,
                ) && (rec.data matches RecordData::Observation(o) && scoping(o, goal.project_id@, a.target_revision_id@)));
            if let Some(rec) = lk.holds(a.evidence_observation_ids@[j]@) {
                if let RecordData::Observation(o) = rec.data {
                    let m = choose|m: int| 0 <= m < evidence@.len() && *evidence@[m] == o;
                    assert(scoping(*evidence@[m], goal.project_id@, a.target_revision_id@));
                }
            }
        }
        if scoped {
            let m = choose|m: int| 0 <= m < evidence@.len() && scoping(*(#[trigger] evidence@[m]), goal.project_id@, a.target_revision_id@);
            let j = choose|j: int|
                0 <= j < a.evidence_observation_ids@.len() && (lk.holds((#[trigger] a.evidence_observation_ids@[j])@) matches Some(rec)
                    && rec.data == RecordData::Observation(*evidence@[m]));
            assert(a.evidence_observation_ids@[j] == a.evidence_observation_ids@[j]);
        }
        assert(scoped == scoped_evidence(lk, *a, goal.project_id@));
    }
    if !scoped {
        report(
            issues,
            text::concat(d, ".evidence_observation_ids"),
            "assessment_missing_evidence",
            text::owned(
                "official met needs at least one observed, scoped evidence value; failed, invalid, not_observed, and negative records are context only",
            ),
        );
        proof {
            lemma_pushed_grew(mid2, issues@, d@ + ".evidence_observation_ids"@, "assessment_missing_evidence");
        }
    } else {
        proof {
            lemma_grew_refl(issues@);
        }
    }
    let ghost after_scope = issues@;
    proof {
        lemma_grew_refl(issues@);
    }
    let ghost pre_clean = met_backed(*a, *goal, allowed@) && scoped_evidence(lk, *a, goal.project_id@);
    assert(issues@.len() == old(issues)@.len() <==> pre_clean);
    let mut k: usize = 0;
    while k < goal.criteria.len()
        invariant
            issues@.len() >= old(issues)@.len(),
            grew(mid2, issues@),
            grew(after_scope, issues@),
            mid2.len() >= old(issues)@.len(),
            0 <= k <= goal.criteria@.len(),
            (exists|j: int| 0 <= j < k && #[trigger] refused_at(*a, *goal, allowed@, j)) ==> has_new(
                issues@,
                old(issues)@.len() as int,
                d@ + ".criteria_results"@,
                "assessment_status_mismatch",
            ),
            mirrors(lk, a.evidence_observation_ids@, evidence@),
            (exists|j: int| 0 <= j < k && #[trigger] unsupported_at(lk, *a, *goal, allowed@, j)) ==> has_new(
                issues@,
                old(issues)@.len() as int,
                d@ + ".evidence_observation_ids"@,
                "assessment_missing_evidence",
            ),
            a.origin == ProposalOrigin::Official,
            a.evidence_observation_ids@.len() > 0,
            issues@.len() == old(issues)@.len() <==> (pre_clean && forall|j: int|
                0 <= j < k ==> #[trigger] quant_clean(lk, *a, *goal, allowed@, j)),
        decreases goal.criteria@.len() - k,
    {
        let criterion = &goal.criteria[k];
        let ghost k0 = k as int;
        let ghost start = issues@;
        proof {
            lemma_quant_prefix(lk, *a, *goal, allowed@, k0);
        }
        let ghost had = exists|j: int| 0 <= j < k && #[trigger] refused_at(*a, *goal, allowed@, j);
        k += 1;
        if !required_adopted(criterion, allowed) || criterion.kind != CriterionKind::Quantitative {
            proof {
                assert(!refused_at(*a, *goal, allowed@, k0));
                if exists|j: int| 0 <= j < k && #[trigger] refused_at(*a, *goal, allowed@, j) {
                    let j = choose|j: int| 0 <= j < k && #[trigger] refused_at(*a, *goal, allowed@, j);
                    assert(j < k0);
                }
                assert(!unsupported_at(lk, *a, *goal, allowed@, k0));
                if exists|j: int| 0 <= j < k && #[trigger] unsupported_at(lk, *a, *goal, allowed@, j) {
                    let j = choose|j: int| 0 <= j < k && #[trigger] unsupported_at(lk, *a, *goal, allowed@, j);
                    assert(j < k0);
                }
                assert(quant_clean(lk, *a, *goal, allowed@, k0));
            }
            continue;
        }
        let mut found: Option<&crate::model::CriterionResult> = None;
        let mut r: usize = 0;
        assert(a.criteria_results@.take(0) =~= Seq::<crate::model::CriterionResult>::empty());
        while r < a.criteria_results.len()
            invariant
                0 <= r <= a.criteria_results@.len(),
                criterion == goal.criteria@[k0],
                match found {
                    Some(x) => first_met(a.criteria_results@.take(r as int), criterion.criterion_id@) == Some(*x),
                    None => first_met(a.criteria_results@.take(r as int), criterion.criterion_id@) is None,
                },
            decreases a.criteria_results@.len() - r,
        {
            assert(a.criteria_results@.take(r + 1).drop_last() =~= a.criteria_results@.take(r as int));
            let res = &a.criteria_results[r];
            if found.is_none() && text::str_eq(res.criterion_id.as_str(), criterion.criterion_id.as_str())
                && res.status == JudgeStatus::Met {
                found = Some(res);
            }
            r += 1;
        }
        assert(a.criteria_results@.take(a.criteria_results@.len() as int) =~= a.criteria_results@);
        let result = match found {
            Some(x) => x,
            None => {
                proof {
                    assert(!refused_at(*a, *goal, allowed@, k0));
                    if exists|j: int| 0 <= j < k && #[trigger] refused_at(*a, *goal, allowed@, j) {
                        let j = choose|j: int| 0 <= j < k && #[trigger] refused_at(*a, *goal, allowed@, j);
                        assert(j < k0);
                    }
                    assert(!unsupported_at(lk, *a, *goal, allowed@, k0));
                    if exists|j: int| 0 <= j < k && #[trigger] unsupported_at(lk, *a, *goal, allowed@, j) {
                        let j = choose|j: int| 0 <= j < k && #[trigger] unsupported_at(lk, *a, *goal, allowed@, j);
                        assert(j < k0);
                    }
                    assert(quant_clean(lk, *a, *goal, allowed@, k0));
                }
                continue;
            },
        };
        let observed_value = match &result.observed_value {
            Some(v) => v,
            None => {
                let mut m = text::owned("quantitative met criterion '");
                text::push_str(&mut m, criterion.criterion_id.as_str());
                text::push_str(&mut m, "' needs observed_value");
                let ghost pre = issues@;
                report(issues, text::concat(d, ".criteria_results"), "assessment_status_mismatch", m);
                proof {
                    lemma_pushed_grew(pre, issues@, d@ + ".criteria_results"@, "assessment_status_mismatch");
                    lemma_grew_trans(mid2, pre, issues@);
                    lemma_grew_trans(after_scope, pre, issues@);
                    lemma_has_new_grew(start, issues@, old(issues)@.len() as int, d@ + ".evidence_observation_ids"@, "assessment_missing_evidence");
                    assert(!unsupported_at(lk, *a, *goal, allowed@, k0));
                    if exists|j: int| 0 <= j < k && #[trigger] unsupported_at(lk, *a, *goal, allowed@, j) {
                        let j = choose|j: int| 0 <= j < k && #[trigger] unsupported_at(lk, *a, *goal, allowed@, j);
                        assert(j < k0);
                    }
                    reveal(has_new);
                    assert(issues@[pre.len() as int].is(d@ + ".criteria_results"@, "assessment_status_mismatch"));
                    assert(has_new(issues@, old(issues)@.len() as int, d@ + ".criteria_results"@, "assessment_status_mismatch"));
                    assert(refused_at(*a, *goal, allowed@, k0));
                    assert(!quant_clean(lk, *a, *goal, allowed@, k0));
                }
                continue;
            },
        };
        let accepted = match (&criterion.comparator, &criterion.threshold) {
            (Some(c), Some(t)) => comparator_accepts(*c, observed_value, t),
            _ => false,
        };
        assert(accepted == !quantity_refused(*criterion, *result));
        if !accepted {
            let mut m = text::owned("observed_value contradicts the comparator for met criterion '");
            text::push_str(&mut m, criterion.criterion_id.as_str());
            text::push_str(&mut m, "'");
            let ghost pre = issues@;
            report(issues, text::concat(d, ".criteria_results"), "assessment_status_mismatch", m);
            proof {
                lemma_pushed_grew(pre, issues@, d@ + ".criteria_results"@, "assessment_status_mismatch");
                lemma_grew_trans(mid2, pre, issues@);
                    lemma_grew_trans(after_scope, pre, issues@);
                lemma_has_new_grew(start, issues@, old(issues)@.len() as int, d@ + ".evidence_observation_ids"@, "assessment_missing_evidence");
                reveal(has_new);
                assert(issues@[pre.len() as int].is(d@ + ".criteria_results"@, "assessment_status_mismatch"));
                assert(has_new(issues@, old(issues)@.len() as int, d@ + ".criteria_results"@, "assessment_status_mismatch"));
                assert(refused_at(*a, *goal, allowed@, k0));
            }
        } else {
            proof {
                lemma_grew_refl(issues@);
                assert(!refused_at(*a, *goal, allowed@, k0));
                lemma_has_new_grew(start, issues@, old(issues)@.len() as int, d@ + ".criteria_results"@, "assessment_status_mismatch");
                if exists|j: int| 0 <= j < k && #[trigger] refused_at(*a, *goal, allowed@, j) {
                    let j = choose|j: int| 0 <= j < k && #[trigger] refused_at(*a, *goal, allowed@, j);
                    assert(j < k0);
                }
            }
        }
        let ghost after_accept = issues@;
        assert(has_new(start, old(issues)@.len() as int, d@ + ".evidence_observation_ids"@, "assessment_missing_evidence") ==> has_new(after_accept, old(issues)@.len() as int, d@ + ".evidence_observation_ids"@, "assessment_missing_evidence"));
        assert((exists|j: int| 0 <= j < k && #[trigger] refused_at(*a, *goal, allowed@, j)) ==> has_new(
            after_accept,
            old(issues)@.len() as int,
            d@ + ".criteria_results"@,
            "assessment_status_mismatch",
        ));
        let mut supported = false;
        let mut e: usize = 0;
        while e < evidence.len()
            invariant
                0 <= e <= evidence@.len(),
                supported == exists|m: int|
                    0 <= m < e && carries_value(
                        *(#[trigger] evidence@[m]),
                        *criterion,
                        observed_value.parts(),
                        goal.project_id@,
                        a.target_revision_id@,
                    ),
            decreases evidence@.len() - e,
        {
            if observation_supports_quantitative_met(
                evidence[e],
                criterion,
                observed_value,
                &goal.project_id,
                &a.target_revision_id,
            ) {
                supported = true;
            }
            e += 1;
        }
        if !supported {
            let mut m = text::owned("met criterion '");
            text::push_str(&mut m, criterion.criterion_id.as_str());
            text::push_str(
                &mut m,
                "' needs an observed evidence value with the same metric and value",
            );
            let ghost pre = issues@;
            report(issues, text::concat(d, ".evidence_observation_ids"), "assessment_missing_evidence", m);
            proof {
                lemma_pushed_grew(pre, issues@, d@ + ".evidence_observation_ids"@, "assessment_missing_evidence");
                lemma_grew_trans(mid2, pre, issues@);
                    lemma_grew_trans(after_scope, pre, issues@);
                lemma_has_new_grew(after_accept, issues@, old(issues)@.len() as int, d@ + ".criteria_results"@, "assessment_status_mismatch");
                reveal(has_new);
                assert(issues@[pre.len() as int].is(d@ + ".evidence_observation_ids"@, "assessment_missing_evidence"));
                assert(has_new(issues@, old(issues)@.len() as int, d@ + ".evidence_observation_ids"@, "assessment_missing_evidence"));
                lemma_mirror_carries(lk, *a, evidence@, *criterion, observed_value.parts(), goal.project_id@);
                assert(unsupported_at(lk, *a, *goal, allowed@, k0));
            }
        } else {
            proof {
                lemma_mirror_carries(lk, *a, evidence@, *criterion, observed_value.parts(), goal.project_id@);
                assert(!unsupported_at(lk, *a, *goal, allowed@, k0));
                if exists|j: int| 0 <= j < k && #[trigger] unsupported_at(lk, *a, *goal, allowed@, j) {
                    let j = choose|j: int| 0 <= j < k && #[trigger] unsupported_at(lk, *a, *goal, allowed@, j);
                    assert(j < k0);
                }
            }
        }
    }
    proof {
        lemma_grew_trans(old(issues)@, mid2, issues@);
        if !met_backed(*a, *goal, allowed@) {
            assert(issues@[old(issues)@.len() as int] == mid2[old(issues)@.len() as int]);
        }
        if !scoped {
            assert(issues@[mid2.len() as int] == after_scope[mid2.len() as int]);
            assert(issues@[mid2.len() as int].is(d@ + ".evidence_observation_ids"@, "assessment_missing_evidence"));
        }
    }
}

/// Evidence observations: they exist, belong to the assessed project and
/// exact target, and did not occur after the cutoff.
/// The path of the `i`-th evidence observation of an assessment at `d`.
pub open spec fn evidence_path(d: Seq<char>, i: int) -> Seq<char> {
    indexed(d + ".evidence_observation_ids"@, i)
}

pub open spec fn text_opt(o: Option<String>) -> Option<Seq<char>> {
    match o {
        Some(x) => Some(x@),
        None => None,
    }
}

/// The observation `id` occurred after the cutoff time, both compared as
/// UTC keys (so an offset such as `+09:00` is taken into account).
pub open spec fn occurred_after_cutoff(lk: &Overlay, id: Seq<char>, cutoff_key: Option<Seq<char>>) -> bool {
    &&& cutoff_key matches Some(c)
    &&& lk.holds(id) matches Some(rec)
    &&& rec.data matches RecordData::Observation(o)
    &&& util::spec_utc_key(o.occurred_at@) matches Some(k)
    &&& crate::json::seq_lt(c, k)
}

/// The observation `id` is outside the assessed project or exact target.
pub open spec fn evidence_off_scope(lk: &Overlay, id: Seq<char>, project: Seq<char>, target: Seq<char>) -> bool {
    &&& lk.holds(id) matches Some(rec)
    &&& rec.data matches RecordData::Observation(o)
    &&& !(o.project_id@ == project && (o.target_revision_id matches Some(t) && t@ == target))
}

/// A cited observation that raises nothing: it is on record as an
/// observation, of the assessed project and exact target, and neither
/// recorded past the cutoff seq nor occurred past the cutoff time.
pub open spec fn evidence_clean(
    lk: &Overlay,
    id: Seq<char>,
    project: Seq<char>,
    target: Seq<char>,
    cutoff_seq: i64,
    cutoff_key: Option<Seq<char>>,
) -> bool {
    &&& needed(lk, id, seq![RecordKind::Observation]) is Some
    &&& !evidence_off_scope(lk, id, project, target)
    &&& !recorded_past_cutoff_seq(lk, id, cutoff_seq)
    &&& !occurred_after_cutoff(lk, id, cutoff_key)
}

#[verifier::rlimit(40)]
#[verifier::spinoff_prover]
fn assess_observations(
    a: &crate::model::AssessmentData,
    d: &str,
    lk: &Overlay,
    goal: &crate::model::GoalData,
    cutoff_at: &Option<String>,
    issues: &mut Vec<Issue>,
)
    ensures
        final(issues)@.len() >= old(issues)@.len(),
        keeps(old(issues)@, final(issues)@),
        forall|i: int|
            0 <= i < a.evidence_observation_ids@.len() && recorded_past_cutoff_seq(
                lk,
                (#[trigger] a.evidence_observation_ids@[i])@,
                a.evidence_cutoff_seq,
            ) ==> has_new(final(issues)@, old(issues)@.len() as int, evidence_path(d@, i), "evidence_after_cutoff"),
        forall|i: int|
            0 <= i < a.evidence_observation_ids@.len() && occurred_after_cutoff(
                lk,
                (#[trigger] a.evidence_observation_ids@[i])@,
                text_opt(*cutoff_at),
            ) ==> has_new(final(issues)@, old(issues)@.len() as int, evidence_path(d@, i), "evidence_after_cutoff"),
        forall|i: int|
            0 <= i < a.evidence_observation_ids@.len() && evidence_off_scope(
                lk,
                (#[trigger] a.evidence_observation_ids@[i])@,
                goal.project_id@,
                a.target_revision_id@,
            ) ==> has_new(final(issues)@, old(issues)@.len() as int, evidence_path(d@, i), "evidence_scope_mismatch"),
        final(issues)@.len() == old(issues)@.len() <==> forall|i: int|
            0 <= i < a.evidence_observation_ids@.len() ==> evidence_clean(
                lk,
                (#[trigger] a.evidence_observation_ids@[i])@,
                goal.project_id@,
                a.target_revision_id@,
                a.evidence_cutoff_seq,
                text_opt(*cutoff_at),
            ),
{
    proof {
        lemma_keeps_refl(issues@);
    }
    let ghost base = old(issues)@.len() as int;
    let mut i: usize = 0;
    while i < a.evidence_observation_ids.len()
        invariant
            0 <= i <= a.evidence_observation_ids@.len(),
            issues@.len() >= old(issues)@.len(),
            base == old(issues)@.len(),
            keeps(old(issues)@, issues@),
            forall|j: int|
                0 <= j < i && recorded_past_cutoff_seq(
                    lk,
                    (#[trigger] a.evidence_observation_ids@[j])@,
                    a.evidence_cutoff_seq,
                ) ==> has_new(issues@, base, evidence_path(d@, j), "evidence_after_cutoff"),
            forall|j: int|
                0 <= j < i && occurred_after_cutoff(
                    lk,
                    (#[trigger] a.evidence_observation_ids@[j])@,
                    text_opt(*cutoff_at),
                ) ==> has_new(issues@, base, evidence_path(d@, j), "evidence_after_cutoff"),
            forall|j: int|
                0 <= j < i && evidence_off_scope(
                    lk,
                    (#[trigger] a.evidence_observation_ids@[j])@,
                    goal.project_id@,
                    a.target_revision_id@,
                ) ==> has_new(issues@, base, evidence_path(d@, j), "evidence_scope_mismatch"),
            issues@.len() == base <==> forall|j: int|
                0 <= j < i ==> evidence_clean(
                    lk,
                    (#[trigger] a.evidence_observation_ids@[j])@,
                    goal.project_id@,
                    a.target_revision_id@,
                    a.evidence_cutoff_seq,
                    text_opt(*cutoff_at),
                ),
        decreases a.evidence_observation_ids@.len() - i,
    {
        let ghost start = issues@;
        let ghost clean_before = forall|j: int|
            0 <= j < i ==> evidence_clean(
                lk,
                (#[trigger] a.evidence_observation_ids@[j])@,
                goal.project_id@,
                a.target_revision_id@,
                a.evidence_cutoff_seq,
                text_opt(*cutoff_at),
            );
        let ghost id = a.evidence_observation_ids@[i as int]@;
        let op = index_path(text::concat(d, ".evidence_observation_ids").as_str(), i);
        assert(op@ == evidence_path(d@, i as int));
        let obs = match need(
            lk,
            issues,
            op.as_str(),
            a.evidence_observation_ids[i].as_str(),
            &one_kind(RecordKind::Observation),
        ) {
            Some(o) => o,
            None => {
                proof {
                    if let Some(o) = lk.holds(a.evidence_observation_ids@[i as int]@) {
                        lemma_one_kind(RecordKind::Observation, o.kind_of());
                    }
                    assert(!evidence_clean(
                        lk,
                        a.evidence_observation_ids@[i as int]@,
                        goal.project_id@,
                        a.target_revision_id@,
                        a.evidence_cutoff_seq,
                        text_opt(*cutoff_at),
                    ));
                }
                i += 1;
                continue;
            },
        };
        proof {
            lemma_one_kind(RecordKind::Observation, obs.kind_of());
        }
        assert(issues@ == start);
        let ghost mid_len = issues@.len();
        if let Some(o) = obs.as_observation() {
            if !text::str_eq(o.project_id.as_str(), goal.project_id.as_str()) || !is_target(
                &o.target_revision_id,
                &a.target_revision_id,
            ) {
                report(
                    issues,
                    op.clone(),
                    "evidence_scope_mismatch",
                    text::owned(
                        "evidence must belong to the assessed Project and exact target revision; indirect reuse needs a new applicability observation",
                    ),
                );
                proof {
                    reveal(has_new);
                    assert(issues@[issues@.len() - 1].is(evidence_path(d@, i as int), "evidence_scope_mismatch"));
                    assert(has_new(issues@, base, evidence_path(d@, i as int), "evidence_scope_mismatch"));
                }
            }
        }
        if obs.seq > a.evidence_cutoff_seq {
            let mut m = text::owned("observation was recorded at seq ");
            text::push_str(&mut m, text::int_text(obs.seq).as_str());
            text::push_str(&mut m, ", past cutoff ");
            text::push_str(&mut m, text::int_text(a.evidence_cutoff_seq).as_str());
            report(issues, op.clone(), "evidence_after_cutoff", m);
            proof {
                reveal(has_new);
                assert(issues@[issues@.len() - 1].is(evidence_path(d@, i as int), "evidence_after_cutoff"));
                assert(has_new(issues@, base, evidence_path(d@, i as int), "evidence_after_cutoff"));
            }
        }
        if let Some(o) = obs.as_observation() {
            if let Some(cutoff) = cutoff_at {
                if let Some(occurred) = util::utc_key(o.occurred_at.as_str()) {
                    if crate::json::str_lt(cutoff.as_str(), occurred.as_str()) {
                        let mut m = text::owned("observation occurred at ");
                        text::push_str(&mut m, o.occurred_at.as_str());
                        text::push_str(&mut m, ", past cutoff ");
                        text::push_str(&mut m, a.evidence_cutoff_at.as_str());
                        report(issues, op, "evidence_after_cutoff", m);
                        proof {
                            reveal(has_new);
                            assert(issues@[issues@.len() - 1].is(evidence_path(d@, i as int), "evidence_after_cutoff"));
                            assert(has_new(issues@, base, evidence_path(d@, i as int), "evidence_after_cutoff"));
                        }
                    }
                }
            }
        }
        proof {
            let id = a.evidence_observation_ids@[i as int]@;
            let here = evidence_clean(
                lk,
                id,
                goal.project_id@,
                a.target_revision_id@,
                a.evidence_cutoff_seq,
                text_opt(*cutoff_at),
            );
            assert(here <==> issues@.len() == start.len());
            assert(issues@.len() == base <==> (clean_before && here));
        }
        i += 1;
    }
}


// ---------------------------------------------------------------- links

/// Record kinds a link of `t` accepts at its `from` end.
pub open spec fn link_from_kinds(t: LinkType) -> Seq<RecordKind> {
    match t {
        LinkType::Derived | LinkType::Applies | LinkType::Implements | LinkType::Depends => seq![
            RecordKind::Entity,
        ],
        LinkType::Similar => seq![RecordKind::Revision],
        LinkType::Support | LinkType::Contradict => seq![
            RecordKind::Observation,
            RecordKind::Capture,
            RecordKind::Revision,
        ],
        LinkType::Impact => seq![RecordKind::Entity, RecordKind::Revision],
    }
}

/// Record kinds a link of `t` accepts at its `to` end.
pub open spec fn link_to_kinds(t: LinkType) -> Seq<RecordKind> {
    match t {
        LinkType::Derived | LinkType::Applies | LinkType::Implements | LinkType::Depends => seq![
            RecordKind::Entity,
        ],
        LinkType::Similar => seq![RecordKind::Revision],
        LinkType::Support | LinkType::Contradict => seq![
            RecordKind::Revision,
            RecordKind::Assessment,
            RecordKind::Goal,
        ],
        LinkType::Impact => seq![RecordKind::Goal],
    }
}

fn from_kinds(t: LinkType) -> (r: Vec<RecordKind>)
    ensures
        r@ == link_from_kinds(t),
{
    match t {
        LinkType::Derived | LinkType::Applies | LinkType::Implements | LinkType::Depends => one_kind(
            RecordKind::Entity,
        ),
        LinkType::Similar => one_kind(RecordKind::Revision),
        LinkType::Support | LinkType::Contradict => three_kinds(
            RecordKind::Observation,
            RecordKind::Capture,
            RecordKind::Revision,
        ),
        LinkType::Impact => two_kinds(RecordKind::Entity, RecordKind::Revision),
    }
}

fn to_kinds(t: LinkType) -> (r: Vec<RecordKind>)
    ensures
        r@ == link_to_kinds(t),
{
    match t {
        LinkType::Derived | LinkType::Applies | LinkType::Implements | LinkType::Depends => one_kind(
            RecordKind::Entity,
        ),
        LinkType::Similar => one_kind(RecordKind::Revision),
        LinkType::Support | LinkType::Contradict => three_kinds(
            RecordKind::Revision,
            RecordKind::Assessment,
            RecordKind::Goal,
        ),
        LinkType::Impact => one_kind(RecordKind::Goal),
    }
}

/// A link end that names no record, or a record of a kind the link type does
/// not accept there.
pub open spec fn bad_end<L: Lookup>(lk: &L, id: Seq<char>, kinds: Seq<RecordKind>) -> bool {
    match lk.holds(id) {
        Some(r) => !kind_listed(kinds, r.kind_of()),
        None => true,
    }
}

fn check_link_end<L: Lookup>(
    lk: &L,
    issues: &mut Vec<Issue>,
    path: String,
    id: &str,
    kinds: &Vec<RecordKind>,
    link_type: LinkType,
)
    ensures
        final(issues)@.len() >= old(issues)@.len(),
        bad_end(lk, id@, kinds@) ==> final(issues)@.len() > old(issues)@.len(),
        bad_end(lk, id@, kinds@) ==> has_new(final(issues)@, old(issues)@.len() as int, path@, end_code(lk, id@)),
        keeps(old(issues)@, final(issues)@),        final(issues)@.len() == old(issues)@.len() <==> !bad_end(lk, id@, kinds@),
{
    proof {
        lemma_keeps_refl(issues@);
    }
    let ghost p = path@;
    match lk.get(id) {
        None => {
            report(issues, path, "unknown_reference", text::concat(id, " not found"));
            proof {
                reveal(has_new);
                assert(issues@[issues@.len() - 1].is(p, "unknown_reference"));
            }
        },
        Some(r) => {
            if !kind_in(kinds, r.kind()) {
                let mut m = text::owned("link_type '");
                text::push_str(&mut m, link_type.as_str());
                text::push_str(&mut m, "' does not accept a '");
                text::push_str(&mut m, r.kind().as_str());
                text::push_str(&mut m, "' record here, expected ");
                text::push_str(&mut m, kind_names(kinds).as_str());
                report(issues, path, "invalid_link_endpoints", m);
                proof {
                    reveal(has_new);
                    assert(issues@[issues@.len() - 1].is(p, "invalid_link_endpoints"));
                }
            }
        },
    }
    proof {
        if let Some(r) = lk.holds(id@) {
            assert(r.kind_of() == r.kind_of());
        }
    }
}

/// The code a bad link end is refused with.
pub open spec fn end_code<L: Lookup>(lk: &L, id: Seq<char>) -> &'static str {
    if lk.holds(id) is None {
        "unknown_reference"
    } else {
        "invalid_link_endpoints"
    }
}

/// The impact claim raises nothing.
pub open spec fn impact_clean(lk: &Overlay, l: LinkData) -> bool {
    match l.impact {
        None => l.link_type != LinkType::Impact,
        Some(im) => {
            &&& l.link_type == LinkType::Impact
            &&& 1 <= im.scope@.len() <= 500
            &&& match im.evidence_kind {
                EvidenceKind::Observed => im.observation_ids@.len() > 0 && forall|q: int|
                    0 <= q < im.observation_ids@.len() ==> needed(
                        lk,
                        (#[trigger] im.observation_ids@[q])@,
                        seq![RecordKind::Observation],
                    ) is Some,
                EvidenceKind::Estimated => im.observation_ids@.len() == 0 && !blank_or_absent(im.method),
            }
        },
    }
}

/// The similarity claim raises nothing.
pub open spec fn similarity_clean(l: LinkData) -> bool {
    match l.similarity {
        None => l.link_type != LinkType::Similar,
        Some(sim) => {
            &&& l.link_type == LinkType::Similar
            &&& crate::num::num_order(sim.score.parts(), (true, seq![1u8], Seq::<u8>::empty())) >= 0
            &&& crate::num::num_order(sim.score.parts(), (false, crate::num::whole_digits(1), Seq::<u8>::empty())) <= 0
            &&& 1 <= sim.method@.len() <= 200
        },
    }
}

/// A link raises nothing: both ends have kinds its type accepts, and its
/// impact and similarity claims are clean.
pub open spec fn link_clean(lk: &Overlay, l: LinkData) -> bool {
    &&& !bad_end(lk, l.from_id@, link_from_kinds(l.link_type))
    &&& !bad_end(lk, l.to_id@, link_to_kinds(l.link_type))
    &&& impact_clean(lk, l)
    &&& similarity_clean(l)
}

/// Link rules: endpoint kinds by link type, the impact claim only on impact
/// links (estimated with a method, observed with observations), and the
/// similarity claim only on similarity links (score in `-1..=1`).
pub fn validate_link(l: &LinkData, d: &str, lk: &Overlay, issues: &mut Vec<Issue>)
    ensures
        final(issues)@.len() >= old(issues)@.len(),
        (bad_end(lk, l.from_id@, link_from_kinds(l.link_type)) || bad_end(
            lk,
            l.to_id@,
            link_to_kinds(l.link_type),
        )) ==> final(issues)@.len() > old(issues)@.len(),
        (l.link_type == LinkType::Impact && l.impact is None) ==> final(issues)@.len() > old(issues)@.len(),
        (l.link_type != LinkType::Impact && l.impact is Some) ==> final(issues)@.len() > old(issues)@.len(),
        bad_end(lk, l.from_id@, link_from_kinds(l.link_type)) ==> has_new(
            final(issues)@,
            old(issues)@.len() as int,
            d@ + ".from_id"@,
            end_code(lk, l.from_id@),
        ),
        bad_end(lk, l.to_id@, link_to_kinds(l.link_type)) ==> has_new(
            final(issues)@,
            old(issues)@.len() as int,
            d@ + ".to_id"@,
            end_code(lk, l.to_id@),
        ),
        (l.link_type == LinkType::Impact) != (l.impact is Some) ==> has_new(
            final(issues)@,
            old(issues)@.len() as int,
            d@ + ".impact"@,
            "invalid_field",
        ),
        (l.link_type == LinkType::Similar) != (l.similarity is Some) ==> has_new(
            final(issues)@,
            old(issues)@.len() as int,
            d@ + ".similarity"@,
            "invalid_field",
        ),
        l.link_type == LinkType::Impact && (l.impact matches Some(im) && im.evidence_kind == EvidenceKind::Observed
            && im.observation_ids@.len() == 0) ==> has_new(
            final(issues)@,
            old(issues)@.len() as int,
            d@ + ".impact.observation_ids"@,
            "impact_evidence_mismatch",
        ),
        l.link_type == LinkType::Impact && (l.impact matches Some(im) && im.evidence_kind == EvidenceKind::Estimated
            && im.observation_ids@.len() > 0) ==> has_new(
            final(issues)@,
            old(issues)@.len() as int,
            d@ + ".impact.observation_ids"@,
            "impact_evidence_mismatch",
        ),
        l.link_type == LinkType::Impact && (l.impact matches Some(im) && im.evidence_kind == EvidenceKind::Estimated
            && blank_or_absent(im.method)) ==> has_new(
            final(issues)@,
            old(issues)@.len() as int,
            d@ + ".impact.method"@,
            "impact_evidence_mismatch",
        ),
        final(issues)@.len() == old(issues)@.len() <==> link_clean(lk, *l),
{
    let ghost base = old(issues)@.len() as int;
    check_link_end(lk, issues, text::concat(d, ".from_id"), l.from_id.as_str(), &from_kinds(l.link_type), l.link_type);
    let ghost s1 = issues@;
    check_link_end(lk, issues, text::concat(d, ".to_id"), l.to_id.as_str(), &to_kinds(l.link_type), l.link_type);
    let ghost mid = issues@;
    let ghost ends_clean = !bad_end(lk, l.from_id@, link_from_kinds(l.link_type)) && !bad_end(
        lk,
        l.to_id@,
        link_to_kinds(l.link_type),
    );
    assert(mid.len() == base <==> ends_clean);
    proof {
        lemma_keeps_trans(old(issues)@, s1, mid);
        if bad_end(lk, l.to_id@, link_to_kinds(l.link_type)) {
            reveal(has_new);
            assert(has_new(mid, base, d@ + ".to_id"@, end_code(lk, l.to_id@)));
        }
    }
    match &l.impact {
        None => {
            if l.link_type == LinkType::Impact {
                report(
                    issues,
                    text::concat(d, ".impact"),
                    "invalid_field",
                    text::owned("an impact link must carry the impact claim"),
                );
                proof {
                    reveal(has_new);
                    assert(issues@[issues@.len() - 1].is(d@ + ".impact"@, "invalid_field"));
                    assert(has_new(issues@, base, d@ + ".impact"@, "invalid_field"));
                }
            }
        },
        Some(im) => {
            if l.link_type != LinkType::Impact {
                report(
                    issues,
                    text::concat(d, ".impact"),
                    "invalid_field",
                    text::owned("only an impact link carries an impact claim"),
                );
                proof {
                    reveal(has_new);
                    assert(issues@[issues@.len() - 1].is(d@ + ".impact"@, "invalid_field"));
                    assert(has_new(issues@, base, d@ + ".impact"@, "invalid_field"));
                }
            } else {
                check_text(issues, text::concat(d, ".impact.scope").as_str(), im.scope.as_str(), 1, 500);
                match im.evidence_kind {
                    EvidenceKind::Observed => {
                        if im.observation_ids.len() == 0 {
                            report(
                                issues,
                                text::concat(d, ".impact.observation_ids"),
                                "impact_evidence_mismatch",
                                text::owned("an observed impact must cite at least one observation"),
                            );
                            proof {
                                reveal(has_new);
                                assert(issues@[issues@.len() - 1].is(
                                    d@ + ".impact.observation_ids"@,
                                    "impact_evidence_mismatch",
                                ));
                                assert(has_new(issues@, base, d@ + ".impact.observation_ids"@, "impact_evidence_mismatch"));
                            }
                        }
                        let mut i: usize = 0;
                        while i < im.observation_ids.len()
                            invariant
                                issues@.len() >= mid.len(),
                                keeps(mid, issues@),
                                0 <= i <= im.observation_ids@.len(),
                                mid.len() >= base,
                                issues@.len() == base <==> (ends_clean && 1 <= im.scope@.len() <= 500 && im.observation_ids@.len() > 0
                                    && forall|q: int|
                                    0 <= q < i ==> needed(
                                        lk,
                                        (#[trigger] im.observation_ids@[q])@,
                                        seq![RecordKind::Observation],
                                    ) is Some),
                                im.observation_ids@.len() == 0 ==> has_new(
                                    issues@,
                                    base,
                                    d@ + ".impact.observation_ids"@,
                                    "impact_evidence_mismatch",
                                ),
                            decreases im.observation_ids@.len() - i,
                        {
                            let ghost b = issues@;
                            let ghost ob = im.observation_ids@[i as int]@;
                            need(
                                lk,
                                issues,
                                index_path(text::concat(d, ".impact.observation_ids").as_str(), i).as_str(),
                                im.observation_ids[i].as_str(),
                                &one_kind(RecordKind::Observation),
                            );
                            proof {
                                lemma_keeps_trans(mid, b, issues@);
                                assert(issues@.len() == b.len() <==> needed(lk, ob, seq![RecordKind::Observation]) is Some);
                                if needed(lk, ob, seq![RecordKind::Observation]) is None {
                                    assert(needed(lk, (im.observation_ids@[i as int])@, seq![RecordKind::Observation]) is None);
                                }
                                if (forall|q: int| 0 <= q < i ==> needed(lk, (#[trigger] im.observation_ids@[q])@, seq![RecordKind::Observation]) is Some)
                                    && needed(lk, ob, seq![RecordKind::Observation]) is Some {
                                    assert forall|q: int| 0 <= q < i + 1 implies needed(
                                        lk,
                                        (#[trigger] im.observation_ids@[q])@,
                                        seq![RecordKind::Observation],
                                    ) is Some by {
                                        if q == i {
                                            assert(im.observation_ids@[q]@ == ob);
                                        }
                                    }
                                }
                            }
                            i += 1;
                        }
                    },
                    EvidenceKind::Estimated => {
                        if im.observation_ids.len() > 0 {
                            report(
                                issues,
                                text::concat(d, ".impact.observation_ids"),
                                "impact_evidence_mismatch",
                                text::owned(
                                    "an estimated impact must not cite observations; use evidence_kind 'observed'",
                                ),
                            );
                            proof {
                                reveal(has_new);
                                assert(issues@[issues@.len() - 1].is(
                                    d@ + ".impact.observation_ids"@,
                                    "impact_evidence_mismatch",
                                ));
                                assert(has_new(issues@, base, d@ + ".impact.observation_ids"@, "impact_evidence_mismatch"));
                            }
                        }
                        if is_blank_or_absent(&im.method) {
                            report(
                                issues,
                                text::concat(d, ".impact.method"),
                                "impact_evidence_mismatch",
                                text::owned("an estimated impact must state how it was estimated"),
                            );
                            proof {
                                reveal(has_new);
                                assert(issues@[issues@.len() - 1].is(d@ + ".impact.method"@, "impact_evidence_mismatch"));
                                assert(has_new(issues@, base, d@ + ".impact.method"@, "impact_evidence_mismatch"));
                            }
                        }
                    },
                }
            }
        },
    }
    let ghost after_impact = issues@;
    assert(after_impact.len() == base <==> ends_clean && impact_clean(lk, *l));
    proof {
        assert(issues@.take(mid.len() as int) =~= mid);
        lemma_keeps(mid, issues@);
    }
    match &l.similarity {
        None => {
            if l.link_type == LinkType::Similar {
                report(
                    issues,
                    text::concat(d, ".similarity"),
                    "invalid_field",
                    text::owned("a similarity link must state its score and method"),
                );
                proof {
                    reveal(has_new);
                    assert(issues@[issues@.len() - 1].is(d@ + ".similarity"@, "invalid_field"));
                }
            }
        },
        Some(sim) => {
            if l.link_type != LinkType::Similar {
                report(
                    issues,
                    text::concat(d, ".similarity"),
                    "invalid_field",
                    text::owned("only a similarity link carries a similarity score"),
                );
                proof {
                    reveal(has_new);
                    assert(issues@[issues@.len() - 1].is(d@ + ".similarity"@, "invalid_field"));
                }
            } else {
                let minus_one = Num { negative: true, int_digits: vec![1u8], frac_digits: Vec::new() };
                assert(minus_one.parts() == (true, seq![1u8], Seq::<u8>::empty())) by {
                    assert(minus_one.int_digits@ =~= seq![1u8]);
                    assert(minus_one.frac_digits@ =~= Seq::<u8>::empty());
                }
                let one = Num::from_u64(1);
                if sim.score.compare(&minus_one) < 0 || sim.score.compare(&one) > 0 {
                    report(
                        issues,
                        text::concat(d, ".similarity.score"),
                        "invalid_field",
                        text::owned("score must be within [-1, 1]"),
                    );
                }
                check_text(issues, text::concat(d, ".similarity.method").as_str(), sim.method.as_str(), 1, 200);
            }
        },
    }
    proof {
        assert(issues@.take(after_impact.len() as int) =~= after_impact);
        lemma_keeps(after_impact, issues@);
    }
    proof {
        assert(issues@.len() == base <==> link_clean(lk, *l));
    }
}


// ---------------------------------------------------------------- per kind

/// The rules whose breach this library states, record by record. Each of them
/// makes validation fail.
pub open spec fn breaks_rule(lk: &Overlay, ctx: &Context, rec: StoredRecord) -> bool {
    match rec.data {
        RecordData::Entity(e) => needed(lk, e.project_id@, seq![RecordKind::Project]) is None || (
        e.lineage_kind != LineageKind::Original) != (e.derived_from@.len() > 0),
        RecordData::Revision(r) => match owner_kind(lk, r.entity_id@) {
            None => true,
            Some(k) => {
                ||| (exists|i: int|
                    0 <= i < r.slots@.len() && (#[trigger] r.slots@[i]).revision_id@ == rec.id@)
                ||| (exists|i: int|
                    0 <= i < r.slots@.len() && breaks_containment(lk, rec.id@, k, #[trigger] r.slots@[i]))
                ||| correction_changes_numbers(lk, r)
                ||| (r.change_kind == ChangeKind::Initial && ctx.revisions_of(r.entity_id@).len() > 0)
                ||| starts_of(lk.added@, r.entity_id@) > 1
            },
        },
        RecordData::Capture(c) => match c.content_digest {
            Some(declared) => declared@ != util::spec_digest_text(c.content@),
            None => false,
        },
        RecordData::Artifact(a) => a.included_in_export,
        RecordData::Promotion(p) => needed(lk, p.candidate_id@, seq![RecordKind::Candidate]) is Some
            && ctx.was_promoted(p.candidate_id@),
        RecordData::Observation(o) => o.status != ObservationStatus::Observed && o.value is Some,
        RecordData::Goal(g) => !scope_ok(lk, g.scope),
        RecordData::Assessment(a) => !assessment_clean(lk, a),
        RecordData::Baseline(b) => !baseline_clean(lk, b),
        RecordData::Link(l) => bad_end(lk, l.from_id@, link_from_kinds(l.link_type)) || bad_end(
            lk,
            l.to_id@,
            link_to_kinds(l.link_type),
        ) || (l.link_type == LinkType::Impact) != (l.impact is Some),
        RecordData::Embedding(e) => e.dim != e.values@.len(),
        RecordData::HeadChange(_) | RecordData::Publication(_) => true,
        _ => false,
    }
}

/// Number of promotions of `candidate` among `rs`.
pub open spec fn promotions_of(rs: Seq<StoredRecord>, candidate: Seq<char>) -> nat
    decreases rs.len(),
{
    if rs.len() == 0 {
        0
    } else {
        promotions_of(rs.drop_last(), candidate) + match rs.last().data {
            RecordData::Promotion(p) => if p.candidate_id@ == candidate {
                1nat
            } else {
                0nat
            },
            _ => 0nat,
        }
    }
}

fn count_promotions(rs: &Vec<StoredRecord>, candidate: &str) -> (r: usize)
    ensures
        r == promotions_of(rs@, candidate@),
{
    let mut n: usize = 0;
    let mut i: usize = 0;
    while i < rs.len()
        invariant
            0 <= i <= rs@.len(),
            n == promotions_of(rs@.take(i as int), candidate@),
            n <= i,
        decreases rs@.len() - i,
    {
        assert(rs@.take(i + 1).drop_last() == rs@.take(i as int));
        if let RecordData::Promotion(o) = &rs[i].data {
            if text::str_eq(o.candidate_id.as_str(), candidate) {
                n += 1;
            }
        }
        i += 1;
    }
    assert(rs@.take(rs@.len() as int) == rs@);
    n
}

/// Every id is on record with the kind.
pub open spec fn all_needed(lk: &Overlay, ids: Seq<String>, k: RecordKind) -> bool {
    forall|q: int| 0 <= q < ids.len() ==> needed(lk, (#[trigger] ids[q])@, seq![k]) is Some
}

/// An optional reference is absent or on record with the kind.
pub open spec fn opt_needed(lk: &Overlay, id: Option<String>, k: RecordKind) -> bool {
    match id {
        Some(x) => needed(lk, x@, seq![k]) is Some,
        None => true,
    }
}

/// A record raises nothing, kind by kind: the rules `validate_record` applies.
pub open spec fn record_clean(lk: &Overlay, ctx: &Context, rec: StoredRecord) -> bool {
    match rec.data {
        RecordData::Project(p) => 1 <= p.title@.len() <= 200 && p.description@.len() <= 4000,
        RecordData::Entity(e) => {
            &&& needed(lk, e.project_id@, seq![RecordKind::Project]) is Some
            &&& 1 <= e.title@.len() <= 200
            &&& slugs_ok(e.tags@, limits::MAX_TAGS as int)
            &&& e.derived_from@.len() <= 16
            &&& all_needed(lk, e.derived_from@, RecordKind::Entity)
            &&& (e.lineage_kind != LineageKind::Original) == (e.derived_from@.len() > 0)
        },
        RecordData::Revision(r) => revision_clean(lk, ctx, rec.id@, r),
        RecordData::Capture(c) => {
            &&& opt_needed(lk, c.project_id, RecordKind::Project)
            &&& 1 <= c.content@.len() <= limits::MAX_CAPTURE_CHARS
            &&& (c.content_digest matches Some(x) ==> x@ == util::spec_digest_text(c.content@))
            &&& (c.occurred_at matches Some(at) ==> util::spec_utc_key(at@) is Some)
        },
        RecordData::Candidate(c) => {
            &&& needed(lk, c.project_id@, seq![RecordKind::Project]) is Some
            &&& opt_needed(lk, c.capture_id, RecordKind::Capture)
            &&& 1 <= c.title@.len() <= 200
            &&& 1 <= c.body@.len() <= limits::MAX_BODY_CHARS
            &&& !(c.origin == Origin::Ai && blank_or_absent(c.model) && blank_or_absent(c.skill))
            &&& anchor_ok(lk, c.claim_mode, c.source_anchor, c.capture_id, c.body@)
        },
        RecordData::Promotion(p) => {
            &&& needed(lk, p.candidate_id@, seq![RecordKind::Candidate]) is Some
            &&& !ctx.was_promoted(p.candidate_id@)
            &&& promotions_of(lk.added@, p.candidate_id@) <= 1
            &&& needed(lk, p.entity_id@, seq![RecordKind::Entity]) is Some
            &&& needed(lk, p.revision_id@, seq![RecordKind::Revision]) matches Some(rv)
            &&& rv.data matches RecordData::Revision(x) && x.entity_id@ == p.entity_id@
            &&& 1 <= p.reason@.len() <= 500
        },
        RecordData::Artifact(a) => {
            &&& 1 <= a.uri@.len() <= 2000
            &&& 1 <= a.digest@.len() <= 200
            &&& a.digest_alg@ == "sha256"@ && artifact_digest_format(a.digest@)
            &&& !a.included_in_export
        },
        RecordData::Observation(o) => {
            &&& needed(lk, o.project_id@, seq![RecordKind::Project]) is Some
            &&& opt_needed(lk, o.target_revision_id, RecordKind::Revision)
            &&& util::spec_utc_key(o.occurred_at@) is Some
            &&& match o.status {
                ObservationStatus::Observed => (match o.value {
                    Some(crate::json::Json::Number(_)) => true,
                    Some(crate::json::Json::Str(_)) => true,
                    Some(crate::json::Json::Bool(_)) => true,
                    _ => false,
                }) && !blank_or_absent(o.metric),
                _ => o.value is None,
            }
            &&& all_needed(lk, o.artifact_ids@, RecordKind::Artifact)
            &&& opt_needed(lk, o.capture_id, RecordKind::Capture)
        },
        RecordData::Goal(g) => {
            &&& needed(lk, g.project_id@, seq![RecordKind::Project]) is Some
            &&& 1 <= g.statement@.len() <= 2000
            &&& scope_ok(lk, g.scope)
            &&& (lk.holds(g.scope.root_revision_id@) matches Some(root) ==> (root.data matches RecordData::Revision(rr)
                && rr.entity_id@ == g.project_id@))
            &&& criteria_fine(g.criteria@)
        },
        RecordData::Baseline(b) => baseline_clean(lk, b),
        RecordData::Assessment(a) => assessment_clean(lk, a),
        RecordData::Link(l) => link_clean(lk, l),
        RecordData::Embedding(e) => {
            &&& needed(lk, e.revision_id@, seq![RecordKind::Revision]) is Some
            &&& e.dim == e.values@.len()
            &&& 0 < e.dim <= limits::MAX_EMBEDDING_DIM
            &&& 1 <= e.model@.len() <= 200
        },
        RecordData::HeadChange(_) | RecordData::Publication(_) => false,
    }
}

/// Validate one record of a package against existing state and the rest of
/// the package.
pub fn validate_record(
    rec: &StoredRecord,
    path: &str,
    lk: &Overlay,
    ctx: &Context,
    issues: &mut Vec<Issue>,
    plan: &mut Plan,
)
    ensures
        final(issues)@.len() >= old(issues)@.len(),
        breaks_rule(lk, ctx, *rec) ==> final(issues)@.len() > old(issues)@.len(),
        match rec.data {
            RecordData::Assessment(a) => final(issues)@ == old(issues)@ <==> assessment_clean(lk, a),
            RecordData::Baseline(b) => final(issues)@ == old(issues)@ <==> baseline_clean(lk, b),
            _ => true,
        },
        rec.data matches RecordData::Revision(r) ==> forall|i: int|
            0 <= i < r.slots@.len() && (owner_kind(lk, r.entity_id@) matches Some(k) && breaks_containment(
                lk,
                rec.id@,
                k,
                #[trigger] r.slots@[i],
            )) ==> has_new(
                final(issues)@,
                old(issues)@.len() as int,
                slot_ref_path(path@ + ".data"@, i),
                containment_code(owner_kind(lk, r.entity_id@).unwrap()),
            ),
        rec.data matches RecordData::Revision(r) && owner_kind(lk, r.entity_id@) is Some
            && correction_changes_numbers(lk, r) ==> has_new(
            final(issues)@,
            old(issues)@.len() as int,
            path@ + ".data"@ + ".body"@,
            "semantic_edit_required",
        ),
        rec.data matches RecordData::Revision(r) && owner_kind(lk, r.entity_id@) is Some
            && correction_crosses_entity(lk, r) ==> has_new(
            final(issues)@,
            old(issues)@.len() as int,
            path@ + ".data"@ + ".correction_of"@,
            "correction_entity_mismatch",
        ),
        final(plan).records@ == old(plan).records@,
        final(plan).head_records@ == old(plan).head_records@,
        final(plan).head_updates@ == old(plan).head_updates@,
        final(plan).publication_id == old(plan).publication_id,
        final(issues)@.len() == old(issues)@.len() <==> record_clean(lk, ctx, *rec),
{
    let ghost base = old(issues)@.len();
    let d = text::concat(path, ".data");
    let d = d.as_str();
    match &rec.data {
        RecordData::Project(p) => {
            check_text(issues, text::concat(d, ".title").as_str(), p.title.as_str(), 1, 200);
            check_text(issues, text::concat(d, ".description").as_str(), p.description.as_str(), 0, 4000);
        },
        RecordData::Entity(e) => {
            let found = need(
                lk,
                issues,
                text::concat(d, ".project_id").as_str(),
                e.project_id.as_str(),
                &one_kind(RecordKind::Project),
            );
            let ghost after_project = issues@;
            check_text(issues, text::concat(d, ".title").as_str(), e.title.as_str(), 1, 200);
            check_slugs(issues, text::concat(d, ".tags").as_str(), &e.tags, limits::MAX_TAGS);
            if e.derived_from.len() > 16 {
                report(
                    issues,
                    text::concat(d, ".derived_from"),
                    "limit_exceeded",
                    text::owned("at most 16 lineage parents"),
                );
            }
            let ghost after_loop_start = issues@;
            assert(after_loop_start.len() == base <==> (needed(lk, e.project_id@, seq![RecordKind::Project]) is Some
                && 1 <= e.title@.len() <= 200 && slugs_ok(e.tags@, limits::MAX_TAGS as int) && e.derived_from@.len() <= 16));
            let mut i: usize = 0;
            while i < e.derived_from.len()
                invariant
                    issues@.len() >= after_project.len(),
                    0 <= i <= e.derived_from@.len(),
                    after_loop_start.len() >= base,
                    issues@.len() >= after_loop_start.len(),
                    issues@.len() == base <==> (after_loop_start.len() == base && forall|q: int|
                        0 <= q < i ==> needed(lk, (#[trigger] e.derived_from@[q])@, seq![RecordKind::Entity]) is Some),
                decreases e.derived_from@.len() - i,
            {
                let ghost at = issues@.len();
                let ghost x = e.derived_from@[i as int]@;
                need(
                    lk,
                    issues,
                    index_path(text::concat(d, ".derived_from").as_str(), i).as_str(),
                    e.derived_from[i].as_str(),
                    &one_kind(RecordKind::Entity),
                );
                proof {
                    assert(issues@.len() == at <==> needed(lk, x, seq![RecordKind::Entity]) is Some);
                    if (forall|q: int| 0 <= q < i ==> needed(lk, (#[trigger] e.derived_from@[q])@, seq![RecordKind::Entity]) is Some)
                        && needed(lk, x, seq![RecordKind::Entity]) is Some {
                        assert forall|q: int| 0 <= q < i + 1 implies needed(lk, (#[trigger] e.derived_from@[q])@, seq![RecordKind::Entity]) is Some by {
                            if q == i {
                                assert(e.derived_from@[q]@ == x);
                            }
                        }
                    }
                    if needed(lk, x, seq![RecordKind::Entity]) is None {
                        assert(needed(lk, (e.derived_from@[i as int])@, seq![RecordKind::Entity]) is None);
                    }
                }
                i += 1;
            }
            let declared = e.lineage_kind != LineageKind::Original;
            if declared != (e.derived_from.len() > 0) {
                report(
                    issues,
                    text::concat(d, ".lineage_kind"),
                    "invalid_field",
                    text::owned("lineage_kind and derived_from must both be set or both be empty"),
                );
            }
        },
        RecordData::Revision(r) => validate_revision(rec, r, d, lk, ctx, issues, plan),
        RecordData::Capture(c) => {
            if let Some(p) = &c.project_id {
                need(lk, issues, text::concat(d, ".project_id").as_str(), p.as_str(), &one_kind(RecordKind::Project));
            }
            check_text(issues, text::concat(d, ".content").as_str(), c.content.as_str(), 1, limits::MAX_CAPTURE_CHARS);
            let ghost before_digest = issues@;
            check_content_digest(issues, d, c);
            let ghost after_digest = issues@;
            if let Some(at) = &c.occurred_at {
                check_timestamp(issues, text::concat(d, ".occurred_at").as_str(), at.as_str());
            }
        },
        RecordData::Candidate(c) => {
            need(lk, issues, text::concat(d, ".project_id").as_str(), c.project_id.as_str(), &one_kind(RecordKind::Project));
            if let Some(cap) = &c.capture_id {
                need(lk, issues, text::concat(d, ".capture_id").as_str(), cap.as_str(), &one_kind(RecordKind::Capture));
            }
            check_text(issues, text::concat(d, ".title").as_str(), c.title.as_str(), 1, 200);
            check_text(issues, text::concat(d, ".body").as_str(), c.body.as_str(), 1, limits::MAX_BODY_CHARS);
            check_origin_attribution(issues, d, c.origin, &c.model, &c.skill);
            check_anchor(lk, issues, d, c.claim_mode, &c.source_anchor, &c.capture_id, c.body.as_str());
        },
        RecordData::Promotion(p) => {
            let cand = need(
                lk,
                issues,
                text::concat(d, ".candidate_id").as_str(),
                p.candidate_id.as_str(),
                &one_kind(RecordKind::Candidate),
            );
            if cand.is_some() && ctx.promoted(p.candidate_id.as_str()) {
                let mut m = text::owned("candidate ");
                text::push_str(&mut m, p.candidate_id.as_str());
                text::push_str(&mut m, " was already promoted");
                report(issues, text::concat(d, ".candidate_id"), "promotion_already_exists", m);
            }
            let ghost after_promoted = issues@;
            if count_promotions(lk.added, p.candidate_id.as_str()) > 1 {
                report(
                    issues,
                    text::concat(d, ".candidate_id"),
                    "promotion_already_exists",
                    text::owned("two promotions for the same candidate in one package"),
                );
            }
            need(lk, issues, text::concat(d, ".entity_id").as_str(), p.entity_id.as_str(), &one_kind(RecordKind::Entity));
            if let Some(rev) = need(
                lk,
                issues,
                text::concat(d, ".revision_id").as_str(),
                p.revision_id.as_str(),
                &one_kind(RecordKind::Revision),
            ) {
                let belongs = match rev.as_revision() {
                    Some(r) => text::str_eq(r.entity_id.as_str(), p.entity_id.as_str()),
                    None => false,
                };
                if !belongs {
                    report(
                        issues,
                        text::concat(d, ".revision_id"),
                        "wrong_reference_kind",
                        text::owned("promoted revision does not belong to the promoted entity"),
                    );
                }
            }
            check_text(issues, text::concat(d, ".reason").as_str(), p.reason.as_str(), 1, 500);
        },
        RecordData::Artifact(a) => {
            check_text(issues, text::concat(d, ".uri").as_str(), a.uri.as_str(), 1, 2000);
            check_text(issues, text::concat(d, ".digest").as_str(), a.digest.as_str(), 1, 200);
            proof {
                reveal_strlit("sha256");
            }
            if !text::str_eq(a.digest_alg.as_str(), "sha256") || !is_artifact_digest(a.digest.as_str()) {
                report(
                    issues,
                    text::concat(d, ".digest"),
                    "invalid_field",
                    text::owned("artifact digest must be sha256: followed by 64 lowercase hex digits"),
                );
            }
            if a.included_in_export {
                report(
                    issues,
                    text::concat(d, ".included_in_export"),
                    "artifact_bytes_unsupported",
                    text::owned(
                        "this release stores no artifact bytes; external references are always unresolved",
                    ),
                );
            }
        },
        RecordData::Observation(o) => {
            need(lk, issues, text::concat(d, ".project_id").as_str(), o.project_id.as_str(), &one_kind(RecordKind::Project));
            if let Some(t) = &o.target_revision_id {
                need(lk, issues, text::concat(d, ".target_revision_id").as_str(), t.as_str(), &one_kind(RecordKind::Revision));
            }
            check_timestamp(issues, text::concat(d, ".occurred_at").as_str(), o.occurred_at.as_str());
            match o.status {
                ObservationStatus::Observed => {
                    let value_ok = match &o.value {
                        Some(crate::json::Json::Number(_)) => true,
                        Some(crate::json::Json::Str(_)) => true,
                        Some(crate::json::Json::Bool(_)) => true,
                        _ => false,
                    };
                    if !value_ok || is_blank_or_absent(&o.metric) {
                        report(
                            issues,
                            text::concat(d, ".value"),
                            "invalid_field",
                            text::owned(
                                "an observation needs a metric and number, text, or boolean value",
                            ),
                        );
                    }
                },
                _ => {
                    if o.value.is_some() {
                        report(
                            issues,
                            text::concat(d, ".value"),
                            "invalid_field",
                            text::owned("only status 'observed' may carry a value"),
                        );
                    }
                },
            }
            let ghost after_value = issues@;
            let mut i: usize = 0;
            while i < o.artifact_ids.len()
                invariant
                    issues@.len() >= after_value.len(),
                    0 <= i <= o.artifact_ids@.len(),
                    after_value.len() >= base,
                    issues@.len() == base <==> (after_value.len() == base && forall|q: int|
                        0 <= q < i ==> needed(lk, (#[trigger] o.artifact_ids@[q])@, seq![RecordKind::Artifact]) is Some),
                decreases o.artifact_ids@.len() - i,
            {
                let ghost at = issues@.len();
                let ghost x = o.artifact_ids@[i as int]@;
                need(
                    lk,
                    issues,
                    index_path(text::concat(d, ".artifact_ids").as_str(), i).as_str(),
                    o.artifact_ids[i].as_str(),
                    &one_kind(RecordKind::Artifact),
                );
                proof {
                    assert(issues@.len() == at <==> needed(lk, x, seq![RecordKind::Artifact]) is Some);
                    if (forall|q: int| 0 <= q < i ==> needed(lk, (#[trigger] o.artifact_ids@[q])@, seq![RecordKind::Artifact]) is Some)
                        && needed(lk, x, seq![RecordKind::Artifact]) is Some {
                        assert forall|q: int| 0 <= q < i + 1 implies needed(lk, (#[trigger] o.artifact_ids@[q])@, seq![RecordKind::Artifact]) is Some by {
                            if q == i {
                                assert(o.artifact_ids@[q]@ == x);
                            }
                        }
                    }
                    if needed(lk, x, seq![RecordKind::Artifact]) is None {
                        assert(needed(lk, (o.artifact_ids@[i as int])@, seq![RecordKind::Artifact]) is None);
                    }
                }
                i += 1;
            }
            if let Some(cap) = &o.capture_id {
                need(lk, issues, text::concat(d, ".capture_id").as_str(), cap.as_str(), &one_kind(RecordKind::Capture));
            }
        },
        RecordData::Goal(g) => {
            need(lk, issues, text::concat(d, ".project_id").as_str(), g.project_id.as_str(), &one_kind(RecordKind::Project));
            check_text(issues, text::concat(d, ".statement").as_str(), g.statement.as_str(), 1, 2000);
            let ghost before_scope = issues@;
            check_scope(lk, issues, text::concat(d, ".scope").as_str(), &g.scope, "goal_scope_mismatch");
            let ghost after_scope = issues@;
            if let Some(root) = lk.get(g.scope.root_revision_id.as_str()) {
                let own = match root.as_revision() {
                    Some(r) => text::str_eq(r.entity_id.as_str(), g.project_id.as_str()),
                    None => false,
                };
                if !own {
                    report(
                        issues,
                        text::concat(d, ".scope.root_revision_id"),
                        "goal_project_mismatch",
                        text::owned("goal scope must start at a revision of its own Project"),
                    );
                }
            }
            check_criteria(issues, text::concat(d, ".criteria").as_str(), &g.criteria);
        },
        RecordData::Baseline(b) => {
            validate_baseline(b, d, lk, issues);
            proof {
                if !baseline_clean(lk, *b) {
                    assert(issues@.len() > old(issues)@.len()) by {
                        if issues@.len() == old(issues)@.len() {
                            assert(issues@ =~= old(issues)@);
                        }
                    }
                }
            }
        },
        RecordData::Assessment(a) => {
            validate_assessment(a, d, lk, issues);
            proof {
                reveal(has_new);
                if !assessment_clean(lk, *a) {
                    assert(issues@.len() > old(issues)@.len()) by {
                        if issues@.len() == old(issues)@.len() {
                            assert(issues@ =~= old(issues)@);
                        }
                    }
                }
            }
        },
        RecordData::Link(l) => validate_link(l, d, lk, issues),
        RecordData::Embedding(e) => {
            need(lk, issues, text::concat(d, ".revision_id").as_str(), e.revision_id.as_str(), &one_kind(RecordKind::Revision));
            if e.dim != e.values.len() {
                let mut m = text::owned("dim ");
                text::push_str(&mut m, text::usize_text(e.dim).as_str());
                text::push_str(&mut m, " but ");
                text::push_str(&mut m, text::usize_text(e.values.len()).as_str());
                text::push_str(&mut m, " values");
                report(issues, text::concat(d, ".dim"), "embedding_dim_mismatch", m);
            }
            if e.dim == 0 || e.dim > limits::MAX_EMBEDDING_DIM {
                let mut m = text::owned("dim must be 1..");
                text::push_str(&mut m, text::usize_text(limits::MAX_EMBEDDING_DIM).as_str());
                report(issues, text::concat(d, ".dim"), "limit_exceeded", m);
            }
            check_text(issues, text::concat(d, ".model").as_str(), e.model.as_str(), 1, 200);
        },
        RecordData::HeadChange(_) | RecordData::Publication(_) => {
            report(
                issues,
                text::concat(path, ".kind"),
                "forbidden_kind",
                text::owned("head changes and publications are written by the server, not submitted"),
            );
        },
    }
}


// ---------------------------------------------------------------- cycles

/// Every edge of `succ` leads to an index of lower rank.
pub open spec fn ranked(succ: Seq<Seq<usize>>, rank: Seq<nat>) -> bool {
    &&& rank.len() == succ.len()
    &&& forall|i: int, k: int|
        0 <= i < succ.len() && 0 <= k < succ[i].len() ==> (#[trigger] succ[i][k]) < succ.len()
            && rank[succ[i][k] as int] < rank[i]
}

/// A graph over indices is acyclic when some rank falls along every edge.
pub open spec fn acyclic(succ: Seq<Seq<usize>>) -> bool {
    exists|rank: Seq<nat>| ranked(succ, rank)
}

pub open spec fn edges_in_range(succ: Seq<Seq<usize>>) -> bool {
    forall|i: int, k: int|
        0 <= i < succ.len() && 0 <= k < succ[i].len() ==> (#[trigger] succ[i][k]) < succ.len()
}

fn all_removed(succ: &Vec<usize>, removed: &Vec<bool>) -> (r: bool)
    requires
        forall|k: int| 0 <= k < succ@.len() ==> (#[trigger] succ@[k]) < removed@.len(),
    ensures
        r == forall|k: int| 0 <= k < succ@.len() ==> removed@[#[trigger] succ@[k] as int],
{
    let mut k: usize = 0;
    while k < succ.len()
        invariant
            0 <= k <= succ@.len(),
            forall|j: int| 0 <= j < succ@.len() ==> (#[trigger] succ@[j]) < removed@.len(),
            forall|j: int| 0 <= j < k ==> removed@[#[trigger] succ@[j] as int],
        decreases succ@.len() - k,
    {
        if !removed[succ[k]] {
            return false;
        }
        k += 1;
    }
    true
}

/// Nodes not yet peeled off.
pub open spec fn live(removed: Seq<bool>) -> nat
    decreases removed.len(),
{
    if removed.len() == 0 {
        0
    } else {
        live(removed.drop_last()) + if removed.last() {
            0nat
        } else {
            1nat
        }
    }
}

proof fn lemma_live_peel(removed: Seq<bool>, j: int)
    requires
        0 <= j < removed.len(),
        !removed[j],
    ensures
        live(removed.update(j, true)) + 1 == live(removed),
    decreases removed.len(),
{
    let u = removed.update(j, true);
    if j == removed.len() - 1 {
        assert(u.drop_last() =~= removed.drop_last());
    } else {
        assert(u.drop_last() =~= removed.drop_last().update(j, true));
        lemma_live_peel(removed.drop_last(), j);
    }
}

/// Every node left has a successor that is left too.
pub open spec fn stuck(g: Seq<Seq<usize>>, removed: Seq<bool>) -> bool {
    forall|x: int|
        0 <= x < g.len() && !removed[x] ==> exists|k: int| 0 <= k < g[x].len() && !removed[#[trigger] g[x][k] as int]
}

proof fn lemma_stuck_rank(g: Seq<Seq<usize>>, removed: Seq<bool>, rank: Seq<nat>, b: nat)
    requires
        ranked(g, rank),
        removed.len() == g.len(),
        stuck(g, removed),
    ensures
        forall|x: int| 0 <= x < g.len() && !removed[x] ==> rank[x] >= b,
    decreases b,
{
    if b > 0 {
        lemma_stuck_rank(g, removed, rank, (b - 1) as nat);
        assert forall|x: int| 0 <= x < g.len() && !removed[x] implies rank[x] >= b by {
            let k = choose|k: int| 0 <= k < g[x].len() && !removed[#[trigger] g[x][k] as int];
            assert(rank[g[x][k] as int] < rank[x]);
        }
    }
}

/// A graph in which every node left has a successor left is not acyclic.
proof fn lemma_stuck_cyclic(g: Seq<Seq<usize>>, removed: Seq<bool>, x: int)
    requires
        removed.len() == g.len(),
        stuck(g, removed),
        0 <= x < g.len(),
        !removed[x],
    ensures
        !acyclic(g),
{
    if acyclic(g) {
        let rank = choose|rank: Seq<nat>| ranked(g, rank);
        lemma_stuck_rank(g, removed, rank, rank[x] + 1);
    }
}

/// Peel off nodes whose successors are all gone; what cannot be peeled lies on
/// or leads into a cycle. `None` exactly when the graph is acyclic.
pub fn find_cycle(succ: &Vec<Vec<usize>>) -> (r: Option<usize>)
    requires
        edges_in_range(succ@.map_values(|v: Vec<usize>| v@)),
    ensures
        r is None <==> acyclic(succ@.map_values(|v: Vec<usize>| v@)),
        r matches Some(k) ==> k < succ@.len(),
{
    let ghost g = succ@.map_values(|v: Vec<usize>| v@);
    let n = succ.len();
    let mut removed: Vec<bool> = Vec::new();
    let mut i: usize = 0;
    while i < n
        invariant
            0 <= i <= n,
            removed@.len() == i,
            forall|j: int| 0 <= j < i ==> !removed@[j],
        decreases n - i,
    {
        removed.push(false);
        i += 1;
    }
    let ghost mut rank: Seq<nat> = Seq::new(n as nat, |j: int| 0nat);
    let ghost mut step: nat = 0;
    let mut changed = true;
    while changed
        invariant
            n == succ@.len(),
            g == succ@.map_values(|v: Vec<usize>| v@),
            edges_in_range(g),
            removed@.len() == n,
            rank.len() == n,
            forall|j: int| 0 <= j < n && removed@[j] ==> rank[j] < step,
            forall|j: int, k: int|
                0 <= j < n && removed@[j] && 0 <= k < g[j].len() ==> removed@[#[trigger] g[j][k] as int]
                    && rank[g[j][k] as int] < rank[j],
            !changed ==> stuck(g, removed@),
        decreases live(removed@) + if changed {
            1nat
        } else {
            0nat
        },
    {
        changed = false;
        let ghost live0 = live(removed@);
        let mut j: usize = 0;
        while j < n
            invariant
                n == succ@.len(),
                g == succ@.map_values(|v: Vec<usize>| v@),
                edges_in_range(g),
                removed@.len() == n,
                rank.len() == n,
                0 <= j <= n,
                forall|x: int| 0 <= x < n && removed@[x] ==> rank[x] < step,
                forall|x: int, k: int|
                    0 <= x < n && removed@[x] && 0 <= k < g[x].len() ==> removed@[#[trigger] g[x][k] as int]
                        && rank[g[x][k] as int] < rank[x],
                !changed ==> live(removed@) == live0,
                changed ==> live(removed@) < live0,
                !changed ==> forall|x: int|
                    0 <= x < j && !removed@[x] ==> exists|k: int|
                        0 <= k < g[x].len() && !removed@[#[trigger] g[x][k] as int],
            decreases n - j,
        {
            assert(g[j as int] == succ@[j as int]@);
            if !removed[j] && all_removed(&succ[j], &removed) {
                proof {
                    rank = rank.update(j as int, step);
                    step = step + 1;
                    lemma_live_peel(removed@, j as int);
                }
                removed.set(j, true);
                changed = true;
            }
            j += 1;
        }
    }
    let mut k: usize = 0;
    while k < n
        invariant
            0 <= k <= n,
            n == succ@.len(),
            g == succ@.map_values(|v: Vec<usize>| v@),
            removed@.len() == n,
            stuck(g, removed@),
            forall|x: int| 0 <= x < k ==> removed@[x],
        decreases n - k,
    {
        if !removed[k] {
            proof {
                lemma_stuck_cyclic(g, removed@, k as int);
            }
            return Some(k);
        }
        k += 1;
    }
    assert(ranked(g, rank));
    None
}

/// Containment among the package's own revisions, as slot edges between
/// package positions.
pub open spec fn slot_edge(rs: Seq<StoredRecord>, i: int, j: int) -> bool {
    match rs[i].data {
        RecordData::Revision(r) => exists|k: int|
            0 <= k < r.slots@.len() && (#[trigger] r.slots@[k]).revision_id@ == rs[j].id@,
        _ => false,
    }
}

/// The package's revisions admit a rank that falls along every slot edge.
pub open spec fn containment_acyclic(rs: Seq<StoredRecord>) -> bool {
    exists|rank: Seq<nat>| #[trigger] slot_ranked(rs, rank)
}

/// `rank` falls along every slot edge of `rs`.
pub open spec fn slot_ranked(rs: Seq<StoredRecord>, rank: Seq<nat>) -> bool {
    rank.len() == rs.len() && forall|i: int, j: int|
        0 <= i < rs.len() && 0 <= j < rs.len() && #[trigger] slot_edge(rs, i, j) ==> rank[j] < rank[i]
}

fn slot_successors(rs: &Vec<StoredRecord>, i: usize) -> (r: Vec<usize>)
    requires
        i < rs@.len(),
    ensures
        forall|k: int| 0 <= k < r@.len() ==> (#[trigger] r@[k]) < rs@.len(),
        forall|j: int| 0 <= j < rs@.len() && slot_edge(rs@, i as int, j) ==> r@.contains(j as usize),
        forall|k: int| 0 <= k < r@.len() ==> slot_edge(rs@, i as int, #[trigger] r@[k] as int),
{
    let mut out: Vec<usize> = Vec::new();
    if let Some(rev) = rs[i].as_revision() {
        let mut k: usize = 0;
        while k < rev.slots.len()
            invariant
                0 <= k <= rev.slots@.len(),
                i < rs@.len(),
                rs@[i as int].data == RecordData::Revision(*rev),
                forall|x: int| 0 <= x < out@.len() ==> (#[trigger] out@[x]) < rs@.len(),
                forall|x: int| 0 <= x < out@.len() ==> slot_edge(rs@, i as int, #[trigger] out@[x] as int),
                forall|j: int, kk: int|
                    #![trigger rev.slots@[kk], rs@[j]]
                    0 <= j < rs@.len() && 0 <= kk < k && rev.slots@[kk].revision_id@
                        == rs@[j].id@ ==> out@.contains(j as usize),
            decreases rev.slots@.len() - k,
        {
            let mut j: usize = 0;
            while j < rs.len()
                invariant
                    0 <= j <= rs@.len(),
                    0 <= k < rev.slots@.len(),
                    i < rs@.len(),
                    rs@[i as int].data == RecordData::Revision(*rev),
                    forall|x: int| 0 <= x < out@.len() ==> (#[trigger] out@[x]) < rs@.len(),
                    forall|x: int| 0 <= x < out@.len() ==> slot_edge(rs@, i as int, #[trigger] out@[x] as int),
                    forall|jj: int, kk: int|
                        #![trigger rev.slots@[kk], rs@[jj]]
                        0 <= jj < rs@.len() && 0 <= kk < k && rev.slots@[kk].revision_id@
                            == rs@[jj].id@ ==> out@.contains(jj as usize),
                    forall|jj: int|
                        0 <= jj < j && rev.slots@[k as int].revision_id@ == (#[trigger] rs@[jj]).id@
                            ==> out@.contains(jj as usize),
                decreases rs@.len() - j,
            {
                if text::str_eq(rs[j].id.as_str(), rev.slots[k].revision_id.as_str()) {
                    let ghost old_out = out@;
                    assert(rev.slots@[k as int].revision_id@ == rs@[j as int].id@);
                    assert(slot_edge(rs@, i as int, j as int));
                    out.push(j);
                    assert(out@[out@.len() - 1] == j);
                    assert(forall|x: int| 0 <= x < old_out.len() ==> out@[x] == #[trigger] old_out[x]);
                }
                j += 1;
            }
            k += 1;
        }
    }
    out
}

/// Existing records cannot reference records created now, so a containment
/// cycle can only run through the package's own revisions.
pub fn detect_cycles(new_records: &Vec<StoredRecord>, issues: &mut Vec<Issue>)
    ensures
        final(issues)@.len() >= old(issues)@.len(),
        !containment_acyclic(new_records@) ==> final(issues)@.len() > old(issues)@.len(),
        final(issues)@ == old(issues)@ <==> containment_acyclic(new_records@),
        grew(old(issues)@, final(issues)@),
{
    proof {
        lemma_grew_refl(issues@);
    }
    let mut succ: Vec<Vec<usize>> = Vec::new();
    let mut i: usize = 0;
    while i < new_records.len()
        invariant
            0 <= i <= new_records@.len(),
            succ@.len() == i,
            forall|x: int, k: int|
                0 <= x < i && 0 <= k < succ@[x]@.len() ==> (#[trigger] succ@[x]@[k]) < new_records@.len(),
            forall|x: int, j: int|
                0 <= x < i && 0 <= j < new_records@.len() && #[trigger] slot_edge(new_records@, x, j)
                    ==> succ@[x]@.contains(j as usize),
            forall|x: int, k: int|
                0 <= x < i && 0 <= k < succ@[x]@.len() ==> slot_edge(new_records@, x, #[trigger] succ@[x]@[k] as int),
        decreases new_records@.len() - i,
    {
        succ.push(slot_successors(new_records, i));
        i += 1;
    }
    let ghost g = succ@.map_values(|v: Vec<usize>| v@);
    assert(edges_in_range(g)) by {
        assert forall|x: int, k: int| 0 <= x < g.len() && 0 <= k < g[x].len() implies (
        #[trigger] g[x][k]) < g.len() by {
            assert(g[x] == succ@[x]@);
        }
    }
    match find_cycle(&succ) {
        None => {
            proof {
                let rank = choose|rank: Seq<nat>| ranked(g, rank);
                assert forall|x: int, j: int|
                    0 <= x < new_records@.len() && 0 <= j < new_records@.len() && #[trigger] slot_edge(
                        new_records@,
                        x,
                        j,
                    ) implies rank[j] < rank[x] by {
                    assert(g[x] == succ@[x]@);
                    assert(succ@[x]@.contains(j as usize));
                    let k = choose|k: int| 0 <= k < succ@[x]@.len() && succ@[x]@[k] == j as usize;
                    assert(g[x][k] == j as usize);
                }
                assert(slot_ranked(new_records@, rank));
            }
        },
        Some(k) => {
            proof {
                if containment_acyclic(new_records@) {
                    let rank = choose|rank: Seq<nat>| slot_ranked(new_records@, rank);
                    assert forall|i: int, k: int| 0 <= i < g.len() && 0 <= k < g[i].len() implies (
                    #[trigger] g[i][k]) < g.len() && rank[g[i][k] as int] < rank[i] by {
                        assert(g[i] == succ@[i]@);
                        assert(slot_edge(new_records@, i, succ@[i]@[k] as int));
                    }
                    assert(ranked(g, rank));
                }
            }
            let mut m = text::owned("revision ");
            text::push_str(&mut m, new_records[k].id.as_str());
            text::push_str(&mut m, " is part of a containment cycle");
            report(
                issues,
                text::concat(index_path("records", k).as_str(), ".data.slots"),
                "cycle_detected",
                m,
            );
        },
    }
}


/// The history graph of `nodes` and `succ` has an edge from `x` to `y`.
pub open spec fn has_edge(nodes: Seq<String>, succ: Seq<Vec<usize>>, x: Seq<char>, y: Seq<char>) -> bool {
    exists|i: int, k: int|
        0 <= i < succ.len() && 0 <= k < succ[i]@.len() && nodes[i]@ == x && nodes[
            #[trigger] succ[i]@[k] as int]@ == y
}

/// Index of `id` among `nodes`, added at the end when absent.
fn node_index(nodes: &mut Vec<String>, id: &String) -> (r: usize)
    ensures
        r < final(nodes)@.len(),
        final(nodes)@.len() <= old(nodes)@.len() + 1,
        old(nodes)@.is_prefix_of(final(nodes)@),
        final(nodes)@[r as int]@ == id@,
        views(old(nodes)@).no_duplicates() ==> views(final(nodes)@).no_duplicates(),
{
    let mut i: usize = 0;
    while i < nodes.len()
        invariant
            0 <= i <= nodes@.len(),
            nodes@ == old(nodes)@,
            forall|j: int| 0 <= j < i ==> (#[trigger] nodes@[j])@ != id@,
        decreases nodes@.len() - i,
    {
        if text::str_eq(nodes[i].as_str(), id.as_str()) {
            assert(old(nodes)@.is_prefix_of(nodes@)) by {
                assert(nodes@.take(nodes@.len() as int) =~= nodes@);
            }
            return i;
        }
        i += 1;
    }
    let ghost before = nodes@;
    nodes.push(id.clone());
    assert(old(nodes)@.is_prefix_of(nodes@)) by {
        assert(nodes@.take(old(nodes)@.len() as int) =~= old(nodes)@);
    }
    proof {
        if views(before).no_duplicates() {
            assert(views(nodes@) =~= views(before).push(id@));
            assert forall|a: int, b: int|
                0 <= a < b < views(nodes@).len() implies views(nodes@)[a] != views(nodes@)[b] by {
                if b == before.len() {
                    assert(views(nodes@)[a] == before[a]@);
                }
            }
        }
    }
    nodes.len() - 1
}

fn add_edge(nodes: &mut Vec<String>, succ: &mut Vec<Vec<usize>>, from: &String, to: &String)
    requires
        old(succ)@.len() == old(nodes)@.len(),
        edges_in_range(old(succ)@.map_values(|v: Vec<usize>| v@)),
    ensures
        final(succ)@.len() == final(nodes)@.len(),
        edges_in_range(final(succ)@.map_values(|v: Vec<usize>| v@)),
        old(nodes)@.is_prefix_of(final(nodes)@),
        views(old(nodes)@).no_duplicates() ==> views(final(nodes)@).no_duplicates(),
        forall|x: Seq<char>, y: Seq<char>|
            #[trigger] has_edge(final(nodes)@, final(succ)@, x, y) <==> (has_edge(old(nodes)@, old(succ)@, x, y)
                || (x == from@ && y == to@)),
{
    let ghost n0 = nodes@;
    let ghost s0 = succ@;
    let a = node_index(nodes, from);
    proof {
        let g = succ@.map_values(|v: Vec<usize>| v@);
        assert forall|i: int, k: int|
            0 <= i < succ@.len() && 0 <= k < succ@[i]@.len() implies (#[trigger] succ@[i]@[k])
                < nodes@.len() by {
            assert(g[i] == succ@[i]@);
            assert(g[i][k] < g.len());
        }
    }
    while succ.len() < nodes.len()
        invariant
            succ@.len() <= nodes@.len(),
            succ@.len() >= s0.len(),
            forall|i: int| 0 <= i < s0.len() ==> (#[trigger] succ@[i]) == s0[i],
            forall|i: int| s0.len() <= i < succ@.len() ==> (#[trigger] succ@[i])@.len() == 0,
            forall|i: int, k: int|
                0 <= i < succ@.len() && 0 <= k < succ@[i]@.len() ==> (#[trigger] succ@[i]@[k])
                    < nodes@.len(),
        decreases nodes@.len() - succ@.len(),
    {
        succ.push(Vec::new());
    }
    let ghost n1 = nodes@;
    let b = node_index(nodes, to);
    while succ.len() < nodes.len()
        invariant
            succ@.len() <= nodes@.len(),
            succ@.len() >= s0.len(),
            a < nodes@.len(),
            forall|i: int| 0 <= i < s0.len() ==> (#[trigger] succ@[i]) == s0[i],
            forall|i: int| s0.len() <= i < succ@.len() ==> (#[trigger] succ@[i])@.len() == 0,
            forall|i: int, k: int|
                0 <= i < succ@.len() && 0 <= k < succ@[i]@.len() ==> (#[trigger] succ@[i]@[k])
                    < nodes@.len(),
        decreases nodes@.len() - succ@.len(),
    {
        succ.push(Vec::new());
    }
    let ghost n2 = nodes@;
    let ghost s2 = succ@;
    let mut row = succ[a].clone();
    assert(row@ == s2[a as int]@);
    row.push(b);
    succ.set(a, row);
    proof {
        assert(n0.is_prefix_of(n1) && n1.is_prefix_of(n2));
        assert(forall|i: int| 0 <= i < n0.len() ==> n2[i] == n0[i]);
        assert(n2[a as int] == n1[a as int]);
        assert(n2[a as int]@ == from@);
        assert(n2[b as int]@ == to@);
    }
    assert(edges_in_range(succ@.map_values(|v: Vec<usize>| v@))) by {
        let g = succ@.map_values(|v: Vec<usize>| v@);
        assert forall|i: int, k: int| 0 <= i < g.len() && 0 <= k < g[i].len() implies (
        #[trigger] g[i][k]) < g.len() by {
            assert(g[i] == succ@[i]@);
        }
    }
    proof {
        let s3 = succ@;
        assert forall|x: Seq<char>, y: Seq<char>|
            #[trigger] has_edge(n2, s3, x, y) <==> (has_edge(n0, s0, x, y) || (x == from@ && y == to@)) by {
            if has_edge(n2, s3, x, y) {
                let (i, k) = choose|i: int, k: int|
                    0 <= i < s3.len() && 0 <= k < s3[i]@.len() && n2[i]@ == x && n2[#[trigger] s3[i]@[k] as int]@ == y;
                if i == a as int && k == s2[a as int]@.len() {
                } else {
                    if i == a as int {
                        assert(s3[i]@[k] == s2[i]@[k]);
                    } else {
                        assert(s3[i] == s2[i]);
                    }
                    assert(i < s0.len());
                    assert(s2[i] == s0[i]);
                    let j = s0[i]@[k];
                    assert(j < n0.len()) by {
                        let g0 = s0.map_values(|v: Vec<usize>| v@);
                        assert(g0[i] == s0[i]@);
                    }
                    assert(n2[j as int] == n0[j as int]);
                    assert(has_edge(n0, s0, x, y));
                }
            }
            if has_edge(n0, s0, x, y) {
                let (i, k) = choose|i: int, k: int|
                    0 <= i < s0.len() && 0 <= k < s0[i]@.len() && n0[i]@ == x && n0[#[trigger] s0[i]@[k] as int]@ == y;
                let j = s0[i]@[k];
                assert(j < n0.len()) by {
                    let g0 = s0.map_values(|v: Vec<usize>| v@);
                    assert(g0[i] == s0[i]@);
                }
                assert(s2[i] == s0[i]);
                assert(s3[i]@[k] == j);
                assert(n2[i] == n0[i] && n2[j as int] == n0[j as int]);
                assert(has_edge(n2, s3, x, y));
            }
            if x == from@ && y == to@ {
                let k = s2[a as int]@.len() as int;
                assert(s3[a as int]@[k] == b);
                assert(has_edge(n2, s3, x, y));
            }
        }
    }
}

/// `x` names `y` as its predecessor in history: an entity it derives from, a
/// revision it corrects or follows, a baseline it supersedes, or the target of
/// a `derived` link from it.
pub open spec fn history_pair(rec: StoredRecord, x: Seq<char>, y: Seq<char>) -> bool {
    match rec.data {
        RecordData::Entity(e) => x == rec.id@ && exists|j: int|
            0 <= j < e.derived_from@.len() && (#[trigger] e.derived_from@[j])@ == y,
        RecordData::Revision(r) => x == rec.id@ && ((r.correction_of matches Some(p) && p@ == y)
            || (r.previous_revision_id matches Some(p) && p@ == y)),
        RecordData::Baseline(b) => x == rec.id@ && (b.supersedes matches Some(p) && p@ == y),
        RecordData::Link(l) => l.link_type == LinkType::Derived && x == l.from_id@ && y == l.to_id@,
        _ => false,
    }
}

/// Some record of `rs` names `y` as the predecessor of `x`.
pub open spec fn history_edge(rs: Seq<StoredRecord>, x: Seq<char>, y: Seq<char>) -> bool {
    exists|m: int| 0 <= m < rs.len() && history_pair(#[trigger] rs[m], x, y)
}

/// `rank` falls along every history edge of `rs`.
pub open spec fn ranks_history(rs: Seq<StoredRecord>, rank: spec_fn(Seq<char>) -> nat) -> bool {
    forall|x: Seq<char>, y: Seq<char>| #[trigger] history_edge(rs, x, y) ==> rank(y) < rank(x)
}

/// The history of `rs` never loops back on itself.
pub open spec fn history_acyclic(rs: Seq<StoredRecord>) -> bool {
    exists|rank: spec_fn(Seq<char>) -> nat| #[trigger] ranks_history(rs, rank)
}

/// Records that name no predecessor leave an acyclic history acyclic.
pub proof fn lemma_history_extend_flat(rs: Seq<StoredRecord>, more: Seq<StoredRecord>)
    requires
        history_acyclic(rs),
        forall|k: int, x: Seq<char>, y: Seq<char>| 0 <= k < more.len() ==> !#[trigger] history_pair(more[k], x, y),
    ensures
        history_acyclic(rs + more),
{
    let rank = choose|rank: spec_fn(Seq<char>) -> nat| #[trigger] ranks_history(rs, rank);
    assert forall|x: Seq<char>, y: Seq<char>| #[trigger] history_edge(rs + more, x, y) implies rank(y) < rank(x) by {
        let m = choose|m: int| 0 <= m < (rs + more).len() && history_pair(#[trigger] (rs + more)[m], x, y);
        if m < rs.len() {
            assert((rs + more)[m] == rs[m]);
            assert(history_edge(rs, x, y));
        } else {
            assert((rs + more)[m] == more[m - rs.len()]);
        }
    }
    assert(ranks_history(rs + more, rank));
}

fn history_edges(rec: &StoredRecord, nodes: &mut Vec<String>, succ: &mut Vec<Vec<usize>>)
    requires
        old(succ)@.len() == old(nodes)@.len(),
        edges_in_range(old(succ)@.map_values(|v: Vec<usize>| v@)),
    ensures
        final(succ)@.len() == final(nodes)@.len(),
        edges_in_range(final(succ)@.map_values(|v: Vec<usize>| v@)),
        views(old(nodes)@).no_duplicates() ==> views(final(nodes)@).no_duplicates(),
        forall|x: Seq<char>, y: Seq<char>|
            #[trigger] has_edge(final(nodes)@, final(succ)@, x, y) <==> (has_edge(old(nodes)@, old(succ)@, x, y)
                || history_pair(*rec, x, y)),
{
    match &rec.data {
        RecordData::Entity(e) => {
            let mut i: usize = 0;
            while i < e.derived_from.len()
                invariant
                    0 <= i <= e.derived_from@.len(),
                    succ@.len() == nodes@.len(),
                    edges_in_range(succ@.map_values(|v: Vec<usize>| v@)),
                    views(old(nodes)@).no_duplicates() ==> views(nodes@).no_duplicates(),
                    forall|x: Seq<char>, y: Seq<char>|
                        #[trigger] has_edge(nodes@, succ@, x, y) <==> (has_edge(old(nodes)@, old(succ)@, x, y)
                            || (x == rec.id@ && exists|j: int| 0 <= j < i && (#[trigger] e.derived_from@[j])@ == y)),
                decreases e.derived_from@.len() - i,
            {
                let ghost n = nodes@;
                let ghost sc = succ@;
                add_edge(nodes, succ, &rec.id, &e.derived_from[i]);
                proof {
                    assert forall|x: Seq<char>, y: Seq<char>|
                        #[trigger] has_edge(nodes@, succ@, x, y) <==> (has_edge(old(nodes)@, old(succ)@, x, y)
                            || (x == rec.id@ && exists|j: int| 0 <= j < i + 1 && (#[trigger] e.derived_from@[j])@ == y)) by {
                        assert(has_edge(nodes@, succ@, x, y) == (has_edge(n, sc, x, y) || (x == rec.id@ && y == e.derived_from@[i as int]@)));
                        assert(has_edge(n, sc, x, y) == (has_edge(old(nodes)@, old(succ)@, x, y)
                            || (x == rec.id@ && exists|j: int| 0 <= j < i && (#[trigger] e.derived_from@[j])@ == y)));
                        if x == rec.id@ && exists|j: int| 0 <= j < i + 1 && (#[trigger] e.derived_from@[j])@ == y {
                            let j = choose|j: int| 0 <= j < i + 1 && (#[trigger] e.derived_from@[j])@ == y;
                            if j < i {
                                assert(exists|j: int| 0 <= j < i && (#[trigger] e.derived_from@[j])@ == y);
                            }
                        }
                    }
                }
                i += 1;
            }
        },
        RecordData::Revision(r) => {
            let ghost n0 = nodes@;
            let ghost s0 = succ@;
            if let Some(p) = &r.correction_of {
                add_edge(nodes, succ, &rec.id, p);
            }
            let ghost n1 = nodes@;
            let ghost s1 = succ@;
            assert(forall|x: Seq<char>, y: Seq<char>|
                #[trigger] has_edge(n1, s1, x, y) <==> (has_edge(n0, s0, x, y)
                    || (x == rec.id@ && (r.correction_of matches Some(p) && p@ == y))));
            if let Some(p) = &r.previous_revision_id {
                add_edge(nodes, succ, &rec.id, p);
            }
            assert(forall|x: Seq<char>, y: Seq<char>|
                #[trigger] has_edge(nodes@, succ@, x, y) <==> (has_edge(n1, s1, x, y)
                    || (x == rec.id@ && (r.previous_revision_id matches Some(p) && p@ == y))));
        },
        RecordData::Baseline(b) => {
            if let Some(p) = &b.supersedes {
                add_edge(nodes, succ, &rec.id, p);
            }
        },
        RecordData::Link(l) => {
            if l.link_type == LinkType::Derived {
                add_edge(nodes, succ, &l.from_id, &l.to_id);
            }
        },
        _ => {},
    }
}

proof fn lemma_index_rank_to_ids(
    nodes: Seq<String>,
    succ: Seq<Vec<usize>>,
    rs: Seq<StoredRecord>,
    rank: Seq<nat>,
)
    requires
        succ.len() == nodes.len(),
        views(nodes).no_duplicates(),
        ranked(succ.map_values(|v: Vec<usize>| v@), rank),
        forall|x: Seq<char>, y: Seq<char>| #[trigger] has_edge(nodes, succ, x, y) <==> history_edge(rs, x, y),
    ensures
        history_acyclic(rs),
{
    let g = succ.map_values(|v: Vec<usize>| v@);
    let rank_id = |x: Seq<char>| if exists|i: int| 0 <= i < nodes.len() && (#[trigger] nodes[i])@ == x {
        rank[choose|i: int| 0 <= i < nodes.len() && (#[trigger] nodes[i])@ == x]
    } else {
        0nat
    };
    assert forall|x: Seq<char>, y: Seq<char>| #[trigger] history_edge(rs, x, y) implies rank_id(y) < rank_id(x) by {
        assert(has_edge(nodes, succ, x, y));
        let (i, k) = choose|i: int, k: int|
            0 <= i < succ.len() && 0 <= k < succ[i]@.len() && nodes[i]@ == x && nodes[#[trigger] succ[i]@[k] as int]@ == y;
        assert(g[i] == succ[i]@);
        let j = succ[i]@[k] as int;
        assert(g[i][k] < g.len() && rank[j] < rank[i]);
        let ci = choose|c: int| 0 <= c < nodes.len() && (#[trigger] nodes[c])@ == x;
        let cj = choose|c: int| 0 <= c < nodes.len() && (#[trigger] nodes[c])@ == y;
        assert(views(nodes)[ci] == views(nodes)[i]);
        assert(views(nodes)[cj] == views(nodes)[j]);
        assert(ci == i);
        assert(cj == j);
    }
    assert(ranks_history(rs, rank_id));
}

/// Chronological lineage and predecessor links cannot loop, including links
/// added between already-existing entities. They are separate from
/// containment. An acyclic history is left without an issue; otherwise one
/// `history_cycle_detected` issue is added.
pub fn detect_history_cycles(ctx: &Context, added: &Vec<StoredRecord>, issues: &mut Vec<Issue>)
    ensures
        final(issues)@.len() >= old(issues)@.len(),
        final(issues)@.len() <= old(issues)@.len() + 1,
        final(issues)@ == old(issues)@ || pushed(old(issues)@, final(issues)@, "records"@, "history_cycle_detected"),
        final(issues)@ == old(issues)@ <==> history_acyclic(ctx.records@ + added@),
{
    let ghost all = ctx.records@ + added@;
    let mut nodes: Vec<String> = Vec::new();
    let mut succ: Vec<Vec<usize>> = Vec::new();
    assert(edges_in_range(succ@.map_values(|v: Vec<usize>| v@)));
    assert(views(nodes@).no_duplicates());
    let mut i: usize = 0;
    while i < ctx.records.len()
        invariant
            0 <= i <= ctx.records@.len(),
            succ@.len() == nodes@.len(),
            edges_in_range(succ@.map_values(|v: Vec<usize>| v@)),
            views(nodes@).no_duplicates(),
            forall|x: Seq<char>, y: Seq<char>|
                #[trigger] has_edge(nodes@, succ@, x, y) <==> history_edge(ctx.records@.take(i as int), x, y),
        decreases ctx.records@.len() - i,
    {
        let ghost n = nodes@;
        let ghost sc = succ@;
        history_edges(&ctx.records[i], &mut nodes, &mut succ);
        proof {
            let t = ctx.records@.take(i as int);
            let t1 = ctx.records@.take(i + 1);
            assert(t1 == t.push(ctx.records@[i as int]));
            assert forall|x: Seq<char>, y: Seq<char>|
                #[trigger] has_edge(nodes@, succ@, x, y) <==> history_edge(t1, x, y) by {
                if history_edge(t1, x, y) {
                    let m = choose|m: int| 0 <= m < t1.len() && history_pair(#[trigger] t1[m], x, y);
                    if m < t.len() {
                        assert(t[m] == t1[m]);
                        assert(history_edge(t, x, y));
                    }
                }
                if history_edge(t, x, y) {
                    let m = choose|m: int| 0 <= m < t.len() && history_pair(#[trigger] t[m], x, y);
                    assert(t1[m] == t[m]);
                }
                if history_pair(ctx.records@[i as int], x, y) {
                    assert(t1[i as int] == ctx.records@[i as int]);
                }
            }
        }
        i += 1;
    }
    let mut i: usize = 0;
    assert(ctx.records@.take(ctx.records@.len() as int) == ctx.records@);
    assert(ctx.records@ + added@.take(0) == ctx.records@);
    while i < added.len()
        invariant
            0 <= i <= added@.len(),
            all == ctx.records@ + added@,
            succ@.len() == nodes@.len(),
            edges_in_range(succ@.map_values(|v: Vec<usize>| v@)),
            views(nodes@).no_duplicates(),
            forall|x: Seq<char>, y: Seq<char>|
                #[trigger] has_edge(nodes@, succ@, x, y) <==> history_edge(ctx.records@ + added@.take(i as int), x, y),
        decreases added@.len() - i,
    {
        history_edges(&added[i], &mut nodes, &mut succ);
        proof {
            let t = ctx.records@ + added@.take(i as int);
            let t1 = ctx.records@ + added@.take(i + 1);
            assert(t1 == t.push(added@[i as int]));
            assert forall|x: Seq<char>, y: Seq<char>|
                #[trigger] has_edge(nodes@, succ@, x, y) <==> history_edge(t1, x, y) by {
                if history_edge(t1, x, y) {
                    let m = choose|m: int| 0 <= m < t1.len() && history_pair(#[trigger] t1[m], x, y);
                    if m < t.len() {
                        assert(t[m] == t1[m]);
                        assert(history_edge(t, x, y));
                    }
                }
                if history_edge(t, x, y) {
                    let m = choose|m: int| 0 <= m < t.len() && history_pair(#[trigger] t[m], x, y);
                    assert(t1[m] == t[m]);
                }
                if history_pair(added@[i as int], x, y) {
                    assert(t1[t.len() as int] == added@[i as int]);
                }
            }
        }
        i += 1;
    }
    assert(added@.take(added@.len() as int) == added@);
    match find_cycle(&succ) {
        Some(k) => {
            proof {
                if history_acyclic(all) {
                    let hr = choose|hr: spec_fn(Seq<char>) -> nat| #[trigger] ranks_history(all, hr);
                    let g = succ@.map_values(|v: Vec<usize>| v@);
                    let rank = Seq::new(nodes@.len(), |i: int| hr(nodes@[i]@));
                    assert forall|i: int, kk: int| 0 <= i < g.len() && 0 <= kk < g[i].len() implies (
                    #[trigger] g[i][kk]) < g.len() && rank[g[i][kk] as int] < rank[i] by {
                        assert(g[i] == succ@[i]@);
                        let j = succ@[i]@[kk] as int;
                        assert(has_edge(nodes@, succ@, nodes@[i]@, nodes@[j]@));
                        assert(history_edge(all, nodes@[i]@, nodes@[j]@));
                    }
                    assert(ranked(g, rank));
                }
            }
            report(
                issues,
                text::owned("records"),
                "history_cycle_detected",
                text::concat("lineage or predecessor cycle at ", nodes[k].as_str()),
            );
        },
        None => {
            proof {
                let g = succ@.map_values(|v: Vec<usize>| v@);
                let rank = choose|rank: Seq<nat>| ranked(g, rank);
                lemma_index_rank_to_ids(nodes@, succ@, all, rank);
            }
        },
    }
}

/// `entity` names a core or schema entity among `rs`.
pub open spec fn structural_entity(rs: Seq<StoredRecord>, entity: Seq<char>) -> bool {
    exists|k: int|
        0 <= k < rs.len() && (#[trigger] rs[k]).id@ == entity && (rs[k].data matches RecordData::Entity(e)
            && (e.entity_kind == EntityKind::Core || e.entity_kind == EntityKind::Schema))
}

/// A goal among `rs` targets the revision `rev`.
pub open spec fn goal_targets(rs: Seq<StoredRecord>, rev: Seq<char>) -> bool {
    exists|k: int|
        0 <= k < rs.len() && ((#[trigger] rs[k]).data matches RecordData::Goal(g)
            && g.scope.target_revision_id@ == rev)
}

/// Record `i` is a revision of a new structural entity that no goal of the
/// package targets.
pub open spec fn lacks_goal(rs: Seq<StoredRecord>, i: int) -> bool {
    &&& rs[i].data matches RecordData::Revision(r) && structural_entity(rs, r.entity_id@)
    &&& !goal_targets(rs, rs[i].id@)
}

/// Positions below `n` of the records that lack a goal, ascending.
pub open spec fn goalless(rs: Seq<StoredRecord>, n: int) -> Seq<int>
    decreases n,
{
    if n <= 0 {
        Seq::empty()
    } else if lacks_goal(rs, n - 1) {
        goalless(rs, n - 1).push(n - 1)
    } else {
        goalless(rs, n - 1)
    }
}

/// The warnings a package gets for its goalless structural revisions: one
/// `missing_goal` issue per such record, at its position, in record order.
pub open spec fn goal_warnings_added(rs: Seq<StoredRecord>, before: Seq<Issue>, after: Seq<Issue>) -> bool {
    let g = goalless(rs, rs.len() as int);
    &&& after.len() == before.len() + g.len()
    &&& after.take(before.len() as int) == before
    &&& forall|m: int|
        0 <= m < g.len() ==> (#[trigger] after[before.len() + m]).is(indexed("records"@, g[m]), "missing_goal")
}

fn collect_goal_targets(new_records: &Vec<StoredRecord>) -> (ids: Vec<String>)
    ensures
        forall|x: Seq<char>|
            goal_targets(new_records@, x) <==> exists|i: int| 0 <= i < ids@.len() && (#[trigger] ids@[i])@ == x,
{
    let mut ids: Vec<String> = Vec::new();
    let mut i: usize = 0;
    while i < new_records.len()
        invariant
            0 <= i <= new_records@.len(),
            forall|x: Seq<char>|
                goal_targets(new_records@.take(i as int), x) <==> exists|j: int|
                    0 <= j < ids@.len() && (#[trigger] ids@[j])@ == x,
        decreases new_records@.len() - i,
    {
        let ghost before = ids@;
        let ghost t = new_records@.take(i as int);
        let ghost t1 = new_records@.take(i + 1);
        assert(t1 == t.push(new_records@[i as int]));
        if let Some(g) = new_records[i].as_goal() {
            ids.push(g.scope.target_revision_id.clone());
        }
        assert forall|x: Seq<char>|
            goal_targets(t1, x) <==> exists|j: int| 0 <= j < ids@.len() && (#[trigger] ids@[j])@ == x by {
            if goal_targets(t1, x) {
                let k = choose|k: int|
                    0 <= k < t1.len() && ((#[trigger] t1[k]).data matches RecordData::Goal(g)
                        && g.scope.target_revision_id@ == x);
                if k < t.len() {
                    assert(t[k] == t1[k]);
                    assert(goal_targets(t, x));
                    let j = choose|j: int| 0 <= j < before.len() && (#[trigger] before[j])@ == x;
                    assert(ids@[j] == before[j]);
                } else {
                    assert(ids@[before.len() as int]@ == x);
                }
            }
            if exists|j: int| 0 <= j < ids@.len() && (#[trigger] ids@[j])@ == x {
                let j = choose|j: int| 0 <= j < ids@.len() && (#[trigger] ids@[j])@ == x;
                if j < before.len() {
                    assert(ids@[j] == before[j]);
                    assert(goal_targets(t, x));
                    let k = choose|k: int|
                        0 <= k < t.len() && ((#[trigger] t[k]).data matches RecordData::Goal(g)
                            && g.scope.target_revision_id@ == x);
                    assert(t1[k] == t[k]);
                } else {
                    assert(t1[i as int] == new_records@[i as int]);
                }
            }
        }
        i += 1;
    }
    assert(new_records@.take(new_records@.len() as int) == new_records@);
    ids
}

fn is_structural(new_records: &Vec<StoredRecord>, entity: &str) -> (b: bool)
    ensures
        b == structural_entity(new_records@, entity@),
{
    let mut k: usize = 0;
    while k < new_records.len()
        invariant
            0 <= k <= new_records@.len(),
            forall|j: int|
                0 <= j < k ==> !((#[trigger] new_records@[j]).id@ == entity@ && (new_records@[j].data matches RecordData::Entity(
                    e,
                ) && (e.entity_kind == EntityKind::Core || e.entity_kind == EntityKind::Schema))),
        decreases new_records@.len() - k,
    {
        if text::str_eq(new_records[k].id.as_str(), entity) {
            if let Some(e) = new_records[k].as_entity() {
                if e.entity_kind == EntityKind::Core || e.entity_kind == EntityKind::Schema {
                    return true;
                }
            }
        }
        k += 1;
    }
    false
}

/// A goal is optional; the dashboard reports the gap. Warn at write time so
/// the author sees it without being blocked.
pub fn warn_missing_goals(new_records: &Vec<StoredRecord>, plan: &mut Plan)
    ensures
        final(plan).records@ == old(plan).records@,
        final(plan).head_records@ == old(plan).head_records@,
        final(plan).head_updates@ == old(plan).head_updates@,
        final(plan).publication_id == old(plan).publication_id,
        final(plan).resolved_previous@ == old(plan).resolved_previous@,
        goal_warnings_added(new_records@, old(plan).warnings@, final(plan).warnings@),
{
    let goal_ids = collect_goal_targets(new_records);
    let ghost rs = new_records@;
    let ghost w0 = plan.warnings@;
    let mut i: usize = 0;
    while i < new_records.len()
        invariant
            0 <= i <= new_records@.len(),
            rs == new_records@,
            w0 == old(plan).warnings@,
            forall|x: Seq<char>|
                goal_targets(new_records@, x) <==> exists|j: int| 0 <= j < goal_ids@.len() && (#[trigger] goal_ids@[j])@ == x,
            plan.records@ == old(plan).records@,
            plan.head_records@ == old(plan).head_records@,
            plan.head_updates@ == old(plan).head_updates@,
            plan.publication_id == old(plan).publication_id,
            plan.resolved_previous@ == old(plan).resolved_previous@,
            plan.warnings@.len() == w0.len() + goalless(rs, i as int).len(),
            plan.warnings@.take(w0.len() as int) == w0,
            forall|m: int|
                0 <= m < goalless(rs, i as int).len() ==> (#[trigger] plan.warnings@[w0.len() + m]).is(
                    indexed("records"@, goalless(rs, i as int)[m]),
                    "missing_goal",
                ),
        decreases new_records@.len() - i,
    {
        let rec = &new_records[i];
        let ghost g = goalless(rs, i as int);
        let ghost before = plan.warnings@;
        let mut added = false;
        if let Some(rev) = rec.as_revision() {
            let structural = is_structural(new_records, rev.entity_id.as_str());
            if structural && !contains_id(&goal_ids, rec.id.as_str()) {
                let mut m = text::owned("new structural revision ");
                text::push_str(&mut m, rec.id.as_str());
                text::push_str(&mut m, " has no goal in this package");
                plan.warnings.push(Issue::new(index_path("records", i), "missing_goal", m));
                added = true;
            }
        }
        proof {
            assert(added == lacks_goal(rs, i as int));
            let g1 = goalless(rs, i + 1);
            if added {
                assert(g1 == g.push(i as int));
                assert(plan.warnings@ == before.push(plan.warnings@.last()));
                assert(plan.warnings@.take(w0.len() as int) == before.take(w0.len() as int));
                assert forall|m: int| 0 <= m < g1.len() implies (#[trigger] plan.warnings@[w0.len() + m]).is(
                    indexed("records"@, g1[m]),
                    "missing_goal",
                ) by {
                    if m < g.len() {
                        assert(plan.warnings@[w0.len() + m] == before[w0.len() + m]);
                    }
                }
            } else {
                assert(g1 == g);
            }
        }
        i += 1;
    }
}


// ---------------------------------------------------------------- heads

/// Whether `expected` lists `(project, stage)`.
pub open spec fn expects(expected: Seq<ExpectedHead>, project: Seq<char>, stage: Stage) -> bool {
    exists|i: int|
        0 <= i < expected.len() && (#[trigger] expected[i]).project_id@ == project
            && expected[i].stage == stage
}

/// A head move names the project and stage it expects to find.
pub fn require_expected_head(
    pkg: &Package,
    issues: &mut Vec<Issue>,
    path: &str,
    project_id: &str,
    stage: Stage,
)
    ensures
        keeps(old(issues)@, final(issues)@),
        expects(pkg.expected_heads@, project_id@, stage) ==> final(issues)@ == old(issues)@,
        !expects(pkg.expected_heads@, project_id@, stage) ==> pushed(
            old(issues)@,
            final(issues)@,
            path@ + ".project_id"@,
            "missing_expected_head",
        ),
{
    proof {
        lemma_keeps_refl(issues@);
    }
    let mut i: usize = 0;
    while i < pkg.expected_heads.len()
        invariant
            0 <= i <= pkg.expected_heads@.len(),
            issues@ == old(issues)@,
            keeps(old(issues)@, issues@),
            forall|j: int|
                0 <= j < i ==> !((#[trigger] pkg.expected_heads@[j]).project_id@ == project_id@
                    && pkg.expected_heads@[j].stage == stage),
        decreases pkg.expected_heads@.len() - i,
    {
        if text::str_eq(pkg.expected_heads[i].project_id.as_str(), project_id)
            && pkg.expected_heads[i].stage == stage {
            return;
        }
        i += 1;
    }
    let mut m = text::owned("expected_heads must include (");
    text::push_str(&mut m, project_id);
    text::push_str(&mut m, ", ");
    text::push_str(&mut m, stage.as_str());
    text::push_str(&mut m, ")");
    report(issues, text::concat(path, ".project_id"), "missing_expected_head", m);
}

/// A head is the project's own revision: a revision whose entity is the
/// project itself.
pub open spec fn head_revision_ok<L: Lookup>(lk: &L, project_id: Seq<char>, revision_id: Seq<char>) -> bool {
    match lk.holds(revision_id) {
        Some(rec) => match rec.data {
            RecordData::Revision(r) => r.entity_id@ == project_id,
            _ => false,
        },
        None => false,
    }
}

/// The head is the Project's own composition revision, containing its
/// Schemas.
pub fn check_head_revision<L: Lookup>(
    lk: &L,
    issues: &mut Vec<Issue>,
    path: &str,
    project_id: &str,
    revision_id: &str,
)
    ensures
        keeps(old(issues)@, final(issues)@),
        head_revision_ok(lk, project_id@, revision_id@) ==> final(issues)@ == old(issues)@,
        !head_revision_ok(lk, project_id@, revision_id@) ==> final(issues)@.len() == old(issues)@.len() + 1,
        !head_revision_ok(lk, project_id@, revision_id@) && lk.holds(revision_id@) is Some
            && lk.holds(revision_id@).unwrap().kind_of() == RecordKind::Revision ==> pushed(
            old(issues)@,
            final(issues)@,
            path@,
            "invalid_head_revision",
        ),
{
    proof {
        lemma_keeps_refl(issues@);
    }
    let rev = match need(lk, issues, path, revision_id, &one_kind(RecordKind::Revision)) {
        Some(r) => r,
        None => {
            proof {
                if let Some(r) = lk.holds(revision_id@) {
                    lemma_one_kind(RecordKind::Revision, r.kind_of());
                }
            }
            return;
        },
    };
    proof {
        lemma_one_kind(RecordKind::Revision, rev.kind_of());
    }
    let own = match rev.as_revision() {
        Some(data) => text::str_eq(data.entity_id.as_str(), project_id),
        None => false,
    };
    if !own {
        let mut m = text::owned(revision_id);
        text::push_str(&mut m, " must be a revision of Project ");
        text::push_str(&mut m, project_id);
        text::push_str(&mut m, " itself");
        report(issues, text::owned(path), "invalid_head_revision", m);
    }
}

/// The working head of `project` in `heads`.
pub open spec fn working_head_in(heads: Seq<(String, HeadState)>, project: Seq<char>) -> Option<String>
    decreases heads.len(),
{
    if heads.len() == 0 {
        None
    } else if heads[0].0@ == project {
        heads[0].1.working_head
    } else {
        working_head_in(heads.drop_first(), project)
    }
}

fn working_head(ctx: &Context, project: &str) -> (r: Option<String>)
    ensures
        r == working_head_in(ctx.heads@, project@),
{
    let mut i: usize = 0;
    assert(ctx.heads@.skip(0) == ctx.heads@);
    while i < ctx.heads.len()
        invariant
            0 <= i <= ctx.heads@.len(),
            working_head_in(ctx.heads@, project@) == working_head_in(ctx.heads@.skip(i as int), project@),
        decreases ctx.heads@.len() - i,
    {
        assert(ctx.heads@.skip(i as int).drop_first() == ctx.heads@.skip(i + 1));
        if text::str_eq(ctx.heads[i].0.as_str(), project) {
            return ctx.heads[i].1.working_head.clone();
        }
        i += 1;
    }
    None
}

/// The id a server record derives from the package key and the project.
pub open spec fn head_record_id(prefix: Seq<char>, key: Seq<char>, project: Seq<char>) -> Seq<char> {
    util::spec_derived_id(prefix, key + ":"@ + project)
}

/// Why a root change cannot be accepted, as far as this library states it.
pub open spec fn root_change_refused<L: Lookup>(lk: &L, pkg: &Package, rc: RootChange) -> bool {
    ||| rc.stage != Stage::Working
    ||| !rc.meaningful
    ||| text::spec_is_blank(rc.reason@)
    ||| text::spec_is_blank(rc.decision.rationale@)
    ||| !expects(pkg.expected_heads@, rc.project_id@, Stage::Working)
    ||| !head_revision_ok(lk, rc.project_id@, rc.after_revision_id@)
}

/// Why a publication cannot be accepted, as far as this library states it.
pub open spec fn publish_refused<L: Lookup>(lk: &L, pkg: &Package, pb: PublishRequest) -> bool {
    ||| !expects(pkg.expected_heads@, pb.project_id@, Stage::Official)
    ||| !head_revision_ok(lk, pb.project_id@, pb.root_revision_id@)
    ||| util::spec_utc_key(pb.published_at@) is None
}

/// The root change and the publication raise nothing: a working root change
/// that is meaningful, with a non-blank reason (at most 500 characters) and
/// decision rationale (at most 1000), for a project on record, moving to a
/// root revision of it, with the working head expected; a publication of a
/// project on record, at a root revision of it, labelled in 1..=100
/// characters, at an RFC 3339 instant, with the official head expected.
pub open spec fn heads_clean(lk: &Overlay, pkg: &Package) -> bool {
    &&& pkg.root_change matches Some(rc) ==> {
        &&& rc.stage == Stage::Working
        &&& rc.meaningful
        &&& !text::spec_is_blank(rc.reason@) && rc.reason@.len() <= 500
        &&& !text::spec_is_blank(rc.decision.rationale@) && rc.decision.rationale@.len() <= 1000
        &&& needed(lk, rc.project_id@, seq![RecordKind::Project]) is Some
        &&& head_revision_ok(lk, rc.project_id@, rc.after_revision_id@)
        &&& expects(pkg.expected_heads@, rc.project_id@, Stage::Working)
    }
    &&& pkg.publish matches Some(pb) ==> {
        &&& needed(lk, pb.project_id@, seq![RecordKind::Project]) is Some
        &&& head_revision_ok(lk, pb.project_id@, pb.root_revision_id@)
        &&& 1 <= pb.label@.len() <= 100
        &&& util::spec_utc_key(pb.published_at@) is Some
        &&& expects(pkg.expected_heads@, pb.project_id@, Stage::Official)
    }
}

/// Checks the root change and the publication of a package and returns the
/// `head_change` and `publication` records the server writes for them.
pub fn validate_root_change(
    pkg: &Package,
    ctx: &Context,
    lk: &Overlay,
    seq: i64,
    now: &str,
    issues: &mut Vec<Issue>,
    plan: &mut Plan,
) -> (r: Vec<StoredRecord>)
    ensures
        final(issues)@.len() >= old(issues)@.len(),
        (pkg.root_change matches Some(rc) && root_change_refused(lk, pkg, rc)) ==> final(issues)@.len() > old(issues)@.len(),
        (pkg.publish matches Some(pb) && publish_refused(lk, pkg, pb)) ==> final(issues)@.len()
            > old(issues)@.len(),
        r@.len() == (if pkg.root_change is Some { 1int } else { 0 }) + (if pkg.publish is Some {
            1int
        } else {
            0
        }),
        forall|i: int| 0 <= i < r@.len() ==> (#[trigger] r@[i]).seq == seq && r@[i].recorded_at@ == now@,
        pkg.root_change matches Some(rc) ==> head_change_record(r@[0], pkg, rc, working_head_in(
            ctx.heads@,
            rc.project_id@,
        )),
        pkg.publish matches Some(pb) ==> publication_record(r@[r@.len() - 1], pkg, pb),
        final(plan).records@ == old(plan).records@,
        final(plan).resolved_previous@ == old(plan).resolved_previous@,
        final(plan).head_updates@.len() == old(plan).head_updates@.len() + r@.len(),
        forall|k: int| 0 <= k < old(plan).head_updates@.len() ==> final(plan).head_updates@[k] == old(plan).head_updates@[k],
        pkg.root_change matches Some(rc) ==> {
            let u = final(plan).head_updates@[old(plan).head_updates@.len() as int];
            &&& u.project_id@ == rc.project_id@
            &&& u.stage == Stage::Working
            &&& u.revision_id@ == rc.after_revision_id@
            &&& u.publication_id is None
        },
        pkg.publish matches Some(pb) ==> {
            let u = final(plan).head_updates@.last();
            &&& u.project_id@ == pb.project_id@
            &&& u.stage == Stage::Official
            &&& u.revision_id@ == pb.root_revision_id@
            &&& u.publication_id matches Some(x) && x@ == r@.last().id@
            &&& final(plan).publication_id == u.publication_id
        },
        pkg.publish is None ==> final(plan).publication_id == old(plan).publication_id,
        final(issues)@.len() == old(issues)@.len() <==> heads_clean(lk, pkg),
        pkg.root_change matches Some(rc) && (!rc.meaningful || text::spec_is_blank(rc.reason@) || text::spec_is_blank(
            rc.decision.rationale@,
        )) ==> has_new(
            final(issues)@,
            old(issues)@.len() as int,
            "root_change.decision"@,
            "root_change_requires_decision",
        ),
{
    let mut out: Vec<StoredRecord> = Vec::new();
    let ghost base = old(issues)@.len();
    if let Some(rc) = &pkg.root_change {
        let path = "root_change";
        let ghost before = issues@;
        if rc.stage != Stage::Working {
            report(
                issues,
                text::owned("root_change.stage"),
                "invalid_field",
                text::owned("root_change moves the working head; use 'publish' for the official stream"),
            );
        }
        // Every root change records why. No heuristic decides that a change
        // was too small to explain.
        if !rc.meaningful || text::is_blank(rc.reason.as_str()) || text::is_blank(
            rc.decision.rationale.as_str(),
        ) {
            report(
                issues,
                text::owned("root_change.decision"),
                "root_change_requires_decision",
                text::owned("every root change needs meaningful=true, a reason and a decision rationale"),
            );
            proof {
                reveal(has_new);
                assert(issues@[issues@.len() - 1].is("root_change.decision"@, "root_change_requires_decision"));
                assert(has_new(issues@, base as int, "root_change.decision"@, "root_change_requires_decision"));
            }
        }
        let ghost after_decision = issues@;
        check_text(issues, "root_change.reason", rc.reason.as_str(), 0, 500);
        check_text(issues, "root_change.decision.rationale", rc.decision.rationale.as_str(), 0, 1000);
        need(lk, issues, "root_change.project_id", rc.project_id.as_str(), &one_kind(RecordKind::Project));
        let ghost before_head = issues@;
        check_head_revision(
            lk,
            issues,
            "root_change.after_revision_id",
            rc.project_id.as_str(),
            rc.after_revision_id.as_str(),
        );
        require_expected_head(pkg, issues, path, rc.project_id.as_str(), Stage::Working);
        let before_head_id = working_head(ctx, rc.project_id.as_str());
        let mut seed = pkg.idempotency_key.clone();
        text::push_str(&mut seed, ":");
        text::push_str(&mut seed, rc.project_id.as_str());
        let id = util::derived_id("hc", seed.as_str());
        proof {
            reveal_strlit("hc");
            reveal_strlit(":");
        }
        out.push(StoredRecord {
            id,
            seq,
            recorded_at: text::owned(now),
            data: RecordData::HeadChange(HeadChangeData {
                project_id: rc.project_id.clone(),
                stage: Stage::Working,
                before_revision_id: before_head_id,
                after_revision_id: rc.after_revision_id.clone(),
                reason: rc.reason.clone(),
                actor: pkg.actor.clone(),
                meaningful: true,
                decision: rc.decision.clone(),
            }),
        });
        plan.head_updates.push(HeadUpdate {
            project_id: rc.project_id.clone(),
            stage: Stage::Working,
            revision_id: rc.after_revision_id.clone(),
            publication_id: None,
        });
    }
    let ghost after_root = issues@;
    assert(after_root.len() == base <==> (pkg.root_change matches Some(rc) ==> {
        &&& rc.stage == Stage::Working
        &&& rc.meaningful
        &&& !text::spec_is_blank(rc.reason@) && rc.reason@.len() <= 500
        &&& !text::spec_is_blank(rc.decision.rationale@) && rc.decision.rationale@.len() <= 1000
        &&& needed(lk, rc.project_id@, seq![RecordKind::Project]) is Some
        &&& head_revision_ok(lk, rc.project_id@, rc.after_revision_id@)
        &&& expects(pkg.expected_heads@, rc.project_id@, Stage::Working)
    }));
    if let Some(pb) = &pkg.publish {
        let path = "publish";
        need(lk, issues, "publish.project_id", pb.project_id.as_str(), &one_kind(RecordKind::Project));
        let ghost before_head = issues@;
        check_head_revision(lk, issues, "publish.root_revision_id", pb.project_id.as_str(), pb.root_revision_id.as_str());
        check_text(issues, "publish.label", pb.label.as_str(), 1, 100);
        check_timestamp(issues, "publish.published_at", pb.published_at.as_str());
        require_expected_head(pkg, issues, path, pb.project_id.as_str(), Stage::Official);
        let mut seed = pkg.idempotency_key.clone();
        text::push_str(&mut seed, ":");
        text::push_str(&mut seed, pb.project_id.as_str());
        let id = util::derived_id("pub", seed.as_str());
        proof {
            reveal_strlit("pub");
            reveal_strlit(":");
        }
        plan.publication_id = Some(id.clone());
        plan.head_updates.push(HeadUpdate {
            project_id: pb.project_id.clone(),
            stage: Stage::Official,
            revision_id: pb.root_revision_id.clone(),
            publication_id: Some(id.clone()),
        });
        out.push(StoredRecord {
            id,
            seq,
            recorded_at: text::owned(now),
            data: RecordData::Publication(PublicationData {
                project_id: pb.project_id.clone(),
                root_revision_id: pb.root_revision_id.clone(),
                label: pb.label.clone(),
                published_at: pb.published_at.clone(),
                notes: pb.notes.clone(),
                actor: pkg.actor.clone(),
            }),
        });
    }
    out
}

/// The `head_change` record a root change produces.
pub open spec fn head_change_record(
    rec: StoredRecord,
    pkg: &Package,
    rc: RootChange,
    before: Option<String>,
) -> bool {
    &&& rec.id@ == head_record_id("hc"@, pkg.idempotency_key@, rc.project_id@)
    &&& rec.data == RecordData::HeadChange(
        HeadChangeData {
            project_id: rc.project_id,
            stage: Stage::Working,
            before_revision_id: before,
            after_revision_id: rc.after_revision_id,
            reason: rc.reason,
            actor: pkg.actor,
            meaningful: true,
            decision: rc.decision,
        },
    )
}

/// The `publication` record a publish request produces.
pub open spec fn publication_record(rec: StoredRecord, pkg: &Package, pb: PublishRequest) -> bool {
    &&& rec.id@ == head_record_id("pub"@, pkg.idempotency_key@, pb.project_id@)
    &&& rec.data == RecordData::Publication(
        PublicationData {
            project_id: pb.project_id,
            root_revision_id: pb.root_revision_id,
            label: pb.label,
            published_at: pb.published_at,
            notes: pb.notes,
            actor: pkg.actor,
        },
    )
}


// ---------------------------------------------------------------- entry

/// Every record of the package is well formed: a valid id used once and not
/// yet taken, a kind clients may submit, and a payload of that kind.
pub open spec fn shape_ok(pkg: &Package, ctx: &Context) -> bool {
    forall|i: int|
        0 <= i < pkg.records@.len() ==> {
            let raw = #[trigger] pkg.records@[i];
            &&& id_format(vstd::utf8::encode_utf8(raw.id@))
            &&& (forall|j: int| 0 <= j < i ==> pkg.records@[j].id@ != raw.id@)
            &&& ctx.holds(raw.id@) is None
            &&& !raw.kind.server_only()
            &&& raw.data matches Ok(d) && d.kind_of() == raw.kind
        }
}

/// A key or actor: not blank and at most 200 bytes.
pub open spec fn label_ok(s: Seq<char>) -> bool {
    !text::spec_is_blank(s) && vstd::utf8::encode_utf8(s).len() <= 200
}

/// The payload a record is stored with: the submitted one, except that a
/// `composition` revision naming no predecessor gets the entity's latest
/// existing revision.
pub open spec fn staged_from(ctx: &Context, d: RecordData, out: RecordData) -> bool {
    match d {
        RecordData::Revision(r) => if r.change_kind == ChangeKind::Composition
            && r.previous_revision_id is None && ctx.revisions_of(r.entity_id@).len() > 0 {
            match out {
                RecordData::Revision(o) => o.same_as(
                    &RevisionData {
                        previous_revision_id: Some(ctx.revisions_of(r.entity_id@).last().1),
                        ..r
                    },
                ),
                _ => false,
            }
        } else {
            out.same_as(&d)
        },
        _ => out.same_as(&d),
    }
}

fn stage_record(
    raw: &NewRecord,
    d: &RecordData,
    seq: i64,
    now: &str,
    ctx: &Context,
    resolved: &mut Vec<(String, String)>,
) -> (r: StoredRecord)
    ensures
        r.id == raw.id,
        r.seq == seq,
        r.recorded_at@ == now@,
        staged_from(ctx, *d, r.data),
{
    let data = match d {
        RecordData::Revision(rv) => {
            if rv.change_kind == ChangeKind::Composition && rv.previous_revision_id.is_none() {
                let existing = ctx.existing_revisions(rv.entity_id.as_str());
                if existing.len() > 0 {
                    let latest = existing[existing.len() - 1].1.clone();
                    let mut filled = rv.clone();
                    filled.previous_revision_id = Some(latest.clone());
                    resolved.push((raw.id.clone(), latest));
                    RecordData::Revision(filled)
                } else {
                    d.clone()
                }
            } else {
                d.clone()
            }
        },
        _ => d.clone(),
    };
    StoredRecord { id: raw.id.clone(), seq, recorded_at: text::owned(now), data }
}

/// A staging of `pkg`: its records in order, under their ids, at `seq` and
/// `now`, each with the payload `staged_from` gives.
pub open spec fn staged_right(pkg: &Package, ctx: &Context, seq: i64, now: Seq<char>, sv: Seq<StoredRecord>) -> bool {
    &&& sv.len() == pkg.records@.len()
    &&& forall|i: int|
        0 <= i < sv.len() ==> {
            let out = #[trigger] sv[i];
            &&& out.id == pkg.records@[i].id
            &&& out.seq == seq
            &&& out.recorded_at@ == now
            &&& staged_from(ctx, pkg.records@[i].data.unwrap(), out.data)
        }
}

/// The rules over a staged package: every record is clean against the
/// existing records and the package's own, slots form no cycle, history forms
/// no cycle, and the root change and publication are clean.
pub open spec fn staging_clean(pkg: &Package, ctx: &Context, sv: &Vec<StoredRecord>) -> bool {
    let lk = Overlay { base: ctx, added: sv };
    &&& forall|i: int| 0 <= i < sv@.len() ==> #[trigger] record_clean(&lk, ctx, sv@[i])
    &&& containment_acyclic(sv@)
    &&& history_acyclic(ctx.records@ + sv@)
    &&& heads_clean(&lk, pkg)
}

/// A package follows the rules: within the package size, a key and actor,
/// well-shaped records, and a staging that breaks no rule.
pub open spec fn package_follows_rules(pkg: &Package, ctx: &Context, seq: i64, now: Seq<char>) -> bool {
    &&& pkg.records@.len() <= limits::MAX_PACKAGE_RECORDS
    &&& label_ok(pkg.idempotency_key@) && label_ok(pkg.actor@)
    &&& shape_ok(pkg, ctx)
    &&& forall|sv: Vec<StoredRecord>| #[trigger] staged_right(pkg, ctx, seq, now, sv@) ==> staging_clean(pkg, ctx, &sv)
}

/// Record `i` of a package is well shaped.
pub open spec fn shape_item_ok(pkg: &Package, ctx: &Context, i: int) -> bool {
    let raw = pkg.records@[i];
    &&& id_format(vstd::utf8::encode_utf8(raw.id@))
    &&& (forall|j: int| 0 <= j < i ==> pkg.records@[j].id@ != raw.id@)
    &&& ctx.holds(raw.id@) is None
    &&& !raw.kind.server_only()
    &&& raw.data matches Ok(d) && d.kind_of() == raw.kind
}

/// Record `j`'s id is used by an earlier record of the package or by an
/// existing record.
pub open spec fn id_taken(pkg: &Package, ctx: &Context, j: int) -> bool {
    ||| exists|x: int| 0 <= x < j && #[trigger] pkg.records@[x].id@ == pkg.records@[j].id@
    ||| ctx.holds(pkg.records@[j].id@) is Some
}

/// The shape refusal record `j` of a package draws first: its code and the
/// field it is reported at.
pub open spec fn shape_refusal(pkg: &Package, ctx: &Context, j: int) -> Option<(Seq<char>, &'static str)> {
    let raw = pkg.records@[j];
    let at = indexed("records"@, j);
    if !id_format(vstd::utf8::encode_utf8(raw.id@)) {
        Some((at + ".id"@, "bad_id_format"))
    } else if id_taken(pkg, ctx, j) {
        Some((at + ".id"@, "duplicate_id"))
    } else if raw.kind.server_only() {
        Some((at + ".kind"@, "forbidden_kind"))
    } else {
        None
    }
}

/// Every record before `i` that draws a shape refusal has it among `issues`.
pub open spec fn shape_flagged(pkg: &Package, ctx: &Context, issues: Seq<Issue>, i: int) -> bool {
    forall|j: int|
        0 <= j < i && #[trigger] shape_refusal(pkg, ctx, j) is Some ==> has_new(
            issues,
            0,
            shape_refusal(pkg, ctx, j).unwrap().0,
            shape_refusal(pkg, ctx, j).unwrap().1,
        )
}

proof fn lemma_shape_kept(pkg: &Package, ctx: &Context, before: Seq<Issue>, after: Seq<Issue>, i: int)
    requires
        keeps(before, after),
        shape_flagged(pkg, ctx, before, i),
        shape_refusal(pkg, ctx, i) is Some ==> has_new(
            after,
            0,
            shape_refusal(pkg, ctx, i).unwrap().0,
            shape_refusal(pkg, ctx, i).unwrap().1,
        ),
    ensures
        shape_flagged(pkg, ctx, after, i + 1),
{
    assert forall|j: int| 0 <= j < i + 1 && #[trigger] shape_refusal(pkg, ctx, j) is Some implies has_new(
        after,
        0,
        shape_refusal(pkg, ctx, j).unwrap().0,
        shape_refusal(pkg, ctx, j).unwrap().1,
    ) by {
        if j < i {
            assert(has_new(before, 0, shape_refusal(pkg, ctx, j).unwrap().0, shape_refusal(pkg, ctx, j).unwrap().1));
        }
    }
}

/// Validate a package against existing state. `seq` is the sequence number
/// the whole batch will carry; `now` is the server record time.
pub fn validate_package(pkg: &Package, ctx: &Context, seq: i64, now: &str) -> (r: Result<
    Plan,
    Vec<Issue>,
>)
    ensures
        pkg.records@.len() > limits::MAX_PACKAGE_RECORDS ==> (r matches Err(issues)
            && issues@.len() == 1 && issues@[0].is("records"@, "limit_exceeded")),
        !shape_ok(pkg, ctx) ==> r is Err,
        forall|j: int|
            0 <= j < pkg.records@.len() && pkg.records@.len() <= limits::MAX_PACKAGE_RECORDS
                && #[trigger] shape_refusal(pkg, ctx, j) is Some ==> (r matches Err(issues) && has_new(
                issues@,
                0,
                shape_refusal(pkg, ctx, j).unwrap().0,
                shape_refusal(pkg, ctx, j).unwrap().1,
            )),
        !label_ok(pkg.idempotency_key@) ==> r is Err,
        !label_ok(pkg.actor@) ==> r is Err,
        package_follows_rules(pkg, ctx, seq, now@) ==> r is Ok,
        match r {
            Ok(plan) => {
                &&& pkg.records@.len() <= limits::MAX_PACKAGE_RECORDS
                &&& shape_ok(pkg, ctx)
                &&& label_ok(pkg.idempotency_key@) && label_ok(pkg.actor@)
                &&& plan.records@.len() == pkg.records@.len()
                &&& forall|i: int|
                    0 <= i < plan.records@.len() ==> {
                        let out = #[trigger] plan.records@[i];
                        &&& out.id == pkg.records@[i].id
                        &&& out.seq == seq
                        &&& out.recorded_at@ == now@
                        &&& staged_from(ctx, pkg.records@[i].data.unwrap(), out.data)
                    }
                &&& forall|i: int|
                    0 <= i < plan.records@.len() ==> !breaks_rule(
                        &Overlay { base: ctx, added: &plan.records },
                        ctx,
                        #[trigger] plan.records@[i],
                    )
                &&& containment_acyclic(plan.records@)
                &&& staged_right(pkg, ctx, seq, now@, plan.records@)
                &&& staging_clean(pkg, ctx, &plan.records)
                &&& plan.head_updates@.len() == plan.head_records@.len()
                &&& (pkg.root_change matches Some(rc) ==> {
                    let u = plan.head_updates@[0];
                    &&& u.project_id@ == rc.project_id@
                    &&& u.stage == Stage::Working
                    &&& u.revision_id@ == rc.after_revision_id@
                    &&& u.publication_id is None
                })
                &&& (pkg.publish matches Some(pb) ==> {
                    let u = plan.head_updates@.last();
                    &&& u.project_id@ == pb.project_id@
                    &&& u.stage == Stage::Official
                    &&& u.revision_id@ == pb.root_revision_id@
                    &&& u.publication_id matches Some(x) && x@ == plan.head_records@.last().id@
                    &&& plan.publication_id == u.publication_id
                })
                &&& (pkg.root_change matches Some(rc) ==> !root_change_refused(
                    &Overlay { base: ctx, added: &plan.records },
                    pkg,
                    rc,
                ))
                &&& (pkg.publish matches Some(pb) ==> !publish_refused(
                    &Overlay { base: ctx, added: &plan.records },
                    pkg,
                    pb,
                ))
                &&& plan.head_records@.len() == (if pkg.root_change is Some { 1int } else { 0 })
                    + (if pkg.publish is Some { 1int } else { 0 })
                &&& forall|i: int|
                    0 <= i < plan.head_records@.len() ==> (#[trigger] plan.head_records@[i]).seq
                        == seq && plan.head_records@[i].recorded_at@ == now@
                &&& (pkg.root_change matches Some(rc) ==> head_change_record(
                    plan.head_records@[0],
                    pkg,
                    rc,
                    working_head_in(ctx.heads@, rc.project_id@),
                ))
                &&& (pkg.publish matches Some(pb) ==> publication_record(
                    plan.head_records@[plan.head_records@.len() - 1],
                    pkg,
                    pb,
                ))
            },
            Err(issues) => issues@.len() > 0,
        },
{
    let mut issues: Vec<Issue> = Vec::new();
    let mut plan = Plan {
        records: Vec::new(),
        head_records: Vec::new(),
        head_updates: Vec::new(),
        warnings: Vec::new(),
        publication_id: None,
        resolved_previous: Vec::new(),
    };

    if pkg.records.len() > limits::MAX_PACKAGE_RECORDS {
        let mut m = text::usize_text(pkg.records.len());
        text::push_str(&mut m, " records exceeds the ");
        text::push_str(&mut m, text::usize_text(limits::MAX_PACKAGE_RECORDS).as_str());
        text::push_str(&mut m, " per package limit");
        proof {
            reveal_strlit("records");
        }
        report(&mut issues, text::owned("records"), "limit_exceeded", m);
        return Err(issues);
    }
    let key_blank = text::is_blank(pkg.idempotency_key.as_str());
    let key_len = pkg.idempotency_key.as_str().as_bytes().len();
    assert(key_len == vstd::utf8::encode_utf8(pkg.idempotency_key@).len());
    if key_blank || key_len > 200 {
        report(
            &mut issues,
            text::owned("idempotency_key"),
            "invalid_field",
            text::owned("idempotency_key must be 1..200 characters"),
        );
    }
    let actor_blank = text::is_blank(pkg.actor.as_str());
    let actor_len = pkg.actor.as_str().as_bytes().len();
    assert(actor_len == vstd::utf8::encode_utf8(pkg.actor@).len());
    if actor_blank || actor_len > 200 {
        report(
            &mut issues,
            text::owned("actor"),
            "invalid_field",
            text::owned("actor must be 1..200 characters"),
        );
    }

    // --- shape: ids, kinds, payload schema --------------------------------
    let mut staged: Vec<StoredRecord> = Vec::new();
    let mut seen: Vec<String> = Vec::new();
    let mut i: usize = 0;
    while i < pkg.records.len()
        invariant
            0 <= i <= pkg.records@.len(),
            plan.records@.len() == 0,
            plan.head_records@.len() == 0,
            plan.head_updates@.len() == 0,
            (!label_ok(pkg.idempotency_key@) || !label_ok(pkg.actor@)) ==> issues@.len() > 0,
            (label_ok(pkg.idempotency_key@) && label_ok(pkg.actor@) && forall|j: int|
                0 <= j < i ==> #[trigger] shape_item_ok(pkg, ctx, j)) ==> issues@.len() == 0,
            forall|k: int|
                0 <= k < seen@.len() ==> exists|j: int| 0 <= j < i && pkg.records@[j].id@ == (#[trigger] seen@[k])@,
            forall|j: int|
                0 <= j < i && id_format(vstd::utf8::encode_utf8(pkg.records@[j].id@))
                    ==> exists|k: int| 0 <= k < seen@.len() && (#[trigger] seen@[k])@ == pkg.records@[j].id@,
            shape_flagged(pkg, ctx, issues@, i as int),
            issues@.len() == 0 ==> {
                &&& staged@.len() == i
                &&& forall|j: int|
                    0 <= j < i ==> {
                        let raw = #[trigger] pkg.records@[j];
                        &&& id_format(vstd::utf8::encode_utf8(raw.id@))
                        &&& (forall|x: int| 0 <= x < j ==> pkg.records@[x].id@ != raw.id@)
                        &&& ctx.holds(raw.id@) is None
                        &&& !raw.kind.server_only()
                        &&& raw.data matches Ok(d) && d.kind_of() == raw.kind
                    }
                &&& forall|j: int|
                    0 <= j < i ==> {
                        let out = #[trigger] staged@[j];
                        &&& out.id == pkg.records@[j].id
                        &&& out.seq == seq
                        &&& out.recorded_at@ == now@
                        &&& staged_from(ctx, pkg.records@[j].data.unwrap(), out.data)
                    }
            },
        decreases pkg.records@.len() - i,
    {
        let raw = &pkg.records[i];
        let path = index_path("records", i);
        let ghost at_i = issues@;
        proof {
            if label_ok(pkg.idempotency_key@) && label_ok(pkg.actor@) && (forall|j: int| 0 <= j < i + 1 ==> #[trigger] shape_item_ok(pkg, ctx, j)) {
                assert(shape_item_ok(pkg, ctx, i as int));
                assert forall|j: int| 0 <= j < i implies #[trigger] shape_item_ok(pkg, ctx, j) by {
                    assert(0 <= j < i + 1);
                }
            }
        }
        if !is_valid_id(raw.id.as_str()) {
            let mut m = text::owned("'");
            text::push_str(&mut m, raw.id.as_str());
            text::push_str(&mut m, "' does not match the documented id format");
            report(&mut issues, text::concat(path.as_str(), ".id"), "bad_id_format", m);
            proof {
                reveal(has_new);
                assert(issues@[issues@.len() - 1].is(path@ + ".id"@, "bad_id_format"));
                assert(has_new(issues@, 0, path@ + ".id"@, "bad_id_format"));
                lemma_shape_kept(pkg, ctx, at_i, issues@, i as int);
            }
            i += 1;
            continue;
        }
        if text::contains_str(&seen, raw.id.as_str()) {
            let mut m = raw.id.clone();
            text::push_str(&mut m, " appears twice in this package");
            report(&mut issues, text::concat(path.as_str(), ".id"), "duplicate_id", m);
            proof {
                let k = choose|k: int| 0 <= k < seen@.len() && (#[trigger] seen@[k])@ == raw.id@;
                let x = choose|x: int| 0 <= x < i && pkg.records@[x].id@ == seen@[k]@;
                assert(pkg.records@[x].id@ == pkg.records@[i as int].id@);
                assert(id_taken(pkg, ctx, i as int));
                reveal(has_new);
                assert(issues@[issues@.len() - 1].is(path@ + ".id"@, "duplicate_id"));
                assert(has_new(issues@, 0, path@ + ".id"@, "duplicate_id"));
                lemma_shape_kept(pkg, ctx, at_i, issues@, i as int);
            }
            i += 1;
            continue;
        }
        proof {
            assert forall|x: int| 0 <= x < i implies #[trigger] pkg.records@[x].id@ != pkg.records@[i as int].id@ by {
                if pkg.records@[x].id@ == pkg.records@[i as int].id@ {
                    let k = choose|k: int| 0 <= k < seen@.len() && (#[trigger] seen@[k])@ == pkg.records@[x].id@;
                    assert(seen@[k]@ == raw.id@);
                }
            }
        }
        let ghost old_seen = seen@;
        seen.push(raw.id.clone());
        proof {
            assert(forall|k: int| 0 <= k < old_seen.len() ==> seen@[k] == #[trigger] old_seen[k]);
            assert(seen@[seen@.len() - 1]@ == pkg.records@[i as int].id@);
        }
        if ctx.get(raw.id.as_str()).is_some() {
            let mut m = raw.id.clone();
            text::push_str(&mut m, " already exists and records are immutable");
            report(&mut issues, text::concat(path.as_str(), ".id"), "duplicate_id", m);
            proof {
                assert(id_taken(pkg, ctx, i as int));
                reveal(has_new);
                assert(issues@[issues@.len() - 1].is(path@ + ".id"@, "duplicate_id"));
                assert(has_new(issues@, 0, path@ + ".id"@, "duplicate_id"));
                lemma_shape_kept(pkg, ctx, at_i, issues@, i as int);
            }
            i += 1;
            continue;
        }
        assert(!id_taken(pkg, ctx, i as int));
        if raw.kind.is_server_only() {
            let mut m = text::owned(raw.kind.as_str());
            text::push_str(&mut m, " is written by the server, not submitted");
            report(&mut issues, text::concat(path.as_str(), ".kind"), "forbidden_kind", m);
            proof {
                reveal(has_new);
                assert(issues@[issues@.len() - 1].is(path@ + ".kind"@, "forbidden_kind"));
                assert(has_new(issues@, 0, path@ + ".kind"@, "forbidden_kind"));
                lemma_shape_kept(pkg, ctx, at_i, issues@, i as int);
            }
            i += 1;
            continue;
        }
        assert(shape_refusal(pkg, ctx, i as int) is None);
        match &raw.data {
            Ok(d) => {
                if d.kind() != raw.kind {
                    report(
                        &mut issues,
                        text::concat(path.as_str(), ".data"),
                        "bad_request",
                        text::owned("payload does not match the record kind"),
                    );
                } else if issues.len() == 0 {
                    let rec = stage_record(raw, d, seq, now, ctx, &mut plan.resolved_previous);
                    staged.push(rec);
                }
            },
            Err(msg) => {
                report(&mut issues, text::concat(path.as_str(), ".data"), "bad_request", msg.clone());
            },
        }
        i += 1;
    }
    if issues.len() > 0 {
        return Err(issues);
    }
    assert(shape_ok(pkg, ctx));

    // --- semantics --------------------------------------------------------
    assert(staged_right(pkg, ctx, seq, now@, staged@));
    let lk = Overlay { base: ctx, added: &staged };
    let mut i: usize = 0;
    while i < staged.len()
        invariant
            0 <= i <= staged@.len(),
            lk == (Overlay { base: ctx, added: &staged }),
            plan.records@.len() == 0,
            plan.head_records@.len() == 0,
            plan.head_updates@.len() == 0,
            issues@.len() == 0 ==> forall|j: int|
                0 <= j < i ==> !breaks_rule(&lk, ctx, #[trigger] staged@[j]),
            issues@.len() == 0 <==> forall|j: int| 0 <= j < i ==> #[trigger] record_clean(&lk, ctx, staged@[j]),
        decreases staged@.len() - i,
    {
        let ghost at = issues@.len();
        validate_record(&staged[i], index_path("records", i).as_str(), &lk, ctx, &mut issues, &mut plan);
        proof {
            if (forall|j: int| 0 <= j < i ==> #[trigger] record_clean(&lk, ctx, staged@[j])) && record_clean(&lk, ctx, staged@[i as int]) {
                assert forall|j: int| 0 <= j < i + 1 implies #[trigger] record_clean(&lk, ctx, staged@[j]) by {
                    if j == i {
                        assert(record_clean(&lk, ctx, staged@[i as int]));
                    }
                }
            }
        }
        i += 1;
    }
    detect_cycles(&staged, &mut issues);
    detect_history_cycles(ctx, &staged, &mut issues);
    warn_missing_goals(&staged, &mut plan);
    let head_records = validate_root_change(pkg, ctx, &lk, seq, now, &mut issues, &mut plan);
    assert(issues@.len() == 0 <==> staging_clean(pkg, ctx, &staged));
    proof {
        if package_follows_rules(pkg, ctx, seq, now@) {
            assert(staging_clean(pkg, ctx, &staged));
        }
    }

    if issues.len() > 0 {
        return Err(issues);
    }
    plan.records = staged;
    plan.head_records = head_records;
    Ok(plan)
}

} // verus!
