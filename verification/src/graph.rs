//! Composition over a set of records: slot-path resolution, containment kinds
//! and bounded occurrence traversal. No storage access.

use vstd::prelude::*;

use crate::model::{copy_strings, views, NodeKind, RecordData, RecordKind, Slot, StoredRecord};
use crate::text;

verus! {

pub const MAX_DEPTH: usize = 32;

/// A read-only view of records by id.
pub trait Lookup {
    /// The record stored under `id`, if any.
    spec fn holds(&self, id: Seq<char>) -> Option<StoredRecord>;

    fn get(&self, id: &str) -> (r: Option<&StoredRecord>)
        ensures
            match r {
                Some(x) => self.holds(id@) == Some(*x) && x.id@ == id@,
                None => self.holds(id@) is None,
            },
    ;
}

/// The first record of `rs` whose id is `id`.
pub open spec fn first_with_id(rs: Seq<StoredRecord>, id: Seq<char>) -> Option<StoredRecord>
    decreases rs.len(),
{
    if rs.len() == 0 {
        None
    } else if rs[0].id@ == id {
        Some(rs[0])
    } else {
        first_with_id(rs.drop_first(), id)
    }
}

proof fn lemma_first_with_id_skip(rs: Seq<StoredRecord>, id: Seq<char>, i: int)
    requires
        0 <= i <= rs.len(),
        forall|j: int| 0 <= j < i ==> (#[trigger] rs[j]).id@ != id,
    ensures
        first_with_id(rs, id) == first_with_id(rs.skip(i), id),
    decreases i,
{
    if i > 0 {
        lemma_first_with_id_skip(rs.drop_first(), id, i - 1);
        assert(rs.drop_first().skip(i - 1) == rs.skip(i));
    } else {
        assert(rs.skip(0) == rs);
    }
}

/// No record of `rs` has an id under which nothing is found.
pub proof fn lemma_absent_id(rs: Seq<StoredRecord>, id: Seq<char>, i: int)
    requires
        first_with_id(rs, id) is None,
        0 <= i < rs.len(),
    ensures
        rs[i].id@ != id,
    decreases rs.len(),
{
    if i > 0 {
        lemma_absent_id(rs.drop_first(), id, i - 1);
    }
}

/// A record added under a new id is found under it, and every id found
/// before is found as before: records are never shadowed by later ones.
pub proof fn law_add_then_find(rs: Seq<StoredRecord>, rec: StoredRecord, id: Seq<char>)
    ensures
        first_with_id(rs, rec.id@) is None ==> first_with_id(rs.push(rec), rec.id@) == Some(rec),
        first_with_id(rs, id) is Some ==> first_with_id(rs.push(rec), id) == first_with_id(rs, id),
        id != rec.id@ ==> first_with_id(rs.push(rec), id) == first_with_id(rs, id),
    decreases rs.len(),
{
    if rs.len() > 0 {
        law_add_then_find(rs.drop_first(), rec, id);
        assert(rs.push(rec).drop_first() =~= rs.drop_first().push(rec));
        assert(rs.push(rec)[0] == rs[0]);
        if rs[0].id@ != id {
            assert(first_with_id(rs.push(rec), id) == first_with_id(rs.drop_first().push(rec), id));
        }
        if rs[0].id@ != rec.id@ {
            assert(first_with_id(rs.push(rec), rec.id@) == first_with_id(rs.drop_first().push(rec), rec.id@));
        }
    } else {
        assert(rs.push(rec).drop_first() =~= Seq::<StoredRecord>::empty());
        assert(rs.push(rec)[0] == rec);
        assert(first_with_id(Seq::<StoredRecord>::empty(), id) is None);
        assert(first_with_id(rs, id) is None);
    }
}

/// Find the first record with `id` in a list of records.
pub fn find_record<'a>(rs: &'a Vec<StoredRecord>, id: &str) -> (r: Option<&'a StoredRecord>)
    ensures
        match r {
            Some(x) => first_with_id(rs@, id@) == Some(*x) && x.id@ == id@,
            None => first_with_id(rs@, id@) is None,
        },
{
    let mut i: usize = 0;
    while i < rs.len()
        invariant
            0 <= i <= rs@.len(),
            forall|j: int| 0 <= j < i ==> (#[trigger] rs@[j]).id@ != id@,
        decreases rs@.len() - i,
    {
        if text::str_eq(rs[i].id.as_str(), id) {
            proof {
                lemma_first_with_id_skip(rs@, id@, i as int);
            }
            return Some(&rs[i]);
        }
        i += 1;
    }
    proof {
        lemma_first_with_id_skip(rs@, id@, rs@.len() as int);
    }
    None
}

impl Lookup for Vec<StoredRecord> {
    open spec fn holds(&self, id: Seq<char>) -> Option<StoredRecord> {
        first_with_id(self@, id)
    }

    fn get(&self, id: &str) -> (r: Option<&StoredRecord>) {
        find_record(self, id)
    }
}

/// Path resolution faults, as values.
#[derive(Debug)]
pub enum PathError {
    RootMissing,
    RootNotRevision,
    SlotMissing { at: Vec<String>, slot_id: String },
    ChildMissing { at: Vec<String>, revision_id: String },
    TooDeep,
}

/// The mathematical value of a [`PathError`].
pub enum PathFault {
    RootMissing,
    RootNotRevision,
    SlotMissing(Seq<Seq<char>>, Seq<char>),
    ChildMissing(Seq<Seq<char>>, Seq<char>),
    TooDeep,
}

impl PathError {
    pub open spec fn fault(&self) -> PathFault {
        match self {
            PathError::RootMissing => PathFault::RootMissing,
            PathError::RootNotRevision => PathFault::RootNotRevision,
            PathError::SlotMissing { at, slot_id } => PathFault::SlotMissing(views(at@), slot_id@),
            PathError::ChildMissing { at, revision_id } => PathFault::ChildMissing(
                views(at@),
                revision_id@,
            ),
            PathError::TooDeep => PathFault::TooDeep,
        }
    }

    pub open spec fn text(&self) -> Seq<char> {
        match self {
            PathError::RootMissing => "root revision not found"@,
            PathError::RootNotRevision => "root id is not a revision"@,
            PathError::SlotMissing { at, slot_id } => "slot '"@ + slot_id@ + "' not found at path "@
                + path_text(views(at@)),
            PathError::ChildMissing { at, revision_id } => "revision "@ + revision_id@
                + " not found at path "@ + path_text(views(at@)),
            PathError::TooDeep => "slot path deeper than 32"@,
        }
    }

    /// Human-readable description of the fault.
    pub fn message(&self) -> (r: String)
        ensures
            r@ == self.text(),
    {
        match self {
            PathError::RootMissing => text::owned("root revision not found"),
            PathError::RootNotRevision => text::owned("root id is not a revision"),
            PathError::SlotMissing { at, slot_id } => {
                let mut m = text::owned("slot '");
                text::push_str(&mut m, slot_id.as_str());
                text::push_str(&mut m, "' not found at path ");
                let p = render_path(at);
                text::push_str(&mut m, p.as_str());
                m
            },
            PathError::ChildMissing { at, revision_id } => {
                let mut m = text::owned("revision ");
                text::push_str(&mut m, revision_id.as_str());
                text::push_str(&mut m, " not found at path ");
                let p = render_path(at);
                text::push_str(&mut m, p.as_str());
                m
            },
            PathError::TooDeep => text::owned("slot path deeper than 32"),
        }
    }
}

/// Segments joined by `/`, each preceded by one.
pub open spec fn joined(path: Seq<Seq<char>>) -> Seq<char>
    decreases path.len(),
{
    if path.len() == 0 {
        Seq::empty()
    } else {
        joined(path.drop_last()) + seq!['/'] + path.last()
    }
}

/// `/` for the root, `/a/b` below it.
pub open spec fn path_text(path: Seq<Seq<char>>) -> Seq<char> {
    if path.len() == 0 {
        seq!['/']
    } else {
        joined(path)
    }
}

pub fn render_path(path: &Vec<String>) -> (r: String)
    ensures
        r@ == path_text(views(path@)),
{
    if path.len() == 0 {
        let mut r = String::new();
        text::push_char(&mut r, '/');
        return r;
    }
    let mut r = String::new();
    let mut i: usize = 0;
    while i < path.len()
        invariant
            0 <= i <= path@.len(),
            r@ == joined(views(path@.take(i as int))),
        decreases path@.len() - i,
    {
        text::push_char(&mut r, '/');
        text::push_str(&mut r, path[i].as_str());
        assert(views(path@.take(i + 1)).drop_last() == views(path@.take(i as int)));
        i += 1;
    }
    assert(path@.take(path@.len() as int) == path@);
    r
}

// ---------------------------------------------------------------- kinds

/// Containment kind of a revision: its owner's entity kind, or `Project` when
/// the owner is a project record.
pub open spec fn kind_of_revision<L: Lookup>(lk: &L, revision: StoredRecord) -> Option<NodeKind> {
    match revision.data {
        RecordData::Revision(r) => match lk.holds(r.entity_id@) {
            Some(owner) => match owner.data {
                RecordData::Project(_) => Some(NodeKind::Project),
                RecordData::Entity(e) => Some(NodeKind::of_entity(e.entity_kind)),
                _ => None,
            },
            None => None,
        },
        _ => None,
    }
}

pub fn node_kind<L: Lookup>(lk: &L, revision: &StoredRecord) -> (r: Option<NodeKind>)
    ensures
        r == kind_of_revision(lk, *revision),
{
    let rev = match revision.as_revision() {
        Some(r) => r,
        None => return None,
    };
    let owner = match lk.get(rev.entity_id.as_str()) {
        Some(o) => o,
        None => return None,
    };
    match &owner.data {
        RecordData::Project(_) => Some(NodeKind::Project),
        RecordData::Entity(e) => Some(NodeKind::from_entity(e.entity_kind)),
        _ => None,
    }
}

/// Origin project of a revision: the entity's origin project, or the project
/// itself for a project-root revision.
pub open spec fn origin_of_revision<L: Lookup>(lk: &L, revision: StoredRecord) -> Option<Seq<char>> {
    match revision.data {
        RecordData::Revision(r) => match lk.holds(r.entity_id@) {
            Some(owner) => match owner.data {
                RecordData::Project(_) => Some(owner.id@),
                RecordData::Entity(e) => Some(e.project_id@),
                _ => None,
            },
            None => None,
        },
        _ => None,
    }
}

pub fn origin_project<L: Lookup>(lk: &L, revision: &StoredRecord) -> (r: Option<String>)
    ensures
        match r {
            Some(p) => origin_of_revision(lk, *revision) == Some(p@),
            None => origin_of_revision(lk, *revision) is None,
        },
{
    let rev = match revision.as_revision() {
        Some(r) => r,
        None => return None,
    };
    let owner = match lk.get(rev.entity_id.as_str()) {
        Some(o) => o,
        None => return None,
    };
    match &owner.data {
        RecordData::Project(_) => Some(owner.id.clone()),
        RecordData::Entity(e) => Some(e.project_id.clone()),
        _ => None,
    }
}

// ---------------------------------------------------------------- paths

/// The first slot of `slots` named `slot_id`.
pub open spec fn slot_named(slots: Seq<Slot>, slot_id: Seq<char>) -> Option<Slot>
    decreases slots.len(),
{
    if slots.len() == 0 {
        None
    } else if slots[0].slot_id@ == slot_id {
        Some(slots[0])
    } else {
        slot_named(slots.drop_first(), slot_id)
    }
}

/// Follow `path[i..]` down from the revision `cur`.
pub open spec fn follow<L: Lookup>(lk: &L, cur: StoredRecord, path: Seq<Seq<char>>, i: nat) -> Result<
    StoredRecord,
    PathFault,
>
    decreases path.len() - i,
{
    if i >= path.len() {
        Ok(cur)
    } else {
        match cur.data {
            RecordData::Revision(r) => match slot_named(r.slots@, path[i as int]) {
                None => Err(PathFault::SlotMissing(path.take(i as int), path[i as int])),
                Some(s) => match lk.holds(s.revision_id@) {
                    Some(child) => if child.kind_of() == RecordKind::Revision {
                        follow(lk, child, path, i + 1)
                    } else {
                        Err(PathFault::ChildMissing(path.take(i as int + 1), s.revision_id@))
                    },
                    None => Err(PathFault::ChildMissing(path.take(i as int + 1), s.revision_id@)),
                },
            },
            _ => Err(PathFault::RootNotRevision),
        }
    }
}

/// The revision that `slot_path` pins under `root_id`, or why there is none.
pub open spec fn resolved<L: Lookup>(lk: &L, root_id: Seq<char>, slot_path: Seq<Seq<char>>) -> Result<
    StoredRecord,
    PathFault,
> {
    if slot_path.len() > MAX_DEPTH {
        Err(PathFault::TooDeep)
    } else {
        match lk.holds(root_id) {
            None => Err(PathFault::RootMissing),
            Some(root) => if root.kind_of() != RecordKind::Revision {
                Err(PathFault::RootNotRevision)
            } else {
                follow(lk, root, slot_path, 0)
            },
        }
    }
}

pub(crate) fn find_slot<'a>(slots: &'a Vec<Slot>, slot_id: &str) -> (r: Option<&'a Slot>)
    ensures
        match r {
            Some(s) => slot_named(slots@, slot_id@) == Some(*s),
            None => slot_named(slots@, slot_id@) is None,
        },
{
    let mut i: usize = 0;
    assert(slots@.skip(0) == slots@);
    while i < slots.len()
        invariant
            0 <= i <= slots@.len(),
            slot_named(slots@, slot_id@) == slot_named(slots@.skip(i as int), slot_id@),
        decreases slots@.len() - i,
    {
        assert(slots@.skip(i as int).drop_first() == slots@.skip(i + 1));
        if text::str_eq(slots[i].slot_id.as_str(), slot_id) {
            return Some(&slots[i]);
        }
        i += 1;
    }
    None
}

pub(crate) fn copy_prefix(path: &Vec<String>, n: usize) -> (r: Vec<String>)
    requires
        n <= path@.len(),
    ensures
        views(r@) == views(path@).take(n as int),
{
    let mut r: Vec<String> = Vec::new();
    let mut i: usize = 0;
    while i < n
        invariant
            0 <= i <= n <= path@.len(),
            r@ == path@.take(i as int),
        decreases n - i,
    {
        r.push(path[i].clone());
        assert(r@ =~= path@.take(i + 1));
        i += 1;
    }
    assert(views(r@) =~= views(path@).take(n as int));
    r
}

/// Follow `slot_path` from `root_id` and return the revision it pins.
pub fn resolve_path<'a, L: Lookup>(lk: &'a L, root_id: &str, slot_path: &Vec<String>) -> (r: Result<
    &'a StoredRecord,
    PathError,
>)
    ensures
        match r {
            Ok(found) => resolved(lk, root_id@, views(slot_path@)) == Ok::<StoredRecord, PathFault>(
                *found,
            ),
            Err(e) => resolved(lk, root_id@, views(slot_path@)) == Err::<StoredRecord, PathFault>(
                e.fault(),
            ),
        },
{
    let ghost p = views(slot_path@);
    if slot_path.len() > MAX_DEPTH {
        return Err(PathError::TooDeep);
    }
    let mut current = match lk.get(root_id) {
        Some(c) => c,
        None => return Err(PathError::RootMissing),
    };
    if current.kind() != RecordKind::Revision {
        return Err(PathError::RootNotRevision);
    }
    let mut i: usize = 0;
    while i < slot_path.len()
        invariant
            0 <= i <= slot_path@.len(),
            p == views(slot_path@),
            resolved(lk, root_id@, p) == follow(lk, *current, p, i as nat),
        decreases slot_path@.len() - i,
    {
        let rev = match current.as_revision() {
            Some(r) => r,
            None => return Err(PathError::RootNotRevision),
        };
        let slot = match find_slot(&rev.slots, slot_path[i].as_str()) {
            Some(s) => s,
            None => {
                let at = copy_prefix(slot_path, i);
                return Err(PathError::SlotMissing { at, slot_id: slot_path[i].clone() });
            },
        };
        let next = match lk.get(slot.revision_id.as_str()) {
            Some(c) => c,
            None => {
                let at = copy_prefix(slot_path, i + 1);
                return Err(PathError::ChildMissing { at, revision_id: slot.revision_id.clone() });
            },
        };
        if next.kind() != RecordKind::Revision {
            let at = copy_prefix(slot_path, i + 1);
            return Err(PathError::ChildMissing { at, revision_id: slot.revision_id.clone() });
        }
        current = next;
        i += 1;
    }
    Ok(current)
}


// ---------------------------------------------------------------- traversal

/// `parent` is a revision with a slot named `slot_id` that pins the revision
/// `child` under `roles`.
pub open spec fn pins<L: Lookup>(
    lk: &L,
    parent: Seq<char>,
    slot_id: Seq<char>,
    child: Seq<char>,
    roles: Seq<Seq<char>>,
) -> bool {
    match lk.holds(parent) {
        Some(p) => match p.data {
            RecordData::Revision(r) => {
                &&& exists|k: int|
                    0 <= k < r.slots@.len() && (#[trigger] r.slots@[k]).slot_id@ == slot_id
                        && r.slots@[k].revision_id@ == child && views(r.slots@[k].roles@)
                        == roles
                &&& is_revision(lk, child)
            },
            _ => false,
        },
        None => false,
    }
}

/// `id` names a revision record.
pub open spec fn is_revision<L: Lookup>(lk: &L, id: Seq<char>) -> bool {
    match lk.holds(id) {
        Some(r) => r.kind_of() == RecordKind::Revision,
        None => false,
    }
}

/// Walking the slots of `path` down from the revision `root` can arrive at
/// the revision `id` (through any slot of each name).
pub open spec fn reaches<L: Lookup>(lk: &L, root: Seq<char>, path: Seq<Seq<char>>, id: Seq<char>) -> bool
    decreases path.len(),
{
    if path.len() == 0 {
        id == root && is_revision(lk, root)
    } else {
        exists|p: Seq<char>, roles: Seq<Seq<char>>|
            #![trigger pins(lk, p, path.last(), id, roles)]
            reaches(lk, root, path.drop_last(), p) && pins(lk, p, path.last(), id, roles)
    }
}

/// One use site of a revision inside a composition.
#[derive(Debug)]
pub struct Occurrence {
    pub slot_path: Vec<String>,
    pub revision_id: String,
    pub roles: Vec<String>,
    pub parent_revision_id: Option<String>,
    pub depth: usize,
}

impl Occurrence {
    /// The occurrence is a genuine use site under `root`: its slot path
    /// arrives at its revision from its parent, with the parent's slot roles.
    pub open spec fn sited<L: Lookup>(&self, lk: &L, root: Seq<char>, limits: Limits) -> bool {
        let path = views(self.slot_path@);
        &&& self.depth <= limits.max_depth
        &&& path.len() == self.depth
        &&& reaches(lk, root, path, self.revision_id@)
        &&& match self.parent_revision_id {
            None => self.depth == 0 && self.roles@.len() == 0,
            Some(p) => {
                &&& self.depth > 0
                &&& reaches(lk, root, path.drop_last(), p@)
                &&& pins(lk, p@, path.last(), self.revision_id@, views(self.roles@))
            },
        }
    }
}

/// Node and depth budget of a traversal.
#[derive(Clone, Copy, Debug)]
pub struct Limits {
    pub max_nodes: usize,
    pub max_depth: usize,
}

impl Default for Limits {
    fn default() -> (r: Limits)
        ensures
            r.max_nodes == 500 && r.max_depth == MAX_DEPTH,
    {
        Limits { max_nodes: 500, max_depth: MAX_DEPTH }
    }
}

/// Result of a depth-first traversal of a pinned composition.
#[derive(Debug)]
pub struct Walk {
    /// Every use site in depth-first order; a shared revision appears once
    /// per use site.
    pub occurrences: Vec<Occurrence>,
    /// Distinct revision ids in first-visit order.
    pub revisions: Vec<String>,
    pub truncated: bool,
    pub max_depth_reached: usize,
    /// Referenced ids that are not revisions of the lookup.
    pub missing: Vec<String>,
}

/// Revision ids of a run of occurrences.
pub open spec fn occ_ids(occs: Seq<Occurrence>) -> Seq<Seq<char>> {
    occs.map_values(|o: Occurrence| o.revision_id@)
}

/// The values of one use site: its slot path, revision, roles, parent and
/// depth.
pub type OccView = (Seq<Seq<char>>, Seq<char>, Seq<Seq<char>>, Option<Seq<char>>, nat);

/// The values of a walk: its use sites, distinct revisions, truncation,
/// deepest depth and missing references.
pub type WalkView = (Seq<OccView>, Seq<Seq<char>>, bool, nat, Seq<Seq<char>>);

pub open spec fn opt_text(o: Option<String>) -> Option<Seq<char>> {
    match o {
        Some(s) => Some(s@),
        None => None,
    }
}

pub open spec fn occ_view(o: Occurrence) -> OccView {
    (views(o.slot_path@), o.revision_id@, views(o.roles@), opt_text(o.parent_revision_id), o.depth as nat)
}

pub open spec fn walk_view(w: Walk) -> WalkView {
    (w.occurrences@.map_values(|o: Occurrence| occ_view(o)), views(w.revisions@), w.truncated, w.max_depth_reached as nat, views(w.missing@))
}

/// The visit of the revision `id` reached through `path` with `roles` from
/// `parent` at `depth`, continuing the walk `st` with `on_path` the revisions
/// being expanded above it: one use site while the node budget lasts, then,
/// below the depth limit and outside a cycle, its slots in order.
pub open spec fn visit_v<L: Lookup>(
    lk: &L,
    id: Seq<char>,
    path: Seq<Seq<char>>,
    roles: Seq<Seq<char>>,
    parent: Option<Seq<char>>,
    depth: nat,
    limits: Limits,
    st: WalkView,
    on_path: Seq<Seq<char>>,
) -> WalkView
    decreases limits.max_depth - depth, 1nat, 0nat,
{
    if st.0.len() >= limits.max_nodes {
        (st.0, st.1, true, st.3, st.4)
    } else {
        let occs = st.0.push((path, id, roles, parent, depth));
        let revs = if st.1.contains(id) { st.1 } else { st.1.push(id) };
        let deepest = if depth > st.3 { depth } else { st.3 };
        let st1 = (occs, revs, st.2, deepest, st.4);
        match lk.holds(id) {
            Some(rec) => match rec.data {
                RecordData::Revision(rev) => if depth >= limits.max_depth {
                    (st1.0, st1.1, st1.2 || rev.slots@.len() > 0, st1.3, st1.4)
                } else if on_path.contains(id) {
                    st1
                } else {
                    slots_v(lk, id, rev.slots@, rev.slots@.len(), path, depth, limits, st1, on_path.push(id))
                },
                _ => st1,
            },
            None => st1,
        }
    }
}

/// The walk after visiting the first `k` slots of the revision `id`.
pub open spec fn slots_v<L: Lookup>(
    lk: &L,
    id: Seq<char>,
    slots: Seq<Slot>,
    k: nat,
    path: Seq<Seq<char>>,
    depth: nat,
    limits: Limits,
    st: WalkView,
    on_path: Seq<Seq<char>>,
) -> WalkView
    decreases limits.max_depth - depth, 0nat, k,
{
    if k == 0 || depth >= limits.max_depth || k > slots.len() {
        st
    } else {
        let prev = slots_v(lk, id, slots, (k - 1) as nat, path, depth, limits, st, on_path);
        let slot = slots[k - 1];
        if is_revision(lk, slot.revision_id@) {
            visit_v(
                lk,
                slot.revision_id@,
                path.push(slot.slot_id@),
                views(slot.roles@),
                Some(id),
                depth + 1,
                limits,
                prev,
                on_path,
            )
        } else {
            (prev.0, prev.1, prev.2, prev.3, prev.4.push(slot.revision_id@))
        }
    }
}

/// `q` leads by slot names from the revision `id` to the revision `target`
/// through revisions of the lookup, none of them twice and none in `avoid`.
pub open spec fn simple_path<L: Lookup>(
    lk: &L,
    id: Seq<char>,
    q: Seq<Seq<char>>,
    target: Seq<char>,
    avoid: Seq<Seq<char>>,
) -> bool
    decreases q.len(),
{
    &&& is_revision(lk, id)
    &&& !avoid.contains(id)
    &&& if q.len() == 0 {
        target == id
    } else {
        match lk.holds(id) {
            Some(rec) => match rec.data {
                RecordData::Revision(rev) => exists|k: int|
                    0 <= k < rev.slots@.len() && (#[trigger] rev.slots@[k]).slot_id@ == q[0] && simple_path(
                        lk,
                        rev.slots@[k].revision_id@,
                        q.drop_first(),
                        target,
                        avoid.push(id),
                    ),
                _ => false,
            },
            None => false,
        }
    }
}

proof fn lemma_visit_grows<L: Lookup>(
    lk: &L,
    id: Seq<char>,
    path: Seq<Seq<char>>,
    roles: Seq<Seq<char>>,
    parent: Option<Seq<char>>,
    depth: nat,
    limits: Limits,
    st: WalkView,
    on_path: Seq<Seq<char>>,
)
    ensures
        ({
            let r = visit_v(lk, id, path, roles, parent, depth, limits, st, on_path);
            &&& st.0.len() <= r.0.len()
            &&& forall|i: int| 0 <= i < st.0.len() ==> r.0[i] == st.0[i]
            &&& st.2 ==> r.2
        }),
    decreases limits.max_depth - depth, 1nat, 0nat,
{
    if st.0.len() < limits.max_nodes {
        let st1 = (
            st.0.push((path, id, roles, parent, depth)),
            if st.1.contains(id) { st.1 } else { st.1.push(id) },
            st.2,
            if depth > st.3 { depth } else { st.3 },
            st.4,
        );
        if let Some(rec) = lk.holds(id) {
            if let RecordData::Revision(rev) = rec.data {
                if depth < limits.max_depth && !on_path.contains(id) {
                    lemma_slots_grows(lk, id, rev.slots@, rev.slots@.len(), path, depth, limits, st1, on_path.push(id));
                }
            }
        }
    }
}

proof fn lemma_slots_grows<L: Lookup>(
    lk: &L,
    id: Seq<char>,
    slots: Seq<Slot>,
    k: nat,
    path: Seq<Seq<char>>,
    depth: nat,
    limits: Limits,
    st: WalkView,
    on_path: Seq<Seq<char>>,
)
    ensures
        ({
            let r = slots_v(lk, id, slots, k, path, depth, limits, st, on_path);
            &&& st.0.len() <= r.0.len()
            &&& forall|i: int| 0 <= i < st.0.len() ==> r.0[i] == st.0[i]
            &&& st.2 ==> r.2
        }),
    decreases limits.max_depth - depth, 0nat, k,
{
    if !(k == 0 || depth >= limits.max_depth || k > slots.len()) {
        let prev = slots_v(lk, id, slots, (k - 1) as nat, path, depth, limits, st, on_path);
        lemma_slots_grows(lk, id, slots, (k - 1) as nat, path, depth, limits, st, on_path);
        let slot = slots[k - 1];
        if is_revision(lk, slot.revision_id@) {
            lemma_visit_grows(
                lk,
                slot.revision_id@,
                path.push(slot.slot_id@),
                views(slot.roles@),
                Some(id),
                depth + 1,
                limits,
                prev,
                on_path,
            );
        }
    }
}

proof fn lemma_visit_complete<L: Lookup>(
    lk: &L,
    id: Seq<char>,
    path: Seq<Seq<char>>,
    roles: Seq<Seq<char>>,
    parent: Option<Seq<char>>,
    depth: nat,
    limits: Limits,
    st: WalkView,
    on_path: Seq<Seq<char>>,
    q: Seq<Seq<char>>,
    target: Seq<char>,
)
    requires
        simple_path(lk, id, q, target, on_path),
        !visit_v(lk, id, path, roles, parent, depth, limits, st, on_path).2,
    ensures
        ({
            let r = visit_v(lk, id, path, roles, parent, depth, limits, st, on_path);
            exists|i: int| 0 <= i < r.0.len() && r.0[i].0 == path + q && r.0[i].1 == target
        }),
    decreases limits.max_depth - depth, 1nat, 0nat,
{
    let r = visit_v(lk, id, path, roles, parent, depth, limits, st, on_path);
    let st1 = (
        st.0.push((path, id, roles, parent, depth)),
        if st.1.contains(id) { st.1 } else { st.1.push(id) },
        st.2,
        if depth > st.3 { depth } else { st.3 },
        st.4,
    );
    let n = st.0.len() as int;
    let rec = lk.holds(id).unwrap();
    if let RecordData::Revision(rev) = rec.data {
        if q.len() == 0 {
            assert(path + q =~= path);
            if depth < limits.max_depth {
                lemma_slots_grows(lk, id, rev.slots@, rev.slots@.len(), path, depth, limits, st1, on_path.push(id));
            }
            assert(r.0[n] == st1.0[n]);
        } else {
            let k = choose|k: int|
                0 <= k < rev.slots@.len() && (#[trigger] rev.slots@[k]).slot_id@ == q[0] && simple_path(
                    lk,
                    rev.slots@[k].revision_id@,
                    q.drop_first(),
                    target,
                    on_path.push(id),
                );
            if depth < limits.max_depth {
                lemma_slots_complete(
                    lk,
                    id,
                    rev.slots@,
                    rev.slots@.len(),
                    path,
                    depth,
                    limits,
                    st1,
                    on_path.push(id),
                    k,
                    q.drop_first(),
                    target,
                );
                assert(path.push(rev.slots@[k].slot_id@) + q.drop_first() =~= path + q);
            }
        }
    }
}

proof fn lemma_slots_complete<L: Lookup>(
    lk: &L,
    id: Seq<char>,
    slots: Seq<Slot>,
    k: nat,
    path: Seq<Seq<char>>,
    depth: nat,
    limits: Limits,
    st: WalkView,
    on_path: Seq<Seq<char>>,
    j: int,
    q: Seq<Seq<char>>,
    target: Seq<char>,
)
    requires
        0 <= j < k <= slots.len(),
        depth < limits.max_depth,
        simple_path(lk, slots[j].revision_id@, q, target, on_path),
        !slots_v(lk, id, slots, k, path, depth, limits, st, on_path).2,
    ensures
        ({
            let r = slots_v(lk, id, slots, k, path, depth, limits, st, on_path);
            exists|i: int| 0 <= i < r.0.len() && r.0[i].0 == path.push(slots[j].slot_id@) + q && r.0[i].1 == target
        }),
    decreases limits.max_depth - depth, 0nat, k,
{
    let r = slots_v(lk, id, slots, k, path, depth, limits, st, on_path);
    let prev = slots_v(lk, id, slots, (k - 1) as nat, path, depth, limits, st, on_path);
    let slot = slots[k - 1];
    if is_revision(lk, slot.revision_id@) {
        lemma_visit_grows(
            lk,
            slot.revision_id@,
            path.push(slot.slot_id@),
            views(slot.roles@),
            Some(id),
            depth + 1,
            limits,
            prev,
            on_path,
        );
        if j == k - 1 {
            lemma_visit_complete(
                lk,
                slot.revision_id@,
                path.push(slot.slot_id@),
                views(slot.roles@),
                Some(id),
                depth + 1,
                limits,
                prev,
                on_path,
                q,
                target,
            );
        } else {
            lemma_slots_complete(lk, id, slots, (k - 1) as nat, path, depth, limits, st, on_path, j, q, target);
            let i = choose|i: int|
                0 <= i < prev.0.len() && prev.0[i].0 == path.push(slots[j].slot_id@) + q && prev.0[i].1 == target;
            assert(r.0[i] == prev.0[i]);
        }
    } else {
        assert(r.0 == prev.0 && r.2 == prev.2);
        if j < k - 1 {
            lemma_slots_complete(lk, id, slots, (k - 1) as nat, path, depth, limits, st, on_path, j, q, target);
            let i = choose|i: int|
                0 <= i < prev.0.len() && prev.0[i].0 == path.push(slots[j].slot_id@) + q && prev.0[i].1 == target;
            assert(r.0[i] == prev.0[i]);
        } else {
            assert(is_revision(lk, slots[j].revision_id@));
        }
    }
}

/// The use site `o` is at the depth limit on a revision that has slots: the
/// walk leaves them out.
pub open spec fn cut_at<L: Lookup>(lk: &L, limits: Limits, o: OccView) -> bool {
    &&& o.4 >= limits.max_depth
    &&& lk.holds(o.1) matches Some(rec)
    &&& rec.data matches RecordData::Revision(rev)
    &&& rev.slots@.len() > 0
}

/// Why a walk is truncated: it started so, its node budget is spent, or a use
/// site sits at the depth limit with slots left out.
pub open spec fn truncation_explained<L: Lookup>(lk: &L, limits: Limits, st: WalkView, r: WalkView) -> bool {
    r.2 ==> (st.2 || r.0.len() == limits.max_nodes || exists|i: int|
        0 <= i < r.0.len() && #[trigger] cut_at(lk, limits, r.0[i]))
}

proof fn lemma_visit_truncation<L: Lookup>(
    lk: &L,
    id: Seq<char>,
    path: Seq<Seq<char>>,
    roles: Seq<Seq<char>>,
    parent: Option<Seq<char>>,
    depth: nat,
    limits: Limits,
    st: WalkView,
    on_path: Seq<Seq<char>>,
)
    requires
        st.0.len() <= limits.max_nodes,
    ensures
        visit_v(lk, id, path, roles, parent, depth, limits, st, on_path).0.len() <= limits.max_nodes,
        truncation_explained(lk, limits, st, visit_v(lk, id, path, roles, parent, depth, limits, st, on_path)),
    decreases limits.max_depth - depth, 1nat, 0nat,
{
    let r = visit_v(lk, id, path, roles, parent, depth, limits, st, on_path);
    if st.0.len() < limits.max_nodes {
        let st1 = (
            st.0.push((path, id, roles, parent, depth)),
            if st.1.contains(id) { st.1 } else { st.1.push(id) },
            st.2,
            if depth > st.3 { depth } else { st.3 },
            st.4,
        );
        if let Some(rec) = lk.holds(id) {
            if let RecordData::Revision(rev) = rec.data {
                if depth >= limits.max_depth {
                    let n = st.0.len() as int;
                    assert(r.0[n] == (path, id, roles, parent, depth));
                    if rev.slots@.len() > 0 {
                        assert(cut_at(lk, limits, r.0[n]));
                    }
                } else if !on_path.contains(id) {
                    lemma_slots_truncation(lk, id, rev.slots@, rev.slots@.len(), path, depth, limits, st1, on_path.push(id));
                }
            }
        }
    }
}

proof fn lemma_slots_truncation<L: Lookup>(
    lk: &L,
    id: Seq<char>,
    slots: Seq<Slot>,
    k: nat,
    path: Seq<Seq<char>>,
    depth: nat,
    limits: Limits,
    st: WalkView,
    on_path: Seq<Seq<char>>,
)
    requires
        st.0.len() <= limits.max_nodes,
    ensures
        slots_v(lk, id, slots, k, path, depth, limits, st, on_path).0.len() <= limits.max_nodes,
        truncation_explained(lk, limits, st, slots_v(lk, id, slots, k, path, depth, limits, st, on_path)),
    decreases limits.max_depth - depth, 0nat, k,
{
    if !(k == 0 || depth >= limits.max_depth || k > slots.len()) {
        let prev = slots_v(lk, id, slots, (k - 1) as nat, path, depth, limits, st, on_path);
        let r = slots_v(lk, id, slots, k, path, depth, limits, st, on_path);
        lemma_slots_truncation(lk, id, slots, (k - 1) as nat, path, depth, limits, st, on_path);
        let slot = slots[k - 1];
        if is_revision(lk, slot.revision_id@) {
            let cp = path.push(slot.slot_id@);
            let cr = views(slot.roles@);
            lemma_visit_truncation(lk, slot.revision_id@, cp, cr, Some(id), depth + 1, limits, prev, on_path);
            lemma_visit_grows(lk, slot.revision_id@, cp, cr, Some(id), depth + 1, limits, prev, on_path);
            if r.2 && !st.2 && r.0.len() != limits.max_nodes {
                if prev.2 {
                    if prev.0.len() != limits.max_nodes {
                        let i = choose|i: int| 0 <= i < prev.0.len() && #[trigger] cut_at(lk, limits, prev.0[i]);
                        assert(r.0[i] == prev.0[i]);
                        assert(cut_at(lk, limits, r.0[i]));
                    }
                }
            }
        }
    }
}

/// A walk is truncated only for a reason: it lists no more use sites than
/// its node budget, and when truncated either the budget is spent or some use
/// site sits at the depth limit on a revision whose slots it leaves out.
pub proof fn law_walk_truncated_only_when_cut<L: Lookup>(lk: &L, root: Seq<char>, limits: Limits)
    ensures
        walk_v(lk, root, limits).0.len() <= limits.max_nodes,
        walk_v(lk, root, limits).2 ==> (walk_v(lk, root, limits).0.len() == limits.max_nodes || exists|i: int|
            0 <= i < walk_v(lk, root, limits).0.len() && #[trigger] cut_at(lk, limits, walk_v(lk, root, limits).0[i])),
{
    let empty: WalkView = (Seq::empty(), Seq::empty(), false, 0, Seq::empty());
    if is_revision(lk, root) {
        lemma_visit_truncation(lk, root, Seq::empty(), Seq::empty(), None, 0, limits, empty, Seq::empty());
    }
}

/// A walk that was not truncated lists every use site: each revision
/// reachable from the root along a slot path that passes no revision twice
/// appears as an occurrence at exactly that path, even when the same
/// revision was already listed under another path.
pub proof fn law_walk_complete<L: Lookup>(lk: &L, root: Seq<char>, limits: Limits, q: Seq<Seq<char>>, target: Seq<char>)
    requires
        simple_path(lk, root, q, target, Seq::empty()),
        !walk_v(lk, root, limits).2,
    ensures
        exists|i: int|
            0 <= i < walk_v(lk, root, limits).0.len() && walk_v(lk, root, limits).0[i].0 == q && walk_v(
                lk,
                root,
                limits,
            ).0[i].1 == target,
{
    let empty: WalkView = (Seq::empty(), Seq::empty(), false, 0, Seq::empty());
    lemma_visit_complete(lk, root, Seq::empty(), Seq::empty(), None, 0, limits, empty, Seq::empty(), q, target);
    assert(Seq::<Seq<char>>::empty() + q =~= q);
}

/// The depth-first walk under `root`: nothing but a missing reference when
/// `root` is not a revision of the lookup.
pub open spec fn walk_v<L: Lookup>(lk: &L, root: Seq<char>, limits: Limits) -> WalkView {
    let empty: WalkView = (Seq::empty(), Seq::empty(), false, 0, Seq::empty());
    if is_revision(lk, root) {
        visit_v(lk, root, Seq::empty(), Seq::empty(), None, 0, limits, empty, Seq::empty())
    } else {
        (Seq::empty(), Seq::empty(), false, 0, seq![root])
    }
}

impl Walk {
    /// What every traversal result under `root` satisfies.
    pub open spec fn sound<L: Lookup>(&self, lk: &L, root: Seq<char>, limits: Limits) -> bool {
        &&& self.occurrences@.len() <= limits.max_nodes
        &&& forall|i: int|
            0 <= i < self.occurrences@.len() ==> (#[trigger] self.occurrences@[i]).sited(
                lk,
                root,
                limits,
            ) && self.occurrences@[i].depth <= self.max_depth_reached
        &&& self.max_depth_reached <= limits.max_depth
        &&& views(self.revisions@).no_duplicates()
        &&& views(self.revisions@).to_set() == occ_ids(self.occurrences@).to_set()
        &&& forall|j: int|
            0 <= j < self.missing@.len() ==> !is_revision(lk, (#[trigger] self.missing@[j])@)
    }
}

/// A walk lists no more distinct revisions than use sites, so no more than
/// its node budget.
pub proof fn lemma_walk_size<L: Lookup>(w: &Walk, lk: &L, root: Seq<char>, limits: Limits)
    requires
        w.sound(lk, root, limits),
    ensures
        w.revisions@.len() <= w.occurrences@.len() <= limits.max_nodes,
{
    let rv = views(w.revisions@);
    assert(rv.no_duplicates());
    rv.unique_seq_to_set();
    occ_ids(w.occurrences@).lemma_cardinality_of_set();
    assert(rv.to_set() == occ_ids(w.occurrences@).to_set());
    assert(occ_ids(w.occurrences@).len() == w.occurrences@.len());
}

fn listed(v: &Vec<String>, s: &str) -> (r: bool)
    ensures
        r == views(v@).contains(s@),
{
    let mut j: usize = 0;
    while j < v.len()
        invariant
            0 <= j <= v@.len(),
            forall|k: int| 0 <= k < j ==> (#[trigger] v@[k])@ != s@,
        decreases v@.len() - j,
    {
        if text::str_eq(v[j].as_str(), s) {
            assert(views(v@)[j as int] == s@);
            return true;
        }
        j += 1;
    }
    proof {
        if views(v@).contains(s@) {
            let k = choose|k: int| 0 <= k < views(v@).len() && views(v@)[k] == s@;
            assert(v@[k]@ == s@);
        }
    }
    false
}

/// Record one use site, keeping the distinct-revision list in step.
#[verifier::spinoff_prover]
fn note<L: Lookup>(out: &mut Walk, occ: Occurrence, Ghost(lk): Ghost<&L>, Ghost(root): Ghost<Seq<char>>, limits: Limits)
    requires
        old(out).sound(lk, root, limits),
        old(out).occurrences@.len() < limits.max_nodes,
        occ.sited(lk, root, limits),
        occ.depth <= old(out).max_depth_reached,
    ensures
        final(out).sound(lk, root, limits),
        final(out).occurrences@ == old(out).occurrences@.push(occ),
        final(out).truncated == old(out).truncated,
        final(out).max_depth_reached == old(out).max_depth_reached,
        final(out).missing@ == old(out).missing@,
        views(final(out).revisions@) == if views(old(out).revisions@).contains(occ.revision_id@) {
            views(old(out).revisions@)
        } else {
            views(old(out).revisions@).push(occ.revision_id@)
        },
{
    let ghost before = *out;
    let ghost x = occ.revision_id@;
    let seen = listed(&out.revisions, occ.revision_id.as_str());
    let id = occ.revision_id.clone();
    out.occurrences.push(occ);
    proof {
        assert(occ_ids(out.occurrences@) =~= occ_ids(before.occurrences@).push(x));
        occ_ids(before.occurrences@).lemma_push_to_set_commute(x);
    }
    if !seen {
        out.revisions.push(id);
        proof {
            assert(views(out.revisions@) =~= views(before.revisions@).push(x));
            views(before.revisions@).lemma_push_to_set_commute(x);
            assert forall|a: int, b: int|
                0 <= a < views(out.revisions@).len() && 0 <= b < views(out.revisions@).len() && a
                    != b implies views(out.revisions@)[a] != views(out.revisions@)[b] by {
                let n = views(before.revisions@).len() as int;
                if a == n {
                    assert(views(before.revisions@)[b] == views(out.revisions@)[b]);
                    assert(views(before.revisions@).contains(views(before.revisions@)[b]));
                } else if b == n {
                    assert(views(before.revisions@)[a] == views(out.revisions@)[a]);
                    assert(views(before.revisions@).contains(views(before.revisions@)[a]));
                }
            }
        }
    } else {
        proof {
            assert(views(before.revisions@).to_set().contains(x));
            assert(views(before.revisions@).to_set().insert(x) =~= views(
                before.revisions@,
            ).to_set());
        }
    }
    proof {
        let n = before.occurrences@.len() as int;
        assert forall|i: int| 0 <= i < out.occurrences@.len() implies (#[trigger] out.occurrences@[i]).sited(
            lk,
            root,
            limits,
        ) && out.occurrences@[i].depth <= out.max_depth_reached by {
            if i < n {
                assert(out.occurrences@[i] == before.occurrences@[i]);
            }
        }
    }
}


/// The occurrence a visit of `node` would record is a genuine use site.
pub open spec fn visit_ready<L: Lookup>(
    lk: &L,
    root: Seq<char>,
    limits: Limits,
    node: StoredRecord,
    path: Seq<Seq<char>>,
    roles: Seq<Seq<char>>,
    parent: Option<String>,
    depth: usize,
) -> bool {
    &&& node.kind_of() == RecordKind::Revision
    &&& lk.holds(node.id@) == Some(node)
    &&& depth <= limits.max_depth
    &&& path.len() == depth
    &&& reaches(lk, root, path, node.id@)
    &&& match parent {
        None => depth == 0 && roles.len() == 0,
        Some(p) => {
            &&& depth > 0
            &&& reaches(lk, root, path.drop_last(), p@)
            &&& pins(lk, p@, path.last(), node.id@, roles)
        },
    }
}

#[verifier::spinoff_prover]
fn visit<L: Lookup>(
    lk: &L,
    node: &StoredRecord,
    slot_path: Vec<String>,
    roles: Vec<String>,
    parent: Option<String>,
    depth: usize,
    limits: Limits,
    out: &mut Walk,
    on_path: &mut Vec<String>,
    Ghost(root): Ghost<Seq<char>>,
)
    requires
        old(out).sound(lk, root, limits),
        visit_ready(lk, root, limits, *node, views(slot_path@), views(roles@), parent, depth),
    ensures
        final(out).sound(lk, root, limits),
        old(out).occurrences@.len() <= final(out).occurrences@.len(),
        forall|i: int|
            0 <= i < old(out).occurrences@.len() ==> #[trigger] final(out).occurrences@[i]
                == old(out).occurrences@[i],
        old(out).occurrences@.len() < limits.max_nodes ==> {
            let o = final(out).occurrences@[old(out).occurrences@.len() as int];
            &&& old(out).occurrences@.len() < final(out).occurrences@.len()
            &&& o.revision_id@ == node.id@
            &&& o.depth == depth
        },
        walk_view(*final(out)) == visit_v(
            lk,
            node.id@,
            views(slot_path@),
            views(roles@),
            opt_text(parent),
            depth as nat,
            limits,
            walk_view(*old(out)),
            views(old(on_path)@),
        ),
        views(final(on_path)@) == views(old(on_path)@),
    decreases limits.max_depth - depth,
{
    let ghost st = walk_view(*out);
    let ghost op = views(on_path@);
    let ghost path_v = views(slot_path@);
    let ghost roles_v = views(roles@);
    let ghost parent_v = opt_text(parent);
    if out.occurrences.len() >= limits.max_nodes {
        out.truncated = true;
        return;
    }
    if depth > out.max_depth_reached {
        out.max_depth_reached = depth;
    }
    let ghost start = out.occurrences@.len() as int;
    let occ = Occurrence {
        slot_path: copy_strings(&slot_path),
        revision_id: node.id.clone(),
        roles,
        parent_revision_id: parent,
        depth,
    };
    let ghost ov = occ_view(occ);
    assert(ov == (path_v, node.id@, roles_v, parent_v, depth as nat));
    let ghost prev_occs = out.occurrences@;
    note::<L>(out, occ, Ghost(lk), Ghost(root), limits);
    proof {
        assert(out.occurrences@.map_values(|o: Occurrence| occ_view(o)) =~= prev_occs.map_values(
            |o: Occurrence| occ_view(o),
        ).push(ov));
    }
    let ghost st1 = walk_view(*out);
    assert(st1 == ({
        let occs = st.0.push((path_v, node.id@, roles_v, parent_v, depth as nat));
        let revs = if st.1.contains(node.id@) {
            st.1
        } else {
            st.1.push(node.id@)
        };
        let deepest = if depth > st.3 {
            depth as nat
        } else {
            st.3
        };
        (occs, revs, st.2, deepest, st.4)
    }));
    let rev = match node.as_revision() {
        Some(r) => r,
        None => return ,
    };
    if depth >= limits.max_depth {
        if rev.slots.len() > 0 {
            out.truncated = true;
        }
        return ;
    }
    let cyc = text::contains_str(on_path, node.id.as_str());
    proof {
        if cyc {
            let i = choose|i: int| 0 <= i < on_path@.len() && (#[trigger] on_path@[i])@ == node.id@;
            assert(op[i] == node.id@);
        }
        if op.contains(node.id@) {
            let i = choose|i: int| 0 <= i < op.len() && op[i] == node.id@;
            assert(on_path@[i]@ == node.id@);
        }
        assert(cyc == op.contains(node.id@));
    }
    if cyc {
        return ;
    }
    on_path.push(node.id.clone());
    assert(views(on_path@) =~= op.push(node.id@));
    let ghost first = out.occurrences@;
    let mut k: usize = 0;
    while k < rev.slots.len()
        invariant
            0 <= k <= rev.slots@.len(),
            node.data == RecordData::Revision(*rev),
            visit_ready(lk, root, limits, *node, views(slot_path@), views(roles@), parent, depth),
            depth < limits.max_depth,
            out.sound(lk, root, limits),
            first.len() <= out.occurrences@.len(),
            forall|i: int| 0 <= i < first.len() ==> #[trigger] out.occurrences@[i] == first[i],
            path_v == views(slot_path@),
            views(on_path@) == op.push(node.id@),
            walk_view(*out) == slots_v(lk, node.id@, rev.slots@, k as nat, path_v, depth as nat, limits, st1, op.push(node.id@)),
        decreases rev.slots@.len() - k,
    {
        let slot = &rev.slots[k];
        let mut child_path = copy_strings(&slot_path);
        child_path.push(slot.slot_id.clone());
        match lk.get(slot.revision_id.as_str()) {
            Some(child) => {
                if child.kind() == RecordKind::Revision {
                    let child_roles = copy_strings(&slot.roles);
                    proof {
                        let p = views(child_path@);
                        assert(p =~= views(slot_path@).push(slot.slot_id@));
                        assert(p.drop_last() =~= views(slot_path@));
                        assert(rev.slots@[k as int] == *slot);
                        assert(is_revision(lk, child.id@));
                        assert(pins(lk, node.id@, p.last(), child.id@, views(child_roles@)));
                        assert(reaches(lk, root, p.drop_last(), node.id@));
                        assert(reaches(lk, root, p, child.id@));
                    }
                    let ghost mid = out.occurrences@;
                    visit(
                        lk,
                        child,
                        child_path,
                        child_roles,
                        Some(node.id.clone()),
                        depth + 1,
                        limits,
                        out,
                        on_path,
                        Ghost(root),
                    );
                    assert forall|i: int| 0 <= i < first.len() implies #[trigger] out.occurrences@[i]
                        == first[i] by {
                        assert(out.occurrences@[i] == mid[i]);
                    }
                } else {
                    let ghost mv = walk_view(*out);
                    out.missing.push(slot.revision_id.clone());
                    assert(views(out.missing@) =~= mv.4.push(slot.revision_id@));
                    proof {
                        assert forall|j: int| 0 <= j < out.missing@.len() implies !is_revision(
                            lk,
                            (#[trigger] out.missing@[j])@,
                        ) by {
                            if j == out.missing@.len() - 1 {
                                assert(out.missing@[j]@ == slot.revision_id@);
                            }
                        }
                    }
                }
            },
            None => {
                let ghost mv = walk_view(*out);
                out.missing.push(slot.revision_id.clone());
                assert(views(out.missing@) =~= mv.4.push(slot.revision_id@));
                proof {
                    assert forall|j: int| 0 <= j < out.missing@.len() implies !is_revision(
                        lk,
                        (#[trigger] out.missing@[j])@,
                    ) by {
                        if j == out.missing@.len() - 1 {
                            assert(out.missing@[j]@ == slot.revision_id@);
                        }
                    }
                }
            },
        }
        proof {
            assert(rev.slots@[k as int] == *slot);
        }
        k += 1;
    }
    let ghost before_pop = on_path@;
    on_path.pop();
    proof {
        assert(on_path@ =~= before_pop.drop_last());
        assert(views(before_pop) =~= op.push(node.id@));
        assert forall|i: int| 0 <= i < op.len() implies views(on_path@)[i] == op[i] by {
            assert(views(before_pop)[i] == before_pop[i]@);
        }
        assert(views(on_path@) =~= op);
    }
}

/// Depth-first traversal of the composition pinned under `root_id`.
pub fn walk<L: Lookup>(lk: &L, root_id: &str, limits: Limits) -> (r: Walk)
    ensures
        r.sound(lk, root_id@, limits),
        !is_revision(lk, root_id@) ==> r.occurrences@.len() == 0 && views(r.missing@) == seq![
            root_id@,
        ],
        is_revision(lk, root_id@) && limits.max_nodes > 0 ==> {
            &&& r.occurrences@.len() >= 1
            &&& r.occurrences@[0].revision_id@ == root_id@
            &&& r.occurrences@[0].depth == 0
        },
        walk_view(r) == walk_v(lk, root_id@, limits),
{
    let mut out = Walk {
        occurrences: Vec::new(),
        revisions: Vec::new(),
        truncated: false,
        max_depth_reached: 0,
        missing: Vec::new(),
    };
    proof {
        assert(views(out.revisions@) =~= Seq::<Seq<char>>::empty());
        assert(occ_ids(out.occurrences@) =~= Seq::<Seq<char>>::empty());
    }
    let root = match lk.get(root_id) {
        Some(x) => x,
        None => {
            out.missing.push(text::owned(root_id));
            assert(views(out.missing@) =~= seq![root_id@]);
            assert(out.occurrences@.map_values(|o: Occurrence| occ_view(o)) =~= Seq::<OccView>::empty());
            assert(views(out.revisions@) =~= Seq::<Seq<char>>::empty());
            return out;
        },
    };
    if root.kind() != RecordKind::Revision {
        out.missing.push(text::owned(root_id));
        assert(views(out.missing@) =~= seq![root_id@]);
        assert(out.occurrences@.map_values(|o: Occurrence| occ_view(o)) =~= Seq::<OccView>::empty());
        assert(views(out.revisions@) =~= Seq::<Seq<char>>::empty());
        return out;
    }
    assert(out.occurrences@.map_values(|o: Occurrence| occ_view(o)) =~= Seq::<OccView>::empty());
    assert(views(out.missing@) =~= Seq::<Seq<char>>::empty());

    let mut on_path: Vec<String> = Vec::new();
    let path: Vec<String> = Vec::new();
    let roles: Vec<String> = Vec::new();
    proof {
        assert(views(on_path@) =~= Seq::<Seq<char>>::empty());
        assert(views(path@) =~= Seq::<Seq<char>>::empty());
        assert(views(roles@) =~= Seq::<Seq<char>>::empty());
    }
    visit(lk, root, path, roles, None, 0, limits, &mut out, &mut on_path, Ghost(root_id@));
    out
}


// ---------------------------------------------------------------- tree

/// One node of the nested snapshot tree.
#[derive(Debug)]
pub struct TreeNode {
    pub revision_id: String,
    pub slot_id: Option<String>,
    pub slot_path: Vec<String>,
    pub roles: Vec<String>,
    pub depth: usize,
    pub children: Vec<TreeNode>,
    /// Children exist that the budget or the depth limit left out.
    pub elided: bool,
}

/// Number of nodes in a tree.
pub open spec fn tree_size(t: TreeNode) -> nat
    decreases t, 1nat,
{
    1 + forest_size(t.children@)
}

/// Number of nodes in a run of trees.
pub open spec fn forest_size(f: Seq<TreeNode>) -> nat
    decreases f, 0nat,
{
    if f.len() == 0 {
        0
    } else {
        forest_size(f.drop_last()) + tree_size(f.last())
    }
}

/// The larger of two depths.
pub open spec fn deeper(a: nat, b: nat) -> nat {
    if a < b {
        b
    } else {
        a
    }
}

/// The deepest depth a tree reaches.
pub open spec fn tree_deepest(t: TreeNode) -> nat
    decreases t, 1nat,
{
    deeper(t.depth as nat, forest_deepest(t.children@))
}

/// The deepest depth a run of trees reaches.
pub open spec fn forest_deepest(f: Seq<TreeNode>) -> nat
    decreases f, 0nat,
{
    if f.len() == 0 {
        0
    } else {
        deeper(forest_deepest(f.drop_last()), tree_deepest(f.last()))
    }
}

/// `t` is the subtree of its revision with a budget of `b` nodes: a node for
/// the revision itself and, for a revision of the lookup above the depth
/// limit, one child per slot in slot order for as long as the budget lasts.
/// `elided` says that children exist which the tree leaves out, or that the
/// revision is not one of the lookup.
pub open spec fn subtree_right<L: Lookup>(lk: &L, t: TreeNode, limits: Limits, b: nat) -> bool
    decreases t, 1nat,
{
    &&& b > 0
    &&& match lk.holds(t.revision_id@) {
        Some(rec) => match rec.data {
            RecordData::Revision(rev) => if t.depth >= limits.max_depth {
                t.children@.len() == 0 && t.elided == (rev.slots@.len() > 0)
            } else {
                &&& t.children@.len() <= rev.slots@.len()
                &&& kids_right(lk, t.children@, rev.slots@, t.depth, views(t.slot_path@), limits, (b - 1) as nat)
                &&& t.children@.len() < rev.slots@.len() ==> forest_size(t.children@) == b - 1
                &&& t.elided == (t.children@.len() < rev.slots@.len())
            },
            _ => t.children@.len() == 0 && t.elided,
        },
        None => t.children@.len() == 0 && t.elided,
    }
}

/// The children `kids` are the subtrees of the first slots of `slots`, each
/// with the budget its elder siblings left of `b`.
pub open spec fn kids_right<L: Lookup>(
    lk: &L,
    kids: Seq<TreeNode>,
    slots: Seq<Slot>,
    depth: usize,
    path: Seq<Seq<char>>,
    limits: Limits,
    b: nat,
) -> bool
    decreases kids, 0nat,
{
    if kids.len() == 0 {
        true
    } else {
        let k = kids.len() - 1;
        let kid = kids.last();
        let slot = slots[k];
        let used = forest_size(kids.drop_last());
        &&& kids_right(lk, kids.drop_last(), slots, depth, path, limits, b)
        &&& kid.revision_id@ == slot.revision_id@
        &&& kid.slot_id matches Some(x) && x@ == slot.slot_id@
        &&& views(kid.slot_path@) == path.push(slot.slot_id@)
        &&& kid.roles@ == slot.roles@
        &&& kid.depth == depth + 1
        &&& used < b
        &&& subtree_right(lk, kid, limits, (b - used) as nat)
    }
}

/// Somewhere in the tree a revision has slots that the depth limit or the
/// budget left out.
pub open spec fn tree_cut<L: Lookup>(lk: &L, t: TreeNode, limits: Limits) -> bool
    decreases t, 1nat,
{
    match lk.holds(t.revision_id@) {
        Some(rec) => match rec.data {
            RecordData::Revision(rev) => t.children@.len() < rev.slots@.len() || forest_cut(
                lk,
                t.children@,
                limits,
            ),
            _ => false,
        },
        None => false,
    }
}

/// Some tree of the run is cut.
pub open spec fn forest_cut<L: Lookup>(lk: &L, f: Seq<TreeNode>, limits: Limits) -> bool
    decreases f, 0nat,
{
    f.len() > 0 && (forest_cut(lk, f.drop_last(), limits) || tree_cut(lk, f.last(), limits))
}

#[verifier::spinoff_prover]
fn build_tree<L: Lookup>(
    lk: &L,
    revision_id: &str,
    slot_id: Option<String>,
    slot_path: Vec<String>,
    roles: Vec<String>,
    depth: usize,
    limits: Limits,
    budget: &mut usize,
    truncated: &mut bool,
    deepest: &mut usize,
    counted: &mut usize,
) -> (r: TreeNode)
    requires
        *old(counted) + *old(budget) <= limits.max_nodes,
        *old(deepest) <= limits.max_depth,
        depth <= limits.max_depth,
    ensures
        *final(counted) + *final(budget) == *old(counted) + *old(budget),
        *old(counted) <= *final(counted),
        *old(budget) > 0 ==> tree_size(r) == *final(counted) - *old(counted),
        *old(budget) == 0 ==> tree_size(r) == 1 && *final(counted) == *old(counted),
        *old(deepest) <= *final(deepest) <= limits.max_depth,
        r.revision_id@ == revision_id@,
        r.depth == depth,
        r.slot_id == slot_id,
        r.slot_path == slot_path,
        r.roles == roles,
        *old(budget) > 0 ==> subtree_right(lk, r, limits, *old(budget) as nat),
        *old(budget) > 0 ==> *final(truncated) == (*old(truncated) || tree_cut(lk, r, limits)),
        *old(budget) > 0 ==> *final(deepest) == deeper(*old(deepest) as nat, tree_deepest(r)),
        *old(budget) == 0 ==> r.children@.len() == 0 && r.elided && *final(truncated)
            && *final(deepest) == *old(deepest),
    decreases limits.max_depth - depth,
{
    if *budget == 0 {
        *truncated = true;
        let r = TreeNode {
            revision_id: text::owned(revision_id),
            slot_id,
            slot_path,
            roles,
            depth,
            children: Vec::new(),
            elided: true,
        };
        assert(forest_size(r.children@) == 0);
        return r;
    }
    *budget = *budget - 1;
    *counted = *counted + 1;
    if depth > *deepest {
        *deepest = depth;
    }
    let mut children: Vec<TreeNode> = Vec::new();
    let mut elided = false;
    let ghost c0 = *counted;
    let ghost b0 = *old(budget);
    let ghost t0 = *old(truncated);
    let ghost d1 = *deepest;
    assert(forest_size(children@) == 0);
    assert(forest_deepest(children@) == 0);
    assert(!forest_cut(lk, children@, limits));
    match lk.get(revision_id) {
        None => {
            elided = true;
        },
        Some(node) => {
            match node.as_revision() {
                None => {
                    elided = true;
                },
                Some(rev) => {
                    if depth >= limits.max_depth {
                        if rev.slots.len() > 0 {
                            elided = true;
                            *truncated = true;
                        }
                    } else {
                        let mut k: usize = 0;
                        while k < rev.slots.len() && *budget > 0
                            invariant
                                0 <= k <= rev.slots@.len(),
                                depth < limits.max_depth,
                                *counted + *budget == c0 + *old(budget) - 1,
                                c0 <= *counted,
                                forest_size(children@) == *counted - c0,
                                c0 + *old(budget) - 1 <= limits.max_nodes,
                                *deepest <= limits.max_depth,
                                *old(deepest) <= *deepest,
                                b0 == *old(budget),
                                b0 > 0,
                                children@.len() == k,
                                kids_right(lk, children@, rev.slots@, depth, views(slot_path@), limits, (b0 - 1) as nat),
                                *truncated == (t0 || forest_cut(lk, children@, limits)),
                                *deepest == deeper(d1 as nat, forest_deepest(children@)),
                            decreases rev.slots@.len() - k,
                        {
                            let slot = &rev.slots[k];
                            let mut child_path = copy_strings(&slot_path);
                            child_path.push(slot.slot_id.clone());
                            proof {
                                assert(views(child_path@) =~= views(slot_path@).push(slot.slot_id@));
                            }
                            let ghost before = children@;
                            let ghost bb = *budget;
                            let ghost tt = *truncated;
                            let ghost dd = *deepest;
                            let child = build_tree(
                                lk,
                                slot.revision_id.as_str(),
                                Some(slot.slot_id.clone()),
                                child_path,
                                copy_strings(&slot.roles),
                                depth + 1,
                                limits,
                                budget,
                                truncated,
                                deepest,
                                counted,
                            );
                            children.push(child);
                            assert(children@.drop_last() == before);
                            assert(children@.last() == child);
                            assert(rev.slots@[k as int] == *slot);
                            k += 1;
                        }
                        if k < rev.slots.len() {
                            elided = true;
                            *truncated = true;
                        }
                    }
                },
            }
        },
    }
    TreeNode {
        revision_id: text::owned(revision_id),
        slot_id,
        slot_path,
        roles,
        depth,
        children,
        elided,
    }
}

/// Nested tree for a snapshot: the tree, the number of nodes it holds, whether
/// anything was left out, and the deepest depth reached.
pub fn tree_json<L: Lookup>(lk: &L, root_id: &str, limits: Limits) -> (r: (TreeNode, usize, bool, usize))
    ensures
        r.1 <= limits.max_nodes,
        limits.max_nodes > 0 ==> tree_size(r.0) == r.1,
        r.3 <= limits.max_depth,
        r.0.revision_id@ == root_id@,
        r.0.depth == 0,
        r.0.slot_id is None,
        r.0.slot_path@.len() == 0,
        r.0.roles@.len() == 0,
        limits.max_nodes > 0 ==> subtree_right(lk, r.0, limits, limits.max_nodes as nat),
        limits.max_nodes > 0 ==> r.2 == tree_cut(lk, r.0, limits),
        limits.max_nodes > 0 ==> r.3 == tree_deepest(r.0),
        limits.max_nodes == 0 ==> r.0.children@.len() == 0 && r.0.elided && r.1 == 0 && r.2 && r.3 == 0,
{
    let mut budget = limits.max_nodes;
    let mut truncated = false;
    let mut deepest: usize = 0;
    let mut counted: usize = 0;
    let tree = build_tree(
        lk,
        root_id,
        None,
        Vec::new(),
        Vec::new(),
        0,
        limits,
        &mut budget,
        &mut truncated,
        &mut deepest,
        &mut counted,
    );
    (tree, counted, truncated, deepest)
}

} // verus!
