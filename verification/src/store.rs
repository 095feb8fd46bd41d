//! State derived from the records themselves: the heads of every project and
//! the validation context a write is checked against.

use vstd::prelude::*;

use crate::json;
use crate::error::ApiError;
use crate::model::{views, CriterionResult, RecordData, Stage, StoredRecord};
use crate::text;
use crate::util;
use crate::validate::{Context, HeadState};

verus! {

/// A working-stage head change of `project`.
pub open spec fn working_move(r: StoredRecord, project: Seq<char>) -> bool {
    match r.data {
        RecordData::HeadChange(h) => h.stage == Stage::Working && h.project_id@ == project,
        _ => false,
    }
}

/// A head change of `project` at any stage.
pub open spec fn head_change_of(r: StoredRecord, project: Seq<char>) -> bool {
    match r.data {
        RecordData::HeadChange(h) => h.project_id@ == project,
        _ => false,
    }
}

/// A publication of `project`.
pub open spec fn publication_of(r: StoredRecord, project: Seq<char>) -> bool {
    match r.data {
        RecordData::Publication(p) => p.project_id@ == project,
        _ => false,
    }
}

/// `a` comes after `b` in commit order: a later sequence, or the same one and
/// a greater id.
pub open spec fn later(a: StoredRecord, b: StoredRecord) -> bool {
    a.seq > b.seq || (a.seq == b.seq && json::seq_lt(b.id@, a.id@))
}

/// The UTC key of a publication's `published_at`, empty when it does not
/// parse.
pub open spec fn published_key(r: StoredRecord) -> Seq<char> {
    match r.data {
        RecordData::Publication(p) => match util::spec_utc_key(p.published_at@) {
            Some(k) => k,
            None => Seq::empty(),
        },
        _ => Seq::empty(),
    }
}

/// `a` takes precedence over `b` as a publication: later publication time,
/// then later commit.
pub open spec fn precedes(a: StoredRecord, b: StoredRecord) -> bool {
    json::seq_lt(published_key(b), published_key(a)) || (published_key(a) == published_key(b)
        && later(a, b))
}

pub open spec fn after_of(r: StoredRecord) -> Option<String> {
    match r.data {
        RecordData::HeadChange(h) => Some(h.after_revision_id),
        _ => None,
    }
}

pub open spec fn root_of(r: StoredRecord) -> Option<String> {
    match r.data {
        RecordData::Publication(p) => Some(p.root_revision_id),
        _ => None,
    }
}

pub open spec fn is_project(r: StoredRecord) -> bool {
    r.data matches RecordData::Project(_)
}

/// Which projects have heads: every project record, and every project named by
/// a head change or a publication.
pub open spec fn has_heads(rs: Seq<StoredRecord>, p: Seq<char>) -> bool {
    exists|i: int|
        0 <= i < rs.len() && ((is_project(#[trigger] rs[i]) && rs[i].id@ == p) || head_change_of(
            rs[i],
            p,
        ) || publication_of(rs[i], p))
}

/// The heads of `p`: the working head is set by the latest working head change
/// (with a sequence number of at least zero), the official head by the
/// publication that takes precedence.
pub open spec fn heads_right(rs: Seq<StoredRecord>, p: Seq<char>, h: HeadState) -> bool {
    &&& (exists|w: int| 0 <= w < rs.len() && working_move(#[trigger] rs[w], p) && rs[w].seq >= 0)
        ==> exists|w: int|
        0 <= w < rs.len() && working_move(#[trigger] rs[w], p) && rs[w].seq >= 0 && h.working_head
            == after_of(rs[w]) && h.working_head_seq == rs[w].seq && forall|j: int|
            0 <= j < rs.len() && working_move(#[trigger] rs[j], p) && rs[j].seq >= 0 ==> !later(
                rs[j],
                rs[w],
            )
    &&& !(exists|w: int| 0 <= w < rs.len() && working_move(#[trigger] rs[w], p) && rs[w].seq >= 0)
        ==> h.working_head is None && h.working_head_seq == 0
    &&& (exists|w: int| 0 <= w < rs.len() && publication_of(#[trigger] rs[w], p)) ==> exists|w: int|
        0 <= w < rs.len() && publication_of(#[trigger] rs[w], p) && h.official_head == root_of(rs[w])
            && h.official_publication_id == Some(rs[w].id) && forall|j: int|
            0 <= j < rs.len() && publication_of(#[trigger] rs[j], p) ==> !precedes(rs[j], rs[w])
    &&& !(exists|w: int| 0 <= w < rs.len() && publication_of(#[trigger] rs[w], p))
        ==> h.official_head is None && h.official_publication_id is None
}

pub(crate) proof fn lemma_later_trans(a: StoredRecord, b: StoredRecord, c: StoredRecord)
    requires
        later(a, b),
        later(b, c),
    ensures
        later(a, c),
{
    if a.seq == b.seq && b.seq == c.seq {
        json::lemma_seq_lt_trans(c.id@, b.id@, a.id@);
    }
}

proof fn lemma_later_asym(a: StoredRecord, b: StoredRecord)
    ensures
        !(later(a, b) && later(b, a)),
{
    json::lemma_seq_lt_total(a.id@, b.id@);
}

pub(crate) proof fn lemma_precedes_trans(a: StoredRecord, b: StoredRecord, c: StoredRecord)
    requires
        precedes(a, b),
        precedes(b, c),
    ensures
        precedes(a, c),
{
    let (ka, kb, kc) = (published_key(a), published_key(b), published_key(c));
    if json::seq_lt(kb, ka) && json::seq_lt(kc, kb) {
        json::lemma_seq_lt_trans(kc, kb, ka);
    } else if json::seq_lt(kb, ka) {
        assert(kb == kc);
    } else if json::seq_lt(kc, kb) {
        assert(ka == kb);
    } else {
        lemma_later_trans(a, b, c);
    }
}

proof fn lemma_precedes_asym(a: StoredRecord, b: StoredRecord)
    ensures
        !(precedes(a, b) && precedes(b, a)),
{
    json::lemma_seq_lt_total(published_key(a), published_key(b));
    lemma_later_asym(a, b);
}

/// Whether the commit order places `a` after `b`.
fn is_later(a: &StoredRecord, b: &StoredRecord) -> (r: bool)
    ensures
        r == later(*a, *b),
{
    a.seq > b.seq || (a.seq == b.seq && json::str_lt(b.id.as_str(), a.id.as_str()))
}

fn publication_key(r: &StoredRecord) -> (k: String)
    ensures
        k@ == published_key(*r),
{
    match &r.data {
        RecordData::Publication(p) => match util::utc_key(p.published_at.as_str()) {
            Some(k) => k,
            None => String::new(),
        },
        _ => String::new(),
    }
}

fn takes_precedence(a: &StoredRecord, b: &StoredRecord) -> (r: bool)
    ensures
        r == precedes(*a, *b),
{
    let ka = publication_key(a);
    let kb = publication_key(b);
    json::str_lt(kb.as_str(), ka.as_str()) || (text::str_eq(ka.as_str(), kb.as_str()) && is_later(a, b))
}

/// Index of `project` in `heads`, added with empty heads when absent.
fn entry(heads: &mut Vec<(String, HeadState)>, project: &String) -> (k: usize)
    ensures
        k < final(heads)@.len(),
        final(heads)@[k as int].0@ == project@,
        old(heads)@.len() <= final(heads)@.len() <= old(heads)@.len() + 1,
        forall|i: int| 0 <= i < old(heads)@.len() ==> final(heads)@[i] == old(heads)@[i],
        final(heads)@.len() == old(heads)@.len() + 1 ==> {
            &&& k == old(heads)@.len()
            &&& final(heads)@[k as int].1.working_head is None
            &&& final(heads)@[k as int].1.working_head_seq == 0
            &&& final(heads)@[k as int].1.official_head is None
            &&& final(heads)@[k as int].1.official_publication_id is None
            &&& forall|i: int| 0 <= i < old(heads)@.len() ==> old(heads)@[i].0@ != project@
        },
{
    let mut i: usize = 0;
    while i < heads.len()
        invariant
            0 <= i <= heads@.len(),
            heads@ == old(heads)@,
            forall|j: int| 0 <= j < i ==> heads@[j].0@ != project@,
        decreases heads@.len() - i,
    {
        if text::str_eq(heads[i].0.as_str(), project.as_str()) {
            return i;
        }
        i += 1;
    }
    heads.push((project.clone(), HeadState::new()));
    heads.len() - 1
}

/// What an entry for `p` holds after the records before position `i`:
/// `w` and `pw` are the records behind its working and official heads.
pub open spec fn entry_right(
    rs: Seq<StoredRecord>,
    i: int,
    p: Seq<char>,
    h: HeadState,
    w: Option<usize>,
    pw: Option<usize>,
) -> bool {
    &&& match w {
        None => {
            &&& forall|j: int| 0 <= j < i ==> !(working_move(#[trigger] rs[j], p) && rs[j].seq >= 0)
            &&& h.working_head is None
            &&& h.working_head_seq == 0
        },
        Some(w) => {
            &&& w < i
            &&& working_move(rs[w as int], p)
            &&& rs[w as int].seq >= 0
            &&& h.working_head == after_of(rs[w as int])
            &&& h.working_head_seq == rs[w as int].seq
            &&& forall|j: int|
                0 <= j < i && working_move(#[trigger] rs[j], p) && rs[j].seq >= 0 ==> !later(
                    rs[j],
                    rs[w as int],
                )
        },
    }
    &&& match pw {
        None => {
            &&& forall|j: int| 0 <= j < i ==> !publication_of(#[trigger] rs[j], p)
            &&& h.official_head is None
            &&& h.official_publication_id is None
        },
        Some(w) => {
            &&& w < i
            &&& publication_of(rs[w as int], p)
            &&& h.official_head == root_of(rs[w as int])
            &&& h.official_publication_id == Some(rs[w as int].id)
            &&& forall|j: int|
                0 <= j < i && publication_of(#[trigger] rs[j], p) ==> !precedes(rs[j], rs[w as int])
        },
    }
}

/// The entries `heads` hold after the records before position `i`.
pub open spec fn entries_right(
    rs: Seq<StoredRecord>,
    i: int,
    heads: Seq<(String, HeadState)>,
    wins: Seq<Option<usize>>,
    pubs: Seq<Option<usize>>,
) -> bool {
    &&& wins.len() == heads.len()
    &&& pubs.len() == heads.len()
    &&& forall|a: int, b: int|
        0 <= a < b < heads.len() ==> (#[trigger] heads[a]).0@ != (#[trigger] heads[b]).0@
    &&& forall|p: Seq<char>|
        has_heads(rs.take(i), p) <==> exists|k: int| 0 <= k < heads.len() && (#[trigger] heads[k]).0@ == p
    &&& forall|k: int|
        0 <= k < heads.len() ==> entry_right(rs, i, (#[trigger] heads[k]).0@, heads[k].1, wins[k], pubs[k])
}

proof fn lemma_has_heads_step(rs: Seq<StoredRecord>, i: int, p: Seq<char>)
    requires
        0 <= i < rs.len(),
    ensures
        has_heads(rs.take(i + 1), p) <==> (has_heads(rs.take(i), p) || (is_project(rs[i]) && rs[i].id@
            == p) || head_change_of(rs[i], p) || publication_of(rs[i], p)),
{
    let a = rs.take(i);
    let b = rs.take(i + 1);
    if has_heads(b, p) {
        let j = choose|j: int|
            0 <= j < b.len() && ((is_project(#[trigger] b[j]) && b[j].id@ == p) || head_change_of(
                b[j],
                p,
            ) || publication_of(b[j], p));
        if j < i {
            assert(a[j] == b[j]);
        }
    }
    if has_heads(a, p) {
        let j = choose|j: int|
            0 <= j < a.len() && ((is_project(#[trigger] a[j]) && a[j].id@ == p) || head_change_of(
                a[j],
                p,
            ) || publication_of(a[j], p));
        assert(b[j] == a[j]);
    }
    if (is_project(rs[i]) && rs[i].id@ == p) || head_change_of(rs[i], p) || publication_of(rs[i], p) {
        assert(b[i] == rs[i]);
    }
}

/// Whether `owner` names project `p`.
pub open spec fn names_project(owner: Option<&String>, p: Seq<char>) -> bool {
    match owner {
        Some(o) => o@ == p,
        None => false,
    }
}

/// The project a record opens or moves heads for.
pub open spec fn owner_of(r: StoredRecord) -> Option<Seq<char>> {
    match r.data {
        RecordData::Project(_) => Some(r.id@),
        RecordData::HeadChange(h) => Some(h.project_id@),
        RecordData::Publication(p) => Some(p.project_id@),
        _ => None,
    }
}

proof fn lemma_untouched(
    rs: Seq<StoredRecord>,
    i: int,
    p: Seq<char>,
    h: HeadState,
    w: Option<usize>,
    pw: Option<usize>,
)
    requires
        0 <= i < rs.len(),
        entry_right(rs, i, p, h, w, pw),
        owner_of(rs[i]) != Some(p),
    ensures
        entry_right(rs, i + 1, p, h, w, pw),
{
    assert(!working_move(rs[i], p));
    assert(!publication_of(rs[i], p));
}

proof fn lemma_fresh(rs: Seq<StoredRecord>, i: int, p: Seq<char>, h: HeadState)
    requires
        0 <= i <= rs.len(),
        !has_heads(rs.take(i), p),
        h.working_head is None,
        h.working_head_seq == 0,
        h.official_head is None,
        h.official_publication_id is None,
    ensures
        entry_right(rs, i, p, h, None, None),
{
    assert forall|j: int| 0 <= j < i implies !head_change_of(#[trigger] rs[j], p) && !publication_of(rs[j], p) by {
        assert(rs.take(i)[j] == rs[j]);
    }
}

/// The working head of entry `k` after a working head change at `i`.
fn take_working(
    records: &Vec<StoredRecord>,
    i: usize,
    heads: &mut Vec<(String, HeadState)>,
    wins: &mut Vec<Option<usize>>,
    k: usize,
)
    requires
        i < records@.len(),
        k < old(heads)@.len(),
        old(wins)@.len() == old(heads)@.len(),
        working_move(records@[i as int], old(heads)@[k as int].0@),
        records@[i as int].seq >= 0,
        old(wins)@[k as int] is Some ==> old(wins)@[k as int].unwrap() < i,
    ensures
        final(heads)@.len() == old(heads)@.len(),
        final(wins)@.len() == old(wins)@.len(),
        forall|x: int| 0 <= x < old(heads)@.len() && x != k ==> final(heads)@[x] == old(heads)@[x],
        forall|x: int| 0 <= x < old(wins)@.len() && x != k ==> final(wins)@[x] == old(wins)@[x],
        final(heads)@[k as int].0 == old(heads)@[k as int].0,
        final(heads)@[k as int].1.official_head == old(heads)@[k as int].1.official_head,
        final(heads)@[k as int].1.official_publication_id == old(heads)@[k as int].1.official_publication_id,
        forall|pw: Option<usize>|
            entry_right(records@, i as int, old(heads)@[k as int].0@, old(heads)@[k as int].1, old(wins)@[k as int], pw)
                ==> #[trigger] entry_right(records@, i + 1, final(heads)@[k as int].0@, final(heads)@[k as int].1, final(wins)@[k as int], pw),
{
    let ghost rs = records@;
    let ghost p = heads@[k as int].0@;
    let rec = &records[i];
    let replace = match wins[k] {
        None => true,
        Some(w) => is_later(rec, &records[w]),
    };
    if replace {
        let mut st = heads[k].1.clone();
        if let RecordData::HeadChange(hc) = &rec.data {
            st.working_head = Some(hc.after_revision_id.clone());
        }
        st.working_head_seq = rec.seq;
        let name = heads[k].0.clone();
        let ghost old_w = wins@[k as int];
        heads.set(k, (name, st));
        wins.set(k, Some(i));
        proof {
            assert forall|pw: Option<usize>|
                entry_right(rs, i as int, p, old(heads)@[k as int].1, old_w, pw) implies #[trigger] entry_right(
                    rs,
                    i + 1,
                    heads@[k as int].0@,
                    heads@[k as int].1,
                    wins@[k as int],
                    pw,
                ) by {
                assert forall|j: int|
                    0 <= j < i + 1 && working_move(#[trigger] rs[j], p) && rs[j].seq >= 0 implies !later(
                        rs[j],
                        rs[i as int],
                    ) by {
                    lemma_later_asym(rs[i as int], rs[i as int]);
                    if j < i {
                        if let Some(w) = old_w {
                            if later(rs[j], rs[i as int]) {
                                lemma_later_trans(rs[j], rs[i as int], rs[w as int]);
                            }
                        }
                    }
                }
                if let Some(w) = pw {
                    assert(!publication_of(rs[i as int], p));
                }
            }
        }
    } else {
        proof {
            let w = wins@[k as int].unwrap();
            lemma_later_asym(rs[i as int], rs[w as int]);
            json::lemma_seq_lt_total(rs[i as int].id@, rs[w as int].id@);
            assert forall|pw: Option<usize>|
                entry_right(rs, i as int, p, heads@[k as int].1, wins@[k as int], pw) implies #[trigger] entry_right(
                    rs,
                    i + 1,
                    heads@[k as int].0@,
                    heads@[k as int].1,
                    wins@[k as int],
                    pw,
                ) by {
                assert(!publication_of(rs[i as int], p));
            }
        }
    }
}

/// The official head of entry `k` after a publication at `i`.
fn take_official(
    records: &Vec<StoredRecord>,
    i: usize,
    heads: &mut Vec<(String, HeadState)>,
    pubs: &mut Vec<Option<usize>>,
    k: usize,
)
    requires
        i < records@.len(),
        k < old(heads)@.len(),
        old(pubs)@.len() == old(heads)@.len(),
        publication_of(records@[i as int], old(heads)@[k as int].0@),
        old(pubs)@[k as int] is Some ==> old(pubs)@[k as int].unwrap() < i,
    ensures
        final(heads)@.len() == old(heads)@.len(),
        final(pubs)@.len() == old(pubs)@.len(),
        forall|x: int| 0 <= x < old(heads)@.len() && x != k ==> final(heads)@[x] == old(heads)@[x],
        forall|x: int| 0 <= x < old(pubs)@.len() && x != k ==> final(pubs)@[x] == old(pubs)@[x],
        final(heads)@[k as int].0 == old(heads)@[k as int].0,
        forall|w: Option<usize>|
            entry_right(records@, i as int, old(heads)@[k as int].0@, old(heads)@[k as int].1, w, old(pubs)@[k as int])
                ==> #[trigger] entry_right(records@, i + 1, final(heads)@[k as int].0@, final(heads)@[k as int].1, w, final(pubs)@[k as int]),
{
    let ghost rs = records@;
    let ghost p = heads@[k as int].0@;
    let rec = &records[i];
    let replace = match pubs[k] {
        None => true,
        Some(w) => takes_precedence(rec, &records[w]),
    };
    if replace {
        let mut st = heads[k].1.clone();
        if let RecordData::Publication(pb) = &rec.data {
            st.official_head = Some(pb.root_revision_id.clone());
        }
        st.official_publication_id = Some(rec.id.clone());
        let name = heads[k].0.clone();
        let ghost old_p = pubs@[k as int];
        heads.set(k, (name, st));
        pubs.set(k, Some(i));
        proof {
            assert forall|w: Option<usize>|
                entry_right(rs, i as int, p, old(heads)@[k as int].1, w, old_p) implies #[trigger] entry_right(
                    rs,
                    i + 1,
                    heads@[k as int].0@,
                    heads@[k as int].1,
                    w,
                    pubs@[k as int],
                ) by {
                assert forall|j: int|
                    0 <= j < i + 1 && publication_of(#[trigger] rs[j], p) implies !precedes(
                        rs[j],
                        rs[i as int],
                    ) by {
                    lemma_precedes_asym(rs[i as int], rs[i as int]);
                    if j < i {
                        if let Some(x) = old_p {
                            if precedes(rs[j], rs[i as int]) {
                                lemma_precedes_trans(rs[j], rs[i as int], rs[x as int]);
                            }
                        }
                    }
                }
                assert(!working_move(rs[i as int], p));
            }
        }
    } else {
        proof {
            let x = pubs@[k as int].unwrap();
            lemma_precedes_asym(rs[i as int], rs[x as int]);
            assert forall|w: Option<usize>|
                entry_right(rs, i as int, p, heads@[k as int].1, w, pubs@[k as int]) implies #[trigger] entry_right(
                    rs,
                    i + 1,
                    heads@[k as int].0@,
                    heads@[k as int].1,
                    w,
                    pubs@[k as int],
                ) by {
                assert(!working_move(rs[i as int], p));
            }
        }
    }
}

/// Take record `i` into the heads derived from the records before it.
#[verifier::rlimit(100)]
#[verifier::spinoff_prover]
fn absorb(
    records: &Vec<StoredRecord>,
    i: usize,
    heads: &mut Vec<(String, HeadState)>,
    wins: &mut Vec<Option<usize>>,
    pubs: &mut Vec<Option<usize>>,
)
    requires
        i < records@.len(),
        entries_right(records@, i as int, old(heads)@, old(wins)@, old(pubs)@),
    ensures
        entries_right(records@, i + 1, final(heads)@, final(wins)@, final(pubs)@),
{
    let ghost rs = records@;
    let rec = &records[i];
    let owner: Option<&String> = match &rec.data {
        RecordData::Project(_) => Some(&rec.id),
        RecordData::HeadChange(hc) => Some(&hc.project_id),
        RecordData::Publication(pb) => Some(&pb.project_id),
        _ => None,
    };
    proof {
        assert forall|p: Seq<char>| #[trigger] has_heads(rs.take(i + 1), p) <==> (has_heads(rs.take(i as int), p)
            || owner_of(rs[i as int]) == Some(p)) by {
            lemma_has_heads_step(rs, i as int, p);
        }
    }
    let project = match owner {
        Some(p) => p,
        None => {
            proof {
                assert forall|k: int| 0 <= k < heads@.len() implies #[trigger] entry_right(
                    rs,
                    i + 1,
                    heads@[k].0@,
                    heads@[k].1,
                    wins@[k],
                    pubs@[k],
                ) by {
                    lemma_untouched(rs, i as int, heads@[k].0@, heads@[k].1, wins@[k], pubs@[k]);
                }
            }
            return;
        },
    };
    assert(owner_of(rs[i as int]) == Some(project@));
    let ghost h0 = heads@;
    let ghost w0 = wins@;
    let ghost p0 = pubs@;
    let k = entry(heads, project);
    if heads.len() > wins.len() {
        wins.push(None);
        pubs.push(None);
        proof {
            assert(!has_heads(rs.take(i as int), project@));
            lemma_fresh(rs, i as int, project@, heads@[k as int].1);
        }
    }
    let ghost h1 = heads@;
    let ghost w1 = wins@;
    let ghost p1 = pubs@;
    assert(entry_right(rs, i as int, h1[k as int].0@, h1[k as int].1, w1[k as int], p1[k as int]));
    match &rec.data {
        RecordData::HeadChange(hc) => {
            if hc.stage == Stage::Working && rec.seq >= 0 {
                take_working(records, i, heads, wins, k);
            } else {
                proof {
                    assert(!working_move(rs[i as int], project@) || rs[i as int].seq < 0);
                    assert(!publication_of(rs[i as int], project@));
                }
            }
        },
        RecordData::Publication(pb) => {
            take_official(records, i, heads, pubs, k);
        },
        _ => {
            proof {
                assert(!working_move(rs[i as int], project@));
                assert(!publication_of(rs[i as int], project@));
            }
        },
    }
    proof {
        assert(entry_right(rs, i + 1, heads@[k as int].0@, heads@[k as int].1, wins@[k as int], pubs@[k as int]));
        assert forall|x: int| 0 <= x < heads@.len() && x != k implies #[trigger] entry_right(
            rs,
            i + 1,
            heads@[x].0@,
            heads@[x].1,
            wins@[x],
            pubs@[x],
        ) by {
            assert(x < h0.len());
            assert(heads@[x] == h0[x]);
            assert(wins@[x] == w0[x]);
            assert(pubs@[x] == p0[x]);
            assert(h0[x].0@ != project@);
            lemma_untouched(rs, i as int, h0[x].0@, h0[x].1, w0[x], p0[x]);
        }
        assert(forall|x: int| 0 <= x < heads@.len() ==> (#[trigger] heads@[x]).0 == h1[x].0);
        assert forall|p: Seq<char>| #[trigger] has_heads(rs.take(i + 1), p) <==> exists|x: int|
            0 <= x < heads@.len() && (#[trigger] heads@[x]).0@ == p by {
            if has_heads(rs.take(i as int), p) {
                let x = choose|x: int| 0 <= x < h0.len() && (#[trigger] h0[x]).0@ == p;
                assert(heads@[x].0 == h0[x].0);
            }
            if exists|x: int| 0 <= x < heads@.len() && (#[trigger] heads@[x]).0@ == p {
                let x = choose|x: int| 0 <= x < heads@.len() && (#[trigger] heads@[x]).0@ == p;
                if x < h0.len() {
                    assert(h0[x].0 == heads@[x].0);
                }
            }
        }
    }
}

/// Working and official heads, derived from the event records themselves.
pub fn derive_heads(records: &Vec<StoredRecord>) -> (heads: Vec<(String, HeadState)>)
    ensures
        forall|a: int, b: int|
            0 <= a < b < heads@.len() ==> (#[trigger] heads@[a]).0@ != (#[trigger] heads@[b]).0@,
        forall|p: Seq<char>|
            has_heads(records@, p) <==> exists|k: int| 0 <= k < heads@.len() && (#[trigger] heads@[k]).0@ == p,
        forall|k: int|
            0 <= k < heads@.len() ==> heads_right(records@, (#[trigger] heads@[k]).0@, heads@[k].1),
{
    let ghost rs = records@;
    let mut heads: Vec<(String, HeadState)> = Vec::new();
    let mut wins: Vec<Option<usize>> = Vec::new();
    let mut pubs: Vec<Option<usize>> = Vec::new();
    let mut i: usize = 0;
    assert(rs.take(0) =~= Seq::<StoredRecord>::empty());
    while i < records.len()
        invariant
            0 <= i <= records@.len(),
            rs == records@,
            entries_right(rs, i as int, heads@, wins@, pubs@),
        decreases records@.len() - i,
    {
        absorb(records, i, &mut heads, &mut wins, &mut pubs);
        i += 1;
    }
    assert(rs.take(rs.len() as int) == rs);
    heads
}


/// Records kept by id: ascending, each id once.
pub open spec fn by_id(rs: Seq<StoredRecord>) -> bool {
    forall|a: int, b: int| 0 <= a < b < rs.len() ==> json::seq_lt((#[trigger] rs[a]).id@, (#[trigger] rs[b]).id@)
}

/// Put `rec` into id order, replacing a record with the same id.
fn put_by_id(rs: &mut Vec<StoredRecord>, rec: StoredRecord)
    requires
        by_id(old(rs)@),
    ensures
        by_id(final(rs)@),
        exists|k: int| 0 <= k < final(rs)@.len() && #[trigger] final(rs)@[k] == rec,
        forall|k: int|
            0 <= k < old(rs)@.len() && old(rs)@[k].id@ != rec.id@ ==> final(rs)@.contains(#[trigger] old(rs)@[k]),
        forall|k: int|
            0 <= k < final(rs)@.len() ==> #[trigger] final(rs)@[k] == rec || old(rs)@.contains(final(rs)@[k]),
{
    let ghost before = rs@;
    let mut p: usize = 0;
    while p < rs.len() && json::str_lt(rs[p].id.as_str(), rec.id.as_str())
        invariant
            0 <= p <= rs@.len(),
            rs@ == before,
            forall|k: int| 0 <= k < p ==> json::seq_lt((#[trigger] rs@[k]).id@, rec.id@),
        decreases rs@.len() - p,
    {
        p += 1;
    }
    if p < rs.len() && text::str_eq(rs[p].id.as_str(), rec.id.as_str()) {
        rs.set(p, rec);
        proof {
            assert forall|a: int, b: int| 0 <= a < b < rs@.len() implies json::seq_lt((#[trigger] rs@[a]).id@, (#[trigger] rs@[b]).id@) by {
                if a == p {
                    assert(before[a].id@ == rs@[a].id@);
                }
                if b == p {
                    assert(before[b].id@ == rs@[b].id@);
                }
            }
            assert(rs@[p as int] == rec);
            assert forall|k: int| 0 <= k < before.len() && before[k].id@ != rec.id@ implies rs@.contains(#[trigger] before[k]) by {
                assert(k != p);
                assert(rs@[k] == before[k]);
            }
            assert forall|k: int| 0 <= k < rs@.len() implies #[trigger] rs@[k] == rec || before.contains(rs@[k]) by {
                if k != p {
                    assert(rs@[k] == before[k]);
                }
            }
        }
    } else {
        proof {
            if p < rs@.len() {
                json::lemma_seq_lt_total(rs@[p as int].id@, rec.id@);
            }
        }
        rs.insert(p, rec);
        proof {
            assert forall|a: int, b: int| 0 <= a < b < rs@.len() implies json::seq_lt((#[trigger] rs@[a]).id@, (#[trigger] rs@[b]).id@) by {
                if a < p && b < p {
                    assert(rs@[a] == before[a] && rs@[b] == before[b]);
                } else if a < p && b == p {
                } else if a < p && b > p {
                    assert(rs@[a] == before[a] && rs@[b] == before[b - 1]);
                    if (b - 1) > a {
                    }
                } else if a == p {
                    assert(rs@[b] == before[b - 1]);
                    if b - 1 > p {
                        json::lemma_seq_lt_trans(rec.id@, before[p as int].id@, before[b - 1].id@);
                    }
                } else {
                    assert(rs@[a] == before[a - 1] && rs@[b] == before[b - 1]);
                }
            }
            assert(rs@[p as int] == rec);
            assert forall|k: int| 0 <= k < before.len() && before[k].id@ != rec.id@ implies rs@.contains(#[trigger] before[k]) by {
                if k < p {
                    assert(rs@[k] == before[k]);
                } else {
                    assert(rs@[k + 1] == before[k]);
                }
            }
            assert forall|k: int| 0 <= k < rs@.len() implies #[trigger] rs@[k] == rec || before.contains(rs@[k]) by {
                if k < p {
                    assert(rs@[k] == before[k]);
                } else if k > p {
                    assert(rs@[k] == before[k - 1]);
                }
            }
        }
    }
}

/// The validation context of a namespace: its records by id, each entity's
/// revisions in commit order, the promoted candidates, and the heads derived
/// from the records themselves.
pub fn build_context(records: Vec<StoredRecord>, seq: i64) -> (ctx: Context)
    ensures
        ctx.seq == seq,
        by_id(ctx.records@),
        forall|k: int| 0 <= k < ctx.records@.len() ==> records@.contains(#[trigger] ctx.records@[k]),
        forall|k: int| 0 <= k < records@.len() ==> exists|j: int|
            0 <= j < ctx.records@.len() && (#[trigger] ctx.records@[j]).id@ == (#[trigger] records@[k]).id@,
        forall|a: int, b: int|
            0 <= a < b < ctx.heads@.len() ==> (#[trigger] ctx.heads@[a]).0@ != (#[trigger] ctx.heads@[b]).0@,
        forall|p: Seq<char>|
            #[trigger] has_heads(ctx.records@, p) <==> exists|k: int| 0 <= k < ctx.heads@.len() && (#[trigger] ctx.heads@[k]).0@ == p,
        forall|k: int|
            0 <= k < ctx.heads@.len() ==> heads_right(ctx.records@, (#[trigger] ctx.heads@[k]).0@, ctx.heads@[k].1),
{
    let mut ctx = Context::new(seq);
    let mut sorted: Vec<StoredRecord> = Vec::new();
    let ghost input = records@;
    let mut records = records;
    let mut rest: Vec<StoredRecord> = Vec::new();
    while records.len() > 0
        invariant
            by_id(sorted@),
            records@.len() + rest@.len() == input.len(),
            forall|k: int| 0 <= k < records@.len() ==> records@[k] == input[k],
            forall|k: int| 0 <= k < rest@.len() ==> rest@[k] == input[input.len() - 1 - k],
            forall|k: int| 0 <= k < sorted@.len() ==> input.contains(#[trigger] sorted@[k]),
        decreases records@.len(),
    {
        let rec = records.pop().unwrap();
        rest.push(rec);
        assert(rest@[rest@.len() - 1] == input[input.len() - rest@.len()]);
    }
    // `rest` holds the input last-first; add it back first-last so that the
    // last record with an id is the one kept.
    while rest.len() > 0
        invariant
            by_id(sorted@),
            rest@.len() <= input.len(),
            forall|k: int| 0 <= k < rest@.len() ==> rest@[k] == input[input.len() - 1 - k],
            forall|k: int| 0 <= k < sorted@.len() ==> input.contains(#[trigger] sorted@[k]),
            forall|k: int|
                0 <= k < input.len() - rest@.len() ==> exists|j: int|
                    0 <= j < sorted@.len() && (#[trigger] sorted@[j]).id@ == (#[trigger] input[k]).id@,
        decreases rest@.len(),
    {
        let ghost at = input.len() - rest@.len();
        let rec = rest.pop().unwrap();
        assert(rec == input[at]);
        let ghost before = sorted@;
        ctx_note(&mut ctx, &rec);
        put_by_id(&mut sorted, rec);
        proof {
            assert forall|k: int| 0 <= k < sorted@.len() implies input.contains(#[trigger] sorted@[k]) by {
                if sorted@[k] != input[at] {
                    assert(before.contains(sorted@[k]));
                    let j = choose|j: int| 0 <= j < before.len() && before[j] == sorted@[k];
                }
            }
            assert forall|k: int| 0 <= k < input.len() - rest@.len() implies exists|j: int|
                0 <= j < sorted@.len() && (#[trigger] sorted@[j]).id@ == (#[trigger] input[k]).id@ by {
                if k == at {
                    let j = choose|j: int| 0 <= j < sorted@.len() && #[trigger] sorted@[j] == input[at];
                } else {
                    let j0 = choose|j: int| 0 <= j < before.len() && (#[trigger] before[j]).id@ == input[k].id@;
                    if before[j0].id@ == input[at].id@ {
                        let j = choose|j: int| 0 <= j < sorted@.len() && #[trigger] sorted@[j] == input[at];
                    } else {
                        assert(sorted@.contains(before[j0]));
                        let j = choose|j: int| 0 <= j < sorted@.len() && sorted@[j] == before[j0];
                    }
                }
            }
        }
    }
    let heads = derive_heads(&sorted);
    let ghost rs = sorted@;
    assert(forall|p: Seq<char>|
        #[trigger] has_heads(rs, p) <==> exists|k: int| 0 <= k < heads@.len() && (#[trigger] heads@[k]).0@ == p);
    ctx.records = sorted;
    ctx.heads = heads;
    ctx.seq = seq;
    assert(ctx.records@ == rs);
    ctx
}

/// A revision table's entries by value.
pub open spec fn pair_views(l: Seq<(i64, String)>) -> Seq<(i64, Seq<char>)> {
    l.map_values(|x: (i64, String)| (x.0, x.1@))
}

/// An entry that a revision `(seq, id)` is placed after: earlier, or the
/// same commit and not after `id`.
pub open spec fn goes_before(x: (i64, Seq<char>), seq: i64, id: Seq<char>) -> bool {
    x.0 < seq || (x.0 == seq && !json::seq_lt(id, x.1))
}

/// `after` is `before` with `(seq, id)` placed after every entry that goes
/// before it and before the first one that does not.
pub open spec fn inserted_in_order(
    before: Seq<(i64, Seq<char>)>,
    after: Seq<(i64, Seq<char>)>,
    seq: i64,
    id: Seq<char>,
) -> bool {
    exists|p: int|
        0 <= p <= before.len() && after == before.insert(p, (seq, id)) && (forall|j: int|
            0 <= j < p ==> goes_before(#[trigger] before[j], seq, id)) && (p < before.len()
            ==> !goes_before(before[p], seq, id))
}

proof fn lemma_revisions_first(t: Seq<(String, Vec<(i64, String)>)>, entity: Seq<char>, k: int)
    requires
        0 <= k < t.len(),
        t[k].0@ == entity,
        forall|j: int| 0 <= j < k ==> (#[trigger] t[j]).0@ != entity,
    ensures
        crate::validate::revisions_in(t, entity) == t[k].1@,
    decreases k,
{
    if k > 0 {
        lemma_revisions_first(t.drop_first(), entity, k - 1);
    }
}

proof fn lemma_revisions_update(t: Seq<(String, Vec<(i64, String)>)>, k: int, entry: (String, Vec<(i64, String)>), e: Seq<char>)
    requires
        0 <= k < t.len(),
        entry.0@ == t[k].0@,
        forall|j: int| 0 <= j < k ==> (#[trigger] t[j]).0@ != t[k].0@,
    ensures
        crate::validate::revisions_in(t.update(k, entry), e) == if e == t[k].0@ {
            entry.1@
        } else {
            crate::validate::revisions_in(t, e)
        },
    decreases k,
{
    let u = t.update(k, entry);
    if k == 0 {
        assert(u.drop_first() =~= t.drop_first());
    } else {
        assert(u.drop_first() =~= t.drop_first().update(k - 1, entry));
        assert(t[0].0@ != t[k].0@);
        lemma_revisions_update(t.drop_first(), k - 1, entry, e);
    }
}

proof fn lemma_revisions_push(t: Seq<(String, Vec<(i64, String)>)>, entry: (String, Vec<(i64, String)>), e: Seq<char>)
    requires
        forall|j: int| 0 <= j < t.len() ==> (#[trigger] t[j]).0@ != entry.0@,
    ensures
        crate::validate::revisions_in(t.push(entry), e) == if e == entry.0@ {
            entry.1@
        } else {
            crate::validate::revisions_in(t, e)
        },
    decreases t.len(),
{
    let u = t.push(entry);
    if t.len() > 0 {
        assert(u.drop_first() =~= t.drop_first().push(entry));
        assert(u[0] == t[0]);
        assert(t[0].0@ != entry.0@);
        assert forall|j: int| 0 <= j < t.drop_first().len() implies (#[trigger] t.drop_first()[j]).0@ != entry.0@ by {
            assert(t.drop_first()[j] == t[j + 1]);
        }
        lemma_revisions_push(t.drop_first(), entry, e);
        if t[0].0@ != e {
            assert(crate::validate::revisions_in(u, e) == crate::validate::revisions_in(u.drop_first(), e));
            assert(crate::validate::revisions_in(t, e) == crate::validate::revisions_in(t.drop_first(), e));
        } else {
            assert(crate::validate::revisions_in(u, e) == u[0].1@);
            assert(crate::validate::revisions_in(t, e) == t[0].1@);
            assert(e != entry.0@);
        }
    } else {
        assert(u[0] == entry);
        assert(u.drop_first() =~= Seq::<(String, Vec<(i64, String)>)>::empty());
        if e == entry.0@ {
            assert(crate::validate::revisions_in(u, e) == entry.1@);
        } else {
            assert(crate::validate::revisions_in(u, e) == crate::validate::revisions_in(u.drop_first(), e));
        }
    }
}

proof fn lemma_revisions_absent(t: Seq<(String, Vec<(i64, String)>)>, entity: Seq<char>)
    requires
        forall|j: int| 0 <= j < t.len() ==> (#[trigger] t[j]).0@ != entity,
    ensures
        crate::validate::revisions_in(t, entity) == Seq::<(i64, String)>::empty(),
    decreases t.len(),
{
    if t.len() > 0 {
        lemma_revisions_absent(t.drop_first(), entity);
    }
}

fn copy_pairs(v: &Vec<(i64, String)>) -> (r: Vec<(i64, String)>)
    ensures
        pair_views(r@) == pair_views(v@),
{
    let mut out: Vec<(i64, String)> = Vec::new();
    let mut i: usize = 0;
    while i < v.len()
        invariant
            0 <= i <= v@.len(),
            pair_views(out@) == pair_views(v@.take(i as int)),
        decreases v@.len() - i,
    {
        let x = (v[i].0, v[i].1.clone());
        let ghost before = out@;
        out.push(x);
        assert(v@.take(i + 1) =~= v@.take(i as int).push(v@[i as int]));
        assert(out@ =~= before.push(x));
        assert(pair_views(out@) =~= pair_views(before).push((x.0, x.1@)));
        assert(pair_views(v@.take(i + 1)) =~= pair_views(v@.take(i as int)).push((v@[i as int].0, v@[i as int].1@)));
        i += 1;
    }
    assert(v@.take(v@.len() as int) =~= v@);
    out
}

/// A record's part of the context besides the record itself: its revision
/// joins its entity's revisions in `(seq, id)` order, a promotion marks its
/// candidate.
fn ctx_note(ctx: &mut Context, rec: &StoredRecord)
    ensures
        final(ctx).records@ == old(ctx).records@,
        final(ctx).heads@ == old(ctx).heads@,
        final(ctx).seq == old(ctx).seq,
        match rec.data {
            RecordData::Revision(rev) => {
                &&& inserted_in_order(
                    pair_views(old(ctx).revisions_of(rev.entity_id@)),
                    pair_views(final(ctx).revisions_of(rev.entity_id@)),
                    rec.seq,
                    rec.id@,
                )
                &&& forall|e: Seq<char>|
                    e != rev.entity_id@ ==> #[trigger] final(ctx).revisions_of(e) == old(ctx).revisions_of(e)
                &&& final(ctx).promoted_candidates@ == old(ctx).promoted_candidates@
            },
            RecordData::Promotion(pr) => {
                &&& views(final(ctx).promoted_candidates@) == views(old(ctx).promoted_candidates@).push(pr.candidate_id@)
                &&& final(ctx).entity_revisions@ == old(ctx).entity_revisions@
            },
            _ => {
                &&& final(ctx).promoted_candidates@ == old(ctx).promoted_candidates@
                &&& final(ctx).entity_revisions@ == old(ctx).entity_revisions@
            },
        },
{
    match &rec.data {
        RecordData::Revision(rev) => {
            let ghost t0 = ctx.entity_revisions@;
            let ghost ent = rev.entity_id@;
            let mut found: Option<usize> = None;
            let mut i: usize = 0;
            while i < ctx.entity_revisions.len()
                invariant
                    0 <= i <= ctx.entity_revisions@.len(),
                    ctx.entity_revisions@ == t0,
                    ent == rev.entity_id@,
                    found matches Some(k) ==> k < i && t0[k as int].0@ == ent && forall|j: int|
                        0 <= j < k ==> (#[trigger] t0[j]).0@ != ent,
                    found is None ==> forall|j: int| 0 <= j < i ==> (#[trigger] t0[j]).0@ != ent,
                decreases ctx.entity_revisions@.len() - i,
            {
                let same = text::str_eq(ctx.entity_revisions[i].0.as_str(), rev.entity_id.as_str());
                assert(ctx.entity_revisions@[i as int] == t0[i as int]);
                assert(same == (t0[i as int].0@ == ent));
                if found.is_none() && same {
                    found = Some(i);
                }
                i += 1;
            }
            let k = match found {
                Some(k) => {
                    proof {
                        lemma_revisions_first(t0, ent, k as int);
                    }
                    k
                },
                None => {
                    proof {
                        lemma_revisions_absent(t0, ent);
                    }
                    ctx.entity_revisions.push((rev.entity_id.clone(), Vec::new()));
                    proof {
                        let t1 = ctx.entity_revisions@;
                        assert forall|e: Seq<char>| crate::validate::revisions_in(t1, e) == crate::validate::revisions_in(t0, e) by {
                            lemma_revisions_push(t0, t1.last(), e);
                            if e == ent {
                                lemma_revisions_absent(t0, e);
                            }
                        }
                        lemma_revisions_first(t1, ent, t0.len() as int);
                    }
                    ctx.entity_revisions.len() - 1
                },
            };
            let ghost t1 = ctx.entity_revisions@;
            assert(forall|e: Seq<char>| crate::validate::revisions_in(t1, e) == crate::validate::revisions_in(t0, e));
            assert(t1[k as int].0@ == ent);
            assert(forall|j: int| 0 <= j < k ==> (#[trigger] t1[j]).0@ != ent);
            let ghost l0 = pair_views(t1[k as int].1@);
            let mut list = copy_pairs(&ctx.entity_revisions[k].1);
            let mut p: usize = 0;
            while p < list.len() && (list[p].0 < rec.seq || (list[p].0 == rec.seq
                && !json::str_lt(rec.id.as_str(), list[p].1.as_str())))
                invariant
                    p <= list@.len(),
                    pair_views(list@) == l0,
                    forall|j: int| 0 <= j < p ==> goes_before(#[trigger] l0[j], rec.seq, rec.id@),
                decreases list@.len() - p,
            {
                assert(l0[p as int] == (list@[p as int].0, list@[p as int].1@));
                p += 1;
            }
            proof {
                if p < list@.len() {
                    assert(l0[p as int] == (list@[p as int].0, list@[p as int].1@));
                }
            }
            let ghost lbefore = list@;
            list.insert(p, (rec.seq, rec.id.clone()));
            assert(pair_views(list@) =~= l0.insert(p as int, (rec.seq, rec.id@)));
            let name = ctx.entity_revisions[k].0.clone();
            let ghost entry = (name, list);
            ctx.entity_revisions.set(k, (name, list));
            proof {
                assert forall|e: Seq<char>|
                    crate::validate::revisions_in(ctx.entity_revisions@, e) == if e == ent {
                        entry.1@
                    } else {
                        crate::validate::revisions_in(t0, e)
                    } by {
                    lemma_revisions_update(t1, k as int, entry, e);
                }
                assert(inserted_in_order(l0, pair_views(entry.1@), rec.seq, rec.id@));
            }
        },
        RecordData::Promotion(pr) => {
            ctx.promoted_candidates.push(pr.candidate_id.clone());
            assert(views(ctx.promoted_candidates@) =~= views(old(ctx).promoted_candidates@).push(pr.candidate_id@));
        },
        _ => {},
    }
}


// ---------------------------------------------------------------- edges

/// What an edge carries besides its ends.
#[derive(Debug)]
pub enum EdgeProps {
    Plain,
    /// A slot of a composition, with its position.
    Slot { slot_id: String, roles: Vec<String>, ord: usize },
    /// A record a progress estimate cites for a criterion.
    Progress { criterion_id: String },
    /// The link record an edge stands for.
    Link { link_id: String },
}

/// A typed relationship a record's payload implies.
#[derive(Debug)]
pub struct Edge {
    pub rel: &'static str,
    pub from: String,
    pub to: String,
    pub props: EdgeProps,
}

pub open spec fn edge(rel: Seq<char>, from: Seq<char>, to: Seq<char>) -> (Seq<char>, Seq<char>, Seq<char>) {
    (rel, from, to)
}

/// `(rel, id, target)` for each target.
pub open spec fn fan(rel: Seq<char>, id: Seq<char>, targets: Seq<Seq<char>>) -> Seq<(Seq<char>, Seq<char>, Seq<char>)> {
    targets.map_values(|t: Seq<char>| edge(rel, id, t))
}

pub open spec fn opt_edge(rel: Seq<char>, id: Seq<char>, target: Option<String>) -> Seq<(Seq<char>, Seq<char>, Seq<char>)> {
    match target {
        Some(t) => seq![edge(rel, id, t@)],
        None => Seq::empty(),
    }
}

/// Evidence edges of the progress estimates among `results`.
pub open spec fn progress_edges(id: Seq<char>, results: Seq<CriterionResult>) -> Seq<(Seq<char>, Seq<char>, Seq<char>)>
    decreases results.len(),
{
    if results.len() == 0 {
        Seq::empty()
    } else {
        progress_edges(id, results.drop_last()) + match results.last().progress_estimate {
            Some(e) => fan("EVIDENCE"@, id, views(e.evidence_record_ids@)),
            None => Seq::empty(),
        }
    }
}

/// The relationships a record implies, as `(type, from, to)`, in the order
/// they are written.
pub open spec fn edges_of(r: StoredRecord) -> Seq<(Seq<char>, Seq<char>, Seq<char>)> {
    let id = r.id@;
    match r.data {
        RecordData::Entity(d) => seq![edge("IN_PROJECT"@, id, d.project_id@)] + fan(
            "DERIVED_FROM"@,
            id,
            views(d.derived_from@),
        ),
        RecordData::Revision(d) => seq![edge("REVISION_OF"@, id, d.entity_id@)] + d.slots@.map_values(
            |sl: crate::model::Slot| edge("CONTAINS"@, id, sl.revision_id@),
        ) + opt_edge("CORRECTION_OF"@, id, d.correction_of),
        RecordData::Candidate(d) => opt_edge("FROM_CAPTURE"@, id, d.capture_id),
        RecordData::Promotion(d) => seq![
            edge("PROMOTES"@, id, d.candidate_id@),
            edge("PRODUCED"@, id, d.entity_id@),
            edge("PRODUCED"@, id, d.revision_id@),
        ],
        RecordData::Observation(d) => opt_edge("OBSERVES"@, id, d.target_revision_id) + fan(
            "ARTIFACT"@,
            id,
            views(d.artifact_ids@),
        ),
        RecordData::Goal(d) => seq![
            edge("IN_PROJECT"@, id, d.project_id@),
            edge("SCOPED_TO"@, id, d.scope.target_revision_id@),
        ],
        RecordData::Baseline(d) => seq![edge("FOR_GOAL"@, id, d.goal_id@)] + opt_edge(
            "SUPERSEDES"@,
            id,
            d.supersedes,
        ),
        RecordData::Assessment(d) => seq![
            edge("AGAINST_BASELINE"@, id, d.baseline_id@),
            edge("EVALUATES"@, id, d.target_revision_id@),
        ] + fan("EVIDENCE"@, id, views(d.evidence_observation_ids@)) + progress_edges(
            id,
            d.criteria_results@,
        ),
        RecordData::Link(d) => seq![edge(d.link_type.rel_name(), d.from_id@, d.to_id@)],
        RecordData::Embedding(d) => seq![edge("EMBEDS"@, id, d.revision_id@)],
        RecordData::HeadChange(d) => seq![
            edge("IN_PROJECT"@, id, d.project_id@),
            edge("MOVES_TO"@, id, d.after_revision_id@),
        ],
        RecordData::Publication(d) => seq![
            edge("IN_PROJECT"@, id, d.project_id@),
            edge("PUBLISHES"@, id, d.root_revision_id@),
        ],
        _ => Seq::empty(),
    }
}

pub open spec fn edge_views(es: Seq<Edge>) -> Seq<(Seq<char>, Seq<char>, Seq<char>)> {
    es.map_values(|e: Edge| edge(e.rel@, e.from@, e.to@))
}

fn put_edge(out: &mut Vec<Edge>, rel: &'static str, from: &str, to: &str, props: EdgeProps)
    ensures
        edge_views(final(out)@) == edge_views(old(out)@).push(edge(rel@, from@, to@)),
{
    out.push(Edge { rel, from: text::owned(from), to: text::owned(to), props });
    assert(edge_views(final(out)@) =~= edge_views(old(out)@).push(edge(rel@, from@, to@)));
}

fn put_edges(out: &mut Vec<Edge>, rel: &'static str, from: &str, targets: &Vec<String>)
    ensures
        edge_views(final(out)@) == edge_views(old(out)@) + fan(rel@, from@, views(targets@)),
{
    let ghost start = edge_views(out@);
    let mut i: usize = 0;
    while i < targets.len()
        invariant
            0 <= i <= targets@.len(),
            edge_views(out@) == start + fan(rel@, from@, views(targets@)).take(i as int),
        decreases targets@.len() - i,
    {
        put_edge(out, rel, from, targets[i].as_str(), EdgeProps::Plain);
        assert(fan(rel@, from@, views(targets@)).take(i + 1) =~= fan(rel@, from@, views(targets@)).take(
            i as int,
        ).push(edge(rel@, from@, targets@[i as int]@)));
        i += 1;
    }
    assert(fan(rel@, from@, views(targets@)).take(targets@.len() as int) =~= fan(rel@, from@, views(targets@)));
}

fn put_opt_edge(out: &mut Vec<Edge>, rel: &'static str, from: &str, target: &Option<String>)
    ensures
        edge_views(final(out)@) == edge_views(old(out)@) + opt_edge(rel@, from@, *target),
{
    match target {
        Some(t) => {
            put_edge(out, rel, from, t.as_str(), EdgeProps::Plain);
            assert(edge_views(old(out)@).push(edge(rel@, from@, t@)) =~= edge_views(old(out)@) + opt_edge(rel@, from@, *target));
        },
        None => {
            assert(edge_views(out@) =~= edge_views(out@) + opt_edge(rel@, from@, *target));
        },
    }
}

/// Append the relationships `rec` implies.
pub fn record_edges(rec: &StoredRecord, out: &mut Vec<Edge>)
    ensures
        edge_views(final(out)@) == edge_views(old(out)@) + edges_of(*rec),
{
    let ghost start = edge_views(out@);
    let id = rec.id.as_str();
    proof {
        reveal_strlit("IN_PROJECT");
    }
    match &rec.data {
        RecordData::Entity(d) => {
            put_edge(out, "IN_PROJECT", id, d.project_id.as_str(), EdgeProps::Plain);
            put_edges(out, "DERIVED_FROM", id, &d.derived_from);
        },
        RecordData::Revision(d) => {
            put_edge(out, "REVISION_OF", id, d.entity_id.as_str(), EdgeProps::Plain);
            let ghost mid = edge_views(out@);
            let ghost cs = d.slots@.map_values(|sl: crate::model::Slot| edge("CONTAINS"@, id@, sl.revision_id@));
            let mut i: usize = 0;
            while i < d.slots.len()
                invariant
                    0 <= i <= d.slots@.len(),
                    cs == d.slots@.map_values(|sl: crate::model::Slot| edge("CONTAINS"@, id@, sl.revision_id@)),
                    edge_views(out@) == mid + cs.take(i as int),
                decreases d.slots@.len() - i,
            {
                let sl = &d.slots[i];
                put_edge(
                    out,
                    "CONTAINS",
                    id,
                    sl.revision_id.as_str(),
                    EdgeProps::Slot { slot_id: sl.slot_id.clone(), roles: crate::model::copy_strings(&sl.roles), ord: i },
                );
                assert(cs.take(i + 1) =~= cs.take(i as int).push(cs[i as int]));
                i += 1;
            }
            assert(cs.take(d.slots@.len() as int) =~= cs);
            put_opt_edge(out, "CORRECTION_OF", id, &d.correction_of);
        },
        RecordData::Candidate(d) => {
            put_opt_edge(out, "FROM_CAPTURE", id, &d.capture_id);
        },
        RecordData::Promotion(d) => {
            put_edge(out, "PROMOTES", id, d.candidate_id.as_str(), EdgeProps::Plain);
            put_edge(out, "PRODUCED", id, d.entity_id.as_str(), EdgeProps::Plain);
            put_edge(out, "PRODUCED", id, d.revision_id.as_str(), EdgeProps::Plain);
        },
        RecordData::Observation(d) => {
            put_opt_edge(out, "OBSERVES", id, &d.target_revision_id);
            put_edges(out, "ARTIFACT", id, &d.artifact_ids);
        },
        RecordData::Goal(d) => {
            put_edge(out, "IN_PROJECT", id, d.project_id.as_str(), EdgeProps::Plain);
            put_edge(out, "SCOPED_TO", id, d.scope.target_revision_id.as_str(), EdgeProps::Plain);
        },
        RecordData::Baseline(d) => {
            put_edge(out, "FOR_GOAL", id, d.goal_id.as_str(), EdgeProps::Plain);
            put_opt_edge(out, "SUPERSEDES", id, &d.supersedes);
        },
        RecordData::Assessment(d) => {
            put_edge(out, "AGAINST_BASELINE", id, d.baseline_id.as_str(), EdgeProps::Plain);
            put_edge(out, "EVALUATES", id, d.target_revision_id.as_str(), EdgeProps::Plain);
            put_edges(out, "EVIDENCE", id, &d.evidence_observation_ids);
            let ghost mid = edge_views(out@);
            let mut i: usize = 0;
            while i < d.criteria_results.len()
                invariant
                    0 <= i <= d.criteria_results@.len(),
                    edge_views(out@) == mid + progress_edges(id@, d.criteria_results@.take(i as int)),
                decreases d.criteria_results@.len() - i,
            {
                let res = &d.criteria_results[i];
                let ghost before = edge_views(out@);
                match &res.progress_estimate {
                    Some(e) => {
                        let mut k: usize = 0;
                        while k < e.evidence_record_ids.len()
                            invariant
                                0 <= k <= e.evidence_record_ids@.len(),
                                edge_views(out@) == before + fan("EVIDENCE"@, id@, views(e.evidence_record_ids@)).take(k as int),
                            decreases e.evidence_record_ids@.len() - k,
                        {
                            put_edge(
                                out,
                                "EVIDENCE",
                                id,
                                e.evidence_record_ids[k].as_str(),
                                EdgeProps::Progress { criterion_id: res.criterion_id.clone() },
                            );
                            assert(fan("EVIDENCE"@, id@, views(e.evidence_record_ids@)).take(k + 1) =~= fan(
                                "EVIDENCE"@,
                                id@,
                                views(e.evidence_record_ids@),
                            ).take(k as int).push(edge("EVIDENCE"@, id@, e.evidence_record_ids@[k as int]@)));
                            k += 1;
                        }
                        assert(fan("EVIDENCE"@, id@, views(e.evidence_record_ids@)).take(
                            e.evidence_record_ids@.len() as int,
                        ) =~= fan("EVIDENCE"@, id@, views(e.evidence_record_ids@)));
                    },
                    None => {},
                }
                proof {
                    let rs = d.criteria_results@.take(i + 1);
                    assert(rs.drop_last() =~= d.criteria_results@.take(i as int));
                    assert(rs.last() == *res);
                    assert(edge_views(out@) =~= mid + progress_edges(id@, rs));
                }
                i += 1;
            }
            assert(d.criteria_results@.take(d.criteria_results@.len() as int) =~= d.criteria_results@);
        },
        RecordData::Link(d) => {
            let link = rec.id.clone();
            put_edge(out, d.link_type.rel_type(), d.from_id.as_str(), d.to_id.as_str(), EdgeProps::Link { link_id: link });
        },
        RecordData::Embedding(d) => {
            put_edge(out, "EMBEDS", id, d.revision_id.as_str(), EdgeProps::Plain);
        },
        RecordData::HeadChange(d) => {
            put_edge(out, "IN_PROJECT", id, d.project_id.as_str(), EdgeProps::Plain);
            put_edge(out, "MOVES_TO", id, d.after_revision_id.as_str(), EdgeProps::Plain);
        },
        RecordData::Publication(d) => {
            put_edge(out, "IN_PROJECT", id, d.project_id.as_str(), EdgeProps::Plain);
            put_edge(out, "PUBLISHES", id, d.root_revision_id.as_str(), EdgeProps::Plain);
        },
        _ => {},
    }
    assert(edge_views(out@) =~= start + edges_of(*rec));
}


/// The relationships a run of records implies, record by record.
pub open spec fn records_edges(rs: Seq<StoredRecord>) -> Seq<(Seq<char>, Seq<char>, Seq<char>)>
    decreases rs.len(),
{
    if rs.len() == 0 {
        Seq::empty()
    } else {
        records_edges(rs.drop_last()) + edges_of(rs.last())
    }
}

/// Every relationship type a record can imply, in code-point order.
pub open spec fn rel_types() -> Seq<Seq<char>> {
    seq![
        "AGAINST_BASELINE"@, "APPLIES"@, "ARTIFACT"@, "CONTAINS"@, "CONTRADICTS"@,
        "CORRECTION_OF"@, "DEPENDS"@, "DERIVED"@, "DERIVED_FROM"@, "EMBEDS"@, "EVALUATES"@,
        "EVIDENCE"@, "FOR_GOAL"@, "FROM_CAPTURE"@, "IMPACTS"@, "IMPLEMENTS"@, "IN_PROJECT"@,
        "MOVES_TO"@, "OBSERVES"@, "PRODUCED"@, "PROMOTES"@, "PUBLISHES"@, "REVISION_OF"@,
        "SCOPED_TO"@, "SIMILAR"@, "SUPERSEDES"@, "SUPPORTS"@,
    ]
}

/// Whether some batch of `out` has type `t`.
#[verifier::opaque]
pub open spec fn has_type(out: Seq<(&'static str, Vec<Edge>)>, t: Seq<char>) -> bool {
    exists|i: int| 0 <= i < out.len() && (#[trigger] out[i]).0@ == t
}

proof fn lemma_has_type_push(before: Seq<(&'static str, Vec<Edge>)>, after: Seq<(&'static str, Vec<Edge>)>)
    requires
        after.len() == before.len() + 1,
        forall|i: int| 0 <= i < before.len() ==> after[i] == before[i],
    ensures
        forall|t: Seq<char>| #[trigger] has_type(before, t) ==> has_type(after, t),
{
    reveal(has_type);
    assert forall|t: Seq<char>| #[trigger] has_type(before, t) implies has_type(after, t) by {
        let i = choose|i: int| 0 <= i < before.len() && (#[trigger] before[i]).0@ == t;
        assert(after[i] == before[i]);
    }
}

/// The edges of one type, in order.
pub open spec fn of_type(es: Seq<(Seq<char>, Seq<char>, Seq<char>)>, t: Seq<char>) -> Seq<(Seq<char>, Seq<char>, Seq<char>)> {
    es.filter(|e: (Seq<char>, Seq<char>, Seq<char>)| e.0 == t)
}

fn copy_edge(e: &Edge) -> (r: Edge)
    ensures
        r.rel == e.rel,
        r.from@ == e.from@,
        r.to@ == e.to@,
{
    let props = match &e.props {
        EdgeProps::Plain => EdgeProps::Plain,
        EdgeProps::Slot { slot_id, roles, ord } => EdgeProps::Slot {
            slot_id: slot_id.clone(),
            roles: crate::model::copy_strings(roles),
            ord: *ord,
        },
        EdgeProps::Progress { criterion_id } => EdgeProps::Progress { criterion_id: criterion_id.clone() },
        EdgeProps::Link { link_id } => EdgeProps::Link { link_id: link_id.clone() },
    };
    Edge { rel: e.rel, from: e.from.clone(), to: e.to.clone(), props }
}

/// Relationships projected from record payloads, grouped by type in type
/// order; each group keeps record order. Types come from a fixed list, never
/// from request text.
pub fn rel_batches(records: &Vec<StoredRecord>) -> (r: Vec<(&'static str, Vec<Edge>)>)
    ensures
        forall|i: int|
            0 <= i < r@.len() ==> {
                &&& rel_types().contains((#[trigger] r@[i]).0@)
                &&& r@[i].1@.len() > 0
                &&& edge_views(r@[i].1@) == of_type(records_edges(records@), r@[i].0@)
            },
        forall|a: int, b: int| 0 <= a < b < r@.len() ==> json::seq_lt((#[trigger] r@[a]).0@, (#[trigger] r@[b]).0@),
        forall|j: int|
            0 <= j < rel_types().len() && of_type(records_edges(records@), rel_types()[j]).len() > 0
                ==> #[trigger] has_type(r@, rel_types()[j]),
{
    let mut flat: Vec<Edge> = Vec::new();
    let mut i: usize = 0;
    assert(edge_views(flat@) =~= records_edges(records@.take(0)));
    while i < records.len()
        invariant
            0 <= i <= records@.len(),
            edge_views(flat@) == records_edges(records@.take(i as int)),
        decreases records@.len() - i,
    {
        record_edges(&records[i], &mut flat);
        proof {
            assert(records@.take(i + 1).drop_last() =~= records@.take(i as int));
        }
        i += 1;
    }
    assert(records@.take(records@.len() as int) =~= records@);
    let ghost fv = edge_views(flat@);
    let types: [&'static str; 27] = [
        "AGAINST_BASELINE", "APPLIES", "ARTIFACT", "CONTAINS", "CONTRADICTS", "CORRECTION_OF",
        "DEPENDS", "DERIVED", "DERIVED_FROM", "EMBEDS", "EVALUATES", "EVIDENCE", "FOR_GOAL",
        "FROM_CAPTURE", "IMPACTS", "IMPLEMENTS", "IN_PROJECT", "MOVES_TO", "OBSERVES", "PRODUCED",
        "PROMOTES", "PUBLISHES", "REVISION_OF", "SCOPED_TO", "SIMILAR", "SUPERSEDES", "SUPPORTS",
    ];
    assert(types@.map_values(|t: &str| t@) =~= rel_types());
    proof {
        lemma_rel_types_sorted();
    }
    let mut out: Vec<(&'static str, Vec<Edge>)> = Vec::new();
    let mut k: usize = 0;
    while k < 27
        invariant
            0 <= k <= 27,
            fv == edge_views(flat@),
            fv == records_edges(records@),
            types@.map_values(|t: &str| t@) == rel_types(),
            forall|a: int, b: int| 0 <= a < b < 27 ==> json::seq_lt(#[trigger] rel_types()[a], #[trigger] rel_types()[b]),
            forall|m: int|
                0 <= m < out@.len() ==> {
                    &&& exists|j: int| 0 <= j < k && rel_types()[j] == (#[trigger] out@[m]).0@
                    &&& out@[m].1@.len() > 0
                    &&& edge_views(out@[m].1@) == of_type(fv, out@[m].0@)
                },
            forall|m: int| 0 <= m < out@.len() ==> exists|j: int| 0 <= j < k && rel_types()[j] == (#[trigger] out@[m]).0@
                && (forall|m2: int| m < m2 < out@.len() ==> exists|j2: int| j < j2 < k && rel_types()[j2] == (#[trigger] out@[m2]).0@),
            forall|j: int|
                0 <= j < k && of_type(fv, rel_types()[j]).len() > 0 ==> #[trigger] has_type(out@, rel_types()[j]),
        decreases 27 - k,
    {
        let t = types[k];
        assert(t@ == rel_types()[k as int]);
        let ghost f = |e: (Seq<char>, Seq<char>, Seq<char>)| e.0 == t@;
        let mut batch: Vec<Edge> = Vec::new();
        let mut j: usize = 0;
        while j < flat.len()
            invariant
                0 <= j <= flat@.len(),
                fv == edge_views(flat@),
                f == (|e: (Seq<char>, Seq<char>, Seq<char>)| e.0 == t@),
                edge_views(batch@) == fv.take(j as int).filter(f),
            decreases flat@.len() - j,
        {
            proof {
                assert(fv.take(j + 1) =~= fv.take(j as int).push(fv[j as int]));
                fv.take(j as int).lemma_filter_push(fv[j as int], f);
            }
            if text::str_eq(flat[j].rel, t) {
                let c = copy_edge(&flat[j]);
                let ghost before = batch@;
                batch.push(c);
                assert(edge_views(batch@) =~= edge_views(before).push(fv[j as int]));
            }
            j += 1;
        }
        assert(fv.take(flat@.len() as int) =~= fv);
        if batch.len() > 0 {
            let ghost before = out@;
            out.push((t, batch));
            proof {
                lemma_has_type_push(before, out@);
                assert(has_type(out@, rel_types()[k as int])) by {
                    reveal(has_type);
                    assert(out@[before.len() as int].0@ == rel_types()[k as int]);
                }
                assert forall|jj: int|
                    0 <= jj < k + 1 && of_type(fv, rel_types()[jj]).len() > 0 implies #[trigger] has_type(
                    out@,
                    rel_types()[jj],
                ) by {
                    if jj < k {
                        assert(has_type(before, rel_types()[jj]));
                    }
                }
                assert forall|m: int| 0 <= m < out@.len() implies exists|j: int| 0 <= j < k + 1 && rel_types()[j] == (#[trigger] out@[m]).0@
                    && (forall|m2: int| m < m2 < out@.len() ==> exists|j2: int| j < j2 < k + 1 && rel_types()[j2] == (#[trigger] out@[m2]).0@) by {
                    if m < before.len() {
                        let j = choose|j: int| 0 <= j < k && rel_types()[j] == (#[trigger] before[m]).0@
                            && (forall|m2: int| m < m2 < before.len() ==> exists|j2: int| j < j2 < k && rel_types()[j2] == (#[trigger] before[m2]).0@);
                        assert(out@[m] == before[m]);
                        assert forall|m2: int| m < m2 < out@.len() implies exists|j2: int| j < j2 < k + 1 && rel_types()[j2] == (#[trigger] out@[m2]).0@ by {
                            if m2 < before.len() {
                                assert(out@[m2] == before[m2]);
                            } else {
                                assert(rel_types()[k as int] == out@[m2].0@);
                            }
                        }
                    } else {
                        assert(rel_types()[k as int] == out@[m].0@);
                    }
                }
                assert forall|m: int| 0 <= m < out@.len() implies {
                    &&& exists|j: int| 0 <= j < k + 1 && rel_types()[j] == (#[trigger] out@[m]).0@
                    &&& out@[m].1@.len() > 0
                    &&& edge_views(out@[m].1@) == of_type(fv, out@[m].0@)
                } by {
                    if m < before.len() {
                        assert(out@[m] == before[m]);
                    } else {
                        assert(rel_types()[k as int] == out@[m].0@);
                    }
                }
            }
        } else {
            proof {
                assert(of_type(fv, rel_types()[k as int]).len() == 0);
                assert forall|jj: int|
                    0 <= jj < k + 1 && of_type(fv, rel_types()[jj]).len() > 0 implies #[trigger] has_type(
                    out@,
                    rel_types()[jj],
                ) by {
                    if jj < k {
                        assert(has_type(out@, rel_types()[jj]));
                    }
                }
                assert forall|m: int| 0 <= m < out@.len() implies exists|j: int| 0 <= j < k + 1 && rel_types()[j] == (#[trigger] out@[m]).0@
                    && (forall|m2: int| m < m2 < out@.len() ==> exists|j2: int| j < j2 < k + 1 && rel_types()[j2] == (#[trigger] out@[m2]).0@) by {
                    let j = choose|j: int| 0 <= j < k && rel_types()[j] == (#[trigger] out@[m]).0@
                        && (forall|m2: int| m < m2 < out@.len() ==> exists|j2: int| j < j2 < k && rel_types()[j2] == (#[trigger] out@[m2]).0@);
                }
            }
        }
        k += 1;
    }
    proof {
        assert forall|i: int| 0 <= i < out@.len() implies rel_types().contains((#[trigger] out@[i]).0@) by {
            let j = choose|j: int| 0 <= j < 27 && rel_types()[j] == (#[trigger] out@[i]).0@;
        }
        assert forall|a: int, b: int| 0 <= a < b < out@.len() implies json::seq_lt((#[trigger] out@[a]).0@, (#[trigger] out@[b]).0@) by {
            let j = choose|j: int| 0 <= j < 27 && rel_types()[j] == (#[trigger] out@[a]).0@
                && (forall|m2: int| a < m2 < out@.len() ==> exists|j2: int| j < j2 < 27 && rel_types()[j2] == (#[trigger] out@[m2]).0@);
            let j2 = choose|j2: int| j < j2 < 27 && rel_types()[j2] == (#[trigger] out@[b]).0@;
        }
    }
    out
}

proof fn lemma_rel_types_sorted()
    ensures
        forall|a: int, b: int| 0 <= a < b < 27 ==> json::seq_lt(#[trigger] rel_types()[a], #[trigger] rel_types()[b]),
{
    reveal_strlit("AGAINST_BASELINE");
    reveal_strlit("APPLIES");
    reveal_strlit("ARTIFACT");
    reveal_strlit("CONTAINS");
    reveal_strlit("CONTRADICTS");
    reveal_strlit("CORRECTION_OF");
    reveal_strlit("DEPENDS");
    reveal_strlit("DERIVED");
    reveal_strlit("DERIVED_FROM");
    reveal_strlit("EMBEDS");
    reveal_strlit("EVALUATES");
    reveal_strlit("EVIDENCE");
    reveal_strlit("FOR_GOAL");
    reveal_strlit("FROM_CAPTURE");
    reveal_strlit("IMPACTS");
    reveal_strlit("IMPLEMENTS");
    reveal_strlit("IN_PROJECT");
    reveal_strlit("MOVES_TO");
    reveal_strlit("OBSERVES");
    reveal_strlit("PRODUCED");
    reveal_strlit("PROMOTES");
    reveal_strlit("PUBLISHES");
    reveal_strlit("REVISION_OF");
    reveal_strlit("SCOPED_TO");
    reveal_strlit("SIMILAR");
    reveal_strlit("SUPERSEDES");
    reveal_strlit("SUPPORTS");
    reveal_with_fuel(json::seq_lt, 10);
    assert(json::seq_lt("AGAINST_BASELINE"@, "APPLIES"@));
    assert(json::seq_lt("APPLIES"@, "ARTIFACT"@));
    assert(json::seq_lt("ARTIFACT"@, "CONTAINS"@));
    assert(json::seq_lt("CONTAINS"@, "CONTRADICTS"@));
    assert(json::seq_lt("CONTRADICTS"@, "CORRECTION_OF"@));
    assert(json::seq_lt("CORRECTION_OF"@, "DEPENDS"@));
    assert(json::seq_lt("DEPENDS"@, "DERIVED"@));
    assert(json::seq_lt("DERIVED"@, "DERIVED_FROM"@));
    assert(json::seq_lt("DERIVED_FROM"@, "EMBEDS"@));
    assert(json::seq_lt("EMBEDS"@, "EVALUATES"@));
    assert(json::seq_lt("EVALUATES"@, "EVIDENCE"@));
    assert(json::seq_lt("EVIDENCE"@, "FOR_GOAL"@));
    assert(json::seq_lt("FOR_GOAL"@, "FROM_CAPTURE"@));
    assert(json::seq_lt("FROM_CAPTURE"@, "IMPACTS"@));
    assert(json::seq_lt("IMPACTS"@, "IMPLEMENTS"@));
    assert(json::seq_lt("IMPLEMENTS"@, "IN_PROJECT"@));
    assert(json::seq_lt("IN_PROJECT"@, "MOVES_TO"@));
    assert(json::seq_lt("MOVES_TO"@, "OBSERVES"@));
    assert(json::seq_lt("OBSERVES"@, "PRODUCED"@));
    assert(json::seq_lt("PRODUCED"@, "PROMOTES"@));
    assert(json::seq_lt("PROMOTES"@, "PUBLISHES"@));
    assert(json::seq_lt("PUBLISHES"@, "REVISION_OF"@));
    assert(json::seq_lt("REVISION_OF"@, "SCOPED_TO"@));
    assert(json::seq_lt("SCOPED_TO"@, "SIMILAR"@));
    assert(json::seq_lt("SIMILAR"@, "SUPERSEDES"@));
    assert(json::seq_lt("SUPERSEDES"@, "SUPPORTS"@));
    assert forall|x: int| 0 <= x < 26 implies #[trigger] adjacent_sorted(x) by {
        assert(x == 0 || x == 1 || x == 2 || x == 3 || x == 4 || x == 5 || x == 6 || x == 7 || x == 8 || x == 9 || x == 10 || x == 11 || x == 12 || x == 13 || x == 14 || x == 15 || x == 16 || x == 17 || x == 18 || x == 19 || x == 20 || x == 21 || x == 22 || x == 23 || x == 24 || x == 25);
    }
    assert forall|a: int, b: int| 0 <= a < b < 27 implies json::seq_lt(#[trigger] rel_types()[a], #[trigger] rel_types()[b]) by {
        lemma_sorted_chain(a, b);
    }
}

pub open spec fn adjacent_sorted(x: int) -> bool {
    json::seq_lt(rel_types()[x], rel_types()[x + 1])
}

proof fn lemma_sorted_chain(a: int, b: int)
    requires
        0 <= a < b < 27,
        forall|x: int| 0 <= x < 26 ==> #[trigger] adjacent_sorted(x),
    ensures
        json::seq_lt(rel_types()[a], rel_types()[b]),
    decreases b - a,
{
    assert(adjacent_sorted(b - 1));
    if b > a + 1 {
        lemma_sorted_chain(a, b - 1);
        json::lemma_seq_lt_trans(rel_types()[a], rel_types()[b - 1], rel_types()[b]);
    }
}

/// Batch `i` attached as many edges as it holds.
pub open spec fn count_matches(batches: Seq<(&'static str, Vec<Edge>)>, created: Seq<i64>, i: int) -> bool {
    i < created.len() && created[i] == batches[i].1@.len()
}

/// Every relationship batch must attach as many edges as it declared; a short
/// count means an endpoint vanished between validation and write, and the
/// whole write is rolled back.
pub fn check_edge_counts(batches: &Vec<(&'static str, Vec<Edge>)>, created: &Vec<i64>) -> (r: Result<(), ApiError>)
    ensures
        r is Ok <==> forall|i: int| 0 <= i < batches@.len() ==> #[trigger] count_matches(batches@, created@, i),
        r matches Err(e) ==> e.code == "storage_error",
{
    let mut i: usize = 0;
    while i < batches.len()
        invariant
            0 <= i <= batches@.len(),
            forall|k: int| 0 <= k < i ==> #[trigger] count_matches(batches@, created@, k),
        decreases batches@.len() - i,
    {
        let want = batches[i].1.len();
        let got: i64 = if i < created.len() {
            created[i]
        } else {
            -1
        };
        if got < 0 || (got as u64) != (want as u64) {
            let mut m = text::owned("relationship batch ");
            text::push_str(&mut m, batches[i].0);
            text::push_str(&mut m, " attached ");
            let g = text::int_text(got);
            text::push_str(&mut m, g.as_str());
            text::push_str(&mut m, " of ");
            let w = text::usize_text(want);
            text::push_str(&mut m, w.as_str());
            text::push_str(&mut m, " edges");
            assert(!count_matches(batches@, created@, i as int));
            return Err(ApiError::storage(m));
        }
        i += 1;
    }
    Ok(())
}

} // verus!
