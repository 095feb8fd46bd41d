//! Search over a selected composition: query tokens and lexical scores,
//! reciprocal-rank fusion of the lexical and the vector order, revisions
//! related through links whose roles do not match, and the candidate lane.
//! Vector similarity is computed by the caller and enters as an order over
//! embedding records.

use vstd::prelude::*;

use crate::error::ApiError;
use crate::graph::{self, Limits, Occurrence, Walk};
use crate::limits;
use crate::model::Stage;
use crate::validate::Context;
use crate::json;
use crate::model::{
    copy_strings, views, CandidateStatus, ClaimMode, LinkType, Origin, RecordData, RevisionData, StoredRecord,
};
use crate::query::{self, KnownView};
use crate::text;

verus! {

// ---------------------------------------------------------------- tokens

/// A character of the CJK unified ideographs (extension A through the basic
/// block), which search also indexes by adjacent pairs.
pub open spec fn is_cjk(c: char) -> bool {
    0x3400 <= (c as u32) && (c as u32) <= 0x9fff
}

/// The maximal alphanumeric runs of `cs`, continuing a run `w` already begun.
pub open spec fn words_from(cs: Seq<char>, w: Seq<char>) -> Seq<Seq<char>>
    decreases cs.len(),
{
    if cs.len() == 0 {
        if w.len() > 0 {
            seq![w]
        } else {
            Seq::empty()
        }
    } else if text::spec_is_alphanumeric(cs[0]) {
        words_from(cs.drop_first(), w.push(cs[0]))
    } else if w.len() > 0 {
        seq![w] + words_from(cs.drop_first(), Seq::empty())
    } else {
        words_from(cs.drop_first(), w)
    }
}

/// Adjacent pairs of CJK characters, left to right.
pub open spec fn cjk_pairs(cs: Seq<char>) -> Seq<Seq<char>>
    decreases cs.len(),
{
    if cs.len() < 2 {
        Seq::empty()
    } else if is_cjk(cs[0]) && is_cjk(cs[1]) {
        seq![seq![cs[0], cs[1]]] + cjk_pairs(cs.drop_first())
    } else {
        cjk_pairs(cs.drop_first())
    }
}

/// The search tokens of a text: the alphanumeric words of its lower-case
/// form, then its CJK character pairs.
pub open spec fn spec_tokens(s: Seq<char>) -> Seq<Seq<char>> {
    let cs = text::spec_to_lowercase(s);
    words_from(cs, Seq::empty()) + cjk_pairs(cs)
}

fn cjk(c: char) -> (r: bool)
    ensures
        r == is_cjk(c),
{
    let x = c as u32;
    0x3400 <= x && x <= 0x9fff
}

/// The search tokens of `s`.
pub fn tokens(s: &str) -> (r: Vec<String>)
    ensures
        views(r@) == spec_tokens(s@),
{
    let lower = text::to_lowercase(s);
    let cs = text::chars_of(lower.as_str());
    let ghost all = cs@;
    let mut out: Vec<String> = Vec::new();
    let mut w = String::new();
    let mut i: usize = 0;
    assert(cs@.skip(0) == cs@);
    while i < cs.len()
        invariant
            0 <= i <= cs@.len(),
            cs@ == all,
            views(out@) + words_from(all.skip(i as int), w@) == words_from(all, Seq::empty()),
        decreases cs@.len() - i,
    {
        let c = cs[i];
        assert(all.skip(i as int).drop_first() == all.skip(i + 1));
        assert(all.skip(i as int)[0] == c);
        if text::char_is_alphanumeric(c) {
            text::push_char(&mut w, c);
        } else if text::char_count(w.as_str()) > 0 {
            let ghost before = views(out@);
            let ghost wv = w@;
            out.push(w);
            w = String::new();
            proof {
                assert(views(out@) == before.push(wv));
                assert(before + (seq![wv] + words_from(all.skip(i + 1), Seq::empty())) == before.push(wv)
                    + words_from(all.skip(i + 1), Seq::empty()));
                assert(w@ == Seq::<char>::empty());
            }
        }
        i += 1;
    }
    if text::char_count(w.as_str()) > 0 {
        let ghost before = views(out@);
        let ghost wv = w@;
        out.push(w);
        assert(views(out@) == before.push(wv));
    }
    assert(views(out@) == words_from(all, Seq::empty()));
    let ghost words = views(out@);
    let mut k: usize = 0;
    assert(all.skip(0) == all);
    if cs.len() >= 2 {
        while k < cs.len() - 1
            invariant
                0 <= k < cs@.len(),
                cs@ == all,
                all.len() >= 2,
                views(out@) + cjk_pairs(all.skip(k as int)) == words + cjk_pairs(all),
            decreases cs@.len() - k,
        {
            assert(all.skip(k as int).drop_first() == all.skip(k + 1));
            assert(all.skip(k as int)[0] == cs[k as int] && all.skip(k as int)[1] == cs[k + 1]);
            if cjk(cs[k]) && cjk(cs[k + 1]) {
                let mut pair = String::new();
                text::push_char(&mut pair, cs[k]);
                text::push_char(&mut pair, cs[k + 1]);
                let ghost before = views(out@);
                let ghost pv = pair@;
                out.push(pair);
                proof {
                    assert(pv == seq![all[k as int], all[k + 1]]);
                    assert(views(out@) == before.push(pv));
                    assert(before + (seq![pv] + cjk_pairs(all.skip(k + 1))) == before.push(pv)
                        + cjk_pairs(all.skip(k + 1)));
                }
            }
            k += 1;
        }
        assert(all.skip(k as int).len() == 1);
    } else {
        assert(cjk_pairs(all) == Seq::<Seq<char>>::empty());
    }
    out
}

// ---------------------------------------------------------------- lexical score

/// How often `x` occurs in `h`.
pub open spec fn count_in(h: Seq<Seq<char>>, x: Seq<char>) -> nat
    decreases h.len(),
{
    if h.len() == 0 {
        0
    } else {
        count_in(h.drop_last(), x) + if h.last() == x {
            1nat
        } else {
            0nat
        }
    }
}

/// The lexical score of tokens `h` for query tokens `q`: for every query
/// token, how often it occurs.
pub open spec fn lex_total(q: Seq<Seq<char>>, h: Seq<Seq<char>>) -> nat
    decreases q.len(),
{
    if q.len() == 0 {
        0
    } else {
        count_in(h, q[0]) + lex_total(q.drop_first(), h)
    }
}

/// The lexical score of a text for query tokens `q`.
pub open spec fn spec_lex(q: Seq<Seq<char>>, s: Seq<char>) -> nat {
    lex_total(q, spec_tokens(s))
}

/// A score capped at the largest `u64`.
pub open spec fn capped(n: nat) -> u64 {
    if n <= u64::MAX {
        n as u64
    } else {
        u64::MAX
    }
}

/// The lexical score of `s` for query tokens `q`, capped at `u64::MAX`.
pub fn lex(q: &Vec<String>, s: &str) -> (r: u64)
    ensures
        r == capped(spec_lex(views(q@), s@)),
{
    let h = tokens(s);
    let ghost hv = views(h@);
    let ghost qv = views(q@);
    let mut total: u64 = 0;
    let mut a: usize = q.len();
    assert(qv.skip(q@.len() as int) == Seq::<Seq<char>>::empty());
    while a > 0
        invariant
            0 <= a <= q@.len(),
            qv == views(q@),
            hv == views(h@),
            total == capped(lex_total(qv.skip(a as int), hv)),
        decreases a,
    {
        a -= 1;
        let mut c: u64 = 0;
        let mut j: usize = 0;
        while j < h.len()
            invariant
                0 <= j <= h@.len(),
                a < q@.len(),
                qv == views(q@),
                hv == views(h@),
                c == capped(count_in(hv.take(j as int), qv[a as int])),
            decreases h@.len() - j,
        {
            assert(hv.take(j + 1).drop_last() == hv.take(j as int));
            if text::str_eq(h[j].as_str(), q[a].as_str()) {
                if c < u64::MAX {
                    c = c + 1;
                }
            }
            j += 1;
        }
        assert(hv.take(h@.len() as int) == hv);
        assert(qv.skip(a as int).drop_first() == qv.skip(a + 1));
        total = if total > u64::MAX - c {
            u64::MAX
        } else {
            total + c
        };
    }
    assert(qv.skip(0) == qv);
    total
}

// ---------------------------------------------------------------- requests

/// The profile of a query vector: what a stored embedding must match, and
/// how many values the query carries. The values themselves stay with the
/// caller, which orders embeddings by similarity.
#[derive(Debug)]
pub struct VectorProfile {
    pub model: String,
    pub dim: usize,
    pub len: usize,
}

#[derive(Debug)]
pub struct SearchRequest {
    pub project_id: String,
    pub query: String,
    pub stage: Option<crate::model::Stage>,
    pub known_seq: Option<i64>,
    pub known_at: Option<String>,
    pub effective_at: Option<String>,
    pub roles: Vec<String>,
    pub tags: Vec<String>,
    pub lanes: Vec<String>,
    pub limit: Option<usize>,
    pub vector: Option<VectorProfile>,
}

// ---------------------------------------------------------------- what is searched

/// The revision data stored under `id`.
pub open spec fn revision_at(rs: Seq<StoredRecord>, id: Seq<char>) -> Option<RevisionData> {
    match graph::first_with_id(rs, id) {
        Some(x) => match x.data {
            RecordData::Revision(d) => Some(d),
            _ => None,
        },
        None => None,
    }
}

/// The title a revision's owner shows: the project's or entity's title, or
/// the owner id when there is no such owner.
pub open spec fn owner_title(rs: Seq<StoredRecord>, entity: Seq<char>) -> Seq<char> {
    match graph::first_with_id(rs, entity) {
        Some(x) => match x.data {
            RecordData::Project(p) => p.title@,
            RecordData::Entity(e) => e.title@,
            _ => entity,
        },
        None => entity,
    }
}

/// The id a revision's owner shows: the project's or entity's id, or the
/// owner id named by the revision when there is no such owner.
pub open spec fn owner_id(rs: Seq<StoredRecord>, entity: Seq<char>) -> Seq<char> {
    match graph::first_with_id(rs, entity) {
        Some(x) => match x.data {
            RecordData::Project(_) => x.id@,
            RecordData::Entity(_) => x.id@,
            _ => entity,
        },
        None => entity,
    }
}

/// Texts joined with a separator.
pub open spec fn joined(xs: Seq<Seq<char>>, sep: Seq<char>) -> Seq<char>
    decreases xs.len(),
{
    if xs.len() == 0 {
        Seq::empty()
    } else if xs.len() == 1 {
        xs[0]
    } else {
        joined(xs.drop_last(), sep) + sep + xs.last()
    }
}

/// The text a revision is searched by: owner title, body and tags.
pub open spec fn haystack(rs: Seq<StoredRecord>, d: RevisionData) -> Seq<char> {
    owner_title(rs, d.entity_id@) + " "@ + d.body@ + " "@ + joined(views(d.tags@), " "@)
}

/// The last embedding record of revision `rev`.
pub open spec fn last_embedding(rs: Seq<StoredRecord>, rev: Seq<char>) -> Option<StoredRecord>
    decreases rs.len(),
{
    if rs.len() == 0 {
        None
    } else if rs.last().data matches RecordData::Embedding(e) && e.revision_id@ == rev {
        Some(rs.last())
    } else {
        last_embedding(rs.drop_last(), rev)
    }
}

/// The similarity order the caller gave an embedding record: smaller is more
/// similar, equal means equally similar.
pub open spec fn sim_of(sims: Seq<(String, u64)>, id: Seq<char>) -> Option<u64>
    decreases sims.len(),
{
    if sims.len() == 0 {
        None
    } else if sims[0].0@ == id {
        Some(sims[0].1)
    } else {
        sim_of(sims.drop_first(), id)
    }
}

/// The embedding a revision is compared by, when its model and dimension
/// match the query vector.
pub open spec fn matching_embedding(rs: Seq<StoredRecord>, vq: Option<VectorProfile>, rev: Seq<char>) -> Option<
    StoredRecord,
> {
    match vq {
        None => None,
        Some(vp) => match last_embedding(rs, rev) {
            Some(x) => match x.data {
                RecordData::Embedding(e) => if e.model@ == vp.model@ && e.dim == vp.dim {
                    Some(x)
                } else {
                    None
                },
                _ => None,
            },
            None => None,
        },
    }
}

/// The similarity order of a revision, when it has one.
pub open spec fn vector_key(rs: Seq<StoredRecord>, vq: Option<VectorProfile>, sims: Seq<(String, u64)>, rev: Seq<char>) -> Option<u64> {
    match matching_embedding(rs, vq, rev) {
        Some(x) => sim_of(sims, x.id@),
        None => None,
    }
}

/// The use sites of a revision.
pub open spec fn uses_of(occs: Seq<Occurrence>, rev: Seq<char>) -> Seq<Occurrence> {
    occs.filter(|o: Occurrence| o.revision_id@ == rev)
}

/// Some role of `have` is one of `want`.
pub open spec fn shares_role(have: Seq<Seq<char>>, want: Seq<Seq<char>>) -> bool {
    exists|k: int| 0 <= k < have.len() && want.contains(#[trigger] have[k])
}

/// Some use site of `rev` carries one of the wanted roles.
pub open spec fn role_hit(occs: Seq<Occurrence>, rev: Seq<char>, want: Seq<Seq<char>>) -> bool {
    exists|i: int|
        0 <= i < occs.len() && (#[trigger] occs[i]).revision_id@ == rev && shares_role(views(occs[i].roles@), want)
}

/// The revision carries every wanted tag.
pub open spec fn tags_ok(d: RevisionData, want: Seq<Seq<char>>) -> bool {
    forall|t: int| 0 <= t < want.len() ==> views(d.tags@).contains(#[trigger] want[t])
}

/// The lexical score of a revision.
pub open spec fn lexical_of(rs: Seq<StoredRecord>, words: Seq<Seq<char>>, d: RevisionData) -> u64 {
    capped(spec_lex(words, haystack(rs, d)))
}

/// A revision of the walk is a search candidate: it has every wanted tag,
/// a use site with a wanted role when roles are asked for, and a lexical
/// match or a vector similarity (or the query asks for neither).
pub open spec fn admitted(v: &KnownView, req: &SearchRequest, w: &Walk, words: Seq<Seq<char>>, sims: Seq<(String, u64)>, rev: Seq<char>) -> bool {
    match revision_at(v.records@, rev) {
        None => false,
        Some(d) => {
            &&& tags_ok(d, views(req.tags@))
            &&& (req.roles@.len() == 0 || role_hit(w.occurrences@, rev, views(req.roles@)))
            &&& (lexical_of(v.records@, words, d) > 0 || vector_key(v.records@, req.vector, sims, rev) is Some
                || (words.len() == 0 && req.vector is None))
        },
    }
}

/// The admitted revisions among `revs`, in order.
pub open spec fn admitted_in(v: &KnownView, req: &SearchRequest, w: &Walk, words: Seq<Seq<char>>, sims: Seq<(String, u64)>, revs: Seq<Seq<char>>) -> Seq<Seq<char>> {
    revs.filter(|rev: Seq<char>| admitted(v, req, w, words, sims, rev))
}

/// A candidate: revision id, lexical score, similarity order.
pub type CandV = (Seq<char>, u64, Option<u64>);

pub open spec fn cand_of(v: &KnownView, req: &SearchRequest, words: Seq<Seq<char>>, sims: Seq<(String, u64)>, rev: Seq<char>) -> CandV {
    (rev, lexical_of(v.records@, words, revision_at(v.records@, rev).unwrap()), vector_key(v.records@, req.vector, sims, rev))
}

/// The search candidates, in walk order.
pub open spec fn candidates(v: &KnownView, req: &SearchRequest, w: &Walk, words: Seq<Seq<char>>, sims: Seq<(String, u64)>) -> Seq<CandV> {
    admitted_in(v, req, w, words, sims, views(w.revisions@)).map_values(
        |rev: Seq<char>| cand_of(v, req, words, sims, rev),
    )
}

proof fn lemma_admitted_step(v: &KnownView, req: &SearchRequest, w: &Walk, words: Seq<Seq<char>>, sims: Seq<(String, u64)>, revs: Seq<Seq<char>>, j: int)
    requires
        0 <= j < revs.len(),
    ensures
        admitted_in(v, req, w, words, sims, revs.take(j + 1)) == if admitted(v, req, w, words, sims, revs[j]) {
            admitted_in(v, req, w, words, sims, revs.take(j)).push(revs[j])
        } else {
            admitted_in(v, req, w, words, sims, revs.take(j))
        },
{
    reveal(Seq::filter);
    assert(revs.take(j + 1).drop_last() =~= revs.take(j));
    assert(revs.take(j + 1).last() == revs[j]);
}

proof fn lemma_admitted_facts(v: &KnownView, req: &SearchRequest, w: &Walk, words: Seq<Seq<char>>, sims: Seq<(String, u64)>, revs: Seq<Seq<char>>)
    ensures
        admitted_in(v, req, w, words, sims, revs).len() <= revs.len(),
        forall|i: int|
            0 <= i < admitted_in(v, req, w, words, sims, revs).len() ==> admitted(
                v,
                req,
                w,
                words,
                sims,
                #[trigger] admitted_in(v, req, w, words, sims, revs)[i],
            ),
    decreases revs.len(),
{
    reveal(Seq::filter);
    if revs.len() > 0 {
        lemma_admitted_facts(v, req, w, words, sims, revs.drop_last());
        let d = admitted_in(v, req, w, words, sims, revs.drop_last());
        if admitted(v, req, w, words, sims, revs.last()) {
            assert(admitted_in(v, req, w, words, sims, revs) == d.push(revs.last()));
            assert forall|i: int| 0 <= i < d.len() + 1 implies admitted(
                v,
                req,
                w,
                words,
                sims,
                #[trigger] admitted_in(v, req, w, words, sims, revs)[i],
            ) by {
                if i < d.len() {
                    assert(admitted_in(v, req, w, words, sims, revs)[i] == d[i]);
                }
            }
        } else {
            assert(admitted_in(v, req, w, words, sims, revs) == d);
        }
    }
}

proof fn lemma_filter_no_dup<A>(s: Seq<A>, f: spec_fn(A) -> bool)
    requires
        s.no_duplicates(),
    ensures
        s.filter(f).no_duplicates(),
    decreases s.len(),
{
    reveal(Seq::filter);
    if s.len() > 0 {
        let d = s.drop_last();
        assert(d.no_duplicates()) by {
            assert forall|i: int, j: int| 0 <= i < j < d.len() implies d[i] != d[j] by {
                assert(d[i] == s[i] && d[j] == s[j]);
            }
        }
        lemma_filter_no_dup(d, f);
        if f(s.last()) {
            let fd = d.filter(f);
            assert forall|i: int| 0 <= i < fd.len() implies fd[i] != s.last() by {
                if fd[i] == s.last() {
                    d.lemma_filter_contains_rev(f, s.last());
                    let k = choose|k: int| 0 <= k < d.len() && d[k] == s.last();
                    assert(s[k] == s[s.len() - 1]);
                }
            }
            let g = fd.push(s.last());
            assert(s.filter(f) == g);
            assert forall|i: int, j: int| 0 <= i < j < g.len() implies g[i] != g[j] by {
                if j == g.len() - 1 {
                    assert(g[j] == s.last());
                    assert(g[i] == fd[i]);
                } else {
                    assert(g[i] == fd[i] && g[j] == fd[j]);
                }
            }
        } else {
            assert(s.filter(f) == d.filter(f));
        }
    }
}

// ---------------------------------------------------------------- ranks

/// Candidate `j` comes before candidate `i` in the lexical order: higher
/// score first, then lower id.
pub open spec fn lex_before(cs: Seq<CandV>, j: int, i: int) -> bool {
    cs[j].1 > 0 && (cs[j].1 > cs[i].1 || (cs[j].1 == cs[i].1 && json::seq_lt(cs[j].0, cs[i].0)))
}

/// Candidate `j` comes before candidate `i` in the vector order: more similar
/// first, then earlier in walk order.
pub open spec fn vec_before(cs: Seq<CandV>, j: int, i: int) -> bool {
    match (cs[j].2, cs[i].2) {
        (Some(a), Some(b)) => a < b || (a == b && j < i),
        _ => false,
    }
}

/// How many of the first `n` candidates come before candidate `i`.
pub open spec fn lex_count(cs: Seq<CandV>, i: int, n: int) -> nat
    decreases n,
{
    if n <= 0 {
        0
    } else {
        lex_count(cs, i, n - 1) + if lex_before(cs, n - 1, i) {
            1nat
        } else {
            0nat
        }
    }
}

pub open spec fn vec_count(cs: Seq<CandV>, i: int, n: int) -> nat
    decreases n,
{
    if n <= 0 {
        0
    } else {
        vec_count(cs, i, n - 1) + if vec_before(cs, n - 1, i) {
            1nat
        } else {
            0nat
        }
    }
}

/// The 1-based lexical rank of candidate `i`, when it matched lexically.
pub open spec fn lexical_rank(cs: Seq<CandV>, i: int) -> Option<nat> {
    if cs[i].1 > 0 {
        Some(1 + lex_count(cs, i, cs.len() as int))
    } else {
        None
    }
}

/// The 1-based vector rank of candidate `i`, when it has a similarity.
pub open spec fn vector_rank(cs: Seq<CandV>, i: int) -> Option<nat> {
    if cs[i].2 is Some {
        Some(1 + vec_count(cs, i, cs.len() as int))
    } else {
        None
    }
}

proof fn lemma_counts_bounded(cs: Seq<CandV>, i: int, n: int)
    ensures
        lex_count(cs, i, n) <= if n < 0 { 0 } else { n },
        vec_count(cs, i, n) <= if n < 0 { 0 } else { n },
    decreases n,
{
    if n > 0 {
        lemma_counts_bounded(cs, i, n - 1);
    }
}

/// A candidate never comes before itself, so a count over all candidates
/// stays below their number.
proof fn lemma_counts_below(cs: Seq<CandV>, i: int, n: int)
    requires
        0 <= i < n,
    ensures
        lex_count(cs, i, n) < n,
        vec_count(cs, i, n) < n,
    decreases n,
{
    json::lemma_seq_lt_irreflexive(cs[i].0);
    if n - 1 > i {
        lemma_counts_below(cs, i, n - 1);
    } else {
        lemma_counts_bounded(cs, i, n - 1);
    }
}

// ---------------------------------------------------------------- ordering

/// A sort key: the fraction `num / den`, larger first, then the id, then the
/// original position.
pub struct Key {
    pub num: u64,
    pub den: u64,
    pub id: String,
}

/// Item `i` comes before item `j`: a larger fraction, or an equal fraction
/// and a smaller id, or both equal and an earlier position.
pub open spec fn key_before(ks: Seq<Key>, i: int, j: int) -> bool {
    let (a, b) = (ks[i], ks[j]);
    ||| a.num * b.den > b.num * a.den
    ||| a.num * b.den == b.num * a.den && (json::seq_lt(a.id@, b.id@) || (a.id@ == b.id@ && i < j))
}

proof fn lemma_cross_trans(n1: int, d1: int, n2: int, d2: int, n3: int, d3: int)
    requires
        d1 > 0,
        d2 > 0,
        d3 > 0,
        n1 * d2 >= n2 * d1,
        n2 * d3 >= n3 * d2,
    ensures
        n1 * d3 >= n3 * d1,
        (n1 * d2 > n2 * d1 || n2 * d3 > n3 * d2) ==> n1 * d3 > n3 * d1,
{
    assert(n1 * d2 * d3 >= n2 * d1 * d3) by (nonlinear_arith)
        requires
            n1 * d2 >= n2 * d1,
            d3 > 0,
    ;
    assert(n2 * d3 * d1 >= n3 * d2 * d1) by (nonlinear_arith)
        requires
            n2 * d3 >= n3 * d2,
            d1 > 0,
    ;
    assert(n2 * d1 * d3 == n2 * d3 * d1) by (nonlinear_arith);
    assert(n1 * d2 * d3 == (n1 * d3) * d2) by (nonlinear_arith);
    assert(n3 * d2 * d1 == (n3 * d1) * d2) by (nonlinear_arith);
    assert(n1 * d3 >= n3 * d1) by (nonlinear_arith)
        requires
            (n1 * d3) * d2 >= (n3 * d1) * d2,
            d2 > 0,
    ;
    if n1 * d2 > n2 * d1 {
        assert(n1 * d2 * d3 > n2 * d1 * d3) by (nonlinear_arith)
            requires
                n1 * d2 > n2 * d1,
                d3 > 0,
        ;
        assert(n1 * d3 > n3 * d1) by (nonlinear_arith)
            requires
                (n1 * d3) * d2 > (n3 * d1) * d2,
                d2 > 0,
        ;
    }
    if n2 * d3 > n3 * d2 {
        assert(n2 * d3 * d1 > n3 * d2 * d1) by (nonlinear_arith)
            requires
                n2 * d3 > n3 * d2,
                d1 > 0,
        ;
        assert(n1 * d3 > n3 * d1) by (nonlinear_arith)
            requires
                (n1 * d3) * d2 > (n3 * d1) * d2,
                d2 > 0,
        ;
    }
}

proof fn lemma_key_trans(ks: Seq<Key>, i: int, j: int, k: int)
    requires
        0 <= i < ks.len(),
        0 <= j < ks.len(),
        0 <= k < ks.len(),
        ks[i].den > 0,
        ks[j].den > 0,
        ks[k].den > 0,
        key_before(ks, i, j),
        key_before(ks, j, k),
    ensures
        key_before(ks, i, k),
{
    let (a, b, c) = (ks[i], ks[j], ks[k]);
    lemma_cross_trans(a.num as int, a.den as int, b.num as int, b.den as int, c.num as int, c.den as int);
    if a.num * c.den == c.num * a.den {
        // Both steps tie on the fraction.
        if json::seq_lt(a.id@, b.id@) && json::seq_lt(b.id@, c.id@) {
            json::lemma_seq_lt_trans(a.id@, b.id@, c.id@);
        }
    }
}

proof fn lemma_key_total(ks: Seq<Key>, i: int, j: int)
    requires
        0 <= i < ks.len(),
        0 <= j < ks.len(),
        i != j,
    ensures
        key_before(ks, i, j) || key_before(ks, j, i),
        !(key_before(ks, i, j) && key_before(ks, j, i)),
{
    json::lemma_seq_lt_total(ks[i].id@, ks[j].id@);
}

/// Index `t` occurs in `o`.
pub open spec fn holds_index(o: Seq<usize>, t: int) -> bool {
    exists|a: int| 0 <= a < o.len() && o[a] == t
}

fn key_gt(ks: &Vec<Key>, i: usize, j: usize) -> (r: bool)
    requires
        i < ks@.len(),
        j < ks@.len(),
    ensures
        r == key_before(ks@, i as int, j as int),
{
    let a = &ks[i];
    let b = &ks[j];
    proof {
        let m = u64::MAX as int;
        assert(a.num as int * b.den as int <= m * m) by (nonlinear_arith)
            requires
                0 <= a.num <= m,
                0 <= b.den <= m,
        ;
        assert(b.num as int * a.den as int <= m * m) by (nonlinear_arith)
            requires
                0 <= b.num <= m,
                0 <= a.den <= m,
        ;
    }
    let l = (a.num as u128) * (b.den as u128);
    let r = (b.num as u128) * (a.den as u128);
    l > r || (l == r && (json::str_lt(a.id.as_str(), b.id.as_str()) || (text::str_eq(a.id.as_str(), b.id.as_str()) && i < j)))
}

/// The positions of `ks`, ordered by [`key_before`].
pub fn order_keys(ks: &Vec<Key>) -> (o: Vec<usize>)
    requires
        forall|i: int| 0 <= i < ks@.len() ==> (#[trigger] ks@[i]).den > 0,
    ensures
        o@.len() == ks@.len(),
        forall|a: int| 0 <= a < o@.len() ==> (#[trigger] o@[a]) < ks@.len(),
        forall|t: int| 0 <= t < ks@.len() ==> holds_index(o@, t),
        forall|a: int, b: int| 0 <= a < b < o@.len() ==> key_before(ks@, #[trigger] o@[a] as int, #[trigger] o@[b] as int),
{
    let mut o: Vec<usize> = Vec::new();
    let mut j: usize = 0;
    while j < ks.len()
        invariant
            0 <= j <= ks@.len(),
            forall|i: int| 0 <= i < ks@.len() ==> (#[trigger] ks@[i]).den > 0,
            o@.len() == j,
            forall|a: int| 0 <= a < o@.len() ==> (#[trigger] o@[a]) < j,
            forall|t: int| 0 <= t < j ==> holds_index(o@, t),
            forall|a: int, b: int| 0 <= a < b < o@.len() ==> key_before(ks@, #[trigger] o@[a] as int, #[trigger] o@[b] as int),
        decreases ks@.len() - j,
    {
        let mut p: usize = 0;
        while p < o.len() && !key_gt(ks, j, o[p])
            invariant
                0 <= p <= o@.len(),
                j < ks@.len(),
                o@.len() == j,
                forall|a: int| 0 <= a < o@.len() ==> (#[trigger] o@[a]) < j,
                forall|i: int| 0 <= i < ks@.len() ==> (#[trigger] ks@[i]).den > 0,
                forall|t: int| 0 <= t < j ==> holds_index(o@, t),
                forall|a: int, b: int| 0 <= a < b < o@.len() ==> key_before(ks@, #[trigger] o@[a] as int, #[trigger] o@[b] as int),
                forall|q: int| 0 <= q < p ==> key_before(ks@, #[trigger] o@[q] as int, j as int),
            decreases o@.len() - p,
        {
            proof {
                lemma_key_total(ks@, j as int, o@[p as int] as int);
            }
            p += 1;
        }
        proof {
            assert forall|q: int| p <= q < o@.len() implies key_before(ks@, j as int, #[trigger] o@[q] as int) by {
                if q > p {
                    lemma_key_trans(ks@, j as int, o@[p as int] as int, o@[q] as int);
                }
            }
        }
        let ghost old_o = o@;
        assert(forall|t: int| 0 <= t < j ==> holds_index(old_o, t));
        o.insert(p, j);
        proof {
            assert(o@ == old_o.insert(p as int, j));
            assert forall|t: int| 0 <= t < j + 1 implies holds_index(o@, t) by {
                if t == j {
                    assert(o@[p as int] == j);
                } else {
                    assert(holds_index(old_o, t));
                    let a = choose|a: int| 0 <= a < old_o.len() && old_o[a] == t;
                    if a < p {
                        assert(o@[a] == t);
                    } else {
                        assert(o@[a + 1] == t);
                    }
                }
            }
            assert forall|a: int, b: int| 0 <= a < b < o@.len() implies key_before(
                ks@,
                #[trigger] o@[a] as int,
                #[trigger] o@[b] as int,
            ) by {
                if a < p && b < p {
                    assert(o@[a] == old_o[a] && o@[b] == old_o[b]);
                } else if a < p && b == p {
                    assert(o@[a] == old_o[a]);
                } else if a < p {
                    assert(o@[a] == old_o[a] && o@[b] == old_o[b - 1]);
                } else if a == p {
                    assert(o@[b] == old_o[b - 1]);
                } else {
                    assert(o@[a] == old_o[a - 1] && o@[b] == old_o[b - 1]);
                }
            }
        }
        j += 1;
    }
    o
}

/// A candidate as collected.
struct Cand {
    id: String,
    lexical: u64,
    vkey: Option<u64>,
}

// ---------------------------------------------------------------- collecting

fn revision_in<'a>(rs: &'a Vec<StoredRecord>, id: &str) -> (r: Option<&'a RevisionData>)
    ensures
        match r {
            Some(d) => revision_at(rs@, id@) == Some(*d),
            None => revision_at(rs@, id@) is None,
        },
{
    match graph::find_record(rs, id) {
        Some(x) => x.as_revision(),
        None => None,
    }
}

fn title_for(rs: &Vec<StoredRecord>, entity: &str) -> (t: String)
    ensures
        t@ == owner_title(rs@, entity@),
{
    match graph::find_record(rs, entity) {
        Some(x) => match &x.data {
            RecordData::Project(p) => p.title.clone(),
            RecordData::Entity(e) => e.title.clone(),
            _ => text::owned(entity),
        },
        None => text::owned(entity),
    }
}

fn join_words(xs: &Vec<String>) -> (r: String)
    ensures
        r@ == joined(views(xs@), " "@),
{
    let ghost xv = views(xs@);
    let mut r = String::new();
    let mut i: usize = 0;
    while i < xs.len()
        invariant
            0 <= i <= xs@.len(),
            xv == views(xs@),
            r@ == joined(xv.take(i as int), " "@),
        decreases xs@.len() - i,
    {
        assert(xv.take(i + 1).drop_last() == xv.take(i as int));
        if i > 0 {
            text::push_str(&mut r, " ");
        }
        text::push_str(&mut r, xs[i].as_str());
        proof {
            if i == 0 {
                assert(xv.take(1).len() == 1);
            }
        }
        i += 1;
    }
    assert(xv.take(xs@.len() as int) == xv);
    r
}

fn haystack_of(rs: &Vec<StoredRecord>, d: &RevisionData) -> (h: String)
    ensures
        h@ == haystack(rs@, *d),
{
    let mut h = title_for(rs, d.entity_id.as_str());
    text::push_str(&mut h, " ");
    text::push_str(&mut h, d.body.as_str());
    text::push_str(&mut h, " ");
    let tags = join_words(&d.tags);
    text::push_str(&mut h, tags.as_str());
    h
}

fn last_embedding_in<'a>(rs: &'a Vec<StoredRecord>, rev: &str) -> (r: Option<&'a StoredRecord>)
    ensures
        match r {
            Some(x) => last_embedding(rs@, rev@) == Some(*x),
            None => last_embedding(rs@, rev@) is None,
        },
{
    let mut i: usize = rs.len();
    assert(rs@.take(rs@.len() as int) == rs@);
    while i > 0
        invariant
            0 <= i <= rs@.len(),
            last_embedding(rs@, rev@) == last_embedding(rs@.take(i as int), rev@),
        decreases i,
    {
        i -= 1;
        assert(rs@.take(i + 1).drop_last() == rs@.take(i as int));
        assert(rs@.take(i + 1).last() == rs@[i as int]);
        match rs[i].as_embedding() {
            Some(e) => {
                if text::str_eq(e.revision_id.as_str(), rev) {
                    return Some(&rs[i]);
                }
            },
            None => {},
        }
    }
    None
}

fn sim_in(sims: &Vec<(String, u64)>, id: &str) -> (r: Option<u64>)
    ensures
        r == sim_of(sims@, id@),
{
    let mut i: usize = 0;
    assert(sims@.skip(0) == sims@);
    while i < sims.len()
        invariant
            0 <= i <= sims@.len(),
            sim_of(sims@, id@) == sim_of(sims@.skip(i as int), id@),
        decreases sims@.len() - i,
    {
        assert(sims@.skip(i as int).drop_first() == sims@.skip(i + 1));
        if text::str_eq(sims[i].0.as_str(), id) {
            return Some(sims[i].1);
        }
        i += 1;
    }
    None
}

fn matching_in<'a>(rs: &'a Vec<StoredRecord>, vq: &Option<VectorProfile>, rev: &str) -> (r: Option<&'a StoredRecord>)
    ensures
        match r {
            Some(x) => matching_embedding(rs@, *vq, rev@) == Some(*x),
            None => matching_embedding(rs@, *vq, rev@) is None,
        },
{
    match vq {
        None => None,
        Some(vp) => match last_embedding_in(rs, rev) {
            Some(x) => match x.as_embedding() {
                Some(e) => if text::str_eq(e.model.as_str(), vp.model.as_str()) && e.dim == vp.dim {
                    Some(x)
                } else {
                    None
                },
                None => None,
            },
            None => None,
        },
    }
}

fn vector_key_of(rs: &Vec<StoredRecord>, vq: &Option<VectorProfile>, sims: &Vec<(String, u64)>, rev: &str) -> (r: Option<u64>)
    ensures
        r == vector_key(rs@, *vq, sims@, rev@),
{
    match matching_in(rs, vq, rev) {
        Some(x) => sim_in(sims, x.id.as_str()),
        None => None,
    }
}

fn shares(have: &Vec<String>, want: &Vec<String>) -> (r: bool)
    ensures
        r == shares_role(views(have@), views(want@)),
{
    let mut k: usize = 0;
    while k < have.len()
        invariant
            0 <= k <= have@.len(),
            forall|j: int| 0 <= j < k ==> !views(want@).contains(#[trigger] views(have@)[j]),
        decreases have@.len() - k,
    {
        if text::contains_str(want, have[k].as_str()) {
            proof {
                let i = choose|i: int| 0 <= i < want@.len() && (#[trigger] want@[i])@ == have@[k as int]@;
                assert(views(want@)[i] == views(have@)[k as int]);
            }
            return true;
        }
        proof {
            if views(want@).contains(views(have@)[k as int]) {
                let i = choose|i: int| 0 <= i < views(want@).len() && views(want@)[i] == views(have@)[k as int];
                assert(want@[i]@ == have@[k as int]@);
            }
        }
        k += 1;
    }
    false
}

fn has_role(occs: &Vec<Occurrence>, rev: &str, want: &Vec<String>) -> (r: bool)
    ensures
        r == role_hit(occs@, rev@, views(want@)),
{
    let mut i: usize = 0;
    while i < occs.len()
        invariant
            0 <= i <= occs@.len(),
            forall|k: int|
                0 <= k < i ==> !((#[trigger] occs@[k]).revision_id@ == rev@ && shares_role(
                    views(occs@[k].roles@),
                    views(want@),
                )),
        decreases occs@.len() - i,
    {
        if text::str_eq(occs[i].revision_id.as_str(), rev) && shares(&occs[i].roles, want) {
            return true;
        }
        i += 1;
    }
    false
}

fn has_tags(have: &Vec<String>, want: &Vec<String>) -> (r: bool)
    ensures
        r == (forall|t: int| 0 <= t < want@.len() ==> views(have@).contains(#[trigger] views(want@)[t])),
{
    let mut t: usize = 0;
    while t < want.len()
        invariant
            0 <= t <= want@.len(),
            forall|j: int| 0 <= j < t ==> views(have@).contains(#[trigger] views(want@)[j]),
        decreases want@.len() - t,
    {
        if !text::contains_str(have, want[t].as_str()) {
            proof {
                if views(have@).contains(views(want@)[t as int]) {
                    let i = choose|i: int| 0 <= i < views(have@).len() && views(have@)[i] == views(want@)[t as int];
                    assert(have@[i]@ == want@[t as int]@);
                }
            }
            return false;
        }
        proof {
            let i = choose|i: int| 0 <= i < have@.len() && (#[trigger] have@[i])@ == want@[t as int]@;
            assert(views(have@)[i] == views(want@)[t as int]);
        }
        t += 1;
    }
    true
}

/// The candidates of a walk, in walk order, with their lexical scores and
/// similarity orders.
fn collect(v: &KnownView, req: &SearchRequest, w: &Walk, words: &Vec<String>, sims: &Vec<(String, u64)>) -> (r: Vec<Cand>)
    requires
        views(w.revisions@).no_duplicates(),
    ensures
        cand_views(r@) == candidates(v, req, w, views(words@), sims@),
        forall|a: int, b: int| 0 <= a < b < r@.len() ==> (#[trigger] r@[a]).id@ != (#[trigger] r@[b]).id@,
{
    let ghost revs = views(w.revisions@);
    let ghost wv = views(words@);
    let mut out: Vec<Cand> = Vec::new();
    let mut j: usize = 0;
    while j < w.revisions.len()
        invariant
            0 <= j <= w.revisions@.len(),
            revs == views(w.revisions@),
            wv == views(words@),
            cand_views(out@).len() == admitted_in(v, req, w, wv, sims@, revs.take(j as int)).len(),
            forall|k: int|
                0 <= k < out@.len() ==> cand_views(out@)[k] == cand_of(
                    v,
                    req,
                    wv,
                    sims@,
                    #[trigger] admitted_in(v, req, w, wv, sims@, revs.take(j as int))[k],
                ),
        decreases w.revisions@.len() - j,
    {
        proof {
            lemma_admitted_step(v, req, w, wv, sims@, revs, j as int);
        }
        let rev = &w.revisions[j];
        assert(revs[j as int] == rev@);
        let ghost before = out@;
        match revision_in(&v.records, rev.as_str()) {
            None => {},
            Some(d) => {
                let tags = has_tags(&d.tags, &req.tags);
                let roles = req.roles.len() == 0 || has_role(&w.occurrences, rev.as_str(), &req.roles);
                if tags && roles {
                    let hay = haystack_of(&v.records, d);
                    let lx = lex(words, hay.as_str());
                    let vk = vector_key_of(&v.records, &req.vector, sims, rev.as_str());
                    if lx > 0 || vk.is_some() || (words.len() == 0 && req.vector.is_none()) {
                        out.push(Cand { id: rev.clone(), lexical: lx, vkey: vk });
                    }
                }
            },
        }
        proof {
            let adm = admitted_in(v, req, w, wv, sims@, revs.take(j + 1));
            assert(cand_views(out@).len() == adm.len());
            assert forall|k: int| 0 <= k < out@.len() implies cand_views(out@)[k] == cand_of(
                v,
                req,
                wv,
                sims@,
                #[trigger] adm[k],
            ) by {
                if k < before.len() {
                    assert(out@[k] == before[k]);
                    assert(adm[k] == admitted_in(v, req, w, wv, sims@, revs.take(j as int))[k]);
                }
            }
        }
        j += 1;
    }
    proof {
        assert(revs.take(revs.len() as int) == revs);
        let adm = admitted_in(v, req, w, wv, sims@, revs);
        assert(cand_views(out@) =~= candidates(v, req, w, wv, sims@));
        lemma_filter_no_dup(revs, |rev: Seq<char>| admitted(v, req, w, wv, sims@, rev));
        assert forall|a: int, b: int| 0 <= a < b < out@.len() implies (#[trigger] out@[a]).id@ != (#[trigger] out@[b]).id@ by {
            assert(cand_views(out@)[a].0 == adm[a] && cand_views(out@)[b].0 == adm[b]);
        }
    }
    out
}

spec fn cand_views(cs: Seq<Cand>) -> Seq<CandV> {
    cs.map_values(|c: Cand| (c.id@, c.lexical, c.vkey))
}

/// The lexical and vector ranks of every candidate.
fn ranks(cs: &Vec<Cand>) -> (r: Vec<(Option<usize>, Option<usize>)>)
    ensures
        r@.len() == cs@.len(),
        forall|i: int|
            0 <= i < r@.len() ==> {
                &&& (#[trigger] r@[i]).0 == match lexical_rank(cand_views(cs@), i) {
                    Some(k) => Some(k as usize),
                    None => None::<usize>,
                }
                &&& r@[i].1 == match vector_rank(cand_views(cs@), i) {
                    Some(k) => Some(k as usize),
                    None => None::<usize>,
                }
                &&& (r@[i].0 matches Some(k) ==> 1 <= k <= cs@.len())
                &&& (r@[i].1 matches Some(k) ==> 1 <= k <= cs@.len())
            },
{
    let ghost cv = cand_views(cs@);
    let mut out: Vec<(Option<usize>, Option<usize>)> = Vec::new();
    let mut i: usize = 0;
    while i < cs.len()
        invariant
            0 <= i <= cs@.len(),
            cv == cand_views(cs@),
            out@.len() == i,
            forall|k: int|
                0 <= k < i ==> {
                    &&& (#[trigger] out@[k]).0 == match lexical_rank(cv, k) {
                        Some(x) => Some(x as usize),
                        None => None::<usize>,
                    }
                    &&& out@[k].1 == match vector_rank(cv, k) {
                        Some(x) => Some(x as usize),
                        None => None::<usize>,
                    }
                    &&& (out@[k].0 matches Some(x) ==> 1 <= x <= cs@.len())
                    &&& (out@[k].1 matches Some(x) ==> 1 <= x <= cs@.len())
                },
        decreases cs@.len() - i,
    {
        let mut lc: usize = 0;
        let mut vc: usize = 0;
        let mut j: usize = 0;
        while j < cs.len()
            invariant
                0 <= j <= cs@.len(),
                i < cs@.len(),
                cv == cand_views(cs@),
                lc == lex_count(cv, i as int, j as int),
                vc == vec_count(cs@.map_values(|c: Cand| (c.id@, c.lexical, c.vkey)), i as int, j as int),
            decreases cs@.len() - j,
        {
            proof {
                lemma_counts_bounded(cv, i as int, j as int);
            }
            let a = &cs[j];
            let b = &cs[i];
            let lb = a.lexical > 0 && (a.lexical > b.lexical || (a.lexical == b.lexical && json::str_lt(
                a.id.as_str(),
                b.id.as_str(),
            )));
            if lb {
                lc = lc + 1;
            }
            let vb = match (a.vkey, b.vkey) {
                (Some(x), Some(y)) => x < y || (x == y && j < i),
                _ => false,
            };
            if vb {
                vc = vc + 1;
            }
            j += 1;
        }
        proof {
            lemma_counts_below(cv, i as int, cs@.len() as int);
            assert(cs@.map_values(|c: Cand| (c.id@, c.lexical, c.vkey)) == cv);
        }
        let lr = if cs[i].lexical > 0 {
            Some(lc + 1)
        } else {
            None
        };
        let vr = if cs[i].vkey.is_some() {
            Some(vc + 1)
        } else {
            None
        };
        out.push((lr, vr));
        i += 1;
    }
    out
}

// ---------------------------------------------------------------- hits

/// The fused score of a lexical and a vector rank, `1/(60+r)` summed over
/// the ranks present: its numerator and denominator.
pub open spec fn fused(lr: Option<nat>, vr: Option<nat>) -> (int, int) {
    match (lr, vr) {
        (None, None) => (0, 1),
        (Some(a), None) => (1, 60 + a as int),
        (None, Some(b)) => (1, 60 + b as int),
        (Some(a), Some(b)) => (120 + a as int + b as int, (60 + a as int) * (60 + b as int)),
    }
}

/// A fused score and an id: `x` ranks above `y` with a larger score, or an
/// equal score and a smaller id.
pub open spec fn fused_gt(x: (int, int, Seq<char>), y: (int, int, Seq<char>)) -> bool {
    x.0 * y.1 > y.0 * x.1 || (x.0 * y.1 == y.0 * x.1 && json::seq_lt(x.2, y.2))
}

/// The fused score is the sum of `1/(60 + r)` over the ranks present, as a
/// fraction with a positive denominator; so with lexical ranks alone a better
/// (smaller) rank always ranks above a worse one, whatever the ids.
pub proof fn law_fused_reciprocal_rank(a: nat, b: nat, x: Seq<char>, y: Seq<char>)
    ensures
        fused(Some(a), None).1 > 0 && fused(Some(a), None).0 * (60 + a) == fused(Some(a), None).1,
        fused(None, Some(b)).1 > 0 && fused(None, Some(b)).0 * (60 + b) == fused(None, Some(b)).1,
        fused(Some(a), Some(b)).1 > 0 && fused(Some(a), Some(b)).0 * ((60 + a) * (60 + b)) == fused(Some(a), Some(b)).1
            * ((60 + a) + (60 + b)),
        fused(None, None).0 == 0 && fused(None, None).1 > 0,
        a < b ==> fused_gt(
            (fused(Some(a), None).0, fused(Some(a), None).1, x),
            (fused(Some(b), None).0, fused(Some(b), None).1, y),
        ),
        a < b ==> fused_gt(
            (fused(None, Some(a)).0, fused(None, Some(a)).1, x),
            (fused(None, Some(b)).0, fused(None, Some(b)).1, y),
        ),
{
    assert((60 + a) * (60 + b) > 0) by (nonlinear_arith);
    assert(fused(Some(a), Some(b)).0 * ((60 + a) * (60 + b)) == fused(Some(a), Some(b)).1 * ((60 + a) + (60 + b)))
        by (nonlinear_arith)
        requires
            fused(Some(a), Some(b)).0 == 120 + a + b,
            fused(Some(a), Some(b)).1 == (60 + a) * (60 + b),
    ;
}

pub open spec fn cand_key(cs: Seq<CandV>, i: int) -> (int, int, Seq<char>) {
    let f = fused(lexical_rank(cs, i), vector_rank(cs, i));
    (f.0, f.1, cs[i].0)
}

pub open spec fn opt_nat(o: Option<usize>) -> Option<nat> {
    match o {
        Some(k) => Some(k as nat),
        None => None,
    }
}

/// One use site of a hit.
#[derive(Debug)]
pub struct HitUse {
    pub slot_path: Vec<String>,
    pub roles: Vec<String>,
}

/// A ranked search result.
#[derive(Debug)]
pub struct SearchHit {
    pub revision_id: String,
    pub entity_id: String,
    pub entity_kind: String,
    pub title: String,
    pub snippet: String,
    pub tags: Vec<String>,
    pub occurrences: Vec<HitUse>,
    pub lexical_rank: Option<usize>,
    pub vector_rank: Option<usize>,
    pub claim_mode: ClaimMode,
    pub origin: Origin,
}

pub open spec fn hit_key(h: SearchHit) -> (int, int, Seq<char>) {
    let f = fused(opt_nat(h.lexical_rank), opt_nat(h.vector_rank));
    (f.0, f.1, h.revision_id@)
}

/// The use sites of a hit are those of its revision in the walk, in order.
pub open spec fn uses_right(us: Seq<HitUse>, occs: Seq<Occurrence>) -> bool {
    &&& us.len() == occs.len()
    &&& forall|u: int|
        0 <= u < us.len() ==> views((#[trigger] us[u]).slot_path@) == views(occs[u].slot_path@) && views(
            us[u].roles@,
        ) == views(occs[u].roles@)
}

/// What a hit shows of its revision: owner, preview, tags, use sites and
/// provenance.
pub open spec fn hit_shows(v: &KnownView, w: &Walk, h: SearchHit) -> bool {
    match revision_at(v.records@, h.revision_id@) {
        Some(d) => {
            &&& query::owner_of(
                v.records@,
                d.entity_id@,
                query::Owner { entity_id: h.entity_id, entity_kind: h.entity_kind, title: h.title },
            )
            &&& h.snippet@ == query::shortened(d.body@, 400)
            &&& views(h.tags@) == views(d.tags@)
            &&& uses_right(h.occurrences@, uses_of(w.occurrences@, h.revision_id@))
            &&& h.claim_mode == d.source.claim_mode
            &&& h.origin == d.source.origin
        },
        None => false,
    }
}

/// A hit is candidate `i` with its ranks.
pub open spec fn hit_is(v: &KnownView, w: &Walk, cs: Seq<CandV>, h: SearchHit, i: int) -> bool {
    &&& 0 <= i < cs.len()
    &&& h.revision_id@ == cs[i].0
    &&& opt_nat(h.lexical_rank) == lexical_rank(cs, i)
    &&& opt_nat(h.vector_rank) == vector_rank(cs, i)
    &&& hit_shows(v, w, h)
}

pub open spec fn hit_from(v: &KnownView, w: &Walk, cs: Seq<CandV>, h: SearchHit) -> bool {
    exists|i: int| #[trigger] hit_is(v, w, cs, h, i)
}

/// The hits are the first `limit` candidates by fused score: each is a
/// candidate with its ranks, they come in strictly descending order, and
/// every candidate left out ranks below every hit.
pub open spec fn top_hits(v: &KnownView, w: &Walk, cs: Seq<CandV>, limit: nat, hits: Seq<SearchHit>) -> bool {
    &&& hits.len() == if limit < cs.len() { limit } else { cs.len() }
    &&& forall|k: int| 0 <= k < hits.len() ==> hit_from(v, w, cs, #[trigger] hits[k])
    &&& forall|k: int, l: int| 0 <= k < l < hits.len() ==> fused_gt(hit_key(#[trigger] hits[k]), hit_key(#[trigger] hits[l]))
    &&& forall|i: int| 0 <= i < cs.len() ==> (left_out(hits, cs, i) ==> #[trigger] below_all(hits, cs, i))
}

/// Candidate `i` is not among the hits.
pub open spec fn left_out(hits: Seq<SearchHit>, cs: Seq<CandV>, i: int) -> bool {
    forall|k: int| 0 <= k < hits.len() ==> (#[trigger] hits[k]).revision_id@ != cs[i].0
}

/// Every hit ranks above candidate `i`.
pub open spec fn below_all(hits: Seq<SearchHit>, cs: Seq<CandV>, i: int) -> bool {
    forall|k: int| 0 <= k < hits.len() ==> fused_gt(hit_key(#[trigger] hits[k]), cand_key(cs, i))
}

fn uses_for(occs: &Vec<Occurrence>, rev: &str) -> (r: Vec<HitUse>)
    ensures
        uses_right(r@, uses_of(occs@, rev@)),
{
    let mut out: Vec<HitUse> = Vec::new();
    let mut i: usize = 0;
    while i < occs.len()
        invariant
            0 <= i <= occs@.len(),
            uses_right(out@, uses_of(occs@.take(i as int), rev@)),
        decreases occs@.len() - i,
    {
        proof {
            reveal(Seq::filter);
            assert(occs@.take(i + 1).drop_last() == occs@.take(i as int));
            assert(occs@.take(i + 1).last() == occs@[i as int]);
        }
        let ghost before = out@;
        if text::str_eq(occs[i].revision_id.as_str(), rev) {
            out.push(HitUse { slot_path: copy_strings(&occs[i].slot_path), roles: copy_strings(&occs[i].roles) });
            proof {
                let u = uses_of(occs@.take(i + 1), rev@);
                assert(u == uses_of(occs@.take(i as int), rev@).push(occs@[i as int]));
                assert forall|x: int| 0 <= x < out@.len() implies views((#[trigger] out@[x]).slot_path@) == views(
                    u[x].slot_path@,
                ) && views(out@[x].roles@) == views(u[x].roles@) by {
                    if x < before.len() {
                        assert(out@[x] == before[x]);
                    }
                }
            }
        }
        i += 1;
    }
    assert(occs@.take(occs@.len() as int) == occs@);
    out
}

fn hit_for(v: &KnownView, w: &Walk, rev: &String, lr: Option<usize>, vr: Option<usize>) -> (h: Option<SearchHit>)
    ensures
        match h {
            Some(x) => x.revision_id@ == rev@ && x.lexical_rank == lr && x.vector_rank == vr && hit_shows(v, w, x),
            None => revision_at(v.records@, rev@) is None,
        },
{
    match graph::find_record(&v.records, rev.as_str()) {
        Some(x) => match &x.data {
            RecordData::Revision(d) => {
                let o = query::owner(&v.records, x);
                Some(
                    SearchHit {
                        revision_id: rev.clone(),
                        entity_id: o.entity_id,
                        entity_kind: o.entity_kind,
                        title: o.title,
                        snippet: query::short(d.body.as_str(), 400),
                        tags: copy_strings(&d.tags),
                        occurrences: uses_for(&w.occurrences, rev.as_str()),
                        lexical_rank: lr,
                        vector_rank: vr,
                        claim_mode: d.source.claim_mode,
                        origin: d.source.origin,
                    },
                )
            },
            _ => None,
        },
        None => None,
    }
}

/// The fused score of two ranks, as a fraction.
fn fused_of(lr: Option<usize>, vr: Option<usize>) -> (r: (u64, u64))
    requires
        lr matches Some(a) ==> a <= 0x7fff_ffff,
        vr matches Some(b) ==> b <= 0x7fff_ffff,
    ensures
        r.0 as int == fused(opt_nat(lr), opt_nat(vr)).0,
        r.1 as int == fused(opt_nat(lr), opt_nat(vr)).1,
        r.1 > 0,
{
    match (lr, vr) {
        (None, None) => (0, 1),
        (Some(a), None) => (1, 60 + a as u64),
        (None, Some(b)) => (1, 60 + b as u64),
        (Some(a), Some(b)) => {
            let x = 60 + a as u64;
            let y = 60 + b as u64;
            assert(x * y <= 0x8000_003c * 0x8000_003c) by (nonlinear_arith)
                requires
                    60 <= x <= 0x8000_003c,
                    60 <= y <= 0x8000_003c,
            ;
            assert(x * y > 0) by (nonlinear_arith)
                requires
                    60 <= x,
                    60 <= y,
            ;
            (120 + a as u64 + b as u64, x * y)
        },
    }
}

/// The first `limit` candidates by fused score, as hits.
pub fn rank_hits(v: &KnownView, req: &SearchRequest, w: &Walk, words: &Vec<String>, sims: &Vec<(String, u64)>, limit: usize) -> (r: Vec<SearchHit>)
    requires
        views(w.revisions@).no_duplicates(),
        w.revisions@.len() <= 0x7fff_ffff,
    ensures
        top_hits(v, w, candidates(v, req, w, views(words@), sims@), limit as nat, r@),
{
    let ghost cs = candidates(v, req, w, views(words@), sims@);
    let cands = collect(v, req, w, words, sims);
    assert(cand_views(cands@) == cs);
    proof {
        // Candidates are a filter of the walk's revisions.
        let adm = admitted_in(v, req, w, views(words@), sims@, views(w.revisions@));
        lemma_admitted_facts(v, req, w, views(words@), sims@, views(w.revisions@));
        assert(cs.len() == adm.len());
    }
    let rk = ranks(&cands);
    let mut keys: Vec<Key> = Vec::new();
    let mut i: usize = 0;
    while i < cands.len()
        invariant
            0 <= i <= cands@.len(),
            cand_views(cands@) == cs,
            cands@.len() <= 0x7fff_ffff,
            rk@.len() == cands@.len(),
            forall|x: int|
                0 <= x < rk@.len() ==> {
                    &&& (#[trigger] rk@[x]).0 == match lexical_rank(cs, x) {
                        Some(k) => Some(k as usize),
                        None => None::<usize>,
                    }
                    &&& rk@[x].1 == match vector_rank(cs, x) {
                        Some(k) => Some(k as usize),
                        None => None::<usize>,
                    }
                    &&& (rk@[x].0 matches Some(k) ==> 1 <= k <= cands@.len())
                    &&& (rk@[x].1 matches Some(k) ==> 1 <= k <= cands@.len())
                },
            keys@.len() == i,
            forall|x: int|
                0 <= x < i ==> {
                    &&& (#[trigger] keys@[x]).den > 0
                    &&& (keys@[x].num as int, keys@[x].den as int, keys@[x].id@) == cand_key(cs, x)
                },
        decreases cands@.len() - i,
    {
        proof {
            lemma_counts_below(cs, i as int, cs.len() as int);
            assert(opt_nat(rk@[i as int].0) == lexical_rank(cs, i as int));
            assert(opt_nat(rk@[i as int].1) == vector_rank(cs, i as int));
        }
        let (num, den) = fused_of(rk[i].0, rk[i].1);
        keys.push(Key { num, den, id: cands[i].id.clone() });
        i += 1;
    }
    let order = order_keys(&keys);
    let take = if limit < cands.len() {
        limit
    } else {
        cands.len()
    };
    let mut hits: Vec<SearchHit> = Vec::new();
    let mut k: usize = 0;
    while k < take
        invariant
            0 <= k <= take <= cands@.len(),
            take == if limit < cands@.len() { limit } else { cands@.len() as usize },
            cand_views(cands@) == cs,
            cands@.len() <= 0x7fff_ffff,
            cs == candidates(v, req, w, views(words@), sims@),
            rk@.len() == cands@.len(),
            keys@.len() == cands@.len(),
            order@.len() == cands@.len(),
            forall|a: int| 0 <= a < order@.len() ==> (#[trigger] order@[a]) < cands@.len(),
            forall|x: int|
                0 <= x < rk@.len() ==> {
                    &&& (#[trigger] rk@[x]).0 == match lexical_rank(cs, x) {
                        Some(k) => Some(k as usize),
                        None => None::<usize>,
                    }
                    &&& rk@[x].1 == match vector_rank(cs, x) {
                        Some(k) => Some(k as usize),
                        None => None::<usize>,
                    }
                },
            hits@.len() == k,
            forall|a: int| 0 <= a < k ==> hit_is(v, w, cs, #[trigger] hits@[a], order@[a] as int),
        decreases take - k,
    {
        let c = order[k];
        let ghost ci = c as int;
        proof {
            // Every candidate's revision is stored as a revision.
            let adm = admitted_in(v, req, w, views(words@), sims@, views(w.revisions@));
            lemma_admitted_facts(v, req, w, views(words@), sims@, views(w.revisions@));
            assert(cs.len() == adm.len());
            assert(cs[ci] == cand_of(v, req, views(words@), sims@, adm[ci]));
            assert(admitted(v, req, w, views(words@), sims@, adm[ci]));
            assert(cs[ci].0 == adm[ci]);
            assert(cands@[ci].id@ == cs[ci].0);
        }
        match hit_for(v, w, &cands[c].id, rk[c].0, rk[c].1) {
            Some(h) => {
                proof {
                    lemma_counts_below(cs, ci, cs.len() as int);
                    assert(opt_nat(rk@[ci].0) == lexical_rank(cs, ci));
                    assert(opt_nat(rk@[ci].1) == vector_rank(cs, ci));
                }
                hits.push(h);
            },
            None => {
                proof {
                    assert(false);
                }
            },
        }
        k += 1;
    }
    proof {
        assert forall|a: int| 0 <= a < hits@.len() implies hit_from(v, w, cs, #[trigger] hits@[a]) by {
            assert(hit_is(v, w, cs, hits@[a], order@[a] as int));
        }
        assert forall|a: int, b: int| 0 <= a < b < hits@.len() implies fused_gt(
            hit_key(#[trigger] hits@[a]),
            hit_key(#[trigger] hits@[b]),
        ) by {
            let (x, y) = (order@[a] as int, order@[b] as int);
            assert(hit_is(v, w, cs, hits@[a], x) && hit_is(v, w, cs, hits@[b], y));
            assert(key_before(keys@, x, y));
            assert(keys@[x].id@ != keys@[y].id@) by {
                assert(cands@[x].id@ == keys@[x].id@ && cands@[y].id@ == keys@[y].id@);
                if x == y {
                    // distinct positions of the order hold distinct indices
                    json::lemma_seq_lt_irreflexive(keys@[x].id@);
                }
            }
        }
        assert forall|ci: int| 0 <= ci < cs.len() && left_out(hits@, cs, ci) implies #[trigger] below_all(hits@, cs, ci) by {
            assert(holds_index(order@, ci));
            let p = choose|p: int| 0 <= p < order@.len() && order@[p] == ci;
            if p < hits@.len() {
                assert(hit_is(v, w, cs, hits@[p], ci));
                assert(hits@[p].revision_id@ == cs[ci].0);
            }
            assert forall|a: int| 0 <= a < hits@.len() implies fused_gt(hit_key(#[trigger] hits@[a]), cand_key(cs, ci)) by {
                let x = order@[a] as int;
                assert(hit_is(v, w, cs, hits@[a], x));
                assert(a < p);
                assert(key_before(keys@, x, ci));
                assert(cands@[x].id@ != cands@[ci].id@);
            }
        }
    }
    hits
}

// ---------------------------------------------------------------- related

/// A relation search follows from one id to another.
pub type EdgeV = (Seq<char>, Seq<char>, LinkType);

/// Link types that relate work across roles.
pub open spec fn follows(t: LinkType) -> bool {
    t == LinkType::Applies || t == LinkType::Implements || t == LinkType::Depends || t == LinkType::Derived
}

/// The relations a record contributes: a followed link, or an entity's
/// lineage to each entity it derives from.
pub open spec fn edges_of(r: StoredRecord) -> Seq<EdgeV> {
    match r.data {
        RecordData::Link(l) => if follows(l.link_type) {
            seq![(l.from_id@, l.to_id@, l.link_type)]
        } else {
            Seq::empty()
        },
        RecordData::Entity(e) => views(e.derived_from@).map_values(|s: Seq<char>| (r.id@, s, LinkType::Derived)),
        _ => Seq::empty(),
    }
}

/// Every relation of the records, in record order.
pub open spec fn relation_edges(rs: Seq<StoredRecord>) -> Seq<EdgeV>
    decreases rs.len(),
{
    if rs.len() == 0 {
        Seq::empty()
    } else {
        relation_edges(rs.drop_last()) + edges_of(rs.last())
    }
}

/// A walk revision owned by entity `ent`.
pub open spec fn owned_by(rs: Seq<StoredRecord>, rid: Seq<char>, ent: Seq<char>) -> bool {
    revision_at(rs, rid) matches Some(d) && d.entity_id@ == ent
}

/// The revisions among `revs` owned by entity `ent`.
pub open spec fn owned_in(rs: Seq<StoredRecord>, revs: Seq<Seq<char>>, ent: Seq<char>) -> Seq<Seq<char>> {
    revs.filter(|rid: Seq<char>| owned_by(rs, rid, ent))
}

proof fn lemma_owned_in_step(rs: Seq<StoredRecord>, revs: Seq<Seq<char>>, ent: Seq<char>, j: int)
    requires
        0 <= j < revs.len(),
    ensures
        owned_in(rs, revs.take(j + 1), ent) == if owned_by(rs, revs[j], ent) {
            owned_in(rs, revs.take(j), ent).push(revs[j])
        } else {
            owned_in(rs, revs.take(j), ent)
        },
{
    reveal(Seq::filter);
    assert(revs.take(j + 1).drop_last() =~= revs.take(j));
    assert(revs.take(j + 1).last() == revs[j]);
}

proof fn lemma_owned_in_owned(rs: Seq<StoredRecord>, revs: Seq<Seq<char>>, ent: Seq<char>)
    ensures
        forall|i: int| 0 <= i < owned_in(rs, revs, ent).len() ==> owned_by(rs, #[trigger] owned_in(rs, revs, ent)[i], ent),
    decreases revs.len(),
{
    reveal(Seq::filter);
    if revs.len() > 0 {
        lemma_owned_in_owned(rs, revs.drop_last(), ent);
        let d = owned_in(rs, revs.drop_last(), ent);
        assert forall|i: int| 0 <= i < owned_in(rs, revs, ent).len() implies owned_by(rs, #[trigger] owned_in(rs, revs, ent)[i], ent) by {
            if i < d.len() {
                assert(owned_in(rs, revs, ent)[i] == d[i]);
            }
        }
    }
}

proof fn lemma_first_with_id_id(rs: Seq<StoredRecord>, id: Seq<char>)
    ensures
        first_with_id_is(rs, id),
    decreases rs.len(),
{
    if rs.len() > 0 {
        lemma_first_with_id_id(rs.drop_first(), id);
    }
}

/// The record found under an id carries that id.
pub open spec fn first_with_id_is(rs: Seq<StoredRecord>, id: Seq<char>) -> bool {
    graph::first_with_id(rs, id) matches Some(x) ==> x.id@ == id
}

/// Every revision an end stands for is stored as a revision.
proof fn lemma_endpoints_stored(v: &KnownView, w: &Walk, e: Seq<char>)
    ensures
        forall|k: int| 0 <= k < endpoint_revisions(v, w, e).len() ==> (revision_at(v.records@, #[trigger] endpoint_revisions(v, w, e)[k]) is Some),
{
    lemma_first_with_id_id(v.records@, e);
    match graph::first_with_id(v.records@, e) {
        Some(x) => match x.data {
            RecordData::Entity(_) => {
                lemma_owned_in_owned(v.records@, views(w.revisions@), x.id@);
            },
            _ => {},
        },
        None => {},
    }
}

/// The revisions an end of a relation stands for: a revision itself, or the
/// walk's revisions of an entity.
pub open spec fn endpoint_revisions(v: &KnownView, w: &Walk, e: Seq<char>) -> Seq<Seq<char>> {
    match graph::first_with_id(v.records@, e) {
        Some(x) => match x.data {
            RecordData::Revision(_) => seq![x.id@],
            RecordData::Entity(_) => owned_in(v.records@, views(w.revisions@), x.id@),
            _ => Seq::empty(),
        },
        None => Seq::empty(),
    }
}

/// A revision matches the query lexically.
pub open spec fn lex_hit(v: &KnownView, words: Seq<Seq<char>>, rid: Seq<char>) -> bool {
    revision_at(v.records@, rid) matches Some(d) && lexical_of(v.records@, words, d) > 0
}

/// Some revision an end stands for matches the query.
pub open spec fn end_matches(v: &KnownView, w: &Walk, words: Seq<Seq<char>>, e: Seq<char>) -> bool {
    exists|k: int| 0 <= k < endpoint_revisions(v, w, e).len() && lex_hit(v, words, #[trigger] endpoint_revisions(v, w, e)[k])
}

/// An id is a hit's revision or entity.
pub open spec fn touches_hit(hits: Seq<SearchHit>, id: Seq<char>) -> bool {
    exists|k: int| 0 <= k < hits.len() && ((#[trigger] hits[k]).entity_id@ == id || hits[k].revision_id@ == id)
}

/// A relation is considered when one end matches the query or touches a hit.
pub open spec fn considered(v: &KnownView, w: &Walk, words: Seq<Seq<char>>, hits: Seq<SearchHit>, e: EdgeV) -> bool {
    end_matches(v, w, words, e.0) || end_matches(v, w, words, e.1) || touches_hit(hits, e.0) || touches_hit(hits, e.1)
}

pub open spec fn typed(ids: Seq<Seq<char>>, t: LinkType) -> Seq<(Seq<char>, LinkType)> {
    ids.map_values(|id: Seq<char>| (id, t))
}

/// The revisions of the considered relations, with the relation's type, in
/// relation order: the `from` end's, then the `to` end's.
pub open spec fn related_pairs(v: &KnownView, w: &Walk, words: Seq<Seq<char>>, hits: Seq<SearchHit>, es: Seq<EdgeV>) -> Seq<(Seq<char>, LinkType)>
    decreases es.len(),
{
    if es.len() == 0 {
        Seq::empty()
    } else {
        let e = es.last();
        related_pairs(v, w, words, hits, es.drop_last()) + if considered(v, w, words, hits, e) {
            typed(endpoint_revisions(v, w, e.0), e.2) + typed(endpoint_revisions(v, w, e.1), e.2)
        } else {
            Seq::empty()
        }
    }
}

/// Pair `k` is the first mention of a walk revision.
pub open spec fn first_mention(ps: Seq<(Seq<char>, LinkType)>, revs: Seq<Seq<char>>, k: int) -> bool {
    revs.contains(ps[k].0) && forall|j: int| 0 <= j < k ==> (#[trigger] ps[j]).0 != ps[k].0
}

/// The first mentions among the first `n` pairs whose revision has no use
/// site with a wanted role.
pub open spec fn related_upto(ps: Seq<(Seq<char>, LinkType)>, revs: Seq<Seq<char>>, occs: Seq<Occurrence>, want: Seq<Seq<char>>, n: int) -> Seq<(Seq<char>, LinkType)>
    decreases n,
{
    if n <= 0 {
        Seq::empty()
    } else {
        related_upto(ps, revs, occs, want, n - 1) + if first_mention(ps, revs, n - 1) && !role_hit(occs, ps[n - 1].0, want) {
            seq![ps[n - 1]]
        } else {
            Seq::empty()
        }
    }
}

/// Revisions related to the hits or the query through a relation, whose use
/// sites carry none of the wanted roles; none when no roles are asked for.
pub open spec fn related_of(v: &KnownView, req: &SearchRequest, w: &Walk, words: Seq<Seq<char>>, hits: Seq<SearchHit>) -> Seq<(Seq<char>, LinkType)> {
    if req.roles@.len() == 0 {
        Seq::empty()
    } else {
        let ps = related_pairs(v, w, words, hits, relation_edges(v.records@));
        related_upto(ps, views(w.revisions@), w.occurrences@, views(req.roles@), ps.len() as int)
    }
}

/// A related revision, shown with its owner and the roles of its first use.
#[derive(Debug)]
pub struct RelatedHit {
    pub revision_id: String,
    pub entity_id: String,
    pub title: String,
    pub roles: Vec<String>,
    pub link_type: LinkType,
}

/// What a related row shows of its revision.
pub open spec fn related_shows(v: &KnownView, w: &Walk, h: RelatedHit) -> bool {
    let uses = uses_of(w.occurrences@, h.revision_id@);
    &&& (revision_at(v.records@, h.revision_id@) matches Some(d) && h.entity_id@ == owner_id(v.records@, d.entity_id@)
        && h.title@ == owner_title(v.records@, d.entity_id@))
    &&& views(h.roles@) == if uses.len() > 0 {
        views(uses[0].roles@)
    } else {
        Seq::empty()
    }
}

fn edges_in(rs: &Vec<StoredRecord>) -> (r: Vec<(String, String, LinkType)>)
    ensures
        r@.map_values(|e: (String, String, LinkType)| (e.0@, e.1@, e.2)) == relation_edges(rs@),
{
    let mut out: Vec<(String, String, LinkType)> = Vec::new();
    let mut i: usize = 0;
    while i < rs.len()
        invariant
            0 <= i <= rs@.len(),
            out@.map_values(|e: (String, String, LinkType)| (e.0@, e.1@, e.2)) == relation_edges(rs@.take(i as int)),
        decreases rs@.len() - i,
    {
        assert(rs@.take(i + 1).drop_last() == rs@.take(i as int));
        assert(rs@.take(i + 1).last() == rs@[i as int]);
        let ghost before = out@;
        let r = &rs[i];
        match &r.data {
            RecordData::Link(l) => {
                if l.link_type == LinkType::Applies || l.link_type == LinkType::Implements || l.link_type
                    == LinkType::Depends || l.link_type == LinkType::Derived {
                    out.push((l.from_id.clone(), l.to_id.clone(), l.link_type));
                }
                proof {
                    assert(out@.map_values(|e: (String, String, LinkType)| (e.0@, e.1@, e.2)) =~= before.map_values(
                        |e: (String, String, LinkType)| (e.0@, e.1@, e.2),
                    ) + edges_of(rs@[i as int]));
                }
            },
            RecordData::Entity(e) => {
                let mut k: usize = 0;
                while k < e.derived_from.len()
                    invariant
                        0 <= k <= e.derived_from@.len(),
                        out@.len() == before.len() + k,
                        forall|a: int| 0 <= a < before.len() ==> out@[a] == before[a],
                        forall|a: int|
                            0 <= a < k ==> (#[trigger] out@[before.len() + a]).0@ == r.id@ && out@[before.len()
                                + a].1@ == e.derived_from@[a]@ && out@[before.len() + a].2 == LinkType::Derived,
                    decreases e.derived_from@.len() - k,
                {
                    out.push((r.id.clone(), e.derived_from[k].clone(), LinkType::Derived));
                    k += 1;
                }
                proof {
                    let m = out@.map_values(|e: (String, String, LinkType)| (e.0@, e.1@, e.2));
                    let mb = before.map_values(|e: (String, String, LinkType)| (e.0@, e.1@, e.2));
                    let ed = edges_of(rs@[i as int]);
                    assert(rs@[i as int].data == RecordData::Entity(*e));
                    assert(ed == views(e.derived_from@).map_values(|s: Seq<char>| (r.id@, s, LinkType::Derived)));
                    assert(m.len() == (mb + ed).len());
                    assert forall|a: int| 0 <= a < m.len() implies #[trigger] m[a] == (mb + ed)[a] by {
                        assert(m[a] == (out@[a].0@, out@[a].1@, out@[a].2));
                        if a >= before.len() {
                            let b = a - before.len();
                            assert(out@[before.len() + b].0@ == r.id@);
                            assert(out@[before.len() + b].1@ == e.derived_from@[b]@);
                            assert(ed[b] == (r.id@, e.derived_from@[b]@, LinkType::Derived));
                        } else {
                            assert(out@[a] == before[a]);
                            assert(mb[a] == (before[a].0@, before[a].1@, before[a].2));
                        }
                    }
                    assert(m =~= mb + ed);
                }
            },
            _ => {
                proof {
                    assert(out@.map_values(|e: (String, String, LinkType)| (e.0@, e.1@, e.2)) =~= before.map_values(
                        |e: (String, String, LinkType)| (e.0@, e.1@, e.2),
                    ) + edges_of(rs@[i as int]));
                }
            },
        }
        i += 1;
    }
    assert(rs@.take(rs@.len() as int) == rs@);
    out
}

fn owned(rs: &Vec<StoredRecord>, rid: &str, ent: &str) -> (r: bool)
    ensures
        r == owned_by(rs@, rid@, ent@),
{
    match revision_in(rs, rid) {
        Some(d) => text::str_eq(d.entity_id.as_str(), ent),
        None => false,
    }
}

fn endpoint_revs(v: &KnownView, w: &Walk, e: &str) -> (r: Vec<String>)
    ensures
        views(r@) == endpoint_revisions(v, w, e@),
{
    let mut out: Vec<String> = Vec::new();
    match graph::find_record(&v.records, e) {
        Some(x) => match &x.data {
            RecordData::Revision(_) => {
                out.push(x.id.clone());
                assert(views(out@) =~= seq![x.id@]);
            },
            RecordData::Entity(_) => {
                let ghost revs = views(w.revisions@);
                let mut j: usize = 0;
                while j < w.revisions.len()
                    invariant
                        0 <= j <= w.revisions@.len(),
                        revs == views(w.revisions@),
                        views(out@) == owned_in(v.records@, revs.take(j as int), x.id@),
                    decreases w.revisions@.len() - j,
                {
                    proof {
                        lemma_owned_in_step(v.records@, revs, x.id@, j as int);
                    }
                    if owned(&v.records, w.revisions[j].as_str(), x.id.as_str()) {
                        let ghost before = views(out@);
                        out.push(w.revisions[j].clone());
                        assert(views(out@) =~= before.push(revs[j as int]));
                    }
                    j += 1;
                }
                assert(revs.take(revs.len() as int) == revs);
            },
            _ => {
                assert(views(out@) =~= Seq::<Seq<char>>::empty());
            },
        },
        None => {
            assert(views(out@) =~= Seq::<Seq<char>>::empty());
        },
    }
    out
}

fn lex_hit_of(v: &KnownView, words: &Vec<String>, rid: &str) -> (r: bool)
    ensures
        r == lex_hit(v, views(words@), rid@),
{
    match revision_in(&v.records, rid) {
        Some(d) => {
            let hay = haystack_of(&v.records, d);
            lex(words, hay.as_str()) > 0
        },
        None => false,
    }
}

fn end_match(v: &KnownView, w: &Walk, words: &Vec<String>, e: &str) -> (r: bool)
    ensures
        r == end_matches(v, w, views(words@), e@),
{
    let revs = endpoint_revs(v, w, e);
    let mut k: usize = 0;
    while k < revs.len()
        invariant
            0 <= k <= revs@.len(),
            views(revs@) == endpoint_revisions(v, w, e@),
            forall|j: int| 0 <= j < k ==> !lex_hit(v, views(words@), #[trigger] endpoint_revisions(v, w, e@)[j]),
        decreases revs@.len() - k,
    {
        assert(views(revs@)[k as int] == revs@[k as int]@);
        if lex_hit_of(v, words, revs[k].as_str()) {
            return true;
        }
        k += 1;
    }
    false
}

fn touches(hits: &Vec<SearchHit>, id: &str) -> (r: bool)
    ensures
        r == touches_hit(hits@, id@),
{
    let mut k: usize = 0;
    while k < hits.len()
        invariant
            0 <= k <= hits@.len(),
            forall|j: int| 0 <= j < k ==> !((#[trigger] hits@[j]).entity_id@ == id@ || hits@[j].revision_id@ == id@),
        decreases hits@.len() - k,
    {
        if text::str_eq(hits[k].entity_id.as_str(), id) || text::str_eq(hits[k].revision_id.as_str(), id) {
            return true;
        }
        k += 1;
    }
    false
}

pub open spec fn pair_views(ps: Seq<(String, LinkType)>) -> Seq<(Seq<char>, LinkType)> {
    ps.map_values(|p: (String, LinkType)| (p.0@, p.1))
}

fn push_typed(out: &mut Vec<(String, LinkType)>, ids: &Vec<String>, t: LinkType)
    ensures
        pair_views(final(out)@) == pair_views(old(out)@) + typed(views(ids@), t),
{
    let ghost start = pair_views(out@);
    let mut k: usize = 0;
    while k < ids.len()
        invariant
            0 <= k <= ids@.len(),
            pair_views(out@) == start + typed(views(ids@).take(k as int), t),
        decreases ids@.len() - k,
    {
        let ghost before = pair_views(out@);
        out.push((ids[k].clone(), t));
        assert(pair_views(out@) =~= before.push((ids@[k as int]@, t)));
        assert(typed(views(ids@).take(k + 1), t) =~= typed(views(ids@).take(k as int), t).push((ids@[k as int]@, t)));
        k += 1;
    }
    assert(views(ids@).take(ids@.len() as int) == views(ids@));
}

fn pairs_of(v: &KnownView, w: &Walk, words: &Vec<String>, hits: &Vec<SearchHit>) -> (r: Vec<(String, LinkType)>)
    ensures
        pair_views(r@) == related_pairs(v, w, views(words@), hits@, relation_edges(v.records@)),
{
    let es = edges_in(&v.records);
    let ghost ev = es@.map_values(|e: (String, String, LinkType)| (e.0@, e.1@, e.2));
    let mut out: Vec<(String, LinkType)> = Vec::new();
    let mut i: usize = 0;
    while i < es.len()
        invariant
            0 <= i <= es@.len(),
            ev == es@.map_values(|e: (String, String, LinkType)| (e.0@, e.1@, e.2)),
            pair_views(out@) == related_pairs(v, w, views(words@), hits@, ev.take(i as int)),
        decreases es@.len() - i,
    {
        assert(ev.take(i + 1).drop_last() == ev.take(i as int));
        assert(ev.take(i + 1).last() == ev[i as int]);
        let e = &es[i];
        let c = end_match(v, w, words, e.0.as_str()) || end_match(v, w, words, e.1.as_str()) || touches(hits, e.0.as_str())
            || touches(hits, e.1.as_str());
        if c {
            let from = endpoint_revs(v, w, e.0.as_str());
            let to = endpoint_revs(v, w, e.1.as_str());
            let ghost before = pair_views(out@);
            push_typed(&mut out, &from, e.2);
            push_typed(&mut out, &to, e.2);
            assert(pair_views(out@) =~= before + (typed(views(from@), e.2) + typed(views(to@), e.2)));
        } else {
            assert(related_pairs(v, w, views(words@), hits@, ev.take(i + 1)) =~= related_pairs(v, w, views(words@), hits@, ev.take(i as int)));
        }
        i += 1;
    }
    assert(ev.take(es@.len() as int) == ev);
    out
}

proof fn lemma_pairs_stored(v: &KnownView, w: &Walk, words: Seq<Seq<char>>, hits: Seq<SearchHit>, es: Seq<EdgeV>)
    ensures
        forall|k: int|
            0 <= k < related_pairs(v, w, words, hits, es).len() ==> (revision_at(
                v.records@,
                (#[trigger] related_pairs(v, w, words, hits, es)[k]).0,
            ) is Some),
    decreases es.len(),
{
    if es.len() > 0 {
        lemma_pairs_stored(v, w, words, hits, es.drop_last());
        let e = es.last();
        let d = related_pairs(v, w, words, hits, es.drop_last());
        let p = related_pairs(v, w, words, hits, es);
        lemma_endpoints_stored(v, w, e.0);
        lemma_endpoints_stored(v, w, e.1);
        assert forall|k: int| 0 <= k < p.len() implies (revision_at(v.records@, (#[trigger] p[k]).0) is Some) by {
            if k < d.len() {
                assert(p[k] == d[k]);
            } else if considered(v, w, words, hits, e) {
                let a = typed(endpoint_revisions(v, w, e.0), e.2);
                let b = typed(endpoint_revisions(v, w, e.1), e.2);
                let m = k - d.len();
                assert(p[k] == (a + b)[m]);
                if m < a.len() {
                    assert(a[m].0 == endpoint_revisions(v, w, e.0)[m]);
                } else {
                    assert(b[m - a.len()].0 == endpoint_revisions(v, w, e.1)[m - a.len()]);
                }
            }
        }
    }
}

/// The related rows: one per revision of [`related_of`], in order.
pub open spec fn related_right(v: &KnownView, req: &SearchRequest, w: &Walk, words: Seq<Seq<char>>, hits: Seq<SearchHit>, rows: Seq<RelatedHit>) -> bool {
    let want = related_of(v, req, w, words, hits);
    &&& rows.len() == want.len()
    &&& forall|k: int|
        0 <= k < rows.len() ==> (#[trigger] rows[k]).revision_id@ == want[k].0 && rows[k].link_type == want[k].1
            && related_shows(v, w, rows[k])
}

fn related_row(v: &KnownView, w: &Walk, id: &String, t: LinkType) -> (h: RelatedHit)
    requires
        revision_at(v.records@, id@) is Some,
    ensures
        h.revision_id@ == id@,
        h.link_type == t,
        related_shows(v, w, h),
{
    let x = match graph::find_record(&v.records, id.as_str()) {
        Some(x) => x,
        None => {
            proof {
                assert(false);
            }
            return RelatedHit { revision_id: id.clone(), entity_id: String::new(), title: String::new(), roles: Vec::new(), link_type: t };
        },
    };
    let o = query::owner(&v.records, x);
    let us = uses_for(&w.occurrences, id.as_str());
    let roles = if us.len() > 0 {
        copy_strings(&us[0].roles)
    } else {
        Vec::new()
    };
    proof {
        if us@.len() == 0 {
            assert(views(roles@) =~= Seq::<Seq<char>>::empty());
        }
    }
    RelatedHit { revision_id: id.clone(), entity_id: o.entity_id, title: o.title, roles, link_type: t }
}

/// Revisions related to the hits or to the query through links and lineage
/// whose use sites carry none of the wanted roles.
pub fn related(v: &KnownView, req: &SearchRequest, w: &Walk, words: &Vec<String>, hits: &Vec<SearchHit>) -> (r: Vec<RelatedHit>)
    ensures
        related_right(v, req, w, views(words@), hits@, r@),
{
    let mut out: Vec<RelatedHit> = Vec::new();
    if req.roles.len() == 0 {
        return out;
    }
    let ps = pairs_of(v, w, words, hits);
    let ghost pv = pair_views(ps@);
    let ghost revs = views(w.revisions@);
    let ghost want = views(req.roles@);
    proof {
        lemma_pairs_stored(v, w, views(words@), hits@, relation_edges(v.records@));
    }
    let mut seen: Vec<String> = Vec::new();
    let mut k: usize = 0;
    while k < ps.len()
        invariant
            0 <= k <= ps@.len(),
            req.roles@.len() > 0,
            pv == pair_views(ps@),
            pv == related_pairs(v, w, views(words@), hits@, relation_edges(v.records@)),
            revs == views(w.revisions@),
            want == views(req.roles@),
            forall|j: int| 0 <= j < pv.len() ==> (revision_at(v.records@, (#[trigger] pv[j]).0) is Some),
            forall|x: Seq<char>|
                #![trigger views(seen@).contains(x)]
                views(seen@).contains(x) <==> (revs.contains(x) && exists|j: int| 0 <= j < k && (#[trigger] pv[j]).0 == x),
            out@.len() == related_upto(pv, revs, w.occurrences@, want, k as int).len(),
            forall|a: int|
                0 <= a < out@.len() ==> (#[trigger] out@[a]).revision_id@ == related_upto(pv, revs, w.occurrences@, want, k as int)[a].0
                    && out@[a].link_type == related_upto(pv, revs, w.occurrences@, want, k as int)[a].1 && related_shows(v, w, out@[a]),
        decreases ps@.len() - k,
    {
        let id = &ps[k].0;
        assert(pv[k as int] == (id@, ps@[k as int].1));
        let in_walk = text::contains_str(&w.revisions, id.as_str());
        let known = text::contains_str(&seen, id.as_str());
        proof {
            if in_walk {
                let i = choose|i: int| 0 <= i < w.revisions@.len() && (#[trigger] w.revisions@[i])@ == id@;
                assert(revs[i] == id@);
            }
            if revs.contains(id@) {
                let i = choose|i: int| 0 <= i < revs.len() && revs[i] == id@;
                assert(w.revisions@[i]@ == id@);
            }
            if known {
                let i = choose|i: int| 0 <= i < seen@.len() && (#[trigger] seen@[i])@ == id@;
                assert(views(seen@)[i] == id@);
            }
            if views(seen@).contains(id@) {
                let i = choose|i: int| 0 <= i < views(seen@).len() && views(seen@)[i] == id@;
                assert(seen@[i]@ == id@);
            }
        }
        let ghost old_seen = views(seen@);
        let ghost before = out@;
        let ghost fm = first_mention(pv, revs, k as int);
        assert(fm == (in_walk && !known)) by {
            if in_walk && !known {
                assert forall|j: int| 0 <= j < k implies (#[trigger] pv[j]).0 != pv[k as int].0 by {
                    if pv[j].0 == pv[k as int].0 {
                        assert(old_seen.contains(id@));
                    }
                }
            }
            if fm {
                if known {
                    assert(old_seen.contains(id@));
                    let j = choose|j: int| 0 <= j < k && (#[trigger] pv[j]).0 == id@;
                    assert(pv[j].0 != pv[k as int].0);
                }
            }
        }
        if in_walk && !known {
            seen.push(id.clone());
            proof {
                assert(views(seen@) == old_seen.push(id@));
                assert forall|x: Seq<char>| #![trigger views(seen@).contains(x)]
                    views(seen@).contains(x) <==> (revs.contains(x) && exists|j: int| 0 <= j < k + 1 && (#[trigger] pv[j]).0 == x) by {
                    if x == id@ {
                        assert(views(seen@)[views(seen@).len() - 1] == x);
                        assert(pv[k as int].0 == x);
                    } else {
                        if views(seen@).contains(x) {
                            let i = choose|i: int| 0 <= i < views(seen@).len() && views(seen@)[i] == x;
                            assert(old_seen[i] == x);
                        }
                        if old_seen.contains(x) {
                            let i = choose|i: int| 0 <= i < old_seen.len() && old_seen[i] == x;
                            assert(views(seen@)[i] == x);
                        }
                    }
                }
            }
            if !has_role(&w.occurrences, id.as_str(), &req.roles) {
                let row = related_row(v, w, id, ps[k].1);
                out.push(row);
            }
        } else {
            proof {
                assert forall|x: Seq<char>| #![trigger views(seen@).contains(x)]
                    views(seen@).contains(x) <==> (revs.contains(x) && exists|j: int| 0 <= j < k + 1 && (#[trigger] pv[j]).0 == x) by {
                    if revs.contains(x) && exists|j: int| 0 <= j < k + 1 && (#[trigger] pv[j]).0 == x {
                        if x == id@ {
                            assert(known);
                        } else {
                            let j = choose|j: int| 0 <= j < k + 1 && (#[trigger] pv[j]).0 == x;
                            assert(j < k);
                        }
                    }
                }
            }
        }
        proof {
            let ru = related_upto(pv, revs, w.occurrences@, want, k + 1);
            let rk = related_upto(pv, revs, w.occurrences@, want, k as int);
            assert(ru == rk + if first_mention(pv, revs, k as int) && !role_hit(w.occurrences@, pv[k as int].0, want) {
                seq![pv[k as int]]
            } else {
                Seq::empty()
            });
            assert forall|a: int| 0 <= a < out@.len() implies (#[trigger] out@[a]).revision_id@ == ru[a].0
                && out@[a].link_type == ru[a].1 && related_shows(v, w, out@[a]) by {
                if a < before.len() {
                    assert(out@[a] == before[a]);
                    assert(ru[a] == rk[a]);
                }
            }
        }
        k += 1;
    }
    out
}

// ---------------------------------------------------------------- candidate lane

/// The lexical score of a pending candidate: its title and body.
pub open spec fn lane_score(words: Seq<Seq<char>>, c: crate::model::CandidateData) -> u64 {
    capped(spec_lex(words, c.title@ + " "@ + c.body@))
}

/// A candidate record of the project that matches the query (or any, for
/// an empty query).
pub open spec fn in_lane(req: &SearchRequest, words: Seq<Seq<char>>, r: StoredRecord) -> bool {
    r.data matches RecordData::Candidate(c) && c.project_id@ == req.project_id@ && (words.len() == 0 || lane_score(words, c) > 0)
}

/// The lane's records, in record order.
pub open spec fn lane_in(req: &SearchRequest, words: Seq<Seq<char>>, rs: Seq<StoredRecord>) -> Seq<StoredRecord> {
    rs.filter(|r: StoredRecord| in_lane(req, words, r))
}

proof fn lemma_lane_step(req: &SearchRequest, words: Seq<Seq<char>>, rs: Seq<StoredRecord>, j: int)
    requires
        0 <= j < rs.len(),
    ensures
        lane_in(req, words, rs.take(j + 1)) == if in_lane(req, words, rs[j]) {
            lane_in(req, words, rs.take(j)).push(rs[j])
        } else {
            lane_in(req, words, rs.take(j))
        },
{
    reveal(Seq::filter);
    assert(rs.take(j + 1).drop_last() =~= rs.take(j));
    assert(rs.take(j + 1).last() == rs[j]);
}

/// A lane entry: a pending candidate with its rank and score.
#[derive(Debug)]
pub struct LaneHit {
    pub candidate_id: String,
    pub title: String,
    pub body_preview: String,
    pub origin: Origin,
    pub model: Option<String>,
    pub status: CandidateStatus,
    pub lexical_rank: usize,
    pub score: u64,
}

/// Lane entry `h` shows lane record `r`.
pub open spec fn lane_shows(words: Seq<Seq<char>>, h: LaneHit, r: StoredRecord) -> bool {
    match r.data {
        RecordData::Candidate(c) => {
            &&& h.candidate_id@ == r.id@
            &&& h.title@ == c.title@
            &&& h.body_preview@ == query::shortened(c.body@, 400)
            &&& h.origin == c.origin
            &&& crate::mutation::opt_view(h.model) == crate::mutation::opt_view(c.model)
            &&& h.status == c.status
            &&& h.score == lane_score(words, c)
        },
        _ => false,
    }
}

pub open spec fn lane_from(words: Seq<Seq<char>>, items: Seq<StoredRecord>, h: LaneHit) -> bool {
    exists|i: int| 0 <= i < items.len() && #[trigger] lane_shows(words, h, items[i])
}

/// `x` is not below `y`: a higher score, or an equal score and an id not
/// after it.
pub open spec fn lane_ge(x: (u64, Seq<char>), y: (u64, Seq<char>)) -> bool {
    x.0 > y.0 || (x.0 == y.0 && !json::seq_lt(y.1, x.1))
}

/// The lane: the first `limit` entries by score, then id (stable among
/// equal ones), ranked from 1.
pub open spec fn lane_right(words: Seq<Seq<char>>, items: Seq<StoredRecord>, limit: nat, out: Seq<LaneHit>) -> bool {
    &&& out.len() == if limit < items.len() { limit } else { items.len() }
    &&& forall|k: int| 0 <= k < out.len() ==> (#[trigger] out[k]).lexical_rank == k + 1 && lane_from(words, items, out[k])
    &&& forall|k: int, l: int| 0 <= k < l < out.len() ==> lane_ge(
        (#[trigger] out[k].score, out[k].candidate_id@),
        (#[trigger] out[l].score, out[l].candidate_id@),
    )
}

fn lane_score_of(words: &Vec<String>, c: &crate::model::CandidateData) -> (r: u64)
    ensures
        r == lane_score(views(words@), *c),
{
    let mut hay = c.title.clone();
    text::push_str(&mut hay, " ");
    text::push_str(&mut hay, c.body.as_str());
    lex(words, hay.as_str())
}

/// The candidate lane of a search.
pub fn lane(v: &KnownView, req: &SearchRequest, words: &Vec<String>, limit: usize) -> (r: Vec<LaneHit>)
    ensures
        lane_right(views(words@), lane_in(req, views(words@), v.records@), limit as nat, r@),
{
    let ghost wv = views(words@);
    let ghost rs = v.records@;
    let mut items: Vec<usize> = Vec::new();
    let mut keys: Vec<Key> = Vec::new();
    let mut j: usize = 0;
    while j < v.records.len()
        invariant
            0 <= j <= v.records@.len(),
            wv == views(words@),
            rs == v.records@,
            items@.len() == lane_in(req, wv, rs.take(j as int)).len(),
            keys@.len() == items@.len(),
            forall|a: int|
                0 <= a < items@.len() ==> (#[trigger] items@[a]) < j && rs[items@[a] as int] == lane_in(req, wv, rs.take(j as int))[a]
                    && keys@[a].den == 1 && keys@[a].id@ == rs[items@[a] as int].id@ && keys@[a].num == match rs[items@[a] as int].data {
                    RecordData::Candidate(c) => lane_score(wv, c),
                    _ => 0,
                },
        decreases v.records@.len() - j,
    {
        proof {
            lemma_lane_step(req, wv, rs, j as int);
        }
        let ghost bi = items@;
        let ghost bk = keys@;
        let r = &v.records[j];
        match &r.data {
            RecordData::Candidate(c) => {
                if text::str_eq(c.project_id.as_str(), req.project_id.as_str()) {
                    let score = lane_score_of(words, c);
                    if words.len() == 0 || score > 0 {
                        items.push(j);
                        keys.push(Key { num: score, den: 1, id: r.id.clone() });
                    }
                }
            },
            _ => {},
        }
        proof {
            let ln = lane_in(req, wv, rs.take(j + 1));
            assert forall|a: int| 0 <= a < items@.len() implies (#[trigger] items@[a]) < j + 1 && rs[items@[a] as int] == ln[a]
                && keys@[a].den == 1 && keys@[a].id@ == rs[items@[a] as int].id@ && keys@[a].num == match rs[items@[a] as int].data {
                    RecordData::Candidate(c) => lane_score(wv, c),
                    _ => 0,
                } by {
                if a < bi.len() {
                    assert(items@[a] == bi[a] && keys@[a] == bk[a]);
                    assert(ln[a] == lane_in(req, wv, rs.take(j as int))[a]);
                }
            }
        }
        j += 1;
    }
    assert(rs.take(rs.len() as int) == rs);
    let ghost li = lane_in(req, wv, rs);
    assert forall|i: int| 0 <= i < keys@.len() implies (#[trigger] keys@[i]).den > 0 by {
        assert(items@[i] < j);
    }
    let order = order_keys(&keys);
    let take = if limit < items.len() {
        limit
    } else {
        items.len()
    };
    let mut out: Vec<LaneHit> = Vec::new();
    let mut k: usize = 0;
    while k < take
        invariant
            0 <= k <= take <= items@.len(),
            take == if limit < items@.len() { limit } else { items@.len() as usize },
            wv == views(words@),
            rs == v.records@,
            li == lane_in(req, wv, rs),
            items@.len() == li.len(),
            keys@.len() == items@.len(),
            order@.len() == keys@.len(),
            forall|a: int| 0 <= a < order@.len() ==> (#[trigger] order@[a]) < keys@.len(),
            forall|a: int|
                0 <= a < items@.len() ==> (#[trigger] items@[a]) < rs.len() && rs[items@[a] as int] == li[a] && keys@[a].den == 1
                    && keys@[a].id@ == rs[items@[a] as int].id@ && keys@[a].num == match rs[items@[a] as int].data {
                    RecordData::Candidate(c) => lane_score(wv, c),
                    _ => 0,
                },
            out@.len() == k,
            forall|a: int|
                0 <= a < k ==> (#[trigger] out@[a]).lexical_rank == a + 1 && lane_shows(wv, out@[a], li[order@[a] as int])
                    && out@[a].score == keys@[order@[a] as int].num && out@[a].candidate_id@ == keys@[order@[a] as int].id@,
        decreases take - k,
    {
        let x = order[k];
        let r = &v.records[items[x]];
        match &r.data {
            RecordData::Candidate(c) => {
                out.push(
                    LaneHit {
                        candidate_id: r.id.clone(),
                        title: c.title.clone(),
                        body_preview: query::short(c.body.as_str(), 400),
                        origin: c.origin,
                        model: c.model.clone(),
                        status: c.status,
                        lexical_rank: k + 1,
                        score: keys[x].num,
                    },
                );
            },
            _ => {
                proof {
                    lemma_lane_members(req, wv, rs);
                    assert(in_lane(req, wv, li[x as int]));
                }
            },
        }
        k += 1;
    }
    proof {
        assert forall|a: int| 0 <= a < out@.len() implies (#[trigger] out@[a]).lexical_rank == a + 1 && lane_from(wv, li, out@[a]) by {
            assert(lane_shows(wv, out@[a], li[order@[a] as int]));
        }
        assert forall|a: int, b: int| 0 <= a < b < out@.len() implies lane_ge(
            (#[trigger] out@[a].score, out@[a].candidate_id@),
            (#[trigger] out@[b].score, out@[b].candidate_id@),
        ) by {
            let (x, y) = (order@[a] as int, order@[b] as int);
            assert(key_before(keys@, x, y));
            assert(out@[a].score == keys@[x].num && out@[a].candidate_id@ == keys@[x].id@);
            assert(out@[b].score == keys@[y].num && out@[b].candidate_id@ == keys@[y].id@);
            assert(x < items@.len() && y < items@.len());
            assert(keys@[x].den == 1 && keys@[y].den == 1) by {
                assert(items@[x] < rs.len());
                assert(items@[y] < rs.len());
            }
            let (nx, ny, dx, dy) = (keys@[x].num as int, keys@[y].num as int, keys@[x].den as int, keys@[y].den as int);
            assert(nx * dy == nx && ny * dx == ny) by (nonlinear_arith)
                requires
                    dx == 1,
                    dy == 1,
            ;
            json::lemma_seq_lt_total(keys@[x].id@, keys@[y].id@);
            json::lemma_seq_lt_irreflexive(keys@[x].id@);
        }
    }
    out
}

proof fn lemma_lane_members(req: &SearchRequest, words: Seq<Seq<char>>, rs: Seq<StoredRecord>)
    ensures
        forall|i: int| 0 <= i < lane_in(req, words, rs).len() ==> in_lane(req, words, #[trigger] lane_in(req, words, rs)[i]),
    decreases rs.len(),
{
    reveal(Seq::filter);
    if rs.len() > 0 {
        lemma_lane_members(req, words, rs.drop_last());
        let d = lane_in(req, words, rs.drop_last());
        assert forall|i: int| 0 <= i < lane_in(req, words, rs).len() implies in_lane(req, words, #[trigger] lane_in(req, words, rs)[i]) by {
            if i < d.len() {
                assert(lane_in(req, words, rs)[i] == d[i]);
            }
        }
    }
}

// ---------------------------------------------------------------- search

/// How a search used the query vector.
#[derive(Debug)]
pub struct VectorStatus {
    pub requested: bool,
    pub model: Option<String>,
    pub dim: Option<usize>,
    pub eligible_revisions: usize,
    pub with_matching_embedding: usize,
}

/// A search answer, with the records it saw and the walk of its root.
#[derive(Debug)]
pub struct SearchReport {
    pub stage: Stage,
    pub selected_by: query::SelectedBy,
    pub root_revision_id: Option<String>,
    pub results: Vec<SearchHit>,
    pub related: Vec<RelatedHit>,
    pub candidates: Vec<LaneHit>,
    pub vector: VectorStatus,
    pub truncated: bool,
    pub view: KnownView,
    pub walk: Walk,
}

/// Walk revisions that have an embedding of the query's model and dimension.
pub open spec fn with_matching(rs: Seq<StoredRecord>, vq: Option<VectorProfile>, revs: Seq<Seq<char>>) -> nat
    decreases revs.len(),
{
    if revs.len() == 0 {
        0
    } else {
        with_matching(rs, vq, revs.drop_last()) + if matching_embedding(rs, vq, revs.last()) is Some {
            1nat
        } else {
            0nat
        }
    }
}

/// The number of results a search returns at most.
pub open spec fn search_limit(req: &SearchRequest) -> int {
    match req.limit {
        Some(l) => l as int,
        None => limits::DEFAULT_SEARCH_LIMIT as int,
    }
}

/// The lane is asked for: no lanes named, or `candidate` among them.
pub open spec fn wants_lane(req: &SearchRequest) -> bool {
    req.lanes@.len() == 0 || views(req.lanes@).contains("candidate"@)
}

/// A vector profile a search accepts: 1 to 4096 dimensions, as many values.
pub open spec fn vector_ok(vq: Option<VectorProfile>) -> bool {
    match vq {
        Some(vp) => 0 < vp.dim <= limits::MAX_EMBEDDING_DIM && vp.dim == vp.len,
        None => true,
    }
}

/// What a search answers over the records it saw and its walk.
pub open spec fn search_right(req: &SearchRequest, sims: Seq<(String, u64)>, rep: SearchReport) -> bool {
    let words = spec_tokens(req.query@);
    let limit = search_limit(req) as nat;
    &&& 1 <= search_limit(req) <= limits::MAX_SEARCH_LIMIT
    &&& rep.vector.requested == req.vector is Some
    &&& match rep.root_revision_id {
        None => {
            &&& rep.results@.len() == 0 && rep.related@.len() == 0 && rep.candidates@.len() == 0
            &&& rep.vector.eligible_revisions == 0 && rep.vector.with_matching_embedding == 0
            &&& !rep.truncated
        },
        Some(root) => {
            &&& query::project_root_of(rep.view.records@, req.project_id@, root@)
            &&& vector_ok(req.vector)
            &&& rep.walk.sound(&rep.view.records, root@, Limits { max_nodes: 500, max_depth: graph::MAX_DEPTH })
            &&& graph::walk_view(rep.walk) == graph::walk_v(
                &rep.view.records,
                root@,
                Limits { max_nodes: 500, max_depth: graph::MAX_DEPTH },
            )
            &&& top_hits(&rep.view, &rep.walk, candidates(&rep.view, req, &rep.walk, words, sims), limit, rep.results@)
            &&& related_right(&rep.view, req, &rep.walk, words, rep.results@, rep.related@)
            &&& if wants_lane(req) {
                lane_right(words, lane_in(req, words, rep.view.records@), limit, rep.candidates@)
            } else {
                rep.candidates@.len() == 0
            }
            &&& rep.vector.eligible_revisions == rep.walk.revisions@.len()
            &&& rep.vector.with_matching_embedding == with_matching(rep.view.records@, req.vector, views(rep.walk.revisions@))
            &&& rep.truncated == rep.walk.truncated
        },
    }
}

fn count_matching(rs: &Vec<StoredRecord>, vq: &Option<VectorProfile>, revs: &Vec<String>) -> (n: usize)
    ensures
        n == with_matching(rs@, *vq, views(revs@)),
{
    let ghost rv = views(revs@);
    let mut n: usize = 0;
    let mut i: usize = 0;
    while i < revs.len()
        invariant
            0 <= i <= revs@.len(),
            rv == views(revs@),
            n == with_matching(rs@, *vq, rv.take(i as int)),
            n <= i,
        decreases revs@.len() - i,
    {
        assert(rv.take(i + 1).drop_last() == rv.take(i as int));
        assert(rv.take(i + 1).last() == rv[i as int]);
        if matching_in(rs, vq, revs[i].as_str()).is_some() {
            n += 1;
        }
        i += 1;
    }
    assert(rv.take(rv.len() as int) == rv);
    n
}

fn push_param(p: &mut Vec<(String, String)>, key: &str, value: String)
    ensures
        final(p)@ == old(p)@.push((final(p)@.last().0, value)),
        final(p)@.last().0@ == key@,
{
    p.push((text::owned(key), value));
}

pub open spec fn opt_text(o: Option<String>) -> Option<Seq<char>> {
    match o {
        Some(s) => Some(s@),
        None => None,
    }
}

pub open spec fn param_text(p: Seq<(String, String)>, key: Seq<char>) -> Option<Seq<char>> {
    opt_text(query::param_of(p, key))
}

/// The query parameters a search request stands for.
fn search_params(req: &SearchRequest) -> (p: Vec<(String, String)>)
    ensures
        param_text(p@, "project_id"@) == Some(req.project_id@),
        param_text(p@, "stage"@) == match req.stage {
            Some(s) => Some(s.name()),
            None => None,
        },
        param_text(p@, "known_seq"@) == match req.known_seq {
            Some(n) => Some(text::spec_int_text(n as int)),
            None => None,
        },
        param_text(p@, "known_at"@) == opt_text(req.known_at),
        param_text(p@, "effective_at"@) == opt_text(req.effective_at),
        param_text(p@, "root_revision_id"@) is None,
{
    proof {
        reveal_strlit("project_id");
        reveal_strlit("stage");
        reveal_strlit("known_seq");
        reveal_strlit("known_at");
        reveal_strlit("effective_at");
        reveal_strlit("root_revision_id");
        assert("project_id"@[0] != "stage"@[0] && "project_id"@[0] != "known_seq"@[0]);
        assert("project_id"@[0] != "effective_at"@[0] && "project_id"@[0] != "root_revision_id"@[0]);
        assert("stage"@[0] != "known_seq"@[0] && "stage"@[0] != "effective_at"@[0]);
        assert("stage"@[0] != "root_revision_id"@[0] && "known_seq"@[6] != "known_at"@[6]);
        assert("known_seq"@[0] != "effective_at"@[0] && "known_seq"@[0] != "root_revision_id"@[0]);
        assert("known_at"@[0] != "effective_at"@[0] && "known_at"@[0] != "root_revision_id"@[0]);
        assert("effective_at"@[0] != "root_revision_id"@[0]);
        assert("known_at"@[0] != "project_id"@[0] && "known_at"@[0] != "stage"@[0]);
    }
    let ghost keys: Seq<Seq<char>> = seq!["project_id"@, "stage"@, "known_seq"@, "known_at"@, "effective_at"@, "root_revision_id"@];
    let mut p: Vec<(String, String)> = Vec::new();
    push_param(&mut p, "project_id", req.project_id.clone());
    proof {
        assert forall|k: int| 0 <= k < 6 implies query::param_of(p@, #[trigger] keys[k]) == query::param_of(
            Seq::<(String, String)>::empty().push(p@.last()),
            keys[k],
        ) by {
            assert(p@ =~= Seq::<(String, String)>::empty().push(p@.last()));
        }
        assert forall|k: int| 0 <= k < 6 implies #[trigger] query::param_of(p@, keys[k]) == if k == 0 {
            Some(req.project_id)
        } else {
            None
        } by {
            query::lemma_param_push(Seq::<(String, String)>::empty(), p@.last(), keys[k]);
            assert(p@ =~= Seq::<(String, String)>::empty().push(p@.last()));
        }
    }
    let ghost p1 = p@;
    match req.stage {
        Some(s) => push_param(&mut p, "stage", text::owned(s.as_str())),
        None => {},
    }
    proof {
        assert forall|k: int| 0 <= k < 6 implies #[trigger] query::param_of(p@, keys[k]) == if k == 0 {
            Some(req.project_id)
        } else if k == 1 && req.stage is Some {
            query::param_of(p@, "stage"@)
        } else {
            None
        } by {
            if req.stage is Some {
                query::lemma_param_push(p1, p@.last(), keys[k]);
                assert(p@ == p1.push(p@.last()));
            }
        }
        if req.stage is Some {
            query::lemma_param_push(p1, p@.last(), "stage"@);
        }
    }
    let ghost p2 = p@;
    match req.known_seq {
        Some(n) => push_param(&mut p, "known_seq", text::int_text(n)),
        None => {},
    }
    proof {
        assert forall|k: int| 0 <= k < 6 implies #[trigger] query::param_of(p@, keys[k]) == if k == 0 {
            Some(req.project_id)
        } else if k == 1 && req.stage is Some {
            query::param_of(p2, "stage"@)
        } else if k == 2 && req.known_seq is Some {
            query::param_of(p@, "known_seq"@)
        } else {
            None
        } by {
            if req.known_seq is Some {
                query::lemma_param_push(p2, p@.last(), keys[k]);
                assert(p@ == p2.push(p@.last()));
            }
        }
        if req.known_seq is Some {
            query::lemma_param_push(p2, p@.last(), "known_seq"@);
        }
    }
    let ghost p3 = p@;
    match &req.known_at {
        Some(a) => push_param(&mut p, "known_at", a.clone()),
        None => {},
    }
    proof {
        assert forall|k: int| 0 <= k < 6 implies #[trigger] query::param_of(p@, keys[k]) == if k == 0 {
            Some(req.project_id)
        } else if k == 1 && req.stage is Some {
            query::param_of(p2, "stage"@)
        } else if k == 2 && req.known_seq is Some {
            query::param_of(p3, "known_seq"@)
        } else if k == 3 && req.known_at is Some {
            query::param_of(p@, "known_at"@)
        } else {
            None
        } by {
            if req.known_at is Some {
                query::lemma_param_push(p3, p@.last(), keys[k]);
                assert(p@ == p3.push(p@.last()));
            }
        }
        if req.known_at is Some {
            query::lemma_param_push(p3, p@.last(), "known_at"@);
        }
    }
    let ghost p4 = p@;
    match &req.effective_at {
        Some(a) => push_param(&mut p, "effective_at", a.clone()),
        None => {},
    }
    proof {
        assert forall|k: int| 0 <= k < 6 implies #[trigger] query::param_of(p@, keys[k]) == if k == 0 {
            Some(req.project_id)
        } else if k == 1 && req.stage is Some {
            query::param_of(p2, "stage"@)
        } else if k == 2 && req.known_seq is Some {
            query::param_of(p3, "known_seq"@)
        } else if k == 3 && req.known_at is Some {
            query::param_of(p4, "known_at"@)
        } else if k == 4 && req.effective_at is Some {
            query::param_of(p@, "effective_at"@)
        } else {
            None
        } by {
            if req.effective_at is Some {
                query::lemma_param_push(p4, p@.last(), keys[k]);
                assert(p@ == p4.push(p@.last()));
            }
        }
        if req.effective_at is Some {
            query::lemma_param_push(p4, p@.last(), "effective_at"@);
        }
        assert(query::param_of(p@, keys[0]) == Some(req.project_id));
        assert(query::param_of(p@, keys[1]) == if req.stage is Some { query::param_of(p2, "stage"@) } else { None });
        assert(query::param_of(p@, keys[2]) == if req.known_seq is Some { query::param_of(p3, "known_seq"@) } else { None });
        assert(query::param_of(p@, keys[3]) == if req.known_at is Some { query::param_of(p4, "known_at"@) } else { None });
        assert(query::param_of(p@, keys[4]) == if req.effective_at is Some { query::param_of(p@, "effective_at"@) } else { None });
        assert(query::param_of(p@, keys[5]) is None);
    }
    p
}

/// The known cut a search reads at: `known_seq`, or the last commit recorded
/// by `known_at`, or the latest; none when both are given, when a time is not
/// an RFC 3339 instant, or when `known_seq` is outside `0..=seq`.
pub open spec fn search_known(ctx: &Context, req: &SearchRequest) -> Option<int> {
    if req.known_seq is Some && req.known_at is Some {
        None
    } else if req.known_at matches Some(a) && crate::util::spec_utc_key(a@) is None {
        None
    } else if req.effective_at matches Some(e) && crate::util::spec_utc_key(e@) is None {
        None
    } else {
        match req.known_seq {
            Some(n) => if 0 <= n <= ctx.seq {
                Some(n as int)
            } else {
                None
            },
            None => match req.known_at {
                Some(a) => Some(query::last_seq_by(ctx.records@, crate::util::spec_utc_key(a@).unwrap())),
                None => Some(ctx.seq as int),
            },
        }
    }
}

/// The view a search reads: the records known at its cut, and its times.
pub open spec fn search_view(ctx: &Context, req: &SearchRequest, v: KnownView) -> bool {
    &&& search_known(ctx, req) matches Some(known)
    &&& v.known == known
    &&& v.records@.len() == query::known_records(ctx.records@, known).len()
    &&& forall|i: int|
        0 <= i < v.records@.len() ==> (#[trigger] v.records@[i]).same_as(&query::known_records(ctx.records@, known)[i])
    &&& opt_text(v.known_at) == match req.known_at {
        Some(a) => crate::util::spec_utc_key(a@),
        None => None,
    }
    &&& opt_text(v.effective) == match req.effective_at {
        Some(a) => crate::util::spec_utc_key(a@),
        None => None,
    }
}

pub open spec fn search_stage(req: &SearchRequest) -> Stage {
    match req.stage {
        Some(s) => s,
        None => Stage::Working,
    }
}

/// The head of the stage is not a project-root revision of the project.
pub open spec fn head_refused(v: &KnownView, project: Seq<char>, stage: Stage) -> bool {
    exists|ch: query::RootChoice|
        query::head_rel(v, project, stage, Some(ch)) && !query::project_root_of(
            v.records@,
            project,
            #[trigger] ch.revision_id@,
        )
}

/// Search the composition selected for a project: ranked results, related
/// revisions of other roles, and the candidate lane. `sims` orders the
/// embedding records whose model and dimension match the query vector by
/// similarity (smaller first; equal for equal similarity).
pub fn search(ctx: &Context, req: &SearchRequest, sims: &Vec<(String, u64)>) -> (r: Result<SearchReport, ApiError>)
    ensures
        r matches Err(e) ==> e.code == "bad_request",
        !(1 <= search_limit(req) <= limits::MAX_SEARCH_LIMIT) ==> r is Err,
        r matches Ok(rep) ==> search_right(req, sims@, rep),
        r matches Ok(rep) ==> {
            &&& search_view(ctx, req, rep.view)
            &&& rep.stage == search_stage(req)
            &&& exists|c: Option<query::RootChoice>|
                query::head_rel(&rep.view, req.project_id@, search_stage(req), c) && #[trigger] query::choice_id(c)
                    == rep.root_revision_id
        },
        r is Err ==> {
            ||| search_known(ctx, req) is None
            ||| !(1 <= search_limit(req) <= limits::MAX_SEARCH_LIMIT)
            ||| !vector_ok(req.vector)
            ||| exists|v: KnownView|
                #[trigger] search_view(ctx, req, v) && head_refused(&v, req.project_id@, search_stage(req))
        },
{
    let p = search_params(req);
    proof {
        if let Some(n) = req.known_seq {
            text::lemma_int_text_value(n as int);
        }
        assert(query::selected_known(ctx, p@) == search_known(ctx, req));
    }
    let v = match query::view(ctx, &p) {
        Ok(v) => v,
        Err(e) => return Err(e),
    };
    assert(search_view(ctx, req, v));
    proof {
        reveal_strlit("working");
        reveal_strlit("official");
        assert("working"@[0] != "official"@[0]);
    }
    let stage = match query::stage_param(&p) {
        Ok(s) => s,
        Err(e) => {
            assert(false);
            return Err(e);
        },
    };
    assert(stage == search_stage(req));
    let limit = match req.limit {
        Some(l) => l,
        None => limits::DEFAULT_SEARCH_LIMIT,
    };
    if limit == 0 || limit > limits::MAX_SEARCH_LIMIT {
        return Err(ApiError::bad_request(text::owned("limit must be 1..=200")));
    }
    let choice = match query::selected(&v, &p, stage, req.project_id.as_str()) {
        Ok(c) => c,
        Err(e) => {
            assert(head_refused(&v, req.project_id@, stage));
            return Err(e);
        },
    };
    let ghost chosen = choice;
    assert(query::head_rel(&v, req.project_id@, stage, chosen));
    let by = query::selected_by(&v, &choice);
    let (model, dim) = match &req.vector {
        Some(vp) => (Some(vp.model.clone()), Some(vp.dim)),
        None => (None, None),
    };
    let root = match choice {
        Some(c) => c.revision_id,
        None => {
            assert(query::choice_id(chosen) == None::<String>);
            return Ok(
                SearchReport {
                    stage,
                    selected_by: by,
                    root_revision_id: None,
                    results: Vec::new(),
                    related: Vec::new(),
                    candidates: Vec::new(),
                    vector: VectorStatus {
                        requested: req.vector.is_some(),
                        model,
                        dim,
                        eligible_revisions: 0,
                        with_matching_embedding: 0,
                    },
                    truncated: false,
                    view: v,
                    walk: Walk {
                        occurrences: Vec::new(),
                        revisions: Vec::new(),
                        truncated: false,
                        max_depth_reached: 0,
                        missing: Vec::new(),
                    },
                },
            );
        },
    };
    assert(query::choice_id(chosen) == Some(root));
    let lim = Limits::default();
    let w = graph::walk(&v.records, root.as_str(), lim);
    proof {
        graph::lemma_walk_size(&w, &v.records, root@, lim);
    }
    let words = tokens(req.query.as_str());
    match &req.vector {
        Some(vp) => {
            if vp.dim == 0 || vp.dim > limits::MAX_EMBEDDING_DIM || vp.dim != vp.len {
                return Err(ApiError::bad_request(text::owned("vector dim must be 1..=4096 and equal values length")));
            }
        },
        None => {},
    }
    let hits = rank_hits(&v, req, &w, &words, sims, limit);
    let rel = related(&v, req, &w, &words, &hits);
    let lane_wanted = req.lanes.len() == 0 || text::contains_str(&req.lanes, "candidate");
    proof {
        if views(req.lanes@).contains("candidate"@) {
            let i = choose|i: int| 0 <= i < views(req.lanes@).len() && views(req.lanes@)[i] == "candidate"@;
            assert(req.lanes@[i]@ == "candidate"@);
        }
        if lane_wanted && req.lanes@.len() > 0 {
            let i = choose|i: int| 0 <= i < req.lanes@.len() && (#[trigger] req.lanes@[i])@ == "candidate"@;
            assert(views(req.lanes@)[i] == "candidate"@);
        }
    }
    let cands = if lane_wanted {
        lane(&v, req, &words, limit)
    } else {
        Vec::new()
    };
    let matching = count_matching(&v.records, &req.vector, &w.revisions);
    let eligible = w.revisions.len();
    let truncated = w.truncated;
    Ok(
        SearchReport {
            stage,
            selected_by: by,
            root_revision_id: Some(root),
            results: hits,
            related: rel,
            candidates: cands,
            vector: VectorStatus {
                requested: req.vector.is_some(),
                model,
                dim,
                eligible_revisions: eligible,
                with_matching_embedding: matching,
            },
            truncated,
            view: v,
            walk: w,
        },
    )
}

} // verus!
