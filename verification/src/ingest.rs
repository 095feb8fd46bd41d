//! Decisions of intake: which uploaded revisions are Ideas that need an
//! embedding, how an embedding is bound to its revision, and whether a
//! validated upload may be staged.

use vstd::prelude::*;

use crate::error::{ApiError, Issue};
use crate::graph::{self, Lookup};
use crate::json::{self, Json, JsonV};
use crate::limits;
use crate::model::{EntityData, EntityKind, NewRecord, RecordData, RecordKind};
use crate::mutation::DryRun;
use crate::text;
use crate::util;
use crate::validate::{Context, Package};

verus! {

/// The body format an embedding profile names.
pub open spec fn format_suffix() -> Seq<char> {
    "/idea-body-v1"@
}

/// An uploaded Idea revision: its id, its body, and its entity's project.
#[derive(Debug)]
pub struct IdeaAtom {
    pub revision_id: String,
    pub body: String,
    pub project_id: String,
}

/// The first package record with id `id`.
pub open spec fn first_new(rs: Seq<NewRecord>, id: Seq<char>) -> Option<NewRecord>
    decreases rs.len(),
{
    if rs.len() == 0 {
        None
    } else if rs[0].id@ == id {
        Some(rs[0])
    } else {
        first_new(rs.drop_first(), id)
    }
}

/// The entity a revision names: from the package when the first record with
/// that id there is an entity, else from stored state.
pub open spec fn entity_for(pkg: &Package, ctx: &Context, id: Seq<char>) -> Option<EntityData> {
    match first_new(pkg.records@, id) {
        Some(r) => match r.data {
            Ok(RecordData::Entity(e)) => Some(e),
            _ => match ctx.holds(id) {
                Some(x) => match x.data {
                    RecordData::Entity(e) => Some(e),
                    _ => None,
                },
                None => None,
            },
        },
        None => match ctx.holds(id) {
            Some(x) => match x.data {
                RecordData::Entity(e) => Some(e),
                _ => None,
            },
            None => None,
        },
    }
}

/// A package record that is a revision of an Idea.
pub open spec fn idea_revision(pkg: &Package, ctx: &Context, r: NewRecord) -> bool {
    &&& r.kind == RecordKind::Revision
    &&& r.data matches Ok(RecordData::Revision(d))
    &&& entity_for(pkg, ctx, d.entity_id@) matches Some(e) && e.entity_kind == EntityKind::Idea
}

fn find_new<'a>(rs: &'a Vec<NewRecord>, id: &str) -> (r: Option<&'a NewRecord>)
    ensures
        match r {
            Some(x) => first_new(rs@, id@) == Some(*x),
            None => first_new(rs@, id@) is None,
        },
{
    let mut i: usize = 0;
    assert(rs@.skip(0) == rs@);
    while i < rs.len()
        invariant
            0 <= i <= rs@.len(),
            first_new(rs@, id@) == first_new(rs@.skip(i as int), id@),
        decreases rs@.len() - i,
    {
        assert(rs@.skip(i as int).drop_first() == rs@.skip(i + 1));
        if text::str_eq(rs[i].id.as_str(), id) {
            return Some(&rs[i]);
        }
        i += 1;
    }
    None
}

fn stored_entity<'a>(ctx: &'a Context, id: &str) -> (r: Option<&'a EntityData>)
    ensures
        match r {
            Some(e) => (ctx.holds(id@) matches Some(x) && x.data == RecordData::Entity(*e)),
            None => !(ctx.holds(id@) matches Some(x) && x.data is Entity),
        },
{
    match ctx.get(id) {
        Some(x) => x.as_entity(),
        None => None,
    }
}

fn entity_of<'a>(pkg: &'a Package, ctx: &'a Context, id: &str) -> (r: Option<&'a EntityData>)
    ensures
        match r {
            Some(e) => entity_for(pkg, ctx, id@) == Some(*e),
            None => entity_for(pkg, ctx, id@) is None,
        },
{
    match find_new(&pkg.records, id) {
        Some(r) => match &r.data {
            Ok(RecordData::Entity(e)) => Some(e),
            _ => stored_entity(ctx, id),
        },
        None => stored_entity(ctx, id),
    }
}

/// The Idea revisions of an upload, in package order.
pub fn ideas(pkg: &Package, ctx: &Context) -> (r: Vec<IdeaAtom>)
    ensures
        r@.len() == pkg.records@.filter(|x: NewRecord| idea_revision(pkg, ctx, x)).len(),
        forall|i: int|
            0 <= i < r@.len() ==> {
                let src = pkg.records@.filter(|x: NewRecord| idea_revision(pkg, ctx, x))[i];
                let d = src.data->Ok_0->Revision_0;
                &&& (#[trigger] r@[i]).revision_id == src.id
                &&& r@[i].body == d.body
                &&& r@[i].project_id == entity_for(pkg, ctx, d.entity_id@).unwrap().project_id
            },
{
    let ghost f = |x: NewRecord| idea_revision(pkg, ctx, x);
    let mut out: Vec<IdeaAtom> = Vec::new();
    let mut i: usize = 0;
    while i < pkg.records.len()
        invariant
            0 <= i <= pkg.records@.len(),
            f == (|x: NewRecord| idea_revision(pkg, ctx, x)),
            out@.len() == pkg.records@.take(i as int).filter(f).len(),
            forall|k: int|
                0 <= k < out@.len() ==> {
                    let src = pkg.records@.take(i as int).filter(f)[k];
                    let d = src.data->Ok_0->Revision_0;
                    &&& (#[trigger] out@[k]).revision_id == src.id
                    &&& out@[k].body == d.body
                    &&& out@[k].project_id == entity_for(pkg, ctx, d.entity_id@).unwrap().project_id
                },
        decreases pkg.records@.len() - i,
    {
        let r = &pkg.records[i];
        proof {
            assert(pkg.records@.take(i + 1) =~= pkg.records@.take(i as int).push(*r));
            pkg.records@.take(i as int).lemma_filter_push(*r, f);
        }
        if r.kind == RecordKind::Revision {
            match &r.data {
                Ok(RecordData::Revision(d)) => {
                    match entity_of(pkg, ctx, d.entity_id.as_str()) {
                        Some(e) => {
                            if e.entity_kind == EntityKind::Idea {
                                out.push(
                                    IdeaAtom {
                                        revision_id: r.id.clone(),
                                        body: d.body.clone(),
                                        project_id: e.project_id.clone(),
                                    },
                                );
                            }
                        },
                        None => {},
                    }
                },
                _ => {},
            }
        }
        i += 1;
    }
    assert(pkg.records@.take(pkg.records@.len() as int) =~= pkg.records@);
    out
}

/// The id an embedding of a revision's body under a model profile takes: it
/// binds the revision, the exact body and the profile.
pub open spec fn embedding_id_of(revision_id: Seq<char>, body: Seq<char>, profile: Seq<char>) -> Seq<char> {
    util::spec_derived_id(
        "emb"@,
        json::canon(
            JsonV::Array(
                seq![
                    JsonV::Str(revision_id),
                    JsonV::Str(util::spec_digest_text(body)),
                    JsonV::Str(profile),
                ],
            ),
        ),
    )
}

pub fn embedding_id(revision_id: &str, body: &str, profile: &str) -> (r: String)
    ensures
        r@ == embedding_id_of(revision_id@, body@, profile@),
{
    let mut items: Vec<Json> = Vec::new();
    items.push(Json::Str(text::owned(revision_id)));
    items.push(Json::Str(util::digest_text(body)));
    items.push(Json::Str(text::owned(profile)));
    let ghost its = items@;
    let arr = Json::Array(items);
    proof {
        if let JsonV::Array(x) = arr.deep() {
            assert(x.len() == 3);
            assert(x[0] == its[0].deep());
            assert(x[1] == its[1].deep());
            assert(x[2] == its[2].deep());
            assert(x =~= seq![
                JsonV::Str(revision_id@),
                JsonV::Str(util::spec_digest_text(body@)),
                JsonV::Str(profile@),
            ]);
        }
    }
    let c = json::canonical_json(&arr);
    util::derived_id("emb", c.as_str())
}

pub open spec fn has_code_in(errors: Seq<Issue>, code: &'static str) -> bool {
    exists|i: int| 0 <= i < errors.len() && (#[trigger] errors[i]).code@ == code@
}

/// Only a valid dry run may be staged: a head conflict stays a conflict,
/// anything else a validation failure naming the first error.
pub fn require_valid(dry: DryRun) -> (r: Result<DryRun, ApiError>)
    ensures
        dry.valid ==> (r matches Ok(d) && d == dry),
        !dry.valid && has_code_in(dry.errors@, "head_conflict") ==> (r matches Err(e) && e.code == "head_conflict"
            && e.status == 409),
        !dry.valid && !has_code_in(dry.errors@, "head_conflict") ==> (r matches Err(e) && e.code == "validation_failed"
            && e.status == 422
            && e.issues@ == dry.errors@ && (dry.errors@.len() > 0 ==> e.message == dry.errors@[0].message)),
{
    if dry.valid {
        return Ok(dry);
    }
    let mut conflict = false;
    let mut i: usize = 0;
    while i < dry.errors.len()
        invariant
            0 <= i <= dry.errors@.len(),
            conflict == exists|k: int| 0 <= k < i && (#[trigger] dry.errors@[k]).code@ == "head_conflict"@,
        decreases dry.errors@.len() - i,
    {
        if text::str_eq(dry.errors[i].code, "head_conflict") {
            assert(dry.errors@[i as int].code@ == "head_conflict"@);
            conflict = true;
        }
        i += 1;
    }
    if conflict {
        let mut fields: Vec<(String, Json)> = Vec::new();
        let mut list: Vec<Json> = Vec::new();
        let mut k: usize = 0;
        while k < dry.errors.len()
            invariant
                0 <= k <= dry.errors@.len(),
            decreases dry.errors@.len() - k,
        {
            let issue = &dry.errors[k];
            let mut f: Vec<(String, Json)> = Vec::new();
            f.push((text::owned("path"), Json::Str(issue.path.clone())));
            f.push((text::owned("code"), Json::Str(text::owned(issue.code))));
            f.push((text::owned("message"), Json::Str(issue.message.clone())));
            list.push(Json::Object(f));
            k += 1;
        }
        fields.push((text::owned("errors"), Json::Array(list)));
        return Err(ApiError::head_conflict(Json::Object(fields)));
    }
    let message = if dry.errors.len() > 0 {
        dry.errors[0].message.clone()
    } else {
        text::owned("package validation failed")
    };
    let mut e = ApiError::validation(dry.errors);
    e.message = message;
    Err(e)
}

/// How complete the embedding index is for a search.
#[derive(Debug)]
pub struct Coverage {
    pub checked: bool,
    pub eligible_idea_revisions: u64,
    pub indexed_idea_revisions: Option<u64>,
    pub unindexed_idea_revisions: Option<u64>,
    pub complete: Option<bool>,
}

/// Hybrid search reports how many eligible Idea revisions carry an embedding
/// of the requested profile; lexical search does not check.
pub fn index_coverage(hybrid: bool, eligible: u64, indexed: u64) -> (r: Coverage)
    ensures
        r.checked == hybrid,
        r.eligible_idea_revisions == eligible,
        hybrid ==> r.indexed_idea_revisions == Some(indexed) && r.unindexed_idea_revisions == Some(
            (if indexed <= eligible { eligible - indexed } else { 0 }) as u64,
        ) && r.complete == Some(indexed == eligible),
        !hybrid ==> r.indexed_idea_revisions is None && r.unindexed_idea_revisions is None && r.complete is None,
{
    if hybrid {
        Coverage {
            checked: true,
            eligible_idea_revisions: eligible,
            indexed_idea_revisions: Some(indexed),
            unindexed_idea_revisions: Some(eligible.saturating_sub(indexed)),
            complete: Some(indexed == eligible),
        }
    } else {
        Coverage {
            checked: false,
            eligible_idea_revisions: eligible,
            indexed_idea_revisions: None,
            unindexed_idea_revisions: None,
            complete: None,
        }
    }
}

/// An upload must still fit once its Idea embeddings are added: in one
/// package, and in the readable namespace with two head records to spare.
pub fn check_preview_capacity(stored: usize, records: usize, ideas: usize) -> (r: Result<(), ApiError>)
    ensures
        r is Ok <==> records + ideas <= limits::MAX_PACKAGE_RECORDS && stored + records + ideas + 2
            <= limits::MAX_PREFETCH_RECORDS,
        r matches Err(e) ==> e.code == "validation_failed" && e.status == 422 && e.issues@[0].is("records"@, "limit_exceeded"),
{
    if records > limits::MAX_PACKAGE_RECORDS || ideas > limits::MAX_PACKAGE_RECORDS - records || stored
        > limits::MAX_PREFETCH_RECORDS || records + ideas + 2 > limits::MAX_PREFETCH_RECORDS - stored {
        return Err(
            ApiError::issue(
                text::owned("records"),
                "limit_exceeded",
                text::owned(
                    "Preview would exceed package/namespace capacity after indexing; submit a smaller reviewed package.",
                ),
            ),
        );
    }
    Ok(())
}


/// A package record that is an embedding of `revision`.
pub open spec fn embedding_of(r: NewRecord, revision: Seq<char>) -> bool {
    r.kind == RecordKind::Embedding && (r.data matches Ok(RecordData::Embedding(e)) && e.revision_id@ == revision)
}

/// An embedding record bound to its Idea: a profile of this body format
/// pinned by digest, an id derived from revision, body and profile, and as
/// many values as its dimension says.
pub open spec fn embedding_bound(r: NewRecord, atom: IdeaAtom) -> bool {
    let e = r.data->Ok_0->Embedding_0;
    &&& e.model@.len() >= format_suffix().len()
    &&& e.model@.skip(e.model@.len() - format_suffix().len()) == format_suffix()
    &&& text::occurs_in(e.model@, "@sha256:"@)
    &&& r.id@ == embedding_id_of(atom.revision_id@, atom.body@, e.model@)
    &&& e.dim == e.values@.len()
}

/// Before a staged upload is applied, every Idea revision must carry exactly
/// one prepared embedding, bound to that revision, body and model profile.
/// Whether the values are finite and nonzero is checked apart.
pub fn check_idea_embeddings(pkg: &Package, ctx: &Context) -> (r: Result<(), ApiError>)
    ensures
        r is Ok ==> forall|i: int|
            0 <= i < pkg.records@.len() && idea_revision(pkg, ctx, #[trigger] pkg.records@[i]) ==> pkg.records@.filter(
                |x: NewRecord| embedding_of(x, pkg.records@[i].id@),
            ).len() == 1,
        r matches Err(e) ==> e.code == "validation_failed" || e.code == "bad_request",
{
    let atoms = ideas(pkg, ctx);
    let ghost fi = |x: NewRecord| idea_revision(pkg, ctx, x);
    let mut a: usize = 0;
    while a < atoms.len()
        invariant
            0 <= a <= atoms@.len(),
            fi == (|x: NewRecord| idea_revision(pkg, ctx, x)),
            atoms@.len() == pkg.records@.filter(fi).len(),
            forall|i: int|
                0 <= i < atoms@.len() ==> (#[trigger] atoms@[i]).revision_id == pkg.records@.filter(fi)[i].id,
            forall|k: int|
                0 <= k < a ==> pkg.records@.filter(|x: NewRecord| embedding_of(x, #[trigger] atoms@[k].revision_id@)).len() == 1,
        decreases atoms@.len() - a,
    {
        let atom = &atoms[a];
        let ghost fe = |x: NewRecord| embedding_of(x, atom.revision_id@);
        let mut found: Option<usize> = None;
        let mut count: usize = 0;
        let mut i: usize = 0;
        while i < pkg.records.len()
            invariant
                0 <= i <= pkg.records@.len(),
                fe == (|x: NewRecord| embedding_of(x, atom.revision_id@)),
                count == pkg.records@.take(i as int).filter(fe).len(),
                count <= i,
                found matches Some(k) ==> k < pkg.records@.len() && embedding_of(pkg.records@[k as int], atom.revision_id@),
                count > 0 ==> found is Some,
            decreases pkg.records@.len() - i,
        {
            let r = &pkg.records[i];
            proof {
                assert(pkg.records@.take(i + 1) =~= pkg.records@.take(i as int).push(*r));
                pkg.records@.take(i as int).lemma_filter_push(*r, fe);
            }
            let hit = r.kind == RecordKind::Embedding && match &r.data {
                Ok(RecordData::Embedding(e)) => text::str_eq(e.revision_id.as_str(), atom.revision_id.as_str()),
                _ => false,
            };
            if hit {
                count += 1;
                found = Some(i);
            }
            i += 1;
        }
        assert(pkg.records@.take(pkg.records@.len() as int) =~= pkg.records@);
        if count != 1 {
            return Err(
                ApiError::issue(
                    text::owned("records"),
                    "embedding_required",
                    text::owned("Each uploaded Idea revision needs exactly one prepared embedding."),
                ),
            );
        }
        let k = found.unwrap();
        let rec = &pkg.records[k];
        let bound = match &rec.data {
            Ok(RecordData::Embedding(e)) => {
                let expected = embedding_id(atom.revision_id.as_str(), atom.body.as_str(), e.model.as_str());
                text::ends_with(e.model.as_str(), "/idea-body-v1") && text::contains_text(e.model.as_str(), "@sha256:")
                    && text::str_eq(rec.id.as_str(), expected.as_str()) && e.dim == e.values.len()
            },
            _ => false,
        };
        if !bound {
            return Err(
                ApiError::bad_request(
                    text::owned(
                        "Embedding identity does not bind this revision, body and model profile; preview again.",
                    ),
                ),
            );
        }
        a += 1;
    }
    proof {
        assert forall|i: int|
            0 <= i < pkg.records@.len() && idea_revision(pkg, ctx, #[trigger] pkg.records@[i]) implies pkg.records@.filter(
                |x: NewRecord| embedding_of(x, pkg.records@[i].id@),
            ).len() == 1 by {
            lemma_filter_member(pkg.records@, fi, i);
            let k = choose|k: int| 0 <= k < pkg.records@.filter(fi).len() && pkg.records@.filter(fi)[k] == pkg.records@[i];
            assert(atoms@[k].revision_id == pkg.records@[i].id);
            assert((|x: NewRecord| embedding_of(x, atoms@[k].revision_id@)) == (|x: NewRecord| embedding_of(x, pkg.records@[i].id@)));
        }
    }
    Ok(())
}

proof fn lemma_filter_member(s: Seq<NewRecord>, f: spec_fn(NewRecord) -> bool, i: int)
    requires
        0 <= i < s.len(),
        f(s[i]),
    ensures
        exists|k: int| 0 <= k < s.filter(f).len() && s.filter(f)[k] == s[i],
    decreases s.len(),
{
    reveal(Seq::filter);
    if i < s.len() - 1 {
        lemma_filter_member(s.drop_last(), f, i);
        let k = choose|k: int| 0 <= k < s.drop_last().filter(f).len() && s.drop_last().filter(f)[k] == s.drop_last()[i];
        assert(s.filter(f)[k] == s.drop_last().filter(f)[k]);
    } else {
        assert(s.filter(f).last() == s[i]);
    }
}

// ---------------------------------------------------------------- intake checks

/// Clients never send embeddings: intake generates them.
pub fn check_no_client_embeddings(pkg: &Package) -> (r: Result<(), ApiError>)
    ensures
        r is Ok <==> forall|i: int| 0 <= i < pkg.records@.len() ==> (#[trigger] pkg.records@[i]).kind != RecordKind::Embedding,
        r matches Err(e) ==> e.code == "validation_failed" && e.status == 422 && e.issues@.len() == 1 && e.issues@[0].is(
            "records"@,
            "client_embeddings_forbidden",
        ),
{
    let mut i: usize = 0;
    while i < pkg.records.len()
        invariant
            0 <= i <= pkg.records@.len(),
            forall|k: int| 0 <= k < i ==> (#[trigger] pkg.records@[k]).kind != RecordKind::Embedding,
        decreases pkg.records@.len() - i,
    {
        if pkg.records[i].kind == RecordKind::Embedding {
            return Err(
                ApiError::issue(
                    text::owned("records"),
                    "client_embeddings_forbidden",
                    text::owned("Embedding records are generated by MCP intake, not accepted from client packages."),
                ),
            );
        }
        i += 1;
    }
    Ok(())
}

/// The staged size an upload will reach once its Ideas carry embeddings of
/// `dim` values: the package text twice, and per Idea 26 bytes a value plus
/// 16 KiB.
pub open spec fn staged_estimate(package_bytes: int, ideas: int, dim: int) -> int {
    package_bytes * 2 + ideas * (dim * 26 + 16384)
}

/// An upload whose staged size would pass 2 MiB is refused before it is
/// embedded further.
pub fn check_staging_estimate(package_bytes: usize, ideas: usize, dim: usize) -> (r: Result<(), ApiError>)
    ensures
        r is Ok <==> staged_estimate(package_bytes as int, ideas as int, dim as int) <= limits::MAX_BODY_BYTES,
        r matches Err(e) ==> e.code == "validation_failed" && e.status == 422 && e.issues@[0].is("records"@, "limit_exceeded"),
{
    let refuse = ApiError::issue(
        text::owned("records"),
        "limit_exceeded",
        text::owned("Estimated embedding/staging size exceeds 2 MiB; submit fewer Ideas."),
    );
    let base = package_bytes as u128 * 2;
    if ideas == 0 {
        assert(staged_estimate(package_bytes as int, 0, dim as int) == package_bytes * 2) by (nonlinear_arith);
        if base > limits::MAX_BODY_BYTES as u128 {
            return Err(refuse);
        }
        return Ok(());
    }
    if dim >= 0x100000 {
        assert(staged_estimate(package_bytes as int, ideas as int, dim as int) > limits::MAX_BODY_BYTES) by (nonlinear_arith)
            requires
                ideas >= 1,
                dim >= 0x100000,
                package_bytes >= 0,
        ;
        return Err(refuse);
    }
    let per = dim as u128 * 26 + 16384;
    assert(ideas as int * per as int <= 0x1_0000_0000_0000_0000 * 0x200_0000) by (nonlinear_arith)
        requires
            ideas < 0x1_0000_0000_0000_0000,
            per <= 0x200_0000,
    ;
    let total = base + ideas as u128 * per;
    if total > limits::MAX_BODY_BYTES as u128 {
        return Err(refuse);
    }
    Ok(())
}

/// A provider failure: the embedding service is missing, misconfigured or
/// changed under a batch.
pub fn embedding_error(code: &'static str, message: String) -> (r: ApiError)
    ensures
        r.status == 503,
        r.code == code,
        r.message == message,
        r.issues@.len() == 0,
{
    ApiError { status: 503, code, message, issues: Vec::new(), details: None }
}

/// Every vector of one batch has the dimension of the first.
pub fn check_dimension(first: Option<usize>, now: usize) -> (r: Result<usize, ApiError>)
    ensures
        match first {
            Some(d) => (r is Ok <==> d == now),
            None => r is Ok,
        },
        r matches Ok(d) ==> d == now,
        r matches Err(e) ==> e.code == "embedding_dimension_changed" && e.status == 503,
{
    match first {
        Some(d) => if d != now {
            Err(embedding_error("embedding_dimension_changed", text::owned("Embedding dimensions changed within the batch.")))
        } else {
            Ok(now)
        },
        None => Ok(now),
    }
}

// ---------------------------------------------------------------- provider settings

/// The installed name of a model: as given when it names a tag, else its
/// `latest` tag.
pub open spec fn model_name(model: Seq<char>) -> Seq<char> {
    if model.contains(':') {
        model
    } else {
        model + ":latest"@
    }
}

fn has_colon(s: &str) -> (r: bool)
    ensures
        r == s@.contains(':'),
{
    let cs = text::chars_of(s);
    let mut i: usize = 0;
    while i < cs.len()
        invariant
            0 <= i <= cs@.len(),
            cs@ == s@,
            forall|k: int| 0 <= k < i ==> cs@[k] != ':',
        decreases cs@.len() - i,
    {
        if cs[i] == ':' {
            return true;
        }
        i += 1;
    }
    false
}

/// The installed name of a configured model.
pub fn installed_name(model: &str) -> (r: String)
    ensures
        r@ == model_name(model@),
{
    if has_colon(model) {
        text::owned(model)
    } else {
        text::concat(model, ":latest")
    }
}

/// The parts of a URL that decide whether it is a local origin.
#[derive(Debug)]
pub struct UrlParts {
    pub scheme: String,
    pub host: Option<String>,
    pub username: String,
    pub password: Option<String>,
    pub query: Option<String>,
    pub fragment: Option<String>,
    pub path: String,
}

pub type UrlPartsV = (Seq<char>, Option<Seq<char>>, Seq<char>, Option<Seq<char>>, Option<Seq<char>>, Option<Seq<char>>, Seq<char>);

pub open spec fn opt_seq(o: Option<String>) -> Option<Seq<char>> {
    match o {
        Some(s) => Some(s@),
        None => None,
    }
}

pub open spec fn parts_view(p: UrlParts) -> UrlPartsV {
    (p.scheme@, opt_seq(p.host), p.username@, opt_seq(p.password), opt_seq(p.query), opt_seq(p.fragment), p.path@)
}

/// What the WHATWG URL parser makes of a text: scheme, host, user name,
/// password, query, fragment and path, or nothing when it does not parse.
pub uninterp spec fn spec_url_parts(text: Seq<char>) -> Option<UrlPartsV>;

/// `url::Url::parse` (re-exported by reqwest), with the parts the local
/// origin rule reads.
#[verifier::external_body]
fn parse_url(text: &str) -> (r: Option<UrlParts>)
    ensures
        match r {
            Some(p) => spec_url_parts(text@) == Some(parts_view(p)),
            None => spec_url_parts(text@) is None,
        },
{
    match reqwest::Url::parse(text) {
        Ok(u) => Some(UrlParts {
            scheme: u.scheme().to_string(),
            host: u.host_str().map(str::to_string),
            username: u.username().to_string(),
            password: u.password().map(str::to_string),
            query: u.query().map(str::to_string),
            fragment: u.fragment().map(str::to_string),
            path: u.path().to_string(),
        }),
        Err(_) => None,
    }
}

/// The hosts a local embedding service may run on.
pub open spec fn local_host(h: Seq<char>) -> bool {
    h == "127.0.0.1"@ || h == "localhost"@ || h == "::1"@ || h == "[::1]"@ || h == "host.docker.internal"@
}

/// A local origin: http(s), a local host, no credentials, query or
/// fragment, and the root path.
pub open spec fn local_origin(p: UrlPartsV) -> bool {
    &&& (p.0 == "http"@ || p.0 == "https"@)
    &&& p.1 matches Some(h) && local_host(h)
    &&& p.2.len() == 0
    &&& p.3 is None
    &&& p.4 is None
    &&& p.5 is None
    &&& p.6 == "/"@
}

fn is_local(p: &UrlParts) -> (r: bool)
    ensures
        r == local_origin(parts_view(*p)),
{
    let scheme = text::str_eq(p.scheme.as_str(), "http") || text::str_eq(p.scheme.as_str(), "https");
    let host = match &p.host {
        Some(h) => text::str_eq(h.as_str(), "127.0.0.1") || text::str_eq(h.as_str(), "localhost") || text::str_eq(
            h.as_str(),
            "::1",
        ) || text::str_eq(h.as_str(), "[::1]") || text::str_eq(h.as_str(), "host.docker.internal"),
        None => false,
    };
    scheme && host && text::char_count(p.username.as_str()) == 0 && p.password.is_none() && p.query.is_none()
        && p.fragment.is_none() && text::str_eq(p.path.as_str(), "/")
}

/// Where and what to embed with: the service's base URL without trailing
/// slashes, and the installed model name.
#[derive(Debug)]
pub struct EmbeddingSettings {
    pub base: String,
    pub name: String,
}

/// Both settings are present and the URL is a local origin.
pub open spec fn settings_ok(url: Option<String>, model: Option<String>) -> bool {
    match (url, model) {
        (Some(u), Some(_)) => match spec_url_parts(u@) {
            Some(p) => local_origin(p),
            None => false,
        },
        _ => false,
    }
}

/// The embedding service a deployment configured: both settings present,
/// the URL a local origin.
pub fn embedding_settings(url: Option<String>, model: Option<String>) -> (r: Result<EmbeddingSettings, ApiError>)
    ensures
        r is Ok <==> settings_ok(url, model),
        r matches Ok(s) ==> s.base@ == crate::config::without_trailing_slashes(url.unwrap()@) && s.name@ == model_name(
            model.unwrap()@,
        ),
        r matches Err(e) ==> e.status == 503 && (e.code == "embedding_not_configured" || e.code == "embedding_not_local"),
        url is None ==> (r matches Err(e) && e.code == "embedding_not_configured"),
{
    let u = match url {
        Some(u) => u,
        None => {
            return Err(
                embedding_error(
                    "embedding_not_configured",
                    text::owned("Configure the local Ollama IDEA_DB_EMBEDDING_URL and IDEA_DB_EMBEDDING_MODEL before upload."),
                ),
            )
        },
    };
    let m = match model {
        Some(m) => m,
        None => return Err(embedding_error("embedding_not_configured", text::owned("IDEA_DB_EMBEDDING_MODEL is required."))),
    };
    let parts = match parse_url(u.as_str()) {
        Some(p) => p,
        None => return Err(embedding_error("embedding_not_configured", text::owned("Invalid embedding URL."))),
    };
    if !is_local(&parts) {
        return Err(
            embedding_error(
                "embedding_not_local",
                text::owned("Embedding URL must be a local Ollama origin without credentials, path, query or fragment."),
            ),
        );
    }
    Ok(EmbeddingSettings { base: crate::config::trim_slashes(u.as_str()), name: installed_name(m.as_str()) })
}

/// An entry of the service's model list is the named model.
pub open spec fn is_named(j: Json, name: Seq<char>) -> bool {
    match j {
        Json::Object(fs) => crate::staging::text_field(fs@, "name"@) == Some(name) || crate::staging::text_field(
            fs@,
            "model"@,
        ) == Some(name),
        _ => false,
    }
}

/// The first entry of `items` that is the named model.
pub open spec fn first_named(items: Seq<Json>, name: Seq<char>) -> Option<Json>
    decreases items.len(),
{
    if items.len() == 0 {
        None
    } else if is_named(items[0], name) {
        Some(items[0])
    } else {
        first_named(items.drop_first(), name)
    }
}

/// 64 hexadecimal digits.
pub open spec fn hex64(d: Seq<char>) -> bool {
    d.len() == 64 && forall|i: int| 0 <= i < 64 ==> crate::staging::is_hex(#[trigger] d[i])
}

/// The immutable digest the service reports for the named model: the first
/// entry of its `models` list with that name or model, when its digest is 64
/// hexadecimal digits.
pub open spec fn model_digest(tags: Json, name: Seq<char>) -> Option<Seq<char>> {
    match crate::staging::field_of(crate::staging::fields(tags), "models"@) {
        Some(Json::Array(items)) => match first_named(items@, name) {
            Some(Json::Object(fs)) => match crate::staging::text_field(fs@, "digest"@) {
                Some(d) => if hex64(d) {
                    Some(d)
                } else {
                    None
                },
                None => None,
            },
            _ => None,
        },
        _ => None,
    }
}

/// The embedding profile of a model: its name pinned by digest, and the body
/// format.
pub open spec fn profile_of(name: Seq<char>, digest: Seq<char>) -> Seq<char> {
    name + "@sha256:"@ + digest + format_suffix()
}

fn text_of<'a>(fs: &'a Vec<(String, Json)>, key: &str) -> (r: Option<&'a String>)
    ensures
        match r {
            Some(s) => crate::staging::text_field(fs@, key@) == Some(s@),
            None => crate::staging::text_field(fs@, key@) is None,
        },
{
    match crate::staging::get_field(fs, key) {
        Some(Json::Str(s)) => Some(s),
        _ => None,
    }
}

fn named(j: &Json, name: &str) -> (r: bool)
    ensures
        r == is_named(*j, name@),
{
    match j {
        Json::Object(fs) => {
            let a = match text_of(fs, "name") {
                Some(s) => text::str_eq(s.as_str(), name),
                None => false,
            };
            let b = match text_of(fs, "model") {
                Some(s) => text::str_eq(s.as_str(), name),
                None => false,
            };
            a || b
        },
        _ => false,
    }
}

fn is_hex64(d: &str) -> (r: bool)
    ensures
        r == hex64(d@),
{
    let cs = text::chars_of(d);
    if cs.len() != 64 {
        return false;
    }
    let mut i: usize = 0;
    while i < 64
        invariant
            0 <= i <= 64,
            cs@ == d@,
            cs@.len() == 64,
            forall|k: int| 0 <= k < i ==> crate::staging::is_hex(#[trigger] cs@[k]),
        decreases 64 - i,
    {
        let c = cs[i];
        if !(('0' <= c && c <= '9') || ('a' <= c && c <= 'f') || ('A' <= c && c <= 'F')) {
            return false;
        }
        i += 1;
    }
    true
}

/// The profile of the named model from the service's model list.
pub fn embedding_profile(tags: &Json, name: &str) -> (r: Result<String, ApiError>)
    ensures
        match model_digest(*tags, name@) {
            Some(d) => r matches Ok(p) && p@ == profile_of(name@, d),
            None => r matches Err(e) && e.code == "embedding_model_missing" && e.status == 503,
        },
{
    let missing = embedding_error(
        "embedding_model_missing",
        text::owned("Configured local embedding model is not installed or has no immutable digest."),
    );
    let fs = match tags {
        Json::Object(fs) => fs,
        _ => return Err(missing),
    };
    let items = match crate::staging::get_field(fs, "models") {
        Some(Json::Array(items)) => items,
        _ => return Err(missing),
    };
    let mut i: usize = 0;
    assert(items@.skip(0) == items@);
    while i < items.len()
        invariant
            0 <= i <= items@.len(),
            first_named(items@, name@) == first_named(items@.skip(i as int), name@),
            missing.code == "embedding_model_missing" && missing.status == 503,
            match crate::staging::field_of(crate::staging::fields(*tags), "models"@) {
                Some(Json::Array(x)) => x@ == items@,
                _ => false,
            },
        decreases items@.len() - i,
    {
        assert(items@.skip(i as int).drop_first() == items@.skip(i + 1));
        if named(&items[i], name) {
            assert(items@.skip(i as int)[0] == items@[i as int]);
            assert(first_named(items@, name@) == Some(items@[i as int]));
            let digest = match &items[i] {
                Json::Object(e) => match text_of(e, "digest") {
                    Some(d) => d,
                    None => return Err(missing),
                },
                _ => return Err(missing),
            };
            if !is_hex64(digest.as_str()) {
                return Err(missing);
            }
            let mut p = text::owned(name);
            text::push_str(&mut p, "@sha256:");
            text::push_str(&mut p, digest.as_str());
            text::push_str(&mut p, "/idea-body-v1");
            proof {
                reveal_strlit("/idea-body-v1");
                assert(format_suffix() == "/idea-body-v1"@);
            }
            return Ok(p);
        }
        i += 1;
    }
    Err(missing)
}

} // verus!
