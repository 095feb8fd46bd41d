//! The upload preview flow as a state machine. The caller performs each
//! action (reading the staged upload, looking up a receipt, counting pending
//! uploads, planning a replacement, running the dry run, embedding, staging)
//! and hands back what came of it; every decision is taken here.

use vstd::prelude::*;

use crate::error::ApiError;
use crate::ingest;
use crate::json::{copy_json, Json, JsonV};
use crate::limits;
use crate::mutation::{self, DryRun};
use crate::staging::{self, field_of};
use crate::text;
use crate::util;
use crate::validate::Package;

verus! {

/// Where a preview stands: what it waits for next.
#[derive(Clone, Copy, Debug, PartialEq, Eq, Structural)]
pub enum PreviewPhase {
    /// Nothing read yet.
    Start,
    /// Waiting for the staged upload under this request's id.
    AwaitStaged,
    /// Waiting to learn whether the idempotency key already has a receipt.
    AwaitReceipt,
    /// Waiting for the number of pending staged uploads.
    AwaitCapacity,
    /// Waiting for the package a replacement request plans.
    AwaitReplacement,
    /// Waiting for the package, parsed.
    AwaitPackage,
    /// Waiting for the dry run of the package as submitted.
    AwaitValidation,
    /// Waiting for the number of ideas the package asks to embed.
    AwaitIdeas,
    /// Waiting for the embedding of the next idea.
    AwaitEmbeddings,
    /// Waiting for the dry run of the package with its embeddings.
    AwaitRevalidation,
    /// Waiting for the staged packet to be stored.
    AwaitStaging,
    /// Answered or refused.
    Finished,
}

/// A preview in progress.
#[derive(Debug)]
pub struct PreviewState {
    pub phase: PreviewPhase,
    /// `upload_` and the digest of the raw request.
    pub upload_id: String,
    /// Digest of the raw request, as submitted.
    pub raw_digest: String,
    /// The idempotency key the request names, if any.
    pub key: Option<String>,
    pub has_package: bool,
    pub has_replacement: bool,
    /// Ideas to embed, and how many are embedded.
    pub ideas: usize,
    pub embedded: usize,
    /// The dimension of the batch's first vector.
    pub dimension: Option<usize>,
    /// Canonical size of the package, for the staged size estimate.
    pub package_bytes: usize,
}

/// What came of the last action.
#[derive(Debug)]
pub enum PreviewEvent {
    /// The request: its canonical size, digest, idempotency key, and which
    /// of `package` and `replacement` it holds.
    Begin { canonical_len: usize, raw_digest: String, key: Option<String>, has_package: bool, has_replacement: bool },
    /// The staged upload: its raw request digest and summary, when present.
    StagedFound(Option<(String, Json)>),
    /// Whether the idempotency key already has a receipt.
    ReceiptFound(bool),
    /// Pending staged uploads.
    PendingCount(i64),
    /// The replacement was planned into a package.
    ReplacementReady,
    /// The package to preview.
    PackageParsed(Package),
    /// The dry run of the package as submitted.
    Validated(DryRun),
    /// The ideas to embed: the records stored, the package's records, its
    /// ideas, and the package's canonical size.
    IdeasFound { stored: usize, records: usize, ideas: usize, package_bytes: usize },
    /// The next idea is embedded with a vector of `dim` values; its embedding
    /// record and suggestions are attached.
    Embedded { dim: usize },
    /// The dry run of the package with its embeddings.
    Revalidated(DryRun),
    /// The staged packet's summary, as stored.
    Stored(Json),
    /// An action failed.
    Failed(ApiError),
}

/// What to do next.
#[derive(Debug)]
pub enum PreviewAction {
    LoadStaged(String),
    FindReceipt(String),
    CountPending,
    PrepareReplacement,
    ParsePackage,
    Validate,
    CountIdeas,
    Embed,
    Revalidate,
    Stage,
    /// Answer with this summary.
    Answer(Json),
    /// Refuse the preview.
    Refuse(ApiError),
}

/// An action as a value: the ids it names, the summary it answers with, or
/// the code it refuses with.
pub enum ActionV {
    LoadStaged(Seq<char>),
    FindReceipt(Seq<char>),
    CountPending,
    PrepareReplacement,
    ParsePackage,
    Validate,
    CountIdeas,
    Embed,
    Revalidate,
    Stage,
    Answer(JsonV),
    Refuse(&'static str, u16),
}

pub open spec fn action_v(a: PreviewAction) -> ActionV {
    match a {
        PreviewAction::LoadStaged(s) => ActionV::LoadStaged(s@),
        PreviewAction::FindReceipt(s) => ActionV::FindReceipt(s@),
        PreviewAction::CountPending => ActionV::CountPending,
        PreviewAction::PrepareReplacement => ActionV::PrepareReplacement,
        PreviewAction::ParsePackage => ActionV::ParsePackage,
        PreviewAction::Validate => ActionV::Validate,
        PreviewAction::CountIdeas => ActionV::CountIdeas,
        PreviewAction::Embed => ActionV::Embed,
        PreviewAction::Revalidate => ActionV::Revalidate,
        PreviewAction::Stage => ActionV::Stage,
        PreviewAction::Answer(j) => ActionV::Answer(j.deep()),
        PreviewAction::Refuse(e) => ActionV::Refuse(e.code, e.status),
    }
}

/// A state as a value.
pub type StateV = (PreviewPhase, Seq<char>, Seq<char>, Option<Seq<char>>, bool, bool, EmbedV);

/// Embedding progress as a value: ideas, embedded, first dimension, package
/// size.
pub type EmbedV = (nat, nat, Option<nat>, nat);

pub open spec fn opt_nat(o: Option<usize>) -> Option<nat> {
    match o {
        Some(n) => Some(n as nat),
        None => None,
    }
}

pub open spec fn opt_text(o: Option<String>) -> Option<Seq<char>> {
    match o {
        Some(s) => Some(s@),
        None => None,
    }
}

pub open spec fn state_v(s: PreviewState) -> StateV {
    (
        s.phase,
        s.upload_id@,
        s.raw_digest@,
        opt_text(s.key),
        s.has_package,
        s.has_replacement,
        (s.ideas as nat, s.embedded as nat, opt_nat(s.dimension), s.package_bytes as nat),
    )
}

pub open spec fn finish(s: StateV) -> StateV {
    (PreviewPhase::Finished, s.1, s.2, s.3, s.4, s.5, s.6)
}

pub open spec fn goto(s: StateV, p: PreviewPhase) -> StateV {
    (p, s.1, s.2, s.3, s.4, s.5, s.6)
}

pub open spec fn embedding(s: StateV, p: PreviewPhase, e: EmbedV) -> StateV {
    (p, s.1, s.2, s.3, s.4, s.5, e)
}

/// The status a dry run that cannot be staged is refused with.
pub open spec fn dry_status(d: DryRun) -> u16 {
    if ingest::has_code_in(d.errors@, "head_conflict") {
        409
    } else {
        422
    }
}

/// The code a dry run that cannot be staged is refused with.
pub open spec fn dry_refusal(d: DryRun) -> &'static str {
    if ingest::has_code_in(d.errors@, "head_conflict") {
        "head_conflict"
    } else {
        "validation_failed"
    }
}

/// One step of the preview. In order: a request over 2 MiB is refused; an
/// exact retry of a staged request answers with the staged summary, and a
/// different request under the same id is an idempotency conflict; a key that
/// already has a receipt is a conflict; staging capacity is checked; exactly
/// one of `package` and `replacement` must be given (a replacement is planned
/// into a package first); a package that writes nothing or brings its own
/// embeddings is refused; the package must pass the dry run before any
/// embedding; its ideas must still fit the package and the namespace once
/// embedded; every vector has the dimension of the first, and the first keeps
/// the estimated staged size within 2 MiB; the package must pass the dry run
/// again with its embeddings before it is staged; the stored
/// summary is the answer. A failed action is the answer's refusal, and an
/// event the phase does not wait for is refused as a storage fault.
pub open spec fn spec_preview_step(s: StateV, ev: PreviewEvent) -> (StateV, ActionV) {
    match (s.0, ev) {
        (_, PreviewEvent::Failed(e)) => (finish(s), ActionV::Refuse(e.code, e.status)),
        (PreviewPhase::Start, PreviewEvent::Begin { canonical_len, raw_digest, key, has_package, has_replacement }) =>
            if canonical_len > limits::MAX_BODY_BYTES {
            (
                (PreviewPhase::Finished, s.1, raw_digest@, opt_text(key), has_package, has_replacement, s.6),
                ActionV::Refuse("bad_request", 400),
            )
        } else {
            let id = util::spec_derived_id("upload"@, raw_digest@);
            (
                (PreviewPhase::AwaitStaged, id, raw_digest@, opt_text(key), has_package, has_replacement, s.6),
                ActionV::LoadStaged(id),
            )
        },
        (PreviewPhase::AwaitStaged, PreviewEvent::StagedFound(found)) => match found {
            Some((d, summary)) => if d@ == s.2 {
                (finish(s), ActionV::Answer(summary.deep()))
            } else {
                (finish(s), ActionV::Refuse("idempotency_conflict", 409))
            },
            None => match s.3 {
                Some(k) => (goto(s, PreviewPhase::AwaitReceipt), ActionV::FindReceipt(k)),
                None => (goto(s, PreviewPhase::AwaitCapacity), ActionV::CountPending),
            },
        },
        (PreviewPhase::AwaitReceipt, PreviewEvent::ReceiptFound(found)) => if found {
            (finish(s), ActionV::Refuse("idempotency_conflict", 409))
        } else {
            (goto(s, PreviewPhase::AwaitCapacity), ActionV::CountPending)
        },
        (PreviewPhase::AwaitCapacity, PreviewEvent::PendingCount(n)) => if n >= staging::MAX_STAGING_ENTRIES {
            (finish(s), ActionV::Refuse("validation_failed", 422))
        } else if s.4 && !s.5 {
            (goto(s, PreviewPhase::AwaitPackage), ActionV::ParsePackage)
        } else if !s.4 && s.5 {
            (goto(s, PreviewPhase::AwaitReplacement), ActionV::PrepareReplacement)
        } else {
            (finish(s), ActionV::Refuse("bad_request", 400))
        },
        (PreviewPhase::AwaitReplacement, PreviewEvent::ReplacementReady) => (
            goto(s, PreviewPhase::AwaitPackage),
            ActionV::ParsePackage,
        ),
        (PreviewPhase::AwaitPackage, PreviewEvent::PackageParsed(pkg)) => if mutation::is_noop(&pkg) || !(
        forall|i: int| 0 <= i < pkg.records@.len() ==> (#[trigger] pkg.records@[i]).kind
            != crate::model::RecordKind::Embedding) {
            (finish(s), ActionV::Refuse("validation_failed", 422))
        } else {
            (goto(s, PreviewPhase::AwaitValidation), ActionV::Validate)
        },
        (PreviewPhase::AwaitValidation, PreviewEvent::Validated(d)) => if d.valid {
            (goto(s, PreviewPhase::AwaitIdeas), ActionV::CountIdeas)
        } else {
            (finish(s), ActionV::Refuse(dry_refusal(d), dry_status(d)))
        },
        (PreviewPhase::AwaitIdeas, PreviewEvent::IdeasFound { stored, records, ideas, package_bytes }) => if !(
        records + ideas <= limits::MAX_PACKAGE_RECORDS && stored + records + ideas + 2
            <= limits::MAX_PREFETCH_RECORDS) {
            (finish(s), ActionV::Refuse("validation_failed", 422))
        } else if ideas == 0 {
            (
                embedding(s, PreviewPhase::AwaitRevalidation, (0, 0, None, package_bytes as nat)),
                ActionV::Revalidate,
            )
        } else {
            (
                embedding(s, PreviewPhase::AwaitEmbeddings, (ideas as nat, 0, None, package_bytes as nat)),
                ActionV::Embed,
            )
        },
        (PreviewPhase::AwaitEmbeddings, PreviewEvent::Embedded { dim }) => {
            let e = s.6;
            if e.2 matches Some(d) && d != dim {
                (finish(s), ActionV::Refuse("embedding_dimension_changed", 503))
            } else if e.2 is None && ingest::staged_estimate(e.3 as int, e.0 as int, dim as int)
                > limits::MAX_BODY_BYTES {
                (finish(s), ActionV::Refuse("validation_failed", 422))
            } else if e.1 + 1 < e.0 {
                (embedding(s, PreviewPhase::AwaitEmbeddings, (e.0, e.1 + 1, Some(dim as nat), e.3)), ActionV::Embed)
            } else {
                (embedding(s, PreviewPhase::AwaitRevalidation, (e.0, e.0, Some(dim as nat), e.3)), ActionV::Revalidate)
            }
        },
        (PreviewPhase::AwaitRevalidation, PreviewEvent::Revalidated(d)) => if d.valid {
            (goto(s, PreviewPhase::AwaitStaging), ActionV::Stage)
        } else {
            (finish(s), ActionV::Refuse(dry_refusal(d), dry_status(d)))
        },
        (PreviewPhase::AwaitStaging, PreviewEvent::Stored(summary)) => (
            finish(s),
            ActionV::Answer(summary.deep()),
        ),
        _ => (finish(s), ActionV::Refuse("storage_error", 502)),
    }
}

fn finished(st: &PreviewState) -> (r: PreviewState)
    ensures
        state_v(r) == finish(state_v(*st)),
{
    PreviewState {
        phase: PreviewPhase::Finished,
        upload_id: st.upload_id.clone(),
        raw_digest: st.raw_digest.clone(),
        key: st.key.clone(),
        has_package: st.has_package,
        has_replacement: st.has_replacement,
        ideas: st.ideas,
        embedded: st.embedded,
        dimension: st.dimension,
        package_bytes: st.package_bytes,
    }
}

fn moved(st: &PreviewState, phase: PreviewPhase) -> (r: PreviewState)
    ensures
        state_v(r) == goto(state_v(*st), phase),
{
    PreviewState {
        phase,
        upload_id: st.upload_id.clone(),
        raw_digest: st.raw_digest.clone(),
        key: st.key.clone(),
        has_package: st.has_package,
        has_replacement: st.has_replacement,
        ideas: st.ideas,
        embedded: st.embedded,
        dimension: st.dimension,
        package_bytes: st.package_bytes,
    }
}

fn progressed(st: &PreviewState, phase: PreviewPhase, ideas: usize, embedded: usize, dimension: Option<usize>, package_bytes: usize) -> (r: PreviewState)
    ensures
        state_v(r) == embedding(
            state_v(*st),
            phase,
            (ideas as nat, embedded as nat, opt_nat(dimension), package_bytes as nat),
        ),
{
    PreviewState {
        phase,
        upload_id: st.upload_id.clone(),
        raw_digest: st.raw_digest.clone(),
        key: st.key.clone(),
        has_package: st.has_package,
        has_replacement: st.has_replacement,
        ideas,
        embedded,
        dimension,
        package_bytes,
    }
}

fn dry_verdict(d: DryRun) -> (r: Result<(), ApiError>)
    ensures
        r is Ok <==> d.valid,
        r matches Err(e) ==> e.code == dry_refusal(d) && e.status == dry_status(d),
{
    let ghost dv = d;
    match ingest::require_valid(d) {
        Ok(_) => Ok(()),
        Err(e) => {
            assert(!dv.valid);
            Err(e)
        },
    }
}

/// A preview before anything is read.
pub fn preview_start() -> (r: PreviewState)
    ensures
        r.phase == PreviewPhase::Start,
{
    PreviewState {
        phase: PreviewPhase::Start,
        upload_id: String::new(),
        raw_digest: String::new(),
        key: None,
        has_package: false,
        has_replacement: false,
        ideas: 0,
        embedded: 0,
        dimension: None,
        package_bytes: 0,
    }
}

/// Take one step of the preview: the next state, and the action to perform.
pub fn preview_step(st: &PreviewState, ev: PreviewEvent) -> (r: (PreviewState, PreviewAction))
    ensures
        (state_v(r.0), action_v(r.1)) == spec_preview_step(state_v(*st), ev),
{
    match ev {
        PreviewEvent::Failed(e) => (finished(st), PreviewAction::Refuse(e)),
        PreviewEvent::Begin { canonical_len, raw_digest, key, has_package, has_replacement } => {
            if st.phase != PreviewPhase::Start {
                return (finished(st), PreviewAction::Refuse(ApiError::storage(text::owned("preview step out of order"))));
            }
            if canonical_len > limits::MAX_BODY_BYTES {
                let next = PreviewState {
                    phase: PreviewPhase::Finished,
                    upload_id: st.upload_id.clone(),
                    raw_digest,
                    key,
                    has_package,
                    has_replacement,
                    ideas: st.ideas,
                    embedded: st.embedded,
                    dimension: st.dimension,
                    package_bytes: st.package_bytes,
                };
                return (next, PreviewAction::Refuse(ApiError::bad_request(text::owned("Upload input exceeds 2 MiB."))));
            }
            let id = util::derived_id("upload", raw_digest.as_str());
            let next = PreviewState {
                phase: PreviewPhase::AwaitStaged,
                upload_id: id.clone(),
                raw_digest,
                key,
                has_package,
                has_replacement,
                ideas: st.ideas,
                embedded: st.embedded,
                dimension: st.dimension,
                package_bytes: st.package_bytes,
            };
            (next, PreviewAction::LoadStaged(id))
        },
        PreviewEvent::StagedFound(found) => {
            if st.phase != PreviewPhase::AwaitStaged {
                return (finished(st), PreviewAction::Refuse(ApiError::storage(text::owned("preview step out of order"))));
            }
            match found {
                Some((d, summary)) => {
                    if text::str_eq(d.as_str(), st.raw_digest.as_str()) {
                        (finished(st), PreviewAction::Answer(summary))
                    } else {
                        (finished(st), PreviewAction::Refuse(ApiError::idempotency_conflict(st.upload_id.as_str())))
                    }
                },
                None => match &st.key {
                    Some(k) => (moved(st, PreviewPhase::AwaitReceipt), PreviewAction::FindReceipt(k.clone())),
                    None => (moved(st, PreviewPhase::AwaitCapacity), PreviewAction::CountPending),
                },
            }
        },
        PreviewEvent::ReceiptFound(found) => {
            if st.phase != PreviewPhase::AwaitReceipt {
                return (finished(st), PreviewAction::Refuse(ApiError::storage(text::owned("preview step out of order"))));
            }
            if found {
                let k = match &st.key {
                    Some(k) => k.as_str(),
                    None => "",
                };
                (finished(st), PreviewAction::Refuse(ApiError::idempotency_conflict(k)))
            } else {
                (moved(st, PreviewPhase::AwaitCapacity), PreviewAction::CountPending)
            }
        },
        PreviewEvent::PendingCount(n) => {
            if st.phase != PreviewPhase::AwaitCapacity {
                return (finished(st), PreviewAction::Refuse(ApiError::storage(text::owned("preview step out of order"))));
            }
            match staging::check_staging_capacity(n) {
                Err(e) => (finished(st), PreviewAction::Refuse(e)),
                Ok(()) => {
                    if st.has_package && !st.has_replacement {
                        (moved(st, PreviewPhase::AwaitPackage), PreviewAction::ParsePackage)
                    } else if !st.has_package && st.has_replacement {
                        (moved(st, PreviewPhase::AwaitReplacement), PreviewAction::PrepareReplacement)
                    } else {
                        (
                            finished(st),
                            PreviewAction::Refuse(
                                ApiError::bad_request(text::owned("Provide exactly one of package or replacement.")),
                            ),
                        )
                    }
                },
            }
        },
        PreviewEvent::ReplacementReady => {
            if st.phase != PreviewPhase::AwaitReplacement {
                return (finished(st), PreviewAction::Refuse(ApiError::storage(text::owned("preview step out of order"))));
            }
            (moved(st, PreviewPhase::AwaitPackage), PreviewAction::ParsePackage)
        },
        PreviewEvent::PackageParsed(pkg) => {
            if st.phase != PreviewPhase::AwaitPackage {
                return (finished(st), PreviewAction::Refuse(ApiError::storage(text::owned("preview step out of order"))));
            }
            match mutation::check_not_noop(&pkg) {
                Err(e) => return (finished(st), PreviewAction::Refuse(e)),
                Ok(()) => {},
            }
            match ingest::check_no_client_embeddings(&pkg) {
                Err(e) => (finished(st), PreviewAction::Refuse(e)),
                Ok(()) => (moved(st, PreviewPhase::AwaitValidation), PreviewAction::Validate),
            }
        },
        PreviewEvent::Validated(d) => {
            if st.phase != PreviewPhase::AwaitValidation {
                return (finished(st), PreviewAction::Refuse(ApiError::storage(text::owned("preview step out of order"))));
            }
            match dry_verdict(d) {
                Err(e) => (finished(st), PreviewAction::Refuse(e)),
                Ok(()) => (moved(st, PreviewPhase::AwaitIdeas), PreviewAction::CountIdeas),
            }
        },
        PreviewEvent::IdeasFound { stored, records, ideas, package_bytes } => {
            if st.phase != PreviewPhase::AwaitIdeas {
                return (finished(st), PreviewAction::Refuse(ApiError::storage(text::owned("preview step out of order"))));
            }
            match ingest::check_preview_capacity(stored, records, ideas) {
                Err(e) => return (finished(st), PreviewAction::Refuse(e)),
                Ok(()) => {},
            }
            if ideas == 0 {
                (progressed(st, PreviewPhase::AwaitRevalidation, 0, 0, None, package_bytes), PreviewAction::Revalidate)
            } else {
                (progressed(st, PreviewPhase::AwaitEmbeddings, ideas, 0, None, package_bytes), PreviewAction::Embed)
            }
        },
        PreviewEvent::Embedded { dim } => {
            if st.phase != PreviewPhase::AwaitEmbeddings {
                return (finished(st), PreviewAction::Refuse(ApiError::storage(text::owned("preview step out of order"))));
            }
            match ingest::check_dimension(st.dimension, dim) {
                Err(e) => return (finished(st), PreviewAction::Refuse(e)),
                Ok(_) => {},
            }
            if st.dimension.is_none() {
                match ingest::check_staging_estimate(st.package_bytes, st.ideas, dim) {
                    Err(e) => return (finished(st), PreviewAction::Refuse(e)),
                    Ok(()) => {},
                }
            }
            if st.embedded < st.ideas && st.ideas - st.embedded > 1 {
                (
                    progressed(st, PreviewPhase::AwaitEmbeddings, st.ideas, st.embedded + 1, Some(dim), st.package_bytes),
                    PreviewAction::Embed,
                )
            } else {
                (
                    progressed(st, PreviewPhase::AwaitRevalidation, st.ideas, st.ideas, Some(dim), st.package_bytes),
                    PreviewAction::Revalidate,
                )
            }
        },
        PreviewEvent::Revalidated(d) => {
            if st.phase != PreviewPhase::AwaitRevalidation {
                return (finished(st), PreviewAction::Refuse(ApiError::storage(text::owned("preview step out of order"))));
            }
            match dry_verdict(d) {
                Err(e) => (finished(st), PreviewAction::Refuse(e)),
                Ok(()) => (moved(st, PreviewPhase::AwaitStaging), PreviewAction::Stage),
            }
        },
        PreviewEvent::Stored(summary) => {
            if st.phase != PreviewPhase::AwaitStaging {
                return (finished(st), PreviewAction::Refuse(ApiError::storage(text::owned("preview step out of order"))));
            }
            (finished(st), PreviewAction::Answer(summary))
        },
    }
}

/// A record, as JSON, is an embedding when it is an object whose first
/// `kind` field is the text `embedding`.
pub open spec fn is_embedding_record(r: Json) -> bool {
    match r {
        Json::Object(fs) => match field_of(fs@, "kind"@) {
            Some(Json::Str(k)) => k@ == "embedding"@,
            _ => false,
        },
        _ => false,
    }
}

/// The records a person reads before applying: every record but the
/// embeddings, in order.
pub open spec fn review_of(rs: Seq<Json>) -> Seq<JsonV>
    decreases rs.len(),
{
    if rs.len() == 0 {
        Seq::empty()
    } else {
        let rest = review_of(rs.drop_last());
        if is_embedding_record(rs.last()) {
            rest
        } else {
            rest.push(rs.last().deep())
        }
    }
}

pub open spec fn deeps(s: Seq<Json>) -> Seq<JsonV> {
    Seq::new(s.len(), |i: int| s[i].deep())
}

/// The summary a preview answers with and stages: the upload handle, the
/// digest of the prepared package, its dry run, the embedding profile and the
/// suggestions per Idea, the replacement plan, how many records the package
/// holds and those of them a person must read. Nothing is merged
/// automatically: semantic atomicity is the client's review.
pub open spec fn spec_preview_summary(
    upload_id: Seq<char>,
    prepared_digest: Seq<char>,
    validation: JsonV,
    profile: JsonV,
    mappings: Seq<JsonV>,
    replacement: JsonV,
    records: Seq<Json>,
) -> JsonV {
    JsonV::Object(
        seq![
            ("automatically_merged"@, JsonV::Bool(false)),
            ("embedding_profile"@, profile),
            ("mappings"@, JsonV::Array(mappings)),
            ("prepared_digest"@, JsonV::Str(prepared_digest)),
            ("records"@, JsonV::Number(text::spec_int_text(records.len() as int))),
            ("replacement_result"@, replacement),
            ("review_records"@, JsonV::Array(review_of(records))),
            ("semantic_atomicity"@, JsonV::Str("client_review_required"@)),
            ("upload_id"@, JsonV::Str(upload_id)),
            ("validation"@, validation),
        ],
    )
}

fn is_embedding_json(r: &Json) -> (b: bool)
    ensures
        b == is_embedding_record(*r),
{
    match r {
        Json::Object(fs) => match staging::get_field(fs, "kind") {
            Some(Json::Str(k)) => text::str_eq(k.as_str(), "embedding"),
            _ => false,
        },
        _ => false,
    }
}

proof fn lemma_array_deep(items: Vec<Json>)
    ensures
        Json::Array(items).deep() == JsonV::Array(deeps(items@)),
{
    if let JsonV::Array(a) = Json::Array(items).deep() {
        assert(a =~= deeps(items@));
    }
}

/// The summary of a prepared upload (see [`spec_preview_summary`]).
pub fn preview_summary(
    upload_id: &str,
    prepared_digest: &str,
    validation: Json,
    profile: Json,
    mappings: Vec<Json>,
    replacement: Json,
    records: &Vec<Json>,
) -> (r: Json)
    ensures
        r.deep() == spec_preview_summary(
            upload_id@,
            prepared_digest@,
            validation.deep(),
            profile.deep(),
            deeps(mappings@),
            replacement.deep(),
            records@,
        ),
{
    let mut review: Vec<Json> = Vec::new();
    let mut i: usize = 0;
    while i < records.len()
        invariant
            0 <= i <= records@.len(),
            deeps(review@) == review_of(records@.take(i as int)),
        decreases records@.len() - i,
    {
        let keep = !is_embedding_json(&records[i]);
        let ghost before = review@;
        if keep {
            review.push(copy_json(&records[i]));
            assert(deeps(review@) =~= deeps(before).push(records@[i as int].deep()));
        }
        assert(records@.take(i + 1).drop_last() =~= records@.take(i as int));
        i += 1;
    }
    assert(records@.take(records@.len() as int) =~= records@);
    let ghost mv = mappings@;
    let mut fs: Vec<(String, Json)> = Vec::new();
    fs.push((text::owned("automatically_merged"), Json::Bool(false)));
    fs.push((text::owned("embedding_profile"), profile));
    fs.push((text::owned("mappings"), Json::Array(mappings)));
    fs.push((text::owned("prepared_digest"), Json::Str(text::owned(prepared_digest))));
    fs.push((text::owned("records"), Json::Number(text::usize_text(records.len()))));
    fs.push((text::owned("replacement_result"), replacement));
    fs.push((text::owned("review_records"), Json::Array(review)));
    fs.push((text::owned("semantic_atomicity"), Json::Str(text::owned("client_review_required"))));
    fs.push((text::owned("upload_id"), Json::Str(text::owned(upload_id))));
    fs.push((text::owned("validation"), validation));
    let ghost spec_r = spec_preview_summary(
        upload_id@,
        prepared_digest@,
        validation.deep(),
        profile.deep(),
        deeps(mv),
        replacement.deep(),
        records@,
    );
    proof {
        lemma_array_deep(review);
        lemma_array_deep(mappings);
        assert(fs@.len() == 10);
        assert forall|k: int| 0 <= k < 10 implies (#[trigger] fs@[k]).0@ == spec_r->Object_0[k].0
            && fs@[k].1.deep() == spec_r->Object_0[k].1 by {
        }
    }
    let r = Json::Object(fs);
    proof {
        if let JsonV::Object(a) = r.deep() {
            assert(a =~= spec_r->Object_0);
        }
    }
    r
}

} // verus!
