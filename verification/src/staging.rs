//! Checks on prepared upload packets. A staged upload is an operational
//! packet, not a domain record: these functions decide whether one may be
//! stored, and storage itself stays with the caller.

use vstd::prelude::*;
use vstd::string::StringSliceAdditionalSpecFns;

use crate::error::ApiError;
use crate::json::{self, Json, JsonV};
use crate::limits;
use crate::model::{id_format, is_valid_id};
use crate::text;
use crate::util;

verus! {

/// How many pending uploads may be staged at once.
pub const MAX_STAGING_ENTRIES: usize = 256;

/// A server-derived upload id: `upload_` and a valid record id.
pub fn validate_upload_id(upload_id: &str) -> (r: Result<(), ApiError>)
    ensures
        r is Ok <==> (upload_id@.len() >= 7 && upload_id@.take(7) == "upload_"@ && id_format(upload_id.spec_bytes())),
        r matches Err(e) ==> e.code == "bad_request",
{
    if text::starts_with(upload_id, "upload_") && is_valid_id(upload_id) {
        proof {
            reveal_strlit("upload_");
        }
        Ok(())
    } else {
        proof {
            reveal_strlit("upload_");
        }
        Err(ApiError::bad_request(text::owned("upload_id must be a valid server-derived upload_* id")))
    }
}

/// The first field of an object named `key`.
pub open spec fn field_of(fs: Seq<(String, Json)>, key: Seq<char>) -> Option<Json>
    decreases fs.len(),
{
    if fs.len() == 0 {
        None
    } else if fs[0].0@ == key {
        Some(fs[0].1)
    } else {
        field_of(fs.drop_first(), key)
    }
}

/// The field `key` of an object.
pub fn get_field<'a>(fs: &'a Vec<(String, Json)>, key: &str) -> (r: Option<&'a Json>)
    ensures
        match r {
            Some(v) => field_of(fs@, key@) == Some(*v),
            None => field_of(fs@, key@) is None,
        },
{
    let mut i: usize = 0;
    assert(fs@.skip(0) == fs@);
    while i < fs.len()
        invariant
            0 <= i <= fs@.len(),
            field_of(fs@, key@) == field_of(fs@.skip(i as int), key@),
        decreases fs@.len() - i,
    {
        assert(fs@.skip(i as int).drop_first() == fs@.skip(i + 1));
        if text::str_eq(fs[i].0.as_str(), key) {
            return Some(&fs[i].1);
        }
        i += 1;
    }
    None
}

pub open spec fn is_hex(c: char) -> bool {
    ('0' <= c <= '9') || ('a' <= c <= 'f') || ('A' <= c <= 'F')
}

/// `sha256:` and 64 hexadecimal digits.
pub open spec fn digest_form(s: Seq<char>) -> bool {
    &&& s.len() == 71
    &&& s.take(7) == "sha256:"@
    &&& forall|i: int| 7 <= i < 71 ==> is_hex(#[trigger] s[i])
}

pub open spec fn lower_char(c: char) -> char {
    if 'A' <= c <= 'Z' {
        ((c as int) + 32) as char
    } else {
        c
    }
}

/// ASCII lower case.
pub open spec fn ascii_lower(s: Seq<char>) -> Seq<char> {
    s.map_values(|c: char| lower_char(c))
}

fn lower_ascii(s: &str) -> (r: String)
    ensures
        r@ == ascii_lower(s@),
{
    let cs = text::chars_of(s);
    let mut r = String::new();
    let mut i: usize = 0;
    while i < cs.len()
        invariant
            0 <= i <= cs@.len(),
            cs@ == s@,
            r@ == ascii_lower(s@).take(i as int),
        decreases cs@.len() - i,
    {
        let c = cs[i];
        let l = if 'A' <= c && c <= 'Z' {
            ((c as u32) + 32) as u8 as char
        } else {
            c
        };
        assert(l == lower_char(c)) by {
            if 'A' <= c && c <= 'Z' {
                assert((c as u32) + 32 < 128);
            }
        }
        text::push_char(&mut r, l);
        assert(ascii_lower(s@).take(i + 1) =~= ascii_lower(s@).take(i as int).push(l));
        i += 1;
    }
    assert(ascii_lower(s@).take(cs@.len() as int) =~= ascii_lower(s@));
    r
}

/// A digest field: present as text of the form `sha256:<64 hex>`, returned in
/// lower case.
pub fn digest_field(value: Option<&Json>, field: &str) -> (r: Result<String, ApiError>)
    ensures
        match value {
            Some(Json::Str(s)) => if digest_form(s@) {
                r matches Ok(d) && d@ == ascii_lower(s@)
            } else {
                r matches Err(e) && e.code == "validation_failed" && e.issues@[0].is(field@, "invalid_digest")
            },
            _ => r matches Err(e) && e.code == "validation_failed" && e.issues@[0].is(field@, "required"),
        },
{
    let s = match value {
        Some(Json::Str(s)) => s,
        _ => {
            let mut m = text::owned(field);
            text::push_str(&mut m, " is required");
            return Err(ApiError::issue(text::owned(field), "required", m));
        },
    };
    let cs = text::chars_of(s.as_str());
    let mut ok = cs.len() == 71 && text::starts_with(s.as_str(), "sha256:");
    proof {
        reveal_strlit("sha256:");
    }
    let mut i: usize = 7;
    if ok {
        while i < 71
            invariant
                7 <= i <= 71,
                cs@ == s@,
                cs@.len() == 71,
                ok == forall|k: int| 7 <= k < i ==> is_hex(#[trigger] s@[k]),
            decreases 71 - i,
        {
            let c = cs[i];
            if !(('0' <= c && c <= '9') || ('a' <= c && c <= 'f') || ('A' <= c && c <= 'F')) {
                ok = false;
                assert(!is_hex(s@[i as int]));
            }
            i += 1;
        }
    }
    if !ok {
        let mut m = text::owned(field);
        text::push_str(&mut m, " must be sha256:<64 hex>");
        return Err(ApiError::issue(text::owned(field), "invalid_digest", m));
    }
    Ok(lower_ascii(s.as_str()))
}

/// A canonical packet may be at most 2 MiB.
fn check_size(canonical: &String) -> (r: Result<(), ApiError>)
    ensures
        r is Ok <==> vstd::utf8::encode_utf8(canonical@).len() <= limits::MAX_BODY_BYTES,
        r matches Err(e) ==> e.code == "validation_failed" && e.issues@.len() == 1 && e.issues@[0].is(
            "document"@,
            "limit_exceeded",
        ),
{
    let n = canonical.as_str().as_bytes().len();
    if n > limits::MAX_BODY_BYTES {
        let mut m = text::owned("staging packet is ");
        let t = text::usize_text(n);
        text::push_str(&mut m, t.as_str());
        text::push_str(&mut m, " bytes; maximum is ");
        let x = text::usize_text(limits::MAX_BODY_BYTES);
        text::push_str(&mut m, x.as_str());
        return Err(ApiError::issue(text::owned("document"), "limit_exceeded", m));
    }
    Ok(())
}


/// What a valid staging packet yields for storage.
#[derive(Debug)]
pub struct StagedPacket {
    pub raw_digest: String,
    pub created_at: String,
    pub canonical: String,
}

/// The fields of an object value, if it is one.
pub open spec fn fields(doc: Json) -> Seq<(String, Json)> {
    match doc {
        Json::Object(fs) => fs@,
        _ => Seq::empty(),
    }
}

pub open spec fn text_field(fs: Seq<(String, Json)>, key: Seq<char>) -> Option<Seq<char>> {
    match field_of(fs, key) {
        Some(Json::Str(s)) => Some(s@),
        _ => None,
    }
}

/// A staging packet that may be stored: both digests well formed, the
/// package present and digest-equal to the prepared digest, a summary, an
/// RFC 3339 creation time, and at most 2 MiB of canonical text.
pub open spec fn packet_ok(doc: Json) -> bool {
    let fs = fields(doc);
    &&& doc is Object
    &&& text_field(fs, "raw_request_digest"@) matches Some(d) && digest_form(d)
    &&& text_field(fs, "prepared_digest"@) matches Some(d) && digest_form(d)
    &&& field_of(fs, "package"@) matches Some(pk) && !(pk is Null) && ascii_lower(
        text_field(fs, "prepared_digest"@).unwrap(),
    ) == util::spec_digest_text(json::canon(pk.deep()))
    &&& field_of(fs, "summary"@) matches Some(sm) && !(sm is Null)
    &&& text_field(fs, "created_at"@) matches Some(t) && util::spec_rfc3339_utc(t) is Some
    &&& vstd::utf8::encode_utf8(json::canon(doc.deep())).len() <= limits::MAX_BODY_BYTES
}

fn not_object() -> (e: ApiError)
    ensures
        e.code == "validation_failed",
        e.issues@.len() == 1,
        e.issues@[0].is("document"@, "invalid_type"),
{
    ApiError::issue(text::owned("document"), "invalid_type", text::owned("staging document must be an object"))
}

/// Check a packet before it is stored.
pub fn validate_document(doc: &Json) -> (r: Result<StagedPacket, ApiError>)
    ensures
        r is Ok <==> packet_ok(*doc),
        r matches Ok(p) ==> {
            &&& p.raw_digest@ == ascii_lower(text_field(fields(*doc), "raw_request_digest"@).unwrap())
            &&& p.created_at@ == text_field(fields(*doc), "created_at"@).unwrap()
            &&& p.canonical@ == json::canon(doc.deep())
        },
        !(doc is Object) ==> (r matches Err(e) && e.issues@[0].is("document"@, "invalid_type")),
        r matches Err(e) ==> e.code == "validation_failed" || e.code == "digest_mismatch",
{
    let fs = match doc {
        Json::Object(fs) => fs,
        _ => return Err(not_object()),
    };
    let raw = match digest_field(get_field(fs, "raw_request_digest"), "raw_request_digest") {
        Ok(d) => d,
        Err(e) => return Err(e),
    };
    let prepared = match digest_field(get_field(fs, "prepared_digest"), "prepared_digest") {
        Ok(d) => d,
        Err(e) => return Err(e),
    };
    let package = match get_field(fs, "package") {
        Some(p) => p,
        None => return Err(ApiError::issue(text::owned("package"), "required", text::owned("package is required"))),
    };
    match package {
        Json::Null => {
            return Err(ApiError::issue(text::owned("package"), "invalid_type", text::owned("package cannot be null")));
        },
        _ => {},
    }
    let actual = util::digest_json(package);
    if !text::str_eq(prepared.as_str(), actual.as_str()) {
        return Err(ApiError::digest_mismatch(prepared.as_str(), actual.as_str()));
    }
    let summary_ok = match get_field(fs, "summary") {
        Some(Json::Null) => false,
        Some(_) => true,
        None => false,
    };
    if !summary_ok {
        return Err(ApiError::issue(text::owned("summary"), "required", text::owned("summary is required")));
    }
    let created_at = match get_field(fs, "created_at") {
        Some(Json::Str(t)) => if util::parse_rfc3339(t.as_str()).is_some() {
            t.clone()
        } else {
            return Err(
                ApiError::issue(
                    text::owned("created_at"),
                    "invalid_timestamp",
                    text::owned("created_at must be RFC 3339 with an offset"),
                ),
            );
        },
        _ => {
            return Err(
                ApiError::issue(
                    text::owned("created_at"),
                    "invalid_timestamp",
                    text::owned("created_at must be RFC 3339 with an offset"),
                ),
            );
        },
    };
    let canonical = json::canonical_json(doc);
    match check_size(&canonical) {
        Ok(()) => {},
        Err(e) => return Err(e),
    }
    Ok(StagedPacket { raw_digest: raw, created_at, canonical })
}

/// What an exact retry of a stored packet is found by: its raw request digest,
/// and the packet's canonical text, bounded like a new one.
pub fn replay_key_and_size(doc: &Json) -> (r: Result<(String, String), ApiError>)
    ensures
        r is Ok <==> (doc is Object && (text_field(fields(*doc), "raw_request_digest"@) matches Some(d)
            && digest_form(d)) && vstd::utf8::encode_utf8(json::canon(doc.deep())).len()
            <= limits::MAX_BODY_BYTES),
        r matches Ok(x) ==> x.0@ == ascii_lower(text_field(fields(*doc), "raw_request_digest"@).unwrap())
            && x.1@ == json::canon(doc.deep()),
        r matches Err(e) ==> e.code == "validation_failed",
{
    let fs = match doc {
        Json::Object(fs) => fs,
        _ => return Err(not_object()),
    };
    let raw = match digest_field(get_field(fs, "raw_request_digest"), "raw_request_digest") {
        Ok(d) => d,
        Err(e) => return Err(e),
    };
    let canonical = json::canonical_json(doc);
    match check_size(&canonical) {
        Ok(()) => {},
        Err(e) => return Err(e),
    }
    Ok((raw, canonical))
}

/// Refusal of a new upload when the pending staging capacity is used up.
pub fn check_staging_capacity(pending: i64) -> (r: Result<(), ApiError>)
    ensures
        r is Ok <==> pending < MAX_STAGING_ENTRIES,
        r matches Err(e) ==> e.code == "validation_failed" && e.status == 422 && e.issues@[0].is("staging"@, "capacity_exceeded"),
{
    if pending >= 256 {
        return Err(
            ApiError::issue(
                text::owned("staging"),
                "capacity_exceeded",
                text::owned("pending staging capacity is 256; no history was automatically evicted"),
            ),
        );
    }
    Ok(())
}


// ---------------------------------------------------------------- stored packets

/// What the store holds of one staged upload.
#[derive(Debug)]
pub struct StagedNode {
    pub raw_request_digest: Option<String>,
    /// The stored canonical packet text.
    pub document: Option<String>,
    pub applied: bool,
    pub invalidated: bool,
    pub withdrawn: bool,
    /// The withdrawal time, when it is text.
    pub withdrawn_at: Option<String>,
}

fn upload_issue(upload_id: &str, code: &'static str, before: &str, after: &str) -> (e: ApiError)
    ensures
        e.code == "validation_failed",
        e.issues@.len() == 1,
        e.issues@[0].is("upload_id"@, code),
{
    let mut m = text::owned(before);
    text::push_str(&mut m, upload_id);
    text::push_str(&mut m, after);
    ApiError::issue(text::owned("upload_id"), code, m)
}

/// A restore invalidated the upload.
pub fn invalidated(upload_id: &str) -> (e: ApiError)
    ensures
        e.code == "validation_failed",
        e.issues@[0].is("upload_id"@, "staging_invalidated"),
{
    upload_issue(
        upload_id,
        "staging_invalidated",
        "staged upload ",
        " was invalidated by a domain restore; prepare again with a new idempotency key",
    )
}

/// The upload was withdrawn.
pub fn withdrawn(upload_id: &str) -> (e: ApiError)
    ensures
        e.code == "validation_failed",
        e.issues@[0].is("upload_id"@, "staging_withdrawn"),
{
    upload_issue(upload_id, "staging_withdrawn", "staged upload ", " was withdrawn; prepare a new upload")
}

/// Reading a staged upload: nothing when there is none (or it holds no
/// packet), a refusal when it was invalidated or withdrawn, else its packet
/// text.
pub fn staged_read(upload_id: &str, node: &Option<StagedNode>) -> (r: Result<Option<String>, ApiError>)
    ensures
        match node {
            None => r matches Ok(x) && x is None,
            Some(n) => if n.invalidated {
                r matches Err(e) && e.issues@[0].is("upload_id"@, "staging_invalidated")
            } else if n.withdrawn {
                r matches Err(e) && e.issues@[0].is("upload_id"@, "staging_withdrawn")
            } else {
                r matches Ok(x) && crate::mutation::opt_view(x) == crate::mutation::opt_view(n.document)
            },
        },
{
    match node {
        None => Ok(None),
        Some(n) => {
            if n.invalidated {
                return Err(invalidated(upload_id));
            }
            if n.withdrawn {
                return Err(withdrawn(upload_id));
            }
            Ok(n.document.clone())
        },
    }
}

/// What storing a packet comes to.
#[derive(Debug)]
pub enum PutStep {
    /// An exact retry: answer with the stored packet text.
    Replay(String),
    /// A new upload: check the packet and the capacity, then create it.
    Create,
}

/// Storing a packet under its upload id: a new id is created; an existing
/// one answers an exact retry (same raw request digest) with what it holds,
/// and refuses anything else.
pub fn put_step(upload_id: &str, raw_digest: &str, node: &Option<StagedNode>) -> (r: Result<PutStep, ApiError>)
    ensures
        match node {
            None => r matches Ok(PutStep::Create),
            Some(n) => if n.invalidated {
                r matches Err(e) && e.issues@[0].is("upload_id"@, "staging_invalidated")
            } else if n.withdrawn {
                r matches Err(e) && e.issues@[0].is("upload_id"@, "staging_withdrawn")
            } else {
                match n.raw_request_digest {
                    None => r matches Err(e) && e.code == "storage_error",
                    Some(d) => if d@ != raw_digest@ {
                        r matches Err(e) && e.code == "idempotency_conflict"
                    } else {
                        match n.document {
                            None => r matches Err(e) && e.code == "storage_error",
                            Some(doc) => r matches Ok(PutStep::Replay(x)) && x@ == doc@,
                        }
                    },
                }
            },
        },
{
    match node {
        None => Ok(PutStep::Create),
        Some(n) => {
            if n.invalidated {
                return Err(invalidated(upload_id));
            }
            if n.withdrawn {
                return Err(withdrawn(upload_id));
            }
            let stored = match &n.raw_request_digest {
                Some(d) => d,
                None => {
                    let mut m = text::owned("staged upload ");
                    text::push_str(&mut m, upload_id);
                    text::push_str(&mut m, " has no raw request digest");
                    return Err(ApiError::storage(m));
                },
            };
            if !text::str_eq(stored.as_str(), raw_digest) {
                return Err(ApiError::idempotency_conflict(upload_id));
            }
            match &n.document {
                Some(doc) => Ok(PutStep::Replay(doc.clone())),
                None => {
                    let mut m = text::owned("staged upload ");
                    text::push_str(&mut m, upload_id);
                    text::push_str(&mut m, " has no document");
                    Err(ApiError::storage(m))
                },
            }
        },
    }
}

/// What withdrawing an upload comes to.
#[derive(Debug)]
pub enum DiscardStep {
    /// Already withdrawn at this time: answer again.
    Replay(String),
    /// Withdraw it now.
    Withdraw,
}

/// Withdrawing an upload: an unknown one is not found, an applied one cannot
/// be withdrawn, an invalidated one is refused, a withdrawn one is answered
/// again.
pub fn discard_step(upload_id: &str, node: &Option<StagedNode>) -> (r: Result<DiscardStep, ApiError>)
    ensures
        match node {
            None => r matches Err(e) && e.code == "not_found",
            Some(n) => if n.applied {
                r matches Err(e) && e.code == "staging_already_applied" && e.status == 409
            } else if n.invalidated {
                r matches Err(e) && e.issues@[0].is("upload_id"@, "staging_invalidated")
            } else {
                match n.withdrawn_at {
                    Some(at) => r matches Ok(DiscardStep::Replay(x)) && x@ == at@,
                    None => r matches Ok(DiscardStep::Withdraw),
                }
            },
        },
{
    match node {
        None => {
            let mut m = text::owned("staged upload ");
            text::push_str(&mut m, upload_id);
            text::push_str(&mut m, " not found");
            Err(ApiError::not_found(m))
        },
        Some(n) => {
            if n.applied {
                let mut m = text::owned("staged upload ");
                text::push_str(&mut m, upload_id);
                text::push_str(&mut m, " was already applied and cannot be withdrawn");
                return Err(ApiError { status: 409, code: "staging_already_applied", message: m, issues: Vec::new(), details: None });
            }
            if n.invalidated {
                return Err(invalidated(upload_id));
            }
            match &n.withdrawn_at {
                Some(at) => Ok(DiscardStep::Replay(at.clone())),
                None => Ok(DiscardStep::Withdraw),
            }
        },
    }
}

} // verus!
