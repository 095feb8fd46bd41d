//! Validation issues and request errors. An issue's `code` is a stable
//! contract; its message is for people.

use vstd::prelude::*;

use crate::json::Json;
use crate::text;

verus! {

/// A single domain validation issue.
#[derive(Debug)]
pub struct Issue {
    pub path: String,
    pub code: &'static str,
    pub message: String,
}

impl Issue {
    pub fn new(path: String, code: &'static str, message: String) -> (r: Issue)
        ensures
            r.path == path,
            r.code == code,
            r.message == message,
    {
        Issue { path, code, message }
    }

    /// The issue with `path` and `code`, whatever its message.
    pub open spec fn is(&self, path: Seq<char>, code: &'static str) -> bool {
        self.path@ == path && self.code == code
    }
}

impl Clone for Issue {
    fn clone(&self) -> (r: Self)
        ensures
            r == *self,
    {
        Issue { path: self.path.clone(), code: self.code, message: self.message.clone() }
    }
}

/// Whether some issue of `issues` carries `code`.
pub open spec fn has_code(issues: Seq<Issue>, code: &'static str) -> bool {
    exists|i: int| 0 <= i < issues.len() && (#[trigger] issues[i]).code == code
}

/// Whether some issue of `issues` carries `code` at `path`.
pub open spec fn has_issue(issues: Seq<Issue>, path: Seq<char>, code: &'static str) -> bool {
    exists|i: int| 0 <= i < issues.len() && (#[trigger] issues[i]).is(path, code)
}

/// A refused request: an HTTP-style status, a stable code, a message, and the
/// validation issues behind it when there are any.
#[derive(Debug)]
pub struct ApiError {
    pub status: u16,
    pub code: &'static str,
    pub message: String,
    pub issues: Vec<Issue>,
    /// Structured detail beyond the issues (the heads of a conflict, the
    /// last storage error).
    pub details: Option<Json>,
}

impl ApiError {
    fn plain(status: u16, code: &'static str, message: String) -> (r: ApiError)
        ensures
            r.status == status,
            r.code == code,
            r.message == message,
            r.issues@.len() == 0,
            r.details is None,
    {
        ApiError { status, code, message, issues: Vec::new(), details: None }
    }

    pub fn bad_request(message: String) -> (r: ApiError)
        ensures
            r.status == 400,
            r.code == "bad_request",
            r.message == message,
            r.issues@.len() == 0,
    {
        Self::plain(400, "bad_request", message)
    }

    pub fn not_found(message: String) -> (r: ApiError)
        ensures
            r.status == 404,
            r.code == "not_found",
            r.message == message,
            r.issues@.len() == 0,
    {
        Self::plain(404, "not_found", message)
    }

    /// A validation failure: status 422, code `validation_failed`, the issues
    /// kept whole, and a message naming the first issue.
    pub fn validation(issues: Vec<Issue>) -> (r: ApiError)
        ensures
            r.status == 422,
            r.code == "validation_failed",
            r.issues@ == issues@,
            issues@.len() > 0 ==> r.message@ == issues@[0].path@ + ": "@ + issues@[0].message@,
    {
        let message = if issues.len() > 0 {
            let mut m = issues[0].path.clone();
            text::push_str(&mut m, ": ");
            text::push_str(&mut m, issues[0].message.as_str());
            m
        } else {
            text::owned("validation failed")
        };
        ApiError { status: 422, code: "validation_failed", message, issues, details: None }
    }

    /// A single validation issue as a refusal.
    pub fn issue(path: String, code: &'static str, message: String) -> (r: ApiError)
        ensures
            r.status == 422,
            r.code == "validation_failed",
            r.issues@.len() == 1,
            r.issues@[0].path == path,
            r.issues@[0].code == code,
            r.issues@[0].message == message,
    {
        let mut v: Vec<Issue> = Vec::new();
        v.push(Issue::new(path, code, message));
        Self::validation(v)
    }

    pub fn unauthorized() -> (r: ApiError)
        ensures
            r.status == 401,
            r.code == "unauthorized",
            r.message@ == "missing or invalid bearer token"@,
            r.issues@.len() == 0,
    {
        Self::plain(401, "unauthorized", text::owned("missing or invalid bearer token"))
    }

    /// A request body that is not declared as JSON.
    pub fn unsupported_media_type(message: String) -> (r: ApiError)
        ensures
            r.status == 415,
            r.code == "unsupported_media_type",
            r.message == message,
            r.issues@.len() == 0,
    {
        Self::plain(415, "unsupported_media_type", message)
    }

    pub fn unsupported_protocol_version(got: u32) -> (r: ApiError)
        ensures
            r.status == 422,
            r.code == "unsupported_protocol_version",
            r.message@ == "protocol_version "@ + text::spec_int_text(got as int)
                + " is not supported, expected 1"@,
            r.issues@.len() == 0,
    {
        let mut m = text::owned("protocol_version ");
        let n = text::int_text(got as i64);
        text::push_str(&mut m, n.as_str());
        text::push_str(&mut m, " is not supported, expected 1");
        Self::plain(422, "unsupported_protocol_version", m)
    }

    /// A compare-and-set miss on a head; `details` names the head.
    pub fn head_conflict(details: Json) -> (r: ApiError)
        ensures
            r.status == 409,
            r.code == "head_conflict",
            r.message@ == "expected head does not match current head"@,
            r.issues@.len() == 0,
            r.details == Some(details),
    {
        let mut e = Self::plain(
            409,
            "head_conflict",
            text::owned("expected head does not match current head"),
        );
        e.details = Some(details);
        e
    }

    pub fn idempotency_conflict(key: &str) -> (r: ApiError)
        ensures
            r.status == 409,
            r.code == "idempotency_conflict",
            r.message@ == "idempotency_key "@ + key@
                + " was already used with a different request body"@,
            r.issues@.len() == 0,
    {
        let mut m = text::owned("idempotency_key ");
        text::push_str(&mut m, key);
        text::push_str(&mut m, " was already used with a different request body");
        Self::plain(409, "idempotency_conflict", m)
    }

    pub fn import_not_empty() -> (r: ApiError)
        ensures
            r.status == 409,
            r.code == "import_not_empty",
            r.issues@.len() == 0,
    {
        Self::plain(409, "import_not_empty", text::owned("import requires an empty namespace"))
    }

    pub fn digest_mismatch(expected: &str, actual: &str) -> (r: ApiError)
        ensures
            r.status == 422,
            r.code == "digest_mismatch",
            r.message@ == "document digest "@ + expected@ + " does not match recomputed "@
                + actual@,
            r.issues@.len() == 0,
    {
        let mut m = text::owned("document digest ");
        text::push_str(&mut m, expected);
        text::push_str(&mut m, " does not match recomputed ");
        text::push_str(&mut m, actual);
        Self::plain(422, "digest_mismatch", m)
    }

    pub fn context_too_large(loaded: usize, limit: usize) -> (r: ApiError)
        ensures
            r.status == 422,
            r.code == "context_too_large",
            r.issues@.len() == 0,
    {
        let mut m = text::owned("validation context needs more than ");
        let l = text::usize_text(limit);
        text::push_str(&mut m, l.as_str());
        text::push_str(&mut m, " existing records (loaded ");
        let n = text::usize_text(loaded);
        text::push_str(&mut m, n.as_str());
        text::push_str(&mut m, ")");
        Self::plain(422, "context_too_large", m)
    }

    /// The store is unreachable; the last storage error rides along.
    pub fn not_ready(last_error: Option<String>) -> (r: ApiError)
        ensures
            r.status == 503,
            r.code == "not_ready",
            r.issues@.len() == 0,
            last_error is None ==> r.details is None,
            last_error is Some ==> r.details is Some,
    {
        let mut e = Self::plain(
            503,
            "not_ready",
            text::owned("neo4j is not reachable or not initialised"),
        );
        match last_error {
            Some(msg) => {
                let mut fields: Vec<(String, Json)> = Vec::new();
                fields.push((text::owned("last_error"), Json::Str(msg)));
                e.details = Some(Json::Object(fields));
            },
            None => {},
        }
        e
    }

    pub fn storage(message: String) -> (r: ApiError)
        ensures
            r.status == 502,
            r.code == "storage_error",
            r.message == message,
            r.issues@.len() == 0,
    {
        Self::plain(502, "storage_error", message)
    }

    /// The same refusal with `details` attached.
    pub fn with_details(self, details: Json) -> (r: ApiError)
        ensures
            r.status == self.status,
            r.code == self.code,
            r.message == self.message,
            r.issues@ == self.issues@,
            r.details == Some(details),
    {
        let mut e = self;
        e.details = Some(details);
        e
    }

    /// Whether this refusal carries an issue with `code`.
    pub open spec fn carries(&self, code: &'static str) -> bool {
        has_code(self.issues@, code)
    }
}

} // verus!
