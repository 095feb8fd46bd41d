//! Who may call and in what form: the bearer token every `/api` request must
//! present, and the JSON media type every body-carrying request must declare.

use vstd::prelude::*;

use crate::error::ApiError;
use crate::text;

verus! {

/// The token a raw `Authorization` header presents: what follows `Bearer `,
/// or nothing when the header does not start that way.
pub open spec fn presented(header: Seq<char>) -> Seq<char> {
    let prefix = "Bearer "@;
    if prefix.len() <= header.len() && header.take(prefix.len() as int) == prefix {
        header.skip(prefix.len() as int)
    } else {
        Seq::empty()
    }
}

/// Whether a caller presenting `header` may proceed: always when no token is
/// configured, otherwise only with exactly that token.
pub open spec fn admitted(expected: Option<Seq<char>>, header: Seq<char>) -> bool {
    match expected {
        None => true,
        Some(t) => presented(header) == t,
    }
}

pub open spec fn opt_view(o: &Option<String>) -> Option<Seq<char>> {
    match o {
        Some(s) => Some(s@),
        None => None,
    }
}

fn skip_chars(s: &str, n: usize) -> (r: String)
    requires
        n <= s@.len(),
    ensures
        r@ == s@.skip(n as int),
{
    let cs = text::chars_of(s);
    let mut out = String::new();
    let mut i = n;
    while i < cs.len()
        invariant
            n <= i <= cs@.len(),
            cs@ == s@,
            out@ == s@.subrange(n as int, i as int),
        decreases cs@.len() - i,
    {
        text::push_char(&mut out, cs[i]);
        assert(s@.subrange(n as int, i + 1) == s@.subrange(n as int, i as int).push(cs@[i as int]));
        i += 1;
    }
    assert(s@.subrange(n as int, cs@.len() as int) == s@.skip(n as int));
    out
}

/// Checks the raw `Authorization` header (empty when absent or unreadable)
/// against the configured token.
pub fn authorize(expected: &Option<String>, header: &str) -> (r: Result<(), ApiError>)
    ensures
        r is Ok <==> admitted(opt_view(expected), header@),
        r matches Err(e) ==> e.status == 401 && e.code == "unauthorized",
{
    match expected {
        None => Ok(()),
        Some(token) => {
            let prefix = "Bearer ";
            let shown = if text::starts_with(header, prefix) {
                let n = text::char_count(prefix);
                skip_chars(header, n)
            } else {
                String::new()
            };
            if text::str_eq(shown.as_str(), token.as_str()) {
                Ok(())
            } else {
                Err(ApiError::unauthorized())
            }
        },
    }
}

/// `s` with leading whitespace removed (`str::trim_start`).
pub open spec fn trim_start(s: Seq<char>) -> Seq<char>
    decreases s.len(),
{
    if s.len() > 0 && text::spec_is_whitespace(s[0]) {
        trim_start(s.drop_first())
    } else {
        s
    }
}

/// `s` with trailing whitespace removed (`str::trim_end`).
pub open spec fn trim_end(s: Seq<char>) -> Seq<char>
    decreases s.len(),
{
    if s.len() > 0 && text::spec_is_whitespace(s.last()) {
        trim_end(s.drop_last())
    } else {
        s
    }
}

/// `str::trim`.
pub open spec fn trim(s: Seq<char>) -> Seq<char> {
    trim_end(trim_start(s))
}

/// `str::trim`: whitespace removed at both ends.
pub fn trim_text(s: &str) -> (r: String)
    ensures
        r@ == trim(s@),
{
    let cs = text::chars_of(s);
    let mut a: usize = 0;
    assert(s@.skip(0) == s@);
    while a < cs.len() && text::char_is_whitespace(cs[a])
        invariant
            0 <= a <= cs@.len(),
            cs@ == s@,
            trim_start(s@) == trim_start(s@.skip(a as int)),
        decreases cs@.len() - a,
    {
        assert(s@.skip(a as int).drop_first() == s@.skip(a + 1));
        a += 1;
    }
    let ghost t = s@.skip(a as int);
    assert(trim_start(t) == t);
    let mut b: usize = cs.len();
    while b > a && text::char_is_whitespace(cs[b - 1])
        invariant
            a <= b <= cs@.len(),
            cs@ == s@,
            t == s@.skip(a as int),
            trim_end(t) == trim_end(s@.subrange(a as int, b as int)),
        decreases b - a,
    {
        assert(s@.subrange(a as int, b as int).drop_last() == s@.subrange(a as int, b - 1));
        b -= 1;
    }
    assert(s@.subrange(a as int, cs@.len() as int) == t);
    let mut out = String::new();
    let mut i = a;
    while i < b
        invariant
            a <= i <= b <= cs@.len(),
            cs@ == s@,
            out@ == s@.subrange(a as int, i as int),
        decreases b - i,
    {
        text::push_char(&mut out, cs[i]);
        assert(s@.subrange(a as int, i + 1) == s@.subrange(a as int, i as int).push(cs@[i as int]));
        i += 1;
    }
    out
}

/// ASCII upper-case letters mapped to lower case, everything else kept
/// (`char::to_ascii_lowercase`).
pub open spec fn ascii_lower(c: char) -> char {
    if 'A' <= c <= 'Z' {
        ((c as u8) + 32) as char
    } else {
        c
    }
}

/// `str::to_ascii_lowercase`.
pub open spec fn ascii_lowercase(s: Seq<char>) -> Seq<char> {
    s.map_values(|c: char| ascii_lower(c))
}

fn lower_char(c: char) -> (r: char)
    ensures
        r == ascii_lower(c),
{
    if 'A' <= c && c <= 'Z' {
        ((c as u8) + 32) as char
    } else {
        c
    }
}

/// `str::to_ascii_lowercase`.
pub fn to_ascii_lowercase(s: &str) -> (r: String)
    ensures
        r@ == ascii_lowercase(s@),
{
    let cs = text::chars_of(s);
    let mut out = String::new();
    let mut i: usize = 0;
    while i < cs.len()
        invariant
            0 <= i <= cs@.len(),
            cs@ == s@,
            out@ == ascii_lowercase(s@.take(i as int)),
        decreases cs@.len() - i,
    {
        text::push_char(&mut out, lower_char(cs[i]));
        assert(ascii_lowercase(s@.take(i + 1)) == ascii_lowercase(s@.take(i as int)).push(
            ascii_lower(cs@[i as int]),
        ));
        i += 1;
    }
    assert(s@.take(cs@.len() as int) == s@);
    out
}

/// The media type of a `Content-Type` value: the part before the first `;`,
/// trimmed and lower-cased (parameters such as `charset` are ignored).
pub open spec fn media_type(raw: Seq<char>) -> Seq<char> {
    ascii_lowercase(trim(text::pieces(raw, ';')[0]))
}

/// `application/json`, or any `+json` structured syntax.
pub open spec fn is_json_media(m: Seq<char>) -> bool {
    ||| m == "application/json"@
    ||| ("+json"@.len() <= m.len() && m.skip(m.len() - "+json"@.len()) == "+json"@)
}

/// The refusal's message: the raw header, or `(none)` when there was none.
pub open spec fn media_refusal(raw: Seq<char>) -> Seq<char> {
    "this endpoint takes application/json; received '"@
        + (if raw.len() == 0 { "(none)"@ } else { raw }) + "'"@
}

/// Checks that a body-carrying request declares JSON; `raw` is the
/// `Content-Type` header, empty when absent or unreadable.
pub fn require_json(raw: &str) -> (r: Result<(), ApiError>)
    ensures
        r is Ok <==> is_json_media(media_type(raw@)),
        r matches Err(e) ==> e.status == 415 && e.code == "unsupported_media_type"
            && e.message@ == media_refusal(raw@),
{
    let parts = text::split_on(raw, ';');
    proof {
        text::lemma_pieces_nonempty(raw@, ';');
        assert(parts@.map_values(|x: String| x@)[0] == parts@[0]@);
    }
    let trimmed = trim_text(parts[0].as_str());
    let m = to_ascii_lowercase(trimmed.as_str());
    if text::str_eq(m.as_str(), "application/json") || text::ends_with(m.as_str(), "+json") {
        return Ok(());
    }
    let mut msg = text::owned("this endpoint takes application/json; received '");
    if text::char_count(raw) == 0 {
        text::push_str(&mut msg, "(none)");
    } else {
        text::push_str(&mut msg, raw);
    }
    text::push_str(&mut msg, "'");
    Err(ApiError::unsupported_media_type(msg))
}

} // verus!
