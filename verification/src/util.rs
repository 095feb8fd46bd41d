//! Primitives shared by every module: digests, derived ids, UTC timestamps and
//! the numeric-token guard for corrections.

use vstd::prelude::*;

use crate::json::{self, Json};
use crate::text;
use sha2::Digest;

verus! {

// ---------------------------------------------------------------- hashing

/// SHA-256 of a byte string.
pub uninterp spec fn spec_sha256(bytes: Seq<u8>) -> Seq<u8>;

/// `sha2::Sha256` over `bytes`: the 32-byte digest.
#[verifier::external_body]
pub fn sha256(bytes: &[u8]) -> (r: Vec<u8>)
    ensures
        r@ == spec_sha256(bytes@),
        r@.len() == 32,
{

    let mut hasher = sha2::Sha256::new();
    hasher.update(bytes);
    hasher.finalize().to_vec()
}

/// Two lower-case hex digits per byte.
pub open spec fn spec_hex(bytes: Seq<u8>) -> Seq<char>
    decreases bytes.len(),
{
    if bytes.len() == 0 {
        Seq::empty()
    } else {
        spec_hex(bytes.drop_last()) + seq![
            json::hex_digit((bytes.last() / 16) as nat),
            json::hex_digit((bytes.last() % 16) as nat),
        ]
    }
}

proof fn lemma_hex_len(bytes: Seq<u8>)
    ensures
        spec_hex(bytes).len() == 2 * bytes.len(),
    decreases bytes.len(),
{
    if bytes.len() > 0 {
        lemma_hex_len(bytes.drop_last());
    }
}

/// `hex::encode`: lower-case hexadecimal, two digits per byte, high nibble first.
#[verifier::external_body]
pub fn hex_encode(bytes: &[u8]) -> (r: String)
    ensures
        r@ == spec_hex(bytes@),
{
    hex::encode(bytes)
}

/// Lower-case hex SHA-256 of a byte string.
pub fn sha256_hex(bytes: &[u8]) -> (r: String)
    ensures
        r@ == spec_hex(spec_sha256(bytes@)),
        r@.len() == 64,
{
    let d = sha256(bytes);
    proof {
        lemma_hex_len(d@);
    }
    hex_encode(d.as_slice())
}

pub open spec fn sha256_prefix() -> Seq<char> {
    seq!['s', 'h', 'a', '2', '5', '6', ':']
}

/// `"sha256:" + hex(sha256(utf8(text)))`.
pub open spec fn spec_digest_text(text: Seq<char>) -> Seq<char> {
    sha256_prefix() + spec_hex(spec_sha256(vstd::utf8::encode_utf8(text)))
}

/// Digest of a text's UTF-8 bytes.
pub fn digest_text(s: &str) -> (r: String)
    ensures
        r@ == spec_digest_text(s@),
        r@.len() == 71,
{
    let h = sha256_hex(s.as_bytes());
    let mut r = String::new();
    proof {
        reveal_strlit("sha256:");
    }
    text::push_str(&mut r, "sha256:");
    text::push_str(&mut r, h.as_str());
    r
}

/// Digest of a JSON value: the digest of its canonical text.
pub fn digest_json(j: &Json) -> (r: String)
    ensures
        r@ == spec_digest_text(json::canon(j.deep())),
        r@.len() == 71,
{
    let c = json::canonical_json(j);
    digest_text(c.as_str())
}

/// `<prefix>_<first 16 hex digits of sha256(seed)>`: deterministic server id.
pub open spec fn spec_derived_id(prefix: Seq<char>, seed: Seq<char>) -> Seq<char> {
    prefix + seq!['_'] + spec_hex(spec_sha256(vstd::utf8::encode_utf8(seed))).take(16)
}

pub fn derived_id(prefix: &str, seed: &str) -> (r: String)
    ensures
        r@ == spec_derived_id(prefix@, seed@),
        r@.len() == prefix@.len() + 17,
{
    let h = sha256_hex(seed.as_bytes());
    let hc = text::chars_of(h.as_str());
    let mut r = text::owned(prefix);
    text::push_char(&mut r, '_');
    let mut i: usize = 0;
    while i < 16
        invariant
            0 <= i <= 16,
            hc@ == h@,
            h@.len() == 64,
            r@ == prefix@ + seq!['_'] + hc@.take(i as int),
        decreases 16 - i,
    {
        text::push_char(&mut r, hc[i]);
        assert(hc@.take(i + 1) == hc@.take(i as int).push(hc@[i as int]));
        i += 1;
    }
    r
}

// ---------------------------------------------------------------- time

/// A UTC instant, as read from a parsed timestamp.
#[derive(Clone, Copy, Debug, PartialEq, Eq, Structural)]
pub struct UtcTime {
    pub year: i32,
    pub month: u8,
    pub day: u8,
    pub hour: u8,
    pub minute: u8,
    pub second: u8,
    pub millisecond: u16,
}

/// The UTC reading of an RFC 3339 timestamp, or `None` when the text is not
/// RFC 3339 with an explicit offset.
pub uninterp spec fn spec_rfc3339_utc(text: Seq<char>) -> Option<UtcTime>;

/// `time::OffsetDateTime::parse(text, &Rfc3339)`, moved to UTC with
/// `checked_to_offset` and read back as calendar fields. `None` when the text
/// does not parse, or when its UTC instant falls outside the years the `time`
/// crate represents (a local time late on 9999-12-31 west of UTC). The
/// calendar fields are in their documented ranges.
#[verifier::external_body]
pub fn rfc3339_utc(text: &str) -> (r: Option<UtcTime>)
    ensures
        r == spec_rfc3339_utc(text@),
        r matches Some(t) ==> -9999 <= t.year <= 9999 && 1 <= t.month <= 12 && 1 <= t.day <= 31
            && t.hour < 24 && t.minute < 60 && t.second < 60 && t.millisecond < 1000,
{
    let ts = time::OffsetDateTime::parse(text, &time::format_description::well_known::Rfc3339)
        .ok()?
        .checked_to_offset(time::UtcOffset::UTC)?;
    Some(
        UtcTime {
            year: ts.year(),
            month: ts.month() as u8,
            day: ts.day(),
            hour: ts.hour(),
            minute: ts.minute(),
            second: ts.second(),
            millisecond: ts.millisecond(),
        },
    )
}

/// The current UTC time (`OffsetDateTime::now_utc`), read as calendar fields.
#[verifier::external_body]
pub fn now_utc() -> (r: UtcTime)
    ensures
        -9999 <= r.year <= 9999 && 1 <= r.month <= 12 && 1 <= r.day <= 31 && r.hour < 24
            && r.minute < 60 && r.second < 60 && r.millisecond < 1000,
{
    let ts = time::OffsetDateTime::now_utc();
    UtcTime {
        year: ts.year(),
        month: ts.month() as u8,
        day: ts.day(),
        hour: ts.hour(),
        minute: ts.minute(),
        second: ts.second(),
        millisecond: ts.millisecond(),
    }
}

/// Decimal digits of `n`, no leading zeros (`0` for zero).
pub open spec fn dec_digits(n: nat) -> Seq<char>
    decreases n,
{
    if n < 10 {
        seq![((48 + n) as u8) as char]
    } else {
        dec_digits(n / 10) + seq![((48 + n % 10) as u8) as char]
    }
}

/// `n` in decimal, left-padded with zeros to `width` characters.
pub open spec fn padded(n: nat, width: nat) -> Seq<char> {
    let d = dec_digits(n);
    if d.len() >= width {
        d
    } else {
        Seq::new((width - d.len()) as nat, |i: int| '0') + d
    }
}

fn push_digits(out: &mut String, n: u64)
    ensures
        final(out)@ == old(out)@ + dec_digits(n as nat),
    decreases n,
{
    if n >= 10 {
        push_digits(out, n / 10);
    }
    let d = (n % 10) as u8;
    text::push_char(out, (48u8 + d) as char);
}

fn push_padded(out: &mut String, n: u64, width: u64)
    requires
        width <= 20,
    ensures
        final(out)@ == old(out)@ + padded(n as nat, width as nat),
{
    let mut digits = String::new();
    push_digits(&mut digits, n);
    let len = text::char_count(digits.as_str()) as u64;
    let ghost start = old(out)@;
    if len < width {
        let mut k: u64 = 0;
        while k < width - len
            invariant
                len < width,
                k <= width - len,
                out@ == start + Seq::new(k as nat, |i: int| '0'),
            decreases width - len - k,
        {
            text::push_char(out, '0');
            assert(Seq::new((k + 1) as nat, |i: int| '0') =~= Seq::new(k as nat, |i: int| '0')
                .push('0'));
            k += 1;
        }
    }
    text::push_str(out, digits.as_str());
    assert(out@ =~= start + padded(n as nat, width as nat));
}

/// `YYYY-MM-DDTHH:MM:SS.mmmZ` with fixed precision, so text order is time order.
pub open spec fn spec_utc_text(t: UtcTime) -> Seq<char> {
    (if t.year < 0 {
        seq!['-'] + padded((-t.year) as nat, 3)
    } else {
        padded(t.year as nat, 4)
    }) + seq!['-'] + padded(t.month as nat, 2) + seq!['-'] + padded(t.day as nat, 2) + seq!['T']
        + padded(t.hour as nat, 2) + seq![':'] + padded(t.minute as nat, 2) + seq![':'] + padded(
        t.second as nat,
        2,
    ) + seq!['.'] + padded(t.millisecond as nat, 3) + seq!['Z']
}

/// Server record time text for a UTC instant.
pub fn format_utc_millis(t: UtcTime) -> (r: String)
    ensures
        r@ == spec_utc_text(t),
{
    let mut r = String::new();
    if t.year < 0 {
        text::push_char(&mut r, '-');
        let y: i64 = -(t.year as i64);
        push_padded(&mut r, y as u64, 3);
    } else {
        push_padded(&mut r, t.year as u64, 4);
    }
    text::push_char(&mut r, '-');
    push_padded(&mut r, t.month as u64, 2);
    text::push_char(&mut r, '-');
    push_padded(&mut r, t.day as u64, 2);
    text::push_char(&mut r, 'T');
    push_padded(&mut r, t.hour as u64, 2);
    text::push_char(&mut r, ':');
    push_padded(&mut r, t.minute as u64, 2);
    text::push_char(&mut r, ':');
    push_padded(&mut r, t.second as u64, 2);
    text::push_char(&mut r, '.');
    push_padded(&mut r, t.millisecond as u64, 3);
    text::push_char(&mut r, 'Z');
    r
}

/// A calendar reading in the ranges the `time` crate gives.
pub open spec fn utc_time_ok(t: UtcTime) -> bool {
    -9999 <= t.year <= 9999 && 1 <= t.month <= 12 && 1 <= t.day <= 31 && t.hour < 24
        && t.minute < 60 && t.second < 60 && t.millisecond < 1000
}

/// Server record time: now, in UTC with millisecond precision. Which instant
/// is the clock's; the text is that instant's UTC key.
pub fn now_utc_millis() -> (r: String)
    ensures
        exists|t: UtcTime| utc_time_ok(t) && r@ == #[trigger] spec_utc_text(t),
{
    let t = now_utc();
    let r = format_utc_millis(t);
    assert(utc_time_ok(t) && r@ == spec_utc_text(t));
    r
}

/// Parse an RFC 3339 timestamp. The format requires an explicit offset, so a
/// naive local timestamp gives `None`.
pub fn parse_rfc3339(s: &str) -> (r: Option<UtcTime>)
    ensures
        r == spec_rfc3339_utc(s@),
{
    rfc3339_utc(s)
}

/// Normalised UTC text used for every time comparison.
pub fn to_utc_key(t: UtcTime) -> (r: String)
    ensures
        r@ == spec_utc_text(t),
{
    format_utc_millis(t)
}

/// The UTC key of a timestamp text, when it parses.
pub open spec fn spec_utc_key(s: Seq<char>) -> Option<Seq<char>> {
    match spec_rfc3339_utc(s) {
        Some(t) => Some(spec_utc_text(t)),
        None => None,
    }
}

/// `parse_rfc3339(s).map(to_utc_key)`.
pub fn utc_key(s: &str) -> (r: Option<String>)
    ensures
        match r {
            Some(k) => spec_utc_key(s@) == Some(k@),
            None => spec_utc_key(s@) is None,
        },
{
    match rfc3339_utc(s) {
        Some(t) => Some(format_utc_millis(t)),
        None => None,
    }
}


// ---------------------------------------------------------------- numbers in text

pub open spec fn ascii_digit(c: char) -> bool {
    '0' <= c && c <= '9'
}

/// Whether position `i` continues a numeral: a digit, or a `.`/`,` with a
/// digit right after it.
pub open spec fn continues_number(cs: Seq<char>, i: int) -> bool {
    ascii_digit(cs[i]) || ((cs[i] == '.' || cs[i] == ',') && i + 1 < cs.len() && ascii_digit(
        cs[i + 1],
    ))
}

/// End of the numeral run starting at `i`.
pub open spec fn run_end(cs: Seq<char>, i: int) -> int
    decreases cs.len() - i,
{
    if i < 0 || i >= cs.len() {
        cs.len() as int
    } else if continues_number(cs, i) {
        run_end(cs, i + 1)
    } else {
        i
    }
}

/// The numerals of `cs[i..]` as written, each with the sign right before it.
pub open spec fn raw_numbers(cs: Seq<char>, i: int) -> Seq<Seq<char>>
    decreases cs.len() - i,
{
    if i < 0 || i >= cs.len() {
        Seq::empty()
    } else if !ascii_digit(cs[i]) {
        raw_numbers(cs, i + 1)
    } else {
        let start = if i > 0 && (cs[i - 1] == '-' || cs[i - 1] == '+') {
            i - 1
        } else {
            i
        };
        let e = run_end(cs, i);
        if e <= i || e > cs.len() {
            Seq::empty()
        } else {
            seq![cs.subrange(start, e)] + raw_numbers(cs, e)
        }
    }
}

/// Leading characters `c` removed.
pub open spec fn trim_start_char(s: Seq<char>, c: char) -> Seq<char>
    decreases s.len(),
{
    if s.len() > 0 && s[0] == c {
        trim_start_char(s.drop_first(), c)
    } else {
        s
    }
}

/// Leading `-` and `+` removed.
pub open spec fn trim_signs(s: Seq<char>) -> Seq<char>
    decreases s.len(),
{
    if s.len() > 0 && (s[0] == '-' || s[0] == '+') {
        trim_signs(s.drop_first())
    } else {
        s
    }
}

/// Trailing characters `c` removed.
pub open spec fn trim_end_char(s: Seq<char>, c: char) -> Seq<char>
    decreases s.len(),
{
    if s.len() > 0 && s.last() == c {
        trim_end_char(s.drop_last(), c)
    } else {
        s
    }
}

/// Group separators removed.
pub open spec fn without_commas(s: Seq<char>) -> Seq<char>
    decreases s.len(),
{
    if s.len() == 0 {
        Seq::empty()
    } else {
        without_commas(s.drop_last()) + if s.last() == ',' {
            Seq::empty()
        } else {
            seq![s.last()]
        }
    }
}

/// `1,204` and `1204` are the same quantity, `30.0` and `30` too; leading
/// zeros are dropped and a minus sign is kept.
pub open spec fn normalized_number(raw: Seq<char>) -> Seq<char> {
    let sign = if raw.len() > 0 && raw[0] == '-' {
        seq!['-']
    } else {
        Seq::empty()
    };
    let body = without_commas(trim_signs(raw));
    let k = crate::num::first_dot(body);
    let whole = body.take(k);
    let frac = if k < body.len() {
        trim_end_char(body.skip(k + 1), '0')
    } else {
        Seq::empty()
    };
    let w = trim_start_char(whole, '0');
    let w2 = if w.len() == 0 {
        seq!['0']
    } else {
        w
    };
    sign + w2 + if frac.len() == 0 {
        Seq::empty()
    } else {
        seq!['.'] + frac
    }
}

/// `s` with `x` placed before the first element above it.
pub open spec fn insert_text(s: Seq<Seq<char>>, x: Seq<char>) -> Seq<Seq<char>>
    decreases s.len(),
{
    if s.len() == 0 {
        seq![x]
    } else if json::seq_lt(x, s[0]) {
        seq![x] + s
    } else {
        seq![s[0]] + insert_text(s.drop_first(), x)
    }
}

/// `s` in code-point order, equal texts kept in their original order.
pub open spec fn sort_texts(s: Seq<Seq<char>>) -> Seq<Seq<char>>
    decreases s.len(),
{
    if s.len() == 0 {
        Seq::empty()
    } else {
        insert_text(sort_texts(s.drop_last()), s.last())
    }
}

/// The numeric tokens of a text: each numeral normalised, in sorted order.
pub open spec fn spec_numeric_tokens(text: Seq<char>) -> Seq<Seq<char>> {
    sort_texts(raw_numbers(text, 0).map_values(|r: Seq<char>| normalized_number(r)))
}

fn drop_signs(cs: &Vec<char>) -> (r: Vec<char>)
    ensures
        r@ == trim_signs(cs@),
{
    let mut p: usize = 0;
    assert(cs@.skip(0) == cs@);
    while p < cs.len() && (cs[p] == '-' || cs[p] == '+')
        invariant
            0 <= p <= cs@.len(),
            trim_signs(cs@) == trim_signs(cs@.skip(p as int)),
        decreases cs@.len() - p,
    {
        assert(cs@.skip(p as int).drop_first() == cs@.skip(p + 1));
        p += 1;
    }
    copy_range(cs, p, cs.len())
}

fn copy_range(cs: &Vec<char>, from: usize, to: usize) -> (r: Vec<char>)
    requires
        from <= to <= cs@.len(),
    ensures
        r@ == cs@.subrange(from as int, to as int),
        to == cs@.len() ==> r@ == cs@.skip(from as int),
{
    let mut r: Vec<char> = Vec::new();
    let mut i: usize = from;
    while i < to
        invariant
            from <= i <= to <= cs@.len(),
            r@ == cs@.subrange(from as int, i as int),
        decreases to - i,
    {
        r.push(cs[i]);
        assert(cs@.subrange(from as int, i + 1) == cs@.subrange(from as int, i as int).push(cs@[i as int]));
        i += 1;
    }
    r
}

fn drop_commas(cs: &Vec<char>) -> (r: Vec<char>)
    ensures
        r@ == without_commas(cs@),
{
    let mut r: Vec<char> = Vec::new();
    let mut i: usize = 0;
    while i < cs.len()
        invariant
            0 <= i <= cs@.len(),
            r@ == without_commas(cs@.take(i as int)),
        decreases cs@.len() - i,
    {
        assert(cs@.take(i + 1).drop_last() == cs@.take(i as int));
        if cs[i] != ',' {
            r.push(cs[i]);
        }
        i += 1;
    }
    assert(cs@.take(cs@.len() as int) == cs@);
    r
}

fn drop_leading(cs: &Vec<char>, c: char) -> (r: Vec<char>)
    ensures
        r@ == trim_start_char(cs@, c),
{
    let mut p: usize = 0;
    assert(cs@.skip(0) == cs@);
    while p < cs.len() && cs[p] == c
        invariant
            0 <= p <= cs@.len(),
            trim_start_char(cs@, c) == trim_start_char(cs@.skip(p as int), c),
        decreases cs@.len() - p,
    {
        assert(cs@.skip(p as int).drop_first() == cs@.skip(p + 1));
        p += 1;
    }
    copy_range(cs, p, cs.len())
}

fn drop_trailing(cs: &Vec<char>, c: char) -> (r: Vec<char>)
    ensures
        r@ == trim_end_char(cs@, c),
{
    let mut q: usize = cs.len();
    assert(cs@.take(cs@.len() as int) == cs@);
    while q > 0 && cs[q - 1] == c
        invariant
            0 <= q <= cs@.len(),
            trim_end_char(cs@, c) == trim_end_char(cs@.take(q as int), c),
        decreases q,
    {
        assert(cs@.take(q as int).drop_last() == cs@.take(q - 1));
        q -= 1;
    }
    copy_range(cs, 0, q)
}

proof fn lemma_first_dot_at(s: Seq<char>, m: int)
    requires
        0 <= m <= s.len(),
        forall|j: int| 0 <= j < m ==> s[j] != '.',
        m == s.len() || s[m] == '.',
    ensures
        crate::num::first_dot(s) == m,
    decreases s.len(),
{
    if s.len() > 0 && m > 0 {
        lemma_first_dot_at(s.drop_first(), m - 1);
    }
}

/// The normal text of one numeral, as `normalized_number` states it.
pub fn normalize_number(raw: &Vec<char>) -> (r: Vec<char>)
    ensures
        r@ == normalized_number(raw@),
{
    let neg = raw.len() > 0 && raw[0] == '-';
    let body = drop_commas(&drop_signs(raw));
    let mut k: usize = 0;
    while k < body.len() && body[k] != '.'
        invariant
            0 <= k <= body@.len(),
            forall|j: int| 0 <= j < k ==> body@[j] != '.',
        decreases body@.len() - k,
    {
        k += 1;
    }
    proof {
        lemma_first_dot_at(body@, k as int);
    }
    let whole = copy_range(&body, 0, k);
    let frac = if k < body.len() {
        drop_trailing(&copy_range(&body, k + 1, body.len()), '0')
    } else {
        Vec::new()
    };
    let w = drop_leading(&whole, '0');
    let mut r: Vec<char> = Vec::new();
    if neg {
        r.push('-');
    }
    if w.len() == 0 {
        r.push('0');
    } else {
        let mut i: usize = 0;
        let ghost start = r@;
        while i < w.len()
            invariant
                0 <= i <= w@.len(),
                r@ == start + w@.take(i as int),
            decreases w@.len() - i,
        {
            r.push(w[i]);
            assert(w@.take(i + 1) == w@.take(i as int).push(w@[i as int]));
            i += 1;
        }
        assert(w@.take(w@.len() as int) == w@);
    }
    if frac.len() > 0 {
        r.push('.');
        let mut i: usize = 0;
        let ghost start = r@;
        while i < frac.len()
            invariant
                0 <= i <= frac@.len(),
                r@ == start + frac@.take(i as int),
            decreases frac@.len() - i,
        {
            r.push(frac[i]);
            assert(frac@.take(i + 1) == frac@.take(i as int).push(frac@[i as int]));
            i += 1;
        }
        assert(frac@.take(frac@.len() as int) == frac@);
    }
    assert(r@ =~= normalized_number(raw@));
    r
}

/// Insert `x` into `sorted` before the first text above it.
fn insert_token(sorted: &mut Vec<String>, x: String)
    ensures
        views_of(final(sorted)@) == insert_text(views_of(old(sorted)@), x@),
{
    let ghost orig = views_of(sorted@);
    let mut p: usize = 0;
    assert(orig.skip(0) == orig);
    assert(orig.take(0) + orig == orig);
    while p < sorted.len() && !json::str_lt(x.as_str(), sorted[p].as_str())
        invariant
            0 <= p <= sorted@.len(),
            sorted@ == old(sorted)@,
            orig == views_of(sorted@),
            insert_text(orig, x@) == orig.take(p as int) + insert_text(orig.skip(p as int), x@),
        decreases sorted@.len() - p,
    {
        proof {
            let rest = orig.skip(p as int);
            assert(rest[0] == sorted@[p as int]@);
            assert(rest.drop_first() == orig.skip(p + 1));
            assert(orig.take(p as int) + seq![rest[0]] == orig.take(p + 1));
            assert(insert_text(rest, x@) == seq![rest[0]] + insert_text(rest.drop_first(), x@));
            assert(orig.take(p as int) + (seq![rest[0]] + insert_text(rest.drop_first(), x@))
                == orig.take(p + 1) + insert_text(orig.skip(p + 1), x@));
        }
        p += 1;
    }
    proof {
        let rest = orig.skip(p as int);
        if p < sorted@.len() {
            assert(rest[0] == sorted@[p as int]@);
            assert(insert_text(rest, x@) == seq![x@] + rest);
        } else {
            assert(rest.len() == 0);
        }
    }
    sorted.insert(p, x);
    proof {
        let rest = orig.skip(p as int);
        assert(views_of(sorted@) =~= orig.take(p as int) + (seq![x@] + rest));
    }
}

pub open spec fn views_of(v: Seq<String>) -> Seq<Seq<char>> {
    v.map_values(|s: String| s@)
}

proof fn lemma_run_end(cs: Seq<char>, i: int)
    requires
        0 <= i < cs.len(),
        continues_number(cs, i),
    ensures
        i < run_end(cs, i) <= cs.len(),
    decreases cs.len() - i,
{
    assert(run_end(cs, i) == run_end(cs, i + 1));
    if i + 1 < cs.len() && continues_number(cs, i + 1) {
        lemma_run_end(cs, i + 1);
    } else if i + 1 < cs.len() {
        assert(run_end(cs, i + 1) == i + 1);
    } else {
        assert(run_end(cs, i + 1) == cs.len());
    }
}

/// Numeric literals in a text, normalised and sorted: the multiset that
/// decides whether an edit is a cosmetic correction or a semantic change.
pub fn numeric_tokens(text: &str) -> (r: Vec<String>)
    ensures
        views_of(r@) == spec_numeric_tokens(text@),
{
    let cs = text::chars_of(text);
    let ghost raw = raw_numbers(cs@, 0);
    let ghost normal = raw.map_values(|x: Seq<char>| normalized_number(x));
    let mut found: Vec<String> = Vec::new();
    let mut i: usize = 0;
    while i < cs.len()
        invariant
            0 <= i <= cs@.len(),
            cs@ == text@,
            raw == raw_numbers(cs@, 0),
            views_of(found@) + raw_numbers(cs@, i as int).map_values(
                |x: Seq<char>| normalized_number(x),
            ) == raw.map_values(|x: Seq<char>| normalized_number(x)),
        decreases cs@.len() - i,
    {
        if !('0' <= cs[i] && cs[i] <= '9') {
            assert(raw_numbers(cs@, i as int) == raw_numbers(cs@, i + 1));
            i += 1;
        } else {
            let start: usize = if i > 0 && (cs[i - 1] == '-' || cs[i - 1] == '+') {
                i - 1
            } else {
                i
            };
            let ghost i0 = i as int;
            proof {
                lemma_run_end(cs@, i0);
            }
            while i < cs.len() && (('0' <= cs[i] && cs[i] <= '9') || ((cs[i] == '.' || cs[i] == ',')
                && i + 1 < cs.len() && '0' <= cs[i + 1] && cs[i + 1] <= '9'))
                invariant
                    i0 <= i <= cs@.len(),
                    i0 < cs@.len(),
                    run_end(cs@, i0) == run_end(cs@, i as int),
                decreases cs@.len() - i,
            {
                i += 1;
            }
            assert(run_end(cs@, i as int) == i);
            let piece = copy_range(&cs, start, i);
            let norm = normalize_number(&piece);
            let token = text::string_of(norm.as_slice());
            proof {
                let rest = raw_numbers(cs@, i0);
                assert(rest == seq![cs@.subrange(start as int, i as int)] + raw_numbers(cs@, i as int));
                assert(rest.map_values(|x: Seq<char>| normalized_number(x)) =~= seq![
                    normalized_number(cs@.subrange(start as int, i as int)),
                ] + raw_numbers(cs@, i as int).map_values(|x: Seq<char>| normalized_number(x)));
            }
            let ghost before = views_of(found@);
            found.push(token);
            assert(views_of(found@) =~= before + seq![token@]);
        }
    }
    assert(views_of(found@) =~= normal);
    let mut sorted: Vec<String> = Vec::new();
    let mut j: usize = 0;
    while j < found.len()
        invariant
            0 <= j <= found@.len(),
            views_of(sorted@) == sort_texts(views_of(found@).take(j as int)),
        decreases found@.len() - j,
    {
        let ghost upto = views_of(found@).take(j + 1);
        assert(upto.drop_last() == views_of(found@).take(j as int));
        assert(upto.last() == found@[j as int]@);
        insert_token(&mut sorted, found[j].clone());
        j += 1;
    }
    assert(views_of(found@).take(found@.len() as int) == views_of(found@));
    sorted
}

/// Whether two token lists are equal, text for text.
pub fn same_tokens(a: &Vec<String>, b: &Vec<String>) -> (r: bool)
    ensures
        r == (views_of(a@) == views_of(b@)),
{
    if a.len() != b.len() {
        assert(views_of(a@).len() != views_of(b@).len());
        return false;
    }
    let mut i: usize = 0;
    while i < a.len()
        invariant
            0 <= i <= a@.len(),
            a@.len() == b@.len(),
            forall|j: int| 0 <= j < i ==> a@[j]@ == b@[j]@,
        decreases a@.len() - i,
    {
        if !text::str_eq(a[i].as_str(), b[i].as_str()) {
            assert(views_of(a@)[i as int] != views_of(b@)[i as int]);
            return false;
        }
        i += 1;
    }
    assert(views_of(a@) =~= views_of(b@));
    true
}

} // verus!
