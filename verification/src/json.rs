//! A JSON value the library can reason about, and its canonical text:
//! object keys in code-point order, no insignificant whitespace.

use vstd::prelude::*;

use crate::text;

verus! {

/// A JSON document. A number keeps the exact numeral it was written with.
#[derive(Debug)]
pub enum Json {
    Null,
    Bool(bool),
    Number(String),
    Str(String),
    Array(Vec<Json>),
    Object(Vec<(String, Json)>),
}

/// The mathematical value of a [`Json`] document.
pub enum JsonV {
    Null,
    Bool(bool),
    Number(Seq<char>),
    Str(Seq<char>),
    Array(Seq<JsonV>),
    Object(Seq<(Seq<char>, JsonV)>),
}

impl Json {
    pub open spec fn deep(self) -> JsonV
        decreases self,
    {
        match self {
            Json::Null => JsonV::Null,
            Json::Bool(b) => JsonV::Bool(b),
            Json::Number(n) => JsonV::Number(n@),
            Json::Str(s) => JsonV::Str(s@),
            Json::Array(items) => JsonV::Array(
                Seq::new(
                    items@.len(),
                    |i: int|
                        if 0 <= i < items@.len() {
                            items@[i].deep()
                        } else {
                            JsonV::Null
                        },
                ),
            ),
            Json::Object(fields) => JsonV::Object(
                Seq::new(
                    fields@.len(),
                    |i: int|
                        if 0 <= i < fields@.len() {
                            (fields@[i].0@, fields@[i].1.deep())
                        } else {
                            (Seq::empty(), JsonV::Null)
                        },
                ),
            ),
        }
    }
}

// ---------------------------------------------------------------- text order

/// Code-point order on strings, the order `String`'s `Ord` gives.
pub open spec fn seq_lt(a: Seq<char>, b: Seq<char>) -> bool
    decreases a.len(),
{
    if b.len() == 0 {
        false
    } else if a.len() == 0 {
        true
    } else if a[0] != b[0] {
        (a[0] as int) < (b[0] as int)
    } else {
        seq_lt(a.drop_first(), b.drop_first())
    }
}

/// Code-point order is a strict total order.
pub proof fn lemma_seq_lt_irreflexive(a: Seq<char>)
    ensures
        !seq_lt(a, a),
    decreases a.len(),
{
    if a.len() > 0 {
        lemma_seq_lt_irreflexive(a.drop_first());
    }
}

pub proof fn lemma_seq_lt_trans(a: Seq<char>, b: Seq<char>, c: Seq<char>)
    requires
        seq_lt(a, b),
        seq_lt(b, c),
    ensures
        seq_lt(a, c),
    decreases a.len(),
{
    if a.len() > 0 && b.len() > 0 && c.len() > 0 && a[0] == b[0] && b[0] == c[0] {
        lemma_seq_lt_trans(a.drop_first(), b.drop_first(), c.drop_first());
    }
}

pub proof fn lemma_seq_lt_total(a: Seq<char>, b: Seq<char>)
    ensures
        a == b || seq_lt(a, b) || seq_lt(b, a),
        !(seq_lt(a, b) && seq_lt(b, a)),
    decreases a.len(),
{
    if a.len() > 0 && b.len() > 0 && a[0] == b[0] {
        lemma_seq_lt_total(a.drop_first(), b.drop_first());
        if a.drop_first() == b.drop_first() {
            assert forall|i: int| 0 <= i < a.len() implies a[i] == b[i] by {
                if i > 0 {
                    assert(a[i] == a.drop_first()[i - 1]);
                    assert(b[i] == b.drop_first()[i - 1]);
                }
            }
            assert(a =~= b);
        }
    } else if a.len() == 0 && b.len() == 0 {
        assert(a =~= b);
    } else if a.len() > 0 && b.len() > 0 {
        assert((a[0] as int) != (b[0] as int));
    }
}

/// `a < b` in code-point order.
pub fn str_lt(a: &str, b: &str) -> (r: bool)
    ensures
        r == seq_lt(a@, b@),
{
    let x = text::chars_of(a);
    let y = text::chars_of(b);
    let mut i: usize = 0;
    assert(x@.skip(0) == x@);
    assert(y@.skip(0) == y@);
    while i < x.len() && i < y.len() && x[i] == y[i]
        invariant
            0 <= i <= x@.len(),
            i <= y@.len(),
            x@ == a@,
            y@ == b@,
            seq_lt(a@, b@) == seq_lt(x@.skip(i as int), y@.skip(i as int)),
        decreases x@.len() - i,
    {
        assert(x@.skip(i as int).drop_first() == x@.skip(i + 1));
        assert(y@.skip(i as int).drop_first() == y@.skip(i + 1));
        i += 1;
    }
    if i == y.len() {
        false
    } else if i == x.len() {
        true
    } else {
        x[i] < y[i]
    }
}

// ---------------------------------------------------------------- quoting

/// Lower-case hexadecimal digit for `0..16`.
pub open spec fn hex_digit(n: nat) -> char {
    if n < 10 {
        ((48 + n) as u8) as char
    } else {
        ((87 + n) as u8) as char
    }
}

/// How a JSON string literal writes one character.
pub open spec fn escape_char(c: char) -> Seq<char> {
    if c == '"' {
        seq!['\\', '"']
    } else if c == '\\' {
        seq!['\\', '\\']
    } else if c == '\u{8}' {
        seq!['\\', 'b']
    } else if c == '\t' {
        seq!['\\', 't']
    } else if c == '\n' {
        seq!['\\', 'n']
    } else if c == '\u{c}' {
        seq!['\\', 'f']
    } else if c == '\r' {
        seq!['\\', 'r']
    } else if (c as u32) < 32 {
        seq!['\\', 'u', '0', '0', hex_digit((c as u32 / 16) as nat), hex_digit((c as u32 % 16) as nat)]
    } else {
        seq![c]
    }
}

/// The escaped characters of `s[0..n]`.
pub open spec fn escape_prefix(s: Seq<char>, n: nat) -> Seq<char>
    decreases n,
{
    if n == 0 || n > s.len() {
        Seq::empty()
    } else {
        escape_prefix(s, (n - 1) as nat) + escape_char(s[n - 1])
    }
}

/// A JSON string literal for `s`, with serde_json's escaping.
pub open spec fn quoted(s: Seq<char>) -> Seq<char> {
    seq!['"'] + escape_prefix(s, s.len()) + seq!['"']
}

/// `serde_json`'s string serializer (`Value::String(..).to_string()`): the
/// literal wrapped in quotes, escaping `"`, `\`, the short forms for
/// backspace, tab, newline, form feed and carriage return, and every other
/// control character below U+0020 as `\u00xx` with lower-case hex.
#[verifier::external_body]
pub fn quote(s: &str) -> (r: String)
    ensures
        r@ == quoted(s@),
{
    serde_json::Value::String(s.to_string()).to_string()
}

// ---------------------------------------------------------------- canonical

/// Insert field index `k` into an index list kept in key order, after every
/// index whose key is not above it.
pub open spec fn insert_index(fields: Seq<(Seq<char>, JsonV)>, sorted: Seq<int>, k: int) -> Seq<int>
    decreases sorted.len(),
{
    if sorted.len() == 0 {
        seq![k]
    } else if seq_lt(fields[k].0, fields[sorted[0]].0) {
        seq![k] + sorted
    } else {
        seq![sorted[0]] + insert_index(fields, sorted.drop_first(), k)
    }
}

/// Indices of the first `n` fields in key order (stable among equal keys).
pub open spec fn sorted_indices(fields: Seq<(Seq<char>, JsonV)>, n: nat) -> Seq<int>
    decreases n,
{
    if n == 0 {
        Seq::empty()
    } else {
        insert_index(fields, sorted_indices(fields, (n - 1) as nat), n - 1)
    }
}

pub open spec fn vsize(v: JsonV) -> nat {
    match v {
        JsonV::Array(items) => items.len(),
        JsonV::Object(fields) => fields.len(),
        _ => 0,
    }
}

/// Canonical text of a value.
pub open spec fn canon(v: JsonV) -> Seq<char>
    decreases v, vsize(v) + 1,
{
    match v {
        JsonV::Null => seq!['n', 'u', 'l', 'l'],
        JsonV::Bool(b) => if b {
            seq!['t', 'r', 'u', 'e']
        } else {
            seq!['f', 'a', 'l', 's', 'e']
        },
        JsonV::Number(n) => n,
        JsonV::Str(s) => quoted(s),
        JsonV::Array(items) => seq!['['] + canon_items(v, items.len()) + seq![']'],
        JsonV::Object(fields) => seq!['{'] + canon_fields(
            v,
            sorted_indices(fields, fields.len()),
            fields.len(),
        ) + seq!['}'],
    }
}

/// Comma-separated canonical texts of the first `n` items of an array.
pub open spec fn canon_items(v: JsonV, n: nat) -> Seq<char>
    decreases v, n,
{
    if let JsonV::Array(items) = v {
        if n == 0 || n > items.len() {
            Seq::empty()
        } else if n == 1 {
            canon(items[0])
        } else {
            canon_items(v, (n - 1) as nat) + seq![','] + canon(items[n - 1])
        }
    } else {
        Seq::empty()
    }
}

/// `"key":value` text of field `k` of an object.
pub open spec fn canon_field(v: JsonV, k: int) -> Seq<char>
    decreases v, 0nat,
{
    if let JsonV::Object(fields) = v {
        if 0 <= k < fields.len() {
            quoted(fields[k].0) + seq![':'] + canon(fields[k].1)
        } else {
            Seq::empty()
        }
    } else {
        Seq::empty()
    }
}

/// Comma-separated field texts for the first `n` indices of `order`.
pub open spec fn canon_fields(v: JsonV, order: Seq<int>, n: nat) -> Seq<char>
    decreases v, n,
{
    if n == 0 || n > order.len() {
        Seq::empty()
    } else if n == 1 {
        canon_field(v, order[0])
    } else {
        canon_fields(v, order, (n - 1) as nat) + seq![','] + canon_field(v, order[n - 1])
    }
}


/// Insert index `k` into `order`, keeping key order, as `insert_index` states.
fn insert_index_exec(fields: &Vec<(String, Json)>, order: &mut Vec<usize>, k: usize)
    requires
        k < fields@.len(),
        forall|i: int| 0 <= i < old(order)@.len() ==> old(order)@[i] < fields@.len(),
    ensures
        final(order)@.map_values(|x: usize| x as int) == insert_index(
            object_view(fields@),
            old(order)@.map_values(|x: usize| x as int),
            k as int,
        ),
        forall|i: int| 0 <= i < final(order)@.len() ==> final(order)@[i] < fields@.len(),
{
    let ghost fv = object_view(fields@);
    let ghost orig = old(order)@.map_values(|x: usize| x as int);
    let mut p: usize = 0;
    assert(orig.skip(0) == orig);
    assert(orig.take(0) + orig == orig);
    // Skip every index whose key is not above the new one.
    while p < order.len() && !str_lt(fields[k].0.as_str(), fields[order[p]].0.as_str())
        invariant
            0 <= p <= order@.len(),
            order@ == old(order)@,
            k < fields@.len(),
            forall|i: int| 0 <= i < order@.len() ==> order@[i] < fields@.len(),
            fv == object_view(fields@),
            orig == order@.map_values(|x: usize| x as int),
            insert_index(fv, orig, k as int) == orig.take(p as int) + insert_index(
                fv,
                orig.skip(p as int),
                k as int,
            ),
        decreases order@.len() - p,
    {
        proof {
            let rest = orig.skip(p as int);
            assert(rest[0] == order@[p as int] as int);
            assert(fv[k as int].0 == fields@[k as int].0@);
            assert(fv[rest[0]].0 == fields@[order@[p as int] as int].0@);
            assert(rest.drop_first() == orig.skip(p + 1));
            assert(orig.take(p as int) + seq![rest[0]] == orig.take(p + 1));
            assert(insert_index(fv, rest, k as int) == seq![rest[0]] + insert_index(
                fv,
                rest.drop_first(),
                k as int,
            ));
            assert(orig.take(p as int) + (seq![rest[0]] + insert_index(fv, rest.drop_first(), k as int))
                == orig.take(p + 1) + insert_index(fv, orig.skip(p + 1), k as int));
        }
        p += 1;
    }
    proof {
        let rest = orig.skip(p as int);
        if p < order@.len() {
            assert(fv[k as int].0 == fields@[k as int].0@);
            assert(rest[0] == order@[p as int] as int);
            assert(insert_index(fv, rest, k as int) == seq![k as int] + rest);
        } else {
            assert(rest.len() == 0);
        }
    }
    order.insert(p, k);
    proof {
        let rest = orig.skip(p as int);
        assert(order@.map_values(|x: usize| x as int) =~= orig.take(p as int) + (seq![k as int]
            + rest));
    }
}

/// Field views of an object in stored order.
pub open spec fn object_view(fields: Seq<(String, Json)>) -> Seq<(Seq<char>, JsonV)> {
    Seq::new(
        fields.len(),
        |i: int|
            if 0 <= i < fields.len() {
                (fields[i].0@, fields[i].1.deep())
            } else {
                (Seq::empty(), JsonV::Null)
            },
    )
}

/// Append the canonical text of `j` to `out`.
pub fn write_canonical(j: &Json, out: &mut String)
    ensures
        final(out)@ == old(out)@ + canon(j.deep()),
    decreases j,
{
    match j {
        Json::Null => {
            proof {
                reveal_strlit("null");
            }
            text::push_str(out, "null");
        },
        Json::Bool(b) => {
            proof {
                reveal_strlit("true");
                reveal_strlit("false");
            }
            if *b {
                text::push_str(out, "true")
            } else {
                text::push_str(out, "false")
            }
        },
        Json::Number(n) => text::push_str(out, n.as_str()),
        Json::Str(s) => {
            let q = quote(s.as_str());
            text::push_str(out, q.as_str());
        },
        Json::Array(items) => {
            let ghost v = j.deep();
            let ghost start = old(out)@;
            text::push_char(out, '[');
            let mut i: usize = 0;
            while i < items.len()
                invariant
                    0 <= i <= items@.len(),
                    v == j.deep(),
                    *j == Json::Array(*items),
                    out@ == start + seq!['['] + canon_items(v, i as nat),
                decreases items@.len() - i,
            {
                if i > 0 {
                    text::push_char(out, ',');
                }
                write_canonical(&items[i], out);
                proof {
                    assert(v->Array_0[i as int] == items@[i as int].deep());
                }
                i += 1;
            }
            text::push_char(out, ']');
            proof {
                assert(v->Array_0.len() == items@.len());
                assert(canon(v) == seq!['['] + canon_items(v, items@.len()) + seq![']']);
                assert(out@ =~= start + canon(v));
            }
        },
        Json::Object(fields) => {
            let ghost v = j.deep();
            let ghost fv = object_view(fields@);
            let ghost start = old(out)@;
            assert(v->Object_0 == fv);
            let mut order: Vec<usize> = Vec::new();
            let mut k: usize = 0;
            while k < fields.len()
                invariant
                    0 <= k <= fields@.len(),
                    fv == object_view(fields@),
                    order@.map_values(|x: usize| x as int) == sorted_indices(fv, k as nat),
                    forall|i: int| 0 <= i < order@.len() ==> order@[i] < fields@.len(),
                decreases fields@.len() - k,
            {
                insert_index_exec(fields, &mut order, k);
                k += 1;
            }
            proof {
                lemma_sorted_indices_len(fv, fields@.len());
            }
            let ghost ord = order@.map_values(|x: usize| x as int);
            text::push_char(out, '{');
            let mut i: usize = 0;
            while i < order.len()
                invariant
                    0 <= i <= order@.len(),
                    order@.len() == fields@.len(),
                    forall|t: int| 0 <= t < order@.len() ==> order@[t] < fields@.len(),
                    v == j.deep(),
                    *j == Json::Object(*fields),
                    v->Object_0 == fv,
                    fv == object_view(fields@),
                    ord == order@.map_values(|x: usize| x as int),
                    ord == sorted_indices(fv, fields@.len()),
                    out@ == start + seq!['{'] + canon_fields(v, ord, i as nat),
                decreases order@.len() - i,
            {
                if i > 0 {
                    text::push_char(out, ',');
                }
                let f = &fields[order[i]];
                let q = quote(f.0.as_str());
                text::push_str(out, q.as_str());
                text::push_char(out, ':');
                write_canonical(&f.1, out);
                proof {
                    let idx = order@[i as int] as int;
                    assert(ord[i as int] == idx);
                    assert(fv[idx] == (fields@[idx].0@, fields@[idx].1.deep()));
                    assert(canon_field(v, idx) == quoted(fields@[idx].0@) + seq![':'] + canon(
                        fields@[idx].1.deep(),
                    ));
                }
                i += 1;
            }
            text::push_char(out, '}');
            proof {
                assert(canon(v) == seq!['{'] + canon_fields(v, ord, fields@.len()) + seq!['}']);
                assert(out@ =~= start + canon(v));
            }
        },
    }
}

proof fn lemma_insert_index_len(fields: Seq<(Seq<char>, JsonV)>, sorted: Seq<int>, k: int)
    ensures
        insert_index(fields, sorted, k).len() == sorted.len() + 1,
    decreases sorted.len(),
{
    if sorted.len() > 0 && !seq_lt(fields[k].0, fields[sorted[0]].0) {
        lemma_insert_index_len(fields, sorted.drop_first(), k);
    }
}

proof fn lemma_sorted_indices_len(fields: Seq<(Seq<char>, JsonV)>, n: nat)
    ensures
        sorted_indices(fields, n).len() == n,
    decreases n,
{
    if n > 0 {
        lemma_sorted_indices_len(fields, (n - 1) as nat);
        lemma_insert_index_len(fields, sorted_indices(fields, (n - 1) as nat), n - 1);
    }
}

/// Canonical JSON: object keys sorted by code point, no whitespace.
pub fn canonical_json(j: &Json) -> (r: String)
    ensures
        r@ == canon(j.deep()),
{
    let mut out = String::new();
    write_canonical(j, &mut out);
    out
}


/// Copy of a JSON document.
pub fn copy_json(j: &Json) -> (r: Json)
    ensures
        r.deep() == j.deep(),
    decreases j,
{
    match j {
        Json::Null => Json::Null,
        Json::Bool(b) => Json::Bool(*b),
        Json::Number(n) => Json::Number(n.clone()),
        Json::Str(t) => Json::Str(t.clone()),
        Json::Array(items) => {
            let ghost v = j.deep();
            let mut out: Vec<Json> = Vec::new();
            let mut i: usize = 0;
            while i < items.len()
                invariant
                    0 <= i <= items@.len(),
                    v == j.deep(),
                    out@.len() == i,
                    *j == Json::Array(*items),
                    forall|k: int| 0 <= k < i ==> (#[trigger] out@[k]).deep() == items@[k].deep(),
                decreases items@.len() - i,
            {
                let c = copy_json(&items[i]);
                proof {
                    assert(c.deep() == items@[i as int].deep());
                }
                out.push(c);
                i += 1;
            }
            let r = Json::Array(out);
            assert(r.deep() == j.deep()) by {
                if let JsonV::Array(a) = r.deep() {
                    if let JsonV::Array(b) = j.deep() {
                        assert(a =~= b);
                    }
                }
            }
            r
        },
        Json::Object(fields) => {
            let ghost v = j.deep();
            let mut out: Vec<(String, Json)> = Vec::new();
            let mut i: usize = 0;
            while i < fields.len()
                invariant
                    0 <= i <= fields@.len(),
                    v == j.deep(),
                    out@.len() == i,
                    *j == Json::Object(*fields),
                    forall|k: int|
                        0 <= k < i ==> (#[trigger] out@[k]).0 == fields@[k].0 && out@[k].1.deep()
                            == fields@[k].1.deep(),
                decreases fields@.len() - i,
            {
                let key = fields[i].0.clone();
                let value = copy_json(&fields[i].1);
                out.push((key, value));
                i += 1;
            }
            let r = Json::Object(out);
            assert(r.deep() == j.deep()) by {
                if let JsonV::Object(a) = r.deep() {
                    if let JsonV::Object(b) = j.deep() {
                        assert(a =~= b);
                    }
                }
            }
            r
        },
    }
}


} // verus!
