//! Runtime configuration read from the process environment, which the caller
//! hands over as name and value pairs.

use vstd::prelude::*;

use crate::text;

verus! {

#[derive(Debug)]
pub struct Config {
    pub bind: String,
    pub neo4j_uri: String,
    pub neo4j_user: String,
    pub neo4j_password: Option<String>,
    pub neo4j_database: String,
    pub token: Option<String>,
    pub static_dir: String,
}

/// The value of the first variable named `key`.
pub open spec fn var_of(env: Seq<(String, String)>, key: Seq<char>) -> Option<Seq<char>>
    decreases env.len(),
{
    if env.len() == 0 {
        None
    } else if env[0].0@ == key {
        Some(env[0].1@)
    } else {
        var_of(env.drop_first(), key)
    }
}

fn lookup<'a>(env: &'a Vec<(String, String)>, key: &str) -> (r: Option<&'a String>)
    ensures
        match r {
            Some(v) => var_of(env@, key@) == Some(v@),
            None => var_of(env@, key@) is None,
        },
{
    let mut i: usize = 0;
    assert(env@.skip(0) == env@);
    while i < env.len()
        invariant
            0 <= i <= env@.len(),
            var_of(env@, key@) == var_of(env@.skip(i as int), key@),
        decreases env@.len() - i,
    {
        assert(env@.skip(i as int).drop_first() == env@.skip(i + 1));
        if text::str_eq(env[i].0.as_str(), key) {
            return Some(&env[i].1);
        }
        i += 1;
    }
    None
}

/// A variable's value unless it is missing or blank, else `default`.
pub open spec fn var_or_spec(env: Seq<(String, String)>, key: Seq<char>, default: Seq<char>) -> Seq<char> {
    match var_of(env, key) {
        Some(v) => if !text::spec_is_blank(v) {
            v
        } else {
            default
        },
        None => default,
    }
}

/// A variable's value unless it is missing or empty.
pub open spec fn non_empty_spec(env: Seq<(String, String)>, key: Seq<char>) -> Option<Seq<char>> {
    match var_of(env, key) {
        Some(v) => if v.len() > 0 {
            Some(v)
        } else {
            None
        },
        None => None,
    }
}

/// `s` without trailing `/`.
pub open spec fn without_trailing_slashes(s: Seq<char>) -> Seq<char>
    decreases s.len(),
{
    if s.len() > 0 && s.last() == '/' {
        without_trailing_slashes(s.drop_last())
    } else {
        s
    }
}

fn var_or(env: &Vec<(String, String)>, key: &str, default: &str) -> (r: String)
    ensures
        r@ == var_or_spec(env@, key@, default@),
{
    match lookup(env, key) {
        Some(v) => if !text::is_blank(v.as_str()) {
            v.clone()
        } else {
            text::owned(default)
        },
        None => text::owned(default),
    }
}

fn non_empty(env: &Vec<(String, String)>, key: &str) -> (r: Option<String>)
    ensures
        match r {
            Some(v) => non_empty_spec(env@, key@) == Some(v@),
            None => non_empty_spec(env@, key@) is None,
        },
{
    match lookup(env, key) {
        Some(v) => if text::char_count(v.as_str()) > 0 {
            Some(v.clone())
        } else {
            None
        },
        None => None,
    }
}

pub fn trim_slashes(s: &str) -> (r: String)
    ensures
        r@ == without_trailing_slashes(s@),
{
    let cs = text::chars_of(s);
    let mut n = cs.len();
    assert(s@.take(n as int) =~= s@);
    while n > 0 && cs[n - 1] == '/'
        invariant
            n <= cs@.len(),
            cs@ == s@,
            without_trailing_slashes(s@) == without_trailing_slashes(s@.take(n as int)),
        decreases n,
    {
        assert(s@.take(n as int).drop_last() =~= s@.take(n - 1));
        n -= 1;
    }
    assert(without_trailing_slashes(s@.take(n as int)) == s@.take(n as int));
    let mut r = String::new();
    let mut i: usize = 0;
    while i < n
        invariant
            0 <= i <= n <= cs@.len(),
            cs@ == s@,
            r@ == s@.take(i as int),
        decreases n - i,
    {
        text::push_char(&mut r, cs[i]);
        assert(s@.take(i + 1) =~= s@.take(i as int).push(s@[i as int]));
        i += 1;
    }
    r
}

impl Config {
    /// The configuration the environment `env` gives, with the documented
    /// defaults for what it leaves unset or blank.
    pub fn from_env(env: &Vec<(String, String)>) -> (c: Config)
        ensures
            c.bind@ == var_or_spec(env@, "IDEA_DB_BIND"@, "127.0.0.1:8080"@),
            c.neo4j_uri@ == without_trailing_slashes(
                var_or_spec(env@, "NEO4J_URI"@, "http://127.0.0.1:7474"@),
            ),
            c.neo4j_user@ == var_or_spec(env@, "NEO4J_USER"@, "neo4j"@),
            match c.neo4j_password {
                Some(v) => non_empty_spec(env@, "NEO4J_PASSWORD"@) == Some(v@),
                None => non_empty_spec(env@, "NEO4J_PASSWORD"@) is None,
            },
            c.neo4j_database@ == var_or_spec(env@, "NEO4J_DATABASE"@, "neo4j"@),
            match c.token {
                Some(v) => non_empty_spec(env@, "IDEA_DB_TOKEN"@) == Some(v@),
                None => non_empty_spec(env@, "IDEA_DB_TOKEN"@) is None,
            },
            c.static_dir@ == var_or_spec(env@, "STATIC_DIR"@, "./static"@),
    {
        let uri = var_or(env, "NEO4J_URI", "http://127.0.0.1:7474");
        Config {
            bind: var_or(env, "IDEA_DB_BIND", "127.0.0.1:8080"),
            neo4j_uri: trim_slashes(uri.as_str()),
            neo4j_user: var_or(env, "NEO4J_USER", "neo4j"),
            neo4j_password: non_empty(env, "NEO4J_PASSWORD"),
            neo4j_database: var_or(env, "NEO4J_DATABASE", "neo4j"),
            token: non_empty(env, "IDEA_DB_TOKEN"),
            static_dir: var_or(env, "STATIC_DIR", "./static"),
        }
    }
}

} // verus!
