//! Command line of the evaluation harness, which indexes a corpus and runs a set of
//! queries against it.

use vstd::prelude::*;
use crate::text::{append_chars, chars_eq, str_chars, string_from_chars};

verus! {

/// The harness's settings.
pub struct EvalArgs {
    /// Database file; a fresh one in the temporary directory when absent.
    pub db: Option<String>,
    pub corpus: String,
    pub queries: String,
    pub sha: String,
    pub date: String,
    pub ollama_url: String,
    /// Reuse an existing database instead of indexing again.
    pub skip_index: bool,
}

/// The options read so far.
pub struct ArgsSeen {
    pub db: Option<Seq<char>>,
    pub corpus: Option<Seq<char>>,
    pub queries: Option<Seq<char>>,
    pub sha: Option<Seq<char>>,
    pub date: Option<Seq<char>>,
    pub skip_index: bool,
}

/// An option that takes the next argument as its value.
pub open spec fn takes_value(a: Seq<char>) -> bool {
    a == "--db"@ || a == "--corpus"@ || a == "--queries"@ || a == "--sha"@ || a == "--date"@
}

/// `seen` with option `a` set to `v` (a later occurrence replaces an earlier one).
pub open spec fn with_value(seen: ArgsSeen, a: Seq<char>, v: Seq<char>) -> ArgsSeen {
    if a == "--db"@ {
        ArgsSeen { db: Some(v), ..seen }
    } else if a == "--corpus"@ {
        ArgsSeen { corpus: Some(v), ..seen }
    } else if a == "--queries"@ {
        ArgsSeen { queries: Some(v), ..seen }
    } else if a == "--sha"@ {
        ArgsSeen { sha: Some(v), ..seen }
    } else {
        ArgsSeen { date: Some(v), ..seen }
    }
}

/// Reads the arguments from index `i` on, left to right; the first one that is not an
/// option, or a value option with nothing after it, is an error with this message.
pub open spec fn scan_args(raw: Seq<Seq<char>>, i: int, seen: ArgsSeen) -> Result<ArgsSeen, Seq<char>>
    decreases raw.len() - i,
{
    if i < 0 || i >= raw.len() {
        Ok(seen)
    } else if raw[i] == "--skip-index"@ {
        scan_args(raw, i + 1, ArgsSeen { skip_index: true, ..seen })
    } else if takes_value(raw[i]) {
        if i + 1 < raw.len() {
            scan_args(raw, i + 2, with_value(seen, raw[i], raw[i + 1]))
        } else {
            Err("missing value for "@ + raw[i])
        }
    } else {
        Err("unknown arg: "@ + raw[i])
    }
}

/// Nothing read yet.
pub open spec fn nothing_seen() -> ArgsSeen {
    ArgsSeen { db: None, corpus: None, queries: None, sha: None, date: None, skip_index: false }
}

/// `o`'s value, or `d`.
pub open spec fn or_default(o: Option<Seq<char>>, d: Seq<char>) -> Seq<char> {
    match o {
        Some(v) => v,
        None => d,
    }
}

/// `r` holds what was read, with the defaults for what was not.
pub open spec fn settings_of(r: EvalArgs, seen: ArgsSeen, ollama_env: Option<Seq<char>>) -> bool {
    &&& match seen.db {
        Some(v) => r.db matches Some(d) && d@ == v,
        None => r.db is None,
    }
    &&& r.corpus@ == or_default(seen.corpus, "../test/sample-files"@)
    &&& r.queries@ == or_default(seen.queries, "../test/fixtures/eval-queries.json"@)
    &&& r.sha@ == or_default(seen.sha, "unknown"@)
    &&& r.date@ == or_default(seen.date, "unknown"@)
    &&& r.ollama_url@ == or_default(ollama_env, "http://localhost:11434"@)
    &&& r.skip_index == seen.skip_index
}

fn is_flag(a: &Vec<char>, flag: &str) -> (r: bool)
    ensures
        r == (a@ == flag@),
{
    let f = str_chars(flag);
    chars_eq(a, &f)
}

fn message(prefix: &str, a: &Vec<char>) -> (r: String)
    ensures
        r@ == prefix@ + a@,
{
    let mut m = str_chars(prefix);
    append_chars(&mut m, a);
    string_from_chars(m)
}

fn text_or(o: Option<Vec<char>>, d: &str) -> (r: String)
    ensures
        r@ == or_default(seen_text(o), d@),
{
    match o {
        Some(v) => string_from_chars(v),
        None => string_from_chars(str_chars(d)),
    }
}

/// The text of an option's value.
pub open spec fn seen_text(o: Option<Vec<char>>) -> Option<Seq<char>> {
    match o {
        Some(v) => Some(v@),
        None => None,
    }
}

/// Parses the harness's arguments (the program name excluded) and the value of
/// `OLLAMA_BASE_URL`, if set.
pub fn parse_eval_args(raw: &Vec<String>, ollama_env: Option<String>) -> (r: Result<EvalArgs, String>)
    ensures
        match scan_args(raw@.map_values(|s: String| s@), 0, nothing_seen()) {
            Ok(seen) => r matches Ok(a) && settings_of(
                a,
                seen,
                match ollama_env {
                    Some(v) => Some(v@),
                    None => None,
                },
            ),
            Err(m) => r matches Err(e) && e@ == m,
        },
{
    let ghost rv = raw@.map_values(|s: String| s@);
    let mut db: Option<Vec<char>> = None;
    let mut corpus: Option<Vec<char>> = None;
    let mut queries: Option<Vec<char>> = None;
    let mut sha: Option<Vec<char>> = None;
    let mut date: Option<Vec<char>> = None;
    let mut skip_index = false;
    let mut i: usize = 0;
    while i < raw.len()
        invariant
            i <= raw.len(),
            rv == raw@.map_values(|s: String| s@),
            scan_args(rv, 0, nothing_seen()) == scan_args(
                rv,
                i as int,
                ArgsSeen {
                    db: seen_text(db),
                    corpus: seen_text(corpus),
                    queries: seen_text(queries),
                    sha: seen_text(sha),
                    date: seen_text(date),
                    skip_index,
                },
            ),
        decreases raw.len() - i,
    {
        let a = str_chars(raw[i].as_str());
        proof {
            assert(a@ == rv[i as int]);
        }
        if is_flag(&a, "--skip-index") {
            skip_index = true;
            i = i + 1;
        } else if is_flag(&a, "--db") || is_flag(&a, "--corpus") || is_flag(&a, "--queries")
            || is_flag(&a, "--sha") || is_flag(&a, "--date") {
            if i + 1 >= raw.len() {
                return Err(message("missing value for ", &a));
            }
            let v = str_chars(raw[i + 1].as_str());
            proof {
                assert(v@ == rv[i + 1]);
            }
            if is_flag(&a, "--db") {
                db = Some(v);
            } else if is_flag(&a, "--corpus") {
                corpus = Some(v);
            } else if is_flag(&a, "--queries") {
                queries = Some(v);
            } else if is_flag(&a, "--sha") {
                sha = Some(v);
            } else {
                date = Some(v);
            }
            i = i + 2;
        } else {
            return Err(message("unknown arg: ", &a));
        }
    }
    let db_out: Option<String> = match db {
        Some(v) => Some(string_from_chars(v)),
        None => None,
    };
    let ollama_url: String = match ollama_env {
        Some(v) => v,
        None => string_from_chars(str_chars("http://localhost:11434")),
    };
    Ok(EvalArgs {
        db: db_out,
        corpus: text_or(corpus, "../test/sample-files"),
        queries: text_or(queries, "../test/fixtures/eval-queries.json"),
        sha: text_or(sha, "unknown"),
        date: text_or(date, "unknown"),
        ollama_url,
        skip_index,
    })
}

} // verus!
