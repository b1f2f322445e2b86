//! Reading the search intent that the language model returns for a natural-language query.
//!
//! The request to the model and the decoding of JSON fields happen outside; this module
//! builds the prompt, decides which part of the reply to read, salvages the query text
//! from a malformed reply, and keeps only known media types.

use vstd::prelude::*;
use crate::search::{lowercase, to_lowercase};
use crate::text::{
    append_chars, chars_eq, find_char, join_all, join_seqs, lemma_next_index_of, next_index_of,
    slice_vec, str_chars, string_from_chars,
};

verus! {

/// Media types the model may name.
pub open spec fn known_media_types() -> Seq<Seq<char>> {
    seq!["pdf"@, "docx"@, "xlsx"@, "csv"@, "txt"@, "md"@, "png"@, "jpg"@, "jpeg"@]
}

fn known_media_types_exec() -> (r: Vec<Vec<char>>)
    ensures
        r@.map_values(|v: Vec<char>| v@) == known_media_types(),
{
    let v: Vec<Vec<char>> = vec![
        str_chars("pdf"),
        str_chars("docx"),
        str_chars("xlsx"),
        str_chars("csv"),
        str_chars("txt"),
        str_chars("md"),
        str_chars("png"),
        str_chars("jpg"),
        str_chars("jpeg"),
    ];
    proof {
        assert(v@.map_values(|v: Vec<char>| v@) =~= known_media_types());
    }
    v
}

/// The prompt sent to the model for a user query.
pub open spec fn prompt_text(input: Seq<char>) -> Seq<char> {
    "Extract search intent from this query and return ONLY a JSON object with these fields:\n- \"queryText\": the core search terms with filter tokens removed (string)\n- \"mediaTypes\": file types mentioned, from this list only: "@
        + join_seqs(known_media_types(), ", "@)
        + " (array of strings)\n- \"rootScope\": folder/location names mentioned after \"in\" (array of strings, lowercase)\n- \"dateFrom\": start date if mentioned, as YYYY-MM-DD (string, empty if not present)\n- \"dateTo\": end date if mentioned, as YYYY-MM-DD (string, empty if not present)\n- \"minConfidence\": minimum confidence threshold 0.0-1.0 if mentioned (number, 0 otherwise)\n\nQuery: "@
        + input + "\n\nReturn only the JSON object, no explanation."@
}

/// Builds the prompt asking the model for the structured intent of `input`.
pub fn build_prompt(input: &str) -> (r: String)
    ensures
        r@ == prompt_text(input@),
{
    let mut out = str_chars(
        "Extract search intent from this query and return ONLY a JSON object with these fields:\n- \"queryText\": the core search terms with filter tokens removed (string)\n- \"mediaTypes\": file types mentioned, from this list only: ",
    );
    let types = known_media_types_exec();
    let sep = str_chars(", ");
    let joined = join_all(&types, &sep);
    append_chars(&mut out, &joined);
    let mid = str_chars(
        " (array of strings)\n- \"rootScope\": folder/location names mentioned after \"in\" (array of strings, lowercase)\n- \"dateFrom\": start date if mentioned, as YYYY-MM-DD (string, empty if not present)\n- \"dateTo\": end date if mentioned, as YYYY-MM-DD (string, empty if not present)\n- \"minConfidence\": minimum confidence threshold 0.0-1.0 if mentioned (number, 0 otherwise)\n\nQuery: ",
    );
    append_chars(&mut out, &mid);
    let inp = str_chars(input);
    append_chars(&mut out, &inp);
    let tail = str_chars("\n\nReturn only the JSON object, no explanation.");
    append_chars(&mut out, &tail);
    string_from_chars(out)
}

/// `text` is a JSON document that `serde_json` accepts.
pub uninterp spec fn is_json(text: Seq<char>) -> bool;

/// `serde_json::from_str::<serde_json::Value>(text).is_ok()`.
#[verifier::external_body]
fn json_parses(text: &str) -> (r: bool)
    ensures
        r == is_json(text@),
{
    serde_json::from_str::<serde_json::Value>(text).is_ok()
}

/// Brace depth after the characters `t[start..=i]`.
pub open spec fn depth_after(t: Seq<char>, start: int, i: int) -> int
    decreases i - start + 1,
{
    if i < start {
        0
    } else {
        depth_after(t, start, i - 1) + if t[i] == '{' {
            1int
        } else if t[i] == '}' {
            -1int
        } else {
            0int
        }
    }
}

/// First index `i >= from` (scanning characters from `start`) at which a `'}'` brings
/// the depth back to zero, or `-1`.
pub open spec fn close_index(t: Seq<char>, start: int, from: int) -> int
    decreases t.len() - from,
{
    if from < start || from >= t.len() {
        -1
    } else if t[from] == '}' && depth_after(t, start, from) == 0 {
        from
    } else {
        close_index(t, start, from + 1)
    }
}

proof fn lemma_close_index(t: Seq<char>, start: int, from: int)
    requires
        start <= from,
    ensures
        close_index(t, start, from) == -1 || (from <= close_index(t, start, from) < t.len()),
    decreases t.len() - from,
{
    if from < t.len() && !(t[from] == '}' && depth_after(t, start, from) == 0) {
        lemma_close_index(t, start, from + 1);
    }
}

/// The first brace-balanced object of a reply: from its first `'{'` to the `'}'` that
/// closes it.
pub open spec fn balanced_span(t: Seq<char>) -> Option<(int, int)> {
    let start = next_index_of(t, 0, '{');
    if start >= t.len() {
        None
    } else {
        let e = close_index(t, start, start);
        if e < 0 {
            None
        } else {
            Some((start, e + 1))
        }
    }
}

/// Which part of a model reply holds the intent.
pub enum ReplyJson {
    /// The whole reply is JSON.
    Whole,
    /// The first balanced object inside the reply is JSON.
    Object(String),
    /// No JSON found: only the query text can be salvaged.
    Salvage,
}

/// The first balanced object of `t`, as character bounds `[lo, hi)`.
pub fn find_balanced(text: &str) -> (r: Option<(usize, usize)>)
    ensures
        match r {
            Some((lo, hi)) => balanced_span(text@) == Some((lo as int, hi as int)) && lo < hi
                <= text@.len(),
            None => balanced_span(text@) is None,
        },
        balanced_span(text@) matches Some((lo, hi)) ==> 0 <= lo < hi <= text@.len(),
{
    let t = str_chars(text);
    let start = find_char(&t, 0, '{');
    proof {
        lemma_next_index_of(t@, 0, '{');
        lemma_close_index(t@, start as int, start as int);
    }
    if start >= t.len() {
        return None;
    }
    let mut depth: i128 = 0;
    let mut i: usize = start;
    while i < t.len()
        invariant
            start <= i <= t.len(),
            start < t.len(),
            t@ == text@,
            next_index_of(text@, 0, '{') == start,
            depth == depth_after(t@, start as int, i - 1),
            -((i - start) as int) <= depth <= (i - start) as int,
            close_index(t@, start as int, i as int) == close_index(t@, start as int, start as int),
        decreases t.len() - i,
    {
        if t[i] == '{' {
            depth = depth + 1;
        } else if t[i] == '}' {
            depth = depth - 1;
            if depth == 0 {
                proof {
                    assert(depth_after(t@, start as int, i as int) == 0);
                    assert(close_index(t@, start as int, i as int) == i);
                }
                return Some((start, i + 1));
            }
        }
        i = i + 1;
    }
    None
}

/// Decides which part of a model reply to read: the whole reply when it is JSON, else
/// the first balanced object when that is JSON, else nothing (salvage).
pub fn choose_reply_json(text: &str) -> (r: ReplyJson)
    ensures
        is_json(text@) ==> r is Whole,
        !is_json(text@) ==> match balanced_span(text@) {
            Some((lo, hi)) => {
                let slice = text@.subrange(lo, hi);
                if is_json(slice) {
                    r matches ReplyJson::Object(s) && s@ == slice
                } else {
                    r is Salvage
                }
            },
            None => r is Salvage,
        },
{
    if json_parses(text) {
        return ReplyJson::Whole;
    }
    match find_balanced(text) {
        None => ReplyJson::Salvage,
        Some((lo, hi)) => {
            let t = str_chars(text);
            let slice = string_from_chars(slice_vec(&t, lo, hi));
            if json_parses(slice.as_str()) {
                ReplyJson::Object(slice)
            } else {
                ReplyJson::Salvage
            }
        },
    }
}

/// First capture group of the first match of a regular expression in a text, when the
/// pattern compiles and matches.
pub uninterp spec fn regex_capture(pattern: Seq<char>, text: Seq<char>) -> Option<Seq<char>>;

/// `regex::Regex::new(pattern)` then `captures(text)` and group 1.
#[verifier::external_body]
fn regex_first_capture(pattern: &str, text: &str) -> (r: Option<String>)
    ensures
        match r {
            Some(c) => regex_capture(pattern@, text@) == Some(c@),
            None => regex_capture(pattern@, text@) is None,
        },
{
    let re = regex::Regex::new(pattern).ok()?;
    re.captures(text)?.get(1).map(|m| m.as_str().to_string())
}

/// Pattern matching `"field" : "value"`, with or without quotes around the field's
/// name, and capturing the value.
pub open spec fn field_pattern(field: Seq<char>) -> Seq<char> {
    "\"?"@ + field + "\"?\\s*:\\s*\"([^\"]*)\""@
}

/// The string value of `field` salvaged from a malformed reply, or empty.
pub fn salvage_string_field(text: &str, field: &str) -> (r: String)
    ensures
        match regex_capture(field_pattern(field@), text@) {
            Some(c) => r@ == c,
            None => r@.len() == 0,
        },
{
    let mut p: Vec<char> = str_chars("\"?");
    let f = str_chars(field);
    append_chars(&mut p, &f);
    let tail = str_chars("\"?\\s*:\\s*\"([^\"]*)\"");
    append_chars(&mut p, &tail);
    proof {
        assert(p@ =~= field_pattern(field@));
    }
    let pattern = string_from_chars(p);
    match regex_first_capture(pattern.as_str(), text) {
        Some(c) => c,
        None => string_from_chars(Vec::new()),
    }
}

/// The requested media types that are known, in order.
pub open spec fn known_only(ts: Seq<Seq<char>>) -> Seq<Seq<char>>
    decreases ts.len(),
{
    if ts.len() == 0 {
        seq![]
    } else if known_media_types().contains(ts.last()) {
        known_only(ts.drop_last()).push(ts.last())
    } else {
        known_only(ts.drop_last())
    }
}

fn is_known(t: &Vec<char>, known: &Vec<Vec<char>>) -> (r: bool)
    requires
        known@.map_values(|v: Vec<char>| v@) == known_media_types(),
    ensures
        r == known_media_types().contains(t@),
{
    let ghost kv = known@.map_values(|v: Vec<char>| v@);
    let mut k: usize = 0;
    while k < known.len()
        invariant
            k <= known.len(),
            kv == known@.map_values(|v: Vec<char>| v@),
            kv == known_media_types(),
            forall|j: int| 0 <= j < k ==> kv[j] != t@,
        decreases known.len() - k,
    {
        if chars_eq(&known[k], t) {
            proof {
                assert(kv[k as int] == t@);
                assert(known_media_types()[k as int] == t@);
            }
            return true;
        }
        k = k + 1;
    }
    proof {
        assert forall|j: int| 0 <= j < known_media_types().len() implies known_media_types()[j]
            != t@ by {
            assert(kv[j] != t@);
        }
    }
    false
}

/// The texts of a list field of the reply (media types, root scope), each lowercased.
pub fn lowercase_all(items: &Vec<String>) -> (r: Vec<String>)
    ensures
        r@.map_values(|s: String| s@) == items@.map_values(|s: String| lowercase(s@)),
{
    let mut out: Vec<String> = Vec::new();
    let mut k: usize = 0;
    while k < items.len()
        invariant
            k <= items.len(),
            out@.map_values(|s: String| s@) == items@.subrange(0, k as int).map_values(
                |s: String| lowercase(s@),
            ),
        decreases items.len() - k,
    {
        let lo = to_lowercase(items[k].as_str());
        let ghost before = out@;
        out.push(lo);
        proof {
            let a = out@.map_values(|s: String| s@);
            let b = items@.subrange(0, k + 1).map_values(|s: String| lowercase(s@));
            let pa = before.map_values(|s: String| s@);
            let pb = items@.subrange(0, k as int).map_values(|s: String| lowercase(s@));
            assert(pa.len() == before.len() && pb.len() == k);
            assert(out@ == before.push(lo));
            assert forall|i: int| 0 <= i < k + 1 implies a[i] == b[i] by {
                if i < k {
                    assert(out@[i] == before[i]);
                    assert(items@.subrange(0, k + 1)[i] == items@.subrange(0, k as int)[i]);
                    assert(pa[i] == pb[i]);
                }
            }
            assert(a =~= b);
        }
        k = k + 1;
    }
    proof {
        assert(items@.subrange(0, items.len() as int) =~= items@);
    }
    out
}

/// Keeps only the media types the model may name (dropping unknown ones such as `pptx`).
pub fn sanitize_media_types(types: &Vec<String>) -> (r: Vec<String>)
    ensures
        r@.map_values(|s: String| s@) == known_only(types@.map_values(|s: String| s@)),
{
    let known = known_media_types_exec();
    let ghost all = types@.map_values(|s: String| s@);
    let mut out: Vec<String> = Vec::new();
    let mut k: usize = 0;
    while k < types.len()
        invariant
            k <= types.len(),
            all == types@.map_values(|s: String| s@),
            known@.map_values(|v: Vec<char>| v@) == known_media_types(),
            out@.map_values(|s: String| s@) == known_only(all.subrange(0, k as int)),
        decreases types.len() - k,
    {
        let t = str_chars(types[k].as_str());
        let ghost before = out@.map_values(|s: String| s@);
        proof {
            let next = all.subrange(0, k + 1);
            assert(next.drop_last() =~= all.subrange(0, k as int));
            assert(next.last() == t@);
        }
        if is_known(&t, &known) {
            out.push(types[k].clone());
            proof {
                assert(out@.map_values(|s: String| s@) =~= before.push(t@));
            }
        }
        k = k + 1;
    }
    proof {
        assert(all.subrange(0, types.len() as int) =~= all);
    }
    out
}

/// Sanitizing keeps exactly the requested types that are known, and sanitizing again
/// changes nothing.
pub proof fn lemma_known_only(ts: Seq<Seq<char>>)
    ensures
        forall|x: Seq<char>|
            #![trigger known_only(ts).contains(x)]
            known_only(ts).contains(x) <==> (ts.contains(x) && known_media_types().contains(x)),
        known_only(known_only(ts)) == known_only(ts),
    decreases ts.len(),
{
    if ts.len() > 0 {
        let p = ts.drop_last();
        let l = ts.last();
        lemma_known_only(p);
        assert forall|x: Seq<char>|
            known_only(ts).contains(x) <==> (ts.contains(x) && known_media_types().contains(x)) by {
            if ts.contains(x) && x != l {
                let k = choose|k: int| 0 <= k < ts.len() && ts[k] == x;
                assert(p[k] == x);
            }
            if p.contains(x) {
                let k = choose|k: int| 0 <= k < p.len() && p[k] == x;
                assert(ts[k] == x);
            }
            if x == l {
                assert(ts[ts.len() - 1] == x);
            }
            if known_media_types().contains(l) {
                let q = known_only(p);
                assert(known_only(ts) == q.push(l));
                if q.push(l).contains(x) && x != l {
                    let k = choose|k: int| 0 <= k < q.push(l).len() && q.push(l)[k] == x;
                    assert(q[k] == x);
                }
                if q.contains(x) {
                    let k = choose|k: int| 0 <= k < q.len() && q[k] == x;
                    assert(q.push(l)[k] == x);
                }
                if x == l {
                    assert(q.push(l)[q.len() as int] == x);
                }
            }
        }
        if known_media_types().contains(l) {
            let q = known_only(p);
            assert(q.push(l).drop_last() =~= q);
            assert(q.push(l).last() == l);
        }
    }
}

} // verus!
