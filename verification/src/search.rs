//! Hybrid search: query escaping, date filters, reciprocal-rank fusion of the full-text
//! and vector passes, filtering, ordering and cursor pagination.
//!
//! The two retrieval passes and the metadata lookup run in the database; this module
//! decides what is done with the rows they return.

use vstd::prelude::*;
use crate::search_laws::{
    hit_ids_distinct, hits_sorted, lemma_page_in_display_order, lemma_results_distinct_files,
    row_ids_distinct,
};
use base64::Engine;
use crate::text::{chars_eq, split_chars, split_seq, str_chars, string_from_chars};

verus! {

// ── FTS5 escaping ───────────────────────────────────────────────────────────

/// `s` with every `"` doubled.
pub open spec fn escape_quotes(s: Seq<char>) -> Seq<char>
    decreases s.len(),
{
    if s.len() == 0 {
        seq![]
    } else {
        escape_quotes(s.drop_last()) + if s.last() == '"' {
            seq!['"', '"']
        } else {
            seq![s.last()]
        }
    }
}

/// Escapes a user query for FTS5: embedded double quotes are doubled; the query is
/// not wrapped in quotes, so FTS5 still honours `AND` / `OR` / `NOT`.
pub fn fts5_escape(query: &str) -> (r: String)
    ensures
        r@ == escape_quotes(query@),
{
    let q = str_chars(query);
    let mut out: Vec<char> = Vec::new();
    let mut k: usize = 0;
    while k < q.len()
        invariant
            k <= q.len(),
            q@ == query@,
            out@ == escape_quotes(q@.subrange(0, k as int)),
        decreases q.len() - k,
    {
        if q[k] == '"' {
            out.push('"');
            out.push('"');
        } else {
            out.push(q[k]);
        }
        proof {
            let next = q@.subrange(0, k + 1);
            assert(next.drop_last() =~= q@.subrange(0, k as int));
            assert(out@ =~= escape_quotes(next));
        }
        k = k + 1;
    }
    proof {
        assert(q@.subrange(0, q.len() as int) =~= q@);
    }
    string_from_chars(out)
}

// ── integer parsing ─────────────────────────────────────────────────────────

/// Every character is an ASCII digit, and there is at least one.
pub open spec fn all_digits(s: Seq<char>) -> bool {
    s.len() > 0 && forall|k: int| 0 <= k < s.len() ==> '0' <= #[trigger] s[k] && s[k] <= '9'
}

/// Decimal value of a digit string.
pub open spec fn digits_value(s: Seq<char>) -> int
    decreases s.len(),
{
    if s.len() == 0 {
        0
    } else {
        digits_value(s.drop_last()) * 10 + (s.last() as int - '0' as int)
    }
}

/// `str::parse::<i64>`: an optional sign then decimal digits, within `i64`'s range.
pub open spec fn parse_i64(s: Seq<char>) -> Option<int> {
    if s.len() > 0 && s[0] == '-' && all_digits(s.drop_first()) {
        if -digits_value(s.drop_first()) >= i64::MIN {
            Some(-digits_value(s.drop_first()))
        } else {
            None
        }
    } else if s.len() > 0 && s[0] == '+' && all_digits(s.drop_first()) {
        if digits_value(s.drop_first()) <= i64::MAX {
            Some(digits_value(s.drop_first()))
        } else {
            None
        }
    } else if all_digits(s) {
        if digits_value(s) <= i64::MAX {
            Some(digits_value(s))
        } else {
            None
        }
    } else {
        None
    }
}

proof fn lemma_digits_nonneg(s: Seq<char>)
    requires
        forall|k: int| 0 <= k < s.len() ==> '0' <= #[trigger] s[k] && s[k] <= '9',
    ensures
        digits_value(s) >= 0,
    decreases s.len(),
{
    if s.len() > 0 {
        lemma_digits_nonneg(s.drop_last());
    }
}

/// Value of the digits `s[from..]`, or `None` when one is not a digit, there are none,
/// or the value exceeds `2^63`.
fn digits_upto(s: &Vec<char>, from: usize) -> (r: Option<u128>)
    requires
        from <= s.len(),
    ensures
        match r {
            Some(v) => all_digits(s@.subrange(from as int, s.len() as int)) && v == digits_value(
                s@.subrange(from as int, s.len() as int),
            ) && v <= 0x8000_0000_0000_0000,
            None => !all_digits(s@.subrange(from as int, s.len() as int)) || digits_value(
                s@.subrange(from as int, s.len() as int),
            ) > 0x8000_0000_0000_0000,
        },
{
    if from >= s.len() {
        return None;
    }
    let mut acc: u128 = 0;
    let mut over = false;
    let mut k: usize = from;
    while k < s.len()
        invariant
            from <= k <= s.len(),
            forall|u: int| from <= u < k ==> '0' <= #[trigger] s@[u] && s@[u] <= '9',
            !over ==> acc == digits_value(s@.subrange(from as int, k as int)) && acc
                <= 0x8000_0000_0000_0000,
            over ==> digits_value(s@.subrange(from as int, k as int)) > 0x8000_0000_0000_0000,
        decreases s.len() - k,
    {
        let c = s[k];
        if !('0' <= c && c <= '9') {
            proof {
                assert(s@.subrange(from as int, s.len() as int)[k - from] == c);
            }
            return None;
        }
        let d: u128 = (c as u32 - '0' as u32) as u128;
        proof {
            let next = s@.subrange(from as int, k + 1);
            assert(next.drop_last() =~= s@.subrange(from as int, k as int));
            assert(next.last() == c);
            lemma_digits_nonneg(s@.subrange(from as int, k as int));
        }
        if !over {
            acc = acc * 10 + d;
            if acc > 0x8000_0000_0000_0000 {
                over = true;
            }
        }
        k = k + 1;
    }
    proof {
        assert forall|u: int| 0 <= u < s@.subrange(from as int, s.len() as int).len() implies '0'
            <= #[trigger] s@.subrange(from as int, s.len() as int)[u] && s@.subrange(
            from as int,
            s.len() as int,
        )[u] <= '9' by {
            assert(s@.subrange(from as int, s.len() as int)[u] == s@[from + u]);
        }
    }
    if over {
        None
    } else {
        Some(acc)
    }
}

/// `str::parse::<i64>` on a character vector.
pub fn parse_i64_chars(s: &Vec<char>) -> (r: Option<i64>)
    ensures
        match parse_i64(s@) {
            Some(v) => r == Some(v as i64),
            None => r is None,
        },
        r matches Some(x) ==> parse_i64(s@) == Some(x as int),
{
    if s.len() > 0 && (s[0] == '-' || s[0] == '+') {
        proof {
            assert(s@.subrange(1, s.len() as int) =~= s@.drop_first());
        }
        match digits_upto(s, 1) {
            None => {
                proof {
                    if s@[0] == '-' && all_digits(s@.drop_first()) {
                        assert(-digits_value(s@.drop_first()) < i64::MIN);
                    }
                    assert(!all_digits(s@)) by {
                        assert(!('0' <= s@[0] && s@[0] <= '9'));
                    }
                }
                None
            },
            Some(v) => {
                if s[0] == '-' {
                    if v == 0x8000_0000_0000_0000 {
                        Some(i64::MIN)
                    } else {
                        Some(-(v as i64))
                    }
                } else {
                    if v > 0x7fff_ffff_ffff_ffff {
                        proof {
                            assert(!all_digits(s@)) by {
                                assert(!('0' <= s@[0] && s@[0] <= '9'));
                            }
                        }
                        None
                    } else {
                        Some(v as i64)
                    }
                }
            },
        }
    } else {
        proof {
            assert(s@.subrange(0, s.len() as int) =~= s@);
        }
        match digits_upto(s, 0) {
            None => None,
            Some(v) => {
                if v > 0x7fff_ffff_ffff_ffff {
                    None
                } else {
                    Some(v as i64)
                }
            },
        }
    }
}

} // verus!

verus! {

// ── dates ───────────────────────────────────────────────────────────────────

/// Integer division truncating toward zero, as Rust's `/` on integers (`b > 0`).
pub open spec fn tdiv(a: int, b: int) -> int {
    if a >= 0 {
        a / b
    } else {
        -((-a) / b)
    }
}

/// Leap days in years `1..=y` of the proleptic Gregorian calendar (truncating).
pub open spec fn leap_days(y: int) -> int {
    tdiv(y, 4) - tdiv(y, 100) + tdiv(y, 400)
}

/// Gregorian leap year.
pub open spec fn is_leap(y: int) -> bool {
    y % 4 == 0 && (y % 100 != 0 || y % 400 == 0)
}

/// Days before the first of month `idx + 1` in a common year.
pub open spec fn month_offset(idx: int) -> int {
    if idx == 0 {
        0
    } else if idx == 1 {
        31
    } else if idx == 2 {
        59
    } else if idx == 3 {
        90
    } else if idx == 4 {
        120
    } else if idx == 5 {
        151
    } else if idx == 6 {
        181
    } else if idx == 7 {
        212
    } else if idx == 8 {
        243
    } else if idx == 9 {
        273
    } else if idx == 10 {
        304
    } else {
        334
    }
}

/// Month table index of month `m` (`1..=12`).
pub open spec fn month_index(m: int) -> int {
    m - 1
}

/// Days from 1970-01-01 to `y-m-d`.
pub open spec fn days_from_epoch(y: int, m: int, d: int) -> int {
    (y - 1970) * 365 + leap_days(y - 1) - leap_days(1969) + month_offset(month_index(m)) + d - 1
        + if m > 2 && is_leap(y) {
        1int
    } else {
        0int
    }
}

/// Seconds since the epoch of midnight UTC of a `YYYY-MM-DD` date; `None` when the
/// text is not three `-`-separated integers or the month is not in `1..=12`.
pub open spec fn date_seconds(s: Seq<char>) -> Option<int> {
    let parts = split_seq(s, '-');
    if parts.len() != 3 {
        None
    } else {
        match (parse_i64(parts[0]), parse_i64(parts[1]), parse_i64(parts[2])) {
            (Some(y), Some(m), Some(d)) => if 1 <= m <= 12 {
                Some(days_from_epoch(y, m, d) * 86400)
            } else {
                None
            },
            _ => None,
        }
    }
}

fn tdiv_exec(a: i128, b: i128) -> (r: i128)
    requires
        b > 0,
        -0x1_0000_0000_0000_0000 < a < 0x1_0000_0000_0000_0000,
    ensures
        r == tdiv(a as int, b as int),
{
    proof {
        lemma_tdiv_bound(a as int, b as int);
    }
    if a >= 0 {
        a / b
    } else {
        -((-a) / b)
    }
}

proof fn lemma_tdiv_bound(a: int, b: int)
    requires
        b > 0,
    ensures
        -a <= tdiv(a, b) <= a || a <= tdiv(a, b) <= -a,
{
    if a >= 0 {
        assert(0 <= a / b <= a) by (nonlinear_arith)
            requires a >= 0, b > 0;
    } else {
        assert(0 <= (-a) / b <= -a) by (nonlinear_arith)
            requires -a > 0, b > 0;
    }
}

fn month_offset_exec(idx: i128) -> (r: i128)
    ensures
        r == month_offset(idx as int),
{
    if idx == 0 {
        0
    } else if idx == 1 {
        31
    } else if idx == 2 {
        59
    } else if idx == 3 {
        90
    } else if idx == 4 {
        120
    } else if idx == 5 {
        151
    } else if idx == 6 {
        181
    } else if idx == 7 {
        212
    } else if idx == 8 {
        243
    } else if idx == 9 {
        273
    } else if idx == 10 {
        304
    } else {
        334
    }
}

/// `a` is divisible by `b` (`b > 0`).
fn divisible(a: i128, b: i128) -> (r: bool)
    requires
        b > 0,
        -0x1_0000_0000_0000_0000 < a < 0x1_0000_0000_0000_0000,
    ensures
        r == (a as int % b as int == 0),
{
    let m = if a >= 0 { a % b } else { (-a) % b };
    proof {
        if a < 0 {
            lemma_neg_mod_zero(a as int, b as int);
        }
    }
    m == 0
}

proof fn lemma_neg_mod_zero(a: int, b: int)
    requires
        b > 0,
    ensures
        ((-a) % b == 0) == (a % b == 0),
{
    vstd::arithmetic::div_mod::lemma_fundamental_div_mod(a, b);
    vstd::arithmetic::div_mod::lemma_fundamental_div_mod(-a, b);
    if a % b == 0 {
        let q = a / b;
        assert(-a == (-q) * b + 0) by (nonlinear_arith)
            requires a == b * q;
        vstd::arithmetic::div_mod::lemma_fundamental_div_mod_converse_mod(-a, b, -q, 0);
    }
    if (-a) % b == 0 {
        let q = (-a) / b;
        assert(a == (-q) * b + 0) by (nonlinear_arith)
            requires -a == b * q;
        vstd::arithmetic::div_mod::lemma_fundamental_div_mod_converse_mod(a, b, -q, 0);
    }
}

/// Days from the epoch of `y-m-d`.
fn days_exec(y: i128, m: i128, d: i128) -> (r: i128)
    requires
        -0x8000_0000_0000_0000 <= y < 0x8000_0000_0000_0000,
        1 <= m <= 12,
        -0x8000_0000_0000_0000 <= d < 0x8000_0000_0000_0000,
    ensures
        r == days_from_epoch(y as int, m as int, d as int),
        -0x1000_0000_0000_0000_0000 < r < 0x1000_0000_0000_0000_0000,
{
    proof {
        lemma_tdiv_bound((y - 1) as int, 4);
        lemma_tdiv_bound((y - 1) as int, 100);
        lemma_tdiv_bound((y - 1) as int, 400);
    }
    let ld = tdiv_exec(y - 1, 4) - tdiv_exec(y - 1, 100) + tdiv_exec(y - 1, 400);
    let idx: i128 = m - 1;
    let leap = divisible(y, 4) && (!divisible(y, 100) || divisible(y, 400));
    let extra: i128 = if m > 2 && leap { 1 } else { 0 };
    assert(leap_days(1969) == 477);
    (y - 1970) * 365 + ld - 477 + month_offset_exec(idx) + d - 1 + extra
}

/// Seconds of a date, exactly, when it fits in an `i64`.
fn date_seconds_exec(s: &str) -> (r: Option<i128>)
    ensures
        match date_seconds(s@) {
            Some(v) => r == Some(v as i128) && -0x8000_0000_0000_0000_0000_0000 < v
                < 0x8000_0000_0000_0000_0000_0000,
            None => r is None,
        },
{
    let chars = str_chars(s);
    let parts = split_chars(&chars, '-');
    if parts.len() != 3 {
        return None;
    }
    let ghost ps = parts@.map_values(|v: Vec<char>| v@);
    assert(ps[0] == parts@[0]@ && ps[1] == parts@[1]@ && ps[2] == parts@[2]@);
    let y = match parse_i64_chars(&parts[0]) {
        Some(v) => v as i128,
        None => return None,
    };
    let m = match parse_i64_chars(&parts[1]) {
        Some(v) => v as i128,
        None => return None,
    };
    let d = match parse_i64_chars(&parts[2]) {
        Some(v) => v as i128,
        None => return None,
    };
    if m < 1 || m > 12 {
        proof {
            assert(parse_i64(ps[0]) == Some(y as int));
            assert(parse_i64(ps[1]) == Some(m as int));
            assert(parse_i64(ps[2]) == Some(d as int));
        }
        return None;
    }
    proof {
        assert(parse_i64(ps[0]) == Some(y as int));
        assert(parse_i64(ps[1]) == Some(m as int));
        assert(parse_i64(ps[2]) == Some(d as int));
    }
    let days = days_exec(y, m, d);
    assert(date_seconds(s@) == Some(days * 86400));
    Some(days * 86400)
}

} // verus!

verus! {

/// Seconds since the epoch of a `YYYY-MM-DD` date (midnight UTC, proleptic Gregorian),
/// when the text is three `-`-separated integers and the value fits in an `i64`.
pub open spec fn date_unix(s: Seq<char>) -> Option<int> {
    match date_seconds(s) {
        Some(v) => if i64::MIN <= v <= i64::MAX {
            Some(v)
        } else {
            None
        },
        None => None,
    }
}

/// Parses `"YYYY-MM-DD"` to unix seconds (midnight UTC, proleptic Gregorian);
/// `None` on malformed input.
pub fn date_str_to_unix(s: &str) -> (r: Option<i64>)
    ensures
        match date_unix(s@) {
            Some(v) => r == Some(v as i64),
            None => r is None,
        },
{
    match date_seconds_exec(s) {
        Some(v) => {
            if v >= i64::MIN as i128 && v <= i64::MAX as i128 {
                Some(v as i64)
            } else {
                None
            }
        },
        None => None,
    }
}

/// Lower bound, in nanoseconds, that a `date_from` filter puts on a file's mtime.
pub open spec fn from_bound_ns(s: Seq<char>) -> Option<int> {
    match date_unix(s) {
        Some(t) => Some(t * 1_000_000_000),
        None => None,
    }
}

/// Upper bound, in nanoseconds, that a `date_to` filter puts on a file's mtime
/// (the last second of that day).
pub open spec fn to_bound_ns(s: Seq<char>) -> Option<int> {
    match date_unix(s) {
        Some(t) => Some((t + 86399) * 1_000_000_000),
        None => None,
    }
}

fn bound_ns(s: &Option<String>, end_of_day: bool) -> (r: Option<i128>)
    ensures
        match s {
            None => r is None,
            Some(t) => if end_of_day {
                match to_bound_ns(t@) {
                    Some(v) => r == Some(v as i128),
                    None => r is None,
                }
            } else {
                match from_bound_ns(t@) {
                    Some(v) => r == Some(v as i128),
                    None => r is None,
                }
            },
        },
{
    match s {
        None => None,
        Some(t) => match date_str_to_unix(t.as_str()) {
            None => None,
            Some(v) => {
                let v = v as i128;
                if end_of_day {
                    Some((v + 86399) * 1_000_000_000)
                } else {
                    Some(v * 1_000_000_000)
                }
            },
        },
    }
}

// ── reciprocal-rank fusion ──────────────────────────────────────────────────

/// The distinct elements of `s`, in order of first occurrence.
pub open spec fn dedup(s: Seq<i64>) -> Seq<i64>
    decreases s.len(),
{
    if s.len() == 0 {
        seq![]
    } else if dedup(s.drop_last()).contains(s.last()) {
        dedup(s.drop_last())
    } else {
        dedup(s.drop_last()).push(s.last())
    }
}

pub proof fn lemma_dedup(s: Seq<i64>)
    ensures
        forall|x: i64|
            #![trigger dedup(s).contains(x)]
            #![trigger s.contains(x)]
            dedup(s).contains(x) <==> s.contains(x),
        forall|i: int, j: int| 0 <= i < j < dedup(s).len() ==> dedup(s)[i] != dedup(s)[j],
        dedup(s).len() <= s.len(),
    decreases s.len(),
{
    if s.len() > 0 {
        lemma_dedup(s.drop_last());
        let p = s.drop_last();
        let dp = dedup(p);
        assert forall|x: i64| dedup(s).contains(x) <==> s.contains(x) by {
            if x == s.last() {
                assert(s[s.len() - 1] == x);
                if !dp.contains(x) {
                    assert(dedup(s) == dp.push(x));
                    assert(dedup(s)[dp.len() as int] == x);
                }
            } else {
                if dedup(s).contains(x) {
                    let k = choose|k: int| 0 <= k < dedup(s).len() && dedup(s)[k] == x;
                    if !dp.contains(s.last()) {
                        assert(k < dp.len());
                        assert(dp[k] == x);
                    }
                    assert(dp.contains(x));
                    let j = choose|j: int| 0 <= j < p.len() && p[j] == x;
                    assert(s[j] == x);
                }
                if s.contains(x) {
                    let k = choose|k: int| 0 <= k < s.len() && s[k] == x;
                    assert(k < s.len() - 1);
                    assert(p[k] == x);
                    assert(dp.contains(x));
                    let j = choose|j: int| 0 <= j < dp.len() && dp[j] == x;
                    if !dp.contains(s.last()) {
                        assert(dedup(s)[j] == x);
                    }
                }
            }
        }
    }
}

/// Index of the first occurrence of `x` in `s`, or `-1`.
pub open spec fn first_index(s: Seq<i64>, x: i64) -> int
    decreases s.len(),
{
    if s.len() == 0 {
        -1
    } else if first_index(s.drop_last(), x) >= 0 {
        first_index(s.drop_last(), x)
    } else if s.last() == x {
        s.len() - 1
    } else {
        -1
    }
}

/// 1-based rank of `x` among the distinct elements of `s` (best first), if present.
pub open spec fn rank_in(s: Seq<i64>, x: i64) -> Option<int> {
    let k = first_index(dedup(s), x);
    if k >= 0 {
        Some(k + 1)
    } else {
        None
    }
}

/// One row of the vector pass: a chunk close to the query and the file it belongs to.
#[derive(Clone, Copy)]
pub struct VecHit {
    pub chunk_id: i64,
    pub file_id: i64,
}

/// File ids of the vector rows, in order.
pub open spec fn vec_files(hits: Seq<VecHit>) -> Seq<i64> {
    hits.map_values(|h: VecHit| h.file_id)
}

/// The closest chunk of a file: the chunk of its first vector row.
pub open spec fn best_chunk(hits: Seq<VecHit>, x: i64) -> Option<i64> {
    let k = first_index(vec_files(hits), x);
    if k >= 0 {
        Some(hits[k].chunk_id)
    } else {
        None
    }
}

/// A file found by either pass, with its 1-based rank in each pass that found it.
#[derive(Clone, Copy)]
pub struct Candidate {
    pub file_id: i64,
    pub fts_rank: Option<u64>,
    pub vec_rank: Option<u64>,
    pub best_chunk: Option<i64>,
}

/// An optional rank as an integer.
pub open spec fn opt_int(o: Option<u64>) -> Option<int> {
    match o {
        Some(r) => Some(r as int),
        None => None,
    }
}

/// An optional rank that, when present, is at most `n`.
pub open spec fn rank_le(o: Option<u64>, n: int) -> bool {
    match o {
        Some(f) => f <= n,
        None => true,
    }
}

/// What a candidate for `x` holds, given the two passes' rows.
pub open spec fn candidate_for(fts: Seq<i64>, hits: Seq<VecHit>, c: Candidate) -> bool {
    &&& opt_int(c.fts_rank) == rank_in(fts, c.file_id)
    &&& opt_int(c.vec_rank) == rank_in(vec_files(hits), c.file_id)
    &&& c.best_chunk == best_chunk(hits, c.file_id)
}

} // verus!

verus! {

pub proof fn lemma_first_index(s: Seq<i64>, x: i64)
    ensures
        -1 <= first_index(s, x) < s.len(),
        first_index(s, x) >= 0 ==> s[first_index(s, x)] == x,
        forall|j: int| 0 <= j < first_index(s, x) ==> s[j] != x,
        first_index(s, x) == -1 <==> !s.contains(x),
    decreases s.len(),
{
    if s.len() > 0 {
        lemma_first_index(s.drop_last(), x);
        if first_index(s.drop_last(), x) >= 0 {
            assert(s.contains(x)) by {
                assert(s[first_index(s.drop_last(), x)] == x);
            }
            assert forall|j: int| 0 <= j < first_index(s, x) implies s[j] != x by {
                assert(s.drop_last()[j] == s[j]);
            }
        } else if s.last() == x {
            assert(s[s.len() - 1] == x);
            assert forall|j: int| 0 <= j < s.len() - 1 implies s[j] != x by {
                assert(s.drop_last()[j] == s[j]);
                if s[j] == x {
                    assert(s.drop_last().contains(x));
                }
            }
        } else {
            assert forall|j: int| 0 <= j < s.len() implies s[j] != x by {
                if j < s.len() - 1 {
                    assert(s.drop_last()[j] == s[j]);
                    if s[j] == x {
                        assert(s.drop_last().contains(x));
                    }
                }
            }
        }
    }
}

/// Position of the first `x` in `s`.
fn first_index_exec(s: &Vec<i64>, x: i64) -> (r: Option<usize>)
    ensures
        match r {
            Some(k) => first_index(s@, x) == k,
            None => first_index(s@, x) == -1,
        },
{
    proof {
        lemma_first_index(s@, x);
    }
    let mut k: usize = 0;
    while k < s.len()
        invariant
            k <= s.len(),
            forall|j: int| 0 <= j < k ==> s@[j] != x,
            -1 <= first_index(s@, x) < s.len(),
            first_index(s@, x) >= 0 ==> s@[first_index(s@, x)] == x,
            forall|j: int| 0 <= j < first_index(s@, x) ==> s@[j] != x,
            first_index(s@, x) == -1 <==> !s@.contains(x),
        decreases s.len() - k,
    {
        if s[k] == x {
            return Some(k);
        }
        k = k + 1;
    }
    None
}

/// `dedup` of a vector.
fn dedup_vec(s: &Vec<i64>) -> (r: Vec<i64>)
    ensures
        r@ == dedup(s@),
{
    let mut r: Vec<i64> = Vec::new();
    let mut k: usize = 0;
    while k < s.len()
        invariant
            k <= s.len(),
            r@ == dedup(s@.subrange(0, k as int)),
        decreases s.len() - k,
    {
        let ghost next = s@.subrange(0, k + 1);
        proof {
            assert(next.drop_last() =~= s@.subrange(0, k as int));
            assert(next.last() == s@[k as int]);
            lemma_first_index(r@, s@[k as int]);
        }
        match first_index_exec(&r, s[k]) {
            Some(_) => {},
            None => {
                r.push(s[k]);
            },
        }
        k = k + 1;
    }
    proof {
        assert(s@.subrange(0, s.len() as int) =~= s@);
    }
    r
}

/// Inserts `x` into the strictly increasing `v`, unless already present.
fn insert_sorted(v: &mut Vec<i64>, x: i64)
    requires
        forall|i: int, j: int| 0 <= i < j < old(v).len() ==> old(v)[i] < old(v)[j],
    ensures
        forall|i: int, j: int| 0 <= i < j < final(v).len() ==> final(v)[i] < final(v)[j],
        forall|y: i64| final(v)@.contains(y) <==> (old(v)@.contains(y) || y == x),
{
    let mut k: usize = 0;
    while k < v.len() && v[k] < x
        invariant
            k <= v.len(),
            v@ == old(v)@,
            forall|i: int, j: int| 0 <= i < j < v.len() ==> v[i] < v[j],
            forall|i: int| 0 <= i < k ==> v[i] < x,
        decreases v.len() - k,
    {
        k = k + 1;
    }
    if k < v.len() && v[k] == x {
        return;
    }
    v.insert(k, x);
    proof {
        assert forall|y: i64| v@.contains(y) <==> (old(v)@.contains(y) || y == x) by {
            if v@.contains(y) {
                let i = choose|i: int| 0 <= i < v.len() && v[i] == y;
                if i < k {
                    assert(old(v)[i] == y);
                } else if i > k {
                    assert(old(v)[i - 1] == y);
                }
            }
            if old(v)@.contains(y) {
                let i = choose|i: int| 0 <= i < old(v).len() && old(v)[i] == y;
                if i < k {
                    assert(v[i] == y);
                } else {
                    assert(v[i + 1] == y);
                }
            }
            if y == x {
                assert(v[k as int] == y);
            }
        }
    }
}

/// Every file found by either pass, ascending by id, with its rank in each pass
/// (1-based, by order of first appearance) and its closest chunk.
///
/// `fts_ids` are the full-text rows' file ids in rank order; `vec_hits` are the
/// vector rows in distance order.
pub fn blend(fts_ids: &Vec<i64>, vec_hits: &Vec<VecHit>) -> (r: Vec<Candidate>)
    requires
        fts_ids.len() < 0x4000_0000,
        vec_hits.len() < 0x4000_0000,
    ensures
        forall|k: int| 0 <= k < r.len() ==> candidate_for(fts_ids@, vec_hits@, #[trigger] r[k]),
        forall|i: int, j: int| 0 <= i < j < r.len() ==> r[i].file_id < r[j].file_id,
        forall|x: i64|
            (fts_ids@.contains(x) || vec_files(vec_hits@).contains(x)) <==> exists|k: int|
                0 <= k < r.len() && #[trigger] r[k].file_id == x,
        forall|k: int| 0 <= k < r.len() ==> rank_le(#[trigger] r[k].fts_rank, fts_ids.len() as int),
        forall|k: int| 0 <= k < r.len() ==> rank_le(#[trigger] r[k].vec_rank, vec_hits.len() as int),
{
    let fts_d = dedup_vec(fts_ids);
    let mut vec_file_ids: Vec<i64> = Vec::new();
    let mut k: usize = 0;
    while k < vec_hits.len()
        invariant
            k <= vec_hits.len(),
            vec_file_ids@ == vec_files(vec_hits@).subrange(0, k as int),
        decreases vec_hits.len() - k,
    {
        vec_file_ids.push(vec_hits[k].file_id);
        proof {
            assert(vec_file_ids@ =~= vec_files(vec_hits@).subrange(0, k + 1));
        }
        k = k + 1;
    }
    proof {
        assert(vec_file_ids@ =~= vec_files(vec_hits@));
        lemma_dedup(fts_ids@);
        lemma_dedup(vec_files(vec_hits@));
    }
    let vec_d = dedup_vec(&vec_file_ids);
    let mut all: Vec<i64> = Vec::new();
    let mut k: usize = 0;
    while k < fts_d.len()
        invariant
            k <= fts_d.len(),
            forall|i: int, j: int| 0 <= i < j < all.len() ==> all[i] < all[j],
            forall|y: i64| all@.contains(y) <==> fts_d@.subrange(0, k as int).contains(y),
        decreases fts_d.len() - k,
    {
        insert_sorted(&mut all, fts_d[k]);
        proof {
            assert forall|y: i64| all@.contains(y) <==> fts_d@.subrange(0, k + 1).contains(y) by {
                let next = fts_d@.subrange(0, k + 1);
                if next.contains(y) {
                    let i = choose|i: int| 0 <= i < next.len() && next[i] == y;
                    if i < k {
                        assert(fts_d@.subrange(0, k as int)[i] == y);
                    }
                }
                if fts_d@.subrange(0, k as int).contains(y) {
                    let i = choose|i: int| 0 <= i < k && fts_d@.subrange(0, k as int)[i] == y;
                    assert(next[i] == y);
                }
                if y == fts_d@[k as int] {
                    assert(next[k as int] == y);
                }
            }
        }
        k = k + 1;
    }
    proof {
        assert(fts_d@.subrange(0, fts_d.len() as int) =~= fts_d@);
        assert(vec_d@.subrange(0, 0) =~= Seq::<i64>::empty());
    }
    let mut k: usize = 0;
    while k < vec_d.len()
        invariant
            k <= vec_d.len(),
            forall|i: int, j: int| 0 <= i < j < all.len() ==> all[i] < all[j],
            forall|y: i64| all@.contains(y) <==> (fts_d@.contains(y) || vec_d@.subrange(0, k as int).contains(y)),
        decreases vec_d.len() - k,
    {
        proof {
            assert(fts_d@.subrange(0, fts_d.len() as int) =~= fts_d@);
        }
        insert_sorted(&mut all, vec_d[k]);
        proof {
            assert forall|y: i64| all@.contains(y) <==> (fts_d@.contains(y) || vec_d@.subrange(0, k + 1).contains(y)) by {
                let next = vec_d@.subrange(0, k + 1);
                if next.contains(y) {
                    let i = choose|i: int| 0 <= i < next.len() && next[i] == y;
                    if i < k {
                        assert(vec_d@.subrange(0, k as int)[i] == y);
                    }
                }
                if vec_d@.subrange(0, k as int).contains(y) {
                    let i = choose|i: int| 0 <= i < k && vec_d@.subrange(0, k as int)[i] == y;
                    assert(next[i] == y);
                }
                if y == vec_d@[k as int] {
                    assert(next[k as int] == y);
                }
            }
        }
        k = k + 1;
    }
    proof {
        assert(vec_d@.subrange(0, vec_d.len() as int) =~= vec_d@);
    }
    let mut out: Vec<Candidate> = Vec::new();
    let mut k: usize = 0;
    while k < all.len()
        invariant
            k <= all.len(),
            fts_d@ == dedup(fts_ids@),
            vec_d@ == dedup(vec_files(vec_hits@)),
            vec_file_ids@ == vec_files(vec_hits@),
            vec_file_ids.len() == vec_hits.len(),
            fts_d.len() <= fts_ids.len(),
            vec_d.len() <= vec_hits.len(),
            fts_ids.len() < 0x4000_0000,
            vec_hits.len() < 0x4000_0000,
            out.len() == k,
            forall|i: int| 0 <= i < k ==> #[trigger] out[i].file_id == all[i],
            forall|i: int| 0 <= i < k ==> candidate_for(fts_ids@, vec_hits@, #[trigger] out[i]),
            forall|i: int| 0 <= i < k ==> rank_le(#[trigger] out[i].fts_rank, fts_ids.len() as int),
            forall|i: int| 0 <= i < k ==> rank_le(#[trigger] out[i].vec_rank, vec_hits.len() as int),
        decreases all.len() - k,
    {
        let id = all[k];
        proof {
            lemma_first_index(fts_d@, id);
            lemma_first_index(vec_d@, id);
            lemma_first_index(vec_file_ids@, id);
        }
        let fts_rank: Option<u64> = match first_index_exec(&fts_d, id) {
            Some(p) => Some((p + 1) as u64),
            None => None,
        };
        let vec_rank: Option<u64> = match first_index_exec(&vec_d, id) {
            Some(p) => Some((p + 1) as u64),
            None => None,
        };
        let best: Option<i64> = match first_index_exec(&vec_file_ids, id) {
            Some(p) => Some(vec_hits[p].chunk_id),
            None => None,
        };
        out.push(Candidate { file_id: id, fts_rank, vec_rank, best_chunk: best });
        k = k + 1;
    }
    proof {
        assert forall|x: i64|
            (fts_ids@.contains(x) || vec_files(vec_hits@).contains(x)) implies exists|k: int|
                0 <= k < out.len() && #[trigger] out[k].file_id == x by {
            assert(all@.contains(x));
            let i = choose|i: int| 0 <= i < all.len() && all[i] == x;
            assert(out[i].file_id == x);
        }
        assert forall|x: i64| (exists|k: int| 0 <= k < out.len() && #[trigger] out[k].file_id == x)
            implies (fts_ids@.contains(x) || vec_files(vec_hits@).contains(x)) by {
            let k = choose|k: int| 0 <= k < out.len() && #[trigger] out[k].file_id == x;
            assert(all[k] == x);
            assert(all@.contains(x));
        }
    }
    out
}

} // verus!

verus! {

// ── scores ──────────────────────────────────────────────────────────────────

/// A reciprocal-rank-fusion score held exactly as the fraction `num / den`.
#[derive(Clone, Copy)]
pub struct Score {
    pub num: u64,
    pub den: u64,
}

/// The fused score of a file, `sum over its passes of 1 / (60 + rank)`, as a fraction.
pub open spec fn rrf(fts: Option<int>, vec: Option<int>) -> (int, int) {
    match (fts, vec) {
        (None, None) => (0, 1),
        (Some(a), None) => (1, 60 + a),
        (None, Some(b)) => (1, 60 + b),
        (Some(a), Some(b)) => ((60 + a) + (60 + b), (60 + a) * (60 + b)),
    }
}

/// `a > b` as fractions.
pub open spec fn score_gt(a: Score, b: Score) -> bool {
    a.num * b.den > b.num * a.den
}

/// `a == b` as fractions.
pub open spec fn score_eq(a: Score, b: Score) -> bool {
    a.num * b.den == b.num * a.den
}

/// The score of candidate `c`.
pub open spec fn score_matches(s: Score, c: Candidate) -> bool {
    s.num == rrf(opt_int(c.fts_rank), opt_int(c.vec_rank)).0 && s.den == rrf(
        opt_int(c.fts_rank),
        opt_int(c.vec_rank),
    ).1
}

fn candidate_score(c: &Candidate) -> (r: Score)
    requires
        rank_le(c.fts_rank, 0x4000_0000),
        rank_le(c.vec_rank, 0x4000_0000),
    ensures
        score_matches(r, *c),
        r.den > 0,
{
    match (c.fts_rank, c.vec_rank) {
        (None, None) => Score { num: 0, den: 1 },
        (Some(a), None) => Score { num: 1, den: 60 + a },
        (None, Some(b)) => Score { num: 1, den: 60 + b },
        (Some(a), Some(b)) => {
            proof {
                assert((60 + a) * (60 + b) <= 0x4000_0040 * 0x4000_0040) by (nonlinear_arith)
                    requires a <= 0x4000_0000, b <= 0x4000_0000;
                assert((60 + a) * (60 + b) > 0) by (nonlinear_arith)
                    requires a >= 0, b >= 0;
            }
            Score { num: (60 + a) + (60 + b), den: (60 + a) * (60 + b) }
        },
    }
}

fn score_gt_exec(a: Score, b: Score) -> (r: bool)
    ensures
        r == score_gt(a, b),
{
    mul_wide(a.num, b.den) > mul_wide(b.num, a.den)
}

fn mul_wide(x: u64, y: u64) -> (r: u128)
    ensures
        r == x * y,
{
    proof {
        assert(x * y <= 0xffff_ffff_ffff_ffff * 0xffff_ffff_ffff_ffff) by (nonlinear_arith)
            requires x <= 0xffff_ffff_ffff_ffff, y <= 0xffff_ffff_ffff_ffff, x >= 0, y >= 0;
    }
    (x as u128) * (y as u128)
}

fn score_eq_exec(a: Score, b: Score) -> (r: bool)
    ensures
        r == score_eq(a, b),
{
    mul_wide(a.num, b.den) == mul_wide(b.num, a.den)
}

// ── text comparisons ────────────────────────────────────────────────────────

/// Lexicographic order on character sequences, as `str`'s `Ord` orders them (UTF-8
/// byte order and code point order agree).
pub open spec fn seq_lt(a: Seq<char>, b: Seq<char>) -> bool
    decreases a.len(),
{
    if b.len() == 0 {
        false
    } else if a.len() == 0 {
        true
    } else if a[0] != b[0] {
        a[0] < b[0]
    } else {
        seq_lt(a.drop_first(), b.drop_first())
    }
}

fn seq_lt_exec(a: &Vec<char>, b: &Vec<char>) -> (r: bool)
    ensures
        r == seq_lt(a@, b@),
{
    let mut k: usize = 0;
    proof {
        assert(a@.subrange(0, a.len() as int) =~= a@);
        assert(b@.subrange(0, b.len() as int) =~= b@);
    }
    while k < a.len() && k < b.len() && a[k] == b[k]
        invariant
            k <= a.len(),
            k <= b.len(),
            seq_lt(a@, b@) == seq_lt(a@.subrange(k as int, a.len() as int), b@.subrange(
                k as int,
                b.len() as int,
            )),
        decreases a.len() - k,
    {
        proof {
            let sa = a@.subrange(k as int, a.len() as int);
            let sb = b@.subrange(k as int, b.len() as int);
            assert(sa.drop_first() =~= a@.subrange(k + 1, a.len() as int));
            assert(sb.drop_first() =~= b@.subrange(k + 1, b.len() as int));
        }
        k = k + 1;
    }
    if k == b.len() {
        false
    } else if k == a.len() {
        true
    } else {
        a[k] < b[k]
    }
}

/// ASCII case-insensitive equality (`str::eq_ignore_ascii_case`).
pub open spec fn eq_ignore_ascii(a: Seq<char>, b: Seq<char>) -> bool {
    a.len() == b.len() && forall|k: int|
        0 <= k < a.len() ==> crate::extract::ascii_lower(a[k]) == crate::extract::ascii_lower(
            b[k],
        )
}

fn eq_ignore_ascii_exec(a: &Vec<char>, b: &Vec<char>) -> (r: bool)
    ensures
        r == eq_ignore_ascii(a@, b@),
{
    if a.len() != b.len() {
        return false;
    }
    let mut k: usize = 0;
    while k < a.len()
        invariant
            k <= a.len(),
            a.len() == b.len(),
            forall|u: int|
                0 <= u < k ==> crate::extract::ascii_lower(a@[u]) == crate::extract::ascii_lower(
                    b@[u],
                ),
        decreases a.len() - k,
    {
        if lower_ascii(a[k]) != lower_ascii(b[k]) {
            return false;
        }
        k = k + 1;
    }
    true
}

fn lower_ascii(c: char) -> (r: char)
    ensures
        r == crate::extract::ascii_lower(c),
{
    if 'A' <= c && c <= 'Z' {
        let b: u8 = (c as u32 + 32) as u8;
        b as char
    } else {
        c
    }
}

/// What `str::to_lowercase` returns for a text.
pub uninterp spec fn lowercase(s: Seq<char>) -> Seq<char>;

/// `str::to_lowercase`.
#[verifier::external_body]
pub(crate) fn to_lowercase(s: &str) -> (r: String)
    ensures
        r@ == lowercase(s@),
{
    s.to_lowercase()
}

/// What `Path::new(base).join(rel).to_string_lossy()` returns.
pub uninterp spec fn path_join(base: Seq<char>, rel: Seq<char>) -> Seq<char>;

/// `Path::new(base).join(rel)` as text.
#[verifier::external_body]
fn join_path(base: &str, rel: &str) -> (r: String)
    ensures
        r@ == path_join(base@, rel@),
{
    std::path::Path::new(base).join(rel).to_string_lossy().into_owned()
}

/// The first `n` characters of `s` (all of them when shorter).
pub open spec fn take_chars(s: Seq<char>, n: int) -> Seq<char> {
    if s.len() <= n {
        s
    } else {
        s.take(n)
    }
}

/// Snippet length, in characters.
pub const SNIPPET_CHARS: usize = 200;

fn snippet_of(s: &str) -> (r: String)
    ensures
        r@ == take_chars(s@, SNIPPET_CHARS as int),
{
    let c = str_chars(s);
    if c.len() <= SNIPPET_CHARS {
        string_from_chars(c)
    } else {
        let t = crate::text::slice_vec(&c, 0, SNIPPET_CHARS);
        proof {
            assert(t@ =~= c@.take(SNIPPET_CHARS as int));
        }
        string_from_chars(t)
    }
}

} // verus!

verus! {

// ── rows, filters and hits ──────────────────────────────────────────────────

/// Metadata of a candidate file that is not deleted and whose root is active.
pub struct FileRow {
    pub file_id: i64,
    pub root_id: i64,
    pub root_path: String,
    pub rel_path: String,
    pub filename: String,
    pub media_type: String,
    pub size_bytes: i64,
    pub indexed_at: i64,
    pub mtime_ns: i64,
    /// The file's confidence is at least the query's minimum (or no minimum was set).
    pub meets_min_confidence: bool,
    /// Text of the file's closest chunk, when it has one and it could be read.
    pub best_chunk_text: Option<String>,
    pub extracted_text: String,
}

/// An active root directory.
pub struct ActiveRoot {
    pub id: i64,
    pub path: String,
}

/// The filter and paging part of a search request.
pub struct SearchParams {
    pub media_types: Vec<String>,
    pub root_scope: Vec<String>,
    pub date_from: Option<String>,
    pub date_to: Option<String>,
    pub limit: u32,
    pub offset: u32,
    /// Opaque cursor from a previous page; empty for none. Takes precedence over `offset`.
    pub cursor: String,
}

/// One result, ready for display.
pub struct RankedHit {
    pub file_id: i64,
    pub root_id: i64,
    /// Root path joined with the file's relative path.
    pub path: String,
    pub filename: String,
    pub media_type: String,
    pub size_bytes: i64,
    pub indexed_at: i64,
    pub snippet: String,
    pub score: Score,
}

/// Views of a list of strings.
pub open spec fn strs(v: Seq<String>) -> Seq<Seq<char>> {
    v.map_values(|s: String| s@)
}

/// The row's media type is one of the requested ones (any, when none is requested).
pub open spec fn media_ok(types: Seq<Seq<char>>, mt: Seq<char>) -> bool {
    types.len() == 0 || exists|k: int| 0 <= k < types.len() && eq_ignore_ascii(#[trigger] types[k], mt)
}

/// A row passes the media type, confidence and date filters.
pub open spec fn row_passes(p: SearchParams, row: FileRow) -> bool {
    &&& media_ok(strs(p.media_types@), row.media_type@)
    &&& row.meets_min_confidence
    &&& (p.date_from matches Some(s) ==> (from_bound_ns(s@) matches Some(b) ==> row.mtime_ns >= b))
    &&& (p.date_to matches Some(s) ==> (to_bound_ns(s@) matches Some(b) ==> row.mtime_ns <= b))
}

/// The rows that pass the filters, in order.
pub open spec fn passing(p: SearchParams, rows: Seq<FileRow>) -> Seq<FileRow>
    decreases rows.len(),
{
    if rows.len() == 0 {
        seq![]
    } else if row_passes(p, rows.last()) {
        passing(p, rows.drop_last()).push(rows.last())
    } else {
        passing(p, rows.drop_last())
    }
}

/// The fused score of a file: its candidate's, or zero when it is not a candidate.
pub open spec fn score_of_file(cands: Seq<Candidate>, id: i64) -> (int, int) {
    if exists|k: int| 0 <= k < cands.len() && cands[k].file_id == id {
        let k = choose|k: int| 0 <= k < cands.len() && cands[k].file_id == id;
        rrf(opt_int(cands[k].fts_rank), opt_int(cands[k].vec_rank))
    } else {
        (0, 1)
    }
}

} // verus!

verus! {

/// Text the snippet of a row is cut from.
pub open spec fn snippet_source(row: FileRow) -> Seq<char> {
    match row.best_chunk_text {
        Some(t) => t@,
        None => row.extracted_text@,
    }
}

/// `h` is the result built from `row`.
pub open spec fn hit_from(h: RankedHit, row: FileRow, cands: Seq<Candidate>) -> bool {
    &&& h.file_id == row.file_id
    &&& h.root_id == row.root_id
    &&& h.path@ == path_join(row.root_path@, row.rel_path@)
    &&& h.filename@ == row.filename@
    &&& h.media_type@ == row.media_type@
    &&& h.size_bytes == row.size_bytes
    &&& h.indexed_at == row.indexed_at
    &&& h.snippet@ == take_chars(snippet_source(row), SNIPPET_CHARS as int)
    &&& h.score.num == score_of_file(cands, row.file_id).0
    &&& h.score.den == score_of_file(cands, row.file_id).1
}

/// Candidates as `blend` returns them.
pub open spec fn well_formed_candidates(cands: Seq<Candidate>) -> bool {
    &&& forall|i: int, j: int| 0 <= i < j < cands.len() ==> cands[i].file_id < cands[j].file_id
    &&& forall|k: int| 0 <= k < cands.len() ==> rank_le(#[trigger] cands[k].fts_rank, 0x4000_0000)
    &&& forall|k: int| 0 <= k < cands.len() ==> rank_le(#[trigger] cands[k].vec_rank, 0x4000_0000)
}

fn file_score(cands: &Vec<Candidate>, id: i64) -> (r: Score)
    requires
        well_formed_candidates(cands@),
    ensures
        r.num == score_of_file(cands@, id).0,
        r.den == score_of_file(cands@, id).1,
        r.den > 0,
{
    let mut k: usize = 0;
    while k < cands.len()
        invariant
            k <= cands.len(),
            well_formed_candidates(cands@),
            forall|j: int| 0 <= j < k ==> cands@[j].file_id != id,
        decreases cands.len() - k,
    {
        if cands[k].file_id == id {
            let s = candidate_score(&cands[k]);
            proof {
                let c = choose|j: int| 0 <= j < cands.len() && cands@[j].file_id == id;
                if c != k {
                    if c < k {
                        assert(cands@[c].file_id < cands@[k as int].file_id);
                    } else {
                        assert(cands@[k as int].file_id < cands@[c].file_id);
                    }
                }
            }
            return s;
        }
        k = k + 1;
    }
    Score { num: 0, den: 1 }
}

fn media_ok_exec(types: &Vec<String>, mt: &Vec<char>) -> (r: bool)
    ensures
        r == media_ok(strs(types@), mt@),
{
    if types.len() == 0 {
        return true;
    }
    let mut k: usize = 0;
    while k < types.len()
        invariant
            k <= types.len(),
            types.len() > 0,
            forall|j: int| 0 <= j < k ==> !eq_ignore_ascii(#[trigger] strs(types@)[j], mt@),
        decreases types.len() - k,
    {
        let t = str_chars(types[k].as_str());
        if eq_ignore_ascii_exec(&t, mt) {
            proof {
                assert(strs(types@)[k as int] == t@);
            }
            return true;
        }
        k = k + 1;
    }
    false
}

fn row_passes_exec(p: &SearchParams, row: &FileRow, from_ns: Option<i128>, to_ns: Option<i128>) -> (r:
    bool)
    requires
        p.date_from matches Some(s) ==> match from_bound_ns(s@) {
            Some(v) => from_ns == Some(v as i128),
            None => from_ns is None,
        },
        p.date_from is None ==> from_ns is None,
        p.date_to matches Some(s) ==> match to_bound_ns(s@) {
            Some(v) => to_ns == Some(v as i128),
            None => to_ns is None,
        },
        p.date_to is None ==> to_ns is None,
    ensures
        r == row_passes(*p, *row),
{
    let mt = str_chars(row.media_type.as_str());
    if !media_ok_exec(&p.media_types, &mt) {
        return false;
    }
    if !row.meets_min_confidence {
        return false;
    }
    match from_ns {
        Some(b) => {
            if (row.mtime_ns as i128) < b {
                return false;
            }
        },
        None => {},
    }
    match to_ns {
        Some(b) => {
            if (row.mtime_ns as i128) > b {
                return false;
            }
        },
        None => {},
    }
    true
}

fn clone_opt(o: &Option<String>) -> (r: Option<String>)
    ensures
        match o {
            Some(s) => r matches Some(t) && t@ == s@,
            None => r is None,
        },
{
    match o {
        Some(s) => Some(s.clone()),
        None => None,
    }
}

fn hit_of_row(row: &FileRow, cands: &Vec<Candidate>) -> (h: RankedHit)
    requires
        well_formed_candidates(cands@),
    ensures
        hit_from(h, *row, cands@),
        h.score.den > 0,
{
    let path = join_path(row.root_path.as_str(), row.rel_path.as_str());
    let snippet = match &row.best_chunk_text {
        Some(t) => snippet_of(t.as_str()),
        None => snippet_of(row.extracted_text.as_str()),
    };
    RankedHit {
        file_id: row.file_id,
        root_id: row.root_id,
        path,
        filename: row.filename.clone(),
        media_type: row.media_type.clone(),
        size_bytes: row.size_bytes,
        indexed_at: row.indexed_at,
        snippet,
        score: file_score(cands, row.file_id),
    }
}

/// Results for the rows that pass the filters, in row order.
fn filtered_hits(p: &SearchParams, rows: &Vec<FileRow>, cands: &Vec<Candidate>) -> (r: Vec<
    RankedHit,
>)
    requires
        well_formed_candidates(cands@),
    ensures
        r.len() == passing(*p, rows@).len(),
        forall|k: int| 0 <= k < r.len() ==> hit_from(#[trigger] r[k], passing(*p, rows@)[k], cands@),
        forall|k: int| 0 <= k < r.len() ==> (#[trigger] r[k]).score.den > 0,
{
    let from_ns = bound_ns(&p.date_from, false);
    let to_ns = bound_ns(&p.date_to, true);
    let mut out: Vec<RankedHit> = Vec::new();
    let mut k: usize = 0;
    while k < rows.len()
        invariant
            k <= rows.len(),
            well_formed_candidates(cands@),
            p.date_from matches Some(s) ==> match from_bound_ns(s@) {
                Some(v) => from_ns == Some(v as i128),
                None => from_ns is None,
            },
            p.date_from is None ==> from_ns is None,
            p.date_to matches Some(s) ==> match to_bound_ns(s@) {
                Some(v) => to_ns == Some(v as i128),
                None => to_ns is None,
            },
            p.date_to is None ==> to_ns is None,
            out.len() == passing(*p, rows@.subrange(0, k as int)).len(),
            forall|j: int|
                0 <= j < out.len() ==> hit_from(
                    #[trigger] out[j],
                    passing(*p, rows@.subrange(0, k as int))[j],
                    cands@,
                ),
            forall|j: int| 0 <= j < out.len() ==> (#[trigger] out[j]).score.den > 0,
        decreases rows.len() - k,
    {
        let ghost next = rows@.subrange(0, k + 1);
        proof {
            assert(next.drop_last() =~= rows@.subrange(0, k as int));
            assert(next.last() == rows@[k as int]);
        }
        if row_passes_exec(p, &rows[k], from_ns, to_ns) {
            let h = hit_of_row(&rows[k], cands);
            out.push(h);
        }
        k = k + 1;
    }
    proof {
        assert(rows@.subrange(0, rows.len() as int) =~= rows@);
    }
    out
}

} // verus!

verus! {

// ── root scope ──────────────────────────────────────────────────────────────

/// Lowercased scope tokens.
pub open spec fn scopes_lower(scope: Seq<String>) -> Seq<Seq<char>> {
    scope.map_values(|s: String| lowercase(s@))
}

/// One of the `/`-separated, non-empty components of `path` lowercases to a scope token.
pub open spec fn path_in_scope(path: Seq<char>, scopes: Seq<Seq<char>>) -> bool {
    exists|i: int, k: int|
        0 <= i < split_seq(path, '/').len() && 0 <= k < scopes.len() && split_seq(path, '/')[i].len()
            > 0 && lowercase(#[trigger] split_seq(path, '/')[i]) == #[trigger] scopes[k]
}

/// Root `id` is an active root whose path is in scope.
pub open spec fn root_in_scope(roots: Seq<ActiveRoot>, scopes: Seq<Seq<char>>, id: i64) -> bool {
    exists|k: int| 0 <= k < roots.len() && #[trigger] roots[k].id == id && path_in_scope(roots[k].path@, scopes)
}

/// The hits whose root is in scope, in order.
pub open spec fn scoped(hits: Seq<RankedHit>, roots: Seq<ActiveRoot>, scopes: Seq<Seq<char>>) -> Seq<
    RankedHit,
>
    decreases hits.len(),
{
    if hits.len() == 0 {
        seq![]
    } else if root_in_scope(roots, scopes, hits.last().root_id) {
        scoped(hits.drop_last(), roots, scopes).push(hits.last())
    } else {
        scoped(hits.drop_last(), roots, scopes)
    }
}

fn lower_all(scope: &Vec<String>) -> (r: Vec<Vec<char>>)
    ensures
        r@.map_values(|v: Vec<char>| v@) == scopes_lower(scope@),
{
    let mut r: Vec<Vec<char>> = Vec::new();
    let mut k: usize = 0;
    while k < scope.len()
        invariant
            k <= scope.len(),
            r@.map_values(|v: Vec<char>| v@) == scopes_lower(scope@).subrange(0, k as int),
        decreases scope.len() - k,
    {
        let l = to_lowercase(scope[k].as_str());
        let lc = str_chars(l.as_str());
        let ghost before = r@.map_values(|v: Vec<char>| v@);
        r.push(lc);
        proof {
            assert(r@.map_values(|v: Vec<char>| v@) =~= before.push(lc@));
            assert(r@.map_values(|v: Vec<char>| v@) =~= scopes_lower(scope@).subrange(0, k + 1));
        }
        k = k + 1;
    }
    proof {
        assert(scopes_lower(scope@).subrange(0, scope.len() as int) =~= scopes_lower(scope@));
    }
    r
}

fn path_in_scope_exec(path: &str, scopes: &Vec<Vec<char>>) -> (r: bool)
    ensures
        r == path_in_scope(path@, scopes@.map_values(|v: Vec<char>| v@)),
{
    let ghost sc = scopes@.map_values(|v: Vec<char>| v@);
    let pc = str_chars(path);
    let comps = split_chars(&pc, '/');
    let ghost cs = comps@.map_values(|v: Vec<char>| v@);
    let mut i: usize = 0;
    while i < comps.len()
        invariant
            i <= comps.len(),
            sc == scopes@.map_values(|v: Vec<char>| v@),
            cs == comps@.map_values(|v: Vec<char>| v@),
            cs == split_seq(path@, '/'),
            forall|a: int, b: int|
                0 <= a < i && 0 <= b < sc.len() && cs[a].len() > 0 ==> lowercase(cs[a]) != sc[b],
        decreases comps.len() - i,
    {
        if comps[i].len() > 0 {
            let cstr = string_from_chars(comps[i].clone());
            assert(cstr@ == cs[i as int]);
            let low = to_lowercase(cstr.as_str());
            let lc = str_chars(low.as_str());
            let mut k: usize = 0;
            while k < scopes.len()
                invariant
                    k <= scopes.len(),
                    i < comps.len(),
                    sc == scopes@.map_values(|v: Vec<char>| v@),
                    cs == comps@.map_values(|v: Vec<char>| v@),
                    cs == split_seq(path@, '/'),
                    cs[i as int].len() > 0,
                    lc@ == lowercase(cs[i as int]),
                    forall|b: int| 0 <= b < k ==> lowercase(cs[i as int]) != sc[b],
                decreases scopes.len() - k,
            {
                if chars_eq(&lc, &scopes[k]) {
                    proof {
                        assert(split_seq(path@, '/')[i as int].len() > 0);
                        assert(lowercase(split_seq(path@, '/')[i as int]) == sc[k as int]);
                    }
                    return true;
                }
                k = k + 1;
            }
        }
        i = i + 1;
    }
    false
}

/// Keeps the hits whose root is in scope (all of them when the scope is empty).
fn apply_root_scope(hits: &mut Vec<RankedHit>, roots: &Vec<ActiveRoot>, scope: &Vec<String>)
    ensures
        scope.len() == 0 ==> final(hits)@ == old(hits)@,
        scope.len() > 0 ==> final(hits)@ == scoped(old(hits)@, roots@, scopes_lower(scope@)),
{
    if scope.len() == 0 {
        return;
    }
    let lowered = lower_all(scope);
    let ghost sc = scopes_lower(scope@);
    let mut ids: Vec<i64> = Vec::new();
    let mut k: usize = 0;
    while k < roots.len()
        invariant
            k <= roots.len(),
            lowered@.map_values(|v: Vec<char>| v@) == sc,
            forall|id: i64| ids@.contains(id) <==> exists|j: int| 0 <= j < k && #[trigger] roots@[j].id == id && path_in_scope(roots@[j].path@, sc),
        decreases roots.len() - k,
    {
        if path_in_scope_exec(roots[k].path.as_str(), &lowered) {
            let ghost before = ids@;
            ids.push(roots[k].id);
            proof {
                assert forall|id: i64| ids@.contains(id) <==> exists|j: int| 0 <= j < k + 1 && #[trigger] roots@[j].id == id && path_in_scope(roots@[j].path@, sc) by {
                    if ids@.contains(id) {
                        let u = choose|u: int| 0 <= u < ids.len() && ids@[u] == id;
                        if u < before.len() {
                            assert(before[u] == id);
                            assert(before.contains(id));
                        }
                    }
                    if exists|j: int| 0 <= j < k + 1 && #[trigger] roots@[j].id == id && path_in_scope(roots@[j].path@, sc) {
                        let j = choose|j: int| 0 <= j < k + 1 && #[trigger] roots@[j].id == id && path_in_scope(roots@[j].path@, sc);
                        if j < k {
                            assert(before.contains(id));
                            let u = choose|u: int| 0 <= u < before.len() && before[u] == id;
                            assert(ids@[u] == id);
                        } else {
                            assert(ids@[before.len() as int] == id);
                        }
                    }
                }
            }
        }
        k = k + 1;
    }
    let ghost orig = hits@;
    let total = hits.len();
    let mut kept: Vec<RankedHit> = Vec::new();
    let mut taken: usize = 0;
    while hits.len() > 0
        invariant
            orig.len() == total,
            taken + hits.len() == orig.len(),
            hits@ == orig.subrange(taken as int, orig.len() as int),
            kept@ == scoped(orig.subrange(0, taken as int), roots@, sc),
            forall|id: i64| ids@.contains(id) <==> root_in_scope(roots@, sc, id),
        decreases hits.len(),
    {
        let h = hits.remove(0);
        proof {
            let next = orig.subrange(0, taken + 1);
            assert(next.drop_last() =~= orig.subrange(0, taken as int));
            assert(next.last() == h);
        }
        let mut found = false;
        let mut j: usize = 0;
        while j < ids.len()
            invariant
                j <= ids.len(),
                found == exists|u: int| 0 <= u < j && ids@[u] == h.root_id,
            decreases ids.len() - j,
        {
            if ids[j] == h.root_id {
                found = true;
            }
            j = j + 1;
        }
        proof {
            assert(found == ids@.contains(h.root_id));
        }
        if found {
            kept.push(h);
        }
        taken = taken + 1;
        proof {
            assert(hits@ =~= orig.subrange(taken as int, orig.len() as int));
        }
    }
    proof {
        assert(orig.subrange(0, taken as int) =~= orig);
    }
    *hits = kept;
}

} // verus!

verus! {

// ── ordering ────────────────────────────────────────────────────────────────

/// `a` is listed before `b`: higher score first, then path ascending.
pub open spec fn precedes(a: RankedHit, b: RankedHit) -> bool {
    score_gt(a.score, b.score) || (score_eq(a.score, b.score) && seq_lt(a.path@, b.path@))
}

/// First position `k >= i` of `t` that `x` precedes, or `t.len()`.
pub open spec fn insert_pos(t: Seq<RankedHit>, x: RankedHit, i: int) -> int
    decreases t.len() - i,
{
    if i < 0 || i >= t.len() {
        t.len() as int
    } else if precedes(x, t[i]) {
        i
    } else {
        insert_pos(t, x, i + 1)
    }
}

pub proof fn lemma_insert_pos(t: Seq<RankedHit>, x: RankedHit, i: int)
    requires
        0 <= i <= t.len(),
    ensures
        i <= insert_pos(t, x, i) <= t.len(),
    decreases t.len() - i,
{
    if i < t.len() && !precedes(x, t[i]) {
        lemma_insert_pos(t, x, i + 1);
    }
}

/// Hits in display order: a stable sort by [`precedes`] (each hit is placed after the
/// ones already placed that it does not precede).
pub open spec fn sort_hits(s: Seq<RankedHit>) -> Seq<RankedHit>
    decreases s.len(),
{
    if s.len() == 0 {
        seq![]
    } else {
        let t = sort_hits(s.drop_last());
        t.insert(insert_pos(t, s.last(), 0), s.last())
    }
}

pub proof fn lemma_sort_len(s: Seq<RankedHit>)
    ensures
        sort_hits(s).len() == s.len(),
    decreases s.len(),
{
    if s.len() > 0 {
        lemma_sort_len(s.drop_last());
        lemma_insert_pos(sort_hits(s.drop_last()), s.last(), 0);
    }
}

fn path_chars(h: &RankedHit) -> (r: Vec<char>)
    ensures
        r@ == h.path@,
{
    str_chars(h.path.as_str())
}

fn precedes_exec(a: &RankedHit, b: &RankedHit) -> (r: bool)
    ensures
        r == precedes(*a, *b),
{
    if score_gt_exec(a.score, b.score) {
        return true;
    }
    if !score_eq_exec(a.score, b.score) {
        return false;
    }
    let pa = path_chars(a);
    let pb = path_chars(b);
    seq_lt_exec(&pa, &pb)
}

/// Sorts the hits into display order (see [`sort_hits`]).
fn sort_by_rank(hits: Vec<RankedHit>) -> (r: Vec<RankedHit>)
    ensures
        r@ == sort_hits(hits@),
{
    let ghost orig = hits@;
    let total = hits.len();
    let mut src = hits;
    let mut sorted: Vec<RankedHit> = Vec::new();
    let mut taken: usize = 0;
    while src.len() > 0
        invariant
            orig.len() == total,
            taken + src.len() == total,
            src@ == orig.subrange(taken as int, total as int),
            sorted@ == sort_hits(orig.subrange(0, taken as int)),
        decreases src.len(),
    {
        let x = src.remove(0);
        let ghost t = sorted@;
        proof {
            let next = orig.subrange(0, taken + 1);
            assert(next.drop_last() =~= orig.subrange(0, taken as int));
            assert(next.last() == x);
            lemma_sort_len(orig.subrange(0, taken as int));
            lemma_insert_pos(t, x, 0);
        }
        let mut pos: usize = 0;
        while pos < sorted.len() && !precedes_exec(&x, &sorted[pos])
            invariant
                pos <= sorted.len(),
                sorted@ == t,
                insert_pos(t, x, pos as int) == insert_pos(t, x, 0),
            decreases sorted.len() - pos,
        {
            pos = pos + 1;
        }
        sorted.insert(pos, x);
        taken = taken + 1;
        proof {
            assert(src@ =~= orig.subrange(taken as int, total as int));
        }
    }
    proof {
        assert(orig.subrange(0, total as int) =~= orig);
    }
    sorted
}

} // verus!

verus! {

// ── cursors ─────────────────────────────────────────────────────────────────

/// Lowercase hexadecimal digit for `0 <= d < 16`.
pub open spec fn hex_char(d: int) -> char {
    if d < 10 {
        ('0' as int + d) as char
    } else {
        ('a' as int + d - 10) as char
    }
}

/// The last `n` hexadecimal digits of `x`, most significant first.
pub open spec fn hex_digits(x: int, n: nat) -> Seq<char>
    decreases n,
{
    if n == 0 {
        seq![]
    } else {
        hex_digits(x / 16, (n - 1) as nat).push(hex_char(x % 16))
    }
}

/// Value of a hexadecimal digit (either case), or `-1`.
pub open spec fn hex_val(c: char) -> int {
    if '0' <= c && c <= '9' {
        c as int - '0' as int
    } else if 'a' <= c && c <= 'f' {
        c as int - 'a' as int + 10
    } else if 'A' <= c && c <= 'F' {
        c as int - 'A' as int + 10
    } else {
        -1
    }
}

/// Value of a string of hexadecimal digits.
pub open spec fn hex_value(s: Seq<char>) -> int
    decreases s.len(),
{
    if s.len() == 0 {
        0
    } else {
        hex_value(s.drop_last()) * 16 + hex_val(s.last())
    }
}

/// `16^n`.
pub open spec fn pow16(n: nat) -> int
    decreases n,
{
    if n == 0 {
        1
    } else {
        16 * pow16((n - 1) as nat)
    }
}

/// Text inside a cursor: the score's numerator and denominator as 16 hex digits each,
/// `'|'`, then the path of the last result shown.
pub open spec fn cursor_text(num: int, den: int, path: Seq<char>) -> Seq<char> {
    hex_digits(num, 16) + hex_digits(den, 16) + seq!['|'] + path
}

/// Reads back `cursor_text`.
pub open spec fn parse_cursor_text(t: Seq<char>) -> Option<(int, int, Seq<char>)> {
    if t.len() >= 33 && t[32] == '|' && forall|k: int| 0 <= k < 32 ==> hex_val(#[trigger] t[k]) >= 0 {
        Some((hex_value(t.subrange(0, 16)), hex_value(t.subrange(16, 32)), t.subrange(33, t.len() as int)))
    } else {
        None
    }
}

/// The character of a six-bit value in the standard base64 alphabet.
pub open spec fn b64_symbol(v: int) -> char {
    if v < 26 {
        (65 + v) as char
    } else if v < 52 {
        (71 + v) as char
    } else if v < 62 {
        (v - 4) as char
    } else if v == 62 {
        '+'
    } else {
        '/'
    }
}

/// Standard padded base64: each group of three bytes, read as a 24-bit number, gives
/// four symbols of six bits each, most significant first; a last group of one or two
/// bytes is completed with zero bits and its missing symbols are `=`.
pub open spec fn base64_encode(bytes: Seq<u8>) -> Seq<char>
    decreases bytes.len(),
{
    if bytes.len() == 0 {
        seq![]
    } else {
        let b1: int = if bytes.len() > 1 {
            bytes[1] as int
        } else {
            0
        };
        let b2: int = if bytes.len() > 2 {
            bytes[2] as int
        } else {
            0
        };
        let n = bytes[0] as int * 65536 + b1 * 256 + b2;
        let group = seq![
            b64_symbol(n / 262144),
            b64_symbol((n / 4096) % 64),
            if bytes.len() > 1 {
                b64_symbol((n / 64) % 64)
            } else {
                '='
            },
            if bytes.len() > 2 {
                b64_symbol(n % 64)
            } else {
                '='
            },
        ];
        if bytes.len() > 3 {
            group + base64_encode(bytes.subrange(3, bytes.len() as int))
        } else {
            group
        }
    }
}

/// What the standard base64 engine decodes a text to (`None` on invalid input).
pub uninterp spec fn base64_decode(text: Seq<char>) -> Option<Seq<u8>>;

/// `base64::engine::general_purpose::STANDARD.encode`: the padded standard encoding,
/// four characters per started group of three bytes, which `decode` reads back. (It
/// panics only when that length overflows `usize`, which no slice in memory can cause.)
#[verifier::external_body]
pub(crate) fn b64_encode(bytes: &[u8]) -> (r: String)
    ensures
        r@ == base64_encode(bytes@),
        r@.len() == 4 * ((bytes@.len() + 2) / 3),
        base64_decode(r@) == Some(bytes@),
{
    base64::engine::general_purpose::STANDARD.encode(bytes)
}

/// `base64::engine::general_purpose::STANDARD.decode`, errors as `None`.
#[verifier::external_body]
fn b64_decode(text: &str) -> (r: Option<Vec<u8>>)
    ensures
        match r {
            Some(b) => base64_decode(text@) == Some(b@),
            None => base64_decode(text@) is None,
        },
{
    base64::engine::general_purpose::STANDARD.decode(text).ok()
}

/// `String::from_utf8`, errors as `None`.
#[verifier::external_body]
fn utf8_string(bytes: Vec<u8>) -> (r: Option<String>)
    ensures
        match r {
            Some(s) => vstd::utf8::valid_utf8(bytes@) && s@ == vstd::utf8::decode_utf8(bytes@),
            None => !vstd::utf8::valid_utf8(bytes@),
        },
{
    String::from_utf8(bytes).ok()
}

/// The position a cursor names: score numerator, denominator, and path.
pub open spec fn cursor_decodes(c: Seq<char>) -> Option<(int, int, Seq<char>)> {
    match base64_decode(c) {
        Some(b) => if vstd::utf8::valid_utf8(b) {
            parse_cursor_text(vstd::utf8::decode_utf8(b))
        } else {
            None
        },
        None => None,
    }
}

fn hex_char_exec(d: u64) -> (r: char)
    requires
        d < 16,
    ensures
        r == hex_char(d as int),
{
    if d < 10 {
        ((d as u8) + 48) as char
    } else {
        ((d as u8) + 87) as char
    }
}

fn hex_digits_exec(x: u64, n: usize) -> (r: Vec<char>)
    ensures
        r@ == hex_digits(x as int, n as nat),
    decreases n,
{
    if n == 0 {
        Vec::new()
    } else {
        let mut v = hex_digits_exec(x / 16, n - 1);
        v.push(hex_char_exec(x % 16));
        v
    }
}

proof fn lemma_hex_roundtrip(x: int, n: nat)
    requires
        0 <= x < pow16(n),
    ensures
        hex_value(hex_digits(x, n)) == x,
        hex_digits(x, n).len() == n,
        forall|k: int| 0 <= k < n ==> hex_val(#[trigger] hex_digits(x, n)[k]) >= 0,
    decreases n,
{
    if n > 0 {
        let p = pow16((n - 1) as nat);
        assert(x / 16 < p) by (nonlinear_arith)
            requires x < 16 * p, x >= 0, p > 0;
        assert(p > 0) by {
            lemma_pow16_pos((n - 1) as nat);
        }
        lemma_hex_roundtrip(x / 16, (n - 1) as nat);
        let d = x % 16;
        assert(0 <= d < 16);
        assert(hex_val(hex_char(d)) == d);
        let h = hex_digits(x, n);
        assert(h.drop_last() =~= hex_digits(x / 16, (n - 1) as nat));
        assert(x == (x / 16) * 16 + x % 16);
        assert forall|k: int| 0 <= k < n implies hex_val(#[trigger] h[k]) >= 0 by {
            if k < n - 1 {
                assert(h[k] == hex_digits(x / 16, (n - 1) as nat)[k]);
            }
        }
    }
}

proof fn lemma_pow16_pos(n: nat)
    ensures
        pow16(n) > 0,
    decreases n,
{
    if n > 0 {
        lemma_pow16_pos((n - 1) as nat);
    }
}

proof fn lemma_hex_value_bound(s: Seq<char>)
    requires
        forall|k: int| 0 <= k < s.len() ==> hex_val(#[trigger] s[k]) >= 0,
    ensures
        0 <= hex_value(s) < pow16(s.len()),
    decreases s.len(),
{
    if s.len() > 0 {
        let p = s.drop_last();
        assert forall|k: int| 0 <= k < p.len() implies hex_val(#[trigger] p[k]) >= 0 by {
            assert(p[k] == s[k]);
        }
        lemma_hex_value_bound(p);
        assert(hex_val(s.last()) >= 0 && hex_val(s.last()) < 16);
        let v = hex_value(p);
        let q = pow16(p.len());
        assert(v * 16 + hex_val(s.last()) < 16 * q) by (nonlinear_arith)
            requires 0 <= v < q, 0 <= hex_val(s.last()) < 16;
        assert(v * 16 + hex_val(s.last()) >= 0) by (nonlinear_arith)
            requires 0 <= v, 0 <= hex_val(s.last());
    }
}

fn hex_val_exec(c: char) -> (r: u64)
    requires
        hex_val(c) >= 0,
    ensures
        r == hex_val(c),
{
    if '0' <= c && c <= '9' {
        (c as u32 - 48) as u64
    } else if 'a' <= c && c <= 'f' {
        (c as u32 - 87) as u64
    } else {
        (c as u32 - 55) as u64
    }
}

fn hex_value_exec(s: &Vec<char>, lo: usize, hi: usize) -> (r: u64)
    requires
        lo <= hi <= s.len(),
        hi - lo == 16,
        forall|k: int| lo <= k < hi ==> hex_val(#[trigger] s@[k]) >= 0,
    ensures
        r == hex_value(s@.subrange(lo as int, hi as int)),
{
    let mut acc: u128 = 0;
    let mut k: usize = lo;
    proof {
        assert(pow16(16) == 0x1_0000_0000_0000_0000) by {
            reveal_with_fuel(pow16, 17);
        }
    }
    while k < hi
        invariant
            lo <= k <= hi <= s.len(),
            hi - lo == 16,
            forall|j: int| lo <= j < hi ==> hex_val(#[trigger] s@[j]) >= 0,
            acc == hex_value(s@.subrange(lo as int, k as int)),
            acc < pow16((k - lo) as nat),
            pow16(16) == 0x1_0000_0000_0000_0000,
        decreases hi - k,
    {
        let d = hex_val_exec(s[k]);
        proof {
            let next = s@.subrange(lo as int, k + 1);
            assert(next.drop_last() =~= s@.subrange(lo as int, k as int));
            assert(next.last() == s@[k as int]);
            assert(forall|j: int| 0 <= j < next.len() ==> hex_val(#[trigger] next[j]) >= 0) by {
                assert forall|j: int| 0 <= j < next.len() implies hex_val(#[trigger] next[j]) >= 0 by {
                    assert(next[j] == s@[lo + j]);
                }
            }
            lemma_hex_value_bound(next);
            assert(pow16((k + 1 - lo) as nat) <= pow16(16)) by {
                lemma_pow16_mono((k + 1 - lo) as nat, 16);
            }
        }
        acc = acc * 16 + d as u128;
        k = k + 1;
    }
    acc as u64
}

proof fn lemma_pow16_mono(a: nat, b: nat)
    requires
        a <= b,
    ensures
        pow16(a) <= pow16(b),
    decreases b - a,
{
    if a < b {
        lemma_pow16_mono(a, (b - 1) as nat);
        lemma_pow16_pos((b - 1) as nat);
    }
}

/// Encodes the position of the last result shown as an opaque cursor.
pub fn encode_cursor(score: Score, path: &str) -> (r: String)
    ensures
        r@ == base64_encode(vstd::utf8::encode_utf8(cursor_text(score.num as int, score.den as int, path@))),
        cursor_decodes(r@) == Some((score.num as int, score.den as int, path@)),
        r@.len() > 0,
{
    let mut text = hex_digits_exec(score.num, 16);
    let den = hex_digits_exec(score.den, 16);
    crate::text::append_chars(&mut text, &den);
    text.push('|');
    let p = str_chars(path);
    crate::text::append_chars(&mut text, &p);
    let s = string_from_chars(text);
    let r = b64_encode(s.as_str().as_bytes());
    proof {
        let t = cursor_text(score.num as int, score.den as int, path@);
        assert(s@ =~= t);
        assert(vstd::utf8::encode_utf8(t).len() > 0) by {
            let e = vstd::utf8::encode_scalar(t[0] as u32);
            assert(e.len() > 0);
            assert(vstd::utf8::encode_utf8(t) == e + vstd::utf8::encode_utf8(t.drop_first()));
        }
        vstd::utf8::encode_utf8_valid_utf8(t);
        vstd::utf8::encode_utf8_decode_utf8(t);
        assert(pow16(16) == 0x1_0000_0000_0000_0000) by {
            reveal_with_fuel(pow16, 17);
        }
        lemma_hex_roundtrip(score.num as int, 16);
        lemma_hex_roundtrip(score.den as int, 16);
        let hn = hex_digits(score.num as int, 16);
        let hd = hex_digits(score.den as int, 16);
        assert(t.subrange(0, 16) =~= hn);
        assert(t.subrange(16, 32) =~= hd);
        assert(t.subrange(33, t.len() as int) =~= path@);
        assert(t[32] == '|');
        assert forall|k: int| 0 <= k < 32 implies hex_val(#[trigger] t[k]) >= 0 by {
            if k < 16 {
                assert(t[k] == hn[k]);
            } else {
                assert(t[k] == hd[k - 16]);
            }
        }
    }
    r
}

/// Reads a cursor back; `None` when it was not made by [`encode_cursor`]'s format.
pub fn decode_cursor(cursor: &str) -> (r: Option<(Score, String)>)
    ensures
        match r {
            Some((s, p)) => cursor_decodes(cursor@) == Some((s.num as int, s.den as int, p@)),
            None => cursor_decodes(cursor@) is None,
        },
{
    let bytes = match b64_decode(cursor) {
        Some(b) => b,
        None => return None,
    };
    let s = match utf8_string(bytes) {
        Some(s) => s,
        None => return None,
    };
    let t = str_chars(s.as_str());
    if t.len() < 33 || t[32] != '|' {
        return None;
    }
    let ghost dec = cursor_decodes(cursor@);
    let mut k: usize = 0;
    while k < 32
        invariant
            k <= 32,
            t.len() >= 33,
            t@[32] == '|',
            dec == cursor_decodes(cursor@),
            dec == parse_cursor_text(t@),
            forall|j: int| 0 <= j < k ==> hex_val(#[trigger] t@[j]) >= 0,
        decreases 32 - k,
    {
        let c = t[k];
        if !(('0' <= c && c <= '9') || ('a' <= c && c <= 'f') || ('A' <= c && c <= 'F')) {
            proof {
                assert(hex_val(t@[k as int]) < 0);
            }
            return None;
        }
        k = k + 1;
    }
    let num = hex_value_exec(&t, 0, 16);
    let den = hex_value_exec(&t, 16, 32);
    let path = crate::text::slice_vec(&t, 33, t.len());
    Some((Score { num, den }, string_from_chars(path)))
}

} // verus!

verus! {

// ── paging ──────────────────────────────────────────────────────────────────

/// `h` comes after the cursor position `(num / den, path)` in display order.
pub open spec fn after_cursor(h: RankedHit, num: int, den: int, path: Seq<char>) -> bool {
    h.score.num * den < num * h.score.den || (h.score.num * den == num * h.score.den && seq_lt(
        path,
        h.path@,
    ))
}

/// First index `k >= i` of `t` after the cursor, or `t.len()`.
pub open spec fn cursor_start(t: Seq<RankedHit>, num: int, den: int, path: Seq<char>, i: int) -> int
    decreases t.len() - i,
{
    if i < 0 || i >= t.len() {
        t.len() as int
    } else if after_cursor(t[i], num, den, path) {
        i
    } else {
        cursor_start(t, num, den, path, i + 1)
    }
}

/// Where a page starts: just after a valid cursor, else at the offset.
pub open spec fn page_start(t: Seq<RankedHit>, p: SearchParams) -> int {
    if p.cursor@.len() == 0 {
        p.offset as int
    } else {
        match cursor_decodes(p.cursor@) {
            Some((n, d, path)) => cursor_start(t, n, d, path, 0),
            None => p.offset as int,
        }
    }
}

/// The page size: the requested limit clamped to `1..=200`.
pub open spec fn clamp_limit(l: u32) -> u32 {
    if l < 1 {
        1
    } else if l > 200 {
        200
    } else {
        l
    }
}

/// One page of results.
pub struct SearchPage {
    pub hits: Vec<RankedHit>,
    /// Number of results over all pages.
    pub total: usize,
    pub limit: u32,
    pub offset: u32,
    /// Cursor for the next page; `None` on the last page.
    pub next_cursor: Option<String>,
}

/// `r` is the page of `t` that `p` asks for.
pub open spec fn page_of(t: Seq<RankedHit>, p: SearchParams, r: SearchPage) -> bool {
    let start = page_start(t, p);
    let s = if start < t.len() {
        start
    } else {
        t.len() as int
    };
    let e = if s + clamp_limit(p.limit) < t.len() {
        s + clamp_limit(p.limit)
    } else {
        t.len() as int
    };
    &&& r.hits@ == t.subrange(s, e)
    &&& r.total == t.len()
    &&& r.limit == clamp_limit(p.limit)
    &&& r.offset == p.offset
    &&& if start + (e - s) < t.len() {
        r.next_cursor matches Some(c) && c@.len() > 0 && c@ == base64_encode(
            vstd::utf8::encode_utf8(
                cursor_text(t[e - 1].score.num as int, t[e - 1].score.den as int, t[e - 1].path@),
            ),
        ) && cursor_decodes(c@) == Some(
            (t[e - 1].score.num as int, t[e - 1].score.den as int, t[e - 1].path@),
        )
    } else {
        r.next_cursor is None
    }
}

fn after_cursor_exec(h: &RankedHit, num: u64, den: u64, path: &Vec<char>) -> (r: bool)
    ensures
        r == after_cursor(*h, num as int, den as int, path@),
{
    let a = mul_wide(h.score.num, den);
    let b = mul_wide(num, h.score.den);
    if a < b {
        return true;
    }
    if a != b {
        return false;
    }
    let hp = path_chars(h);
    seq_lt_exec(path, &hp)
}

/// Cuts the sorted results into the requested page.
fn paginate(sorted: Vec<RankedHit>, p: &SearchParams) -> (r: SearchPage)
    ensures
        page_of(sorted@, *p, r),
{
    let ghost t = sorted@;
    let limit: u32 = if p.limit < 1 { 1 } else if p.limit > 200 { 200 } else { p.limit };
    let total = sorted.len();
    let start: usize = if p.cursor.as_str().is_empty() {
        p.offset as usize
    } else {
        match decode_cursor(p.cursor.as_str()) {
            Some((cs, cp)) => {
                let cpc = str_chars(cp.as_str());
                let mut k: usize = 0;
                while k < total && !after_cursor_exec(&sorted[k], cs.num, cs.den, &cpc)
                    invariant
                        k <= total,
                        total == sorted.len(),
                        cursor_start(sorted@, cs.num as int, cs.den as int, cpc@, k as int)
                            == cursor_start(sorted@, cs.num as int, cs.den as int, cpc@, 0),
                    decreases total - k,
                {
                    k = k + 1;
                }
                k
            },
            None => p.offset as usize,
        }
    };
    proof {
        assert(start as int == page_start(t, *p));
    }
    let s: usize = if start < total { start } else { total };
    let e: usize = if (limit as usize) < total - s { s + limit as usize } else { total };
    let mut src = sorted;
    let mut k: usize = 0;
    let mut page: Vec<RankedHit> = Vec::new();
    while src.len() > 0
        invariant
            src.len() + k == total,
            total == t.len(),
            s <= e <= total,
            src@ == t.subrange(k as int, total as int),
            page@ == t.subrange(s as int, if k < s { s as int } else if k > e { e as int } else { k as int }),
        decreases src.len(),
    {
        let x = src.remove(0);
        proof {
            assert(x == t[k as int]);
        }
        if k >= s && k < e {
            page.push(x);
        }
        k = k + 1;
        proof {
            assert(src@ =~= t.subrange(k as int, total as int));
            assert(page@ =~= t.subrange(s as int, if k < s { s as int } else if k > e { e as int } else { k as int }));
        }
    }
    let next_cursor = if start < total && e < total {
        let last = &page[page.len() - 1];
        Some(encode_cursor(last.score, last.path.as_str()))
    } else {
        None
    };
    SearchPage { hits: page, total, limit, offset: p.offset, next_cursor }
}

} // verus!

verus! {

/// `f` holds one hit per passing row, built from it.
pub open spec fn hits_of_rows(f: Seq<RankedHit>, p: SearchParams, rows: Seq<FileRow>, cands: Seq<Candidate>) -> bool {
    &&& f.len() == passing(p, rows).len()
    &&& forall|k: int| 0 <= k < f.len() ==> hit_from(#[trigger] f[k], passing(p, rows)[k], cands)
}

/// The hits that survive the root scope: all of them when no scope is given.
pub open spec fn in_scope(f: Seq<RankedHit>, p: SearchParams, roots: Seq<ActiveRoot>) -> Seq<RankedHit> {
    if p.root_scope.len() == 0 {
        f
    } else {
        scoped(f, roots, scopes_lower(p.root_scope@))
    }
}

/// Ranks and pages the candidate files of a search.
///
/// `rows` are the metadata of the candidates that are neither deleted nor under an
/// inactive root; `roots` are the active roots. Each row that passes the media type,
/// confidence and date filters becomes a hit scored by reciprocal-rank fusion; hits
/// outside the root scope are dropped; the rest are sorted (score descending, then
/// path ascending, stable) and the page after the cursor, or at the offset, is returned.
pub fn rank_results(
    candidates: &Vec<Candidate>,
    rows: &Vec<FileRow>,
    roots: &Vec<ActiveRoot>,
    params: &SearchParams,
) -> (r: SearchPage)
    requires
        well_formed_candidates(candidates@),
    ensures
        exists|f: Seq<RankedHit>|
            hits_of_rows(f, *params, rows@, candidates@) && page_of(
                sort_hits(#[trigger] in_scope(f, *params, roots@)),
                *params,
                r,
            ),
        hits_sorted(r.hits@),
        row_ids_distinct(rows@) ==> hit_ids_distinct(r.hits@),
{
    let mut hits = filtered_hits(params, rows, candidates);
    let ghost f = hits@;
    apply_root_scope(&mut hits, roots, &params.root_scope);
    proof {
        assert(hits@ == in_scope(f, *params, roots@));
    }
    let sorted = sort_by_rank(hits);
    let r = paginate(sorted, params);
    proof {
        assert(hits_of_rows(f, *params, rows@, candidates@));
        lemma_page_in_display_order(f, *params, rows@, candidates@, roots@, r);
        if row_ids_distinct(rows@) {
            lemma_results_distinct_files(f, *params, rows@, candidates@, roots@, r);
        }
    }
    r
}

/// Whether each pass runs for a search mode: the full-text pass unless the mode is
/// `"semantic"`, the vector pass unless it is `"keyword"`.
pub fn search_passes(mode: &str) -> (r: (bool, bool))
    ensures
        r.0 == (mode@ != "semantic"@),
        r.1 == (mode@ != "keyword"@),
{
    let m = str_chars(mode);
    let sem = str_chars("semantic");
    let key = str_chars("keyword");
    (!chars_eq(&m, &sem), !chars_eq(&m, &key))
}

} // verus!
