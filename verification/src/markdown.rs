//! Removing common Markdown syntax while keeping the human-readable text.

use vstd::prelude::*;
use crate::text::{
    append_chars, back_ws, find_char, is_ws, lemma_back_ws, lemma_next_index_of, lemma_skip_ws,
    lines, next_index_of, skip_char, skip_ws, slice_vec, split_lines, trim_chars, trim_seq,
    trim_start_char, trim_start_char_vec,
};

verus! {

/// `[text](url)` starting at `pos`: the link text and the number of characters consumed.
pub open spec fn md_link(s: Seq<char>, pos: int) -> Option<(Seq<char>, int)> {
    if !(0 <= pos < s.len() && s[pos] == '[') {
        None
    } else {
        let te = next_index_of(s, pos, ']');
        if te >= s.len() {
            None
        } else if !(te + 1 < s.len() && s[te + 1] == '(') {
            None
        } else {
            let pe = next_index_of(s, te + 2, ')');
            if pe >= s.len() {
                None
            } else {
                Some((s.subrange(pos + 1, te), pe - pos + 1))
            }
        }
    }
}

pub proof fn lemma_md_link(s: Seq<char>, pos: int)
    ensures
        md_link(s, pos) matches Some((t, k)) ==> 1 <= k && pos + k <= s.len(),
{
    if 0 <= pos < s.len() && s[pos] == '[' {
        lemma_next_index_of(s, pos, ']');
        let te = next_index_of(s, pos, ']');
        if te + 1 < s.len() && s[te + 1] == '(' {
            lemma_next_index_of(s, te + 2, ')');
        }
    }
}

/// `m` occurs in `s` at index `j`.
pub open spec fn occurs_at(s: Seq<char>, j: int, m: Seq<char>) -> bool {
    0 <= j && j + m.len() <= s.len() && s.subrange(j, j + m.len()) == m
}

/// First index `j >= i`, `j < s.len()`, at which `m` occurs, or `-1`.
pub open spec fn find_close_from(s: Seq<char>, i: int, m: Seq<char>) -> int
    decreases s.len() - i,
{
    if i < 0 || i >= s.len() {
        -1
    } else if occurs_at(s, i, m) {
        i
    } else {
        find_close_from(s, i + 1, m)
    }
}

pub proof fn lemma_find_close_from(s: Seq<char>, i: int, m: Seq<char>)
    requires
        0 <= i,
    ensures
        find_close_from(s, i, m) == -1 || (i <= find_close_from(s, i, m) < s.len() && occurs_at(
            s,
            find_close_from(s, i, m),
            m,
        )),
    decreases s.len() - i,
{
    if i < s.len() && !occurs_at(s, i, m) {
        lemma_find_close_from(s, i + 1, m);
    }
}

/// Inline Markdown removed from `s[i..]`: images and links keep their text, `*`/`**`
/// emphasis and inline code keep their trimmed inner text, an unclosed `*` or `` ` ``
/// marker is dropped, everything else is kept.
pub open spec fn md_inline_from(s: Seq<char>, i: int) -> Seq<char>
    decreases s.len() - i,
{
    if i < 0 || i >= s.len() {
        seq![]
    } else if s[i] == '!' && i + 1 < s.len() && s[i + 1] == '[' {
        proof {
            lemma_md_link(s, i + 1);
        }
        match md_link(s, i + 1) {
            Some((alt, k)) => alt + md_inline_from(s, i + 1 + k),
            None => seq!['!'] + md_inline_from(s, i + 1),
        }
    } else if s[i] == '[' {
        proof {
            lemma_md_link(s, i);
        }
        match md_link(s, i) {
            Some((t, k)) => t + md_inline_from(s, i + k),
            None => seq!['['] + md_inline_from(s, i + 1),
        }
    } else if s[i] == '*' {
        let cnt: int = if i + 1 < s.len() && s[i + 1] == '*' {
            2
        } else {
            1
        };
        let rs = i + cnt;
        let j = find_close_from(s, rs, s.subrange(i, rs));
        proof {
            lemma_find_close_from(s, rs, s.subrange(i, rs));
        }
        if j >= 0 {
            trim_seq(s.subrange(rs, j)) + md_inline_from(s, j + cnt)
        } else {
            md_inline_from(s, rs)
        }
    } else if s[i] == '`' {
        let j = next_index_of(s, i + 1, '`');
        proof {
            lemma_next_index_of(s, i + 1, '`');
        }
        if j < s.len() {
            trim_seq(s.subrange(i + 1, j)) + md_inline_from(s, j + 1)
        } else {
            md_inline_from(s, i + 1)
        }
    } else {
        seq![s[i]] + md_inline_from(s, i + 1)
    }
}

proof fn lemma_trim_len(s: Seq<char>)
    ensures
        trim_seq(s).len() <= s.len(),
{
    lemma_skip_ws(s, 0);
    lemma_back_ws(s, skip_ws(s, 0), s.len() as int);
}

/// Removing inline Markdown never lengthens a text, and leaves a text in which no `[`,
/// `*` or `` ` `` occurs unchanged.
pub proof fn lemma_md_inline_shrinks(s: Seq<char>, i: int)
    requires
        0 <= i <= s.len(),
    ensures
        md_inline_from(s, i).len() <= s.len() - i,
        (forall|k: int| i <= k < s.len() ==> s[k] != '[' && s[k] != '*' && s[k] != '`')
            ==> md_inline_from(s, i) == s.subrange(i, s.len() as int),
    decreases s.len() - i,
{
    if i < s.len() {
        if s[i] == '!' && i + 1 < s.len() && s[i + 1] == '[' {
            lemma_md_link(s, i + 1);
            match md_link(s, i + 1) {
                Some((alt, k)) => {
                    lemma_next_index_of(s, i + 1, ']');
                    let te = next_index_of(s, i + 1, ']');
                    lemma_next_index_of(s, te + 2, ')');
                    lemma_md_inline_shrinks(s, i + 1 + k);
                },
                None => {
                    lemma_md_inline_shrinks(s, i + 1);
                },
            }
        } else if s[i] == '[' {
            lemma_md_link(s, i);
            match md_link(s, i) {
                Some((t, k)) => {
                    lemma_next_index_of(s, i, ']');
                    let te = next_index_of(s, i, ']');
                    lemma_next_index_of(s, te + 2, ')');
                    lemma_md_inline_shrinks(s, i + k);
                },
                None => {
                    lemma_md_inline_shrinks(s, i + 1);
                },
            }
        } else if s[i] == '*' {
            let cnt: int = if i + 1 < s.len() && s[i + 1] == '*' {
                2
            } else {
                1
            };
            let rs = i + cnt;
            let m = s.subrange(i, rs);
            lemma_find_close_from(s, rs, m);
            let j = find_close_from(s, rs, m);
            if j >= 0 {
                lemma_trim_len(s.subrange(rs, j));
                lemma_md_inline_shrinks(s, j + cnt);
            } else {
                lemma_md_inline_shrinks(s, rs);
            }
        } else if s[i] == '`' {
            lemma_next_index_of(s, i + 1, '`');
            let j = next_index_of(s, i + 1, '`');
            if j < s.len() {
                lemma_trim_len(s.subrange(i + 1, j));
                lemma_md_inline_shrinks(s, j + 1);
            } else {
                lemma_md_inline_shrinks(s, i + 1);
            }
        } else {
            lemma_md_inline_shrinks(s, i + 1);
            if forall|k: int| i <= k < s.len() ==> s[k] != '[' && s[k] != '*' && s[k] != '`' {
                assert(md_inline_from(s, i) =~= s.subrange(i, s.len() as int));
            }
        }
    } else {
        assert(md_inline_from(s, i) =~= s.subrange(i, s.len() as int));
    }
}

/// Parses `[text](url)` at `pos`; returns the link text and the characters consumed.
fn parse_md_link(chars: &Vec<char>, pos: usize) -> (r: Option<(Vec<char>, usize)>)
    ensures
        match r {
            Some((t, k)) => md_link(chars@, pos as int) == Some((t@, k as int)),
            None => md_link(chars@, pos as int) is None,
        },
{
    if !(pos < chars.len() && chars[pos] == '[') {
        return None;
    }
    let te = find_char(chars, pos, ']');
    proof {
        lemma_next_index_of(chars@, pos as int, ']');
    }
    if te >= chars.len() {
        return None;
    }
    if !(te + 1 < chars.len() && chars[te + 1] == '(') {
        return None;
    }
    let pe = find_char(chars, te + 2, ')');
    proof {
        lemma_next_index_of(chars@, te + 2, ')');
    }
    if pe >= chars.len() {
        return None;
    }
    let text = slice_vec(chars, pos + 1, te);
    Some((text, pe - pos + 1))
}

/// Position, relative to `start`, of the first occurrence of `marker` in `chars[start..]`.
fn find_md_close(chars: &Vec<char>, start: usize, marker: &Vec<char>) -> (r: Option<usize>)
    requires
        start <= chars.len(),
    ensures
        match r {
            Some(k) => find_close_from(chars@, start as int, marker@) == start + k,
            None => find_close_from(chars@, start as int, marker@) == -1,
        },
{
    let mlen = marker.len();
    let mut j: usize = start;
    while j < chars.len()
        invariant
            start <= j <= chars.len(),
            mlen == marker.len(),
            find_close_from(chars@, j as int, marker@) == find_close_from(
                chars@,
                start as int,
                marker@,
            ),
        decreases chars.len() - j,
    {
        if mlen <= chars.len() - j {
            let mut t: usize = 0;
            while t < mlen && chars[j + t] == marker[t]
                invariant
                    t <= mlen,
                    mlen == marker.len(),
                    j + mlen <= chars.len(),
                    forall|u: int| 0 <= u < t ==> chars@[j + u] == marker@[u],
                decreases mlen - t,
            {
                t = t + 1;
            }
            if t == mlen {
                proof {
                    assert(chars@.subrange(j as int, j + mlen) =~= marker@);
                }
                return Some(j - start);
            }
            proof {
                assert(chars@.subrange(j as int, j + mlen)[t as int] != marker@[t as int]);
            }
        }
        j = j + 1;
    }
    None
}

/// Removes inline Markdown (see [`md_inline_from`]) from one line. The result is never
/// longer than the line, and a line with no `[`, `*` or `` ` `` comes back unchanged.
pub fn replace_md_inline(s: &Vec<char>) -> (r: Vec<char>)
    ensures
        r@ == md_inline_from(s@, 0),
        r@.len() <= s@.len(),
        (forall|k: int| 0 <= k < s@.len() ==> s@[k] != '[' && s@[k] != '*' && s@[k] != '`')
            ==> r@ == s@,
{
    proof {
        lemma_md_inline_shrinks(s@, 0);
        assert(s@.subrange(0, s@.len() as int) =~= s@);
    }
    let mut result: Vec<char> = Vec::new();
    let n = s.len();
    let mut i: usize = 0;
    while i < n
        invariant
            n == s.len(),
            i <= n,
            result@ + md_inline_from(s@, i as int) == md_inline_from(s@, 0),
        decreases n - i,
    {
        let ghost old_res = result@;
        let c = s[i];
        if c == '!' && i + 1 < n && s[i + 1] == '[' {
            proof {
                lemma_md_link(s@, i + 1);
            }
            match parse_md_link(s, i + 1) {
                Some((alt, skip)) => {
                    append_chars(&mut result, &alt);
                    proof {
                        assert(old_res + (alt@ + md_inline_from(s@, i + 1 + skip)) =~= result@
                            + md_inline_from(s@, i + 1 + skip));
                    }
                    i = i + 1 + skip;
                },
                None => {
                    result.push(c);
                    proof {
                        assert(old_res + (seq!['!'] + md_inline_from(s@, i + 1)) =~= result@
                            + md_inline_from(s@, i + 1));
                    }
                    i = i + 1;
                },
            }
        } else if c == '[' {
            proof {
                lemma_md_link(s@, i as int);
            }
            match parse_md_link(s, i) {
                Some((text, skip)) => {
                    append_chars(&mut result, &text);
                    proof {
                        assert(old_res + (text@ + md_inline_from(s@, i + skip)) =~= result@
                            + md_inline_from(s@, i + skip));
                    }
                    i = i + skip;
                },
                None => {
                    result.push(c);
                    proof {
                        assert(old_res + (seq!['['] + md_inline_from(s@, i + 1)) =~= result@
                            + md_inline_from(s@, i + 1));
                    }
                    i = i + 1;
                },
            }
        } else if c == '*' {
            let count: usize = if i + 1 < n && s[i + 1] == '*' { 2 } else { 1 };
            let rest_start = i + count;
            let marker = slice_vec(s, i, rest_start);
            proof {
                lemma_find_close_from(s@, rest_start as int, marker@);
            }
            match find_md_close(s, rest_start, &marker) {
                Some(close) => {
                    let inner = slice_vec(s, rest_start, rest_start + close);
                    let trimmed = trim_chars(&inner);
                    append_chars(&mut result, &trimmed);
                    proof {
                        assert(old_res + (trimmed@ + md_inline_from(s@, rest_start + close + count))
                            =~= result@ + md_inline_from(s@, rest_start + close + count));
                    }
                    i = rest_start + close + count;
                },
                None => {
                    i = rest_start;
                },
            }
        } else if c == '`' {
            let rest_start = i + 1;
            let close = find_char(s, rest_start, '`');
            proof {
                lemma_next_index_of(s@, rest_start as int, '`');
            }
            if close < n {
                let inner = slice_vec(s, rest_start, close);
                let trimmed = trim_chars(&inner);
                append_chars(&mut result, &trimmed);
                proof {
                    assert(old_res + (trimmed@ + md_inline_from(s@, close + 1)) =~= result@
                        + md_inline_from(s@, close + 1));
                }
                i = close + 1;
            } else {
                i = i + 1;
            }
        } else {
            result.push(c);
            proof {
                assert(old_res + (seq![c] + md_inline_from(s@, i + 1)) =~= result@ + md_inline_from(
                    s@,
                    i + 1,
                ));
            }
            i = i + 1;
        }
    }
    proof {
        assert(result@ + md_inline_from(s@, i as int) =~= result@);
    }
    result
}

/// One Markdown line made plain: trimmed, heading `#`s and blockquote `>`s removed,
/// inline syntax removed.
pub open spec fn md_line(l: Seq<char>) -> Seq<char> {
    let t = trim_seq(l);
    let h = if t.len() > 0 && t[0] == '#' {
        trim_seq(trim_start_char(t, '#'))
    } else {
        t
    };
    md_inline_from(trim_seq(trim_start_char(h, '>')), 0)
}

/// Each line made plain by [`md_line`] and followed by `'\n'`.
pub open spec fn md_lines(ls: Seq<Seq<char>>) -> Seq<char>
    decreases ls.len(),
{
    if ls.len() == 0 {
        seq![]
    } else {
        md_lines(ls.drop_last()) + md_line(ls.last()) + seq!['\n']
    }
}

/// Strips common Markdown syntax, preserving human-readable text, line by line.
pub fn strip_markdown(input: &Vec<char>) -> (r: Vec<char>)
    ensures
        r@ == md_lines(lines(input@)),
{
    let ls = split_lines(input);
    let ghost all = ls@.map_values(|v: Vec<char>| v@);
    let mut out: Vec<char> = Vec::new();
    let mut k: usize = 0;
    while k < ls.len()
        invariant
            k <= ls.len(),
            all == ls@.map_values(|v: Vec<char>| v@),
            all == lines(input@),
            out@ == md_lines(all.subrange(0, k as int)),
        decreases ls.len() - k,
    {
        let line = trim_chars(&ls[k]);
        let line = if line.len() > 0 && line[0] == '#' {
            let rest = trim_start_char_vec(&line, '#');
            trim_chars(&rest)
        } else {
            line
        };
        let unquoted = trim_start_char_vec(&line, '>');
        let line = trim_chars(&unquoted);
        let plain = replace_md_inline(&line);
        append_chars(&mut out, &plain);
        out.push('\n');
        proof {
            let next = all.subrange(0, k + 1);
            assert(next.drop_last() =~= all.subrange(0, k as int));
            assert(next.last() == ls@[k as int]@);
            assert(plain@ == md_line(ls@[k as int]@));
        }
        k = k + 1;
    }
    proof {
        assert(all.subrange(0, ls.len() as int) =~= all);
    }
    out
}

// ── headings ────────────────────────────────────────────────────────────────

proof fn lemma_back_ws_after_prefix(a: Seq<char>, b: Seq<char>, j: int)
    requires
        a.len() > 0,
        !is_ws(a[a.len() - 1]),
        0 <= j <= b.len(),
    ensures
        back_ws(a + b, 0, a.len() + j) == a.len() + back_ws(b, 0, j),
    decreases j,
{
    if j == 0 {
        assert((a + b)[a.len() - 1] == a[a.len() - 1]);
    } else {
        assert((a + b)[a.len() + j - 1] == b[j - 1]);
        if is_ws(b[j - 1]) {
            lemma_back_ws_after_prefix(a, b, j - 1);
        }
    }
}

proof fn lemma_back_ws_same_stop(x: Seq<char>, lo1: int, lo2: int, m: int, j: int)
    requires
        0 <= lo1 <= m,
        0 <= lo2 <= m,
        m < j <= x.len(),
        !is_ws(x[m]),
    ensures
        back_ws(x, lo1, j) == back_ws(x, lo2, j),
    decreases j,
{
    if j - 1 > m && is_ws(x[j - 1]) {
        lemma_back_ws_same_stop(x, lo1, lo2, m, j - 1);
    }
}

proof fn lemma_skip_ws_prefix(x: Seq<char>, e: int, i: int)
    requires
        0 <= i <= skip_ws(x, 0),
        skip_ws(x, 0) < e <= x.len(),
        skip_ws(x, i) == skip_ws(x, 0),
    ensures
        skip_ws(x.subrange(0, e), i) == skip_ws(x, 0),
    decreases skip_ws(x, 0) - i,
{
    if i < skip_ws(x, 0) {
        lemma_skip_ws(x, i);
        assert(is_ws(x[i]));
        assert(x.subrange(0, e)[i] == x[i]);
        lemma_skip_ws_prefix(x, e, i + 1);
    } else {
        lemma_skip_ws(x, 0);
        assert(x.subrange(0, e)[i] == x[i]);
    }
}

/// Trimming the end first does not change the trimmed text.
proof fn lemma_trim_after_end_trim(x: Seq<char>)
    ensures
        trim_seq(x.subrange(0, back_ws(x, 0, x.len() as int))) == trim_seq(x),
{
    let sx = skip_ws(x, 0);
    let bx = back_ws(x, 0, x.len() as int);
    lemma_skip_ws(x, 0);
    lemma_back_ws(x, 0, x.len() as int);
    let z = x.subrange(0, bx);
    if sx == x.len() {
        assert(bx == 0) by {
            if bx > 0 {
                assert(is_ws(x[bx - 1]));
            }
        }
        assert(trim_seq(z) =~= trim_seq(x));
    } else {
        assert(bx > sx) by {
            if bx <= sx {
                assert(is_ws(x[sx]));
            }
        }
        lemma_back_ws_same_stop(x, 0, sx, sx, x.len() as int);
        lemma_skip_ws_prefix(x, bx, 0);
        assert(z[bx - 1] == x[bx - 1]);
        assert(back_ws(z, sx, bx) == bx);
        assert(trim_seq(z) =~= x.subrange(sx, bx));
        assert(trim_seq(x) =~= x.subrange(sx, bx));
    }
}

proof fn lemma_skip_hashes(s: Seq<char>, n: int, i: int)
    requires
        0 <= i <= n <= s.len(),
        forall|k: int| 0 <= k < n ==> s[k] == '#',
        n == s.len() || s[n] != '#',
    ensures
        skip_char(s, i, '#') == n,
    decreases n - i,
{
    if i < n {
        lemma_skip_hashes(s, n, i + 1);
    }
}

/// Heading markers of every level are removed: a line made of any number of `#` and
/// then a text reads as that text alone, when the text neither starts with `#` nor
/// trims to something that does (so `"## Installation"` reads as `"Installation"`).
pub proof fn lemma_heading_markers_removed(n: nat, x: Seq<char>)
    requires
        n >= 1,
        x.len() == 0 || x[0] != '#',
        trim_seq(x).len() == 0 || trim_seq(x)[0] != '#',
    ensures
        md_line(Seq::new(n, |_i: int| '#') + x) == md_line(x),
{
    let hs = Seq::new(n, |_i: int| '#');
    let l = hs + x;
    assert(!is_ws('#'));
    assert(skip_ws(l, 0) == 0);
    lemma_back_ws(x, 0, x.len() as int);
    lemma_back_ws_after_prefix(hs, x, x.len() as int);
    let bx = back_ws(x, 0, x.len() as int);
    let z = x.subrange(0, bx);
    let t = trim_seq(l);
    assert(l.len() == hs.len() + x.len());
    assert(t == l.subrange(0, n + bx));
    assert(t =~= hs + z);
    assert(t[0] == '#');
    lemma_skip_hashes(t, n as int, 0);
    assert(trim_start_char(t, '#') =~= z);
    lemma_trim_after_end_trim(x);
}

} // verus!
