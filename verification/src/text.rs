//! Character-level helpers shared by the chunker, the extractors and the search engine.

use vstd::prelude::*;

verus! {

/// Unicode `White_Space` property, as used by `char::is_whitespace`, `str::trim`
/// and `str::split_whitespace`.
pub open spec fn is_ws(c: char) -> bool {
    ||| ('\u{9}' <= c && c <= '\u{d}')
    ||| c == ' '
    ||| c == '\u{85}'
    ||| c == '\u{a0}'
    ||| c == '\u{1680}'
    ||| ('\u{2000}' <= c && c <= '\u{200a}')
    ||| c == '\u{2028}'
    ||| c == '\u{2029}'
    ||| c == '\u{202f}'
    ||| c == '\u{205f}'
    ||| c == '\u{3000}'
}

/// Executable form of [`is_ws`].
pub fn is_whitespace(c: char) -> (r: bool)
    ensures
        r == is_ws(c),
{
    ('\u{9}' <= c && c <= '\u{d}') || c == ' ' || c == '\u{85}' || c == '\u{a0}' || c
        == '\u{1680}' || ('\u{2000}' <= c && c <= '\u{200a}') || c == '\u{2028}' || c
        == '\u{2029}' || c == '\u{202f}' || c == '\u{205f}' || c == '\u{3000}'
}

/// The characters of a string slice, in order.
pub fn str_chars(s: &str) -> (v: Vec<char>)
    ensures
        v@ == s@,
{
    let mut v: Vec<char> = Vec::new();
    for c in it: s.chars()
        invariant
            v@ == it.seq().take(it.index() as int),
    {
        v.push(c);
    }
    v
}

} // verus!

verus! {

/// Builds a `String` from a vector of characters (std's `String::from_iter`).
#[verifier::external_body]
pub(crate) fn string_from_chars(v: Vec<char>) -> (s: String)
    ensures
        s@ == v@,
{
    String::from_iter(v)
}

/// First index `k >= i` with `s[k] == c`, or `s.len()` when there is none.
pub open spec fn next_index_of(s: Seq<char>, i: int, c: char) -> int
    decreases s.len() - i,
{
    if i >= s.len() {
        s.len() as int
    } else if s[i] == c {
        i
    } else {
        next_index_of(s, i + 1, c)
    }
}

pub proof fn lemma_next_index_of(s: Seq<char>, i: int, c: char)
    requires
        0 <= i <= s.len(),
    ensures
        i <= next_index_of(s, i, c) <= s.len(),
        next_index_of(s, i, c) < s.len() ==> s[next_index_of(s, i, c)] == c,
        forall|k: int| i <= k < next_index_of(s, i, c) ==> s[k] != c,
    decreases s.len() - i,
{
    if i < s.len() && s[i] != c {
        lemma_next_index_of(s, i + 1, c);
    }
}

/// Index of the first `c` at or after `from`, or `s.len()`.
pub fn find_char(s: &Vec<char>, from: usize, c: char) -> (r: usize)
    requires
        from <= s.len(),
    ensures
        r == next_index_of(s@, from as int, c),
{
    let mut k: usize = from;
    while k < s.len() && s[k] != c
        invariant
            from <= k <= s.len(),
            next_index_of(s@, k as int, c) == next_index_of(s@, from as int, c),
        decreases s.len() - k,
    {
        k = k + 1;
    }
    k
}

/// Copy of `s[lo..hi]`.
pub fn slice_vec(s: &Vec<char>, lo: usize, hi: usize) -> (r: Vec<char>)
    requires
        lo <= hi <= s.len(),
    ensures
        r@ == s@.subrange(lo as int, hi as int),
{
    let mut r: Vec<char> = Vec::new();
    let mut k: usize = lo;
    while k < hi
        invariant
            lo <= k <= hi <= s.len(),
            r@ == s@.subrange(lo as int, k as int),
        decreases hi - k,
    {
        r.push(s[k]);
        k = k + 1;
    }
    r
}

/// Appends all of `b` to `a`.
pub fn append_chars(a: &mut Vec<char>, b: &Vec<char>)
    ensures
        final(a)@ == old(a)@ + b@,
{
    let mut k: usize = 0;
    while k < b.len()
        invariant
            k <= b.len(),
            a@ == old(a)@ + b@.subrange(0, k as int),
        decreases b.len() - k,
    {
        a.push(b[k]);
        k = k + 1;
        proof {
            assert(b@.subrange(0, k as int) =~= b@.subrange(0, k - 1) + seq![b@[k - 1]]);
        }
    }
    proof {
        assert(b@.subrange(0, b.len() as int) =~= b@);
    }
}

/// Pieces of `s[i..]` separated by `c`, as `str::split(c)` yields them.
pub open spec fn split_from(s: Seq<char>, i: int, c: char) -> Seq<Seq<char>>
    decreases s.len() - i,
{
    if i < 0 || i > s.len() {
        seq![]
    } else {
        let e = next_index_of(s, i, c);
        if i <= e < s.len() {
            seq![s.subrange(i, e)] + split_from(s, e + 1, c)
        } else {
            seq![s.subrange(i, s.len() as int)]
        }
    }
}

/// `str::split(c)` on a character sequence.
pub open spec fn split_seq(s: Seq<char>, c: char) -> Seq<Seq<char>> {
    split_from(s, 0, c)
}

/// Splits `s` on every occurrence of `c`, like `str::split(c)`.
pub fn split_chars(s: &Vec<char>, c: char) -> (r: Vec<Vec<char>>)
    ensures
        r@.map_values(|v: Vec<char>| v@) == split_seq(s@, c),
{
    let mut r: Vec<Vec<char>> = Vec::new();
    let mut i: usize = 0;
    loop
        invariant
            i <= s.len(),
            r@.map_values(|v: Vec<char>| v@) + split_from(s@, i as int, c) == split_seq(s@, c),
        decreases s.len() - i,
    {
        let e: usize = find_char(s, i, c);
        proof {
            lemma_next_index_of(s@, i as int, c);
        }
        let piece = slice_vec(s, i, e);
        let ghost old_r = r@.map_values(|v: Vec<char>| v@);
        r.push(piece);
        proof {
            assert(r@.map_values(|v: Vec<char>| v@) =~= old_r.push(piece@));
        }
        if e < s.len() {
            proof {
                assert(split_from(s@, i as int, c) =~= seq![piece@] + split_from(s@, e + 1, c));
                assert(old_r.push(piece@) + split_from(s@, e + 1, c) =~= old_r + (seq![piece@]
                    + split_from(s@, e + 1, c)));
            }
            i = e + 1;
        } else {
            proof {
                assert(split_from(s@, i as int, c) =~= seq![piece@]);
                assert(old_r.push(piece@) =~= old_r + seq![piece@]);
            }
            return r;
        }
    }
}

} // verus!

verus! {

/// First index `k >= i` that does not hold whitespace (or `s.len()`).
pub open spec fn skip_ws(s: Seq<char>, i: int) -> int
    decreases s.len() - i,
{
    if 0 <= i < s.len() && is_ws(s[i]) {
        skip_ws(s, i + 1)
    } else {
        i
    }
}

/// Largest `k <= j`, `k >= lo`, such that `s[lo..k]` does not end in whitespace.
pub open spec fn back_ws(s: Seq<char>, lo: int, j: int) -> int
    decreases j - lo,
{
    if lo < j && is_ws(s[j - 1]) {
        back_ws(s, lo, j - 1)
    } else {
        j
    }
}

/// `str::trim`: the sequence without leading and trailing whitespace.
pub open spec fn trim_seq(s: Seq<char>) -> Seq<char> {
    let a = skip_ws(s, 0);
    s.subrange(a, back_ws(s, a, s.len() as int))
}

pub proof fn lemma_skip_ws(s: Seq<char>, i: int)
    requires
        0 <= i <= s.len(),
    ensures
        i <= skip_ws(s, i) <= s.len(),
        forall|k: int| i <= k < skip_ws(s, i) ==> is_ws(s[k]),
        skip_ws(s, i) < s.len() ==> !is_ws(s[skip_ws(s, i)]),
    decreases s.len() - i,
{
    if i < s.len() && is_ws(s[i]) {
        lemma_skip_ws(s, i + 1);
    }
}

pub proof fn lemma_back_ws(s: Seq<char>, lo: int, j: int)
    requires
        0 <= lo <= j <= s.len(),
    ensures
        lo <= back_ws(s, lo, j) <= j,
        forall|k: int| back_ws(s, lo, j) <= k < j ==> is_ws(s[k]),
        back_ws(s, lo, j) > lo ==> !is_ws(s[back_ws(s, lo, j) - 1]),
    decreases j - lo,
{
    if lo < j && is_ws(s[j - 1]) {
        lemma_back_ws(s, lo, j - 1);
    }
}

/// Bounds `(a, b)` of `trim_seq(s)` inside `s`.
pub fn trim_bounds(s: &Vec<char>) -> (r: (usize, usize))
    ensures
        r.0 == skip_ws(s@, 0),
        r.1 == back_ws(s@, r.0 as int, s.len() as int),
        r.0 <= r.1 <= s.len(),
        s@.subrange(r.0 as int, r.1 as int) == trim_seq(s@),
{
    let mut a: usize = 0;
    while a < s.len() && is_whitespace(s[a])
        invariant
            a <= s.len(),
            skip_ws(s@, a as int) == skip_ws(s@, 0),
        decreases s.len() - a,
    {
        a = a + 1;
    }
    let mut b: usize = s.len();
    while b > a && is_whitespace(s[b - 1])
        invariant
            a <= b <= s.len(),
            back_ws(s@, a as int, b as int) == back_ws(s@, a as int, s.len() as int),
        decreases b,
    {
        b = b - 1;
    }
    (a, b)
}

/// `str::trim` on a character vector.
pub fn trim_chars(s: &Vec<char>) -> (r: Vec<char>)
    ensures
        r@ == trim_seq(s@),
{
    let (a, b) = trim_bounds(s);
    slice_vec(s, a, b)
}

/// Number of leading copies of `c` in `s[i..]`, as an end index.
pub open spec fn skip_char(s: Seq<char>, i: int, c: char) -> int
    decreases s.len() - i,
{
    if 0 <= i < s.len() && s[i] == c {
        skip_char(s, i + 1, c)
    } else {
        i
    }
}

/// `str::trim_start_matches(c)` for a single character `c`.
pub open spec fn trim_start_char(s: Seq<char>, c: char) -> Seq<char> {
    s.subrange(skip_char(s, 0, c), s.len() as int)
}

pub proof fn lemma_skip_char(s: Seq<char>, i: int, c: char)
    requires
        0 <= i <= s.len(),
    ensures
        i <= skip_char(s, i, c) <= s.len(),
    decreases s.len() - i,
{
    if i < s.len() && s[i] == c {
        lemma_skip_char(s, i + 1, c);
    }
}

/// `str::trim_start_matches(c)` on a character vector.
pub fn trim_start_char_vec(s: &Vec<char>, c: char) -> (r: Vec<char>)
    ensures
        r@ == trim_start_char(s@, c),
{
    let mut a: usize = 0;
    while a < s.len() && s[a] == c
        invariant
            a <= s.len(),
            skip_char(s@, a as int, c) == skip_char(s@, 0, c),
        decreases s.len() - a,
    {
        a = a + 1;
    }
    slice_vec(s, a, s.len())
}

/// Concatenation of `ws` with `sep` between consecutive elements (`[T]::join`).
pub open spec fn join_seqs(ws: Seq<Seq<char>>, sep: Seq<char>) -> Seq<char>
    decreases ws.len(),
{
    if ws.len() == 0 {
        seq![]
    } else if ws.len() == 1 {
        ws[0]
    } else {
        join_seqs(ws.drop_last(), sep) + sep + ws.last()
    }
}

/// Joins `ws[lo..hi]` with `sep`.
pub fn join_range(ws: &Vec<Vec<char>>, lo: usize, hi: usize, sep: &Vec<char>) -> (r: Vec<char>)
    requires
        lo <= hi <= ws.len(),
    ensures
        r@ == join_seqs(ws@.map_values(|v: Vec<char>| v@).subrange(lo as int, hi as int), sep@),
{
    let ghost all = ws@.map_values(|v: Vec<char>| v@);
    let mut r: Vec<char> = Vec::new();
    let mut k: usize = lo;
    while k < hi
        invariant
            lo <= k <= hi <= ws.len(),
            all == ws@.map_values(|v: Vec<char>| v@),
            r@ == join_seqs(all.subrange(lo as int, k as int), sep@),
        decreases hi - k,
    {
        if k > lo {
            append_chars(&mut r, sep);
        }
        append_chars(&mut r, &ws[k]);
        proof {
            let prev = all.subrange(lo as int, k as int);
            let next = all.subrange(lo as int, k + 1);
            assert(next.drop_last() =~= prev);
            assert(next.last() == ws@[k as int]@);
            if k == lo {
                assert(prev.len() == 0);
            }
        }
        k = k + 1;
    }
    r
}

/// Joins all of `ws` with `sep`.
pub fn join_all(ws: &Vec<Vec<char>>, sep: &Vec<char>) -> (r: Vec<char>)
    ensures
        r@ == join_seqs(ws@.map_values(|v: Vec<char>| v@), sep@),
{
    let r = join_range(ws, 0, ws.len(), sep);
    proof {
        assert(ws@.map_values(|v: Vec<char>| v@).subrange(0, ws.len() as int) =~= ws@.map_values(
            |v: Vec<char>| v@,
        ));
    }
    r
}

} // verus!

verus! {

/// End of the run of non-whitespace characters starting at `i`.
pub open spec fn word_end(s: Seq<char>, i: int) -> int
    decreases s.len() - i,
{
    if 0 <= i < s.len() && !is_ws(s[i]) {
        word_end(s, i + 1)
    } else {
        i
    }
}

pub proof fn lemma_word_end(s: Seq<char>, i: int)
    requires
        0 <= i <= s.len(),
    ensures
        i <= word_end(s, i) <= s.len(),
        word_end(s, i) < s.len() ==> is_ws(s[word_end(s, i)]),
        forall|k: int| i <= k < word_end(s, i) ==> !is_ws(s[k]),
    decreases s.len() - i,
{
    if i < s.len() && !is_ws(s[i]) {
        lemma_word_end(s, i + 1);
    }
}

/// The whitespace-separated words of `s[i..]` (`str::split_whitespace`).
pub open spec fn words_from(s: Seq<char>, i: int) -> Seq<Seq<char>>
    decreases s.len() - i,
{
    if i < 0 || i >= s.len() {
        seq![]
    } else if is_ws(s[i]) {
        words_from(s, i + 1)
    } else {
        let e = word_end(s, i + 1);
        if i < e <= s.len() {
            seq![s.subrange(i, e)] + words_from(s, e)
        } else {
            seq![]
        }
    }
}

/// `str::split_whitespace` as a sequence of words.
pub open spec fn words(s: Seq<char>) -> Seq<Seq<char>> {
    words_from(s, 0)
}

/// Splits `s` into its whitespace-separated words.
pub fn split_words(s: &Vec<char>) -> (r: Vec<Vec<char>>)
    ensures
        r@.map_values(|v: Vec<char>| v@) == words(s@),
{
    let mut r: Vec<Vec<char>> = Vec::new();
    let mut i: usize = 0;
    while i < s.len()
        invariant
            i <= s.len(),
            r@.map_values(|v: Vec<char>| v@) + words_from(s@, i as int) == words(s@),
        decreases s.len() - i,
    {
        if is_whitespace(s[i]) {
            i = i + 1;
        } else {
            let mut e: usize = i + 1;
            while e < s.len() && !is_whitespace(s[e])
                invariant
                    i < e <= s.len(),
                    word_end(s@, e as int) == word_end(s@, i + 1),
                decreases s.len() - e,
            {
                e = e + 1;
            }
            let piece = slice_vec(s, i, e);
            let ghost old_r = r@.map_values(|v: Vec<char>| v@);
            r.push(piece);
            proof {
                assert(r@.map_values(|v: Vec<char>| v@) =~= old_r.push(piece@));
                assert(words_from(s@, i as int) =~= seq![piece@] + words_from(s@, e as int));
                assert(old_r.push(piece@) + words_from(s@, e as int) =~= old_r + (seq![piece@]
                    + words_from(s@, e as int)));
            }
            i = e;
        }
    }
    proof {
        assert(r@.map_values(|v: Vec<char>| v@) + words_from(s@, i as int) =~= r@.map_values(
            |v: Vec<char>| v@,
        ));
    }
    r
}

/// Removes one trailing `'\r'`.
pub open spec fn strip_cr(s: Seq<char>) -> Seq<char> {
    if s.len() > 0 && s.last() == '\r' {
        s.drop_last()
    } else {
        s
    }
}

/// The lines of `s[i..]` as `str::lines` yields them: split after each `'\n'`,
/// the `'\n'` and one `'\r'` before it removed, no empty line after a final `'\n'`.
pub open spec fn lines_from(s: Seq<char>, i: int) -> Seq<Seq<char>>
    decreases s.len() - i,
{
    if i < 0 || i >= s.len() {
        seq![]
    } else {
        let e = next_index_of(s, i, '\n');
        if i <= e < s.len() {
            seq![strip_cr(s.subrange(i, e))] + lines_from(s, e + 1)
        } else {
            seq![s.subrange(i, s.len() as int)]
        }
    }
}

/// `str::lines`.
pub open spec fn lines(s: Seq<char>) -> Seq<Seq<char>> {
    lines_from(s, 0)
}

/// Splits `s` into lines, as `str::lines` does.
pub fn split_lines(s: &Vec<char>) -> (r: Vec<Vec<char>>)
    ensures
        r@.map_values(|v: Vec<char>| v@) == lines(s@),
{
    let mut r: Vec<Vec<char>> = Vec::new();
    let mut i: usize = 0;
    while i < s.len()
        invariant
            i <= s.len(),
            r@.map_values(|v: Vec<char>| v@) + lines_from(s@, i as int) == lines(s@),
        decreases s.len() - i,
    {
        let e: usize = find_char(s, i, '\n');
        proof {
            lemma_next_index_of(s@, i as int, '\n');
        }
        let ghost old_r = r@.map_values(|v: Vec<char>| v@);
        if e < s.len() {
            let end: usize = if e > i && s[e - 1] == '\r' { e - 1 } else { e };
            let piece = slice_vec(s, i, end);
            r.push(piece);
            proof {
                let full = s@.subrange(i as int, e as int);
                if e > i && s@[e - 1] == '\r' {
                    assert(strip_cr(full) =~= piece@);
                } else {
                    assert(strip_cr(full) =~= piece@);
                }
                assert(r@.map_values(|v: Vec<char>| v@) =~= old_r.push(piece@));
                assert(lines_from(s@, i as int) =~= seq![piece@] + lines_from(s@, e + 1));
                assert(old_r.push(piece@) + lines_from(s@, e + 1) =~= old_r + (seq![piece@]
                    + lines_from(s@, e + 1)));
            }
            i = e + 1;
        } else {
            let piece = slice_vec(s, i, s.len());
            r.push(piece);
            proof {
                assert(r@.map_values(|v: Vec<char>| v@) =~= old_r.push(piece@));
                assert(lines_from(s@, i as int) =~= seq![piece@]);
                assert(lines_from(s@, s.len() as int) =~= seq![]);
                assert(old_r.push(piece@) + seq![] =~= old_r + seq![piece@]);
            }
            i = s.len();
        }
    }
    proof {
        assert(r@.map_values(|v: Vec<char>| v@) + lines_from(s@, i as int) =~= r@.map_values(
            |v: Vec<char>| v@,
        ));
    }
    r
}

} // verus!

verus! {

/// Equality of two character vectors.
pub fn chars_eq(a: &Vec<char>, b: &Vec<char>) -> (r: bool)
    ensures
        r == (a@ == b@),
{
    if a.len() != b.len() {
        return false;
    }
    let mut k: usize = 0;
    while k < a.len()
        invariant
            k <= a.len(),
            a.len() == b.len(),
            forall|u: int| 0 <= u < k ==> a@[u] == b@[u],
        decreases a.len() - k,
    {
        if a[k] != b[k] {
            return false;
        }
        k = k + 1;
    }
    proof {
        assert(a@ =~= b@);
    }
    true
}

} // verus!

verus! {

/// `p` is a prefix of `s`.
pub open spec fn has_prefix(s: Seq<char>, p: Seq<char>) -> bool {
    p.len() <= s.len() && s.subrange(0, p.len() as int) == p
}

/// `m` occurs in `s` starting at index `j`.
pub open spec fn found_at(s: Seq<char>, j: int, m: Seq<char>) -> bool {
    0 <= j && j + m.len() <= s.len() && s.subrange(j, j + m.len()) == m
}

/// `m` occurs somewhere in `s` (`str::contains`).
pub open spec fn contains_seq(s: Seq<char>, m: Seq<char>) -> bool {
    exists|j: int| found_at(s, j, m)
}

/// `m` occurs in `s` at index `j`, compared character by character.
fn matches_at(s: &Vec<char>, j: usize, m: &Vec<char>) -> (r: bool)
    requires
        j + m.len() <= s.len(),
    ensures
        r == (s@.subrange(j as int, j + m.len()) == m@),
{
    let mut k: usize = 0;
    while k < m.len()
        invariant
            k <= m.len(),
            j + m.len() <= s.len(),
            forall|u: int| 0 <= u < k ==> s@[j + u] == m@[u],
        decreases m.len() - k,
    {
        if s[j + k] != m[k] {
            proof {
                assert(s@.subrange(j as int, j + m.len())[k as int] != m@[k as int]);
            }
            return false;
        }
        k = k + 1;
    }
    proof {
        assert(s@.subrange(j as int, j + m.len()) =~= m@);
    }
    true
}

/// `str::starts_with` on characters.
pub fn starts_with_chars(s: &Vec<char>, p: &Vec<char>) -> (r: bool)
    ensures
        r == has_prefix(s@, p@),
{
    if p.len() > s.len() {
        return false;
    }
    matches_at(s, 0, p)
}

/// `str::contains` on characters.
pub fn contains_chars(s: &Vec<char>, m: &Vec<char>) -> (r: bool)
    ensures
        r == contains_seq(s@, m@),
{
    if m.len() > s.len() {
        proof {
            assert forall|j: int| !found_at(s@, j, m@) by {}
        }
        return false;
    }
    if m.len() == 0 {
        proof {
            assert(s@.subrange(0, 0) =~= m@);
            assert(found_at(s@, 0, m@));
        }
        return true;
    }
    let last = s.len() - m.len();
    let mut j: usize = 0;
    while j <= last
        invariant
            last == s.len() - m.len(),
            1 <= m.len() <= s.len(),
            forall|u: int| 0 <= u < j ==> !found_at(s@, u, m@),
        decreases last + 1 - j,
    {
        if matches_at(s, j, m) {
            proof {
                assert(found_at(s@, j as int, m@));
            }
            return true;
        }
        j = j + 1;
    }
    proof {
        assert forall|u: int| !found_at(s@, u, m@) by {
            if 0 <= u < j {
            }
        }
    }
    false
}

} // verus!
