//! Splitting extracted text into overlapping windows of whitespace-delimited tokens.

use vstd::prelude::*;
use crate::text::{join_range, join_seqs, split_words, str_chars, string_from_chars, words};

verus! {

/// Tokens per window used by the indexer.
pub const CHUNK_SIZE: usize = 256;

/// Tokens shared by consecutive windows.
pub const CHUNK_OVERLAP: usize = 32;

/// One window of tokens: `[start_token, end_token)` and their text joined by single spaces.
pub struct Chunk {
    pub start_token: usize,
    pub end_token: usize,
    pub text: String,
}

/// Number of windows that `chunk_text` produces for `n` tokens.
pub open spec fn chunk_count(n: int, size: int, step: int) -> int {
    if n == 0 {
        0
    } else if n <= size {
        1
    } else {
        1 + (n - size + step - 1) / step
    }
}

/// First token of window `k`.
pub open spec fn window_start(k: int, step: int) -> int {
    k * step
}

/// One past the last token of window `k`.
pub open spec fn window_end(k: int, size: int, step: int, n: int) -> int {
    if k * step + size <= n {
        k * step + size
    } else {
        n
    }
}

/// Text of a window: its tokens joined by one space.
pub open spec fn window_text(toks: Seq<Seq<char>>, lo: int, hi: int) -> Seq<char> {
    join_seqs(toks.subrange(lo, hi), seq![' '])
}

proof fn lemma_count_step(c: int, n: int, size: int, step: int)
    requires
        1 <= step <= size,
        size < n,
        c >= 1,
        (c - 1) * step + size < n,
        n <= c * step + size,
    ensures
        c + 1 == chunk_count(n, size, step),
{
    let d = n - size;
    assert((c - 1) * step < d <= c * step);
    assert(c * step <= d + step - 1 < (c + 1) * step) by (nonlinear_arith)
        requires
            (c - 1) * step < d,
            d <= c * step,
            step >= 1,
    ;
    assert((d + step - 1) / step == c) by (nonlinear_arith)
        requires
            c * step <= d + step - 1,
            d + step - 1 < (c + 1) * step,
            step >= 1,
    ;
}

/// Split `text` into overlapping windows of whitespace-delimited tokens.
///
/// Window `k` covers tokens `[k * (chunk_size - overlap), min(k * (chunk_size - overlap)
/// + chunk_size, n))`; the last window is the first one that reaches the final token.
/// `overlap >= chunk_size` is a programming error and is excluded.
pub fn chunk_text(text: &str, chunk_size: usize, overlap: usize) -> (r: Vec<Chunk>)
    requires
        overlap < chunk_size,
    ensures
        ({
            let toks = words(text@);
            let n = toks.len() as int;
            let step = chunk_size - overlap;
            &&& r.len() == chunk_count(n, chunk_size as int, step)
            &&& forall|k: int|
                #![trigger r[k]]
                0 <= k < r.len() ==> {
                    &&& r[k].start_token == window_start(k, step)
                    &&& r[k].end_token == window_end(k, chunk_size as int, step, n)
                    &&& r[k].text@ == window_text(toks, r[k].start_token as int, r[k].end_token as int)
                }
        }),
{
    let chars = str_chars(text);
    let tokens = split_words(&chars);
    let ghost toks = words(text@);
    let n = tokens.len();
    let mut chunks: Vec<Chunk> = Vec::new();
    if n == 0 {
        return chunks;
    }
    let step = chunk_size - overlap;
    let sep: Vec<char> = vec![' '];
    let mut start: usize = 0;
    let mut c: usize = 0;
    loop
        invariant
            tokens@.map_values(|v: Vec<char>| v@) == toks,
            toks == words(text@),
            n == tokens.len(),
            n > 0,
            step == chunk_size - overlap,
            1 <= step <= chunk_size,
            sep@ == seq![' '],
            chunks.len() == c,
            start == c * step,
            start < n,
            c >= 1 ==> (c - 1) * step + chunk_size < n,
            forall|k: int|
                #![trigger chunks[k]]
                0 <= k < c ==> {
                    &&& chunks[k].start_token == window_start(k, step as int)
                    &&& chunks[k].end_token == window_end(k, chunk_size as int, step as int, n as int)
                    &&& chunks[k].text@ == window_text(toks, chunks[k].start_token as int, chunks[k].end_token as int)
                },
        decreases n - start,
    {
        let end: usize = if chunk_size <= n - start { start + chunk_size } else { n };
        let words_joined = join_range(&tokens, start, end, &sep);
        let chunk = Chunk { start_token: start, end_token: end, text: string_from_chars(words_joined) };
        chunks.push(chunk);
        proof {
            assert(window_end(c as int, chunk_size as int, step as int, n as int) == end);
            assert(chunks[c as int].text@ == window_text(toks, start as int, end as int));
        }
        if end == n {
            proof {
                if n <= chunk_size {
                    if c >= 1 {
                        assert((c - 1) * step + chunk_size >= chunk_size) by (nonlinear_arith)
                            requires c >= 1, step >= 1;
                    }
                    assert(c == 0);
                } else {
                    if c == 0 {
                        assert(false);
                    }
                    lemma_count_step(c as int, n as int, chunk_size as int, step as int);
                }
            }
            return chunks;
        }
        proof {
            assert(start + chunk_size < n);
            assert((c + 1) * step == c * step + step) by (nonlinear_arith);
            assert(c <= c * step) by (nonlinear_arith) requires step >= 1, c >= 0;
        }
        start = start + step;
        c = c + 1;
    }
}


/// Consecutive windows share exactly `overlap` tokens: window `k + 1` starts `overlap`
/// tokens before window `k` ends.
pub proof fn lemma_windows_overlap(n: int, chunk_size: int, overlap: int, k: int)
    requires
        0 <= overlap < chunk_size,
        0 <= k,
        k + 1 < chunk_count(n, chunk_size, chunk_size - overlap),
    ensures
        window_end(k, chunk_size, chunk_size - overlap, n) - window_start(k + 1, chunk_size - overlap)
            == overlap,
{
    let step = chunk_size - overlap;
    let q = (n - chunk_size + step - 1) / step;
    assert(n > chunk_size);
    assert(k + 1 < 1 + q);
    assert(q * step <= n - chunk_size + step - 1) by (nonlinear_arith)
        requires
            q == (n - chunk_size + step - 1) / step,
            step >= 1,
    ;
    assert(k * step <= (q - 1) * step) by (nonlinear_arith)
        requires
            k <= q - 1,
            step >= 1,
    ;
    assert((q - 1) * step == q * step - step) by (nonlinear_arith);
    assert((k + 1) * step == k * step + step) by (nonlinear_arith);
}

/// The windows cover the tokens without gaps: the first starts at token 0, each holds
/// between 1 and `chunk_size` tokens, each starts no later than the previous one ends,
/// and the last ends at the final token.
pub proof fn lemma_windows_cover(n: int, chunk_size: int, overlap: int)
    requires
        0 <= overlap < chunk_size,
        n > 0,
    ensures
        ({
            let step = chunk_size - overlap;
            let count = chunk_count(n, chunk_size, step);
            &&& count >= 1
            &&& window_start(0, step) == 0
            &&& window_end(count - 1, chunk_size, step, n) == n
            &&& forall|k: int|
                0 <= k < count ==> 0 < #[trigger] window_end(k, chunk_size, step, n) - window_start(k, step)
                    <= chunk_size
            &&& forall|k: int|
                0 <= k && k + 1 < count ==> window_start(k + 1, step) <= #[trigger] window_end(
                    k,
                    chunk_size,
                    step,
                    n,
                )
        }),
{
    let step = chunk_size - overlap;
    let count = chunk_count(n, chunk_size, step);
    assert(0 * step == 0);
    if n > chunk_size {
        let q = (n - chunk_size + step - 1) / step;
        assert(q * step <= n - chunk_size + step - 1 && q * step > n - chunk_size - 1) by (
        nonlinear_arith)
            requires
                q == (n - chunk_size + step - 1) / step,
                step >= 1,
        ;
        assert(q >= 1) by (nonlinear_arith)
            requires
                q * step > n - chunk_size - 1,
                n > chunk_size,
                step >= 1,
        ;
        assert(count - 1 == q);
        assert forall|k: int| 0 <= k < count implies 0 < #[trigger] window_end(k, chunk_size, step, n)
            - window_start(k, step) <= chunk_size by {
            assert(k * step <= q * step) by (nonlinear_arith)
                requires
                    k <= q,
                    step >= 1,
            ;
        }
        assert forall|k: int| 0 <= k && k + 1 < count implies window_start(k + 1, step)
            <= #[trigger] window_end(k, chunk_size, step, n) by {
            lemma_windows_overlap(n, chunk_size, overlap, k);
        }
    }
}

} // verus!
