//! Properties of result ordering, fused scores and cursor pagination that hold across
//! calls of the search functions.

use vstd::prelude::*;
use vstd::seq_lib::{to_multiset_build, to_multiset_insert};
use crate::search::{
    after_cursor, candidate_for, clamp_limit, cursor_start, dedup, first_index, hit_from,
    hits_of_rows, in_scope, insert_pos, lemma_dedup, lemma_first_index, lemma_sort_len, opt_int,
    page_of, page_start, passing, precedes, rank_in, root_in_scope, row_passes, rrf, score_eq,
    score_gt, score_of_file, scoped, scopes_lower, seq_lt, sort_hits, vec_files, ActiveRoot,
    Candidate, FileRow, RankedHit, SearchPage, SearchParams, VecHit, date_unix, from_bound_ns,
    to_bound_ns, media_ok, strs, lowercase,
};
use crate::text::split_seq;

verus! {

/// Every hit's score has a positive denominator.
pub open spec fn scores_valid(s: Seq<RankedHit>) -> bool {
    forall|i: int| 0 <= i < s.len() ==> (#[trigger] s[i]).score.den > 0
}

/// No hit is listed after a hit that it precedes.
pub open spec fn hits_sorted(t: Seq<RankedHit>) -> bool {
    forall|i: int, j: int| 0 <= i < j < t.len() ==> !precedes(#[trigger] t[j], #[trigger] t[i])
}

/// No two hits share a path.
pub open spec fn paths_distinct(t: Seq<RankedHit>) -> bool {
    forall|i: int, j: int| 0 <= i < j < t.len() ==> (#[trigger] t[i]).path@ != (#[trigger] t[j]).path@
}

// ── text order ──────────────────────────────────────────────────────────────

proof fn lemma_seq_lt_irreflexive(a: Seq<char>)
    ensures
        !seq_lt(a, a),
    decreases a.len(),
{
    if a.len() > 0 {
        lemma_seq_lt_irreflexive(a.drop_first());
    }
}

proof fn lemma_seq_lt_asymmetric(a: Seq<char>, b: Seq<char>)
    requires
        seq_lt(a, b),
    ensures
        !seq_lt(b, a),
    decreases a.len(),
{
    if a.len() > 0 && b.len() > 0 && a[0] == b[0] {
        lemma_seq_lt_asymmetric(a.drop_first(), b.drop_first());
    }
}

proof fn lemma_seq_lt_transitive(a: Seq<char>, b: Seq<char>, c: Seq<char>)
    requires
        seq_lt(a, b),
        seq_lt(b, c),
    ensures
        seq_lt(a, c),
    decreases a.len(),
{
    if a.len() > 0 && a[0] == b[0] && b[0] == c[0] {
        lemma_seq_lt_transitive(a.drop_first(), b.drop_first(), c.drop_first());
    }
}

proof fn lemma_seq_lt_total(a: Seq<char>, b: Seq<char>)
    requires
        a != b,
    ensures
        seq_lt(a, b) || seq_lt(b, a),
    decreases a.len(),
{
    if a.len() == 0 && b.len() == 0 {
        assert(a =~= b);
    } else if a.len() > 0 && b.len() > 0 && a[0] == b[0] {
        assert(a =~= seq![a[0]] + a.drop_first());
        assert(b =~= seq![b[0]] + b.drop_first());
        lemma_seq_lt_total(a.drop_first(), b.drop_first());
    }
}

// ── the display order ───────────────────────────────────────────────────────

proof fn lemma_fraction_order(an: int, ad: int, bn: int, bd: int, cn: int, cd: int)
    requires
        ad > 0,
        bd > 0,
        cd > 0,
        an * bd >= bn * ad,
        bn * cd >= cn * bd,
    ensures
        an * cd >= cn * ad,
        (an * bd > bn * ad || bn * cd > cn * bd) ==> an * cd > cn * ad,
{
    assert(an * bd * cd >= bn * ad * cd) by (nonlinear_arith)
        requires
            an * bd >= bn * ad,
            cd > 0,
    ;
    assert(bn * cd * ad >= cn * bd * ad) by (nonlinear_arith)
        requires
            bn * cd >= cn * bd,
            ad > 0,
    ;
    assert(an * bd > bn * ad ==> an * bd * cd > bn * ad * cd) by (nonlinear_arith)
        requires
            cd > 0,
    ;
    assert(bn * cd > cn * bd ==> bn * cd * ad > cn * bd * ad) by (nonlinear_arith)
        requires
            ad > 0,
    ;
    assert(bn * ad * cd == bn * cd * ad) by (nonlinear_arith);
    assert(an * bd * cd == (an * cd) * bd) by (nonlinear_arith);
    assert(cn * bd * ad == (cn * ad) * bd) by (nonlinear_arith);
    assert((an * cd) * bd >= (cn * ad) * bd ==> an * cd >= cn * ad) by (nonlinear_arith)
        requires
            bd > 0,
    ;
    assert((an * cd) * bd > (cn * ad) * bd ==> an * cd > cn * ad) by (nonlinear_arith)
        requires
            bd > 0,
    ;
}

/// No hit precedes itself.
pub proof fn lemma_precedes_irreflexive(a: RankedHit)
    ensures
        !precedes(a, a),
{
    lemma_seq_lt_irreflexive(a.path@);
}

/// Of two hits, at most one precedes the other.
pub proof fn lemma_precedes_asymmetric(a: RankedHit, b: RankedHit)
    requires
        precedes(a, b),
    ensures
        !precedes(b, a),
{
    if score_eq(a.score, b.score) && seq_lt(a.path@, b.path@) {
        lemma_seq_lt_asymmetric(a.path@, b.path@);
    }
}

/// Precedence is transitive over well-formed scores.
pub proof fn lemma_precedes_transitive(a: RankedHit, b: RankedHit, c: RankedHit)
    requires
        a.score.den > 0,
        b.score.den > 0,
        c.score.den > 0,
        precedes(a, b),
        precedes(b, c),
    ensures
        precedes(a, c),
{
    let (an, ad, bn, bd, cn, cd) = (
        a.score.num as int,
        a.score.den as int,
        b.score.num as int,
        b.score.den as int,
        c.score.num as int,
        c.score.den as int,
    );
    lemma_fraction_order(an, ad, bn, bd, cn, cd);
    if score_eq(a.score, b.score) && score_eq(b.score, c.score) {
        lemma_seq_lt_transitive(a.path@, b.path@, c.path@);
    }
}

/// Two hits with well-formed scores and different paths are ordered one way or the other.
pub proof fn lemma_precedes_total(a: RankedHit, b: RankedHit)
    requires
        a.path@ != b.path@,
    ensures
        precedes(a, b) || precedes(b, a),
{
    lemma_seq_lt_total(a.path@, b.path@);
}

proof fn lemma_insert_pos_bounds(t: Seq<RankedHit>, x: RankedHit, i: int)
    requires
        0 <= i <= t.len(),
    ensures
        i <= insert_pos(t, x, i) <= t.len(),
        forall|k: int| i <= k < insert_pos(t, x, i) ==> !precedes(x, #[trigger] t[k]),
        insert_pos(t, x, i) < t.len() ==> precedes(x, t[insert_pos(t, x, i)]),
    decreases t.len() - i,
{
    if i < t.len() && !precedes(x, t[i]) {
        lemma_insert_pos_bounds(t, x, i + 1);
    }
}

/// Sorting for display yields the same hits, in an order where no hit comes after one
/// that it precedes.
pub proof fn lemma_sort_hits_sorted(s: Seq<RankedHit>)
    requires
        scores_valid(s),
    ensures
        hits_sorted(sort_hits(s)),
        scores_valid(sort_hits(s)),
        sort_hits(s).to_multiset() == s.to_multiset(),
    decreases s.len(),
{
    if s.len() == 0 {
        assert(sort_hits(s) =~= s);
    } else {
        let d = s.drop_last();
        let x = s.last();
        assert(scores_valid(d)) by {
            assert forall|i: int| 0 <= i < d.len() implies (#[trigger] d[i]).score.den > 0 by {
                assert(d[i] == s[i]);
            }
        }
        lemma_sort_hits_sorted(d);
        let t = sort_hits(d);
        lemma_sort_len(d);
        lemma_insert_pos_bounds(t, x, 0);
        let p = insert_pos(t, x, 0);
        let u = t.insert(p, x);
        assert(sort_hits(s) == u);
        assert forall|i: int| 0 <= i < u.len() implies (#[trigger] u[i]).score.den > 0 by {
            if i < p {
                assert(u[i] == t[i]);
            } else if i > p {
                assert(u[i] == t[i - 1]);
            }
        }
        assert forall|i: int, j: int| 0 <= i < j < u.len() implies !precedes(
            #[trigger] u[j],
            #[trigger] u[i],
        ) by {
            if j < p {
                assert(u[i] == t[i] && u[j] == t[j]);
            } else if j == p {
                assert(u[i] == t[i]);
            } else if i == p {
                assert(u[j] == t[j - 1]);
                if j - 1 == p {
                    lemma_precedes_asymmetric(x, t[p]);
                } else if precedes(t[j - 1], x) {
                    lemma_precedes_transitive(t[j - 1], x, t[p]);
                    assert(!precedes(t[j - 1], t[p]));
                }
            } else if i < p {
                assert(u[i] == t[i] && u[j] == t[j - 1]);
            } else {
                assert(u[i] == t[i - 1] && u[j] == t[j - 1]);
            }
        }
        to_multiset_insert(t, p, x);
        assert(s =~= d.push(x));
        to_multiset_build(d, x);
    }
}

// ── fused scores ────────────────────────────────────────────────────────────

/// `x > y` for fractions given as (numerator, denominator).
pub open spec fn frac_gt(x: (int, int), y: (int, int)) -> bool {
    x.0 * y.1 > y.0 * x.1
}

/// A file found by both passes outscores a file found by only one of them at the same
/// rank; the fused score does not depend on which pass gave which rank; and a better
/// (smaller) rank in one pass gives a higher score.
pub proof fn lemma_rrf_order(a: nat, b: nat, c: nat)
    ensures
        frac_gt(rrf(Some(a as int), Some(b as int)), rrf(Some(a as int), None)),
        frac_gt(rrf(Some(a as int), Some(b as int)), rrf(None, Some(b as int))),
        rrf(Some(a as int), Some(b as int)) == rrf(Some(b as int), Some(a as int)),
        a < c ==> frac_gt(rrf(Some(a as int), None), rrf(Some(c as int), None)),
        a < c ==> frac_gt(rrf(None, Some(a as int)), rrf(None, Some(c as int))),
{
    let x: int = 60 + a as int;
    let y: int = 60 + b as int;
    assert((x + y) * x > 1 * (x * y)) by (nonlinear_arith)
        requires
            x > 0,
            y > 0,
    ;
    assert((x + y) * y > 1 * (x * y)) by (nonlinear_arith)
        requires
            x > 0,
            y > 0,
    ;
    assert(x * y == y * x) by (nonlinear_arith);
    assert(rrf(Some(a as int), None) == (1int, x));
    assert(rrf(Some(c as int), None) == (1int, 60 + c as int));
    assert(rrf(None, Some(a as int)) == (1int, x));
    assert(rrf(None, Some(c as int)) == (1int, 60 + c as int));
    assert(1 * (60 + c) == 60 + c && 1 * x == x) by (nonlinear_arith);
}

proof fn lemma_page_start_nonneg(t: Seq<RankedHit>, p: SearchParams)
    ensures
        page_start(t, p) >= 0,
{
    if p.cursor@.len() > 0 {
        if let Some((n, d, path)) = crate::search::cursor_decodes(p.cursor@) {
            lemma_cursor_start_bounds(t, n, d, path, 0);
        }
    }
}

// ── pages ───────────────────────────────────────────────────────────────────

proof fn lemma_cursor_start_bounds(t: Seq<RankedHit>, num: int, den: int, path: Seq<char>, i: int)
    requires
        0 <= i <= t.len(),
    ensures
        i <= cursor_start(t, num, den, path, i) <= t.len(),
        forall|k: int|
            i <= k < cursor_start(t, num, den, path, i) ==> !after_cursor(
                #[trigger] t[k],
                num,
                den,
                path,
            ),
        cursor_start(t, num, den, path, i) < t.len() ==> after_cursor(
            t[cursor_start(t, num, den, path, i)],
            num,
            den,
            path,
        ),
    decreases t.len() - i,
{
    if i < t.len() && !after_cursor(t[i], num, den, path) {
        lemma_cursor_start_bounds(t, num, den, path, i + 1);
    }
}

/// Asking for the next page with the cursor a page returned continues right after that
/// page's last hit, when the results are in display order and no two share a path.
pub proof fn lemma_next_cursor_continues(
    t: Seq<RankedHit>,
    p: SearchParams,
    r: SearchPage,
    q: SearchParams,
)
    requires
        scores_valid(t),
        hits_sorted(t),
        paths_distinct(t),
        page_of(t, p, r),
        r.next_cursor is Some,
        q.cursor@ == r.next_cursor->0@,
    ensures
        page_start(t, q) == page_start(t, p) + r.hits.len(),
{
    let start = page_start(t, p);
    lemma_page_start_nonneg(t, p);
    let s = if start < t.len() {
        start
    } else {
        t.len() as int
    };
    let lim = crate::search::clamp_limit(p.limit);
    let e2 = if s + lim < t.len() {
        s + lim
    } else {
        t.len() as int
    };
    assert(r.hits@ == t.subrange(s, e2));
    assert(r.hits@.len() == e2 - s);
    let e = s + r.hits.len();
    assert(e == e2);
    assert(start < t.len());
    assert(s == start);
    assert(e < t.len());
    assert(e >= s + 1);
    let last = t[e - 1];
    let (n, d, path) = (last.score.num as int, last.score.den as int, last.path@);
    lemma_cursor_start_bounds(t, n, d, path, 0);
    let k = cursor_start(t, n, d, path, 0);
    assert(page_start(t, q) == k);
    assert(forall|h: RankedHit| #[trigger] after_cursor(h, n, d, path) == precedes(last, h));
    if k < e {
        if k < e - 1 {
            assert(!precedes(t[e - 1], t[k]));
        } else {
            lemma_precedes_irreflexive(last);
        }
    } else if k > e {
        assert(!after_cursor(t[e], n, d, path));
        assert(!precedes(t[e], t[e - 1]));
        lemma_precedes_total(t[e - 1], t[e]);
    }
}

// ── pages are in display order ──────────────────────────────────────────────

proof fn lemma_file_score_den_positive(cands: Seq<Candidate>, id: i64)
    ensures
        score_of_file(cands, id).1 > 0,
{
    if exists|k: int| 0 <= k < cands.len() && cands[k].file_id == id {
        let k = choose|k: int| 0 <= k < cands.len() && cands[k].file_id == id;
        let (a, b) = (opt_int(cands[k].fts_rank), opt_int(cands[k].vec_rank));
        if let (Some(x), Some(y)) = (a, b) {
            assert((60 + x) * (60 + y) > 0) by (nonlinear_arith)
                requires
                    x >= 0,
                    y >= 0,
            ;
        }
    }
}

proof fn lemma_scoped_valid(hits: Seq<RankedHit>, roots: Seq<ActiveRoot>, scopes: Seq<Seq<char>>)
    requires
        scores_valid(hits),
    ensures
        scores_valid(scoped(hits, roots, scopes)),
    decreases hits.len(),
{
    if hits.len() > 0 {
        let d = hits.drop_last();
        assert(scores_valid(d)) by {
            assert forall|i: int| 0 <= i < d.len() implies (#[trigger] d[i]).score.den > 0 by {
                assert(d[i] == hits[i]);
            }
        }
        lemma_scoped_valid(d, roots, scopes);
        let t = scoped(d, roots, scopes);
        assert(scores_valid(t.push(hits.last()))) by {
            assert forall|i: int| 0 <= i < t.len() + 1 implies (#[trigger] t.push(hits.last())[i]).score.den
                > 0 by {
                if i < t.len() {
                    assert(t.push(hits.last())[i] == t[i]);
                }
            }
        }
    }
}

/// Every page of results lists its hits in display order: by fused score, highest first,
/// then by path.
pub proof fn lemma_page_in_display_order(
    f: Seq<RankedHit>,
    p: SearchParams,
    rows: Seq<FileRow>,
    cands: Seq<Candidate>,
    roots: Seq<ActiveRoot>,
    r: SearchPage,
)
    requires
        hits_of_rows(f, p, rows, cands),
        page_of(sort_hits(in_scope(f, p, roots)), p, r),
    ensures
        hits_sorted(r.hits@),
{
    assert(scores_valid(f)) by {
        assert forall|i: int| 0 <= i < f.len() implies (#[trigger] f[i]).score.den > 0 by {
            lemma_file_score_den_positive(cands, passing(p, rows)[i].file_id);
        }
    }
    let g = in_scope(f, p, roots);
    if p.root_scope.len() > 0 {
        lemma_scoped_valid(f, roots, crate::search::scopes_lower(p.root_scope@));
    }
    lemma_sort_hits_sorted(g);
    let t = sort_hits(g);
    let start = page_start(t, p);
    lemma_page_start_nonneg(t, p);
    let s = if start < t.len() {
        start
    } else {
        t.len() as int
    };
    let lim = crate::search::clamp_limit(p.limit);
    let e = if s + lim < t.len() {
        s + lim
    } else {
        t.len() as int
    };
    assert(r.hits@ == t.subrange(s, e));
    assert forall|i: int, j: int| 0 <= i < j < r.hits@.len() implies !precedes(
        #[trigger] r.hits@[j],
        #[trigger] r.hits@[i],
    ) by {
        assert(r.hits@[i] == t[s + i] && r.hits@[j] == t[s + j]);
    }
}


// ── where results come from ─────────────────────────────────────────────────

/// No two rows share a file id.
pub open spec fn row_ids_distinct(rows: Seq<FileRow>) -> bool {
    forall|i: int, j: int|
        0 <= i < j < rows.len() ==> (#[trigger] rows[i]).file_id != (#[trigger] rows[j]).file_id
}

/// No two hits share a file id.
pub open spec fn hit_ids_distinct(hits: Seq<RankedHit>) -> bool {
    forall|i: int, j: int|
        0 <= i < j < hits.len() ==> (#[trigger] hits[i]).file_id != (#[trigger] hits[j]).file_id
}

proof fn lemma_passing_rows(p: SearchParams, rows: Seq<FileRow>)
    ensures
        forall|k: int|
            0 <= k < passing(p, rows).len() ==> row_passes(p, #[trigger] passing(p, rows)[k])
                && rows.contains(passing(p, rows)[k]),
        row_ids_distinct(rows) ==> row_ids_distinct(passing(p, rows)),
    decreases rows.len(),
{
    if rows.len() > 0 {
        let d = rows.drop_last();
        let x = rows.last();
        lemma_passing_rows(p, d);
        let q = passing(p, d);
        let u = passing(p, rows);
        assert forall|k: int| 0 <= k < u.len() implies row_passes(p, #[trigger] u[k]) && rows.contains(
            u[k],
        ) by {
            if k < q.len() {
                assert(u[k] == q[k]);
                let j = choose|j: int| 0 <= j < d.len() && d[j] == q[k];
                assert(rows[j] == d[j]);
            } else {
                assert(u[k] == x);
                assert(rows[rows.len() - 1] == x);
            }
        }
        if row_ids_distinct(rows) {
            assert(row_ids_distinct(d)) by {
                assert forall|i: int, j: int| 0 <= i < j < d.len() implies (#[trigger] d[i]).file_id
                    != (#[trigger] d[j]).file_id by {
                    assert(d[i] == rows[i] && d[j] == rows[j]);
                }
            }
            assert forall|i: int, j: int| 0 <= i < j < u.len() implies (#[trigger] u[i]).file_id
                != (#[trigger] u[j]).file_id by {
                assert(u[i] == q[i]);
                if j < q.len() {
                    assert(u[j] == q[j]);
                } else {
                    assert(u[j] == x);
                    let m = choose|m: int| 0 <= m < d.len() && d[m] == q[i];
                    assert(rows[m] == q[i] && rows[rows.len() - 1] == x);
                }
            }
        }
    }
}

proof fn lemma_scoped_members(hits: Seq<RankedHit>, roots: Seq<ActiveRoot>, scopes: Seq<Seq<char>>)
    ensures
        forall|k: int|
            0 <= k < scoped(hits, roots, scopes).len() ==> hits.contains(
                #[trigger] scoped(hits, roots, scopes)[k],
            ) && root_in_scope(roots, scopes, scoped(hits, roots, scopes)[k].root_id),
        hit_ids_distinct(hits) ==> hit_ids_distinct(scoped(hits, roots, scopes)),
    decreases hits.len(),
{
    if hits.len() > 0 {
        let d = hits.drop_last();
        let x = hits.last();
        lemma_scoped_members(d, roots, scopes);
        let q = scoped(d, roots, scopes);
        let u = scoped(hits, roots, scopes);
        assert forall|k: int| 0 <= k < u.len() implies hits.contains(#[trigger] u[k]) && root_in_scope(
            roots,
            scopes,
            u[k].root_id,
        ) by {
            if k < q.len() {
                assert(u[k] == q[k]);
                let j = choose|j: int| 0 <= j < d.len() && d[j] == q[k];
                assert(hits[j] == d[j]);
            } else {
                assert(u[k] == x);
                assert(hits[hits.len() - 1] == x);
            }
        }
        if hit_ids_distinct(hits) {
            assert(hit_ids_distinct(d)) by {
                assert forall|i: int, j: int| 0 <= i < j < d.len() implies (#[trigger] d[i]).file_id
                    != (#[trigger] d[j]).file_id by {
                    assert(d[i] == hits[i] && d[j] == hits[j]);
                }
            }
            assert forall|i: int, j: int| 0 <= i < j < u.len() implies (#[trigger] u[i]).file_id
                != (#[trigger] u[j]).file_id by {
                assert(u[i] == q[i]);
                if j < q.len() {
                    assert(u[j] == q[j]);
                } else {
                    assert(u[j] == x);
                    let m = choose|m: int| 0 <= m < d.len() && d[m] == q[i];
                    assert(hits[m] == q[i] && hits[hits.len() - 1] == x);
                }
            }
        }
    }
}

proof fn lemma_sort_members(s: Seq<RankedHit>)
    ensures
        sort_hits(s).len() == s.len(),
        forall|k: int| 0 <= k < sort_hits(s).len() ==> s.contains(#[trigger] sort_hits(s)[k]),
        hit_ids_distinct(s) ==> hit_ids_distinct(sort_hits(s)),
    decreases s.len(),
{
    lemma_sort_len(s);
    if s.len() > 0 {
        let d = s.drop_last();
        let x = s.last();
        lemma_sort_members(d);
        let t = sort_hits(d);
        lemma_insert_pos_bounds(t, x, 0);
        let p = insert_pos(t, x, 0);
        let u = t.insert(p, x);
        assert(sort_hits(s) == u);
        assert forall|k: int| 0 <= k < u.len() implies s.contains(#[trigger] u[k]) by {
            if k == p {
                assert(s[s.len() - 1] == x);
            } else {
                let m = if k < p { k } else { k - 1 };
                assert(u[k] == t[m]);
                let j = choose|j: int| 0 <= j < d.len() && d[j] == t[m];
                assert(s[j] == d[j]);
            }
        }
        if hit_ids_distinct(s) {
            assert(hit_ids_distinct(d)) by {
                assert forall|i: int, j: int| 0 <= i < j < d.len() implies (#[trigger] d[i]).file_id
                    != (#[trigger] d[j]).file_id by {
                    assert(d[i] == s[i] && d[j] == s[j]);
                }
            }
            assert forall|m: int| 0 <= m < t.len() implies (#[trigger] t[m]).file_id != x.file_id by {
                let j = choose|j: int| 0 <= j < d.len() && d[j] == t[m];
                assert(s[j] == t[m] && s[s.len() - 1] == x);
            }
            assert forall|i: int, j: int| 0 <= i < j < u.len() implies (#[trigger] u[i]).file_id
                != (#[trigger] u[j]).file_id by {
                if j < p {
                    assert(u[i] == t[i] && u[j] == t[j]);
                } else if j == p {
                    assert(u[i] == t[i] && u[j] == x);
                } else if i < p {
                    assert(u[i] == t[i] && u[j] == t[j - 1]);
                } else if i == p {
                    assert(u[i] == x && u[j] == t[j - 1]);
                } else {
                    assert(u[i] == t[i - 1] && u[j] == t[j - 1]);
                }
            }
        }
    }
}

proof fn lemma_page_members(t: Seq<RankedHit>, p: SearchParams, r: SearchPage)
    requires
        page_of(t, p, r),
    ensures
        forall|i: int| 0 <= i < r.hits@.len() ==> t.contains(#[trigger] r.hits@[i]),
        hit_ids_distinct(t) ==> hit_ids_distinct(r.hits@),
{
    let start = page_start(t, p);
    lemma_page_start_nonneg(t, p);
    let s = if start < t.len() {
        start
    } else {
        t.len() as int
    };
    let e = if s + clamp_limit(p.limit) < t.len() {
        s + clamp_limit(p.limit)
    } else {
        t.len() as int
    };
    assert(r.hits@ == t.subrange(s, e));
    assert forall|i: int| 0 <= i < r.hits@.len() implies t.contains(#[trigger] r.hits@[i]) by {
        assert(r.hits@[i] == t[s + i]);
    }
    if hit_ids_distinct(t) {
        assert forall|i: int, j: int| 0 <= i < j < r.hits@.len() implies (#[trigger] r.hits@[i]).file_id
            != (#[trigger] r.hits@[j]).file_id by {
            assert(r.hits@[i] == t[s + i] && r.hits@[j] == t[s + j]);
        }
    }
}

/// Every result of a page was built from a candidate row that passes the media type,
/// confidence and date filters; when a root scope is given, its root is an active root
/// in scope.
pub proof fn lemma_results_come_from_passing_rows(
    f: Seq<RankedHit>,
    p: SearchParams,
    rows: Seq<FileRow>,
    cands: Seq<Candidate>,
    roots: Seq<ActiveRoot>,
    r: SearchPage,
)
    requires
        hits_of_rows(f, p, rows, cands),
        page_of(sort_hits(in_scope(f, p, roots)), p, r),
    ensures
        forall|i: int|
            0 <= i < r.hits@.len() ==> exists|k: int|
                0 <= k < rows.len() && row_passes(p, #[trigger] rows[k]) && hit_from(
                    #[trigger] r.hits@[i],
                    rows[k],
                    cands,
                ),
        p.root_scope.len() > 0 ==> forall|i: int|
            0 <= i < r.hits@.len() ==> root_in_scope(
                roots,
                scopes_lower(p.root_scope@),
                (#[trigger] r.hits@[i]).root_id,
            ),
{
    let g = in_scope(f, p, roots);
    let t = sort_hits(g);
    lemma_page_members(t, p, r);
    lemma_sort_members(g);
    lemma_passing_rows(p, rows);
    lemma_scoped_members(f, roots, scopes_lower(p.root_scope@));
    let q = passing(p, rows);
    assert forall|i: int| 0 <= i < r.hits@.len() implies exists|k: int|
        0 <= k < rows.len() && row_passes(p, #[trigger] rows[k]) && hit_from(
            #[trigger] r.hits@[i],
            rows[k],
            cands,
        ) by {
        let y = r.hits@[i];
        let a = choose|a: int| 0 <= a < t.len() && t[a] == y;
        assert(g.contains(t[a]));
        let b = choose|b: int| 0 <= b < g.len() && g[b] == y;
        if p.root_scope.len() > 0 {
            assert(f.contains(g[b]));
        } else {
            assert(f[b] == y);
        }
        let m = choose|m: int| 0 <= m < f.len() && f[m] == y;
        assert(hit_from(f[m], q[m], cands));
        assert(row_passes(p, q[m]) && rows.contains(q[m]));
        let k = choose|k: int| 0 <= k < rows.len() && rows[k] == q[m];
        assert(row_passes(p, rows[k]));
    }
    if p.root_scope.len() > 0 {
        assert forall|i: int| 0 <= i < r.hits@.len() implies root_in_scope(
            roots,
            scopes_lower(p.root_scope@),
            (#[trigger] r.hits@[i]).root_id,
        ) by {
            let y = r.hits@[i];
            let a = choose|a: int| 0 <= a < t.len() && t[a] == y;
            assert(g.contains(t[a]));
            let b = choose|b: int| 0 <= b < g.len() && g[b] == y;
            assert(root_in_scope(roots, scopes_lower(p.root_scope@), g[b].root_id));
        }
    }
}

/// When no two candidate rows share a file id, no two results of a page do.
pub proof fn lemma_results_distinct_files(
    f: Seq<RankedHit>,
    p: SearchParams,
    rows: Seq<FileRow>,
    cands: Seq<Candidate>,
    roots: Seq<ActiveRoot>,
    r: SearchPage,
)
    requires
        hits_of_rows(f, p, rows, cands),
        page_of(sort_hits(in_scope(f, p, roots)), p, r),
        row_ids_distinct(rows),
    ensures
        hit_ids_distinct(r.hits@),
{
    let q = passing(p, rows);
    lemma_passing_rows(p, rows);
    assert(hit_ids_distinct(f)) by {
        assert forall|i: int, j: int| 0 <= i < j < f.len() implies (#[trigger] f[i]).file_id
            != (#[trigger] f[j]).file_id by {
            assert(hit_from(f[i], q[i], cands) && hit_from(f[j], q[j], cands));
        }
    }
    let g = in_scope(f, p, roots);
    lemma_scoped_members(f, roots, scopes_lower(p.root_scope@));
    assert(hit_ids_distinct(g));
    lemma_sort_members(g);
    lemma_page_members(sort_hits(g), p, r);
}

proof fn lemma_score_of_file_fuses_ranks(fts: Seq<i64>, vec_hits: Seq<VecHit>, cands: Seq<Candidate>, id: i64)
    requires
        forall|k: int| 0 <= k < cands.len() ==> candidate_for(fts, vec_hits, #[trigger] cands[k]),
        forall|x: i64|
            (fts.contains(x) || vec_files(vec_hits).contains(x)) <==> exists|k: int|
                0 <= k < cands.len() && #[trigger] cands[k].file_id == x,
    ensures
        score_of_file(cands, id) == rrf(rank_in(fts, id), rank_in(vec_files(vec_hits), id)),
{
    if exists|k: int| 0 <= k < cands.len() && cands[k].file_id == id {
        let k = choose|k: int| 0 <= k < cands.len() && cands[k].file_id == id;
        assert(candidate_for(fts, vec_hits, cands[k]));
    } else {
        assert(!fts.contains(id) && !vec_files(vec_hits).contains(id));
        lemma_dedup(fts);
        lemma_dedup(vec_files(vec_hits));
        lemma_first_index(dedup(fts), id);
        lemma_first_index(dedup(vec_files(vec_hits)), id);
        assert(!dedup(fts).contains(id));
        assert(!dedup(vec_files(vec_hits)).contains(id));
        assert(first_index(dedup(fts), id) == -1);
        assert(first_index(dedup(vec_files(vec_hits)), id) == -1);
    }
}

/// With the candidates that the two passes' rows give (as `blend` returns them), every
/// result's score is the sum, over the passes that found its file, of `1 / (60 + rank)`,
/// the rank being 1-based among the distinct files of that pass.
pub proof fn lemma_result_scores_fuse_ranks(
    fts: Seq<i64>,
    vec_hits: Seq<VecHit>,
    cands: Seq<Candidate>,
    f: Seq<RankedHit>,
    p: SearchParams,
    rows: Seq<FileRow>,
    roots: Seq<ActiveRoot>,
    r: SearchPage,
)
    requires
        forall|k: int| 0 <= k < cands.len() ==> candidate_for(fts, vec_hits, #[trigger] cands[k]),
        forall|x: i64|
            (fts.contains(x) || vec_files(vec_hits).contains(x)) <==> exists|k: int|
                0 <= k < cands.len() && #[trigger] cands[k].file_id == x,
        hits_of_rows(f, p, rows, cands),
        page_of(sort_hits(in_scope(f, p, roots)), p, r),
    ensures
        forall|i: int|
            0 <= i < r.hits@.len() ==> {
                let h = #[trigger] r.hits@[i];
                let fused = rrf(rank_in(fts, h.file_id), rank_in(vec_files(vec_hits), h.file_id));
                h.score.num == fused.0 && h.score.den == fused.1
            },
{
    lemma_results_come_from_passing_rows(f, p, rows, cands, roots, r);
    assert forall|i: int| 0 <= i < r.hits@.len() implies {
        let h = #[trigger] r.hits@[i];
        let fused = rrf(rank_in(fts, h.file_id), rank_in(vec_files(vec_hits), h.file_id));
        h.score.num == fused.0 && h.score.den == fused.1
    } by {
        let h = r.hits@[i];
        let k = choose|k: int| 0 <= k < rows.len() && row_passes(p, #[trigger] rows[k]) && hit_from(h, rows[k], cands);
        lemma_score_of_file_fuses_ranks(fts, vec_hits, cands, rows[k].file_id);
    }
}

// ── date filters ────────────────────────────────────────────────────────────

/// Date bounds cover whole days: a `date_from` of day `s` starts at its midnight and a
/// `date_to` of day `s` ends at its last second, so with both set to one day a row passes
/// the date filters exactly when it was modified during that day.
pub proof fn lemma_date_bounds_cover_the_day(s: Seq<char>, t: int, p: SearchParams, row: FileRow)
    requires
        date_unix(s) == Some(t),
    ensures
        from_bound_ns(s) == Some(t * 1_000_000_000),
        to_bound_ns(s) == Some((t + 86399) * 1_000_000_000),
        (p.date_from matches Some(f) && f@ == s) && (p.date_to matches Some(u) && u@ == s)
            && p.media_types.len() == 0 && row.meets_min_confidence ==> (row_passes(p, row)
            <==> t * 1_000_000_000 <= row.mtime_ns <= (t + 86399) * 1_000_000_000),
        p.date_from is None && (p.date_to matches Some(u) && u@ == s) && p.media_types.len() == 0
            && row.meets_min_confidence ==> (row_passes(p, row) <==> row.mtime_ns <= (t + 86399)
            * 1_000_000_000),
{
}

// ── root scope ──────────────────────────────────────────────────────────────

/// A hit survives the root scope exactly when it is one of the hits and its root is an
/// active root with some non-empty `/`-separated path component that lowercases to one
/// of the scope tokens (any component, not only the last).
pub proof fn lemma_scope_matches_any_component(
    hits: Seq<RankedHit>,
    roots: Seq<ActiveRoot>,
    scopes: Seq<Seq<char>>,
    h: RankedHit,
)
    ensures
        scoped(hits, roots, scopes).contains(h) <==> hits.contains(h) && exists|k: int, i: int, j: int|
            0 <= k < roots.len() && roots[k].id == h.root_id && 0 <= i < split_seq(roots[k].path@, '/').len()
                && split_seq(roots[k].path@, '/')[i].len() > 0 && 0 <= j < scopes.len() && lowercase(
                #[trigger] split_seq(roots[k].path@, '/')[i],
            ) == #[trigger] scopes[j],
    decreases hits.len(),
{
    if hits.len() > 0 {
        let d = hits.drop_last();
        let x = hits.last();
        lemma_scope_matches_any_component(d, roots, scopes, h);
        let q = scoped(d, roots, scopes);
        if root_in_scope(roots, scopes, x.root_id) {
            assert(scoped(hits, roots, scopes) == q.push(x));
        }
        if hits.contains(h) {
            let m = choose|m: int| 0 <= m < hits.len() && hits[m] == h;
            if m < d.len() {
                assert(d[m] == h);
            }
        }
        if d.contains(h) {
            let m = choose|m: int| 0 <= m < d.len() && d[m] == h;
            assert(hits[m] == h);
        }
        if h == x {
            assert(hits[hits.len() - 1] == h);
        }
        if scoped(hits, roots, scopes).contains(h) && !q.contains(h) {
            assert(root_in_scope(roots, scopes, x.root_id));
            let m = choose|m: int| 0 <= m < q.len() + 1 && q.push(x)[m] == h;
            assert(h == x);
        }
        if q.contains(h) && root_in_scope(roots, scopes, x.root_id) {
            let m = choose|m: int| 0 <= m < q.len() && q[m] == h;
            assert(q.push(x)[m] == h);
        }
        if h == x && root_in_scope(roots, scopes, x.root_id) {
            assert(q.push(x)[q.len() as int] == h);
        }
    }
}

} // verus!
