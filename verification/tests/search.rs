use std::collections::HashMap;

use whatthefile::search::{
    blend, date_str_to_unix, decode_cursor, encode_cursor, fts5_escape, rank_results,
    search_passes, ActiveRoot, Candidate, FileRow, Score, SearchParams, VecHit,
};

fn row(file_id: i64, root_id: i64, root_path: &str, rel_path: &str) -> FileRow {
    FileRow {
        file_id,
        root_id,
        root_path: root_path.to_string(),
        rel_path: rel_path.to_string(),
        filename: rel_path.to_string(),
        media_type: "txt".to_string(),
        size_bytes: 1024,
        indexed_at: 1000,
        mtime_ns: 0,
        meets_min_confidence: true,
        best_chunk_text: None,
        extracted_text: format!("text of {rel_path}"),
    }
}

fn params(limit: u32, offset: u32) -> SearchParams {
    SearchParams {
        media_types: vec![],
        root_scope: vec![],
        date_from: None,
        date_to: None,
        limit,
        offset,
        cursor: String::new(),
    }
}

fn five_ranked() -> (Vec<Candidate>, Vec<FileRow>, Vec<ActiveRoot>) {
    let cands = blend(&vec![1, 2, 3, 4, 5], &vec![]);
    let rows = vec![
        row(1, 1, "/r", "a.txt"),
        row(2, 1, "/r", "b.txt"),
        row(3, 1, "/r", "c.txt"),
        row(4, 1, "/r", "d.txt"),
        row(5, 1, "/r", "e.txt"),
    ];
    let roots = vec![ActiveRoot { id: 1, path: "/r".to_string() }];
    (cands, rows, roots)
}

#[test]
fn test_rrf_formula_correctness() {
    let score_at_rank = |r: usize| 1.0_f64 / (60.0 + r as f64);
    let both = score_at_rank(1) + score_at_rank(1);
    assert!((both - 2.0 / 61.0).abs() < 1e-9);
    let fts_only = score_at_rank(1);
    assert!((fts_only - 1.0 / 61.0).abs() < 1e-9);
}

#[test]
fn test_rrf_score_ordering() {
    let mut rrf: HashMap<i64, f64> = HashMap::new();
    rrf.insert(1, 1.0 / 61.0 + 1.0 / 62.0);
    rrf.insert(2, 1.0 / 62.0);
    rrf.insert(3, 1.0 / 63.0);

    let mut ids: Vec<i64> = rrf.keys().copied().collect();
    ids.sort_by(|a, b| rrf[b].partial_cmp(&rrf[a]).unwrap());

    assert_eq!(ids, vec![1, 2, 3]);
}

#[test]
fn test_pagination_offset_and_limit() {
    let all: Vec<i64> = vec![10, 20, 30, 40, 50];
    let total = all.len();
    let limit = 2usize;
    let offset = 2usize;
    let page: Vec<i64> = all.into_iter().skip(offset).take(limit).collect();
    assert_eq!(page, vec![30, 40]);
    assert_eq!(total, 5);
}

#[test]
fn test_date_str_to_unix() {
    assert_eq!(date_str_to_unix("1970-01-01"), Some(0));
    assert_eq!(date_str_to_unix("1970-01-02"), Some(86400));
    let t2024 = date_str_to_unix("2024-01-01").unwrap();
    let t2023 = date_str_to_unix("2023-01-01").unwrap();
    assert!(t2024 > t2023);
    assert_eq!(t2024 - t2023, 365 * 86400);
    assert!(date_str_to_unix("not-a-date").is_none());
}

#[test]
fn months_outside_the_calendar_are_malformed() {
    assert_eq!(date_str_to_unix("2024-13-01"), None);
    assert_eq!(date_str_to_unix("2024-00-10"), None);
    assert_eq!(date_str_to_unix("2024-12-01"), Some(1_733_011_200));
}

#[test]
fn test_fts5_escape_does_not_phrase_wrap() {
    assert_eq!(fts5_escape("hello world"), "hello world");
    assert_eq!(fts5_escape("contract OR agreement"), "contract OR agreement");
}

#[test]
fn test_fts5_escape_doubles_internal_quotes() {
    assert_eq!(fts5_escape(r#"say "hello""#), r#"say ""hello"""#);
}

#[test]
fn test_keyword_mode_skips_vector_pass() {
    let keyword_mode = "keyword";
    let hybrid_mode = "";
    let semantic_mode = "semantic";
    assert!(!(keyword_mode != "keyword"), "keyword mode: run_vec should be false");
    assert!(hybrid_mode != "keyword", "hybrid mode: run_vec should be true");
    assert!(semantic_mode != "keyword", "semantic mode: run_vec should be true");
}

#[test]
fn test_semantic_mode_skips_fts_pass() {
    let keyword_mode = "keyword";
    let hybrid_mode = "";
    let semantic_mode = "semantic";
    assert!(keyword_mode != "semantic", "keyword mode: run_fts should be true");
    assert!(hybrid_mode != "semantic", "hybrid mode: run_fts should be true");
    assert!(!(semantic_mode != "semantic"), "semantic mode: run_fts should be false");
}

fn path_matches_scope(path: &str, scope: &str) -> bool {
    let scope_lower = scope.to_lowercase();
    path.split('/').filter(|c| !c.is_empty()).any(|c| c.to_lowercase() == scope_lower)
}

#[test]
fn test_root_scope_exact_component_matches() {
    assert!(path_matches_scope("/home/documents", "documents"), "exact component match");
    assert!(path_matches_scope("/home/Documents", "documents"), "case-insensitive");
    assert!(!path_matches_scope("/home/documents", "doc"), "prefix must not match");
    assert!(!path_matches_scope("/home/doc_folder", "documents"), "substring must not match");
    assert!(path_matches_scope("/Users/alice/Dropbox", "dropbox"), "multi-level path");
    assert!(!path_matches_scope("/home/adocuments", "doc"), "infix must not match");
}

#[test]
fn test_rrf_fts_only_score_is_less_than_both() {
    let score = |fts: Option<usize>, vec: Option<usize>| -> f64 {
        let mut s = 0.0_f64;
        if let Some(r) = fts {
            s += 1.0 / (60.0 + r as f64);
        }
        if let Some(r) = vec {
            s += 1.0 / (60.0 + r as f64);
        }
        s
    };

    let both_rank1 = score(Some(1), Some(1));
    let fts_only_r1 = score(Some(1), None);
    let vec_only_r1 = score(None, Some(1));
    let both_rank5 = score(Some(5), Some(5));

    assert!(both_rank1 > fts_only_r1, "both > fts-only at same rank");
    assert!(both_rank1 > vec_only_r1, "both > vec-only at same rank");
    assert!(fts_only_r1 == vec_only_r1, "fts-only and vec-only are symmetric");
    assert!(both_rank1 > both_rank5, "rank 1 beats rank 5");
}

#[test]
fn test_rrf_asymmetric_result_sets_order() {
    let mut rrf: HashMap<i64, f64> = HashMap::new();
    rrf.insert(1, 1.0 / (60.0 + 1.0));
    rrf.insert(2, 1.0 / (60.0 + 1.0));
    rrf.insert(3, 1.0 / (60.0 + 2.0) + 1.0 / (60.0 + 2.0));

    let mut ids: Vec<i64> = rrf.keys().copied().collect();
    ids.sort_by(|a, b| rrf[b].partial_cmp(&rrf[a]).unwrap());

    assert_eq!(ids[0], 3, "file in both passes ranks first");
    assert!(ids[1] == 1 || ids[1] == 2);
    assert!(ids[2] == 1 || ids[2] == 2);
    assert_ne!(ids[1], ids[2]);
}

#[test]
fn test_cursor_encode_decode_roundtrip() {
    let score = Score { num: 2, den: 63 };
    let path = "/home/alice/documents/report.pdf";
    let cursor = encode_cursor(score, path);
    let (s2, p2) = decode_cursor(&cursor).expect("cursor must decode");
    assert_eq!((s2.num, s2.den), (score.num, score.den), "score must survive roundtrip");
    assert_eq!(p2, path, "path must survive roundtrip");
}

#[test]
fn test_cursor_decode_returns_none_on_garbage() {
    assert!(decode_cursor("not-valid!!!").is_none());
    assert!(decode_cursor("").is_none());
}

#[test]
fn test_cursor_pagination_returns_next_page() {
    let (cands, rows, roots) = five_ranked();
    let page1 = rank_results(&cands, &rows, &roots, &params(2, 0));
    assert_eq!(page1.hits.len(), 2);
    let cursor = page1.next_cursor.clone().expect("more results remain");

    let mut next = params(2, 0);
    next.cursor = cursor;
    let page2 = rank_results(&cands, &rows, &roots, &next);
    assert_eq!(page2.hits.len(), 2);
    assert_eq!(page2.hits[0].filename, "c.txt");
    assert_eq!(page2.hits[1].filename, "d.txt");
}

// ── own tests ────────────────────────────────────────────────────────────────

#[test]
fn search_modes_select_passes() {
    assert_eq!(search_passes("keyword"), (true, false));
    assert_eq!(search_passes("semantic"), (false, true));
    assert_eq!(search_passes(""), (true, true));
    assert_eq!(search_passes("hybrid"), (true, true));
}

#[test]
fn blend_ranks_by_first_appearance_and_keeps_closest_chunk() {
    let fts = vec![5, 3, 5, 9];
    let hits = vec![
        VecHit { chunk_id: 100, file_id: 3 },
        VecHit { chunk_id: 101, file_id: 7 },
        VecHit { chunk_id: 102, file_id: 3 },
    ];
    let c = blend(&fts, &hits);
    let got: Vec<(i64, Option<u64>, Option<u64>, Option<i64>)> =
        c.iter().map(|c| (c.file_id, c.fts_rank, c.vec_rank, c.best_chunk)).collect();
    assert_eq!(
        got,
        vec![
            (3, Some(2), Some(1), Some(100)),
            (5, Some(1), None, None),
            (7, None, Some(2), Some(101)),
            (9, Some(3), None, None),
        ]
    );
}

#[test]
fn fused_scores_are_exact_fractions() {
    let c = blend(&vec![1, 2], &vec![VecHit { chunk_id: 10, file_id: 2 }]);
    let rows = vec![row(1, 1, "/r", "one.txt"), row(2, 1, "/r", "two.txt")];
    let roots = vec![ActiveRoot { id: 1, path: "/r".to_string() }];
    let page = rank_results(&c, &rows, &roots, &params(10, 0));
    // file 2: fts rank 2 and vector rank 1 → 1/62 + 1/61 = 123/3782; file 1: 1/61.
    assert_eq!(page.hits[0].file_id, 2);
    assert_eq!((page.hits[0].score.num, page.hits[0].score.den), (123, 3782));
    assert_eq!((page.hits[1].score.num, page.hits[1].score.den), (1, 61));
    assert_eq!(page.hits[0].path, "/r/two.txt");
    assert_eq!(page.total, 2);
    assert!(page.next_cursor.is_none());
}

#[test]
fn equal_scores_are_ordered_by_path() {
    let c = blend(&vec![], &vec![]);
    let rows = vec![row(1, 1, "/r", "b.txt"), row(2, 1, "/r", "a.txt")];
    let roots = vec![ActiveRoot { id: 1, path: "/r".to_string() }];
    let page = rank_results(&c, &rows, &roots, &params(10, 0));
    let names: Vec<&str> = page.hits.iter().map(|h| h.filename.as_str()).collect();
    assert_eq!(names, vec!["a.txt", "b.txt"]);
    assert_eq!((page.hits[0].score.num, page.hits[0].score.den), (0, 1));
}

#[test]
fn offset_and_limit_cut_the_page() {
    let (cands, rows, roots) = five_ranked();
    let page = rank_results(&cands, &rows, &roots, &params(2, 2));
    let names: Vec<&str> = page.hits.iter().map(|h| h.filename.as_str()).collect();
    assert_eq!(names, vec!["c.txt", "d.txt"]);
    assert_eq!((page.total, page.limit, page.offset), (5, 2, 2));
    assert!(page.next_cursor.is_some());

    let beyond = rank_results(&cands, &rows, &roots, &params(2, 9));
    assert!(beyond.hits.is_empty());
    assert!(beyond.next_cursor.is_none());

    let clamped = rank_results(&cands, &rows, &roots, &params(0, 0));
    assert_eq!(clamped.limit, 1);
    assert_eq!(clamped.hits.len(), 1);
    assert_eq!(rank_results(&cands, &rows, &roots, &params(500, 0)).limit, 200);
}

#[test]
fn last_page_has_no_cursor_and_garbage_cursor_falls_back_to_offset() {
    let (cands, rows, roots) = five_ranked();
    let mut p = params(2, 0);
    let mut seen: Vec<String> = Vec::new();
    loop {
        let page = rank_results(&cands, &rows, &roots, &p);
        seen.extend(page.hits.iter().map(|h| h.filename.clone()));
        match page.next_cursor {
            Some(c) => p.cursor = c,
            None => break,
        }
    }
    assert_eq!(seen, vec!["a.txt", "b.txt", "c.txt", "d.txt", "e.txt"]);

    let mut bad = params(2, 1);
    bad.cursor = "%%%".to_string();
    let page = rank_results(&cands, &rows, &roots, &bad);
    assert_eq!(page.hits[0].filename, "b.txt");
}

#[test]
fn each_result_scores_its_ranks_in_both_passes() {
    let c = blend(&vec![5, 3, 5], &vec![VecHit { chunk_id: 30, file_id: 3 }, VecHit { chunk_id: 80, file_id: 8 }]);
    let rows = vec![row(3, 1, "/r", "c.txt"), row(5, 1, "/r", "e.txt"), row(8, 1, "/r", "h.txt"), row(9, 1, "/r", "i.txt")];
    let roots = vec![ActiveRoot { id: 1, path: "/r".to_string() }];
    let page = rank_results(&c, &rows, &roots, &params(10, 0));
    let got: Vec<(i64, u64, u64)> = page.hits.iter().map(|h| (h.file_id, h.score.num, h.score.den)).collect();
    // 3: full-text rank 2 and vector rank 1; 5: full-text rank 1; 8: vector rank 2; 9: no pass.
    assert_eq!(got, vec![(3, 123, 3782), (5, 1, 61), (8, 1, 62), (9, 0, 1)]);
    let mut ids: Vec<i64> = page.hits.iter().map(|h| h.file_id).collect();
    ids.dedup();
    assert_eq!(ids.len(), page.hits.len());
}

#[test]
fn filters_apply_media_type_confidence_and_dates() {
    let c = blend(&vec![1, 2, 3, 4], &vec![]);
    let mut pdf = row(1, 1, "/r", "report.pdf");
    pdf.media_type = "pdf".to_string();
    pdf.mtime_ns = 1_704_153_600_000_000_000; // 2024-01-02
    let mut old_pdf = row(2, 1, "/r", "old.pdf");
    old_pdf.media_type = "pdf".to_string();
    old_pdf.mtime_ns = 1_577_836_800_000_000_000; // 2020-01-01
    let mut low = row(3, 1, "/r", "low.pdf");
    low.media_type = "pdf".to_string();
    low.mtime_ns = 1_704_153_600_000_000_000;
    low.meets_min_confidence = false;
    let mut txt = row(4, 1, "/r", "notes.txt");
    txt.mtime_ns = 1_704_153_600_000_000_000;
    let rows = vec![pdf, old_pdf, low, txt];
    let roots = vec![ActiveRoot { id: 1, path: "/r".to_string() }];

    let mut p = params(10, 0);
    p.media_types = vec!["PDF".to_string()];
    p.date_from = Some("2024-01-01".to_string());
    let page = rank_results(&c, &rows, &roots, &p);
    let names: Vec<&str> = page.hits.iter().map(|h| h.filename.as_str()).collect();
    assert_eq!(names, vec!["report.pdf"]);

    let mut q = params(10, 0);
    q.date_to = Some("2020-01-01".to_string());
    let page = rank_results(&c, &rows, &roots, &q);
    let names: Vec<&str> = page.hits.iter().map(|h| h.filename.as_str()).collect();
    assert_eq!(names, vec!["old.pdf"]);
}

#[test]
fn root_scope_keeps_roots_with_a_matching_component() {
    let c = blend(&vec![1, 2, 3], &vec![]);
    let rows = vec![
        row(1, 1, "/home/Documents", "a.txt"),
        row(2, 2, "/home/adocuments", "b.txt"),
        row(3, 3, "/Users/alice/Dropbox", "c.txt"),
    ];
    let roots = vec![
        ActiveRoot { id: 1, path: "/home/Documents".to_string() },
        ActiveRoot { id: 2, path: "/home/adocuments".to_string() },
        ActiveRoot { id: 3, path: "/Users/alice/Dropbox".to_string() },
    ];
    let mut p = params(10, 0);
    p.root_scope = vec!["documents".to_string(), "DROPBOX".to_string()];
    let page = rank_results(&c, &rows, &roots, &p);
    let ids: Vec<i64> = page.hits.iter().map(|h| h.file_id).collect();
    assert_eq!(ids, vec![1, 3]);
}

#[test]
fn snippet_is_the_first_two_hundred_characters() {
    let c = blend(&vec![1, 2], &vec![]);
    let mut long = row(1, 1, "/r", "long.txt");
    long.extracted_text = "é".repeat(250);
    let mut chunked = row(2, 1, "/r", "chunk.txt");
    chunked.best_chunk_text = Some("closest chunk".to_string());
    let roots = vec![ActiveRoot { id: 1, path: "/r".to_string() }];
    let page = rank_results(&c, &vec![long, chunked], &roots, &params(10, 0));
    assert_eq!(page.hits[0].snippet.chars().count(), 200);
    assert_eq!(page.hits[1].snippet, "closest chunk");
}

#[test]
fn dates_follow_the_proleptic_gregorian_calendar() {
    assert_eq!(date_str_to_unix("2000-03-01"), Some(951_868_800));
    assert_eq!(date_str_to_unix("1969-12-31"), Some(-86_400));
    let feb28 = date_str_to_unix("2024-02-28").unwrap();
    let mar01 = date_str_to_unix("2024-03-01").unwrap();
    assert_eq!(mar01 - feb28, 2 * 86_400);
    assert!(date_str_to_unix("2024-01").is_none());
    assert!(date_str_to_unix("2024-01-01-01").is_none());
    assert!(date_str_to_unix("2024-xx-01").is_none());
}

#[test]
fn quotes_are_doubled_everywhere() {
    assert_eq!(fts5_escape("\"\""), "\"\"\"\"");
    assert_eq!(fts5_escape("no quotes"), "no quotes");
}

#[test]
fn cursor_of_a_path_with_separator_survives() {
    let cursor = encode_cursor(Score { num: 123, den: 3782 }, "/a|b/c.txt");
    let (s, p) = decode_cursor(&cursor).unwrap();
    assert_eq!((s.num, s.den), (123, 3782));
    assert_eq!(p, "/a|b/c.txt");
}
