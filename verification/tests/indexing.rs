use std::sync::{Arc, Mutex};

use whatthefile::eval_args::parse_eval_args;
use whatthefile::model::{
    migrations_for, root_action, root_label, AppError, JobCounts, Migration, Root, RootAction,
    RootPayload,
};
use whatthefile::platform::{app_data_dir, pdfium_dir, tessdata_dir, HostOs};
use whatthefile::extract::{Confidence, ExtractedText};
use whatthefile::progress::{
    complete_slot, new_store, put_snapshot, Phase, ProgressReporter, ProgressSink,
    ProgressSnapshot, StoreSink, DEFAULT_THROTTLE_MS,
};
use whatthefile::scan::{
    check_cancel, chunk_vectors, classify_entry, extraction_step, detect_media_type, final_phase, fingerprint,
    fingerprint_action, is_cancelled_error, is_unchanged, relative_path, repo_check_dirs,
    repo_marker_names, should_descend, within_size_limit, EntryDecision, FingerprintAction,
    MAX_FILE_SIZE_BYTES,
};

/// Sink that keeps every snapshot.
#[derive(Clone, Default)]
struct CaptureSink(Arc<Mutex<Vec<ProgressSnapshot>>>);

impl ProgressSink for CaptureSink {
    fn write(&self, snapshot: ProgressSnapshot) {
        self.0.lock().unwrap().push(snapshot);
    }
    fn mark_complete(&self) {
        if let Some(last) = self.0.lock().unwrap().last_mut() {
            last.is_complete = true;
        }
    }
}

fn counts(total: i64, done: i64) -> JobCounts {
    let mut c = JobCounts::default();
    c.files_total = total;
    c.files_done = done;
    c
}

// ── progress ─────────────────────────────────────────────────────────────────

#[test]
fn snapshots_carry_increasing_sequence_numbers_and_counts() {
    let sink = CaptureSink::default();
    let mut r = ProgressReporter::without_throttle(sink.clone(), 7, 3);
    r.force(Phase::Discovering, &counts(0, 0));
    r.tick(Phase::Discovering, &counts(2, 1), Some("a.txt"));
    r.set_extraction_total(4);
    r.advance_extraction();
    r.tick(Phase::Extracting, &counts(2, 2), Some("b.txt"));
    let snaps = sink.0.lock().unwrap().clone();
    assert_eq!(snaps.len(), 3);
    let seqs: Vec<u64> = snaps.iter().map(|s| s.seq).collect();
    assert_eq!(seqs, vec![1, 2, 3]);
    assert_eq!(snaps[1].current_file.as_deref(), Some("a.txt"));
    assert_eq!(snaps[1].files_total, 2);
    assert_eq!(snaps[2].phase, Phase::Extracting);
    assert_eq!((snaps[2].extraction_total, snaps[2].extraction_done), (4, 1));
    assert!(snaps.iter().all(|s| s.job_id == 7 && s.root_id == 3 && !s.is_complete));
    assert!(snaps[0].current_file.is_none());
}

#[test]
fn throttled_ticks_write_first_then_wait() {
    let sink = CaptureSink::default();
    let mut r = ProgressReporter::new(sink.clone(), 1, 1);
    assert!(r.tick_after(None, Phase::Discovering, &counts(1, 0), None));
    assert!(!r.tick_after(Some(10), Phase::Discovering, &counts(2, 0), None));
    assert!(r.tick_after(Some(DEFAULT_THROTTLE_MS as u128), Phase::Fingerprinting, &counts(3, 0), None));
    let snaps = sink.0.lock().unwrap().clone();
    assert_eq!(snaps.len(), 2);
    assert_eq!(snaps[1].files_total, 3);
    assert_eq!(snaps[1].seq, 2);
}

#[test]
fn first_tick_after_new_writes_at_once() {
    let sink = CaptureSink::default();
    let mut r = ProgressReporter::new(sink.clone(), 5, 6);
    r.tick(Phase::Discovering, &counts(1, 0), Some("a.txt"));
    let snaps = sink.0.lock().unwrap().clone();
    assert_eq!(snaps.len(), 1);
    assert_eq!(snaps[0].seq, 1);
    assert_eq!((snaps[0].job_id, snaps[0].root_id), (5, 6));
    assert_eq!(snaps[0].current_file.as_deref(), Some("a.txt"));
    assert!(!snaps[0].is_complete);
}

#[test]
fn finishing_marks_the_last_snapshot_complete() {
    let sink = CaptureSink::default();
    let mut r = ProgressReporter::without_throttle(sink.clone(), 1, 1);
    r.force(Phase::Extracting, &counts(5, 5));
    r.set_job_id(9);
    assert_eq!(r.job_id(), 9);
    r.finish_with_last();
    let snaps = sink.0.lock().unwrap().clone();
    assert_eq!(snaps.len(), 1);
    assert!(snaps[0].is_complete);
    assert_eq!(snaps[0].files_done, 5);
}

#[test]
fn store_sink_keeps_the_latest_snapshot() {
    let store = new_store();
    let mut r = ProgressReporter::without_throttle(StoreSink(store.clone()), 2, 4);
    r.finish_with_last();
    assert!(store.lock().unwrap().is_none());
    r.force(Phase::Discovering, &counts(1, 0));
    r.force(Phase::Fingerprinting, &counts(1, 1));
    r.finish_with_last();
    let latest = store.lock().unwrap().clone().unwrap();
    assert_eq!(latest.seq, 2);
    assert_eq!(latest.phase, Phase::Fingerprinting);
    assert!(latest.is_complete);
}

#[test]
fn completing_the_store_keeps_the_last_snapshot() {
    let store = new_store();
    assert_eq!(Arc::strong_count(&store), 1);
    assert!(store.lock().unwrap().is_none());
    let mut slot: Option<ProgressSnapshot> = None;
    complete_slot(&mut slot);
    assert!(slot.is_none());
    let sink = CaptureSink::default();
    let mut r = ProgressReporter::without_throttle(sink.clone(), 8, 9);
    r.tick(Phase::Extracting, &counts(3, 2), Some("x.pdf"));
    let snap = sink.0.lock().unwrap()[0].clone();
    put_snapshot(&mut slot, snap);
    complete_slot(&mut slot);
    let s = slot.unwrap();
    assert!(s.is_complete);
    assert_eq!((s.seq, s.job_id, s.root_id, s.files_total, s.files_done), (1, 8, 9, 3, 2));
    assert_eq!(s.phase, Phase::Extracting);
    assert_eq!(s.current_file.as_deref(), Some("x.pdf"));
}

#[test]
fn extraction_progress_counts_the_advances() {
    let sink = CaptureSink::default();
    let mut r = ProgressReporter::without_throttle(sink.clone(), 1, 1);
    r.set_extraction_total(3);
    r.advance_extraction();
    r.force(Phase::Extracting, &counts(0, 0));
    r.advance_extraction();
    r.tick(Phase::Extracting, &counts(0, 0), Some("b"));
    let snaps = sink.0.lock().unwrap().clone();
    assert_eq!((snaps[0].extraction_total, snaps[0].extraction_done), (3, 1));
    assert_eq!((snaps[1].extraction_total, snaps[1].extraction_done), (3, 2));
    assert_eq!(r.extraction_done(), 2);
    assert_eq!(r.seq(), 2);
}

fn extracted(text: &str, num: u64, den: u64) -> ExtractedText {
    ExtractedText { text: text.to_string(), lang_hint: "unknown".to_string(), confidence: Confidence { num, den } }
}

#[test]
fn extraction_outcome_decides_errors_and_confidence() {
    let mut c = counts(4, 1);
    assert!(extraction_step(&extracted("", 1, 1), true, &mut c).is_none());
    assert_eq!(c.error_count, 1);
    let standalone = extraction_step(&extracted("text", 3, 4), false, &mut c).unwrap();
    assert_eq!((standalone.num, standalone.den), (3, 4));
    let in_repo = extraction_step(&extracted("readme", 1, 1), true, &mut c).unwrap();
    assert_eq!((in_repo.num, in_repo.den), (1, 2));
    assert_eq!(c.error_count, 1);
    assert_eq!((c.files_total, c.files_done), (4, 1));
}

#[test]
fn chunks_without_embeddings_are_stored_without_vectors() {
    assert_eq!(chunk_vectors(None, 2), vec![None, None]);
    let got = chunk_vectors(Some(vec![vec![1u8, 2], vec![3u8]]), 3);
    assert_eq!(got, vec![Some(vec![1u8, 2]), Some(vec![3u8]), None]);
    assert!(chunk_vectors(Some(vec![vec![1u8]]), 0).is_empty());
}

// ── discovery and fingerprinting ─────────────────────────────────────────────

#[test]
fn media_types_by_extension() {
    assert_eq!(detect_media_type("Report.PDF"), Some("pdf"));
    assert_eq!(detect_media_type("sheet.xlsm"), Some("xlsx"));
    assert_eq!(detect_media_type("report.xls"), Some("xlsx"));
    assert_eq!(detect_media_type("photo.jpeg"), Some("jpg"));
    assert_eq!(detect_media_type("scan.webp"), Some("webp"));
    assert_eq!(detect_media_type("notes.md"), Some("md"));
    assert_eq!(detect_media_type("archive.zip"), None);
    assert_eq!(detect_media_type("Makefile"), None);
}

#[test]
fn walk_skips_hidden_entries_and_junk_directories() {
    assert!(should_descend(0, Some(".hidden-root"), true));
    assert!(!should_descend(1, Some(".git"), true));
    assert!(!should_descend(2, Some("node_modules"), true));
    assert!(should_descend(2, Some("node_modules"), false));
    assert!(!should_descend(1, Some(".env"), false));
    assert!(should_descend(1, Some("src"), true));
    assert!(should_descend(1, None, true));
}

#[test]
fn entries_are_classified() {
    assert!(matches!(classify_entry(true, Some("a.txt")), EntryDecision::Index { media_type: "txt" }));
    assert!(matches!(classify_entry(true, Some(".secret.txt")), EntryDecision::Skip));
    assert!(matches!(classify_entry(false, Some("dir.txt")), EntryDecision::Skip));
    assert!(matches!(classify_entry(true, None), EntryDecision::Skip));
    assert!(matches!(classify_entry(true, Some("tool.exe")), EntryDecision::Skip));
}

#[test]
fn size_limit_and_unchanged_files() {
    assert_eq!(MAX_FILE_SIZE_BYTES, 100 * 1024 * 1024);
    assert!(within_size_limit(MAX_FILE_SIZE_BYTES));
    assert!(!within_size_limit(MAX_FILE_SIZE_BYTES + 1));
    assert!(is_unchanged(5, 10, 5, 10));
    assert!(!is_unchanged(5, 10, 6, 10));
    assert!(!is_unchanged(5, 10, 5, 11));
}

#[test]
fn relative_paths_use_forward_slashes() {
    assert_eq!(relative_path("/root/docs/a.txt", "/root"), "docs/a.txt");
    assert_eq!(relative_path("/elsewhere/b.txt", "/root"), "/elsewhere/b.txt");
    assert_eq!(relative_path("/root/x\\y.txt", "/root"), "x/y.txt");
}

#[test]
fn fingerprints_decide_moves_and_stamps() {
    assert_eq!(
        fingerprint(b"hello"),
        "ea8f163db38682925e4491c5e58d4bb3506ef8c14eb78a86e908c5624a67200f"
    );
    assert_eq!(fingerprint(b"hello"), fingerprint(b"hello"));
    assert_ne!(fingerprint(b"hello"), fingerprint(b"hello!"));
    assert!(matches!(fingerprint_action(None, "a.txt"), FingerprintAction::Store));
    assert!(matches!(
        fingerprint_action(Some((4, "old/a.txt")), "new/a.txt"),
        FingerprintAction::Move { file_id: 4 }
    ));
    assert!(matches!(
        fingerprint_action(Some((4, "a.txt")), "a.txt"),
        FingerprintAction::Stamp { file_id: 4 }
    ));
}

#[test]
fn job_counts_record_each_outcome() {
    let mut c = JobCounts::default();
    c.record_discovered();
    c.record_discovered();
    c.record_unchanged();
    c.record_stored(false);
    c.record_stored(true);
    c.record_moved();
    c.record_error();
    assert_eq!(
        (c.files_total, c.files_done, c.files_added, c.files_updated, c.files_moved, c.error_count),
        (2, 4, 1, 1, 1, 1)
    );
    assert_eq!(c.files_deleted, 0);
}

#[test]
fn cancellation_is_recognised() {
    assert!(check_cancel(false).is_ok());
    let e = check_cancel(true).unwrap_err();
    assert!(is_cancelled_error(&e));
    assert_eq!(final_phase(false, &e), "cancelled");
    assert_eq!(final_phase(true, &AppError::Extractor("x".to_string())), "cancelled");
    assert_eq!(final_phase(false, &AppError::Extractor("x".to_string())), "interrupted");
    assert!(!is_cancelled_error(&AppError::Indexer("cancelled early".to_string())));
}

#[test]
fn repository_checks_walk_up_to_the_root() {
    assert_eq!(
        repo_check_dirs("/root/a/b/file.txt", "/root"),
        vec!["/root/a/b", "/root/a"]
    );
    assert!(repo_check_dirs("/root/file.txt", "/root").is_empty());
    assert!(repo_marker_names().contains(&"Cargo.toml".to_string()));
    assert_eq!(repo_marker_names().len(), 12);
}

// ── roots ────────────────────────────────────────────────────────────────────

#[test]
fn roots_are_labelled_by_their_last_component() {
    assert_eq!(root_label("/home/alice/docs").unwrap(), "docs");
    match root_label("/") {
        Err(AppError::Config(m)) => assert_eq!(m, "root path has no valid filename component: /"),
        _ => panic!("a path without a final component has no label"),
    }
    let root = Root {
        id: 3,
        path: "/home/alice/docs".to_string(),
        label: "docs".to_string(),
        active: true,
        created_at: 100,
        last_indexed_at: None,
    };
    let payload = RootPayload::from(root);
    assert_eq!((payload.id, payload.label.as_str(), payload.active), (3, "docs", true));
    assert!(payload.last_indexed_at.is_none());
}

// ── platform and evaluation harness ──────────────────────────────────────────

#[test]
fn tessdata_prefix_wins_over_platform_default() {
    assert_eq!(tessdata_dir(Some("/custom".to_string()), HostOs::MacOs), "/custom");
    assert_eq!(tessdata_dir(None, HostOs::MacOs), "/opt/homebrew/share/tessdata");
    assert_eq!(tessdata_dir(None, HostOs::Windows), r"C:\Program Files\Tesseract-OCR\tessdata");
    assert_eq!(tessdata_dir(None, HostOs::Other), "/usr/share/tessdata");
    assert_eq!(pdfium_dir(None), "./");
    assert_eq!(pdfium_dir(Some("/opt/pdfium".to_string())), "/opt/pdfium");
}

#[test]
fn data_directory_follows_the_platform_convention() {
    let home = Some("/Users/ana".to_string());
    let local = Some(r"C:\Users\ana\AppData\Local".to_string());
    assert_eq!(
        app_data_dir(HostOs::MacOs, home.clone(), None).unwrap(),
        "/Users/ana/Library/Application Support/WhatTheFile"
    );
    assert_eq!(
        app_data_dir(HostOs::Windows, None, local).unwrap(),
        r"C:\Users\ana\AppData\Local\WhatTheFile"
    );
    assert_eq!(
        app_data_dir(HostOs::Other, Some("/home/ana".to_string()), None).unwrap(),
        "/home/ana/.local/share/WhatTheFile"
    );
    match app_data_dir(HostOs::Windows, home, None) {
        Err(AppError::Config(m)) => assert_eq!(m, "application data directory unknown: LOCALAPPDATA is not set"),
        _ => panic!("without LOCALAPPDATA there is no data directory on Windows"),
    }
    assert!(matches!(app_data_dir(HostOs::Other, None, None), Err(AppError::Config(_))));
}

fn args(list: &[&str]) -> Vec<String> {
    list.iter().map(|s| s.to_string()).collect()
}

#[test]
fn eval_arguments_with_defaults() {
    let a = parse_eval_args(&args(&[]), None).unwrap();
    assert!(a.db.is_none());
    assert_eq!(a.corpus, "../test/sample-files");
    assert_eq!(a.queries, "../test/fixtures/eval-queries.json");
    assert_eq!((a.sha.as_str(), a.date.as_str()), ("unknown", "unknown"));
    assert_eq!(a.ollama_url, "http://localhost:11434");
    assert!(!a.skip_index);

    let b = parse_eval_args(
        &args(&["--db", "/tmp/e.sqlite", "--skip-index", "--sha", "abc", "--sha", "def"]),
        Some("http://gpu:11434".to_string()),
    )
    .unwrap();
    assert_eq!(b.db.as_deref(), Some("/tmp/e.sqlite"));
    assert!(b.skip_index);
    assert_eq!(b.sha, "def");
    assert_eq!(b.ollama_url, "http://gpu:11434");
}

#[test]
fn eval_arguments_errors() {
    assert_eq!(parse_eval_args(&args(&["--corpus"]), None).err().unwrap(), "missing value for --corpus");
    assert_eq!(parse_eval_args(&args(&["--verbose"]), None).err().unwrap(), "unknown arg: --verbose");
    assert_eq!(
        parse_eval_args(&args(&["--date", "2024-01-01", "extra"]), None).err().unwrap(),
        "unknown arg: extra"
    );
}

#[test]
fn errors_describe_their_layer() {
    let e = AppError::Config("path is not a directory: /tmp/a.txt".to_string());
    assert_eq!(e.describe(), "config error: path is not a directory: /tmp/a.txt");
    assert!(e.describe().contains("config error"));
    assert_eq!(AppError::Llm("down".to_string()).describe(), "LLM error: down");
    let io = AppError::Io(std::io::Error::new(std::io::ErrorKind::Other, "disk gone"));
    assert_eq!(io.describe(), "I/O error: disk gone");
}

#[test]
fn adding_an_existing_path_reuses_the_root() {
    let mut root = Root {
        id: 5,
        path: "/data/docs".to_string(),
        label: "docs".to_string(),
        active: true,
        created_at: 1,
        last_indexed_at: Some(2),
    };
    assert_eq!(root_action(None), RootAction::Insert);
    assert_eq!(root_action(Some(&root)), RootAction::Existing { id: 5 });
    root.active = false;
    assert_eq!(root_action(Some(&root)), RootAction::Reactivate { id: 5 });
}

#[test]
fn migrations_bring_any_version_to_the_latest() {
    assert_eq!(
        migrations_for(None),
        vec![Migration::CreateSchema, Migration::AddEmbeddings, Migration::AddVectorIndex]
    );
    assert_eq!(migrations_for(Some(1)), vec![Migration::AddEmbeddings, Migration::AddVectorIndex]);
    assert_eq!(migrations_for(Some(2)), vec![Migration::AddVectorIndex]);
    assert!(migrations_for(Some(3)).is_empty());
    assert!(migrations_for(Some(42)).is_empty());
}

#[test]
fn placeholder() {}
