use whatthefile::query::{
    build_prompt, choose_reply_json, find_balanced, lowercase_all, salvage_string_field,
    sanitize_media_types, ReplyJson,
};
use whatthefile::runtime::{
    api_url, embed_model, fallback_vision_model, model_is_listed, primary_vision_model,
    retry_with_fallback, stale_models, wait_step, WaitEvent, WaitStep, EMBED_TIMEOUT_SECS,
    OLLAMA_BASE_URL, VISION_TIMEOUT_SECS,
};
use whatthefile::scan::check_cancel;
use whatthefile::model::AppError;

/// The part of a reply that is read as JSON, or the salvaged query text.
fn reply_fields(text: &str) -> Result<serde_json::Value, String> {
    match choose_reply_json(text) {
        ReplyJson::Whole => Ok(serde_json::from_str(text).unwrap()),
        ReplyJson::Object(s) => Ok(serde_json::from_str(&s).unwrap()),
        ReplyJson::Salvage => Err(salvage_string_field(text, "queryText")),
    }
}

#[test]
fn parse_llm_response_valid_json() {
    let text = r#"{"queryText":"project meeting","mediaTypes":["pdf"],"rootScope":["dropbox"],"dateFrom":"2024-01-01","dateTo":"2024-12-31","minConfidence":0.0}"#;
    assert!(matches!(choose_reply_json(text), ReplyJson::Whole));
    let v = reply_fields(text).unwrap();
    assert_eq!(v["queryText"], "project meeting");
    assert_eq!(v["mediaTypes"].as_array().unwrap().len(), 1);
    assert_eq!(v["mediaTypes"][0], "pdf");
    assert_eq!(v["rootScope"].as_array().unwrap().len(), 1);
    assert_eq!(v["rootScope"][0], "dropbox");
    assert_eq!(v["dateFrom"], "2024-01-01");
}

#[test]
fn parse_llm_response_extracts_from_prose() {
    let text = r#"Here is the extracted intent: {"queryText":"budget report","mediaTypes":["xlsx"],"rootScope":[],"dateFrom":"","dateTo":"","minConfidence":0.0} Hope that helps!"#;
    let v = reply_fields(text).unwrap();
    assert_eq!(v["queryText"], "budget report");
    assert_eq!(v["mediaTypes"].as_array().unwrap().len(), 1);
    assert_eq!(v["mediaTypes"][0], "xlsx");
}

#[test]
fn parse_llm_response_salvages_query_text_on_malformed_json() {
    let text = r#"queryText: "notes from standup""#;
    let salvaged = reply_fields(text).unwrap_err();
    assert_eq!(salvaged, "notes from standup");
}

#[test]
fn sanitize_strips_unknown_media_types() {
    let types = vec!["pdf".to_string(), "pptx".to_string(), "exe".to_string()];
    assert_eq!(sanitize_media_types(&types), vec!["pdf"]);
}

#[test]
fn salvage_reads_a_quoted_field_and_gives_empty_when_absent() {
    let text = r#"{"queryText": "q3 invoices", "mediaTypes": [pdf}"#;
    assert!(matches!(choose_reply_json(text), ReplyJson::Salvage));
    assert_eq!(salvage_string_field(text, "queryText"), "q3 invoices");
    assert_eq!(salvage_string_field("nothing here", "queryText"), "");
}

#[test]
fn balanced_object_is_found_after_prose() {
    let text = "note: {\"a\": {\"b\": 1}} trailing }";
    let (lo, hi) = find_balanced(text).unwrap();
    let chars: Vec<char> = text.chars().collect();
    assert_eq!(chars[lo..hi].iter().collect::<String>(), "{\"a\": {\"b\": 1}}");
    assert!(find_balanced("no braces").is_none());
    assert!(find_balanced("open { only").is_none());
}

#[test]
fn embedded_object_is_found_after_non_ascii_prose() {
    let text = r#"Résultat: {"queryText":"budget","mediaTypes":["pdf"]}"#;
    match choose_reply_json(text) {
        ReplyJson::Object(s) => assert_eq!(s, r#"{"queryText":"budget","mediaTypes":["pdf"]}"#),
        _ => panic!("the embedded object must be found"),
    }
    let v = reply_fields(text).unwrap();
    assert_eq!(v["queryText"], "budget");
    assert_eq!(v["mediaTypes"][0], "pdf");
}

#[test]
fn reply_lists_are_lowercased() {
    let raw = vec!["PDF".to_string(), "Docx".to_string(), "Dropbox".to_string()];
    assert_eq!(lowercase_all(&raw), vec!["pdf", "docx", "dropbox"]);
    assert_eq!(sanitize_media_types(&lowercase_all(&raw)), vec!["pdf", "docx"]);
    assert!(lowercase_all(&vec![]).is_empty());
}

#[test]
fn sanitize_keeps_known_types_in_order_and_is_idempotent() {
    let types: Vec<String> =
        ["jpg", "PDF", "md", "gif", "md"].iter().map(|s| s.to_string()).collect();
    let once = sanitize_media_types(&types);
    assert_eq!(once, vec!["jpg", "md", "md"]);
    assert_eq!(sanitize_media_types(&once), once);
}

#[test]
fn prompt_lists_media_types_and_embeds_the_query() {
    let p = build_prompt("invoices from 2023");
    assert!(p.contains("from this list only: pdf, docx, xlsx, csv, txt, md, png, jpg, jpeg (array"));
    assert!(p.contains("\n\nQuery: invoices from 2023\n\nReturn only the JSON object, no explanation."));
}

// ── runtime ──────────────────────────────────────────────────────────────────

#[test]
fn test_model_list_parsing() {
    let names = vec!["nomic-embed-text-v2-moe:latest".to_string(), "llava:7b".to_string()];
    assert!(model_is_listed(&names, "nomic-embed-text-v2-moe"));
    assert!(!model_is_listed(&names, "qwen2.5vl"));
}

#[test]
fn only_our_models_are_released() {
    let loaded = vec![
        "llama3:8b".to_string(),
        "qwen2.5vl:7b".to_string(),
        "nomic-embed-text-v2-moe:latest".to_string(),
        "llava:13b".to_string(),
    ];
    assert_eq!(stale_models(&loaded), vec!["qwen2.5vl:7b", "nomic-embed-text-v2-moe:latest"]);
    assert!(stale_models(&vec![]).is_empty());
}

#[test]
fn model_names_and_endpoints() {
    assert_eq!(embed_model(), "nomic-embed-text-v2-moe");
    assert_eq!(primary_vision_model(), "qwen2.5vl:7b");
    assert_eq!(fallback_vision_model(), "llava:7b");
    assert_eq!(api_url(OLLAMA_BASE_URL, "/api/tags"), "http://127.0.0.1:11434/api/tags");
    assert_eq!(EMBED_TIMEOUT_SECS, 180);
    assert_eq!(VISION_TIMEOUT_SECS, 180);
}

#[test]
fn fallback_only_when_the_model_is_missing() {
    assert!(retry_with_fallback("ollama request failed (qwen2.5vl:7b): model \"qwen2.5vl:7b\" not found"));
    assert!(!retry_with_fallback("ollama request failed: connection refused"));
    assert!(!retry_with_fallback("not found"));
}

#[test]
fn test_embed_texts_returns_cancelled_when_flag_set() {
    assert!(matches!(wait_step(WaitEvent::CancelRequested, 0, EMBED_TIMEOUT_SECS), WaitStep::Cancel));
    match check_cancel(true) {
        Err(AppError::Indexer(msg)) => assert_eq!(msg, "cancelled"),
        _ => panic!("expected the cancellation error"),
    }
}

#[test]
fn test_run_tesseract_bounded_returns_quickly_on_cancel() {
    // Cancellation is honoured at the first check, before any wait.
    assert!(matches!(wait_step(WaitEvent::CancelRequested, 0, 90), WaitStep::Cancel));
}

#[test]
fn bounded_wait_gives_up_after_the_budget() {
    let mut elapsed = 0u64;
    let mut waits = 0u64;
    loop {
        waits += 1;
        match wait_step(WaitEvent::TimedOut, elapsed, 3) {
            WaitStep::KeepWaiting { elapsed_secs } => elapsed = elapsed_secs,
            WaitStep::GiveUp => break,
            _ => panic!("unexpected step"),
        }
    }
    assert_eq!(waits, 3);
    assert!(matches!(wait_step(WaitEvent::Received, 2, 3), WaitStep::Deliver));
    assert!(matches!(wait_step(WaitEvent::Disconnected, 0, 3), WaitStep::Abandon));
}
