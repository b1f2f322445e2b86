use whatthefile::extract::{
    extract_cells_text, extract_csv_text, extract_image_text, extract_kind, extract_md_text,
    extract_paragraphs_text, extract_scanned_text, extract_text_layer, extract_txt_text,
    plan_ocr, route_file, ExtractKind, OcrPage, OCR_CONFIDENCE_THRESHOLD_PERCENT,
    OCR_PAGE_TIMEOUT_SECS, TESS_LANG,
};
use whatthefile::model::AppError;

fn confidence_of(num: u64, den: u64) -> f64 {
    num as f64 / den as f64
}

// ── OCR constants ────────────────────────────────────────────────────────────

#[test]
fn extractor_test_ocr_confidence_threshold_constant() {
    assert!((OCR_CONFIDENCE_THRESHOLD_PERCENT as f32 / 100.0 - 0.75).abs() < 1e-6);
}

#[test]
fn extractor_test_ocr_lang_constant_contains_eng_and_por() {
    assert!(TESS_LANG.contains("eng"), "must include English");
    assert!(TESS_LANG.contains("por"), "must include Portuguese");
}

#[test]
fn tests_test_ocr_confidence_threshold_constant() {
    assert!((OCR_CONFIDENCE_THRESHOLD_PERCENT as f32 / 100.0 - 0.75).abs() < 1e-6);
}

#[test]
fn tests_test_ocr_lang_constant_contains_eng_and_por() {
    assert!(TESS_LANG.contains("eng"), "must include English");
    assert!(TESS_LANG.contains("por"), "must include Portuguese");
}

#[test]
fn ocr_page_budget_is_ninety_seconds() {
    assert_eq!(OCR_PAGE_TIMEOUT_SECS, 90);
}

// ── TXT ──────────────────────────────────────────────────────────────────────

#[test]
fn extractor_test_extract_txt_returns_content() {
    let result = extract_txt_text("Hello, world!");
    assert_eq!(result.text, "Hello, world!");
    assert!((confidence_of(result.confidence.num, result.confidence.den) - 1.0).abs() < 1e-6);
}

#[test]
fn tests_test_extract_txt_returns_content() {
    let result = extract_txt_text("Hello, world!");
    assert_eq!(result.text, "Hello, world!");
    assert!((confidence_of(result.confidence.num, result.confidence.den) - 1.0).abs() < 1e-6);
}

#[test]
fn extractor_test_extract_txt_trims_whitespace() {
    let result = extract_txt_text("  \n  hello  \n  ");
    assert_eq!(result.text, "hello");
}

#[test]
fn tests_test_extract_txt_trims_whitespace() {
    let result = extract_txt_text("  \n  hello  \n  ");
    assert_eq!(result.text, "hello");
}

// ── MD ───────────────────────────────────────────────────────────────────────

fn md_heading() {
    let result = extract_md_text("# Title\n\nSome text.");
    assert!(result.text.contains("Title"), "heading text should be preserved");
    assert!(!result.text.contains('#'), "# markers should be removed");
}

fn md_bold_italic() {
    let result = extract_md_text("**bold** and *italic* text");
    assert!(result.text.contains("bold"), "bold text preserved");
    assert!(result.text.contains("italic"), "italic text preserved");
    assert!(!result.text.contains('*'), "asterisks should be removed");
}

fn md_inline_code() {
    let result = extract_md_text("Use `code` here");
    assert!(result.text.contains("code"));
    assert!(!result.text.contains('`'));
}

fn md_link() {
    let result = extract_md_text("See [example](https://example.com) for details");
    assert!(result.text.contains("example"), "link text preserved");
    assert!(!result.text.contains("https://"), "URL removed");
}

fn md_blockquote() {
    let result = extract_md_text("> quoted text");
    assert!(result.text.contains("quoted text"));
    assert!(!result.text.contains('>'));
}

#[test]
fn extractor_test_extract_md_strips_heading() {
    md_heading();
}

#[test]
fn tests_test_extract_md_strips_heading() {
    md_heading();
}

#[test]
fn extractor_test_extract_md_strips_bold_and_italic() {
    md_bold_italic();
}

#[test]
fn tests_test_extract_md_strips_bold_and_italic() {
    md_bold_italic();
}

#[test]
fn extractor_test_extract_md_strips_inline_code() {
    md_inline_code();
}

#[test]
fn tests_test_extract_md_strips_inline_code() {
    md_inline_code();
}

#[test]
fn extractor_test_extract_md_strips_link() {
    md_link();
}

#[test]
fn tests_test_extract_md_strips_link() {
    md_link();
}

#[test]
fn extractor_test_extract_md_strips_blockquote() {
    md_blockquote();
}

#[test]
fn tests_test_extract_md_strips_blockquote() {
    md_blockquote();
}

#[test]
fn md_exact_output() {
    let result = extract_md_text("# Title\n\n**bold** and `code` with [a link](http://x.y)\n> quote");
    assert_eq!(result.text, "Title\n\nbold and code with a link\nquote");
    assert_eq!(result.confidence.num, result.confidence.den);
}

// ── CSV ──────────────────────────────────────────────────────────────────────

fn csv_key_value() {
    let result = extract_csv_text("name,age,city\nAlice,30,Berlin\nBob,25,Paris");
    assert!(result.text.contains("name: Alice"), "got: {}", result.text);
    assert!(result.text.contains("age: 30"));
    assert!(result.text.contains("city: Berlin"));
    assert!(result.text.contains("name: Bob"));
}

#[test]
fn extractor_test_extract_csv_formats_as_key_value() {
    csv_key_value();
}

#[test]
fn tests_test_extract_csv_formats_as_key_value() {
    csv_key_value();
}

#[test]
fn extractor_test_extract_csv_empty_file_returns_empty() {
    let result = extract_csv_text("");
    assert!(result.text.is_empty());
}

#[test]
fn tests_test_extract_csv_empty_file_returns_empty() {
    let result = extract_csv_text("");
    assert!(result.text.is_empty());
}

#[test]
fn extractor_test_extract_csv_header_only_returns_empty() {
    let result = extract_csv_text("name,age,city\n");
    assert!(result.text.is_empty());
}

#[test]
fn tests_test_extract_csv_header_only_returns_empty() {
    let result = extract_csv_text("name,age,city\n");
    assert!(result.text.is_empty());
}

#[test]
fn csv_exact_output_skips_empty_values() {
    let result = extract_csv_text("a, b ,c\n1,,3\n,,\n x ,y\n");
    assert_eq!(result.text, "a: 1, c: 3\na: x, b: y");
    assert_eq!(extract_csv_text("").lang_hint, "unknown");
}

// ── routing ──────────────────────────────────────────────────────────────────

fn unsupported_errors() {
    let result = route_file("/tmp/sample.bin");
    assert!(
        matches!(result, Err(AppError::Extractor(_))),
        "expected Extractor error for .bin file"
    );
}

#[test]
fn extractor_test_extract_unsupported_extension_errors() {
    unsupported_errors();
}

#[test]
fn tests_test_extract_unsupported_extension_errors() {
    unsupported_errors();
}

#[test]
fn test_extract_webp_routes_to_image_extractor() {
    let path = "An-example-of-scanned-receipt-from-SROIE-3-dataset.webp";
    match route_file(path) {
        Err(AppError::Extractor(msg)) => {
            assert!(
                !msg.contains("unsupported file type"),
                "webp must be routed to image extractor, not rejected: {msg}"
            );
        }
        _ => {}
    }
    assert!(matches!(route_file(path), Ok(ExtractKind::Image)));
}

#[test]
fn routing_by_extension_ignores_case() {
    assert_eq!(extract_kind("a/B.TXT"), ExtractKind::Txt);
    assert_eq!(extract_kind("notes.Md"), ExtractKind::Md);
    assert_eq!(extract_kind("x.csv"), ExtractKind::Csv);
    assert_eq!(extract_kind("x.xls"), ExtractKind::Xlsx);
    assert_eq!(extract_kind("x.XLSM"), ExtractKind::Xlsx);
    assert_eq!(extract_kind("x.docx"), ExtractKind::Docx);
    assert_eq!(extract_kind("x.pdf"), ExtractKind::Pdf);
    assert_eq!(extract_kind("x.jpeg"), ExtractKind::Image);
    assert_eq!(extract_kind("README"), ExtractKind::Unsupported);
    match route_file("/data/archive.zip") {
        Err(AppError::Extractor(msg)) => assert_eq!(msg, "unsupported file type: /data/archive.zip"),
        _ => panic!("zip must be rejected"),
    }
}

// ── spreadsheets, documents, PDFs, images ────────────────────────────────────

#[test]
fn cells_are_joined_row_by_row() {
    let rows = vec![
        vec![Some("Name".to_string()), None, Some("Total".to_string())],
        vec![Some("Ana".to_string()), Some("3".to_string())],
        vec![],
    ];
    let result = extract_cells_text(&rows);
    assert_eq!(result.text, "Name Total \nAna 3");
    assert_eq!(result.confidence.num, result.confidence.den);
}

#[test]
fn paragraphs_are_joined_by_lines() {
    let paragraphs = vec![
        vec!["Hello, ".to_string(), "world".to_string()],
        vec![],
        vec!["Second".to_string()],
    ];
    let result = extract_paragraphs_text(&paragraphs);
    assert_eq!(result.text, "Hello, world\n\nSecond");
}

#[test]
fn text_layer_skips_blank_pages() {
    let pages = vec!["  page one ".to_string(), "   ".to_string(), "page three".to_string()];
    let result = extract_text_layer(&pages).expect("text layer present");
    assert_eq!(result.text, "page one \npage three");
    assert!(extract_text_layer(&vec!["\n".to_string(), String::new()]).is_none());
}

#[test]
fn ocr_plan_keeps_confident_pages_and_queues_the_rest() {
    let pages = vec![
        OcrPage::Read { text: "first".to_string(), confidence_percent: 90 },
        OcrPage::Read { text: "blurry".to_string(), confidence_percent: 74 },
        OcrPage::Failed,
        OcrPage::Read { text: "   ".to_string(), confidence_percent: 99 },
        OcrPage::Read { text: "last".to_string(), confidence_percent: 75 },
    ];
    let plan = plan_ocr(&pages);
    assert_eq!(plan.texts, vec!["first", "last"]);
    assert_eq!(plan.confidences_percent, vec![90, 75]);
    assert_eq!(plan.low_pages, vec![1, 2, 3]);

    let vision = vec!["a chart".to_string(), " ".to_string()];
    let result = extract_scanned_text(&plan, &vision);
    assert_eq!(result.text, "first\n\nlast\n\na chart");
    // mean of 90% and 75%
    assert_eq!((result.confidence.num, result.confidence.den), (165, 200));
}

#[test]
fn scanned_document_without_ocr_text_uses_vision_confidence() {
    let plan = plan_ocr(&vec![OcrPage::Failed, OcrPage::Failed]);
    assert!(plan.texts.is_empty());
    assert_eq!(plan.low_pages, vec![0, 1]);
    let result = extract_scanned_text(&plan, &vec!["page one".to_string(), "page two".to_string()]);
    assert_eq!(result.text, "page one\n\npage two");
    assert!((confidence_of(result.confidence.num, result.confidence.den) - 0.75).abs() < 1e-9);
}

#[test]
fn image_description_is_kept_as_is() {
    let result = extract_image_text("A receipt from a grocery store".to_string());
    assert_eq!(result.text, "A receipt from a grocery store");
    assert_eq!((result.confidence.num, result.confidence.den), (75, 100));
}

#[test]
fn language_of_english_text_is_detected() {
    let result = extract_txt_text(
        "The quick brown fox jumps over the lazy dog while the farmer watches from the porch.",
    );
    assert_eq!(result.lang_hint, "eng");
    assert_eq!(extract_txt_text("").lang_hint, "unknown");
}

#[test]
fn markdown_without_markers_is_kept_and_never_grows() {
    let plain = "Plain words, nothing to strip!";
    assert_eq!(extract_md_text(plain).text, plain);
    let marked = "**a** [b](http://c.d) `e` ![f](g.png)";
    let out = extract_md_text(marked).text;
    assert_eq!(out, "a b e f");
    assert!(out.chars().count() <= marked.chars().count());
}

#[test]
fn inline_markdown_of_a_line_is_removed() {
    let line: Vec<char> = "**bold** and `code`".chars().collect();
    let out: String = whatthefile::markdown::replace_md_inline(&line).into_iter().collect();
    assert_eq!(out, "bold and code");
    let plain: Vec<char> = "no markers here".chars().collect();
    assert_eq!(whatthefile::markdown::replace_md_inline(&plain), plain);
}

fn text_run(t: &str) -> Option<Vec<Option<String>>> {
    Some(vec![Some(t.to_string())])
}

#[test]
fn docx_text_comes_from_paragraph_runs() {
    let body = vec![
        Some(vec![text_run("Hello, "), None, text_run("world")]),
        None,
        Some(vec![]),
        Some(vec![Some(vec![None, Some("Second".to_string())])]),
    ];
    let result = whatthefile::extract::extract_docx_text(&body);
    assert_eq!(result.text, "Hello, world\n\nSecond");
    assert_eq!(result.confidence.num, result.confidence.den);
}

#[test]
fn docx_without_paragraphs_is_empty_text() {
    let body: Vec<Option<Vec<Option<Vec<Option<String>>>>>> = vec![None, None];
    let result = whatthefile::extract::extract_docx_text(&body);
    assert_eq!(result.text, "");
    assert_eq!(result.lang_hint, "unknown");
}

#[test]
fn image_payload_is_base64() {
    assert_eq!(whatthefile::runtime::image_payload(b"abc"), "YWJj");
    assert_eq!(whatthefile::runtime::image_payload(b""), "");
    assert_eq!(whatthefile::runtime::image_payload(&[0xff, 0x00]), "/wA=");
}

#[test]
fn vision_reads_unread_pages_or_the_whole_document() {
    let partial = plan_ocr(&vec![
        OcrPage::Read { text: "ok".to_string(), confidence_percent: 80 },
        OcrPage::Failed,
    ]);
    assert_eq!(whatthefile::extract::vision_pages(&partial, 2), vec![1]);
    let none = plan_ocr(&vec![OcrPage::Failed, OcrPage::Failed, OcrPage::Failed]);
    assert_eq!(whatthefile::extract::vision_pages(&none, 3), vec![0, 1, 2]);
}
