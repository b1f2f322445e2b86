use whatthefile::chunker::{chunk_text, CHUNK_OVERLAP, CHUNK_SIZE};

fn tokens(text: &str) -> Vec<String> {
    text.split_whitespace().map(|s| s.to_string()).collect()
}

#[test]
fn test_empty_text_returns_empty() {
    assert!(chunk_text("", 8, 2).is_empty());
    assert!(chunk_text("   \t\n  ", 8, 2).is_empty());
}

#[test]
fn test_single_chunk_when_text_shorter_than_window() {
    let chunks = chunk_text("hello world foo", 8, 2);
    assert_eq!(chunks.len(), 1);
    assert_eq!(chunks[0].start_token, 0);
    assert_eq!(chunks[0].end_token, 3);
    assert_eq!(chunks[0].text, "hello world foo");
}

#[test]
fn test_overlap_applied_correctly() {
    // 10 tokens, size=4, overlap=2 → step=2
    let input = "a b c d e f g h i j";
    let chunks = chunk_text(input, 4, 2);
    assert_eq!(chunks.len(), 4);

    assert_eq!(chunks[0].start_token, 0);
    assert_eq!(chunks[0].end_token, 4);
    assert_eq!(chunks[0].text, "a b c d");

    assert_eq!(chunks[1].start_token, 2);
    assert_eq!(chunks[1].end_token, 6);
    assert_eq!(chunks[1].text, "c d e f");

    // Adjacent chunks share `overlap` tokens
    let t = tokens(input);
    let end_of_0 = &t[chunks[0].start_token..chunks[0].end_token];
    let start_of_1 = &t[chunks[1].start_token..chunks[1].end_token];
    let shared: Vec<_> = end_of_0.iter().rev().take(2).collect();
    let leading: Vec<_> = start_of_1.iter().take(2).collect();
    assert_eq!(shared.into_iter().rev().collect::<Vec<_>>(), leading);
}

#[test]
fn test_last_chunk_covers_remainder() {
    // 7 tokens, size=4, overlap=1 → step=3
    let input = "a b c d e f g";
    let chunks = chunk_text(input, 4, 1);
    assert_eq!(chunks.len(), 2);
    assert_eq!(chunks[1].end_token, 7);
    assert_eq!(chunks[1].text, "d e f g");
}

#[test]
fn test_whitespace_normalization() {
    let input = "foo\tbar\nbaz  qux";
    let chunks = chunk_text(input, 8, 2);
    assert_eq!(chunks.len(), 1);
    assert_eq!(chunks[0].text, "foo bar baz qux");
}

#[test]
fn test_default_constants() {
    assert_eq!(CHUNK_SIZE, 256);
    assert_eq!(CHUNK_OVERLAP, 32);
    assert!(CHUNK_OVERLAP < CHUNK_SIZE);
}

#[test]
fn test_exactly_one_token() {
    let chunks = chunk_text("hello", 256, 32);
    assert_eq!(chunks.len(), 1);
    assert_eq!(chunks[0].text, "hello");
    assert_eq!(chunks[0].start_token, 0);
    assert_eq!(chunks[0].end_token, 1);
}

#[test]
fn chunk_windows_overlap_and_cover_every_token() {
    // 23 tokens, size 5, overlap 2 → step 3: windows start at 0, 3, ..., 18.
    let words: Vec<String> = (0..23).map(|i| format!("w{i}")).collect();
    let text = words.join(" ");
    let chunks = chunk_text(&text, 5, 2);
    assert_eq!(chunks.len(), 7);
    assert_eq!(chunks[0].start_token, 0);
    assert_eq!(chunks.last().unwrap().end_token, 23);
    for pair in chunks.windows(2) {
        assert_eq!(pair[0].end_token - pair[1].start_token, 2);
    }
    for c in &chunks {
        assert!(c.end_token > c.start_token && c.end_token - c.start_token <= 5);
        assert_eq!(c.text, words[c.start_token..c.end_token].join(" "));
    }
}

#[test]
fn chunk_exact_multiple_has_no_extra_window() {
    // 6 tokens, size 4, overlap 2: windows [0,4) and [2,6); the second reaches the end.
    let chunks = chunk_text("a b c d e f", 4, 2);
    assert_eq!(chunks.len(), 2);
    assert_eq!((chunks[1].start_token, chunks[1].end_token), (2, 6));
    assert_eq!(chunks[1].text, "c d e f");
}

#[test]
fn chunk_zero_overlap_partitions_tokens() {
    let chunks = chunk_text("one two three four five", 2, 0);
    let texts: Vec<&str> = chunks.iter().map(|c| c.text.as_str()).collect();
    assert_eq!(texts, vec!["one two", "three four", "five"]);
}

#[test]
fn chunk_unicode_whitespace_separates_tokens() {
    let chunks = chunk_text("alpha\u{00a0}beta\u{3000}gamma", 8, 2);
    assert_eq!(chunks.len(), 1);
    assert_eq!(chunks[0].text, "alpha beta gamma");
    assert_eq!(chunks[0].end_token, 3);
}
