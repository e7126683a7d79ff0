use pdf_extractor::extractor::{
    build_result, clean_word_text, is_single_token, split_word_into_segments, unopened_result,
    CharOutcome, ExtractionResult, TextReader, WordPosition,
};

/// The text of a result for pages with this text.
fn current_trim(s: &str) -> String {
    build_result::<WordPosition>(s.to_string(), Vec::new(), 1, 1, 0).text
}

#[test]
fn test_extraction_result_ocr_flag() {
    let result = ExtractionResult::<WordPosition> { text: String::new(), ocr_flag: true, word_positions: Vec::new(), page_count: 0, extraction_ms: 0 };
    assert!(result.ocr_flag);
    assert!(result.text.is_empty());
}

#[test]
fn test_extraction_result_has_text() {
    let result = ExtractionResult::<WordPosition> { text: "hello".into(), ocr_flag: false, word_positions: Vec::new(), page_count: 1, extraction_ms: 0 };
    assert!(!result.ocr_flag);
    assert_eq!(result.text, "hello");
}

#[test]
fn test_clean_word_text_basic() {
    assert_eq!(clean_word_text("Hello"), "Hello");
}

#[test]
fn test_clean_word_text_with_punctuation() {
    // clean_word_text only keeps \p{L}\p{N}\p{S}
    let cleaned = clean_word_text("hello!");
    assert_eq!(cleaned, "hello", "Punctuation should be stripped");
}

#[test]
fn test_clean_word_text_mixed() {
    let cleaned = clean_word_text("don't");
    assert_eq!(cleaned, "don t", "An apostrophe separates two tokens");
}

#[test]
fn test_clean_word_text_symbols() {
    let cleaned = clean_word_text("∑=∑");
    assert_eq!(cleaned, "∑=∑", "Math symbols should be preserved");
}

#[test]
fn test_clean_word_text_control_char() {
    let cleaned = clean_word_text("\u{0000}");
    assert_eq!(cleaned, "", "Null character should produce empty string");
}

#[test]
fn test_trim_behavior_trailing_spaces() {
    assert_eq!(current_trim("hello world   "), "hello world");
}

#[test]
fn test_trim_behavior_trailing_newlines() {
    assert_eq!(current_trim("hello world\n\n\n"), "hello world");
}

#[test]
fn test_trim_behavior_trailing_mixed() {
    assert_eq!(current_trim("hello world \n \t "), "hello world");
}

#[test]
fn test_trim_behavior_leading_spaces_preserved() {
    // In-place trim_end preserves leading whitespace (unlike trim())
    let result = current_trim("   hello world");
    assert_eq!(result, "   hello world", "leading spaces must be preserved");
}

#[test]
fn test_trim_behavior_only_whitespace() {
    assert_eq!(current_trim("   \n  \t  "), "", "whitespace-only becomes empty");
}

#[test]
fn test_trim_behavior_no_trailing_whitespace() {
    assert_eq!(current_trim("hello world"), "hello world", "no change when no trailing whitespace");
}

#[test]
fn test_trim_behavior_empty_string() {
    assert_eq!(current_trim(""), "", "empty string stays empty");
}

#[test]
fn a_blank_document_is_marked_for_recognition() {
    let r = build_result("  \n".to_string(), vec![1u8], 5, 3, 7);
    assert!(r.ocr_flag && r.text.is_empty() && r.word_positions.is_empty());
    assert_eq!((r.page_count, r.extraction_ms), (3, 7));
    let r = build_result("text".to_string(), vec![1u8], 0, 3, 7);
    assert!(r.ocr_flag && r.text.is_empty());
    let r = build_result(" text \n".to_string(), vec![1u8], 5, 3, 7);
    assert!(!r.ocr_flag);
    assert_eq!((r.text.as_str(), r.word_positions), (" text", vec![1u8]));
    let r = unopened_result::<u8>(4, 9).unwrap();
    assert!(r.ocr_flag);
    assert_eq!((r.page_count, r.extraction_ms), (0, 9));
    assert_eq!(
        unopened_result::<u8>(2, 9).err().unwrap(),
        "Failed to load PDF: File not found or cannot be opened"
    );
    assert!(unopened_result::<u8>(3, 9).is_err());
}

#[test]
fn words_are_cut_into_tokens() {
    assert!(is_single_token("héllo"));
    assert!(!is_single_token("don't"));
    assert!(!is_single_token(""));
    let spans = split_word_into_segments("(é'x+1)", 10, 4);
    let found: Vec<(u32, &str, usize, usize)> =
        spans.iter().map(|s| (s.page, s.text.as_str(), s.first, s.end)).collect();
    assert_eq!(found, vec![(4, "é", 11, 12), (4, "x+1", 13, 16)]);
    assert!(split_word_into_segments("--", 0, 1).is_empty());
}

/// Reads a page; a bar stands for a character without a box, a tilde for a gap
/// before the next character.
fn read(reader: &mut TextReader, page: u32, chars: &str) {
    reader.start_page(page);
    let mut gap = false;
    for c in chars.chars() {
        if c == '~' {
            gap = true;
        } else {
            reader.read_char(c as u32, c != '|', gap);
            gap = false;
        }
    }
    reader.end_page();
}

#[test]
fn a_page_becomes_text_and_tokens() {
    let mut reader = TextReader::new();
    read(&mut reader, 1, " ab  c'd\ne~f|g");
    read(&mut reader, 2, "\tlast. ");
    let (text, spans) = reader.into_parts();
    assert_eq!(text, "ab c'd\ne f g last. ");
    let found: Vec<(u32, &str, usize, usize)> =
        spans.iter().map(|s| (s.page, s.text.as_str(), s.first, s.end)).collect();
    assert_eq!(
        found,
        vec![
            (1, "ab", 0, 2),
            (1, "c", 2, 3),
            (1, "d", 4, 5),
            (1, "e", 5, 6),
            (1, "f", 6, 7),
            (1, "g", 7, 8),
            (2, "last", 0, 4),
        ]
    );
}

#[test]
fn values_that_are_no_characters_are_passed_over() {
    let mut reader = TextReader::new();
    reader.start_page(1);
    assert_eq!(reader.read_char('a' as u32, true, false), CharOutcome::Word);
    assert_eq!(reader.read_char(0xd800, true, false), CharOutcome::Skipped);
    assert_eq!(reader.read_char(0, true, false), CharOutcome::Separator);
    assert_eq!(reader.read_char('b' as u32, true, false), CharOutcome::Word);
    reader.end_page();
    assert_eq!(reader.into_parts().0, "a b ");
}

#[test]
fn words_are_the_tokens_of_the_text() {
    let mut reader = TextReader::new();
    read(&mut reader, 1, "don't  x²+y=√z\n(über)~alles|1,000");
    read(&mut reader, 2, "  -- ");
    read(&mut reader, 3, "日本 end.");
    let (text, spans) = reader.into_parts();
    let words: Vec<String> = spans.into_iter().map(|s| s.text).collect();
    assert_eq!(clean_word_text(&text), words.join(" "));
    assert_eq!(clean_word_text(text.trim_end()), words.join(" "));
    assert!(words.iter().all(|w| is_single_token(w)));
}
