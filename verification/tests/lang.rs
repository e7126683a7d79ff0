use pdf_extractor::lang::{detect_language, reliable_language, tokenizer_for_lang};


#[test]
fn test_detect_english() {
    let text = "The quick brown fox jumps over the lazy dog. This is a longer sentence that should be reliably detected.";
    let lang = detect_language(text);
    assert_eq!(lang.as_deref(), Some("eng"), "Should detect English, got {:?}", lang);
}

#[test]
fn test_detect_short_text() {
    let lang = detect_language("Hello");
    assert_eq!(lang, None, "Short text should return None");
}

#[test]
fn test_detect_empty_text() {
    let lang = detect_language("");
    assert_eq!(lang, None, "Empty text should return None");
}

#[test]
fn test_detect_unicode_script() {
    let text = "これは日本語の文章です。十分な長さがあるので、信頼性高く検出できるはずです。";
    let lang = detect_language(text);
    assert_eq!(lang.as_deref(), Some("jpn"), "Should detect Japanese, got {:?}", lang);
}

#[test]
fn test_tokenizer_for_japanese() {
    assert_eq!(tokenizer_for_lang("ja"), "ja");
    assert_eq!(tokenizer_for_lang("jpn"), "ja");
}

#[test]
fn test_tokenizer_for_chinese() {
    assert_eq!(tokenizer_for_lang("zh"), "zh");
    assert_eq!(tokenizer_for_lang("cmn"), "zh");
}

#[test]
fn test_tokenizer_for_unknown() {
    assert_eq!(tokenizer_for_lang("eng"), "math");
    assert_eq!(tokenizer_for_lang("deu"), "math");
    assert_eq!(tokenizer_for_lang(""), "math");
}

#[test]
fn only_a_reliable_language_counts() {
    assert_eq!(reliable_language(None), None);
    assert_eq!(reliable_language(Some(("eng".to_string(), false))), None);
    assert_eq!(reliable_language(Some(("eng".to_string(), true))), Some("eng".to_string()));
}

#[test]
fn korean_and_thai_have_tokenizers() {
    assert_eq!(tokenizer_for_lang("kor"), "ko");
    assert_eq!(tokenizer_for_lang("ko"), "ko");
    assert_eq!(tokenizer_for_lang("tha"), "th");
    assert_eq!(tokenizer_for_lang("th"), "th");
}
