use pdf_extractor::extractor::WordPosition;
use pdf_extractor::indexer::{
    align_offsets_to_tantivy, build_schema, missing_field_message, FieldDef, FieldKind, IndexOp,
    Indexer, IndexerMetrics, SearchIndex,
};
use pdf_extractor::tokenizers::tokenize_with_math;

fn word(page: u32, x_min: f32, y_min: f32, x_max: f32, y_max: f32, text: &str) -> WordPosition {
    WordPosition {
        page,
        x_min: x_min.to_bits(),
        y_min: y_min.to_bits(),
        x_max: x_max.to_bits(),
        y_max: y_max.to_bits(),
        text: text.to_string(),
    }
}

/// The fields as the index takes them.
fn schema_of(fields: Vec<FieldDef>) -> tantivy::schema::Schema {
    let mut builder = tantivy::schema::Schema::builder();
    for f in fields {
        match f.kind {
            FieldKind::Number => {
                builder.add_u64_field(f.name, tantivy::schema::INDEXED | tantivy::schema::STORED);
            }
            FieldKind::Whole => {
                builder.add_text_field(f.name, tantivy::schema::STRING | tantivy::schema::STORED);
            }
            FieldKind::Tokens => {
                builder.add_text_field(f.name, tantivy::schema::TEXT);
            }
        }
    }
    builder.build()
}

#[test]
fn test_schema_creation() {
    let schema = schema_of(build_schema());
    assert!(schema.get_field("id").is_ok());
    assert!(schema.get_field("path").is_ok());
    assert!(schema.get_field("content").is_ok());
}

#[test]
fn test_index_invalid_path() {
    let result = SearchIndex::new("");
    assert!(result.is_err(), "Creating index with empty path should fail");
}

#[test]
fn test_tokenize_with_math_simple() {
    let tokens = tokenize_with_math("hello world");
    assert_eq!(tokens.len(), 2);
    assert_eq!(tokens[0], (0, "hello".to_string()));
    assert_eq!(tokens[1], (1, "world".to_string()));
}

#[test]
fn test_tokenize_with_math_lowercases() {
    let tokens = tokenize_with_math("Hello World");
    assert_eq!(tokens[0].1, "hello");
    assert_eq!(tokens[1].1, "world");
}

#[test]
fn test_tokenize_with_math_skips_punctuation() {
    let tokens = tokenize_with_math("hello, world!");
    assert_eq!(tokens.len(), 2);
    assert_eq!(tokens[0], (0, "hello".to_string()));
    assert_eq!(tokens[1], (1, "world".to_string()));
}

#[test]
fn test_tokenize_with_math_keeps_symbols() {
    let tokens = tokenize_with_math("E = mc^2");
    assert!(tokens.iter().any(|(_, t)| t == "e"));
    assert!(tokens.iter().any(|(_, t)| t == "mc^2"));
}

#[test]
fn test_tokenize_with_math_empty() {
    let tokens = tokenize_with_math("");
    assert!(tokens.is_empty());
}

#[test]
fn test_tokenize_with_math_newline_separator() {
    let tokens = tokenize_with_math("machine\nlearning");
    assert_eq!(tokens.len(), 2);
    assert_eq!(tokens[0], (0, "machine".to_string()));
    assert_eq!(tokens[1], (1, "learning".to_string()));
}

#[test]
fn test_align_offsets_to_tantivy_simple() {
    let wp = vec![
        word(1, 0.0, 0.0, 10.0, 10.0, "hello"),
        word(1, 10.0, 0.0, 20.0, 10.0, "world"),
    ];
    let aligned = align_offsets_to_tantivy("hello world", &wp);
    assert_eq!(aligned.len(), 2);
    assert_eq!(aligned[0].0, 0); // Tantivy position 0
    assert_eq!(aligned[0].1.page, 1);
    assert_eq!(aligned[1].0, 1); // Tantivy position 1
    assert_eq!(aligned[1].1.page, 1);
}

#[test]
fn test_align_offsets_to_tantivy_case_insensitive() {
    let wp = vec![
        word(1, 0.0, 0.0, 10.0, 10.0, "PATTERN"),
        word(2, 0.0, 0.0, 10.0, 10.0, "Pattern"),
    ];
    let aligned = align_offsets_to_tantivy("PATTERN Pattern", &wp);
    assert_eq!(aligned.len(), 2);
    assert_eq!(aligned[0].0, 0);
    assert_eq!(aligned[0].1.page, 1);
    assert_eq!(aligned[1].0, 1);
    assert_eq!(aligned[1].1.page, 2);
}

#[test]
fn test_align_offsets_to_tantivy_all_wps_produce_entries() {
    let wp = vec![
        word(1, 0.0, 0.0, 10.0, 10.0, "foo"),
        word(2, 0.0, 0.0, 10.0, 10.0, "bar"),
    ];
    let aligned = align_offsets_to_tantivy("foo bar", &wp);
    assert_eq!(aligned.len(), 2);
    assert_eq!(aligned[0].0, 0);
    assert_eq!(aligned[0].1.text, "foo");
    assert_eq!(aligned[1].0, 1);
    assert_eq!(aligned[1].1.text, "bar");
}

#[test]
fn test_align_offsets_to_tantivy_multi_page_preserves_offsets() {
    let wp = vec![
        word(1, 0.0, 0.0, 10.0, 10.0, "machine"),
        word(2, 0.0, 0.0, 10.0, 10.0, "learning"),
    ];
    let aligned = align_offsets_to_tantivy("machine\nlearning", &wp);
    assert_eq!(aligned.len(), 2);
    assert_eq!(aligned[0].0, 0); // "machine" at Tantivy position 0
    assert_eq!(aligned[0].1.page, 1);
    assert_eq!(aligned[1].0, 1); // "learning" at Tantivy position 1
    assert_eq!(aligned[1].1.page, 2);
}

#[test]
fn test_align_offsets_to_tantivy_single_token_wp() {
    let wp = vec![
        word(1, 0.0, 0.0, 10.0, 10.0, "hello"),
        word(1, 0.0, 0.0, 10.0, 10.0, "world"),
    ];
    let aligned = align_offsets_to_tantivy("hello world", &wp);
    assert_eq!(aligned.len(), 2);
    assert_eq!(aligned[0].0, 0);
    assert_eq!(aligned[0].1.text, "hello");
    assert_eq!(aligned[1].0, 1);
    assert_eq!(aligned[1].1.text, "world");
}

#[test]
fn test_tokenize_with_math_cached_idempotent() {
    let text = "cached tokenizer idempotent test 123 $math$";
    let first = tokenize_with_math(text);
    let second = tokenize_with_math(text);
    assert_eq!(first, second, "cached TextAnalyzer should produce identical output across calls");
}

#[test]
fn test_tokenize_with_math_wide_variety() {
    // Empty
    assert!(tokenize_with_math("").is_empty());
    // Whitespace only
    assert!(tokenize_with_math("   \n  \t  ").is_empty());
    // Numbers
    let tokens = tokenize_with_math("42");
    assert_eq!(tokens.len(), 1);
    assert_eq!(tokens[0].1, "42");
    // Mixed case
    let tokens = tokenize_with_math("UPPER lower Mixed");
    assert_eq!(tokens.len(), 3);
    assert_eq!(tokens[0].1, "upper");
    assert_eq!(tokens[1].1, "lower");
    assert_eq!(tokens[2].1, "mixed");
    // Unicode letters
    let tokens = tokenize_with_math("café résumé");
    assert_eq!(tokens.len(), 2);
    assert!(tokens.iter().any(|(_, t)| t == "café"));
    assert!(tokens.iter().any(|(_, t)| t == "résumé"));
    // Symbols (kept by \p{S})
    let tokens = tokenize_with_math("x ∈ ℝ");
    assert!(tokens.iter().any(|(_, t)| t == "x"));
    assert!(tokens.iter().any(|(_, t)| t == "∈"));
    assert!(tokens.iter().any(|(_, t)| t == "ℝ"));
    // Punctuation stripped
    let tokens = tokenize_with_math("hello, world! (yes)");
    assert_eq!(tokens.len(), 3, "punctuation should be stripped");
    assert_eq!(tokens[0].1, "hello");
    assert_eq!(tokens[1].1, "world");
    assert_eq!(tokens[2].1, "yes");
}

#[test]
fn test_tokenize_with_math_cached_does_not_affect_positions() {
    // Positions should be 0-based consecutive regardless of caching
    let tokens = tokenize_with_math("a b c d e");
    assert_eq!(tokens.len(), 5);
    for (i, (pos, text)) in tokens.iter().enumerate() {
        assert_eq!(*pos, i, "position {} should be {}", i, i);
        assert_eq!(text.as_str(), ["a", "b", "c", "d", "e"][i]);
    }
}

#[test]
fn test_align_offsets_to_tantivy_empty_segment_skipped() {
    let wp = vec![
        word(1, 0.0, 0.0, 10.0, 10.0, "hello"),
        word(1, 10.0, 0.0, 20.0, 10.0, ""),
        word(2, 0.0, 0.0, 10.0, 10.0, "world"),
    ];
    let aligned = align_offsets_to_tantivy("hello world", &wp);
    assert_eq!(aligned.len(), 2);
    assert_eq!(aligned[0].0, 0);
    assert_eq!(aligned[0].1.text, "hello");
    assert_eq!(aligned[1].0, 1);
    assert_eq!(aligned[1].1.text, "world");
}

#[test]
fn test_indexer_metrics_start_zero() {
    let m = IndexerMetrics::new();
    assert_eq!(m.docs_indexed(), 0);
}

#[test]
fn the_content_is_not_stored() {
    let stored: Vec<(&str, bool)> = build_schema().iter().map(|f| (f.name, f.stored)).collect();
    assert_eq!(stored, vec![("id", true), ("path", true), ("content", false)]);
    assert_eq!(missing_field_message("x"), "Field 'x' not found in schema");
}

#[test]
fn a_document_takes_the_place_of_the_one_before() {
    let mut indexer = Indexer::new("index").unwrap();
    let ops = indexer.index_document(7, "/a.pdf", "text");
    assert_eq!(ops.len(), 3);
    assert!(matches!(ops[0], IndexOp::DeleteId(7)));
    assert!(matches!(&ops[1], IndexOp::Add { id: 7, path, text } if path == "/a.pdf" && text == "text"));
    assert!(matches!(ops[2], IndexOp::Commit));
    indexer.on_indexed(true);
    assert_eq!(indexer.metrics().docs_indexed(), 1);
}

#[test]
fn a_document_leaves_with_its_words() {
    let mut indexer = Indexer::new("index").unwrap();
    let words = vec![(0usize, word(1, 0.0, 0.0, 1.0, 1.0, "text"))];
    indexer.store_word_positions(7, &words).unwrap();
    assert_eq!(indexer.position_store().load_all_for_doc(7).unwrap().len(), 1);
    let ops = indexer.delete_document("/a.pdf");
    indexer.on_deleted(7, true);
    assert!(matches!(&ops[0], IndexOp::DeletePath(p) if p == "/a.pdf"));
    assert!(indexer.position_store().load_all_for_doc(7).is_err());
}

#[test]
fn documents_found_by_a_pattern_leave_by_their_ids() {
    let idx = SearchIndex::new("index").unwrap();
    let (ops, n) = idx.delete_by_path(&vec![Some(3), None, Some(5)]);
    assert_eq!(n, 3);
    assert_eq!(ops.len(), 3);
    assert!(matches!(ops[0], IndexOp::DeleteId(3)));
    assert!(matches!(ops[1], IndexOp::DeleteId(5)));
    assert!(matches!(ops[2], IndexOp::Commit));
}

#[test]
fn writers_are_made_as_asked() {
    let mut idx = SearchIndex::new("index").unwrap();
    assert_eq!(idx.ram_buffer(), 3_000_000_000);
    idx.set_ram_buffer(50_000_000);
    assert_eq!(idx.writer().memory, 50_000_000);
    assert_eq!(idx.writer().num_threads, None);
    assert_eq!(idx.writer_with_num_threads(4).num_threads, Some(4));
    assert!(idx.optimize(2));
    assert!(!idx.optimize(1));
    let stats = idx.compute_stats(3, 1, &vec![10, 20, 30]);
    assert_eq!((stats.num_docs, stats.num_segments, stats.size_bytes), (3, 1, 60));
}

#[test]
fn the_places_of_a_term_are_those_of_its_posting() {
    let idx = SearchIndex::new("index").unwrap();
    let postings = vec![(1u32, vec![0u32]), (4, vec![2, 9])];
    assert_eq!(idx.search_term_positions(Some(4), &postings), vec![2, 9]);
    assert_eq!(idx.search_term_positions(Some(3), &postings), Vec::<usize>::new());
    assert_eq!(idx.search_term_positions(Some(9), &postings), Vec::<usize>::new());
    assert_eq!(idx.search_term_positions(None, &postings), Vec::<usize>::new());
}
