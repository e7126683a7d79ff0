use pdf_extractor::indexer::{
    posting_step, IndexError, IndexOp, Indexer, PostingStep, SearchIndex, NO_MORE_DOCS,
};
use pdf_extractor::math_tokenizer::{
    append_constructs, arrange_constructs, labels_fit, source_from, MathConstruct,
};
use pdf_extractor::normalizer::{normalize_composed, normalize_text, try_normalize_text};
use pdf_extractor::patterns::{find_all, group_text, Captured, Pattern};
use pdf_extractor::pipeline::config::{
    align_threads_on, resolve_ocr_workers_on, PipelineConfig,
};
use pdf_extractor::pipeline::distribute::{order_by_size, PendingJob};
use pdf_extractor::pipeline::extraction::find_id;
use pdf_extractor::pipeline::distribute::ExtractorTask;
use pdf_extractor::pipeline::run::{append_page, release_scratch_buf, with_scratch_buf};
use pdf_extractor::scanner::checksum_text;
use pdf_extractor::tokenizers::Token;

fn captured(start: usize, end: usize, groups: &[Option<&str>]) -> Captured {
    let groups = groups.iter().map(|g| g.map(|s| s.to_string())).collect();
    Captured { start, end, groups }
}

fn token(from: usize, to: usize, position: usize, text: &str) -> Token {
    Token {
        offset_from: from,
        offset_to: to,
        position,
        text: text.to_string(),
        position_length: 1,
    }
}

// --- Normalization ---

#[test]
fn blanks_and_controls_of_a_composed_text() {
    assert_eq!(normalize_composed("a  b\t c\n\n d "), normalize_text("a  b\t c\n\n d "));
    assert_eq!(normalize_composed("ﬁ"), "ﬁ");
    assert_eq!(normalize_text("ﬁ"), "fi");
    assert_eq!(try_normalize_text("ﬁ  x").as_deref(), Some("fi x"));
}

// --- Patterns ---

#[test]
fn matches_of_a_pattern() {
    let found = find_all(Pattern::Fraction, r"x \frac{a}{b} y");
    assert_eq!(found.len(), 1);
    assert_eq!((found[0].start, found[0].end), (2, 13));
    assert_eq!(group_text(&found[0], 0), "frac");
    assert_eq!(group_text(&found[0], 1), "a");
    assert_eq!(group_text(&found[0], 2), "b");
    assert_eq!(group_text(&found[0], 9), "");
    assert!(find_all(Pattern::Pages, "no pages").is_empty());
}

// --- Constructs ---

#[test]
fn constructs_are_arranged_by_their_start() {
    let operators = vec![captured(20, 30, &[Some("sum"), Some("i"), Some("n")])];
    let fractions = vec![captured(0, 10, &[Some("frac"), Some("a"), Some("b")])];
    let roots = vec![captured(5, 8, &[Some("sqrt"), None, Some("x")])];
    let r = arrange_constructs(&operators, &fractions, &roots, &Vec::new());
    let labels: Vec<&str> = r.iter().map(|c| c.label.as_str()).collect();
    assert_eq!(labels, vec!["MATH_FRAC_a_b", "MATH_SUM_LIMITS"]);
    assert_eq!((r[1].start, r[1].end), (20, 30));
}

#[test]
fn constructs_follow_the_tokens() {
    let tokens = vec![token(0, 1, 0, "a"), token(2, 3, 1, "b")];
    let constructs = vec![MathConstruct { start: 0, end: 3, label: "MATH_X".to_string() }];
    let r = append_constructs(tokens, &constructs);
    assert_eq!(r.len(), 3);
    assert_eq!((r[2].text.as_str(), r[2].offset_from, r[2].offset_to), ("MATH_X", 0, 3));
    assert_eq!(r[2].position, 2);
    assert_eq!(r[2].position_length, 2);
}

#[test]
fn labels_that_would_cut_a_character() {
    assert!(labels_fit(r"\frac{aaaaaaaaaaaaaaaaaaaaaaaaaaaaaa}{b}"));
    assert!(!labels_fit(r"\sqrt{aéééééééééééééééééééééééé}"));
}

#[test]
fn sources_are_joined() {
    let display = vec![captured(0, 5, &[Some("x"), None])];
    let inline = vec![captured(6, 9, &[None, Some("y")])];
    assert_eq!(source_from(&display, &inline).as_deref(), Some("display:x | inline:y"));
    assert_eq!(source_from(&Vec::new(), &Vec::new()), None);
}

// --- The index ---

#[test]
fn postings_are_walked_in_order() {
    assert_eq!(posting_step(3, 5), PostingStep::Advance);
    assert_eq!(posting_step(5, 5), PostingStep::Found);
    assert_eq!(posting_step(6, 5), PostingStep::Absent);
    assert_eq!(posting_step(NO_MORE_DOCS, NO_MORE_DOCS), PostingStep::Absent);
}

#[test]
fn test_search_index_default_ram_buffer() {
    let idx = SearchIndex::new("index").unwrap();
    assert_eq!(idx.ram_buffer(), 3_000_000_000);
    assert_eq!(idx.path(), "index");
}

#[test]
fn test_search_index_with_ram_buffer() {
    let idx = SearchIndex::with_ram_buffer("index", 500_000_000).unwrap();
    assert_eq!(idx.ram_buffer(), 500_000_000);
    assert_eq!(SearchIndex::with_ram_buffer("", 1).unwrap_err(), IndexError::NoDirectory);
}

#[test]
fn test_search_index_set_ram_buffer() {
    let mut idx = SearchIndex::new("index").unwrap();
    idx.set_ram_buffer(1_000_000_000);
    assert_eq!(idx.ram_buffer(), 1_000_000_000);
    assert_eq!(idx.writer().num_threads, None);
    let w = idx.writer_with_num_threads(2);
    assert_eq!((w.num_threads, w.memory), (Some(2), 1_000_000_000));
}

#[test]
fn a_document_is_removed_by_its_path() {
    let idx = SearchIndex::new("index").unwrap();
    let ops = idx.delete_by_exact_path("/a.pdf");
    assert_eq!(ops.len(), 2);
    assert!(matches!(&ops[0], IndexOp::DeletePath(p) if p == "/a.pdf"));
    assert!(matches!(ops[1], IndexOp::Commit));
}

#[test]
fn statistics_of_an_index() {
    let idx = SearchIndex::new("index").unwrap();
    let s = idx.compute_stats(7, 2, &vec![10, 20, 12]);
    assert_eq!((s.num_docs, s.num_segments, s.size_bytes), (7, 2, 42));
    assert!(!idx.optimize(1));
    assert!(idx.optimize(2));
}

#[test]
fn test_indexer_metrics_increments() {
    let mut indexer = Indexer::with_ram_buffer("index", 15_000_000).unwrap();
    assert_eq!(indexer.metrics().docs_indexed(), 0);
    let ops = indexer.index_document(1, "/a.pdf", "text");
    assert!(matches!(ops[2], IndexOp::Commit));
    assert_eq!(indexer.metrics().docs_indexed(), 0);
    indexer.on_indexed(false);
    assert_eq!(indexer.metrics().docs_indexed(), 0);
    indexer.on_indexed(true);
    assert_eq!(indexer.metrics().docs_indexed(), 1);
    assert_eq!(indexer.search_index().ram_buffer(), 15_000_000);
}

#[test]
fn a_document_goes_with_its_words() {
    let mut indexer = Indexer::new("index").unwrap();
    let word = pdf_extractor::extractor::WordPosition {
        page: 1,
        x_min: 0,
        y_min: 0,
        x_max: 0,
        y_max: 0,
        text: "word".to_string(),
    };
    indexer.store_word_positions(4, &vec![(0, word)]).unwrap();
    assert_eq!(indexer.position_store().count_positions(4).unwrap(), 1);
    assert_eq!(indexer.delete_document("/a.pdf").len(), 2);
    indexer.on_deleted(4, false);
    assert_eq!(indexer.position_store().count_positions(4).unwrap(), 1);
    indexer.on_deleted(4, true);
    assert_eq!(indexer.position_store().count_positions(4).unwrap(), 0);
}

// --- The pipeline ---

#[test]
fn large_jobs_come_first() {
    let job = |id: i64, size: i64| PendingJob {
        id,
        path: String::new(),
        checksum: String::new(),
        size,
    };
    let sorted = order_by_size(vec![job(1, 5), job(2, 9), job(3, 5), job(4, 0)]);
    let ids: Vec<i64> = sorted.iter().map(|j| j.id).collect();
    assert_eq!(ids, vec![2, 1, 3, 4]);
}

#[test]
fn the_last_task_with_a_path_counts() {
    let task = |id: i64, path: &str| ExtractorTask {
        id,
        path: path.to_string(),
        checksum: String::new(),
    };
    let batch = vec![task(1, "/a"), task(2, "/b"), task(3, "/a")];
    assert_eq!(find_id(&batch, &"/a".to_string()), Some(3));
    assert_eq!(find_id(&batch, &"/c".to_string()), None);
}

#[test]
fn settings_on_machines_of_several_sizes() {
    let c = PipelineConfig::default();
    let workers: Vec<usize> = [1, 2, 3, 4, 8, 10, 64].map(|n| c.extract_workers_on(n)).to_vec();
    assert_eq!(workers, vec![1, 1, 1, 2, 6, 8, 8]);
    let threads: Vec<usize> = [1, 3, 4, 16].map(|n| c.indexer_threads_on(n)).to_vec();
    assert_eq!(threads, vec![1, 3, 4, 4]);
    let ocr: Vec<usize> = [1, 2, 4, 6, 32].map(|n| resolve_ocr_workers_on(None, n)).to_vec();
    assert_eq!(ocr, vec![1, 1, 1, 2, 2]);
    let align: Vec<usize> = [1, 2, 6, 8, 64].map(align_threads_on).to_vec();
    assert_eq!(align, vec![1, 1, 3, 4, 4]);
    assert_eq!(PipelineConfig::reservoir_size_for(3), 12);
    assert_eq!(PipelineConfig::reservoir_size_for(usize::MAX), 200);
}

#[test]
fn pages_are_joined_by_line_breaks() {
    let mut full = String::new();
    append_page(&mut full, "");
    append_page(&mut full, "one");
    append_page(&mut full, "");
    append_page(&mut full, "two");
    assert_eq!(full, "one\ntwo");
}

#[test]
fn scratch_space_is_empty_after_use() {
    let mut buf = vec!["left over".to_string()];
    let n = with_scratch_buf(&mut buf, |b: &mut Vec<String>| {
        b.push("more".to_string());
        b.len()
    });
    assert_eq!((n, buf.len()), (2, 0));
    buf.push("x".to_string());
    release_scratch_buf(&mut buf);
    assert!(buf.is_empty());
}

#[test]
fn checksums_have_sixteen_digits() {
    assert_eq!(checksum_text(0), "0000000000000000");
    assert_eq!(checksum_text(0xabc), "0000000000000abc");
    assert_eq!(checksum_text(u64::MAX), "ffffffffffffffff");
}
