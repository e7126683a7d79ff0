use pdf_extractor::bench::{
    bench_text, extract_args, first_found, logged_throughput, make_pdf, percentile_index,
    MeasuredSearch, ITERATIONS,
};
use pdf_extractor::cli::{
    delete_report, delete_request, failed_report, ocr_report, results_header, search_mode,
    tesseract_program, DeleteRequest, SearchMode,
};
use pdf_extractor::pdfium::{error_str, FPDF_ERR_FILE, FPDF_ERR_SUCCESS};

fn strings(v: &[&str]) -> Vec<String> {
    v.iter().map(|s| s.to_string()).collect()
}

fn find(hay: &[u8], needle: &[u8]) -> usize {
    hay.windows(needle.len()).position(|w| w == needle).unwrap()
}

// --- Commands ---

#[test]
fn a_field_goes_before_a_distance() {
    match search_mode(Some("path".into()), 2, true) {
        SearchMode::Field { name } => assert_eq!(name, "path"),
        m => panic!("{:?}", m),
    }
    assert!(matches!(search_mode(None, 2, true), SearchMode::Fuzzy { distance: 2, stem: true }));
    assert!(matches!(search_mode(None, 0, true), SearchMode::Words { stem: true }));
}

#[test]
fn the_line_above_results() {
    assert_eq!(results_header(0, "cat"), "No results found for: cat");
    assert_eq!(results_header(12, "cat"), "Found 12 result(s) for: cat\n");
}

#[test]
fn requests_to_delete() {
    let by_path = delete_request(Some(".*a".into()), None);
    assert_eq!(
        delete_report(&by_path, 3),
        "Deleted 3 document(s) matching path pattern: .*a"
    );
    let by_id = delete_request(None, Some(-4));
    assert_eq!(delete_report(&by_id, 1), "Deleted 1 document(s) with id: -4");
    let nothing = delete_request(None, None);
    assert!(matches!(nothing, DeleteRequest::Nothing));
    assert_eq!(
        delete_report(&nothing, 0),
        "Error: specify --path <regex> or --id <id> to delete documents"
    );
    let both = delete_request(Some("x".into()), Some(1));
    assert_eq!(delete_report(&both, 0), "Error: specify only one of --path or --id");
}

#[test]
fn the_program_for_recognition() {
    assert_eq!(tesseract_program(Some("a".into()), Some("b".into())), "a");
    assert_eq!(tesseract_program(None, Some("b".into())), "b");
    assert_eq!(tesseract_program(None, None), "tesseract");
}

#[test]
fn reports_of_recognition() {
    assert_eq!(ocr_report(2, None), "OCR processed 2 document(s)");
    assert_eq!(
        ocr_report(0, Some("out.jsonl")),
        "OCR processed 0 document(s), output written to out.jsonl"
    );
    assert_eq!(
        failed_report(&Vec::new()),
        strings(&["No permanently failed OCR items found."])
    );
    let jobs = vec![
        (1, "/a.pdf".to_string(), "c".to_string(), Some("blank".to_string())),
        (2, "/b.pdf".to_string(), "d".to_string(), None),
    ];
    assert_eq!(
        failed_report(&jobs),
        strings(&[
            "ID\tPath\tError",
            "1\t/a.pdf\tblank",
            "2\t/b.pdf\tunknown",
            "--- 2 permanently failed OCR item(s) ---",
        ])
    );
}

#[test]
fn codes_of_errors() {
    assert_eq!(error_str(FPDF_ERR_SUCCESS), "Success");
    assert_eq!(error_str(FPDF_ERR_FILE), "File not found or cannot be opened");
    assert_eq!(error_str(6), "Page does not exist or content error");
    assert_eq!(error_str(7), "Unrecognized PDFium error");
}

// --- Measurements ---

#[test]
fn a_document_with_its_table() {
    let mut pdf = vec![1, 2, 3];
    make_pdf(&mut pdf, r"a (b) \c");
    assert!(pdf.starts_with(b"%PDF-1.4\n1 0 obj\n"));
    assert!(pdf.ends_with(b"\n%%EOF\n"));
    let text = String::from_utf8(pdf.clone()).unwrap();
    assert!(text.contains(r"Td (a \(b\) \\c) Tj"));
    let drawing = r" BT /F1 12 Tf 100 700 Td (a \(b\) \\c) Tj ET ";
    assert!(text.contains(&format!("<< /Length {} >>", drawing.len())));
    let xref = find(&pdf, b"xref\n");
    assert!(text.ends_with(&format!("startxref\n{}\n%%EOF\n", xref)));
    for k in 1..=5 {
        let at = find(&pdf, format!("{} 0 obj\n", k).as_bytes());
        assert!(text[xref..].contains(&format!("{:010} 00000 n \n", at)), "object {}", k);
    }
}

#[test]
fn texts_of_documents() {
    let plain = bench_text(1);
    assert_eq!(plain.split(' ').count(), 50);
    assert!(plain.starts_with("computing machine learning"));
    assert!(bench_text(0).starts_with("quantum computing"));
    assert!(bench_text(0).len() > bench_text(29).len());
    assert!(!bench_text(29).contains('$'));
}

#[test]
fn what_is_measured() {
    assert_eq!(ITERATIONS, 30);
    assert_eq!(MeasuredSearch::Stem.label(), "stem");
    assert_eq!(
        MeasuredSearch::Basic.args("idx", 0),
        strings(&["search", "--index-path", "idx", "quantum"])
    );
    assert_eq!(
        MeasuredSearch::Fuzzy.args("idx", 8),
        strings(&["search", "--index-path", "idx", "--fuzzy", "2", "machine"])
    );
    assert_eq!(
        MeasuredSearch::Field.args("idx", 6),
        strings(&[
            "search",
            "--index-path",
            "idx",
            "--field",
            "normalized_text",
            "reinforcement"
        ])
    );
    assert_eq!(extract_args("d", "o", "b", "l", "i").join(" "), "extract -i d -o o -d b -l l --index-path i");
    assert_eq!(percentile_index(30, 50), 15);
    assert_eq!(percentile_index(30, 95), 28);
    assert_eq!(percentile_index(1, 99), 0);
}

#[test]
fn the_rate_that_was_logged() {
    let log = "\n  starting\n{\"avg_throughput\": 3}\r\n\
               [\"avg_throughput\"]\n{\"other\": \"1\"}\n\
               \t{\"level\": \"INFO\", \"avg_throughput\": \"12.50\"} \r\n\
               {\"avg_throughput\": \"7.00\"}";
    assert_eq!(logged_throughput(log).as_deref(), Some("12.50"));
    assert_eq!(logged_throughput("{\"avg_throughput\": \"\\u0031\"}").as_deref(), Some("1"));
    assert_eq!(logged_throughput("{\"fields\": {\"avg_throughput\": \"1\"}}"), None);
    assert_eq!(logged_throughput(""), None);
}

#[test]
fn the_first_text_of_a_list() {
    let text = |s: &str| Some(s.to_string());
    assert_eq!(first_found(vec![None, text("a"), None, text("b")]), text("a"));
    assert_eq!(first_found(vec![None, None]), None);
    assert_eq!(first_found(Vec::new()), None);
}
