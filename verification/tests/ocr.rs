use pdf_extractor::ocr::{
    apply_threshold, common_tesseract_paths, find_tesseract, histogram, ink_per_row, is_too_large,
    parse_worker_args, preprocessed_name, recognised_text, reply_of, tesseract_args,
    worker_command, worker_search_order, GrayPixels, OcrConfig, OcrError, ReplyReader, ReplyStep,
    TesseractPool, ToolRun, WorkerCommand,
};

fn strings(v: &[&str]) -> Vec<String> {
    v.iter().map(|s| s.to_string()).collect()
}

/// Feeds an answer to a reader, line by line.
fn read(answer: &str) -> Result<String, String> {
    let mut reader = ReplyReader::new();
    for line in answer.split('\n') {
        match reader.on_line(line) {
            ReplyStep::More => {}
            ReplyStep::Done => return Ok(reader.into_text()),
            ReplyStep::Failed(e) => return Err(e.message()),
        }
    }
    Err(OcrError::WorkerGone.message())
}

// --- Settings ---

#[test]
fn test_ocr_config_default() {
    let config = OcrConfig::default();
    assert_eq!(config.max_dim, 3000);
    assert_eq!(config.max_retries, 2);
    assert_eq!(config.tesseract_path, "tesseract");
    assert_eq!(config.language, "eng");
}

#[test]
fn test_ocr_config_custom() {
    let config = OcrConfig {
        tesseract_path: "/custom/tesseract".into(),
        max_dim: 2000,
        max_retries: 3,
        language: "por".into(),
    };
    assert_eq!(config.max_dim, 2000);
    assert_eq!(config.max_retries, 3);
    assert_eq!(config.language, "por");
}

#[test]
fn test_ocr_config_empty_language() {
    let config = OcrConfig { language: "".into(), ..Default::default() };
    assert_eq!(config.language, "", "Empty language should be accepted");
    let args = tesseract_args("page.png", &config.language);
    assert!(
        args.contains(&"-l".to_string()),
        "Should still pass -l flag even with empty lang"
    );
}

// --- The pool ---

#[test]
fn test_tesseract_pool_zero_workers() {
    let mut p = TesseractPool::<u32>::new(Vec::new());
    assert_eq!(p.worker_count(), 0);
    assert!(p.take_worker().is_none());
}

#[test]
fn test_tesseract_pool_create_one_worker() {
    let p = TesseractPool::new(vec!["worker"]);
    assert_eq!(p.worker_count(), 1);
}

#[test]
fn a_pool_gives_each_worker_once() {
    let mut p = TesseractPool::new(vec![1, 2, 3]);
    assert_eq!(p.take_worker(), Some(3));
    assert_eq!(p.take_worker(), Some(2));
    assert_eq!(p.worker_count(), 1);
    assert_eq!(p.take_worker(), Some(1));
    assert_eq!(p.take_worker(), None);
}

// --- The program ---

#[test]
fn test_find_tesseract_no_error() {
    let places = common_tesseract_paths();
    let none = vec![false; places.len()];
    assert_eq!(find_tesseract(&places, &none, None), None);
    assert_eq!(
        find_tesseract(&places, &none, Some("/somewhere/tesseract".into())),
        Some("/somewhere/tesseract".to_string())
    );
}

#[test]
fn the_first_place_goes_before_the_path() {
    let places = common_tesseract_paths();
    assert_eq!(places.len(), 5);
    let there = vec![false, false, true, true, false];
    assert_eq!(
        find_tesseract(&places, &there, Some("/somewhere/tesseract".into())),
        Some("/usr/bin/tesseract".to_string())
    );
}

#[test]
fn workers_are_looked_for_upwards_first() {
    let above = strings(&["/a/b", "/a", "/"]);
    assert_eq!(worker_search_order(above.clone(), None), above);
    assert_eq!(
        worker_search_order(above, Some("/bin".into())),
        strings(&["/a/b", "/a", "/", "/bin"])
    );
}

#[test]
fn arguments_of_the_program() {
    assert_eq!(
        tesseract_args("page.png", "por"),
        strings(&["page.png", "stdout", "-l", "por", "--psm", "3"])
    );
}

#[test]
fn each_end_of_a_run() {
    let ok = ToolRun::Succeeded { stdout: Some("  two words \n".into()) };
    assert_eq!(recognised_text(&ok).unwrap(), "two words");
    let broken = ToolRun::Succeeded { stdout: None };
    assert_eq!(
        recognised_text(&broken).unwrap_err().message(),
        "Tesseract output is not valid UTF-8"
    );
    let failed = ToolRun::Failed { stderr: " no such image\n".into() };
    assert_eq!(
        recognised_text(&failed).unwrap_err().message(),
        "Tesseract exited with error: no such image"
    );
    let absent = ToolRun::NotStarted { program: "tess".into() };
    assert_eq!(
        recognised_text(&absent).unwrap_err().message(),
        "Failed to run Tesseract. Is 'tess' installed?"
    );
}

// --- Workers ---

#[test]
fn options_of_a_worker() {
    let parsed = |v: &[&str]| parse_worker_args(&strings(v));
    assert_eq!(parsed(&[]), ("tesseract".to_string(), "eng".to_string()));
    assert_eq!(
        parsed(&["--tesseract-path", "/t", "--lang", "por"]),
        ("/t".to_string(), "por".to_string())
    );
    assert_eq!(parsed(&["x", "--lang"]), ("tesseract".to_string(), "eng".to_string()));
    assert_eq!(
        parsed(&["--lang", "a", "--lang", "b"]),
        ("tesseract".to_string(), "b".to_string())
    );
}

#[test]
fn commands_of_a_worker() {
    assert!(matches!(worker_command("\n"), WorkerCommand::Stop));
    assert!(matches!(worker_command(" EXIT \n"), WorkerCommand::Stop));
    match worker_command("/a b.png\n") {
        WorkerCommand::Recognise { path } => assert_eq!(path, "/a b.png"),
        WorkerCommand::Stop => panic!("a path asks for recognition"),
    }
}

#[test]
fn test_worker_process_mock() {
    let run = ToolRun::Succeeded { stdout: Some("Mock OCR text\n".into()) };
    let text = read(&reply_of(&run, "")).unwrap();
    assert!(text.contains("Mock OCR text"), "Worker should return mock output, got: {}", text);
}

#[test]
fn test_worker_process_tesseract_error() {
    let run = ToolRun::Failed { stderr: "exit 1".into() };
    let msg = read(&reply_of(&run, "")).unwrap_err();
    assert!(msg.contains("Worker error:"), "Error should mention worker failure, got: {}", msg);
    assert_eq!(msg, "Worker error: exit 1");
}

#[test]
fn what_a_worker_writes_is_read() {
    let run = ToolRun::Succeeded { stdout: Some("one\n  two\n\nthree\n".into()) };
    let reply = reply_of(&run, "");
    assert_eq!(reply, "one\n  two\n\nthree\n---END---\n");
    assert_eq!(read(&reply).unwrap(), "one\ntwo\n\nthree");

    let absent = ToolRun::NotStarted { program: "t".into() };
    assert_eq!(reply_of(&absent, "not there"), "ERROR:not there\n---END---\n");
    assert_eq!(read(&reply_of(&absent, "not there")).unwrap_err(), "Worker error: not there");

    let nothing = ToolRun::Succeeded { stdout: None };
    assert_eq!(reply_of(&nothing, ""), "\n---END---\n");
    assert_eq!(read("half an ans").unwrap_err(), "Worker process exited unexpectedly");
}

#[test]
fn a_first_empty_line_of_an_answer_is_dropped() {
    assert_eq!(read("\nword\n---END---\n").unwrap(), "word");
}

// --- Pixels ---

#[test]
fn shades_above_the_threshold_are_white() {
    let img = GrayPixels { width: 2, height: 2, data: vec![0, 128, 129, 255] };
    let out = apply_threshold(&img, 128);
    assert_eq!((out.width, out.height), (2, 2));
    assert_eq!(out.data, vec![0, 0, 255, 255]);
}

#[test]
fn shades_are_counted() {
    let img = GrayPixels { width: 3, height: 1, data: vec![7, 0, 7] };
    let h = histogram(&img);
    assert_eq!(h.len(), 256);
    assert_eq!((h[0], h[7], h[8]), (1, 2, 0));
    assert_eq!(h.iter().sum::<u64>(), 3);
}

#[test]
fn ink_is_counted_row_by_row() {
    let img = GrayPixels { width: 3, height: 2, data: vec![0, 255, 0, 255, 255, 0] };
    assert_eq!(ink_per_row(&img), vec![2, 1]);
    let empty = GrayPixels { width: 0, height: 2, data: Vec::new() };
    assert_eq!(ink_per_row(&empty), vec![0, 0]);
}

#[test]
fn either_side_makes_a_picture_too_large() {
    assert!(!is_too_large(3000, 3000, 3000));
    assert!(is_too_large(3001, 1, 3000));
    assert!(is_too_large(1, 3001, 3000));
}

#[test]
fn the_name_of_a_prepared_picture() {
    assert_eq!(preprocessed_name("page"), "page_preprocessed.png");
}
