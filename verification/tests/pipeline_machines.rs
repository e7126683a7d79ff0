use pdf_extractor::extractor::WordPosition;
use pdf_extractor::indexer::align_offsets_to_tantivy;
use pdf_extractor::output::DocumentRecord;
use pdf_extractor::pipeline::distribute::ExtractorTask;
use pdf_extractor::pipeline::extraction::{
    given_up_message, DrainAction, Drained, ExtractionWorker, GivenUp, WorkerAction, WorkerPhase,
};
use pdf_extractor::pipeline::indexing::{settle_batch, words_to_store, DoneJob, IndexerState};
use pdf_extractor::pipeline::report::{
    describe_exit_code, final_state, format_batch_dist, format_exit_code, format_uptime,
    get_pdf_page_count, page_count_of, process_line, worker_launch_failed_message,
    worker_not_found_message, worker_summary, WorkerExit,
};
use pdf_extractor::pipeline::run::{
    document_text, indexer_failed_message, mutool_draw_args, next_ocr_batch, no_worker_message,
    page_file, pdftoppm_args, progress_due, start_run, Consumer, ConsumerAction, ConsumerEvent,
    ConsumerPhase, OcrOutcome, OcrTally, Start,
};
use pdf_extractor::positions::PositionStore;
use pdf_extractor::scanner::jobs::JobStore;
use pdf_extractor::worker_ipc::{WorkerFrame, WorkerOutput};
use std::collections::HashSet;

fn task(id: i64) -> ExtractorTask {
    ExtractorTask { id, path: format!("/{}.pdf", id), checksum: format!("c{}", id) }
}

fn tasks(ids: &[i64]) -> Vec<ExtractorTask> {
    ids.iter().map(|&id| task(id)).collect()
}

fn success(path: &str) -> WorkerFrame {
    WorkerFrame::Success(WorkerOutput {
        path: path.to_string(),
        checksum: "sum".to_string(),
        ocr_flag: false,
        text: "text".to_string(),
        word_positions: Vec::new(),
        file_extraction_ms: 5,
        page_count: 2,
    })
}

fn failure(path: &str) -> WorkerFrame {
    WorkerFrame::Error { path: path.to_string(), message: "bad file".to_string() }
}

fn record(id: i64, words: usize) -> DocumentRecord {
    let word = |i: usize| WordPosition {
        page: 1,
        x_min: 0,
        y_min: 0,
        x_max: 0,
        y_max: 0,
        text: format!("w{}", i),
    };
    DocumentRecord {
        id,
        path: format!("/{}.pdf", id),
        checksum: format!("c{}", id),
        ocr_flag: id % 2 == 0,
        text: "text".to_string(),
        word_positions: (0..words).map(word).collect(),
        file_extraction_ms: 0,
        page_count: 1,
    }
}

// --- The conversation with a worker ---

/// A conversation in which the paths of a batch have been written.
fn reading(ids: &[i64]) -> ExtractionWorker {
    let mut w = ExtractionWorker::new();
    assert!(matches!(w.on_batch(tasks(ids), false), WorkerAction::Poll));
    for i in 0..ids.len() {
        assert!(matches!(w.on_poll(false), WorkerAction::Write { task } if task == i));
        assert!(matches!(w.on_written(true), WorkerAction::Poll));
    }
    w
}

#[test]
fn a_batch_is_written_then_read() {
    let mut w = reading(&[1, 2]);
    assert!(matches!(w.on_poll(false), WorkerAction::Read));
    let sent = w.on_frame(Some(success("/other.pdf")));
    assert!(matches!(sent, WorkerAction::Send(r) if r.id == 1 && r.path == "/other.pdf"));
    assert!(matches!(w.on_sent(true), WorkerAction::Poll));
    assert!(matches!(w.on_poll(false), WorkerAction::Read));
    let marked = w.on_frame(Some(failure("/2.pdf")));
    assert!(matches!(marked, WorkerAction::MarkError { id: 2, message } if message == "bad file"));
    assert!(matches!(w.on_marked(), WorkerAction::Collect));
    assert_eq!((w.files_ok, w.files_err, w.batch_count), (1, 1, 1));
    assert!(matches!(
        w.on_batch(Vec::new(), false),
        WorkerAction::Stop(p) if !p.kill && !p.drain && p.failed.is_empty()
    ));
}

#[test]
fn a_crash_leaves_the_rest() {
    let mut w = reading(&[1, 2, 3]);
    w.on_poll(false);
    w.on_frame(Some(success("/1.pdf")));
    w.on_sent(true);
    w.on_poll(false);
    let stop = w.on_frame(None);
    assert!(matches!(
        stop,
        WorkerAction::Stop(p)
            if !p.kill && p.drain && p.failed.is_empty() && p.reason.is_none()
    ));
    w.on_drained(4);
    assert_eq!(w.files_err, 4);
    assert_eq!(w.phase, WorkerPhase::Stopped);
}

#[test]
fn a_cancelled_run_kills_the_worker() {
    let mut w = ExtractionWorker::new();
    assert!(matches!(
        w.on_batch(tasks(&[1]), true),
        WorkerAction::Stop(p) if p.kill && !p.drain && p.failed.is_empty()
    ));
    let mut w = ExtractionWorker::new();
    w.on_batch(tasks(&[1]), false);
    assert!(matches!(
        w.on_poll(true),
        WorkerAction::Stop(p) if p.kill && !p.drain && p.failed.is_empty()
    ));
    let mut w = reading(&[1, 2]);
    assert!(matches!(
        w.on_poll(true),
        WorkerAction::Stop(p)
            if p.kill && p.drain && p.failed == vec![1, 2] && p.reason == Some(GivenUp::Cancelled)
    ));
}

#[test]
fn a_worker_that_takes_no_paths_is_let_go() {
    let mut w = ExtractionWorker::new();
    w.on_batch(tasks(&[1, 2]), false);
    w.on_poll(false);
    assert!(matches!(
        w.on_written(false),
        WorkerAction::Stop(p) if !p.kill && p.drain && p.failed.is_empty()
    ));
}

#[test]
fn a_run_that_takes_no_records_gives_up_the_rest() {
    let mut w = reading(&[1, 2]);
    w.on_poll(false);
    w.on_frame(Some(success("/1.pdf")));
    assert!(matches!(
        w.on_sent(false),
        WorkerAction::Stop(p)
            if p.failed == vec![1, 2] && p.reason == Some(GivenUp::PipelineDisconnected)
    ));
    assert_eq!(given_up_message(GivenUp::Cancelled), "cancelled");
    assert_eq!(given_up_message(GivenUp::PipelineDisconnected), "pipeline disconnected");
}

#[test]
fn late_answers_go_by_their_paths() {
    let batch = tasks(&[1, 2]);
    let mut d = Drained::new();
    assert!(matches!(d.on_frame(&batch, success("/2.pdf")), DrainAction::Forward(r) if r.id == 2));
    assert!(matches!(
        d.on_frame(&batch, failure("/1.pdf")),
        DrainAction::MarkError { id: 1, message } if message == "bad file"
    ));
    assert!(matches!(d.on_frame(&batch, success("/9.pdf")), DrainAction::Ignore));
    assert_eq!((d.ok, d.err), (1, 1));
}

#[test]
fn tasks_without_answer_are_done_again_after_a_crash() {
    let mut jobs = JobStore::open_in_memory();
    for path in ["/1.pdf", "/2.pdf", "/3.pdf"] {
        jobs.mark_pending(path).unwrap();
    }
    assert_eq!(jobs.claim_pending(3).len(), 3);
    let batch = tasks(&[1, 2, 3]);
    let mut d = Drained::new();
    let mut sent = Vec::new();
    for frame in [success("/2.pdf"), failure("/1.pdf")] {
        match d.on_frame(&batch, frame) {
            DrainAction::Forward(r) => sent.push(r.id),
            DrainAction::MarkError { id, message } => jobs.mark_error(id, &message),
            DrainAction::Ignore => panic!("the paths are those of the batch"),
        }
    }
    assert_eq!(sent, vec![2]);
    assert_eq!(jobs.count_by_status("error"), 1);
    assert_eq!(jobs.count_by_status("extracting"), 2);
    jobs.reprocess_extracting();
    let again: Vec<i64> = jobs.fetch_pending(9).iter().map(|j| j.0).collect();
    assert_eq!(again, vec![2, 3]);
}

// --- The indexer ---

#[test]
fn a_full_buffer_is_flushed() {
    let mut s = IndexerState::new(2, 3, 30);
    assert!(s.on_record(record(1, 0)).is_none());
    let batch = s.on_record(record(2, 1)).unwrap();
    assert_eq!(batch.iter().map(|r| r.id).collect::<Vec<_>>(), vec![1, 2]);
    let f = settle_batch(&batch, &vec![true, true]);
    assert_eq!(f.to_align, vec![1]);
    s.on_flushed(batch.len(), f.done);
    assert!(!s.should_commit(0));
    assert!(!s.should_commit(30_000_000_000));
    assert!(s.should_commit(30_000_000_001));
    assert!(s.on_commit(false).is_empty());
    let marked: Vec<DoneJob> = s.on_commit(true);
    let marked: Vec<(i64, bool, String)> =
        marked.into_iter().map(|d| (d.id, d.ocr_flag, d.checksum)).collect();
    assert_eq!(marked, vec![(1, false, "c1".to_string()), (2, true, "c2".to_string())]);
    assert!(s.on_end().is_none());
    s.on_record(record(3, 0));
    assert_eq!(s.on_end().unwrap().len(), 1);
}

#[test]
fn a_document_that_was_not_added_is_not_done() {
    let batch = vec![record(1, 1), record(2, 1)];
    let f = settle_batch(&batch, &vec![false, true]);
    assert_eq!(f.done.iter().map(|d| d.id).collect::<Vec<_>>(), vec![2]);
    assert_eq!(f.to_align, vec![1]);
}

#[test]
fn words_without_text_are_not_stored() {
    let mut r = record(7, 3);
    r.word_positions[1].text.clear();
    let (id, words) = words_to_store(&r).unwrap();
    let words: Vec<(usize, &str)> = words.iter().map(|(at, w)| (*at, w.text.as_str())).collect();
    assert_eq!((id, words), (7, vec![(0, "w0"), (1, "w2")]));
    let mut empty = record(8, 1);
    empty.word_positions[0].text.clear();
    assert!(words_to_store(&empty).is_none());
    assert!(words_to_store(&record(9, 0)).is_none());
}

#[test]
fn bench_flush_batch() {
    let n: usize = 100;
    let words_per_doc: usize = 500;
    let lorem = "lorem ipsum dolor sit amet consectetur adipiscing elit sed do eiusmod tempor";
    let words: Vec<&str> = lorem.split_whitespace().collect();
    let batch: Vec<DocumentRecord> = (0..n as i64)
        .map(|id| {
            let mut text = String::new();
            let mut word_positions = Vec::new();
            for i in 0..words_per_doc {
                let word = words[i % words.len()];
                if !text.is_empty() {
                    text.push(' ');
                }
                text.push_str(word);
                let x_min = 50.0 + (i % 8) as f32 * 70.0;
                let y_min = 750.0 - ((i % 250) / 8) as f32 * 15.0;
                word_positions.push(WordPosition {
                    page: 1 + (i / 250) as u32,
                    x_min: x_min.to_bits(),
                    y_min: y_min.to_bits(),
                    x_max: (x_min + 60.0).to_bits(),
                    y_max: (y_min + 12.0).to_bits(),
                    text: word.to_string(),
                });
            }
            DocumentRecord {
                id,
                path: format!("/doc_{}.pdf", id),
                checksum: format!("cs{}", id),
                ocr_flag: false,
                text,
                word_positions,
                file_extraction_ms: 0,
                page_count: 20,
            }
        })
        .collect();
    let added = vec![true; n];
    let flushed = settle_batch(&batch, &added);
    assert_eq!(flushed.done.len(), n);
    let items: Vec<(i64, Vec<(usize, &WordPosition)>)> = flushed
        .to_align
        .iter()
        .map(|&i| {
            let r = &batch[i];
            (r.id, align_offsets_to_tantivy(&r.text, &r.word_positions))
        })
        .collect();
    let mut store = PositionStore::open_in_memory();
    store.store_positions_batch(&items).unwrap();
    assert_eq!(store.count_positions(99).unwrap(), words_per_doc);
}

// --- The run ---

#[test]
fn a_run_needs_work_and_a_worker() {
    assert_eq!(start_run(0, &None), Start::NothingToDo);
    assert_eq!(start_run(3, &None), Start::NoWorker);
    assert_eq!(start_run(3, &Some("worker".to_string())), Start::Go);
    assert!(no_worker_message().to_lowercase().contains("worker_path"));
    assert!(indexer_failed_message().starts_with("Indexer failed to initialize"));
}

#[test]
fn progress_is_reported_in_steps_and_at_the_end() {
    assert_eq!(progress_due(49, 0, 100), None);
    assert_eq!(progress_due(49, 1, 100), Some(50));
    assert_eq!(progress_due(97, 3, 100), Some(100));
    assert_eq!(progress_due(7, 0, 7), Some(7));
}

#[test]
fn a_consumer_that_is_not_cancelled_joins_once() {
    let mut c = Consumer::new();
    let record = ConsumerEvent::Record { cancelled: false };
    assert_eq!(c.step(record), ConsumerAction::ProcessThenReceive);
    assert_eq!(c.step(record), ConsumerAction::ProcessThenReceive);
    assert_eq!(c.step(ConsumerEvent::End), ConsumerAction::Ask);
    assert_eq!(c.step(ConsumerEvent::Asked { cancelled: false }), ConsumerAction::Join);
    assert_eq!(c.step(ConsumerEvent::Joined), ConsumerAction::Close);
    assert_eq!(c.phase, ConsumerPhase::Closing);
}

#[test]
fn a_cancelled_consumer_drains_twice() {
    let mut c = Consumer::new();
    assert_eq!(c.step(ConsumerEvent::Record { cancelled: true }), ConsumerAction::Ask);
    assert_eq!(c.step(ConsumerEvent::Asked { cancelled: true }), ConsumerAction::Try);
    let late = ConsumerEvent::Record { cancelled: true };
    assert_eq!(c.step(late), ConsumerAction::ProcessThenTry);
    assert_eq!(c.step(ConsumerEvent::Empty), ConsumerAction::Join);
    assert_eq!(c.step(ConsumerEvent::Joined), ConsumerAction::Try);
    assert_eq!(c.step(late), ConsumerAction::ProcessThenTry);
    assert_eq!(c.step(ConsumerEvent::Empty), ConsumerAction::Close);
}

// --- Recognition of text ---

/// A table with one document that needs recognition.
fn scanned() -> (JobStore, i64) {
    let mut jobs = JobStore::open_in_memory();
    jobs.upsert_file("/scan.pdf", "cs").unwrap();
    let id = jobs.get_id_by_path("/scan.pdf").unwrap();
    jobs.mark_done(id, true);
    (jobs, id)
}

#[test]
fn a_document_is_sent_once_for_recognition() {
    let (jobs, id) = scanned();
    let mut sent = HashSet::new();
    let first = next_ocr_batch(&jobs, &mut sent, 3).unwrap();
    assert_eq!(first, vec![(id, "/scan.pdf".to_string(), "cs".to_string())]);
    assert_eq!(next_ocr_batch(&jobs, &mut sent, 3), Some(Vec::new()));
    assert_eq!(next_ocr_batch(&jobs, &mut sent, 0), None);
}

#[test]
fn recognition_is_recorded_with_the_job() {
    let (mut jobs, id) = scanned();
    let mut tally = OcrTally::new();
    assert_eq!(tally.on_text(&mut jobs, id, "", false, 2, 10), OcrOutcome::Failed);
    assert_eq!(jobs.count_ocr_pending(2), 1);
    assert_eq!(tally.on_text(&mut jobs, id, "text", true, 2, 11), OcrOutcome::Stop);
    assert_eq!(jobs.count_ocr_pending(2), 1);
    assert_eq!(tally.on_text(&mut jobs, id, "text", false, 2, 12), OcrOutcome::Indexed);
    assert_eq!(jobs.count_ocr_pending(2), 0);
    assert_eq!((tally.processed, tally.errored), (1, 1));
}

#[test]
fn a_document_has_the_texts_of_its_pages() {
    let pages = vec![None, Some("one".to_string()), Some(String::new()), Some("two".to_string())];
    assert_eq!(document_text(&pages), Some("one\ntwo".to_string()));
    assert_eq!(document_text(&vec![None, Some(String::new())]), None);
}

#[test]
fn pages_are_drawn_with_these_arguments() {
    assert_eq!(page_file(12), "page-12");
    assert_eq!(
        mutool_draw_args("/a.pdf", 3, "/t/page-3.png"),
        vec!["draw", "-o", "/t/page-3.png", "-r", "300", "/a.pdf", "3"]
    );
    assert_eq!(
        pdftoppm_args("/a.pdf", 3, "/t/page-3"),
        vec!["-r", "300", "-gray", "-f", "3", "-l", "3", "-singlefile", "/a.pdf", "/t/page-3"]
    );
}

#[test]
fn the_first_tool_that_knows_counts_the_pages() {
    let out = |s: &str| Some(s.to_string());
    assert_eq!(get_pdf_page_count(out("Pages: 4\n"), out("Pages: 5\n")), 4);
    assert_eq!(get_pdf_page_count(out("nothing"), out("Pages: 5\n")), 5);
    assert_eq!(get_pdf_page_count(None, None), 1);
    assert_eq!(page_count_of(out("007")), Some(7));
    assert_eq!(page_count_of(out("0")), None);
    assert_eq!(page_count_of(out("4294967296")), None);
}

// --- Reports ---

#[test]
fn reports_read_like_this() {
    assert_eq!(format_uptime(59), "59s");
    assert_eq!(format_uptime(60), "1m00s");
    assert_eq!(format_uptime(3725), "62m05s");
    assert_eq!(format_batch_dist(&[5, 2, 3]), "[5/2/3]");
    assert_eq!(format_batch_dist(&[8]), "[8]");
    assert_eq!(format_batch_dist(&[0, 0, 0]), "[0/0/0]");
    assert_eq!(format_batch_dist(&[]), "[]");
    assert_eq!(worker_not_found_message("/w"), "worker not found: /w");
    assert_eq!(worker_launch_failed_message("/w", "no"), "worker launch failed [/w]: no");
    assert_eq!(process_line("extract-0", 7, "running", "?", ""), "PROC|extract-0|7|running|?|");
    assert_eq!(worker_summary(3, 1, 61, "  "), "3 ok, 1 err, uptime 1m01s");
    assert_eq!(worker_summary(0, 0, 5, " oops\n"), "0 ok, 0 err, uptime 5s | stderr: oops");
    let long = "e".repeat(121);
    assert_eq!(
        worker_summary(0, 0, 5, &long),
        format!("0 ok, 0 err, uptime 5s | stderr: {}", "e".repeat(120))
    );
}

#[test]
fn exit_codes_are_described() {
    assert_eq!(describe_exit_code(-1073741819, true), "0xC0000005 ACCESS_VIOLATION (segfault)");
    assert_eq!(describe_exit_code(255, true), "0x000000FF");
    assert_eq!(describe_exit_code(-1, false), "-1");
    assert_eq!(format_exit_code(3, true), "exited(3)");
    assert_eq!(
        format_exit_code(-1073741571, true),
        "exited(0xC00000FD)"
    );
    assert_eq!(format_exit_code(-1073741819, false), "exited(-1073741819)");
    assert_eq!(final_state(WorkerExit::WaitFailed, true), "crashed");
    assert_eq!(final_state(WorkerExit::Normal, true), "exited(0)");
    assert_eq!(final_state(WorkerExit::Code(9), false), "exited(9)");
}
