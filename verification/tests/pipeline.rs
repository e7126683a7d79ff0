use pdf_extractor::pipeline::config::{
    align_threads_on, resolve_ocr_workers, resolve_ocr_workers_on, PipelineConfig,
    DEFAULT_COMMIT_INTERVAL, DEFAULT_COMMIT_TIMEOUT_SECS, DEFAULT_INDEXER_BATCH_SIZE,
    RESERVOIR_FACTOR,
};
use pdf_extractor::pipeline::distribute::{plan_claim, scan_round, ExtractorTask, PendingJob};
use pdf_extractor::pipeline::report::extract_page_count_from_stdout;
use pdf_extractor::pipeline::run::{deduplicate_ocr_batch, with_scratch_buf};
use pdf_extractor::scanner::jobs::JobStore;
use pdf_extractor::worker_ipc::{read_frame, write_frame, WorkerFrame, WorkerOutput};
use std::collections::HashSet;

/// Hands documents out, and gives for each worker the sum of sizes and the
/// number of documents.
fn distribute(docs: &[(i64, i64)], workers: usize) -> Vec<(i64, usize)> {
    let jobs: Vec<PendingJob> = docs
        .iter()
        .map(|&(id, size)| PendingJob {
            id,
            path: format!("/{}.pdf", id),
            checksum: String::new(),
            size,
        })
        .collect();
    let round = scan_round(workers, Vec::new(), jobs).unwrap();
    let size_of = |id: i64| docs.iter().find(|d| d.0 == id).unwrap().1;
    round
        .batches
        .iter()
        .map(|b| (b.iter().map(|t| size_of(t.id)).sum(), b.len()))
        .collect()
}

#[test]
fn test_dedup_ocr_batch_all_new() {
    let batch = vec![
        (1, "a.pdf".into(), "aaa".into()),
        (2, "b.pdf".into(), "bbb".into()),
        (3, "c.pdf".into(), "ccc".into()),
    ];
    let mut sent = HashSet::new();
    let result = deduplicate_ocr_batch(batch, &mut sent);
    assert_eq!(result.len(), 3);
    assert!(sent.contains(&1));
    assert!(sent.contains(&2));
    assert!(sent.contains(&3));
}

#[test]
fn test_dedup_ocr_batch_partial_duplicates() {
    let batch = vec![
        (1, "a.pdf".into(), "aaa".into()),
        (2, "b.pdf".into(), "bbb".into()),
        (1, "a.pdf".into(), "aaa".into()),
        (3, "c.pdf".into(), "ccc".into()),
        (2, "b.pdf".into(), "bbb".into()),
    ];
    let mut sent = HashSet::new();
    let result = deduplicate_ocr_batch(batch, &mut sent);
    assert_eq!(result.len(), 3, "should only return unique IDs");
    assert_eq!(result[0].0, 1);
    assert_eq!(result[1].0, 2);
    assert_eq!(result[2].0, 3);
}

#[test]
fn test_dedup_ocr_batch_all_already_sent() {
    let mut sent = HashSet::from([1, 2, 3]);
    let batch = vec![
        (1, "a.pdf".into(), "aaa".into()),
        (2, "b.pdf".into(), "bbb".into()),
    ];
    let result = deduplicate_ocr_batch(batch, &mut sent);
    assert!(result.is_empty(), "no new jobs to send");
}

#[test]
fn test_dedup_ocr_batch_empty_batch() {
    let mut sent = HashSet::new();
    let result = deduplicate_ocr_batch(vec![], &mut sent);
    assert!(result.is_empty());
}

#[test]
fn test_dedup_ocr_batch_preserves_path_and_checksum() {
    let batch = vec![(
        1i64,
        "/path/to/doc.pdf".into(),
        "deadbeef12345678".into(),
    )];
    let mut sent = HashSet::new();
    let result = deduplicate_ocr_batch(batch, &mut sent);
    assert_eq!(result.len(), 1);
    assert_eq!(result[0].1, "/path/to/doc.pdf");
    assert_eq!(result[0].2, "deadbeef12345678");
}

#[test]
fn test_dedup_ocr_batch_mixed_insertion_after_send() {
    let batch = vec![(1, "x.pdf".into(), "x".into())];
    let mut sent = HashSet::new();
    let r1 = deduplicate_ocr_batch(batch, &mut sent);
    assert_eq!(r1.len(), 1);
    let r2 = deduplicate_ocr_batch(vec![(1, "x.pdf".into(), "x".into())], &mut sent);
    assert!(r2.is_empty(), "ID 1 was already sent");
}

#[test]
fn test_extract_page_count_basic_mutool_format() {
    let output = "PDF 1.7\nPages: 5\nSome other metadata\n";
    assert_eq!(extract_page_count_from_stdout(output), Some(5));
}

#[test]
fn test_extract_page_count_basic_pdfinfo_format() {
    let output = "Creator: foo\nProducer: bar\nPages: 12\nFile size: 1234\n";
    assert_eq!(extract_page_count_from_stdout(output), Some(12));
}

#[test]
fn test_extract_page_count_single_page() {
    assert_eq!(extract_page_count_from_stdout("Pages: 1\n"), Some(1));
}

#[test]
fn test_extract_page_count_zero_is_rejected() {
    assert_eq!(extract_page_count_from_stdout("Pages: 0\n"), None);
}

#[test]
fn test_extract_page_count_no_pages_line() {
    let output = "Title: Untitled\nAuthor: nobody\n";
    assert_eq!(extract_page_count_from_stdout(output), None);
}

#[test]
fn test_extract_page_count_empty_output() {
    assert_eq!(extract_page_count_from_stdout(""), None);
}

#[test]
fn test_extract_page_count_malformed_number() {
    let output = "Pages: abc\n";
    assert_eq!(extract_page_count_from_stdout(output), None);
}

#[test]
fn test_extract_page_count_case_sensitive() {
    // regex is case-sensitive; lowercase "pages:" should not match
    assert_eq!(extract_page_count_from_stdout("pages: 3\n"), None);
}

#[test]
fn test_resolve_workers_uses_override() {
    assert_eq!(resolve_ocr_workers(Some(5)), 5);
}

#[test]
fn test_resolve_workers_clamps_zero_to_one() {
    assert_eq!(resolve_ocr_workers(Some(0)), 1);
}

#[test]
fn test_resolve_workers_accepts_large_value() {
    assert_eq!(resolve_ocr_workers(Some(100)), 100);
}

#[test]
fn test_resolve_workers_fallback_at_least_one() {
    // None → auto-detect; even on a 1-core machine the result should be ≥1
    let result = resolve_ocr_workers(None);
    assert!(result >= 1, "Auto-detect should yield at least 1 worker, got {}", result);
}

#[test]
fn test_pipeline_config_default_extract_workers() {
    let cfg = PipelineConfig::default();
    let workers = cfg.extract_workers();
    assert!(workers >= 1, "Default workers should be ≥1, got {}", workers);
}

#[test]
fn test_pipeline_config_custom_extract_workers() {
    let cfg = PipelineConfig {
        num_extract_workers: Some(4),
        ..Default::default()
    };
    assert_eq!(cfg.extract_workers(), 4);
}

#[test]
fn test_pipeline_config_extract_workers_clamps_zero() {
    let cfg = PipelineConfig {
        num_extract_workers: Some(0),
        ..Default::default()
    };
    assert_eq!(cfg.extract_workers(), 1, "Zero workers should clamp to 1");
}

#[test]
fn test_pipeline_config_default_indexer_batch() {
    let cfg = PipelineConfig::default();
    assert_eq!(cfg.indexer_batch(), DEFAULT_INDEXER_BATCH_SIZE);
}

#[test]
fn test_pipeline_config_custom_indexer_batch() {
    let cfg = PipelineConfig {
        indexer_batch_size: Some(100),
        ..Default::default()
    };
    assert_eq!(cfg.indexer_batch(), 100);
}

#[test]
fn test_pipeline_config_indexer_batch_clamps_zero() {
    let cfg = PipelineConfig {
        indexer_batch_size: Some(0),
        ..Default::default()
    };
    assert_eq!(cfg.indexer_batch(), 1, "Zero batch should clamp to 1");
}

#[test]
fn test_pipeline_config_default_commit_interval() {
    let cfg = PipelineConfig::default();
    assert_eq!(cfg.commit_int(), DEFAULT_COMMIT_INTERVAL);
}

#[test]
fn test_pipeline_config_custom_commit_interval() {
    let cfg = PipelineConfig {
        commit_interval: Some(1000),
        ..Default::default()
    };
    assert_eq!(cfg.commit_int(), 1000);
}

#[test]
fn test_pipeline_config_commit_interval_clamps_zero() {
    let cfg = PipelineConfig {
        commit_interval: Some(0),
        ..Default::default()
    };
    assert_eq!(cfg.commit_int(), 1, "Zero interval should clamp to 1");
}

#[test]
fn test_pipeline_config_default_commit_timeout() {
    let cfg = PipelineConfig::default();
    assert_eq!(cfg.commit_to(), DEFAULT_COMMIT_TIMEOUT_SECS);
}

#[test]
fn test_pipeline_config_custom_commit_timeout() {
    let cfg = PipelineConfig {
        commit_timeout: Some(60),
        ..Default::default()
    };
    assert_eq!(cfg.commit_to(), 60);
}

#[test]
fn test_pipeline_config_commit_timeout_clamps_zero() {
    let cfg = PipelineConfig {
        commit_timeout: Some(0),
        ..Default::default()
    };
    assert_eq!(cfg.commit_to(), 1, "Zero timeout should clamp to 1");
}

#[test]
fn test_pipeline_config_default_indexer_threads() {
    let cfg = PipelineConfig::default();
    assert!(cfg.indexer_threads() >= 1, "Default indexer threads should be ≥1, got {}", cfg.indexer_threads());
}

#[test]
fn test_pipeline_config_custom_indexer_threads() {
    let cfg = PipelineConfig {
        num_indexer_threads: Some(4),
        ..Default::default()
    };
    assert_eq!(cfg.indexer_threads(), 4);
}

#[test]
fn test_pipeline_config_indexer_threads_clamps_zero() {
    let cfg = PipelineConfig {
        num_indexer_threads: Some(0),
        ..Default::default()
    };
    assert_eq!(cfg.indexer_threads(), 1, "Zero indexer threads should clamp to 1");
}

#[test]
fn test_reservoir_size_default() {
    let cfg = PipelineConfig::default();
    let workers = cfg.extract_workers();
    assert_eq!(cfg.reservoir_size(), std::cmp::min(200, workers * RESERVOIR_FACTOR));
}

#[test]
fn test_reservoir_size_capped_at_200() {
    let cfg = PipelineConfig {
        num_extract_workers: Some(100),
        ..Default::default()
    };
    assert_eq!(cfg.reservoir_size(), 200);
}

#[test]
fn test_with_scratch_buf_basic_write_and_read() {
    let mut scratch: Vec<String> = Vec::new();
    let result = with_scratch_buf(&mut scratch, |buf: &mut Vec<String>| {
        buf.push("hello".to_string());
        buf.push("world".to_string());
        buf.len()
    });
    assert_eq!(result, 2);
}

#[test]
fn test_with_scratch_buf_clears_between_calls() {
    let mut scratch: Vec<String> = Vec::new();
    with_scratch_buf(&mut scratch, |buf: &mut Vec<String>| {
        buf.push("data".to_string());
    });
    let len = with_scratch_buf(&mut scratch, |buf: &mut Vec<String>| {
        buf.len()
    });
    assert_eq!(len, 0, "Buffer should be cleared after each call");
}

#[test]
fn test_with_scratch_buf_shrink_large_capacity() {
    let mut scratch: Vec<String> = Vec::new();
    with_scratch_buf(&mut scratch, |buf: &mut Vec<String>| {
        let mut large = String::with_capacity(2_000_000);
        large.push_str("x");
        buf.push(large);
    });
    with_scratch_buf(&mut scratch, |buf: &mut Vec<String>| {
        assert!(buf.capacity() <= 64_000, "Buffer should be shrunk after large allocation");
    });
}

#[test]
fn test_with_scratch_buf_keeps_small_capacity() {
    let mut scratch: Vec<String> = Vec::new();
    with_scratch_buf(&mut scratch, |buf: &mut Vec<String>| {
        buf.push("small".to_string());
    });
    with_scratch_buf(&mut scratch, |buf: &mut Vec<String>| {
        assert!(buf.capacity() < 1_000_000 || buf.capacity() <= 64_000);
    });
}

#[test]
fn test_heap_distribution_balances_mb() {
    // 4 workers, docs: [100, 80, 60, 40, 20, 10] MB
    // Heap greedy assigns: W0=100, W1=80, W2=60+10=70, W3=40+20=60
    // Round-robin would give: W0=100+40=140, W1=80+20=100, W2=60+10=70, W3=0
    // Heap greedy spread = 100-60 = 40 vs round-robin = 140-0 = 140
    let docs: Vec<(i64, i64)> = vec![
        (1, 100), (2, 80), (3, 60), (4, 40), (5, 20), (6, 10),
    ];
    let result = distribute(&docs, 4);
    let max_mb = result.iter().map(|(mb, _)| *mb).max().unwrap();
    let min_mb = result.iter().map(|(mb, _)| *mb).filter(|x| *x > 0).min().unwrap();
    // Heap greedy should never produce a worse spread than round-robin (140)
    // With 6 docs across 4 workers, max spread is bounded by the largest doc
    assert!(max_mb - min_mb <= 100, "spread worse than largest doc: max={} min={} delta={}", max_mb, min_mb, max_mb - min_mb);
    // Every worker should have at least 1 doc (6 docs, 4 workers)
    assert!(result.iter().all(|(_, c)| *c >= 1), "all workers should have at least 1 doc");
}

#[test]
fn test_heap_distribution_respects_batch_cap() {
    // 2 workers, 70 docs of 1 MB each, cap=30
    // Should fill W0=30, W1=30, leftover=10
    let docs: Vec<(i64, i64)> = (1..=70).map(|i| (i, 1)).collect();
    let result = distribute(&docs, 2);
    let total: usize = result.iter().map(|(_, c)| *c).sum();
    assert_eq!(total, 60, "should assign exactly 60 docs (2 workers × 30 cap)");
    for (mb, count) in &result {
        assert!(*count <= 30, "worker exceeded batch cap: count={}", count);
        assert_eq!(*mb, *count as i64, "each doc is 1 MB");
    }
}

#[test]
fn test_heap_distribution_single_worker() {
    let docs: Vec<(i64, i64)> = vec![(1, 50), (2, 30), (3, 20)];
    let result = distribute(&docs, 1);
    assert_eq!(result.len(), 1);
    assert_eq!(result[0].0, 100); // total MB
    assert_eq!(result[0].1, 3);   // doc count
}

#[test]
fn test_heap_distribution_more_docs_than_cap() {
    // 2 workers, cap=30, 100 docs → only 60 assigned
    let docs: Vec<(i64, i64)> = (1..=100).map(|i| (i, 1)).collect();
    let result = distribute(&docs, 2);
    let total: usize = result.iter().map(|(_, c)| *c).sum();
    assert_eq!(total, 60);
}

#[test]
fn test_producer_claims_nothing_when_empty() {
    let mut store = JobStore::open_in_memory();
    let batch = store.claim_pending(100);
    assert!(batch.is_empty(), "no pending jobs → empty batch");
}

#[test]
fn test_read_frame_success() {
    let frame = WorkerFrame::Success(WorkerOutput {
        path: "/mocked.pdf".into(),
        checksum: "dummy".into(),
        ocr_flag: false,
        text: "hello from mock".into(),
        word_positions: vec![],
        file_extraction_ms: 0,
        page_count: 1,
    });
    let bytes = write_frame(frame).unwrap();
    let parsed = read_frame(&bytes).unwrap();
    match parsed {
        WorkerFrame::Success(wo) => {
            assert_eq!(wo.path, "/mocked.pdf");
            assert_eq!(wo.text, "hello from mock");
        }
        _ => panic!("Expected Success frame"),
    }
}

#[test]
fn test_read_frame_error() {
    let frame = WorkerFrame::Error {
        path: "/broken.pdf".into(),
        message: "ERROR:/broken.pdf:parse error".into(),
    };
    let bytes = write_frame(frame).unwrap();
    let parsed = read_frame(&bytes).unwrap();
    match parsed {
        WorkerFrame::Error { path, message } => {
            assert_eq!(path, "/broken.pdf");
            assert!(message.contains("parse error"));
        }
        _ => panic!("Expected Error frame"),
    }
}

#[test]
fn test_read_frame_garbage_returns_error() {
    let garbage = [0u8; 8];
    let result = read_frame(&garbage);
    assert!(result.is_err(), "garbage frame should produce an error");
}

#[test]
fn test_read_frame_crc_mismatch_returns_error() {
    let frame = WorkerFrame::Success(WorkerOutput {
        path: "/test.pdf".into(),
        checksum: "dummy".into(),
        ocr_flag: false,
        text: "test".into(),
        word_positions: vec![],
        file_extraction_ms: 0,
        page_count: 1,
    });
    let mut bytes = write_frame(frame).unwrap();
    // Corrupt the last CRC byte (flip all bits)
    let last = bytes.len() - 1;
    bytes[last] = !bytes[last];
    let result = read_frame(&bytes);
    assert!(result.is_err(), "corrupted CRC should error");
    let err = result.unwrap_err().message();
    assert!(err.contains("CRC mismatch"), "error should mention CRC, got: {}", err);
}

#[test]
fn test_read_frame_truncated_returns_error() {
    let frame = WorkerFrame::Success(WorkerOutput {
        path: "/test.pdf".into(),
        checksum: "dummy".into(),
        ocr_flag: false,
        text: "test".into(),
        word_positions: vec![],
        file_extraction_ms: 0,
        page_count: 1,
    });
    let mut bytes = write_frame(frame).unwrap();
    bytes.truncate(bytes.len() - 3); // remove last 3 bytes
    let result = read_frame(&bytes);
    assert!(result.is_err(), "truncated frame should produce an error");
}

#[test]
fn test_producer_claims_and_sends_batch() {
    let mut store = JobStore::open_in_memory();
    store.upsert_file("/a.pdf", "cs1").unwrap();
    store.upsert_file("/b.pdf", "cs2").unwrap();
    store.upsert_file("/c.pdf", "cs3").unwrap();

    let (task_tx, task_rx) = crossbeam_channel::bounded::<Vec<ExtractorTask>>(10);
    let batch_size: i64 = 2;

    let batch = store.claim_pending(batch_size);
    assert_eq!(batch.len(), 2, "should claim up to batch_size=2");
    let tasks: Vec<ExtractorTask> = batch
        .into_iter()
        .map(|(id, path, checksum)| ExtractorTask { id, path, checksum })
        .collect();
    task_tx.send(tasks).unwrap();

    let received = task_rx.recv().unwrap();
    assert_eq!(received.len(), 2);
    assert!(received.iter().any(|t| t.path == "/a.pdf"));
    assert!(received.iter().any(|t| t.path == "/b.pdf"));

    let remaining = store.claim_pending(100);
    assert_eq!(remaining.len(), 1);
    assert_eq!(remaining[0].1, "/c.pdf");
}

// --- Defaults on known machines ---

#[test]
fn defaults_follow_the_processors() {
    let cfg = PipelineConfig::default();
    let workers: Vec<usize> = [1, 3, 4, 9, 10, 64].iter().map(|&c| cfg.extract_workers_on(c)).collect();
    assert_eq!(workers, vec![1, 1, 2, 7, 8, 8]);
    let threads: Vec<usize> = [1, 2, 4, 64].iter().map(|&c| cfg.indexer_threads_on(c)).collect();
    assert_eq!(threads, vec![1, 2, 4, 4]);
    let ocr: Vec<usize> =
        [0, 1, 2, 5, 6, 64].iter().map(|&c| resolve_ocr_workers_on(None, c)).collect();
    assert_eq!(ocr, vec![1, 1, 1, 1, 2, 2]);
    let align: Vec<usize> = [0, 1, 4, 8, 64].iter().map(|&c| align_threads_on(c)).collect();
    assert_eq!(align, vec![1, 1, 2, 4, 4]);
    assert_eq!(cfg.channel_cap(), 256);
}

// --- Rounds ---

#[test]
fn a_round_uses_the_reserve_first() {
    let plan = plan_claim(2, 50, 8);
    assert_eq!((plan.take, plan.ask), (50, Some(18)));
    let plan = plan_claim(2, 70, 8);
    assert_eq!((plan.take, plan.ask), (60, None));
    assert!(scan_round(2, Vec::new(), Vec::new()).is_none());
}

#[test]
fn a_scan_hands_out_every_job_once() {
    let mut reserve: Vec<PendingJob> = Vec::new();
    let mut handed: Vec<i64> = Vec::new();
    let mut next = 0i64;
    for claim in [100, 0, 7, 45, 0, 0, 0] {
        let claimed = (next..next + claim)
            .map(|id| PendingJob {
                id,
                path: format!("/{}.pdf", id),
                checksum: String::new(),
                size: id % 13,
            })
            .collect();
        next += claim;
        let held = reserve.len();
        match scan_round(2, reserve, claimed) {
            Some(round) => {
                handed.extend(round.batches.iter().flatten().map(|t| t.id));
                reserve = round.reserved;
            }
            None => {
                assert_eq!((claim, held), (0, 0));
                reserve = Vec::new();
            }
        }
        assert_eq!(handed.len() + reserve.len(), next as usize);
    }
    assert!(reserve.is_empty());
    handed.sort();
    assert_eq!(handed, (0..152).collect::<Vec<i64>>());
}

#[test]
fn a_round_keeps_every_job() {
    let job = |id: i64, size: i64| PendingJob {
        id,
        path: format!("/{}.pdf", id),
        checksum: format!("c{}", id),
        size,
    };
    let reserved: Vec<PendingJob> = (1..=40).map(|i| job(i, i)).collect();
    let claimed: Vec<PendingJob> = (41..=45).map(|i| job(i, 100)).collect();
    let round = scan_round(1, reserved, claimed).unwrap();
    assert_eq!(round.from_reserve, 30);
    assert_eq!(round.batches[0].len(), 30);
    let first: Vec<i64> = round.batches[0].iter().take(6).map(|t| t.id).collect();
    assert_eq!(first, vec![41, 42, 43, 44, 45, 30]);
    let mut all: Vec<i64> = round.batches[0].iter().map(|t| t.id).collect();
    all.extend(round.reserved.iter().map(|j| j.id));
    all.sort();
    assert_eq!(all, (1..=45).collect::<Vec<i64>>());
}
