use pdf_extractor::scanner::jobs::{Job, JobError, JobStatus, JobStore};
use pdf_extractor::scanner::{compute_checksum, scan_directory, FoundFile, ScanError};

/// A directory with files, of which only path, content and time matter.
struct Dir {
    files: Vec<(String, Vec<u8>, u64)>,
}

impl Dir {
    fn new() -> Dir {
        Dir { files: Vec::new() }
    }

    fn write(&mut self, path: &str, content: &[u8], time: u64) {
        self.files.retain(|f| f.0 != path);
        self.files.push((path.to_string(), content.to_vec(), time));
    }

    fn found(&self) -> Option<Vec<FoundFile>> {
        let found = self
            .files
            .iter()
            .map(|(path, content, time)| FoundFile {
                path: format!("/dir/{}", path),
                extension: std::path::Path::new(path)
                    .extension()
                    .and_then(|e| e.to_str())
                    .map(|e| e.to_string()),
                modified: *time,
                size: content.len() as u64,
            })
            .collect();
        Some(found)
    }
}

fn scan(store: &mut JobStore, dir: &Dir) -> u64 {
    scan_directory(store, "/dir", &dir.found()).unwrap()
}

// --- compute_checksum ---

#[test]
fn test_compute_checksum_empty_data() {
    let hash = compute_checksum(b"");
    assert_eq!(hash.len(), 16);
    assert!(hash.chars().all(|c| c.is_ascii_hexdigit()));
}

#[test]
fn test_compute_checksum_binary_content() {
    let data: Vec<u8> = (0..=255).collect();
    let hash = compute_checksum(&data);
    assert_eq!(hash.len(), 16);

}

#[test]
fn test_compute_checksum_large_data() {
    let data = vec![0xABu8; 10_000_000];
    let hash = compute_checksum(&data);
    assert_eq!(hash.len(), 16);
}

#[test]
fn test_jobstore_insert_and_count() {
    let mut store = JobStore::open_in_memory();

    let inserted = store.upsert_file("/a.pdf", "abc").unwrap();
    assert!(inserted);

    let count = store.count_pending();
    assert_eq!(count, 1);
}

#[test]
fn test_jobstore_multiple_inserts() {
    let mut store = JobStore::open_in_memory();

    store.upsert_file("/a.pdf", "aaa").unwrap();
    store.upsert_file("/b.pdf", "bbb").unwrap();
    store.upsert_file("/c.pdf", "ccc").unwrap();

    assert_eq!(store.count_pending(), 3);
}

#[test]
fn test_jobstore_duplicate_skipped() {
    let mut store = JobStore::open_in_memory();

    store.upsert_file("/a.pdf", "abc").unwrap();
    let inserted = store.upsert_file("/a.pdf", "abc").unwrap();
    assert!(!inserted);

    let count = store.count_pending();
    assert_eq!(count, 1);
}

#[test]
fn test_jobstore_mark_done() {
    let mut store = JobStore::open_in_memory();

    store.upsert_file("/a.pdf", "abc").unwrap();
    let batch = store.fetch_pending(10);
    assert_eq!(batch.len(), 1);

    let (id, _path, _checksum) = &batch[0];
    store.mark_done(*id, false);

    let count = store.count_pending();
    assert_eq!(count, 0);
}

#[test]
fn test_jobstore_reprocess_changed() {
    let mut store = JobStore::open_in_memory();

    store.upsert_file("/a.pdf", "abc").unwrap();
    let batch = store.fetch_pending(10);
    store.mark_done(batch[0].0, false);

    let inserted = store.upsert_file("/a.pdf", "def").unwrap();
    assert!(inserted);

    let count = store.count_pending();
    assert_eq!(count, 1);
}

#[test]
fn test_mark_pending_inserts_new() {
    let mut store = JobStore::open_in_memory();
    let inserted = store.mark_pending("/new.pdf").unwrap();
    assert!(inserted);
    assert_eq!(store.count_pending(), 1);
}

#[test]
fn test_mark_pending_always_returns_true_for_existing() {
    let mut store = JobStore::open_in_memory();
    store.mark_pending("/a.pdf").unwrap();

    // Second call should also return true (always sets to pending)
    let inserted = store.mark_pending("/a.pdf").unwrap();
    assert!(inserted, "mark_pending should always return true for existing paths");
    assert_eq!(store.count_pending(), 1);
}

#[test]
fn test_mark_pending_resets_error_jobs() {
    let mut store = JobStore::open_in_memory();
    store.mark_pending("/a.pdf").unwrap();
    let batch = store.claim_pending(10);
    store.mark_error(batch[0].0, "previous error");

    // mark_pending should reset to pending
    let inserted = store.mark_pending("/a.pdf").unwrap();
    assert!(inserted);
    assert_eq!(store.count_pending(), 1);
}

#[test]
fn test_mark_pending_resets_done_jobs() {
    let mut store = JobStore::open_in_memory();
    store.mark_pending("/a.pdf").unwrap();
    let batch = store.claim_pending(10);
    store.mark_done(batch[0].0, false);

    let inserted = store.mark_pending("/a.pdf").unwrap();
    assert!(inserted);
    assert_eq!(store.count_pending(), 1);
}

#[test]
fn test_mark_pending_leaves_empty_checksum() {
    let mut store = JobStore::open_in_memory();
    store.mark_pending("/a.pdf").unwrap();
    let batch = store.fetch_pending(10);
    assert_eq!(batch[0].2, "", "mark_pending should store empty checksum");
}

#[test]
fn test_claim_pending_claims_and_changes_status() {
    let mut store = JobStore::open_in_memory();
    store.upsert_file("/a.pdf", "abc").unwrap();
    store.upsert_file("/b.pdf", "def").unwrap();

    let claimed = store.claim_pending(10);
    assert_eq!(claimed.len(), 2);

    let pending = store.count_pending();
    assert_eq!(pending, 0, "Claimed jobs should no longer be pending");

    let extracting = store.count_by_status("extracting");
    assert_eq!(extracting, 2, "Claimed jobs should be 'extracting'");
}

#[test]
fn test_claim_pending_respects_limit() {
    let mut store = JobStore::open_in_memory();
    store.upsert_file("/a.pdf", "abc").unwrap();
    store.upsert_file("/b.pdf", "def").unwrap();
    store.upsert_file("/c.pdf", "ghi").unwrap();

    let claimed = store.claim_pending(2);
    assert_eq!(claimed.len(), 2);

    let pending = store.count_pending();
    assert_eq!(pending, 1, "One should remain pending");
}

#[test]
fn test_claim_pending_empty_when_none_pending() {
    let mut store = JobStore::open_in_memory();
    let claimed = store.claim_pending(10);
    assert!(claimed.is_empty());
}

#[test]
fn test_claim_pending_negative_limit() {
    let mut store = JobStore::open_in_memory();
    store.upsert_file("/a.pdf", "abc").unwrap();
    let claimed = store.claim_pending(-1);
    assert!(claimed.is_empty(), "Negative limit should return empty");
}

#[test]
fn test_claim_pending_does_not_claim_done_or_error() {
    let mut store = JobStore::open_in_memory();
    store.upsert_file("/a.pdf", "abc").unwrap();
    let batch = store.fetch_pending(10);
    store.mark_done(batch[0].0, false);

    store.upsert_file("/b.pdf", "def").unwrap();
    let batch2 = store.fetch_pending(10);
    store.mark_error(batch2[0].0, "err");

    // Should not claim done or error jobs
    let claimed = store.claim_pending(10);
    assert!(claimed.is_empty());
}

#[test]
fn test_claim_pending_only_once() {
    let mut store = JobStore::open_in_memory();
    store.upsert_file("/a.pdf", "abc").unwrap();

    let first = store.claim_pending(10);
    assert_eq!(first.len(), 1);

    let second = store.claim_pending(10);
    assert!(second.is_empty(), "Same job should not be claimable twice");
}

#[test]
fn test_mark_extracted_sets_status() {
    let mut store = JobStore::open_in_memory();
    store.upsert_file("/a.pdf", "abc").unwrap();

    let batch = store.claim_pending(10);
    assert_eq!(batch.len(), 1);
    let id = batch[0].0;

    store.mark_extracted(id, true);

    assert_eq!(store.count_by_status("extracting"), 0);
    assert_eq!(store.count_by_status("extracted"), 1);
}

#[test]
fn test_mark_extracted_nonexistent_id() {
    let mut store = JobStore::open_in_memory();
    store.mark_extracted(999, false);
    assert!(store.rows().is_empty(), "mark_extracted on nonexistent id should not error");
}

#[test]
fn test_fetch_extracted_returns_marked_jobs() {
    let mut store = JobStore::open_in_memory();
    store.upsert_file("/a.pdf", "abc").unwrap();
    store.upsert_file("/b.pdf", "def").unwrap();

    let batch = store.claim_pending(10);
    assert_eq!(batch.len(), 2);

    store.mark_extracted(batch[0].0, true);
    store.mark_extracted(batch[1].0, false);

    let extracted = store.fetch_extracted(10);
    assert_eq!(extracted.len(), 2);

    let doc1 = extracted.iter().find(|(_, p, _, _)| p.contains("a.pdf")).unwrap();
    assert!(doc1.3, "a.pdf should have ocr_flag=true");

    let doc2 = extracted.iter().find(|(_, p, _, _)| p.contains("b.pdf")).unwrap();
    assert!(!doc2.3, "b.pdf should have ocr_flag=false");
}

#[test]
fn test_fetch_extracted_empty_when_none() {
    let store = JobStore::open_in_memory();
    let extracted = store.fetch_extracted(10);
    assert!(extracted.is_empty());
}

#[test]
fn test_fetch_extracted_respects_limit() {
    let mut store = JobStore::open_in_memory();
    store.upsert_file("/a.pdf", "a").unwrap();
    store.upsert_file("/b.pdf", "b").unwrap();
    let batch = store.claim_pending(10);
    store.mark_extracted(batch[0].0, false);
    store.mark_extracted(batch[1].0, false);

    let limited = store.fetch_extracted(1);
    assert_eq!(limited.len(), 1);
}

#[test]
fn test_fetch_extracted_negative_limit() {
    let mut store = JobStore::open_in_memory();
    store.upsert_file("/a.pdf", "a").unwrap();
    let batch = store.claim_pending(10);
    store.mark_extracted(batch[0].0, false);

    let extracted = store.fetch_extracted(-1);
    assert!(extracted.is_empty(), "Negative limit should return empty");
}

#[test]
fn test_count_by_status_counts_only_matching() {
    let mut store = JobStore::open_in_memory();
    store.upsert_file("/a.pdf", "a").unwrap();  // status = pending
    store.upsert_file("/b.pdf", "b").unwrap();
    let batch = store.claim_pending(10);  // status = extracting
    store.mark_extracted(batch[0].0, false);  // status = extracted
    store.mark_done(batch[1].0, false);  // status = done

    assert_eq!(store.count_by_status("pending"), 0);
    assert_eq!(store.count_by_status("extracting"), 0);
    assert_eq!(store.count_by_status("extracted"), 1);
    assert_eq!(store.count_by_status("done"), 1);
}

#[test]
fn test_count_by_status_unknown_status_returns_zero() {
    let store = JobStore::open_in_memory();
    let count = store.count_by_status("nonexistent");
    assert_eq!(count, 0);
}

#[test]
fn test_jobstore_mark_error() {
    let mut store = JobStore::open_in_memory();
    store.upsert_file("/a.pdf", "abc").unwrap();
    let batch = store.fetch_pending(10);
    let id = batch[0].0;

    store.mark_error(id, "corrupt PDF");

    assert_eq!(store.count_pending(), 0);
    let batch2 = store.fetch_pending(10);
    assert!(batch2.is_empty());
}

#[test]
fn test_jobstore_error_not_reprocessed_with_same_checksum() {
    let mut store = JobStore::open_in_memory();
    store.upsert_file("/a.pdf", "abc").unwrap();
    let batch = store.fetch_pending(10);
    store.mark_error(batch[0].0, "error");

    let inserted = store.upsert_file("/a.pdf", "abc").unwrap();
    assert!(!inserted, "Same checksum should not re-insert errored file");
}

#[test]
fn test_jobstore_reprocess_after_error_with_new_checksum() {
    let mut store = JobStore::open_in_memory();
    store.upsert_file("/a.pdf", "abc").unwrap();
    let batch = store.fetch_pending(10);
    store.mark_error(batch[0].0, "error");

    let inserted = store.upsert_file("/a.pdf", "def").unwrap();
    assert!(inserted, "New checksum should re-insert errored file");
    assert_eq!(store.count_pending(), 1);
}

#[test]
fn test_jobstore_mark_nonexistent_id() {
    let mut store = JobStore::open_in_memory();
    store.mark_done(999, false);
    assert!(store.rows().is_empty(), "mark_done on nonexistent id should not error");
}

#[test]
fn test_jobstore_mark_error_nonexistent_id() {
    let mut store = JobStore::open_in_memory();
    store.mark_error(999, "msg");
    assert!(store.rows().is_empty(), "mark_error on nonexistent id should not error");
}

#[test]
fn test_jobstore_fetch_pending_limit_zero() {
    let mut store = JobStore::open_in_memory();
    store.upsert_file("/a.pdf", "abc").unwrap();
    let batch = store.fetch_pending(0);
    assert!(batch.is_empty());
}

#[test]
fn test_jobstore_fetch_pending_limit_negative() {
    let mut store = JobStore::open_in_memory();
    store.upsert_file("/a.pdf", "abc").unwrap();
    let batch = store.fetch_pending(-1);
    assert!(batch.is_empty());
}

#[test]
fn test_jobstore_fetch_pending_limit_exceeds_count() {
    let mut store = JobStore::open_in_memory();
    store.upsert_file("/a.pdf", "abc").unwrap();
    let batch = store.fetch_pending(1000);
    assert_eq!(batch.len(), 1);
}

#[test]
fn test_jobstore_fetch_pending_respects_limit() {
    let mut store = JobStore::open_in_memory();
    for i in 0..10 {
        store.upsert_file(&format!("/{}.pdf", i), &format!("{:x}", i)).unwrap();
    }
    let batch = store.fetch_pending(3);
    assert_eq!(batch.len(), 3);
}

#[test]
fn test_jobstore_fetch_pending_does_not_return_done() {
    let mut store = JobStore::open_in_memory();
    store.upsert_file("/a.pdf", "a").unwrap();
    store.upsert_file("/b.pdf", "b").unwrap();
    let batch = store.fetch_pending(10);
    store.mark_done(batch[0].0, false);
    let remaining = store.fetch_pending(10);
    assert_eq!(remaining.len(), 1);
}

#[test]
fn test_jobstore_count_pending_after_mixed_states() {
    let mut store = JobStore::open_in_memory();
    store.upsert_file("/a.pdf", "a").unwrap();
    store.upsert_file("/b.pdf", "b").unwrap();
    store.upsert_file("/c.pdf", "c").unwrap();
    let batch = store.fetch_pending(10);
    store.mark_done(batch[0].0, false);
    store.mark_error(batch[1].0, "err");
    assert_eq!(store.count_pending(), 1);
}

#[test]
fn test_jobstore_count_pending_with_empty_store() {
    let store = JobStore::open_in_memory();
    assert_eq!(store.count_pending(), 0);
}

#[test]
fn test_ocr_mark_success_clears_flag() {
    let mut store = JobStore::open_in_memory();
    store.upsert_file("/a.pdf", "abc").unwrap();
    let batch = store.claim_pending(10);
    store.mark_done(batch[0].0, true);  // done with ocr_flag=true

    let needed = store.fetch_ocr_needed(10, 2);
    assert_eq!(needed.len(), 1, "Should find OCR-needed doc");

    store.mark_ocr_attempt(needed[0].0, true, None, 2, 1_700_000_000);
    let after = store.fetch_ocr_needed(10, 2);
    assert!(after.is_empty(), "After successful OCR, flag should be cleared");
}

#[test]
fn test_ocr_mark_failure_increments_attempts() {
    let mut store = JobStore::open_in_memory();
    store.upsert_file("/a.pdf", "abc").unwrap();
    let batch = store.claim_pending(10);
    store.mark_done(batch[0].0, true);

    store.mark_ocr_attempt(batch[0].0, false, Some("ocr failed"), 2, 1_700_000_000);
    let needed = store.fetch_ocr_needed(10, 2);
    assert_eq!(needed.len(), 1, "Should still be needed (attempts < max_retries)");

    store.mark_ocr_attempt(batch[0].0, false, Some("still failing"), 2, 1_700_000_000);
    let after = store.fetch_ocr_needed(10, 2);
    assert!(after.is_empty(), "Should stop retrying after max_retries");
}

#[test]
fn test_ocr_needed_only_matches_ocr_flag() {
    let mut store = JobStore::open_in_memory();
    store.upsert_file("/a.pdf", "a").unwrap();
    store.upsert_file("/b.pdf", "b").unwrap();
    let batch = store.claim_pending(10);

    // a.pdf: done with ocr_flag=true, b.pdf: done with ocr_flag=false
    store.mark_done(batch[0].0, true);
    store.mark_done(batch[1].0, false);

    let needed = store.fetch_ocr_needed(10, 2);
    assert_eq!(needed.len(), 1, "Only ocr_flag=true should match");
    assert!(needed[0].1.contains("a.pdf"), "Should be the OCR-needed doc");
}

#[test]
fn test_ocr_needed_respects_limit() {
    let mut store = JobStore::open_in_memory();
    for i in 0..5 {
        store.upsert_file(&format!("/{}.pdf", i), &format!("cs{}", i)).unwrap();
    }
    let batch = store.claim_pending(10);
    for (id, _, _) in &batch {
        store.mark_done(*id, true);
    }

    let needed = store.fetch_ocr_needed(2, 2);
    assert_eq!(needed.len(), 2, "Should respect limit");
}

#[test]
fn test_ocr_needed_empty_when_none() {
    let store = JobStore::open_in_memory();
    let needed = store.fetch_ocr_needed(10, 2);
    assert!(needed.is_empty(), "No jobs → no OCR needed");
}

#[test]
fn test_ocr_needed_negative_limit() {
    let mut store = JobStore::open_in_memory();
    store.upsert_file("/a.pdf", "abc").unwrap();
    let batch = store.claim_pending(10);
    store.mark_done(batch[0].0, true);

    let needed = store.fetch_ocr_needed(-1, 2);
    assert!(needed.is_empty(), "Negative limit should return empty");
}

#[test]
fn test_ocr_count_pending() {
    let mut store = JobStore::open_in_memory();
    assert_eq!(store.count_ocr_pending(2), 0);

    store.upsert_file("/a.pdf", "abc").unwrap();
    let batch = store.claim_pending(10);
    store.mark_done(batch[0].0, true);

    assert_eq!(store.count_ocr_pending(2), 1);
}

#[test]
fn test_failed_ocr_not_set_on_success() {
    let mut store = JobStore::open_in_memory();
    store.upsert_file("/a.pdf", "abc").unwrap();
    let batch = store.claim_pending(10);
    store.mark_done(batch[0].0, true);

    store.mark_ocr_attempt(batch[0].0, true, None, 2, 1_700_000_000);
    let failed = store.fetch_failed_ocr();
    assert!(failed.is_empty(), "Successful OCR should not create failed_ocr entry");
}

#[test]
fn test_failed_ocr_set_after_max_retries() {
    let mut store = JobStore::open_in_memory();
    store.upsert_file("/a.pdf", "abc").unwrap();
    let batch = store.claim_pending(10);
    store.mark_done(batch[0].0, true);

    // First failure: attempts=1, max_retries=2 → not yet failed
    store.mark_ocr_attempt(batch[0].0, false, Some("first fail"), 2, 1_700_000_000);
    let failed = store.fetch_failed_ocr();
    assert!(failed.is_empty(), "Should not fail after 1 attempt with max_retries=2");

    // Second failure: attempts=2 >= max_retries=2 → marked failed
    store.mark_ocr_attempt(batch[0].0, false, Some("second fail"), 2, 1_700_000_000);
    let failed = store.fetch_failed_ocr();
    assert_eq!(failed.len(), 1, "Should be in failed_ocr after exhausting retries");
    assert_eq!(failed[0].0, batch[0].0, "ID should match");
    assert!(failed[0].1.contains("a.pdf"), "Path should match");
    assert_eq!(failed[0].3.as_deref(), Some("second fail"), "Should have latest error");
}

#[test]
fn test_failed_ocr_cleared_on_retry_success() {
    let mut store = JobStore::open_in_memory();
    store.upsert_file("/a.pdf", "abc").unwrap();
    let batch = store.claim_pending(10);
    store.mark_done(batch[0].0, true);

    // Exhaust retries
    store.mark_ocr_attempt(batch[0].0, false, Some("fail 1"), 1, 1_700_000_000);
    let failed = store.fetch_failed_ocr();
    assert_eq!(failed.len(), 1, "Should be failed after 1 attempt with max_retries=1");

    // If OCR subsequently succeeds (e.g. user retried), failed_ocr should clear
    store.mark_ocr_attempt(batch[0].0, true, None, 1, 1_700_000_000);
    let failed = store.fetch_failed_ocr();
    assert!(failed.is_empty(), "Successful OCR should clear failed_ocr and ocr_error");
}

#[test]
fn test_fetch_failed_ocr_empty_when_none() {
    let store = JobStore::open_in_memory();
    let failed = store.fetch_failed_ocr();
    assert!(failed.is_empty(), "No jobs → no failed OCR entries");
}

#[test]
fn test_language_default_null() {
    let mut store = JobStore::open_in_memory();
    store.upsert_file("/a.pdf", "abc").unwrap();
    let batch = store.claim_pending(10);
    store.mark_done(batch[0].0, true);

    let lang = store.get_job_language(batch[0].0).unwrap();
    assert_eq!(lang, None, "New job should have NULL language");
}

#[test]
fn test_compute_checksum_all_byte_values() {
    let mut data: Vec<u8> = (0..=255).collect();
    let hash = compute_checksum(&data);
    assert_eq!(hash.len(), 16, "hex digest should be 16 chars");
    assert!(hash.chars().all(|c| c.is_ascii_hexdigit()), "should be hex");

    // Verify idempotence
    assert_eq!(compute_checksum(&data), hash);

    // Verify single-bit change flips output
    data[0] ^= 1;
    let hash2 = compute_checksum(&data);
    assert_ne!(hash2, hash, "bit flip should change checksum");
}

#[test]
fn test_is_file_unchanged_true() {
    let mut store = JobStore::open_in_memory();
    store.upsert_file("/a.pdf", "abc").unwrap();
    let id = store.get_id_by_path("/a.pdf").unwrap();
    store.update_file_metadata(id, 1000, 500).unwrap();

    assert!(store.is_file_unchanged("/a.pdf", 1000, 500));
}

#[test]
fn test_is_file_unchanged_false_wrong_mtime() {
    let mut store = JobStore::open_in_memory();
    store.upsert_file("/a.pdf", "abc").unwrap();
    let id = store.get_id_by_path("/a.pdf").unwrap();
    store.update_file_metadata(id, 1000, 500).unwrap();

    assert!(!store.is_file_unchanged("/a.pdf", 2000, 500));
}

#[test]
fn test_is_file_unchanged_false_wrong_size() {
    let mut store = JobStore::open_in_memory();
    store.upsert_file("/a.pdf", "abc").unwrap();
    let id = store.get_id_by_path("/a.pdf").unwrap();
    store.update_file_metadata(id, 1000, 500).unwrap();

    assert!(!store.is_file_unchanged("/a.pdf", 1000, 999));
}

#[test]
fn test_is_file_unchanged_missing_path() {
    let store = JobStore::open_in_memory();
    assert!(!store.is_file_unchanged("/nonexistent.pdf", 1000, 500));
}

#[test]
fn test_is_file_unchanged_no_metadata_stored() {
    let mut store = JobStore::open_in_memory();
    // upsert without calling update_file_metadata
    store.upsert_file("/a.pdf", "abc").unwrap();
    // is_file_unchanged checks file_modified IS NULL, so should return false
    assert!(!store.is_file_unchanged("/a.pdf", 1000, 500));
}

#[test]
fn test_update_file_metadata_stores_values() {
    let mut store = JobStore::open_in_memory();
    store.upsert_file("/a.pdf", "abc").unwrap();
    let id = store.get_id_by_path("/a.pdf").unwrap();
    store.update_file_metadata(id, 42, 777).unwrap();

    assert!(store.is_file_unchanged("/a.pdf", 42, 777));
}

#[test]
fn test_update_file_metadata_overwrites_previous() {
    let mut store = JobStore::open_in_memory();
    store.upsert_file("/a.pdf", "abc").unwrap();
    let id = store.get_id_by_path("/a.pdf").unwrap();
    store.update_file_metadata(id, 10, 100).unwrap();
    store.update_file_metadata(id, 20, 200).unwrap();

    assert!(!store.is_file_unchanged("/a.pdf", 10, 100));
    assert!(store.is_file_unchanged("/a.pdf", 20, 200));
}

#[test]
fn test_is_file_unchanged_zero_values() {
    let mut store = JobStore::open_in_memory();
    store.upsert_file("/zero.pdf", "cs").unwrap();
    let id = store.get_id_by_path("/zero.pdf").unwrap();
    store.update_file_metadata(id, 0, 0).unwrap();
    assert!(store.is_file_unchanged("/zero.pdf", 0, 0));
    assert!(!store.is_file_unchanged("/zero.pdf", 0, 1), "different size should not match");
    assert!(!store.is_file_unchanged("/zero.pdf", 1, 0), "different mtime should not match");
}

#[test]
fn test_is_file_unchanged_large_mtime() {
    let mut store = JobStore::open_in_memory();
    store.upsert_file("/old.pdf", "cs").unwrap();
    let id = store.get_id_by_path("/old.pdf").unwrap();
    store.update_file_metadata(id, 9_999_999_999_999, 100).unwrap();
    assert!(store.is_file_unchanged("/old.pdf", 9_999_999_999_999, 100));
}

#[test]
fn test_update_file_metadata_nonexistent_id() {
    let mut store = JobStore::open_in_memory();
    // An UPDATE on a non-existent id is a no-op, not an error.
    store.update_file_metadata(999, 42, 100).unwrap();
}

#[test]
fn test_in_memory_db_still_works_with_pragmas() {
    let mut store = JobStore::open_in_memory();
    store.upsert_file("/a.pdf", "cs1").unwrap();
    assert!(!store.is_file_unchanged("/a.pdf", 0, 0), "in-memory DB should be functional");
    assert_eq!(store.count_pending(), 1);
}

#[test]
fn test_compute_checksum_consistency() {
    assert_eq!(compute_checksum(b"hello world"), compute_checksum(b"hello world"));
}

#[test]
fn test_compute_checksum_different_files() {
    assert_ne!(compute_checksum(b"content a"), compute_checksum(b"content b"));
}

#[test]
fn test_compute_checksum_hex_format() {
    let hash = compute_checksum(b"data");
    assert_eq!(hash.len(), 16);
    assert!(hash.chars().all(|c| c.is_ascii_hexdigit()));
}

#[test]
fn a_checksum_is_the_hash_in_hexadecimal() {
    assert_eq!(compute_checksum(b""), "2d06800538d394c2");
    let expected = format!("{:016x}", xxhash_rust::xxh3::xxh3_64(b"data"));
    assert_eq!(compute_checksum(b"data"), expected);
}

#[test]
fn test_language_stored_and_retrieved() {
    let mut store = JobStore::open_in_memory();
    store.upsert_file("/b.pdf", "def").unwrap();
    let batch = store.claim_pending(10);

    let rows: Vec<Job> = store
        .rows()
        .iter()
        .map(|j| Job {
            id: j.id,
            path: j.path.clone(),
            checksum: j.checksum.clone(),
            status: j.status,
            ocr_flag: j.ocr_flag,
            error: j.error.clone(),
            ocr_attempts: j.ocr_attempts,
            ocr_error: j.ocr_error.clone(),
            failed_ocr: j.failed_ocr,
            language: Some("eng".to_string()),
            file_modified: j.file_modified,
            file_size: j.file_size,
        })
        .collect();
    let store = JobStore::from_rows(rows, store.last_id()).unwrap();

    let lang = store.get_job_language(batch[0].0).unwrap();
    assert_eq!(lang.as_deref(), Some("eng"), "Should retrieve stored language");
    assert!(matches!(store.get_job_language(99), Err(JobError::NoJob)));
}

// --- scan_directory ---

#[test]
fn test_scan_directory_nonexistent_path() {
    let mut store = JobStore::open_in_memory();
    let result = scan_directory(&mut store, r"C:\NONEXISTENT_DIR_12345", &None);
    assert!(result.is_err());
    let e = result.unwrap_err();
    assert_eq!(e.message(), r"Input path is not a directory: C:\NONEXISTENT_DIR_12345");
    assert!(matches!(e, ScanError::NotADirectory { .. }));
}

#[test]
fn test_scan_directory_empty_dir() {
    let mut store = JobStore::open_in_memory();
    assert_eq!(scan(&mut store, &Dir::new()), 0);
}

#[test]
fn test_scan_directory_no_pdfs() {
    let mut dir = Dir::new();
    dir.write("readme.txt", b"hello", 1);
    dir.write("data.csv", b"a,b,c", 1);
    let mut store = JobStore::open_in_memory();
    assert_eq!(scan(&mut store, &dir), 0);
    assert_eq!(store.count_pending(), 0);
}

#[test]
fn test_scan_directory_finds_pdfs() {
    let mut dir = Dir::new();
    dir.write("doc1.pdf", b"fake pdf", 1);
    dir.write("doc2.PDF", b"another", 1);
    dir.write("notes.txt", b"ignored", 1);
    let mut store = JobStore::open_in_memory();
    assert_eq!(scan(&mut store, &dir), 2);
    assert_eq!(store.count_pending(), 2);
}

#[test]
fn test_scan_directory_case_insensitive_extension() {
    let mut dir = Dir::new();
    dir.write("a.Pdf", b"x", 1);
    dir.write("b.PDF", b"y", 1);
    dir.write("c.pDf", b"z", 1);
    let mut store = JobStore::open_in_memory();
    assert_eq!(scan(&mut store, &dir), 3);
}

#[test]
fn test_scan_directory_skips_duplicates_on_second_scan() {
    let mut dir = Dir::new();
    dir.write("doc.pdf", b"content", 1);
    let mut store = JobStore::open_in_memory();
    assert_eq!(scan(&mut store, &dir), 1);
    assert_eq!(scan(&mut store, &dir), 0, "Same files should not be rescanned");
}

#[test]
fn test_scan_directory_skips_non_pdf_extensions() {
    let mut dir = Dir::new();
    dir.write("alpha.pdf", b"pdf", 1);
    dir.write("bravo.txt", b"text", 1);
    dir.write("charlie", b"noext", 1);
    dir.write("delta.pdf.txt", b"double", 1);
    let mut store = JobStore::open_in_memory();
    assert_eq!(scan(&mut store, &dir), 1, "only .pdf should be discovered");
}

#[test]
fn test_scan_directory_large_directory_tree() {
    let mut dir = Dir::new();
    for i in 0..200 {
        dir.write(&format!("sub{}/doc.pdf", i), b"content", 1);
    }
    let mut store = JobStore::open_in_memory();
    assert_eq!(scan(&mut store, &dir), 200, "all PDFs in subdirectories should be found");
    assert_eq!(store.count_pending(), 200);
}

#[test]
fn test_scan_directory_no_file_read_on_rescan() {
    let mut dir = Dir::new();
    dir.write("doc.pdf", b"content", 1);
    let mut store = JobStore::open_in_memory();
    assert_eq!(scan(&mut store, &dir), 1);
    assert_eq!(store.count_pending(), 1);
    assert_eq!(scan(&mut store, &dir), 0, "no new scans on unchanged files");
    assert_eq!(store.count_pending(), 1, "pending count unchanged");
    assert_eq!(scan(&mut store, &dir), 0, "still no new scans");
    assert_eq!(store.count_pending(), 1, "pending count still unchanged");
}

#[test]
fn test_scan_directory_rescans_modified_content() {
    let mut dir = Dir::new();
    dir.write("doc.pdf", b"original", 1);
    let mut store = JobStore::open_in_memory();
    assert_eq!(scan(&mut store, &dir), 1);
    dir.write("doc.pdf", b"modified content", 2);
    assert_eq!(scan(&mut store, &dir), 1, "modified file should be re-scanned");
}

#[test]
fn test_scan_directory_rescans_same_size_different_content() {
    let mut dir = Dir::new();
    dir.write("doc.pdf", b"abcdefgh", 1);
    let mut store = JobStore::open_in_memory();
    assert_eq!(scan(&mut store, &dir), 1);
    dir.write("doc.pdf", b"hgfedcba", 2);
    assert_eq!(scan(&mut store, &dir), 1, "same-size modified file should be re-scanned");
}

#[test]
fn test_scan_directory_touch_same_content() {
    let mut dir = Dir::new();
    dir.write("doc.pdf", b"content", 1);
    let mut store = JobStore::open_in_memory();
    assert_eq!(scan(&mut store, &dir), 1);
    dir.write("doc.pdf", b"content", 2);
    assert_eq!(scan(&mut store, &dir), 1, "touched file is re-scanned (no checksum dedup at scan time)");
    assert_eq!(scan(&mut store, &dir), 0, "third scan should fast-path skip");
}

#[test]
fn test_scan_directory_fast_path_does_not_hide_new_files() {
    let mut dir = Dir::new();
    let mut store = JobStore::open_in_memory();
    assert_eq!(scan(&mut store, &dir), 0);
    dir.write("new.pdf", b"new file", 1);
    assert_eq!(scan(&mut store, &dir), 1, "new file should be detected after fast-path skip");
}

#[test]
fn test_scan_directory_mixed_changed_and_unchanged() {
    let mut dir = Dir::new();
    let mut store = JobStore::open_in_memory();
    dir.write("stable.pdf", b"stable", 1);
    dir.write("volatile.pdf", b"v1", 1);
    assert_eq!(scan(&mut store, &dir), 2);
    dir.write("volatile.pdf", b"v2", 2);
    assert_eq!(scan(&mut store, &dir), 1, "only the modified file should be rescanned");
}

#[test]
fn test_scan_directory_size_zero_file() {
    let mut dir = Dir::new();
    dir.write("empty.pdf", b"", 1);
    let mut store = JobStore::open_in_memory();
    assert_eq!(scan(&mut store, &dir), 1, "zero-size PDF should be detected");
    assert_eq!(scan(&mut store, &dir), 0, "zero-size PDF should be fast-path skipped on second scan");
}

#[test]
fn test_scan_directory_fast_path_after_metadata_update() {
    let mut dir = Dir::new();
    dir.write("doc.pdf", b"content", 77);
    let mut store = JobStore::open_in_memory();
    assert_eq!(scan(&mut store, &dir), 1);
    assert!(
        store.is_file_unchanged("/dir/doc.pdf", 77, 7),
        "file should be considered unchanged after first scan"
    );
}

#[test]
fn errored_and_stuck_files_are_queued_again() {
    let mut dir = Dir::new();
    dir.write("a.pdf", b"a", 1);
    dir.write("b.pdf", b"b", 1);
    dir.write("c.pdf", b"c", 1);
    let mut store = JobStore::open_in_memory();
    assert_eq!(scan(&mut store, &dir), 3);
    let batch = store.claim_pending(10);
    store.mark_error(batch[0].0, "bad");
    store.mark_done(batch[1].0, false);
    assert_eq!(scan(&mut store, &dir), 2);
    assert_eq!(store.count_by_status("done"), 1);
}

#[test]
fn a_size_that_the_table_cannot_hold_is_an_error() {
    let mut store = JobStore::open_in_memory();
    let files = Some(vec![FoundFile {
        path: "/dir/a.pdf".to_string(),
        extension: Some("pdf".to_string()),
        modified: 1,
        size: u64::MAX,
    }]);
    assert!(matches!(
        scan_directory(&mut store, "/dir", &files),
        Err(ScanError::Jobs(JobError::BatchMarkPending { .. }))
    ));
    assert!(store.rows().is_empty());
    assert!(store.update_file_metadata(1, u64::MAX, 0).is_err());
}

// --- The table ---

#[test]
fn jobs_that_were_claimed_come_back() {
    let mut store = JobStore::open_in_memory();
    store.upsert_file("/a.pdf", "a").unwrap();
    store.upsert_file("/b.pdf", "b").unwrap();
    let batch = store.claim_pending(10);
    store.batch_mark_done(&[(batch[1].0, true, "c".into())]);
    store.reprocess_extracting();
    assert_eq!(store.count_by_status("pending"), 1);
    assert_eq!(store.count_by_status("done"), 1);
    assert_eq!(store.count_ocr_pending(1), 1);
    assert_eq!(store.load_all_metadata()[0].3, JobStatus::Pending);
}

#[test]
fn jobs_that_are_done_have_the_checksum_of_their_file() {
    let mut store = JobStore::open_in_memory();
    store.mark_pending("/a.pdf").unwrap();
    store.mark_pending("/b.pdf").unwrap();
    let batch = store.claim_pending(10);
    assert_eq!(batch[0].2, "");
    let (a, b) = (batch[0].0, batch[1].0);
    store.batch_mark_done(&[
        (a, true, "old".into()),
        (a, false, "new".into()),
        (b + 1, true, "none".into()),
    ]);
    assert_eq!(store.rows()[0].checksum, "new");
    assert!(store.rows()[0].ocr_flag);
    assert_eq!(store.rows()[0].status, JobStatus::Done);
    assert_eq!(store.rows()[1].checksum, "");
    assert_eq!(store.rows()[1].status, JobStatus::Extracting);
    assert!(!store.upsert_file("/a.pdf", "new").unwrap());
    assert!(store.upsert_file("/a.pdf", "newer").unwrap());
}

#[test]
fn errors_are_listed() {
    let mut store = JobStore::open_in_memory();
    store.upsert_file("/a.pdf", "a").unwrap();
    let id = store.get_id_by_path("/a.pdf").unwrap();
    assert!(store.fetch_errored().is_empty());
    store.mark_error(id, "bad");
    assert_eq!(
        store.fetch_errored(),
        vec![(id, "/a.pdf".to_string(), "error".to_string(), 0, Some("bad".to_string()))]
    );
    assert_eq!(store.get_id_by_path("/b.pdf"), None);
}

#[test]
fn the_newest_failure_comes_first() {
    let mut store = JobStore::open_in_memory();
    for path in ["/a.pdf", "/b.pdf", "/c.pdf"] {
        store.upsert_file(path, "x").unwrap();
    }
    for (i, job) in store.claim_pending(10).into_iter().enumerate() {
        store.mark_done(job.0, true);
        let time = [20, 30, 10][i];
        store.mark_ocr_attempt(job.0, false, Some("no text"), 1, time);
    }
    let failed: Vec<String> = store.fetch_failed_ocr().into_iter().map(|f| f.1).collect();
    assert_eq!(failed, vec!["/b.pdf", "/a.pdf", "/c.pdf"]);
}

#[test]
fn rows_that_are_no_table_are_refused() {
    let mut store = JobStore::open_in_memory();
    store.upsert_file("/a.pdf", "a").unwrap();
    assert_eq!(store.last_id(), 1);
    let row = |id: i64, path: &str| Job {
        id,
        path: path.to_string(),
        checksum: String::new(),
        status: JobStatus::Pending,
        ocr_flag: false,
        error: None,
        ocr_attempts: 0,
        ocr_error: None,
        failed_ocr: None,
        language: None,
        file_modified: None,
        file_size: None,
    };
    assert!(JobStore::from_rows(vec![row(1, "/a"), row(3, "/b")], 5).is_some());
    assert!(JobStore::from_rows(vec![row(1, "/a"), row(1, "/b")], 5).is_none());
    assert!(JobStore::from_rows(vec![row(1, "/a"), row(2, "/a")], 5).is_none());
    assert!(JobStore::from_rows(vec![row(9, "/a")], 5).is_none());
    let mut full = JobStore::from_rows(Vec::new(), i64::MAX).unwrap();
    assert!(full.upsert_file("/a", "x").is_err());
    assert!(full.mark_pending("/a").is_err());
}

#[test]
fn a_status_is_found_by_its_name() {
    let all = [
        JobStatus::Pending,
        JobStatus::Extracting,
        JobStatus::Extracted,
        JobStatus::Done,
        JobStatus::Error,
    ];
    for status in all {
        assert_eq!(JobStatus::from_name(status.name()), Some(status));
    }
    assert_eq!(JobStatus::from_name("Pending"), None);
}
