use pdf_extractor::metrics::Metrics;



// --- zero state ---

#[test]
fn test_metrics_start_at_zero() {
    let m = Metrics::new();
    assert_eq!(m.processed(), 0);
    assert_eq!(m.errored(), 0);
}

// --- basic increments ---

#[test]
fn test_metrics_increment_processed() {
    let mut m = Metrics::new();
    m.increment_processed();
    m.increment_processed();
    m.increment_processed();
    assert_eq!(m.processed(), 3);
}

#[test]
fn test_metrics_increment_errored() {
    let mut m = Metrics::new();
    m.increment_errored();
    assert_eq!(m.errored(), 1);
}

#[test]
fn test_metrics_mixed_increments() {
    let mut m = Metrics::new();
    m.increment_processed();
    m.increment_errored();
    m.increment_processed();
    assert_eq!(m.processed(), 2);
    assert_eq!(m.errored(), 1);
}

#[test]
fn counting_gives_the_new_count() {
    let mut m = Metrics::new();
    assert_eq!(m.increment_processed(), 1);
    assert_eq!(m.increment_processed(), 2);
    assert_eq!(m.increment_errored(), 1);
}
