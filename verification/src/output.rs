//! The record of an extracted document.

use vstd::prelude::*;

use crate::extractor::WordPosition;

verus! {

/// An extracted document on its way to the index.
#[derive(Debug)]
pub struct DocumentRecord {
    pub id: i64,
    pub path: String,
    pub checksum: String,
    pub ocr_flag: bool,
    pub text: String,
    pub word_positions: Vec<WordPosition>,
    /// Milliseconds that the extraction took.
    pub file_extraction_ms: u64,
    pub page_count: u32,
}

} // verus!
