//! Text extraction, indexing and search over collections of PDF files: the
//! rules, state machines and text algorithms, with their contracts.

pub mod bench;
pub mod cli;
pub mod codec;
pub mod extractor;
pub mod indexer;
pub mod lang;
pub mod math_tokenizer;
pub mod metrics;
pub mod normalizer;
pub mod ocr;
pub mod output;
pub mod patterns;
pub mod pdfium;
pub mod pipeline;
pub mod positions;
pub mod registry;
pub mod scanner;
pub mod search;
pub mod text;
pub mod tokenizers;
pub mod viewer;
pub mod worker_ipc;
