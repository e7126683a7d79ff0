//! Why a search fails.

use vstd::prelude::*;

verus! {

/// Why a search fails.
#[derive(Debug)]
pub enum SearchError {
    ParseError(String),
    ExecutionError(String),
    EnricherError(String),
    UnknownStrategy(String),
}

/// The message of an error.
pub open spec fn error_text(e: SearchError) -> Seq<char> {
    match e {
        SearchError::ParseError(m) => "Failed to parse query: "@ + m@,
        SearchError::ExecutionError(m) => "Search execution failed: "@ + m@,
        SearchError::EnricherError(m) => "Enricher failed: "@ + m@,
        SearchError::UnknownStrategy(m) => "Unknown search strategy: "@ + m@,
    }
}

impl SearchError {
    /// The message of an error.
    pub fn message(&self) -> (s: String)
        ensures
            s@ == error_text(*self),
    {
        let mut s = String::new();
        match self {
            SearchError::ParseError(m) => {
                s.push_str("Failed to parse query: ");
                s.push_str(m.as_str());
            },
            SearchError::ExecutionError(m) => {
                s.push_str("Search execution failed: ");
                s.push_str(m.as_str());
            },
            SearchError::EnricherError(m) => {
                s.push_str("Enricher failed: ");
                s.push_str(m.as_str());
            },
            SearchError::UnknownStrategy(m) => {
                s.push_str("Unknown search strategy: ");
                s.push_str(m.as_str());
            },
        }
        assert(s@ =~= error_text(*self));
        s
    }
}

} // verus!
