//! Extracts of the documents of results.

use vstd::prelude::*;

use crate::patterns::opt_text;
use crate::search::errors::SearchError;
use crate::search::traits::ResultEnricher;
use crate::search::types::{RichResult, SearchContext, SearchInput};

verus! {

/// The kind of the enricher that adds extracts.
pub const SNIPPET: u64 = 2;

/// Whether `after` is a result with the extract of its document. One without an
/// address, and one for whose document there is no extract, stays as it is.
pub open spec fn has_extract(
    before: RichResult,
    after: RichResult,
    extract: Option<Seq<char>>,
) -> bool {
    if before.doc_address is Some && extract is Some {
        &&& after.snippet matches Some(s) && s@ == extract->0
        &&& after == (RichResult { snippet: after.snippet, ..before })
    } else {
        after == before
    }
}

/// Whether `after` are results with the extracts of their documents.
pub open spec fn have_extracts(
    before: Seq<RichResult>,
    after: Seq<RichResult>,
    extracts: Seq<Option<Seq<char>>>,
) -> bool {
    &&& after.len() == before.len()
    &&& forall|i: int|
        0 <= i < after.len() ==> has_extract(before[i], #[trigger] after[i], extracts[i])
}

/// Adds to results the extracts that the index made of their documents.
#[derive(Clone, Copy)]
pub struct SnippetEnricher;

impl ResultEnricher for SnippetEnricher {
    open spec fn kind_of(&self) -> u64 {
        SNIPPET
    }

    open spec fn needs(&self) -> Seq<u64> {
        Seq::empty()
    }

    open spec fn gives(
        &self,
        ctx: SearchContext,
        input: SearchInput,
        extracts: Seq<Option<Seq<char>>>,
        before: Seq<RichResult>,
        r: Result<(), SearchError>,
        after: Seq<RichResult>,
    ) -> bool {
        r is Ok && have_extracts(before, after, extracts)
    }

    /// Adds to each result the extract of its document.
    fn enrich(
        &self,
        _ctx: &SearchContext,
        _input: &SearchInput,
        snippets: &Vec<Option<String>>,
        results: &mut Vec<RichResult>,
    ) -> (r: Result<(), SearchError>) {
        let ghost before = results@;
        let ghost given = crate::search::types::extracts(snippets@);
        let mut i: usize = 0;
        while i < results.len()
            invariant
                i <= results@.len() == before.len() == snippets@.len(),
                given == crate::search::types::extracts(snippets@),
                forall|k: int|
                    0 <= k < i ==> has_extract(before[k], #[trigger] results@[k], given[k]),
                forall|k: int| i <= k < before.len() ==> (#[trigger] results@[k]) == before[k],
            decreases results@.len() - i,
        {
            assert(results@[i as int] == before[i as int]);
            assert(given[i as int] == opt_text(snippets@[i as int]));
            if results[i].doc_address.is_some() {
                if let Some(s) = &snippets[i] {
                    results[i].snippet = Some(s.clone());
                }
            }
            i += 1;
        }
        Ok(())
    }

    fn depends_on(&self) -> (kinds: Vec<u64>) {
        Vec::new()
    }

    fn type_id(&self) -> (kind: u64) {
        SNIPPET
    }
}

} // verus!
