//! The parts of a search that can be chosen.

use vstd::prelude::*;

use crate::search::engines::PlannedClause;
use crate::search::errors::SearchError;
use crate::search::types::{extracts, RichResult, SearchContext, SearchInput};

verus! {

/// One way to read what a user typed.
pub trait QueryBuilder {
    /// The text for the query parser, which joins its terms by AND.
    fn build(&self, input: &SearchInput) -> Result<String, SearchError>;

    /// The name of the way.
    fn name(&self) -> &'static str;
}

/// One way to find the hits for a query that was built.
pub trait SearchEngine {
    /// What finding the hits asks of the index.
    fn search(&self, input: &SearchInput) -> Vec<PlannedClause>;

    /// What counting the hits, on all pages, asks of the index.
    fn count(&self, input: &SearchInput) -> Vec<PlannedClause>;
}

/// Adds something to the results of a search. An implementation that is verified
/// says what its kind is and on which kinds it depends, which are always the same;
/// of one that does not say what it gives, nothing is known but that it neither
/// drops results nor adds any.
pub trait ResultEnricher {
    /// The kind of enricher that it is.
    open spec fn kind_of(&self) -> u64 {
        arbitrary()
    }

    /// The kinds of enrichers that it depends on: they run before it.
    open spec fn needs(&self) -> Seq<u64> {
        arbitrary()
    }

    /// Whether enriching results can give `r` and leave `after`. The extracts
    /// are those that the index made, one place for each result.
    open spec fn gives(
        &self,
        ctx: SearchContext,
        input: SearchInput,
        extracts: Seq<Option<Seq<char>>>,
        before: Seq<RichResult>,
        r: Result<(), SearchError>,
        after: Seq<RichResult>,
    ) -> bool {
        true
    }

    /// Adds to results, of which none leaves and none comes.
    fn enrich(
        &self,
        ctx: &SearchContext,
        input: &SearchInput,
        snippets: &Vec<Option<String>>,
        results: &mut Vec<RichResult>,
    ) -> (r: Result<(), SearchError>)
        requires
            ctx.position_store matches Some(s) ==> s.wf(),
            snippets@.len() == old(results)@.len(),
        ensures
            final(results)@.len() == old(results)@.len(),
            self.gives(
                *ctx,
                *input,
                extracts(snippets@),
                old(results)@,
                r,
                final(results)@,
            ),
    ;

    /// The kinds of enrichers that it depends on.
    fn depends_on(&self) -> (kinds: Vec<u64>)
        ensures
            kinds@ == self.needs(),
    ;

    /// The kind of enricher that it is.
    fn type_id(&self) -> (kind: u64)
        ensures
            kind == self.kind_of(),
    ;
}

} // verus!
