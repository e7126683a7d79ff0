//! Values that pass through a search.

use vstd::prelude::*;

use crate::positions::PositionStore;

verus! {

/// How the text of a query is read.
#[derive(Clone, Copy, PartialEq, Eq, Structural, Debug)]
pub enum SearchStrategy {
    AutoPhrase,
    BooleanPhrase,
}

/// What a user asks for.
#[derive(Debug)]
pub struct SearchInput {
    pub query_str: String,
    pub field: Option<String>,
    pub limit: usize,
    pub offset: usize,
    pub path_filter: Option<String>,
    pub strategy: SearchStrategy,
}

impl Default for SearchInput {
    fn default() -> (r: Self)
        ensures
            r.query_str@ == Seq::<char>::empty(),
            r.field is None,
            r.limit == 50,
            r.offset == 0,
            r.path_filter is None,
            r.strategy == SearchStrategy::AutoPhrase,
    {
        SearchInput {
            query_str: String::new(),
            field: None,
            limit: 50,
            offset: 0,
            path_filter: None,
            strategy: SearchStrategy::AutoPhrase,
        }
    }
}

/// A box on a page by its upper left and its lower right corner. The
/// coordinates are bit patterns of 32 bits.
#[derive(Clone, Copy, PartialEq, Eq, Structural, Debug)]
pub struct PagePosition {
    pub page: u32,
    pub x_min: u32,
    pub y_min: u32,
    pub x_max: u32,
    pub y_max: u32,
}

/// What a search can look up.
pub struct SearchContext {
    pub position_store: Option<PositionStore>,
}

/// A hit with all that is known of it. The score is a bit pattern of 32 bits;
/// the address is a segment and a document in it.
#[derive(Debug)]
pub struct RichResult {
    pub score: u32,
    pub path: String,
    pub snippet: Option<String>,
    pub positions: Vec<PagePosition>,
    pub doc_id: Option<i64>,
    pub doc_address: Option<(u32, u32)>,
    pub matched_terms: Vec<String>,
    pub phrase_groups: Vec<Vec<String>>,
}

/// What extracts say.
pub open spec fn extracts(v: Seq<Option<String>>) -> Seq<Option<Seq<char>>> {
    v.map_values(|s: Option<String>| crate::patterns::opt_text(s))
}

/// A hit as the index gives it: score, stored path and id, and address.
#[derive(Debug)]
pub struct RawResult {
    pub score: u32,
    pub path: Option<String>,
    pub id: Option<u64>,
    pub address: (u32, u32),
}

/// Whether `r` is what a raw hit says, with nothing added: a missing path is
/// empty, and an id of the index is that of its job.
pub open spec fn is_rich(raw: RawResult, r: RichResult) -> bool {
    &&& r.score == raw.score
    &&& match raw.path {
        Some(p) => r.path == p,
        None => r.path@.len() == 0,
    }
    &&& r.snippet is None
    &&& r.positions@.len() == 0
    &&& r.doc_id == match raw.id {
        Some(id) => Some(id as i64),
        None => None,
    }
    &&& r.doc_address == Some(raw.address)
    &&& r.matched_terms@.len() == 0
    &&& r.phrase_groups@.len() == 0
}

/// Prepares raw hits for what is added to them.
pub fn raw_to_rich(raw: Vec<RawResult>) -> (rich: Vec<RichResult>)
    ensures
        rich@.len() == raw@.len(),
        forall|i: int| 0 <= i < rich@.len() ==> is_rich(#[trigger] raw@[i], rich@[i]),
{
    let mut rich: Vec<RichResult> = Vec::new();
    let ghost given = raw@;
    for r in it: raw
        invariant
            it.seq() == given,
            rich@.len() == it.index(),
            forall|i: int| 0 <= i < rich@.len() ==> is_rich(#[trigger] given[i], rich@[i]),
    {
        let path = match r.path {
            Some(p) => p,
            None => String::new(),
        };
        let doc_id: Option<i64> = match r.id {
            Some(id) => Some(#[verifier::truncate] (id as i64)),
            None => None,
        };
        rich.push(
            RichResult {
                score: r.score,
                path,
                snippet: None,
                positions: Vec::new(),
                doc_id,
                doc_address: Some(r.address),
                matched_terms: Vec::new(),
                phrase_groups: Vec::new(),
            },
        );
    }
    rich
}

} // verus!
