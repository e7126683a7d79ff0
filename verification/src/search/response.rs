//! The response to a search.

use vstd::prelude::*;

use crate::search::enrichers::snippet::has_extract;
use crate::search::types::{is_rich, PagePosition, RawResult, RichResult, SearchInput};

verus! {

/// A hit in a response. The score is a bit pattern of 32 bits.
#[derive(Debug)]
pub struct SearchResult {
    pub score: u32,
    pub path: String,
    pub snippet: Option<String>,
    pub positions: Vec<PagePosition>,
    pub doc_id: Option<i64>,
}

/// The response to a search. What else is said of it goes by names; there is
/// nothing so far.
#[derive(Debug)]
pub struct SearchResponse {
    pub success: bool,
    pub total_count: u64,
    pub page: usize,
    pub page_size: usize,
    pub query: String,
    pub strategy: String,
    pub results: Vec<SearchResult>,
    pub metadata: Vec<(String, String)>,
}

/// The number of the page that begins at `offset`, from one on.
pub open spec fn page_number(limit: int, offset: int) -> int {
    if limit > 0 {
        offset / limit + 1
    } else {
        1
    }
}

/// What of a hit goes into a response.
pub open spec fn result_of(r: RichResult) -> SearchResult {
    SearchResult {
        score: r.score,
        path: r.path,
        snippet: r.snippet,
        positions: r.positions,
        doc_id: r.doc_id,
    }
}

/// Builds responses.
#[derive(Clone, Copy)]
pub struct JsonResponseBuilder;

impl JsonResponseBuilder {
    /// Builds the response to a search.
    pub fn build(
        rich: Vec<RichResult>,
        total_count: u64,
        input: &SearchInput,
        strategy: &str,
    ) -> (r: SearchResponse)
        requires
            page_number(input.limit as int, input.offset as int) <= usize::MAX,
        ensures
            r.success,
            r.total_count == total_count,
            r.page == page_number(input.limit as int, input.offset as int),
            r.page_size == input.limit,
            r.query@ == input.query_str@,
            r.strategy@ == strategy@,
            r.results@ == rich@.map_values(|x: RichResult| result_of(x)),
            r.metadata@ == Seq::<(String, String)>::empty(),
    {
        let page = if input.limit > 0 {
            (input.offset / input.limit) + 1
        } else {
            1
        };
        let ghost given = rich@;
        let mut results: Vec<SearchResult> = Vec::new();
        for x in it: rich
            invariant
                it.seq() == given,
                results@.len() == it.index(),
                forall|i: int| 0 <= i < results@.len() ==> results@[i] == result_of(given[i]),
        {
            results.push(
                SearchResult {
                    score: x.score,
                    path: x.path,
                    snippet: x.snippet,
                    positions: x.positions,
                    doc_id: x.doc_id,
                },
            );
        }
        assert(results@ =~= given.map_values(|x: RichResult| result_of(x)));
        SearchResponse {
            success: true,
            total_count,
            page,
            page_size: input.limit,
            query: input.query_str.clone(),
            strategy: strategy.to_owned(),
            results,
            metadata: Vec::new(),
        }
    }
}

/// Page `n` is the one whose hits the offset lies among, where pages of
/// `limit` hits follow each other from page one on.
pub proof fn law_page_number(limit: int, offset: int)
    requires
        0 <= limit,
        0 <= offset,
    ensures
        page_number(limit, offset) >= 1,
        limit > 0 ==> (page_number(limit, offset) - 1) * limit <= offset < page_number(
            limit,
            offset,
        ) * limit,
        limit == 0 ==> page_number(limit, offset) == 1,
{
    if limit > 0 {
        let q = offset / limit;
        assert(q >= 0 && q * limit <= offset < (q + 1) * limit) by (nonlinear_arith)
            requires
                limit > 0,
                offset >= 0,
                q == offset / limit,
        ;
        assert((page_number(limit, offset) - 1) * limit == q * limit);
        assert(page_number(limit, offset) * limit == (q + 1) * limit);
    }
}

/// A hit goes through a search with its score, its path, its id and its
/// address. What the response says of it besides is the extract and the places
/// that were added, and nothing where none were.
pub proof fn law_hit_in_response(
    raw: RawResult,
    plain: RichResult,
    placed: RichResult,
    done: RichResult,
    extract: Option<Seq<char>>,
)
    requires
        is_rich(raw, plain),
        placed == (RichResult { positions: placed.positions, ..plain }),
        has_extract(placed, done, extract),
    ensures
        result_of(done).score == raw.score,
        raw.path matches Some(p) ==> result_of(done).path == p,
        raw.path is None ==> result_of(done).path@ == Seq::<char>::empty(),
        raw.id matches Some(id) ==> result_of(done).doc_id == Some(id as i64),
        raw.id is None ==> result_of(done).doc_id is None,
        result_of(done).positions == placed.positions,
        plain.positions@ == Seq::<PagePosition>::empty(),
        plain.matched_terms@ == Seq::<String>::empty(),
        plain.phrase_groups@ == Seq::<Vec<String>>::empty(),
        plain.doc_address == Some(raw.address),
        match extract {
            Some(text) => result_of(done).snippet matches Some(s) && s@ == text,
            None => result_of(done).snippet is None,
        },
{
    assert(plain.positions@ =~= Seq::empty());
    assert(plain.matched_terms@ =~= Seq::empty());
    assert(plain.phrase_groups@ =~= Seq::empty());
    if raw.path is None {
        assert(plain.path@ =~= Seq::empty());
    }
}

} // verus!
