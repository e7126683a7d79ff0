//! A search from the query to the response.

use vstd::prelude::*;

use crate::search::engines::{fetch_count, PlannedClause};
use crate::search::enrichers::positions::{PositionEnricher, POSITIONS};
use crate::search::enrichers::snippet::{has_extract, have_extracts, SnippetEnricher, SNIPPET};
use crate::search::enrichers::term_collector::{
    are_tagged, group_texts, groups_for, is_tagged, terms_for, TermCollectorEnricher,
    TERM_COLLECTOR,
};
use crate::search::enrichers::{
    acyclic, law_independent_order, needs_of, ranks, EnricherCoordinator,
};
use crate::search::errors::SearchError;
use crate::search::response::{page_number, result_of, JsonResponseBuilder, SearchResponse};
use crate::search::traits::{QueryBuilder, ResultEnricher, SearchEngine};
use crate::search::types::{
    extracts, is_rich, raw_to_rich, RawResult, RichResult, SearchContext, SearchInput,
};
use crate::text::texts;

verus! {

// ---------------------------------------------------------------------------
// Enrichers
// ---------------------------------------------------------------------------

/// One of the enrichers of this library.
#[derive(Clone, Copy, PartialEq, Eq, Structural, Debug)]
pub enum Enricher {
    /// Adds terms and phrases.
    TermCollector,
    /// Adds extracts.
    Snippet,
    /// Adds where terms stand.
    Positions,
}

impl ResultEnricher for Enricher {
    open spec fn kind_of(&self) -> u64 {
        match *self {
            Enricher::TermCollector => TERM_COLLECTOR,
            Enricher::Snippet => SNIPPET,
            Enricher::Positions => POSITIONS,
        }
    }

    open spec fn needs(&self) -> Seq<u64> {
        Seq::empty()
    }

    open spec fn gives(
        &self,
        ctx: SearchContext,
        input: SearchInput,
        extracts: Seq<Option<Seq<char>>>,
        before: Seq<RichResult>,
        r: Result<(), SearchError>,
        after: Seq<RichResult>,
    ) -> bool {
        match *self {
            Enricher::TermCollector => TermCollectorEnricher.gives(
                ctx,
                input,
                extracts,
                before,
                r,
                after,
            ),
            Enricher::Snippet => SnippetEnricher.gives(ctx, input, extracts, before, r, after),
            Enricher::Positions => PositionEnricher.gives(ctx, input, extracts, before, r, after),
        }
    }

    fn enrich(
        &self,
        ctx: &SearchContext,
        input: &SearchInput,
        snippets: &Vec<Option<String>>,
        results: &mut Vec<RichResult>,
    ) -> (r: Result<(), SearchError>) {
        match self {
            Enricher::TermCollector => TermCollectorEnricher.enrich(ctx, input, snippets, results),
            Enricher::Snippet => SnippetEnricher.enrich(ctx, input, snippets, results),
            Enricher::Positions => PositionEnricher.enrich(ctx, input, snippets, results),
        }
    }

    fn depends_on(&self) -> (kinds: Vec<u64>) {
        Vec::new()
    }

    fn type_id(&self) -> (kind: u64) {
        match self {
            Enricher::TermCollector => TERM_COLLECTOR,
            Enricher::Snippet => SNIPPET,
            Enricher::Positions => POSITIONS,
        }
    }
}

/// Whether `after` is what enrichers make of results, one after the other in an
/// order.
pub open spec fn all_enriched<E: ResultEnricher>(
    list: Seq<E>,
    order: Seq<usize>,
    ctx: SearchContext,
    input: SearchInput,
    extracts: Seq<Option<Seq<char>>>,
    before: Seq<RichResult>,
    after: Seq<RichResult>,
) -> bool
    decreases order.len(),
{
    if order.len() == 0 {
        after == before
    } else {
        exists|mid: Seq<RichResult>|
            all_enriched(list, order.drop_last(), ctx, input, extracts, before, mid)
                && #[trigger] list[order.last() as int].gives(
                ctx,
                input,
                extracts,
                mid,
                Ok(()),
                after,
            )
    }
}

/// Whether an enricher, after those before it in the order, fails with `e`.
pub open spec fn enriching_fails<E: ResultEnricher>(
    list: Seq<E>,
    order: Seq<usize>,
    ctx: SearchContext,
    input: SearchInput,
    extracts: Seq<Option<Seq<char>>>,
    before: Seq<RichResult>,
    e: SearchError,
    after: Seq<RichResult>,
) -> bool {
    exists|k: int, mid: Seq<RichResult>|
        0 <= k < order.len() && all_enriched(
            list,
            order.take(k),
            ctx,
            input,
            extracts,
            before,
            mid,
        ) && #[trigger] list[order[k] as int].gives(ctx, input, extracts, mid, Err(e), after)
}

impl<E: ResultEnricher> EnricherCoordinator<E> {
    /// Runs the enrichers in their order, up to the first that fails.
    pub fn enrich_all(
        &self,
        ctx: &SearchContext,
        input: &SearchInput,
        snippets: &Vec<Option<String>>,
        results: &mut Vec<RichResult>,
    ) -> (r: Result<(), SearchError>)
        requires
            self.wf(),
            ctx.position_store matches Some(s) ==> s.wf(),
            snippets@.len() == old(results)@.len(),
        ensures
            final(results)@.len() == old(results)@.len(),
            match r {
                Ok(_) => all_enriched(
                    self.enrichers@,
                    self.execution_order@,
                    *ctx,
                    *input,
                    extracts(snippets@),
                    old(results)@,
                    final(results)@,
                ),
                Err(e) => enriching_fails(
                    self.enrichers@,
                    self.execution_order@,
                    *ctx,
                    *input,
                    extracts(snippets@),
                    old(results)@,
                    e,
                    final(results)@,
                ),
            },
    {
        let ghost before = results@;
        let ghost order = self.execution_order@;
        let ghost list = self.enrichers@;
        let mut k: usize = 0;
        assert(order.take(0) =~= Seq::empty());
        while k < self.execution_order.len()
            invariant
                k <= order.len(),
                order == self.execution_order@,
                list == self.enrichers@,
                self.wf(),
                before == old(results)@,
                ctx.position_store matches Some(s) ==> s.wf(),
                snippets@.len() == before.len() == results@.len(),
                all_enriched(
                    list,
                    order.take(k as int),
                    *ctx,
                    *input,
                    extracts(snippets@),
                    before,
                    results@,
                ),
            decreases order.len() - k,
        {
            let ghost mid = results@;
            assert(order[k as int] < needs_of(list).len());
            let e = &self.enrichers[self.execution_order[k]];
            match e.enrich(ctx, input, snippets, results) {
                Ok(done) => {
                    assert(done == ());
                },
                Err(e) => {
                    assert(list[order[k as int] as int].gives(
                        *ctx,
                        *input,
                        extracts(snippets@),
                        mid,
                        Err(e),
                        results@,
                    ));
                    return Err(e);
                },
            }
            proof {
                assert(order.take(k + 1).drop_last() =~= order.take(k as int));
                assert(order.take(k + 1).last() == order[k as int]);
                assert(list[order.take(k + 1).last() as int].gives(
                    *ctx,
                    *input,
                    extracts(snippets@),
                    mid,
                    Ok(()),
                    results@,
                ));
            }
            k += 1;
        }
        assert(order.take(k as int) =~= order);
        Ok(())
    }
}

/// The enrichers of a search where none are chosen, terms before extracts.
pub fn default_enrichers() -> (c: EnricherCoordinator<Enricher>)
    ensures
        c.wf(),
        c.enrichers@ == seq![Enricher::TermCollector, Enricher::Snippet],
        c.execution_order@ == seq![0usize, 1usize],
{
    let mut list: Vec<Enricher> = Vec::new();
    list.push(Enricher::TermCollector);
    list.push(Enricher::Snippet);
    let ghost given = needs_of(list@);
    proof {
        assert(list@ =~= seq![Enricher::TermCollector, Enricher::Snippet]);
        assert(ranks(given, seq![0int, 0int]));
        assert(acyclic(given));
    }
    match EnricherCoordinator::new(list) {
        Ok(c) => {
            proof {
                law_independent_order(given, c.execution_order@);
                assert(c.execution_order@[0] == 0usize);
                assert(c.execution_order@[1] == 1usize);
                assert(c.execution_order@ =~= seq![0usize, 1usize]);
            }
            c
        },
        Err(_) => EnricherCoordinator { enrichers: Vec::new(), execution_order: Vec::new() },
    }
}

/// The enrichers of this library add to results: they neither drop a result,
/// nor change its place, score, path, id or address.
pub proof fn law_enriching_keeps_results(
    list: Seq<Enricher>,
    order: Seq<usize>,
    ctx: SearchContext,
    input: SearchInput,
    extracts: Seq<Option<Seq<char>>>,
    before: Seq<RichResult>,
    after: Seq<RichResult>,
)
    requires
        all_enriched(list, order, ctx, input, extracts, before, after),
    ensures
        after.len() == before.len(),
        forall|i: int|
            0 <= i < after.len() ==> {
                &&& (#[trigger] after[i]).score == before[i].score
                &&& after[i].path == before[i].path
                &&& after[i].doc_id == before[i].doc_id
                &&& after[i].doc_address == before[i].doc_address
            },
    decreases order.len(),
{
    if order.len() > 0 {
        let mid = choose|mid: Seq<RichResult>|
            all_enriched(list, order.drop_last(), ctx, input, extracts, before, mid)
                && #[trigger] list[order.last() as int].gives(
                ctx,
                input,
                extracts,
                mid,
                Ok(()),
                after,
            );
        law_enriching_keeps_results(list, order.drop_last(), ctx, input, extracts, before, mid);
        assert forall|i: int| 0 <= i < after.len() implies {
            &&& (#[trigger] after[i]).score == before[i].score
            &&& after[i].path == before[i].path
            &&& after[i].doc_id == before[i].doc_id
            &&& after[i].doc_address == before[i].doc_address
        } by {
            assert(mid[i].score == before[i].score);
        }
    }
}

/// The enrichers of this library do not fail.
pub proof fn law_enriching_succeeds(
    list: Seq<Enricher>,
    order: Seq<usize>,
    ctx: SearchContext,
    input: SearchInput,
    extracts: Seq<Option<Seq<char>>>,
    before: Seq<RichResult>,
    e: SearchError,
    after: Seq<RichResult>,
)
    ensures
        !enriching_fails(list, order, ctx, input, extracts, before, e, after),
{
}

// ---------------------------------------------------------------------------
// The search
// ---------------------------------------------------------------------------

/// What a search asks of the index: the text for the query parser, the clauses,
/// and how many hits.
#[derive(Debug)]
pub struct Asked {
    pub query: String,
    pub plan: Vec<PlannedClause>,
    pub fetch: usize,
}

/// A search with one way to read queries, one to find hits, and its enrichers.
pub struct SearchPipeline<B, G, E> {
    pub ctx: SearchContext,
    pub builder: B,
    pub engine: G,
    pub enrichers: EnricherCoordinator<E>,
}

impl<B: QueryBuilder, G: SearchEngine, E: ResultEnricher> SearchPipeline<B, G, E> {
    /// Whether the parts of the search are in order.
    pub open spec fn wf(self) -> bool {
        &&& self.ctx.position_store matches Some(s) ==> s.wf()
        &&& self.enrichers.wf()
    }

    /// A search made of these parts.
    pub fn new(
        ctx: SearchContext,
        builder: B,
        engine: G,
        enrichers: EnricherCoordinator<E>,
    ) -> (p: Self)
        ensures
            p == (SearchPipeline { ctx, builder, engine, enrichers }),
    {
        SearchPipeline { ctx, builder, engine, enrichers }
    }

    /// What the search can look up.
    pub fn ctx(&self) -> (c: &SearchContext)
        ensures
            *c == self.ctx,
    {
        &self.ctx
    }

    /// What a search asks of the index. A query that the builder refuses is an
    /// error, whatever else is asked.
    pub fn execute_raw(&self, input: &SearchInput) -> (r: Result<Asked, SearchError>)
        ensures
            match r {
                Ok(a) => {
                    &&& call_ensures(B::build, (&self.builder, input), Ok(a.query))
                    &&& call_ensures(G::search, (&self.engine, input), a.plan)
                    &&& a.fetch == if input.limit + input.offset <= usize::MAX {
                        input.limit + input.offset
                    } else {
                        input.limit as int
                    }
                },
                Err(e) => call_ensures(B::build, (&self.builder, input), Err(e)),
            },
    {
        match self.builder.build(input) {
            Err(e) => Err(e),
            Ok(query) => Ok(
                Asked {
                    query,
                    plan: self.engine.search(input),
                    fetch: fetch_count(input.limit, input.offset),
                },
            ),
        }
    }

    /// The results of a search, from what the index found.
    pub fn execute(
        &self,
        input: &SearchInput,
        raw: Vec<RawResult>,
        snippets: &Vec<Option<String>>,
    ) -> (r: Result<Vec<RichResult>, SearchError>)
        requires
            self.wf(),
            snippets@.len() == raw@.len(),
        ensures
            match r {
                Ok(rich) => is_answer(
                    self.enrichers,
                    self.ctx,
                    *input,
                    extracts(snippets@),
                    raw@,
                    rich@,
                ),
                Err(e) => answer_fails(
                    self.enrichers,
                    self.ctx,
                    *input,
                    extracts(snippets@),
                    raw@,
                    e,
                ),
            },
    {
        let mut rich = raw_to_rich(raw);
        let ghost bare = rich@;
        assert(are_rich(raw@, bare));
        match self.enrichers.enrich_all(&self.ctx, input, snippets, &mut rich) {
            Ok(_) => Ok(rich),
            Err(e) => {
                assert(enriching_fails(
                    self.enrichers.enrichers@,
                    self.enrichers.execution_order@,
                    self.ctx,
                    *input,
                    extracts(snippets@),
                    bare,
                    e,
                    rich@,
                ));
                Err(e)
            },
        }
    }

    /// The response to a search, from what the index found.
    pub fn execute_to_response(
        &self,
        input: &SearchInput,
        raw: Vec<RawResult>,
        snippets: &Vec<Option<String>>,
        total_count: u64,
    ) -> (r: Result<SearchResponse, SearchError>)
        requires
            self.wf(),
            snippets@.len() == raw@.len(),
            page_number(input.limit as int, input.offset as int) <= usize::MAX,
        ensures
            match r {
                Ok(x) => {
                    &&& x.success
                    &&& x.total_count == total_count
                    &&& x.page == page_number(input.limit as int, input.offset as int)
                    &&& x.page_size == input.limit
                    &&& x.query@ == input.query_str@
                    &&& x.metadata@ == Seq::<(String, String)>::empty()
                    &&& exists|name: &'static str|
                        call_ensures(B::name, (&self.builder,), name) && x.strategy@
                            == #[trigger] name@
                    &&& exists|rich: Seq<RichResult>|
                        x.results@ == rich.map_values(|y: RichResult| result_of(y))
                            && #[trigger] is_answer(
                            self.enrichers,
                            self.ctx,
                            *input,
                            extracts(snippets@),
                            raw@,
                            rich,
                        )
                },
                Err(e) => answer_fails(
                    self.enrichers,
                    self.ctx,
                    *input,
                    extracts(snippets@),
                    raw@,
                    e,
                ),
            },
    {
        match self.execute(input, raw, snippets) {
            Ok(rich) => {
                let name = self.builder.name();
                Ok(JsonResponseBuilder::build(rich, total_count, input, name))
            },
            Err(e) => Err(e),
        }
    }
}

/// Whether `bare` says of each raw hit what the index said.
pub open spec fn are_rich(raw: Seq<RawResult>, bare: Seq<RichResult>) -> bool {
    &&& bare.len() == raw.len()
    &&& forall|i: int| 0 <= i < bare.len() ==> is_rich(#[trigger] raw[i], bare[i])
}

/// Whether `rich` are the results for raw hits: what the index said of each, and
/// what enrichers add to it.
pub open spec fn is_answer<E: ResultEnricher>(
    c: EnricherCoordinator<E>,
    ctx: SearchContext,
    input: SearchInput,
    extracts: Seq<Option<Seq<char>>>,
    raw: Seq<RawResult>,
    rich: Seq<RichResult>,
) -> bool {
    exists|bare: Seq<RichResult>| #[trigger]
        are_rich(raw, bare) && all_enriched(
            c.enrichers@,
            c.execution_order@,
            ctx,
            input,
            extracts,
            bare,
            rich,
        )
}

/// Whether an enricher fails with `e` on raw hits.
pub open spec fn answer_fails<E: ResultEnricher>(
    c: EnricherCoordinator<E>,
    ctx: SearchContext,
    input: SearchInput,
    extracts: Seq<Option<Seq<char>>>,
    raw: Seq<RawResult>,
    e: SearchError,
) -> bool {
    exists|bare: Seq<RichResult>, after: Seq<RichResult>|
        are_rich(raw, bare) && #[trigger] enriching_fails(
            c.enrichers@,
            c.execution_order@,
            ctx,
            input,
            extracts,
            bare,
            e,
            after,
        )
}

/// The answer of a search with the enrichers that are used where none are
/// named has one result for each hit, in order, with the score, the path, the
/// id and the address of the hit, with the terms and phrases of the query, and
/// with the extract of the document where there is one.
pub proof fn law_default_answer(
    c: EnricherCoordinator<Enricher>,
    ctx: SearchContext,
    input: SearchInput,
    extracts: Seq<Option<Seq<char>>>,
    raw: Seq<RawResult>,
    rich: Seq<RichResult>,
    i: int,
)
    requires
        c.enrichers@ == seq![Enricher::TermCollector, Enricher::Snippet],
        c.execution_order@ == seq![0usize, 1usize],
        is_answer(c, ctx, input, extracts, raw, rich),
        0 <= i < raw.len(),
    ensures
        rich.len() == raw.len(),
        rich[i].score == raw[i].score,
        raw[i].path matches Some(p) ==> rich[i].path == p,
        raw[i].path is None ==> rich[i].path@.len() == 0,
        rich[i].doc_id is Some <==> raw[i].id is Some,
        raw[i].id matches Some(id) ==> rich[i].doc_id == Some(id as i64),
        rich[i].doc_address == Some(raw[i].address),
        rich[i].positions@.len() == 0,
        texts(rich[i].matched_terms@) == terms_for(input),
        terms_for(input).len() > 0 ==> group_texts(rich[i].phrase_groups@) == groups_for(input),
        match extracts[i] {
            Some(text) => rich[i].snippet matches Some(s) && s@ == text,
            None => rich[i].snippet is None,
        },
{
    let bare = choose|bare: Seq<RichResult>| #[trigger]
        are_rich(raw, bare) && all_enriched(
            c.enrichers@,
            c.execution_order@,
            ctx,
            input,
            extracts,
            bare,
            rich,
        );
    let list = c.enrichers@;
    let order = c.execution_order@;
    let front = order.drop_last();
    assert(front =~= seq![0usize]);
    assert(front.drop_last() =~= Seq::empty());
    let mid = choose|mid: Seq<RichResult>|
        all_enriched(list, front, ctx, input, extracts, bare, mid)
            && #[trigger] list[order.last() as int].gives(
            ctx,
            input,
            extracts,
            mid,
            Ok(()),
            rich,
        );
    let start = choose|start: Seq<RichResult>|
        all_enriched(list, front.drop_last(), ctx, input, extracts, bare, start)
            && #[trigger] list[front.last() as int].gives(
            ctx,
            input,
            extracts,
            start,
            Ok(()),
            mid,
        );
    assert(start == bare);
    assert(list[0] == Enricher::TermCollector && list[1] == Enricher::Snippet);
    assert(are_tagged(input, bare, mid));
    assert(have_extracts(mid, rich, extracts));
    assert(is_rich(raw[i], bare[i]));
    assert(has_extract(mid[i], rich[i], extracts[i]));
    if terms_for(input).len() > 0 {
        assert(is_tagged(bare[i], mid[i], terms_for(input), groups_for(input)));
    } else {
        assert(texts(rich[i].matched_terms@) =~= terms_for(input));
    }
}

} // verus!
