use pdf_extractor::extractor::WordPosition;
use pdf_extractor::positions::PositionStore;
use pdf_extractor::search::builders::auto_phrase::AutoPhraseQueryBuilder;
use pdf_extractor::search::builders::boolean_phrase::BooleanPhraseQueryBuilder;
use pdf_extractor::search::builders::default_strategy;
use pdf_extractor::search::engines::{
    boolean_page, combine, fetch_count, page, Clause, Combined, Occur, TantivyEngine,
};
use pdf_extractor::search::enrichers::positions::{query_terms, PositionEnricher};
use pdf_extractor::search::enrichers::snippet::SnippetEnricher;
use pdf_extractor::search::enrichers::term_collector::TermCollectorEnricher;
use pdf_extractor::search::enrichers::{arrange, EnricherCoordinator, EnricherDeps};
use pdf_extractor::search::errors::SearchError;
use pdf_extractor::search::pipeline::{default_enrichers, Enricher, SearchPipeline};
use pdf_extractor::search::response::JsonResponseBuilder;
use pdf_extractor::search::traits::{QueryBuilder, ResultEnricher, SearchEngine};
use pdf_extractor::search::types::{
    raw_to_rich, RawResult, RichResult, SearchContext, SearchInput, SearchStrategy,
};

fn asked(query: &str) -> SearchInput {
    SearchInput { query_str: query.to_string(), ..Default::default() }
}

fn auto(query: &str) -> Result<String, String> {
    AutoPhraseQueryBuilder.build(&asked(query)).map_err(|e| e.message())
}

fn boolean(query: &str) -> Result<String, String> {
    BooleanPhraseQueryBuilder.build(&asked(query)).map_err(|e| e.message())
}

fn raw(id: Option<u64>) -> RawResult {
    RawResult { score: 1.0_f32.to_bits(), path: Some("/a.pdf".into()), id, address: (0, 7) }
}

fn hits(n: u64) -> Vec<RichResult> {
    raw_to_rich((0..n).map(|i| raw(Some(i))).collect())
}

fn word(page: u32, at: f32, text: &str) -> WordPosition {
    WordPosition {
        page,
        x_min: at.to_bits(),
        y_min: 0,
        x_max: (at + 1.0).to_bits(),
        y_max: 0,
        text: text.to_string(),
    }
}

fn context() -> SearchContext {
    let mut store = PositionStore::open_in_memory();
    let words = vec![
        (0, word(1, 10.0, "Hello")),
        (1, word(1, 20.0, "world")),
        (2, word(2, 30.0, "hello")),
    ];
    store.store_positions(1, &words).unwrap();
    SearchContext { position_store: Some(store) }
}

// --- Builders ---

#[test]
fn words_without_quotes_are_a_phrase() {
    assert_eq!(auto("  machine   learning ").unwrap(), "\"machine   learning\"");
    assert_eq!(auto("hello").unwrap(), "hello");
    assert_eq!(auto("\"a b\" c").unwrap(), "\"a b\" c");
    assert_eq!(auto("a AND b").unwrap(), "\"a AND b\"");
    assert_eq!(auto("").unwrap(), "");
    assert_eq!(AutoPhraseQueryBuilder.name(), "auto_phrase");
    assert_eq!(default_strategy().name(), "auto_phrase");
}

#[test]
fn operators_are_left_to_the_parser() {
    assert_eq!(boolean("machine learning").unwrap(), "\"machine learning\"");
    assert_eq!(boolean("a AND b").unwrap(), "a AND b");
    assert_eq!(boolean("a or b").unwrap(), "a or b");
    assert_eq!(boolean("a +b").unwrap(), "a +b");
    assert_eq!(boolean("(a b)").unwrap(), "(a b)");
    assert_eq!(boolean("android band").unwrap(), "\"android band\"");
    assert_eq!(BooleanPhraseQueryBuilder.name(), "boolean_phrase");
}

#[test]
fn queries_that_are_refused() {
    let plus = "Failed to parse query: '+' operator requires a term to perform the search";
    let minus = "Failed to parse query: '-' operator requires a term to perform the search";
    assert_eq!(auto(" + ").unwrap_err(), plus);
    assert_eq!(auto("-").unwrap_err(), minus);
    assert_eq!(boolean("+").unwrap_err(), plus);
    assert_eq!(boolean("  ").unwrap_err(), "Failed to parse query: Query is empty");
}

#[test]
fn messages_of_errors() {
    let text = |e: SearchError| e.message();
    assert_eq!(text(SearchError::ParseError("x".into())), "Failed to parse query: x");
    assert_eq!(text(SearchError::ExecutionError("x".into())), "Search execution failed: x");
    assert_eq!(text(SearchError::EnricherError("x".into())), "Enricher failed: x");
    assert_eq!(text(SearchError::UnknownStrategy("x".into())), "Unknown search strategy: x");
}

// --- Plans and pages ---

#[test]
fn a_plan_of_the_engine() {
    assert!(TantivyEngine.search(&asked("  ")).is_empty());
    let plan = TantivyEngine.search(&asked("word"));
    assert_eq!(plan.len(), 1);
    assert!(matches!(plan[0].clause, Clause::Built));
    let filtered = SearchInput { path_filter: Some("a.*".into()), ..asked("word") };
    let plan = TantivyEngine.count(&filtered);
    assert_eq!(plan.len(), 2);
    match &plan[1].clause {
        Clause::PathPattern { pattern } => assert_eq!(pattern, "a.*"),
        c => panic!("{:?}", c),
    }
    let unfiltered = SearchInput { path_filter: Some(String::new()), ..asked("word") };
    assert_eq!(TantivyEngine.search(&unfiltered).len(), 1);
}

#[test]
fn one_clause_stands_alone() {
    assert!(matches!(combine(Vec::<(Occur, u8)>::new()), Combined::Nothing));
    assert!(matches!(combine(vec![(Occur::Should, 5)]), Combined::One(5)));
    assert!(matches!(
        combine(vec![(Occur::MustNot, 5)]),
        Combined::Several(v) if v == vec![(Occur::MustNot, 5)]
    ));
    match combine(vec![(Occur::Must, 1), (Occur::MustNot, 2)]) {
        Combined::Several(v) => assert_eq!(v.len(), 2),
        _ => panic!("two clauses are several"),
    }
}

#[test]
fn pages_of_hits() {
    let all: Vec<u8> = (0..7).collect();
    assert_eq!(page(all.clone(), 3, 0), vec![0, 1, 2]);
    assert_eq!(page(all.clone(), 3, 3), vec![3, 4, 5]);
    assert_eq!(page(all.clone(), 3, 6), vec![6]);
    assert_eq!(page(all.clone(), 3, 7), Vec::<u8>::new());
    assert_eq!(page(all.clone(), 0, 2), vec![2]);
    assert_eq!(boolean_page(all.clone(), 5), vec![5, 6]);
    assert_eq!(boolean_page(all.clone(), 7), all);
    assert_eq!(fetch_count(10, 5), 15);
    assert_eq!(fetch_count(10, usize::MAX), 10);
}

// --- Enrichers ---

fn deps(kind: u64, on: &[u64]) -> EnricherDeps {
    EnricherDeps { kind, depends_on: on.to_vec() }
}

#[test]
fn enrichers_have_an_order() {
    let order = |v: Vec<EnricherDeps>| arrange(&v).unwrap();
    assert_eq!(default_enrichers().execution_order, vec![0, 1]);
    assert_eq!(order(Vec::new()), Vec::<usize>::new());
    assert_eq!(order(vec![deps(1, &[]), deps(2, &[]), deps(3, &[])]), vec![0, 1, 2]);
    assert_eq!(order(vec![deps(1, &[]), deps(2, &[1])]), vec![0, 1]);
    assert_eq!(order(vec![deps(1, &[2]), deps(2, &[])]), vec![1, 0]);
    assert_eq!(order(vec![deps(1, &[9])]), vec![0]);
}

#[test]
fn enrichers_run_as_they_become_ready() {
    let order = |v: Vec<EnricherDeps>| arrange(&v).unwrap();
    let list = vec![deps(1, &[2]), deps(2, &[]), deps(3, &[])];
    assert_eq!(order(list), vec![1, 2, 0]);
    let list = vec![deps(1, &[3]), deps(2, &[3]), deps(3, &[4]), deps(4, &[])];
    assert_eq!(order(list), vec![3, 2, 0, 1]);
    let list = vec![deps(1, &[2, 3]), deps(2, &[]), deps(2, &[]), deps(3, &[2])];
    assert_eq!(order(list), vec![1, 2, 3, 0]);
}

#[test]
fn a_circle_of_enrichers_is_an_error() {
    for list in [vec![deps(1, &[2]), deps(2, &[1])], vec![deps(1, &[1])]] {
        assert!(arrange(&list).is_none());
    }
    let circle = vec![Named::new(1, &[2]), Named::new(2, &[1])];
    match EnricherCoordinator::new(circle) {
        Err(e) => assert_eq!(
            e.message(),
            "Enricher failed: Circular dependency detected in enrichers"
        ),
        Ok(_) => panic!("there is no order"),
    }
}

/// Adds its kind to the terms of every result, or fails.
struct Named {
    kind: u64,
    on: Vec<u64>,
    failure: Option<&'static str>,
}

impl Named {
    fn new(kind: u64, on: &[u64]) -> Named {
        Named { kind, on: on.to_vec(), failure: None }
    }
}

impl ResultEnricher for Named {
    fn enrich(
        &self,
        _: &SearchContext,
        _: &SearchInput,
        _: &Vec<Option<String>>,
        results: &mut Vec<RichResult>,
    ) -> Result<(), SearchError> {
        if let Some(failure) = self.failure {
            return Err(SearchError::EnricherError(failure.to_string()));
        }
        for r in results.iter_mut() {
            r.matched_terms.push(self.kind.to_string());
        }
        Ok(())
    }

    fn depends_on(&self) -> Vec<u64> {
        self.on.clone()
    }

    fn type_id(&self) -> u64 {
        self.kind
    }
}

#[test]
fn an_enricher_runs_after_those_it_depends_on() {
    let list = vec![Named::new(1, &[3]), Named::new(2, &[1]), Named::new(3, &[])];
    let enrichers = EnricherCoordinator::new(list).unwrap();
    assert_eq!(enrichers.execution_order, vec![2, 0, 1]);
    let mut results = hits(2);
    let extracts = vec![None, None];
    enrichers.enrich_all(&context(), &asked("q"), &extracts, &mut results).unwrap();
    assert_eq!(results[0].matched_terms, vec!["3", "1", "2"]);
    assert_eq!(results[1].matched_terms, vec!["3", "1", "2"]);
}

#[test]
fn the_first_enricher_that_fails_ends_a_search() {
    let failing = Named { failure: Some("no"), ..Named::new(2, &[]) };
    let list = vec![Named::new(1, &[]), failing, Named::new(3, &[])];
    let enrichers = EnricherCoordinator::new(list).unwrap();
    let mut results = hits(1);
    let e = enrichers.enrich_all(&context(), &asked("q"), &vec![None], &mut results).unwrap_err();
    assert_eq!(e.message(), "Enricher failed: no");
    assert_eq!(results[0].matched_terms, vec!["1"]);
    let search = SearchPipeline::new(context(), AutoPhraseQueryBuilder, TantivyEngine, enrichers);
    assert!(search.execute(&asked("q"), vec![raw(Some(1))], &vec![None]).is_err());
    assert!(search.execute_to_response(&asked("q"), vec![raw(Some(1))], &vec![None], 1).is_err());
}

#[test]
fn the_kinds_of_enrichers() {
    let kinds = [TermCollectorEnricher.type_id(), SnippetEnricher.type_id(), PositionEnricher.type_id()];
    let all = [Enricher::TermCollector, Enricher::Snippet, Enricher::Positions];
    assert_eq!(kinds, all.map(|e| e.type_id()));
    assert!(kinds[0] != kinds[1] && kinds[1] != kinds[2] && kinds[0] != kinds[2]);
    assert!(all.iter().all(|e| e.depends_on().is_empty()));
}

#[test]
fn terms_whose_places_are_looked_up() {
    assert_eq!(query_terms("Hello, \"world\" hello -x"), vec!["Hello", "world", "x"]);
    assert!(query_terms(" ,;- ").is_empty());
}

#[test]
fn places_are_added() {
    let mut results = raw_to_rich(vec![raw(Some(1)), raw(Some(2)), raw(None)]);
    let extracts = vec![None, None, None];
    PositionEnricher.enrich(&context(), &asked("world hello"), &extracts, &mut results).unwrap();
    let boxes: Vec<(u32, f32)> =
        results[0].positions.iter().map(|p| (p.page, f32::from_bits(p.x_min))).collect();
    assert_eq!(boxes, vec![(1, 20.0), (1, 10.0), (2, 30.0)]);
    assert_eq!(f32::from_bits(results[0].positions[0].x_max), 21.0);
    assert!(results[1].positions.is_empty());
    assert!(results[2].positions.is_empty());
}

#[test]
fn without_stored_places_nothing_changes() {
    let mut results = raw_to_rich(vec![raw(Some(1))]);
    let nowhere = SearchContext { position_store: None };
    PositionEnricher.enrich(&nowhere, &asked("hello"), &vec![None], &mut results).unwrap();
    assert!(results[0].positions.is_empty());
}

#[test]
fn extracts_are_added_to_hits_with_an_address() {
    let mut results = hits(3);
    results[1].doc_address = None;
    let extracts = vec![Some("a".to_string()), Some("b".to_string()), None];
    SnippetEnricher.enrich(&context(), &asked("a"), &extracts, &mut results).unwrap();
    assert_eq!(results[0].snippet.as_deref(), Some("a"));
    assert_eq!(results[1].snippet, None);
    assert_eq!(results[2].snippet, None);
}

// --- Results ---

#[test]
fn hits_as_the_index_gives_them() {
    let rich = raw_to_rich(vec![
        raw(Some(5)),
        RawResult { score: 0, path: None, id: None, address: (3, 4) },
    ]);
    assert_eq!((rich[0].path.as_str(), rich[0].doc_id), ("/a.pdf", Some(5)));
    assert_eq!(rich[0].doc_address, Some((0, 7)));
    assert_eq!((rich[1].path.as_str(), rich[1].doc_id), ("", None));
    assert!(rich[1].snippet.is_none() && rich[1].matched_terms.is_empty());
}

#[test]
fn pages_of_responses() {
    let number = |limit: usize, offset: usize| {
        let input = SearchInput { limit, offset, ..asked("q") };
        JsonResponseBuilder::build(hits(2), 9, &input, "auto_phrase").page
    };
    assert_eq!(number(10, 0), 1);
    assert_eq!(number(10, 25), 3);
    assert_eq!(number(0, 25), 1);
    let r = JsonResponseBuilder::build(hits(2), 9, &asked("q"), "s");
    assert!(r.success);
    assert_eq!((r.total_count, r.page_size, r.results.len()), (9, 50, 2));
    assert_eq!((r.query.as_str(), r.strategy.as_str()), ("q", "s"));
    assert_eq!(r.results[1].doc_id, Some(1));
}

#[test]
fn a_search_from_query_to_response() {
    let list = vec![Enricher::TermCollector, Enricher::Snippet, Enricher::Positions];
    let enrichers = EnricherCoordinator::new(list).unwrap();
    let search = SearchPipeline::new(context(), AutoPhraseQueryBuilder, TantivyEngine, enrichers);
    assert!(search.ctx().position_store.is_some());
    let input = SearchInput { limit: 5, offset: 5, ..asked("hello world") };
    let ask = search.execute_raw(&input).unwrap();
    assert_eq!((ask.query.as_str(), ask.plan.len(), ask.fetch), ("\"hello world\"", 1, 10));
    let extracts = vec![Some("<b>hello</b>".to_string())];
    let rich = search.execute(&input, vec![raw(Some(1))], &extracts).unwrap();
    assert_eq!(rich[0].positions.len(), 3);
    assert_eq!(rich[0].snippet.as_deref(), Some("<b>hello</b>"));
    assert_eq!(rich[0].matched_terms, vec!["hello", "world"]);
    let response =
        search.execute_to_response(&input, vec![raw(Some(1))], &extracts, 6).unwrap();
    assert_eq!((response.page, response.total_count), (2, 6));
    assert_eq!(response.strategy, "auto_phrase");
    assert!(response.metadata.is_empty());
    assert_eq!(response.results[0].positions.len(), 3);
    assert!(search.execute_raw(&asked("+")).is_err());
}

#[test]
fn what_is_asked_where_nothing_is_said() {
    let input = SearchInput::default();
    assert_eq!((input.limit, input.offset), (50, 0));
    assert_eq!(input.strategy, SearchStrategy::AutoPhrase);
    assert!(input.query_str.is_empty() && input.field.is_none() && input.path_filter.is_none());
}

#[test]
fn a_phrase_is_put_in_quotes_once() {
    let once = auto("  hello world ").unwrap();
    assert_eq!(once, "\"hello world\"");
    assert_eq!(auto(&once).unwrap(), once);
    let once = boolean("hello world").unwrap();
    assert_eq!(boolean(&once).unwrap(), once);
    assert_eq!(boolean("hello AND world").unwrap(), "hello AND world");
}
