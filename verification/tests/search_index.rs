use pdf_extractor::indexer::{build_schema, missing_field_message, FieldKind, IndexOp, SearchIndex};
use pdf_extractor::search::builders::auto_phrase::{
    parse_query_auto_phrase, AutoPhraseQueryBuilder,
};
use pdf_extractor::search::builders::boolean_phrase::BooleanPhraseQueryBuilder;
use pdf_extractor::search::engines::{
    boolean_page, combine, fetch_count, page, Clause, Combined, Occur, PlannedClause,
    TantivyEngine,
};
use pdf_extractor::search::enrichers::EnricherCoordinator;
use pdf_extractor::search::pipeline::{default_enrichers, Enricher, SearchPipeline};
use pdf_extractor::search::traits::{QueryBuilder, SearchEngine};
use pdf_extractor::search::types::{
    raw_to_rich, RawResult, RichResult, SearchContext, SearchInput,
};
use pdf_extractor::tokenizers::LanguageAwareTokenizer;
use tantivy::collector::{Count, TopDocs};
use tantivy::query::{
    BooleanQuery, BoostQuery, FuzzyTermQuery, Query, QueryParser, RegexQuery, TermQuery,
};
use tantivy::schema::{
    Field, IndexRecordOption, TextFieldIndexing, TextOptions, Value, INDEXED, STORED, STRING,
};
use tantivy::{DocAddress, DocSet, IndexWriter, Postings, TantivyDocument, Term};

// --- The index in memory ---

struct Stream {
    tokens: Vec<tantivy::tokenizer::Token>,
    reached: usize,
}

impl tantivy::tokenizer::TokenStream for Stream {
    fn advance(&mut self) -> bool {
        if self.reached < self.tokens.len() {
            self.reached += 1;
            true
        } else {
            false
        }
    }

    fn token(&self) -> &tantivy::tokenizer::Token {
        &self.tokens[self.reached - 1]
    }

    fn token_mut(&mut self) -> &mut tantivy::tokenizer::Token {
        &mut self.tokens[self.reached - 1]
    }
}

#[derive(Clone)]
struct Registered;

impl tantivy::tokenizer::Tokenizer for Registered {
    type TokenStream<'a> = Stream;

    fn token_stream<'a>(&'a mut self, text: &'a str) -> Stream {
        let tokens = LanguageAwareTokenizer
            .token_stream(text)
            .into_tokens()
            .into_iter()
            .map(|t| tantivy::tokenizer::Token {
                offset_from: t.offset_from,
                offset_to: t.offset_to,
                position: t.position,
                text: t.text,
                position_length: t.position_length,
            })
            .collect();
        Stream { tokens, reached: 0 }
    }
}

type Hits = Vec<(f32, TantivyDocument)>;

/// An index in memory that does what plans ask.
struct TestIndex {
    index: tantivy::Index,
    plans: SearchIndex,
    id_field: Field,
    path_field: Field,
    content_field: Field,
}

impl TestIndex {
    fn new() -> TestIndex {
        let mut builder = tantivy::schema::Schema::builder();
        for f in build_schema() {
            match f.kind {
                FieldKind::Number => {
                    builder.add_u64_field(f.name, INDEXED | STORED);
                }
                FieldKind::Whole => {
                    builder.add_text_field(f.name, STRING | STORED);
                }
                FieldKind::Tokens => {
                    let indexing = TextFieldIndexing::default()
                        .set_tokenizer("multilang")
                        .set_index_option(IndexRecordOption::WithFreqsAndPositions);
                    builder.add_text_field(
                        f.name,
                        TextOptions::default().set_indexing_options(indexing),
                    );
                }
            }
        }
        let schema = builder.build();
        let index = tantivy::Index::create_in_ram(schema.clone());
        let analyzer = tantivy::tokenizer::TextAnalyzer::builder(Registered).build();
        index.tokenizers().register("multilang", analyzer);
        TestIndex {
            index,
            plans: SearchIndex::new("in memory").unwrap(),
            id_field: schema.get_field("id").unwrap(),
            path_field: schema.get_field("path").unwrap(),
            content_field: schema.get_field("content").unwrap(),
        }
    }

    fn writer(&self) -> Result<IndexWriter, String> {
        self.index.writer_with_num_threads(1, 20_000_000).map_err(|e| e.to_string())
    }

    fn apply(&self, writer: &mut IndexWriter, ops: Vec<IndexOp>) {
        for op in ops {
            match op {
                IndexOp::DeleteId(id) => {
                    writer.delete_term(Term::from_field_u64(self.id_field, id));
                }
                IndexOp::DeletePath(path) => {
                    writer.delete_term(Term::from_field_text(self.path_field, &path));
                }
                IndexOp::Add { id, path, text } => {
                    let mut doc = TantivyDocument::new();
                    doc.add_u64(self.id_field, id);
                    doc.add_text(self.path_field, &path);
                    doc.add_text(self.content_field, &text);
                    writer.add_document(doc).unwrap();
                }
                IndexOp::Commit => {
                    writer.commit().unwrap();
                }
            }
        }
    }

    fn searcher(&self) -> tantivy::Searcher {
        self.index.reader().unwrap().searcher()
    }

    fn parse(&self, text: &str, field: Field, all: bool) -> Result<Box<dyn Query>, String> {
        let mut parser = QueryParser::for_index(&self.index, vec![field]);
        if all {
            parser.set_conjunction_by_default();
        }
        parser.parse_query(text).map_err(|e| e.to_string())
    }

    fn field(&self, name: &str) -> Result<Field, String> {
        self.index.schema().get_field(name).map_err(|_| missing_field_message(name))
    }

    fn fuzzy(&self, term: &str, field: Field, distance: u8) -> Box<dyn Query> {
        Box::new(FuzzyTermQuery::new(Term::from_field_text(field, term), distance, true))
    }

    fn query(&self, clause: Clause, built: &Option<String>) -> Result<Box<dyn Query>, String> {
        match clause {
            Clause::Built => self.parse(built.as_ref().unwrap(), self.content_field, true),
            Clause::AutoPhrase { text, field } => {
                self.parse(&parse_query_auto_phrase(&text), self.field(&field)?, true)
            }
            Clause::Parsed { text, field } => self.parse(&text, self.field(&field)?, false),
            Clause::Fuzzy { term, field, distance } => {
                Ok(self.fuzzy(&term, self.field(&field)?, distance))
            }
            Clause::AnyFuzzy { terms, field, distance } => {
                let field = self.field(&field)?;
                let any = terms
                    .iter()
                    .map(|t| (tantivy::query::Occur::Should, self.fuzzy(t, field, distance)))
                    .collect();
                Ok(Box::new(BooleanQuery::new(any)))
            }
            Clause::Boosted { text, field, boost } => {
                let inner = self.parse(&parse_query_auto_phrase(&text), self.field(&field)?, true)?;
                Ok(Box::new(BoostQuery::new(inner, f32::from_bits(boost))))
            }
            Clause::PathPattern { pattern } => {
                match RegexQuery::from_pattern(&pattern, self.path_field) {
                    Ok(q) => Ok(Box::new(q)),
                    Err(e) => Err(e.to_string()),
                }
            }
        }
    }

    fn combined(
        &self,
        plan: Vec<PlannedClause>,
        built: &Option<String>,
    ) -> Result<Option<Box<dyn Query>>, String> {
        let mut queries = Vec::new();
        for p in plan {
            match self.query(p.clause, built) {
                Ok(q) => queries.push((p.occur, q)),
                Err(e) => {
                    if !p.optional {
                        return Err(e);
                    }
                }
            }
        }
        Ok(match combine(queries) {
            Combined::Nothing => None,
            Combined::One(q) => Some(q),
            Combined::Several(list) => {
                let list = list
                    .into_iter()
                    .map(|(o, q)| {
                        let occur = match o {
                            Occur::Must => tantivy::query::Occur::Must,
                            Occur::Should => tantivy::query::Occur::Should,
                            Occur::MustNot => tantivy::query::Occur::MustNot,
                        };
                        (occur, q)
                    })
                    .collect();
                Some(Box::new(BooleanQuery::new(list)))
            }
        })
    }

    fn top(
        &self,
        plan: Vec<PlannedClause>,
        built: &Option<String>,
        n: usize,
    ) -> Result<Vec<(f32, DocAddress)>, String> {
        match self.combined(plan, built)? {
            None => Ok(Vec::new()),
            Some(q) => {
                self.searcher().search(&*q, &TopDocs::with_limit(n)).map_err(|e| e.to_string())
            }
        }
    }

    fn documents(&self, hits: Vec<(f32, DocAddress)>) -> Hits {
        let searcher = self.searcher();
        hits.into_iter().map(|(s, a)| (s, searcher.doc(a).unwrap())).collect()
    }

    fn hits(&self, plan: Vec<PlannedClause>, limit: usize, offset: usize) -> Result<Hits, String> {
        let top = self.top(plan, &None, fetch_count(limit, offset))?;
        Ok(self.documents(page(top, limit, offset)))
    }

    fn search(
        &self,
        query: &str,
        limit: usize,
        path_filter: Option<&str>,
        offset: usize,
    ) -> Result<Hits, String> {
        self.ask(self.plans.search(query, limit, owned(path_filter), offset))
    }

    fn ask(&self, input: SearchInput) -> Result<Hits, String> {
        let asked = pipeline(AutoPhraseQueryBuilder).execute_raw(&input).map_err(|e| e.message())?;
        let top = self.top(asked.plan, &Some(asked.query), asked.fetch)?;
        Ok(self.documents(page(top, input.limit, input.offset)))
    }

    fn search_stem(
        &self,
        query: &str,
        limit: usize,
        path_filter: Option<&str>,
        offset: usize,
        stem: bool,
    ) -> Result<Hits, String> {
        self.ask(self.plans.search_stem(query, limit, owned(path_filter), offset, stem))
    }

    fn search_count(&self, query: &str) -> Result<u64, String> {
        let q = self.query(self.plans.search_count(query), &None)?;
        Ok(self.searcher().search(&*q, &Count).unwrap() as u64)
    }

    fn search_fuzzy(
        &self,
        query: &str,
        limit: usize,
        path_filter: Option<&str>,
        offset: usize,
        distance: u8,
    ) -> Result<Hits, String> {
        let plan = self.plans.search_fuzzy(query, &owned(path_filter), distance);
        self.hits(plan, limit, offset)
    }

    fn search_in_field_fuzzy_stem(
        &self,
        query: &str,
        field: &str,
        limit: usize,
        path_filter: Option<&str>,
        offset: usize,
        distance: u8,
        _stem: bool,
    ) -> Result<Hits, String> {
        self.field(field)?;
        let filter = owned(path_filter);
        let plan = self.plans.search_in_field_fuzzy_stem(query, field, &filter, distance);
        self.hits(plan, limit, offset)
    }

    fn search_in_field(
        &self,
        query: &str,
        field: &str,
        limit: usize,
        path_filter: Option<&str>,
        offset: usize,
    ) -> Result<Hits, String> {
        self.field(field)?;
        let plan = self.plans.search_in_field(query, field, &owned(path_filter));
        self.hits(plan, limit, offset)
    }

    fn search_weighted_fields(
        &self,
        query: &str,
        fields: &[(&str, f32)],
        limit: usize,
        path_filter: Option<&str>,
        offset: usize,
    ) -> Result<Hits, String> {
        let fields = fields.iter().map(|(f, b)| (f.to_string(), b.to_bits())).collect();
        let plan = self.plans.search_weighted_fields(query, &fields, &owned(path_filter));
        self.hits(plan, limit, offset)
    }

    fn search_boolean(
        &self,
        clauses: &[(&str, Occur)],
        limit: usize,
        path_filter: Option<&str>,
        offset: usize,
    ) -> Result<Hits, String> {
        let clauses = clauses.iter().map(|(t, o)| (t.to_string(), *o)).collect();
        let plan = self.plans.search_boolean(&clauses, &owned(path_filter));
        let top = self.top(plan, &None, limit + offset)?;
        Ok(boolean_page(self.documents(top), offset))
    }

    fn delete_by_path(&self, pattern: &str) -> Result<u64, String> {
        let clause = Clause::PathPattern { pattern: pattern.to_string() };
        let q = self.query(clause, &None)?;
        let found = self.searcher().search(&*q, &TopDocs::with_limit(1000)).unwrap();
        let ids = self
            .documents(found)
            .iter()
            .map(|(_, d)| d.get_first(self.id_field).and_then(|v| v.as_u64()))
            .collect();
        let (ops, n) = self.plans.delete_by_path(&ids);
        self.apply(&mut self.writer()?, ops);
        Ok(n)
    }

    fn delete_by_id(&self, id: i64) -> Result<(), String> {
        self.apply(&mut self.writer()?, self.plans.delete_by_id(id));
        Ok(())
    }

    fn search_term_positions(&self, doc_id: u64, term: &str) -> Result<Vec<usize>, String> {
        let searcher = self.searcher();
        let id = TermQuery::new(
            Term::from_field_u64(self.id_field, doc_id),
            IndexRecordOption::Basic,
        );
        let top = searcher.search(&id, &TopDocs::with_limit(1)).unwrap();
        let address = match top.first() {
            Some((_, a)) => *a,
            None => return Ok(self.plans.search_term_positions(None, &Vec::new())),
        };
        let segment = searcher.segment_reader(address.segment_ord);
        let inverted = segment.inverted_index(self.content_field).unwrap();
        let term = Term::from_field_text(self.content_field, term);
        let option = IndexRecordOption::WithFreqsAndPositions;
        let mut all = Vec::new();
        if let Some(mut postings) = inverted.read_postings(&term, option).unwrap() {
            while postings.doc() != tantivy::TERMINATED {
                let mut places = Vec::new();
                postings.positions(&mut places);
                all.push((postings.doc(), places));
                postings.advance();
            }
        }
        Ok(self.plans.search_term_positions(Some(address.doc_id), &all))
    }
}

fn owned(s: Option<&str>) -> Option<String> {
    s.map(|s| s.to_string())
}

fn pipeline<B: QueryBuilder>(builder: B) -> SearchPipeline<B, TantivyEngine, Enricher> {
    let ctx = SearchContext { position_store: None };
    SearchPipeline::new(ctx, builder, TantivyEngine, default_enrichers())
}

fn add_doc(
    idx: &TestIndex,
    writer: &mut IndexWriter,
    id: i64,
    path: &str,
    _checksum: &str,
    text: &str,
    _raw: &str,
    _lang: &str,
) -> Result<(), String> {
    idx.apply(writer, idx.plans.add_document(id, path, text));
    Ok(())
}

/// Hits as the index gives them.
fn raw_hits<B: QueryBuilder>(
    idx: &TestIndex,
    builder: B,
    input: &SearchInput,
) -> Result<Vec<RawResult>, String> {
    let asked = pipeline(builder).execute_raw(input).map_err(|e| e.message())?;
    let top = idx.top(asked.plan, &Some(asked.query), asked.fetch)?;
    let searcher = idx.searcher();
    let raw = page(top, input.limit, input.offset)
        .into_iter()
        .map(|(score, a)| {
            let doc: TantivyDocument = searcher.doc(a).unwrap();
            RawResult {
                score: score.to_bits(),
                path: doc.get_first(idx.path_field).and_then(|v| v.as_str()).map(|s| s.to_string()),
                id: doc.get_first(idx.id_field).and_then(|v| v.as_u64()),
                address: (a.segment_ord, a.doc_id),
            }
        })
        .collect();
    Ok(raw)
}

fn count<B: QueryBuilder>(idx: &TestIndex, builder: B, input: &SearchInput) -> Result<u64, String> {
    let query = builder.build(input).map_err(|e| e.message())?;
    match idx.combined(TantivyEngine.count(input), &Some(query))? {
        None => Ok(0),
        Some(q) => Ok(idx.searcher().search(&*q, &Count).unwrap() as u64),
    }
}

/// An index with five documents.
fn setup_index() -> TestIndex {
    let idx = TestIndex::new();
    let mut writer = idx.writer().unwrap();
    for (id, path, text) in [
        (1, "/doc1.pdf", "hello world"),
        (2, "/doc2.pdf", "hello there"),
        (3, "/other.pdf", "rust programming language"),
        (4, "/doc4.pdf", "hello AND world boolean test"),
        (5, "/doc5.pdf", "hello OR world"),
    ] {
        add_doc(&idx, &mut writer, id, path, "", text, "", "").unwrap();
    }
    writer.commit().unwrap();
    idx
}

#[test]
fn test_tokenizer_registered() {
    let idx = TestIndex::new();
    assert!(idx.index.tokenizers().get("multilang").is_some(), "multilang tokenizer should be registered");
}

#[test]
fn test_search_in_field_fuzzy_stem_exact() {
    let idx = TestIndex::new();
    let mut writer = idx.writer().unwrap();

    add_doc(&idx, &mut writer, 1, "/a.pdf", "cs1", "hello world", "raw", "eng").unwrap();
    writer.commit().unwrap();

    let results = idx.search_in_field_fuzzy_stem("hello", "content", 10, None, 0, 0, false).unwrap();
    assert_eq!(results.len(), 1, "Exact search via fuzzy_stem should find match");
}

#[test]
fn test_search_in_field_fuzzy_stem_fuzzy() {
    let idx = TestIndex::new();
    let mut writer = idx.writer().unwrap();

    add_doc(&idx, &mut writer, 1, "/a.pdf", "cs1", "hello world", "raw", "eng").unwrap();
    writer.commit().unwrap();

    let results = idx.search_in_field_fuzzy_stem("hxllo", "content", 10, None, 0, 2, false).unwrap();
    assert_eq!(results.len(), 1, "Fuzzy search (distance 2) should find match");

    let results2 = idx.search_in_field_fuzzy_stem("hxllo", "content", 10, None, 0, 0, false).unwrap();
    assert_eq!(results2.len(), 0, "Exact search should not find typo");
}

#[test]
fn test_search_in_field_fuzzy_stem_empty_query() {
    let idx = TestIndex::new();
    let mut writer = idx.writer().unwrap();

    add_doc(&idx, &mut writer, 1, "/a.pdf", "cs1", "hello world", "raw", "eng").unwrap();
    writer.commit().unwrap();

    let results = idx.search_in_field_fuzzy_stem("", "content", 10, None, 0, 2, false).unwrap();
    assert_eq!(results.len(), 0, "Empty query should return empty results");
}

#[test]
fn test_search_in_field_fuzzy_stem_nonexistent_field() {
    let idx = TestIndex::new();
    let mut writer = idx.writer().unwrap();

    add_doc(&idx, &mut writer, 1, "/a.pdf", "cs1", "hello world", "raw", "eng").unwrap();
    writer.commit().unwrap();

    let result = idx.search_in_field_fuzzy_stem("hello", "bad_field", 10, None, 0, 2, false);
    assert!(result.is_err(), "Non-existent field should error");
    assert!(result.unwrap_err().contains("not found in schema"));
}

#[test]
fn test_search_in_field_fuzzy_stem_path_filter() {
    let idx = TestIndex::new();
    let mut writer = idx.writer().unwrap();

    add_doc(&idx, &mut writer, 1, "/a.pdf", "cs1", "hello world", "raw", "eng").unwrap();
    add_doc(&idx, &mut writer, 2, "/b.pdf", "cs2", "hello there", "raw", "eng").unwrap();
    writer.commit().unwrap();

    let results = idx.search_in_field_fuzzy_stem("hello", "content", 10, Some("/a.pdf"), 0, 0, false).unwrap();
    assert_eq!(results.len(), 1, "Path filter + field fuzzy_stem should find only the matching doc");
}

#[test]
fn test_add_and_search_document() {
    let idx = TestIndex::new();
    let mut writer = idx.writer().unwrap();

    add_doc(&idx, &mut writer, 1, "/doc.pdf", "cs1", "the quick brown fox", "the quick brown fox", "").unwrap();
    writer.commit().unwrap();

    let results = idx.search("fox", 10, None, 0).unwrap();
    assert_eq!(results.len(), 1);
    assert!(results[0].1.get_first(idx.path_field).unwrap().as_str().unwrap().contains("doc.pdf"));
}

#[test]
fn test_search_no_results() {
    let idx = TestIndex::new();
    let results = idx.search("nonexistent", 10, None, 0).unwrap();
    assert!(results.is_empty(), "Search with no matches should return empty");
}

#[test]
fn test_search_respects_limit() {
    let idx = TestIndex::new();
    let mut writer = idx.writer().unwrap();

    for i in 0..10 {
        let content = format!("document number {}", i);
        add_doc(&idx, &mut writer, i, &format!("/{}.pdf", i), &format!("cs{}", i), &content, &content, "").unwrap();
    }
    writer.commit().unwrap();

    let results = idx.search("document", 3, None, 0).unwrap();
    assert_eq!(results.len(), 3, "Limit should restrict results");
}

#[test]
fn test_search_case_insensitive() {
    let idx = TestIndex::new();
    let mut writer = idx.writer().unwrap();

    add_doc(&idx, &mut writer, 1, "/doc.pdf", "cs1", "Hello World", "Hello World", "").unwrap();
    writer.commit().unwrap();

    let results_lower = idx.search("hello", 10, None, 0).unwrap();
    assert_eq!(results_lower.len(), 1, "Case-insensitive search should find 'hello'");

    let results_upper = idx.search("WORLD", 10, None, 0).unwrap();
    assert_eq!(results_upper.len(), 1, "Case-insensitive search should find 'WORLD'");
}

#[test]
fn test_search_with_path_filter_filters_by_path() {
    let idx = TestIndex::new();
    let mut writer = idx.writer().unwrap();

    add_doc(&idx, &mut writer, 1, "/reports/2024.pdf", "cs1", "quarterly earnings report", "content", "").unwrap();
    add_doc(&idx, &mut writer, 2, "/invoices/2024.pdf", "cs2", "invoice total earnings", "content", "").unwrap();
    writer.commit().unwrap();

    let all = idx.search("earnings", 10, None, 0).unwrap();
    assert_eq!(all.len(), 2);

    let filtered = idx.search("earnings", 10, Some("/reports/.*"), 0).unwrap();
    assert_eq!(filtered.len(), 1);
    let path = filtered[0].1.get_first(idx.path_field).unwrap().as_str().unwrap();
    assert!(path.contains("reports"));
}

#[test]
fn test_search_path_filter_without_text_query() {
    let idx = TestIndex::new();
    let mut writer = idx.writer().unwrap();

    add_doc(&idx, &mut writer, 1, "/docs/a.pdf", "cs1", "rust language", "content", "").unwrap();
    add_doc(&idx, &mut writer, 2, "/docs/b.pdf", "cs2", "python language", "content", "").unwrap();
    writer.commit().unwrap();

    let results = idx.search("", 10, Some(".*b\\.pdf"), 0).unwrap();
    assert_eq!(results.len(), 1);
    let path = results[0].1.get_first(idx.path_field).unwrap().as_str().unwrap();
    assert!(path.contains("b.pdf"));
}

#[test]
fn test_search_path_filter_empty_string_no_filtering() {
    let idx = TestIndex::new();
    let mut writer = idx.writer().unwrap();

    add_doc(&idx, &mut writer, 1, "/a.pdf", "cs1", "hello world", "content", "").unwrap();
    add_doc(&idx, &mut writer, 2, "/b.pdf", "cs2", "hello world", "content", "").unwrap();
    writer.commit().unwrap();

    let results = idx.search("hello", 10, Some(""), 0).unwrap();
    assert_eq!(results.len(), 2);
}

#[test]
fn test_search_path_filter_no_match_returns_empty() {
    let idx = TestIndex::new();
    let mut writer = idx.writer().unwrap();

    add_doc(&idx, &mut writer, 1, "/a.pdf", "cs1", "hello world", "content", "").unwrap();
    writer.commit().unwrap();

    let results = idx.search("hello", 10, Some("/nonexistent/.*"), 0).unwrap();
    assert!(results.is_empty());
}

#[test]
fn test_search_path_filter_matches_all() {
    let idx = TestIndex::new();
    let mut writer = idx.writer().unwrap();

    add_doc(&idx, &mut writer, 1, "/x/a.pdf", "cs1", "hello", "content", "").unwrap();
    add_doc(&idx, &mut writer, 2, "/y/b.pdf", "cs2", "hello", "content", "").unwrap();
    writer.commit().unwrap();

    let results = idx.search("hello", 10, Some(".*"), 0).unwrap();
    assert_eq!(results.len(), 2);
}

#[test]
fn test_search_path_filter_invalid_regex_returns_error() {
    let idx = TestIndex::new();
    let mut writer = idx.writer().unwrap();

    add_doc(&idx, &mut writer, 1, "/a.pdf", "cs1", "hello", "content", "").unwrap();
    writer.commit().unwrap();

    let result = idx.search("hello", 10, Some("[invalid"), 0);
    assert!(result.is_err());
}

#[test]
fn test_search_offset_skips_results() {
    let idx = TestIndex::new();
    let mut writer = idx.writer().unwrap();

    for i in 0..10 {
        let content = format!("document number {}", i);
        add_doc(&idx, &mut writer, i, &format!("/{}.pdf", i), &format!("cs{}", i), &content, &content, "").unwrap();
    }
    writer.commit().unwrap();

    let all = idx.search("document", 10, None, 0).unwrap();
    assert_eq!(all.len(), 10);

    let with_offset = idx.search("document", 5, None, 3).unwrap();
    assert_eq!(with_offset.len(), 5);
}

#[test]
fn test_search_offset_beyond_total_returns_empty() {
    let idx = TestIndex::new();
    let mut writer = idx.writer().unwrap();

    add_doc(&idx, &mut writer, 1, "/a.pdf", "cs1", "hello world", "content", "").unwrap();
    writer.commit().unwrap();

    let results = idx.search("hello", 10, None, 5).unwrap();
    assert!(results.is_empty(), "Offset beyond total should return empty");
}

#[test]
fn test_search_offset_and_limit_together() {
    let idx = TestIndex::new();
    let mut writer = idx.writer().unwrap();

    for i in 0..20 {
        let content = format!("item {}", i);
        add_doc(&idx, &mut writer, i, &format!("/{}.pdf", i), &format!("cs{}", i), &content, &content, "").unwrap();
    }
    writer.commit().unwrap();

    let page1 = idx.search("item", 5, None, 0).unwrap();
    assert_eq!(page1.len(), 5);

    let page2 = idx.search("item", 5, None, 5).unwrap();
    assert_eq!(page2.len(), 5);

    let page3 = idx.search("item", 5, None, 10).unwrap();
    assert_eq!(page3.len(), 5);

    let page5 = idx.search("item", 5, None, 20).unwrap();
    assert!(page5.is_empty());
}

#[test]
fn test_search_offset_zero_same_as_no_offset() {
    let idx = TestIndex::new();
    let mut writer = idx.writer().unwrap();

    for i in 0..5 {
        let content = format!("item {}", i);
        add_doc(&idx, &mut writer, i, &format!("/{}.pdf", i), &format!("cs{}", i), &content, &content, "").unwrap();
    }
    writer.commit().unwrap();

    let without_offset = idx.search("item", 10, None, 0).unwrap();
    let with_offset = idx.search("item", 10, None, 0).unwrap();
    assert_eq!(without_offset.len(), with_offset.len());
}

#[test]
fn test_search_offset_with_path_filter() {
    let idx = TestIndex::new();
    let mut writer = idx.writer().unwrap();

    for i in 0..6 {
        let sub = if i < 3 { "reports" } else { "invoices" };
        let content = format!("document {}", i);
        add_doc(&idx, &mut writer, i, &format!("/{}/{}.pdf", sub, i), &format!("cs{}", i), &content, &content, "").unwrap();
    }
    writer.commit().unwrap();

    let all = idx.search("document", 10, None, 0).unwrap();
    assert_eq!(all.len(), 6);

    let filtered = idx.search("document", 10, Some(".*reports.*"), 1).unwrap();
    assert_eq!(filtered.len(), 2);
    for (_, doc) in &filtered {
        let path = doc.get_first(idx.path_field).unwrap().as_str().unwrap();
        assert!(path.contains("reports"), "All results should be in reports subdir");
    }
}

#[test]
fn test_search_phrase_query_matches_exact_phrase() {
    let idx = TestIndex::new();
    let mut writer = idx.writer().unwrap();

    add_doc(&idx, &mut writer, 1, "/a.pdf", "cs1", "The quick brown fox jumps over the lazy dog", "content", "").unwrap();
    add_doc(&idx, &mut writer, 2, "/b.pdf", "cs2", "quick brown fox jumps high", "content", "").unwrap();
    writer.commit().unwrap();

    let results = idx.search("\"quick brown fox\"", 10, None, 0).unwrap();
    assert_eq!(results.len(), 2, "Phrase matches both docs");

    let results = idx.search("\"lazy dog\"", 10, None, 0).unwrap();
    assert_eq!(results.len(), 1, "Phrase 'lazy dog' matches only first doc");
}

#[test]
fn test_search_phrase_query_no_match_when_words_out_of_order() {
    let idx = TestIndex::new();
    let mut writer = idx.writer().unwrap();

    add_doc(&idx, &mut writer, 1, "/a.pdf", "cs1", "hello world", "content", "").unwrap();
    writer.commit().unwrap();

    let results = idx.search("\"world hello\"", 10, None, 0).unwrap();
    assert!(results.is_empty(), "Out-of-order phrase should not match");
}

#[test]
fn test_phrase_learning_machine_does_not_match() {
    let idx = TestIndex::new();
    let mut writer = idx.writer().unwrap();

    add_doc(&idx, &mut writer, 1, "/test_phrase.pdf", "cs1", "support vector machine", "content", "").unwrap();
    add_doc(&idx, &mut writer, 2, "/test_phrase.pdf", "cs2", "machine learning", "content", "").unwrap();
    add_doc(&idx, &mut writer, 3, "/test_phrase.pdf", "cs3", "vector machine learning", "content", "").unwrap();
    writer.commit().unwrap();

    let count = idx.search_count("\"learning machine\"").unwrap();
    assert_eq!(count, 0, "search_count for reversed phrase should be 0");

    let results = idx.search("\"learning machine\"", 10, None, 0).unwrap();
    assert!(results.is_empty(), "search for reversed phrase should be empty");
}

#[test]
fn test_phrase_extra_learning_machine_does_not_match() {
    let idx = TestIndex::new();
    let mut writer = idx.writer().unwrap();

    add_doc(&idx, &mut writer, 1, "/test_phrase_extra.pdf", "cse1", "machine learning", "content", "").unwrap();
    add_doc(&idx, &mut writer, 2, "/test_phrase_extra.pdf", "cse2", "machine", "content", "").unwrap();
    add_doc(&idx, &mut writer, 3, "/test_phrase_extra.pdf", "cse3", "machine learning", "content", "").unwrap();
    writer.commit().unwrap();

    let count = idx.search_count("\"learning machine\"").unwrap();
    assert_eq!(count, 0, "search_count for reversed phrase should be 0");

    let results = idx.search("\"learning machine\"", 10, None, 0).unwrap();
    assert!(results.is_empty(), "search for reversed phrase should be empty");

    let results = idx.search("\"machine learning\"", 10, None, 0).unwrap();
    assert_eq!(results.len(), 2, "phrase 'machine learning' should match 2 docs in test_phrase_extra.pdf");
}

#[test]
fn test_search_phrase_query_empty_string_returns_nothing() {
    let idx = TestIndex::new();
    let mut writer = idx.writer().unwrap();

    add_doc(&idx, &mut writer, 1, "/a.pdf", "cs1", "hello world", "content", "").unwrap();
    writer.commit().unwrap();

    let results = idx.search("\"\"", 10, None, 0).unwrap();
    assert!(results.is_empty(), "Empty phrase should return no results");
}

#[test]
fn test_raw_string_machine_learning_returns_exactly_2_pages() {
    let raw_query = "machine learning";
    let quoted = format!("\"{}\"", raw_query);

    let idx = TestIndex::new();
    let mut writer = idx.writer().unwrap();

    add_doc(&idx, &mut writer, 1, "/book.pdf", "cs1", "machine", "raw", "").unwrap();
    add_doc(&idx, &mut writer, 2, "/book.pdf", "cs2", "machine learning", "raw", "").unwrap();
    add_doc(&idx, &mut writer, 3, "/book.pdf", "cs3", "machine learning", "raw", "").unwrap();
    add_doc(&idx, &mut writer, 4, "/book.pdf", "cs4", "the machine is learning fast", "raw", "").unwrap();

    writer.commit().unwrap();

    let results = idx.search(&quoted, 10, None, 0).unwrap();
    assert_eq!(results.len(), 2);

    let mut ids: Vec<u64> = results.iter()
        .map(|(_, doc)| doc.get_first(idx.id_field).unwrap().as_u64().unwrap())
        .collect();
    ids.sort();
    assert_eq!(ids, vec![2, 3]);

    let count = idx.search_count(&quoted).unwrap();
    assert_eq!(count, 2);
}

#[test]
fn test_search_fuzzy_matches_with_typo() {
    let idx = TestIndex::new();
    let mut writer = idx.writer().unwrap();

    add_doc(&idx, &mut writer, 1, "/a.pdf", "cs1", "hello", "content", "").unwrap();
    writer.commit().unwrap();

    let results = idx.search_fuzzy("hallo", 10, None, 0, 1).unwrap();
    assert_eq!(results.len(), 1, "Fuzzy search with edit distance 1 should match 'hallo' -> 'hello'");
}

#[test]
fn test_search_fuzzy_edit_distance_2_matches() {
    let idx = TestIndex::new();
    let mut writer = idx.writer().unwrap();

    add_doc(&idx, &mut writer, 1, "/a.pdf", "cs1", "algorithm", "content", "").unwrap();
    writer.commit().unwrap();

    let results = idx.search_fuzzy("algorith", 10, None, 0, 2).unwrap();
    assert_eq!(results.len(), 1, "Fuzzy search with edit distance 2 should match");
}

#[test]
fn test_search_fuzzy_no_match_when_edit_distance_too_low() {
    let idx = TestIndex::new();
    let mut writer = idx.writer().unwrap();

    add_doc(&idx, &mut writer, 1, "/a.pdf", "cs1", "algorithm", "content", "").unwrap();
    writer.commit().unwrap();

    let results = idx.search_fuzzy("algorit", 10, None, 0, 1).unwrap();
    assert!(results.is_empty(), "Edit distance 1 should not match 2-char typo");
}

#[test]
fn test_search_fuzzy_empty_query_returns_nothing() {
    let idx = TestIndex::new();
    let mut writer = idx.writer().unwrap();

    add_doc(&idx, &mut writer, 1, "/a.pdf", "cs1", "hello", "content", "").unwrap();
    writer.commit().unwrap();

    let results = idx.search_fuzzy("", 10, None, 0, 1).unwrap();
    assert!(results.is_empty(), "Empty fuzzy query should return no results");
}

#[test]
fn test_search_fuzzy_with_path_filter() {
    let idx = TestIndex::new();
    let mut writer = idx.writer().unwrap();

    add_doc(&idx, &mut writer, 1, "/reports/a.pdf", "cs1", "hello world", "content", "").unwrap();
    add_doc(&idx, &mut writer, 2, "/invoices/b.pdf", "cs2", "hello world", "content", "").unwrap();
    writer.commit().unwrap();

    let results = idx.search_fuzzy("hallo", 10, Some(".*reports.*"), 0, 1).unwrap();
    assert_eq!(results.len(), 1, "Fuzzy + path filter should filter by path");
    let path = results[0].1.get_first(idx.path_field).unwrap().as_str().unwrap();
    assert!(path.contains("reports"));
}

#[test]
fn test_dedup_same_checksum_both_kept() {
    let idx = TestIndex::new();
    let mut writer = idx.writer().unwrap();

    add_doc(&idx, &mut writer, 1, "/a.pdf", "same", "old content", "old content", "").unwrap();
    add_doc(&idx, &mut writer, 2, "/b.pdf", "same", "new content", "new content", "").unwrap();
    writer.commit().unwrap();

    let results = idx.search("content", 10, None, 0).unwrap();
    assert_eq!(results.len(), 2, "Both docs kept (no Tantivy checksum dedup)");
}

#[test]
fn test_dedup_different_checksum_both_kept() {
    let idx = TestIndex::new();
    let mut writer = idx.writer().unwrap();

    add_doc(&idx, &mut writer, 1, "/a.pdf", "cs1", "content a", "content a", "").unwrap();
    add_doc(&idx, &mut writer, 2, "/b.pdf", "cs2", "content b", "content b", "").unwrap();
    writer.commit().unwrap();

    let results = idx.search("content", 10, None, 0).unwrap();
    assert_eq!(results.len(), 2, "Different checksums should both be kept");
}

#[test]
fn test_search_empty_query() {
    let idx = TestIndex::new();
    let results = idx.search("", 10, None, 0).unwrap();
    assert!(results.is_empty(), "Empty query should return no results");
}

#[test]
fn test_delete_by_path_removes_matching_documents() {
    let idx = TestIndex::new();
    {
        let mut writer = idx.writer().unwrap();
        add_doc(&idx, &mut writer, 1, "/reports/a.pdf", "cs1", "hello", "hello", "").unwrap();
        add_doc(&idx, &mut writer, 2, "/invoices/b.pdf", "cs2", "hello", "hello", "").unwrap();
        add_doc(&idx, &mut writer, 3, "/reports/c.pdf", "cs3", "hello", "hello", "").unwrap();
        writer.commit().unwrap();
    }

    let count = idx.delete_by_path(".*reports.*").unwrap();
    assert_eq!(count, 2, "Should delete 2 matching docs");

    let remaining = idx.search("hello", 10, None, 0).unwrap();
    assert_eq!(remaining.len(), 1, "Only 1 doc should remain");
    let path = remaining[0].1.get_first(idx.path_field).unwrap().as_str().unwrap();
    assert!(path.contains("invoices"), "Remaining doc should be from invoices");
}

#[test]
fn test_delete_by_id_removes_specific_document() {
    let idx = TestIndex::new();
    {
        let mut writer = idx.writer().unwrap();
        add_doc(&idx, &mut writer, 1, "/a.pdf", "cs1", "hello", "hello", "").unwrap();
        add_doc(&idx, &mut writer, 2, "/b.pdf", "cs2", "world", "world", "").unwrap();
        writer.commit().unwrap();
    }

    idx.delete_by_id(1).unwrap();
    let remaining = idx.search("hello", 10, None, 0).unwrap();
    assert!(remaining.is_empty(), "Doc with id=1 should be deleted");

    let world_results = idx.search("world", 10, None, 0).unwrap();
    assert_eq!(world_results.len(), 1, "Doc with id=2 should remain");
}

#[test]
fn test_stem_search_finds_stemmed_variants() {
    let idx = TestIndex::new();
    let mut writer = idx.writer().unwrap();

    add_doc(&idx, &mut writer, 1, "/a.pdf", "cs1", "running quickly", "running quickly", "").unwrap();
    add_doc(&idx, &mut writer, 2, "/b.pdf", "cs2", "the cat runs fast", "the cat runs fast", "").unwrap();
    writer.commit().unwrap();

    let results = idx.search("running", 10, None, 0).unwrap();
    assert_eq!(results.len(), 1, "Search should find exact match");

    let results = idx.search("run", 10, None, 0).unwrap();
    assert_eq!(results.len(), 0, "Without stemming, 'run' does not match 'running'");
}

#[test]
fn test_stop_words_removed_in_stem_search() {
    let idx = TestIndex::new();
    let mut writer = idx.writer().unwrap();

    add_doc(&idx, &mut writer, 1, "/a.pdf", "cs1", "the cat and the dog", "the cat and the dog", "").unwrap();
    writer.commit().unwrap();

    let results = idx.search_stem("cat", 10, None, 0, true).unwrap();
    assert_eq!(results.len(), 1, "Stemmed search should find 'cat'");
}

#[test]
fn test_search_with_phrase() {
    let idx = TestIndex::new();
    let mut writer = idx.writer().unwrap();

    add_doc(&idx, &mut writer, 1, "/a.pdf", "cs1", "the running cats", "the running cats", "").unwrap();
    writer.commit().unwrap();

    let results = idx.search("\"running cats\"", 10, None, 0).unwrap();
    assert_eq!(results.len(), 1, "Phrase search should find exact match");
}

#[test]
fn test_search_term_positions_basic() {
    let idx = TestIndex::new();
    let mut writer = idx.writer().unwrap();

    add_doc(&idx, &mut writer, 1, "/a.pdf", "cs1", "hello world hello", "content", "eng").unwrap();
    writer.commit().unwrap();

    let results = idx.search("hello", 10, None, 0).unwrap();
    assert_eq!(results.len(), 1, "Doc should be findable via search");

    let positions = idx.search_term_positions(1, "hello").unwrap();
    assert!(positions.contains(&0), "Position 0 should contain 'hello', got positions: {:?}", positions);
    assert!(positions.contains(&2), "Position 2 should contain 'hello'");
}

#[test]
fn test_search_term_positions_no_match() {
    let idx = TestIndex::new();
    let mut writer = idx.writer().unwrap();

    add_doc(&idx, &mut writer, 1, "/a.pdf", "cs1", "hello world", "content", "eng").unwrap();
    writer.commit().unwrap();

    let positions = idx.search_term_positions(1, "nonexistent").unwrap();
    assert!(positions.is_empty(), "Non-existent term should return no positions");
}

#[test]
fn test_search_term_positions_nonexistent_doc() {
    let idx = TestIndex::new();
    let mut writer = idx.writer().unwrap();

    add_doc(&idx, &mut writer, 1, "/a.pdf", "cs1", "hello world", "content", "eng").unwrap();
    writer.commit().unwrap();

    let positions = idx.search_term_positions(999, "hello").unwrap();
    assert!(positions.is_empty(), "Non-existent doc_id should return no positions");
}

#[test]
fn test_stem_search_no_match() {
    let idx = TestIndex::new();
    let mut writer = idx.writer().unwrap();

    add_doc(&idx, &mut writer, 1, "/a.pdf", "cs1", "hello world", "hello world", "").unwrap();
    writer.commit().unwrap();

    let results = idx.search_stem("nonexistent", 10, None, 0, true).unwrap();
    assert!(results.is_empty(), "Stemmed search should return empty for non-matching query");
}

#[test]
fn test_stem_search_empty_query() {
    let idx = TestIndex::new();
    let mut writer = idx.writer().unwrap();

    add_doc(&idx, &mut writer, 1, "/a.pdf", "cs1", "hello world", "hello world", "").unwrap();
    writer.commit().unwrap();

    let results = idx.search_stem("", 10, None, 0, true).unwrap();
    assert!(results.is_empty(), "Stemmed search with empty query should return empty");
}

#[test]
fn test_delete_by_id_nonexistent() {
    let idx = TestIndex::new();
    {
        let mut writer = idx.writer().unwrap();
        add_doc(&idx, &mut writer, 1, "/a.pdf", "cs1", "hello", "hello", "").unwrap();
        writer.commit().unwrap();
    }

    idx.delete_by_id(999).unwrap();

    let results = idx.search("hello", 10, None, 0).unwrap();
    assert_eq!(results.len(), 1, "Document should remain after deleting non-existent id");
}

#[test]
fn test_delete_by_path_no_match() {
    let idx = TestIndex::new();
    {
        let mut writer = idx.writer().unwrap();
        add_doc(&idx, &mut writer, 1, "/reports/a.pdf", "cs1", "hello", "hello", "").unwrap();
        writer.commit().unwrap();
    }

    let count = idx.delete_by_path(".*nonexistent.*").unwrap();
    assert_eq!(count, 0, "Deleting path with no matches should return 0");

    let results = idx.search("hello", 10, None, 0).unwrap();
    assert_eq!(results.len(), 1, "Document should remain after deleting non-matching path");
}

#[test]
fn test_delete_by_path_invalid_regex() {
    let idx = TestIndex::new();

    let result = idx.delete_by_path("[invalid");
    assert!(result.is_err(), "Invalid regex should return error");
}

#[test]
fn test_delete_on_empty_index() {
    let idx = TestIndex::new();

    idx.delete_by_id(1).unwrap();

    let count = idx.delete_by_path(".*").unwrap();
    assert_eq!(count, 0, "Delete path on empty index should return 0");
}

#[test]
fn test_english_text_searchable_via_content() {
    let idx = TestIndex::new();
    let mut writer = idx.writer().unwrap();

    add_doc(&idx, &mut writer, 1, "/en.pdf", "en1", "hello world", "hello world", "eng").unwrap();
    writer.commit().unwrap();

    let results = idx.search("hello", 10, None, 0).unwrap();
    assert_eq!(results.len(), 1, "English text should be searchable via content");
}

#[test]
fn test_empty_lang_searchable_via_content() {
    let idx = TestIndex::new();
    let mut writer = idx.writer().unwrap();

    add_doc(&idx, &mut writer, 1, "/plain.pdf", "cs1", "some text", "some text", "").unwrap();
    writer.commit().unwrap();

    let results = idx.search("text", 10, None, 0).unwrap();
    assert_eq!(results.len(), 1, "Empty-lang doc should be searchable via content");
}

#[test]
fn test_search_in_field_normalized_text() {
    let idx = TestIndex::new();
    let mut writer = idx.writer().unwrap();

    add_doc(&idx, &mut writer, 1, "/en.pdf", "en1", "hello world", "raw", "eng").unwrap();
    writer.commit().unwrap();

    let results = idx.search_in_field("hello", "content", 10, None, 0).unwrap();
    assert_eq!(results.len(), 1, "Should find Latin text in normalized_text");

    let path = results[0].1.get_first(idx.path_field).and_then(|v| v.as_str()).unwrap();
    assert_eq!(path, "/en.pdf");
}

#[test]
fn test_search_in_field_content_norm() {
    let idx = TestIndex::new();
    let mut writer = idx.writer().unwrap();

    add_doc(&idx, &mut writer, 1, "/doc.pdf", "cs1", "hello world", "raw", "eng").unwrap();
    writer.commit().unwrap();

    let results = idx.search_in_field("world", "content", 10, None, 0).unwrap();
    assert_eq!(results.len(), 1, "Should find text in content_norm");
}

#[test]
fn test_search_in_field_exact() {
    let idx = TestIndex::new();
    let mut writer = idx.writer().unwrap();

    add_doc(&idx, &mut writer, 1, "/a.pdf", "cs1", "running quickly", "raw", "").unwrap();
    add_doc(&idx, &mut writer, 2, "/b.pdf", "cs2", "the cat runs fast", "raw", "").unwrap();
    writer.commit().unwrap();

    let results = idx.search_in_field("running", "content", 10, None, 0).unwrap();
    assert_eq!(results.len(), 1, "Exact search should find 'running'");

    let results = idx.search_in_field("runs", "content", 10, None, 0).unwrap();
    assert_eq!(results.len(), 1, "Exact search should find 'runs'");
}

#[test]
fn test_search_in_field_with_path_filter() {
    let idx = TestIndex::new();
    let mut writer = idx.writer().unwrap();

    add_doc(&idx, &mut writer, 1, "/a.pdf", "cs1", "hello world", "raw", "eng").unwrap();
    add_doc(&idx, &mut writer, 2, "/b.pdf", "cs2", "hello there", "raw", "eng").unwrap();
    writer.commit().unwrap();

    let results = idx.search_in_field("hello", "content", 10, Some("/a.pdf"), 0).unwrap();
    assert_eq!(results.len(), 1, "Should find only the doc matching path filter");

    let results2 = idx.search_in_field("hello", "content", 10, Some("/nope.pdf"), 0).unwrap();
    assert_eq!(results2.len(), 0, "Path filter excluding all docs should return empty");
}

#[test]
fn test_search_in_field_with_limit_offset() {
    let idx = TestIndex::new();
    let mut writer = idx.writer().unwrap();

    add_doc(&idx, &mut writer, 1, "/a.pdf", "cs1", "hello world", "raw", "eng").unwrap();
    add_doc(&idx, &mut writer, 2, "/b.pdf", "cs2", "hello there", "raw", "eng").unwrap();
    add_doc(&idx, &mut writer, 3, "/c.pdf", "cs3", "hello again", "raw", "eng").unwrap();
    writer.commit().unwrap();

    let results = idx.search_in_field("hello", "content", 1, None, 0).unwrap();
    assert_eq!(results.len(), 1, "Limit should restrict results");

    let results2 = idx.search_in_field("hello", "content", 10, None, 2).unwrap();
    assert_eq!(results2.len(), 1, "Offset 2 should skip first 2 results");

    let results3 = idx.search_in_field("hello", "content", 10, None, 10).unwrap();
    assert_eq!(results3.len(), 0, "Offset beyond total should return empty");
}

#[test]
fn test_search_in_field_no_match() {
    let idx = TestIndex::new();
    let mut writer = idx.writer().unwrap();

    add_doc(&idx, &mut writer, 1, "/a.pdf", "cs1", "hello world", "raw", "eng").unwrap();
    writer.commit().unwrap();

    let results = idx.search_in_field("nonexistent", "content", 10, None, 0).unwrap();
    assert_eq!(results.len(), 0, "Non-matching query should return empty");
}

#[test]
fn test_search_in_field_empty_query() {
    let idx = TestIndex::new();
    let mut writer = idx.writer().unwrap();

    add_doc(&idx, &mut writer, 1, "/a.pdf", "cs1", "hello world", "raw", "eng").unwrap();
    writer.commit().unwrap();

    let results = idx.search_in_field("", "content", 10, None, 0).unwrap();
    assert_eq!(results.len(), 0, "Empty query should return empty results");
}

#[test]
fn test_search_in_field_stored_only() {
    let idx = TestIndex::new();
    let mut writer = idx.writer().unwrap();

    add_doc(&idx, &mut writer, 1, "/a.pdf", "cs1", "hello world", "raw", "eng").unwrap();
    writer.commit().unwrap();

    let result = idx.search_in_field("hello", "content_raw", 10, None, 0);
    assert!(result.is_err(), "Search on stored-only field should fail with an error");
}

#[test]
fn test_search_in_field_string_field() {
    let idx = TestIndex::new();
    let mut writer = idx.writer().unwrap();

    add_doc(&idx, &mut writer, 1, "/my-path.pdf", "cs1", "hello world", "raw", "eng").unwrap();
    writer.commit().unwrap();

    let results = idx.search_in_field("/my-path.pdf", "path", 10, None, 0).unwrap();
    assert_eq!(results.len(), 1, "Should find doc by exact path string");
}

#[test]
fn test_search_in_field_nonexistent_field() {
    let idx = TestIndex::new();
    let mut writer = idx.writer().unwrap();

    add_doc(&idx, &mut writer, 1, "/a.pdf", "cs1", "hello world", "raw", "eng").unwrap();
    writer.commit().unwrap();

    let result = idx.search_in_field("hello", "nonexistent_field", 10, None, 0);
    assert!(result.is_err(), "Non-existent field should return an error");
    let err = result.unwrap_err();
    assert!(err.contains("not found in schema"), "Error should mention missing field, got: {}", err);
}

#[test]
fn test_search_in_field_empty_field_name() {
    let idx = TestIndex::new();
    let mut writer = idx.writer().unwrap();

    add_doc(&idx, &mut writer, 1, "/a.pdf", "cs1", "hello world", "raw", "eng").unwrap();
    writer.commit().unwrap();

    let result = idx.search_in_field("hello", "", 10, None, 0);
    assert!(result.is_err(), "Empty field name should return an error");
}

#[test]
fn test_search_in_field_numeric_field() {
    let idx = TestIndex::new();
    let mut writer = idx.writer().unwrap();

    add_doc(&idx, &mut writer, 42, "/a.pdf", "cs1", "hello world", "raw", "eng").unwrap();
    writer.commit().unwrap();

    let result = idx.search_in_field("hello", "id", 10, None, 0);
    assert!(result.is_err(), "Text search against numeric field should fail");
    let err = result.unwrap_err();
    assert!(!err.is_empty(), "Should contain a meaningful error message");
}

#[test]
fn test_weighted_search_basic() {
    let idx = TestIndex::new();
    let mut writer = idx.writer().unwrap();
    add_doc(&idx, &mut writer, 1, "/a.pdf", "cs1", "hello world", "hello world", "eng").unwrap();
    add_doc(&idx, &mut writer, 2, "/b.pdf", "cs2", "world hello", "world hello", "eng").unwrap();
    writer.commit().unwrap();

    let results = idx.search_weighted_fields("hello", &[("content", 1.0)], 10, None, 0).unwrap();
    assert_eq!(results.len(), 2, "Should find both docs");

    let results = idx.search_weighted_fields("world", &[("content", 1.0)], 10, None, 0).unwrap();
    assert_eq!(results.len(), 2, "Should find both docs for world");
}

#[test]
fn test_weighted_search_empty_field_list() {
    let idx = TestIndex::new();
    let mut writer = idx.writer().unwrap();
    add_doc(&idx, &mut writer, 1, "/a.pdf", "cs1", "hello", "hello", "eng").unwrap();
    writer.commit().unwrap();

    let results = idx.search_weighted_fields("hello", &[], 10, None, 0).unwrap();
    assert!(results.is_empty(), "Empty field list should return no results");
}

#[test]
fn test_weighted_search_with_path_filter() {
    let idx = TestIndex::new();
    let mut writer = idx.writer().unwrap();
    add_doc(&idx, &mut writer, 1, "/a.pdf", "cs1", "hello world", "hello", "eng").unwrap();
    add_doc(&idx, &mut writer, 2, "/b.pdf", "cs2", "hello there", "hello", "eng").unwrap();
    writer.commit().unwrap();

    let results = idx.search_weighted_fields("hello", &[("content", 1.0)], 10, Some("/a\\.pdf"), 0).unwrap();
    assert_eq!(results.len(), 1, "Should filter to /a.pdf only");
    assert!(results[0].1.get_first(idx.path_field).unwrap().as_str().unwrap().contains("a.pdf"));
}

#[test]
fn test_weighted_search_with_offset() {
    let idx = TestIndex::new();
    let mut writer = idx.writer().unwrap();
    add_doc(&idx, &mut writer, 1, "/a.pdf", "cs1", "hello", "hello", "eng").unwrap();
    add_doc(&idx, &mut writer, 2, "/b.pdf", "cs2", "hello", "hello", "eng").unwrap();
    writer.commit().unwrap();

    let results = idx.search_weighted_fields("hello", &[("content", 1.0)], 10, None, 1).unwrap();
    assert_eq!(results.len(), 1, "Offset 1 should skip first result");
}

#[test]
fn test_weighted_search_empty_query_returns_nothing() {
    let idx = TestIndex::new();
    let mut writer = idx.writer().unwrap();
    add_doc(&idx, &mut writer, 1, "/a.pdf", "cs1", "hello world", "hello world", "eng").unwrap();
    writer.commit().unwrap();

    let results = idx.search_weighted_fields("", &[("content", 1.0)], 10, None, 0).unwrap();
    assert!(results.is_empty(), "Empty query should return no results");
}

#[test]
fn test_weighted_search_nonexistent_field_silently_skipped() {
    let idx = TestIndex::new();
    let mut writer = idx.writer().unwrap();
    add_doc(&idx, &mut writer, 1, "/a.pdf", "cs1", "hello world", "hello world", "eng").unwrap();
    writer.commit().unwrap();

    let results = idx.search_weighted_fields("hello", &[("nonexistent_field_xyz", 2.0)], 10, None, 0).unwrap();
    assert!(results.is_empty(), "Nonexistent field should be silently skipped, returning empty results");
}

#[test]
fn test_weighted_search_empty_query_with_path_filter_returns_matching() {
    let idx = TestIndex::new();
    let mut writer = idx.writer().unwrap();
    add_doc(&idx, &mut writer, 1, "/a.pdf", "cs1", "hello", "hello", "eng").unwrap();
    add_doc(&idx, &mut writer, 2, "/b.pdf", "cs2", "world", "world", "eng").unwrap();
    writer.commit().unwrap();

    let results = idx.search_weighted_fields("", &[], 10, Some("/a\\.pdf"), 0).unwrap();
    assert_eq!(results.len(), 1, "Empty query with path filter should match by path alone");
    assert!(results[0].1.get_first(idx.path_field).unwrap().as_str().unwrap().contains("a.pdf"));
}

#[test]
fn test_weighted_search_multiple_field_weights_produce_different_scores() {
    let idx = TestIndex::new();
    let mut writer = idx.writer().unwrap();
    add_doc(&idx, &mut writer, 1, "/a.pdf", "cs1", "hello world", "hello world", "eng").unwrap();
    writer.commit().unwrap();

    let results_low = idx.search_weighted_fields("hello", &[("content", 1.0)], 10, None, 0).unwrap();
    let results_high = idx.search_weighted_fields("hello", &[("content", 5.0)], 10, None, 0).unwrap();
    assert!(
        results_high[0].0 > results_low[0].0,
        "Higher boost should produce higher score ({} vs {})",
        results_high[0].0, results_low[0].0
    );
}

#[test]
fn test_raw_to_rich_converts_path_and_doc_id() {
    let idx = setup_index();
    let input = SearchInput {
        query_str: "hello".into(),
        limit: 10,
        offset: 0,
        ..Default::default()
    };
    let raw = raw_hits(&idx, AutoPhraseQueryBuilder, &input).unwrap();
    let rich = raw_to_rich(raw);

    assert!(!rich.is_empty(), "Should have results");
    assert!(rich.iter().all(|r| !r.path.is_empty()), "All results should have path");
    assert!(rich.iter().all(|r| r.doc_id.is_some()), "All results should have doc_id");
    assert!(rich.iter().all(|r| r.snippet.is_none()), "Snippet should be None before enrichment");
    assert!(rich.iter().all(|r| r.positions.is_empty()), "Positions should be empty before enrichment");
    assert!(rich.iter().all(|r| r.doc_address.is_some()), "All results should have doc_address");
}

#[test]
fn test_raw_to_rich_extracts_correct_values() {
    let idx = setup_index();
    let input = SearchInput {
        query_str: "hello".into(),
        limit: 10,
        offset: 0,
        ..Default::default()
    };
    let raw = raw_hits(&idx, AutoPhraseQueryBuilder, &input).unwrap();

    assert_eq!(raw.len(), 4, "hello matches 4 docs");
    let rich = raw_to_rich(raw);

    let paths: Vec<&str> = rich.iter().map(|r| r.path.as_str()).collect();
    assert!(paths.contains(&"/doc1.pdf"));
    assert!(paths.contains(&"/doc2.pdf"));
    assert!(paths.contains(&"/doc4.pdf"));
    assert!(paths.contains(&"/doc5.pdf"));
    assert!(!paths.contains(&"/other.pdf"));

    let ids: Vec<i64> = rich.iter().filter_map(|r| r.doc_id).collect();
    assert_eq!(ids.len(), 4);
    assert!(ids.contains(&1));
    assert!(ids.contains(&2));
    assert!(ids.contains(&4));
    assert!(ids.contains(&5));
}

#[test]
fn test_pipeline_auto_phrase_single_word() {
    let idx = setup_index();
    let input = SearchInput {
        query_str: "hello".into(),
        limit: 10,
        offset: 0,
        ..Default::default()
    };
    let results = raw_hits(&idx, AutoPhraseQueryBuilder, &input).unwrap();
    assert_eq!(results.len(), 4);
}

#[test]
fn test_pipeline_auto_phrase_multiword_bare() {
    let idx = setup_index();
    let input = SearchInput {
        query_str: "hello world".into(),
        limit: 10,
        offset: 0,
        ..Default::default()
    };
    let results = raw_hits(&idx, AutoPhraseQueryBuilder, &input).unwrap();
    assert_eq!(results.len(), 1, "Phrase 'hello world' matches doc1 only");
}

#[test]
fn test_pipeline_boolean_phrase_and() {
    let idx = setup_index();
    let input = SearchInput {
        query_str: "hello AND world".into(),
        limit: 10,
        offset: 0,
        ..Default::default()
    };
    let results = raw_hits(&idx, BooleanPhraseQueryBuilder, &input).unwrap();
    assert_eq!(results.len(), 3, "AND matches doc1, doc4, doc5");
}

#[test]
fn test_pipeline_boolean_phrase_or() {
    let idx = setup_index();
    let input = SearchInput {
        query_str: "rust OR hello".into(),
        limit: 10,
        offset: 0,
        ..Default::default()
    };
    let results = raw_hits(&idx, BooleanPhraseQueryBuilder, &input).unwrap();
    assert_eq!(results.len(), 5);
}

#[test]
fn test_pipeline_boolean_phrase_not() {
    let idx = setup_index();
    let input = SearchInput {
        query_str: "hello NOT world".into(),
        limit: 10,
        offset: 0,
        ..Default::default()
    };
    let results = raw_hits(&idx, BooleanPhraseQueryBuilder, &input).unwrap();
    assert_eq!(results.len(), 1);
}

#[test]
fn test_pipeline_boolean_phrase_quoted() {
    let idx = setup_index();
    let input = SearchInput {
        query_str: "\"hello world\"".into(),
        limit: 10,
        offset: 0,
        ..Default::default()
    };
    let results = raw_hits(&idx, BooleanPhraseQueryBuilder, &input).unwrap();
    assert_eq!(results.len(), 1, "Exact phrase matches doc1");
}

#[test]
fn test_pipeline_boolean_phrase_bare_multiword() {
    let idx = setup_index();
    let input = SearchInput {
        query_str: "programming language".into(),
        limit: 10,
        offset: 0,
        ..Default::default()
    };
    let results = raw_hits(&idx, BooleanPhraseQueryBuilder, &input).unwrap();
    assert_eq!(results.len(), 1);
}

#[test]
fn test_pipeline_boolean_phrase_plus_minus() {
    let idx = setup_index();
    let input = SearchInput {
        query_str: "+hello -world".into(),
        limit: 10,
        offset: 0,
        ..Default::default()
    };
    let results = raw_hits(&idx, BooleanPhraseQueryBuilder, &input).unwrap();
    assert_eq!(results.len(), 1, "+hello -world matches doc2 only");
}

#[test]
fn test_pipeline_auto_phrase_quoted() {
    let idx = setup_index();
    let input = SearchInput {
        query_str: "\"hello world\"".into(),
        limit: 10,
        offset: 0,
        ..Default::default()
    };
    let results = raw_hits(&idx, AutoPhraseQueryBuilder, &input).unwrap();
    assert_eq!(results.len(), 1, "Phrase 'hello world' matches doc1 only");

    let input2 = SearchInput {
        query_str: "hello \"programming language\"".into(),
        limit: 10,
        offset: 0,
        ..Default::default()
    };
    let results2 = raw_hits(&idx, AutoPhraseQueryBuilder, &input2).unwrap();
    assert_eq!(results2.len(), 0, "No document has both 'hello' AND 'programming language'");
}

#[test]
fn test_engine_search_returns_matches() {
    let idx = setup_index();
    let input = SearchInput {
        query_str: "hello".into(),
        limit: 10,
        offset: 0,
        ..Default::default()
    };
    let results = raw_hits(&idx, AutoPhraseQueryBuilder, &input).unwrap();
    assert_eq!(results.len(), 4, "hello matches 4 docs");
    assert!(results.iter().all(|r| f32::from_bits(r.score) > 0.0), "All scores should be positive");
}

#[test]
fn test_engine_search_with_path_filter() {
    let idx = setup_index();
    let input = SearchInput {
        query_str: "hello".into(),
        limit: 10,
        offset: 0,
        path_filter: Some(r"/doc\d+\.pdf".into()),
        ..Default::default()
    };
    let results = raw_hits(&idx, AutoPhraseQueryBuilder, &input).unwrap();
    assert_eq!(results.len(), 4);
}

#[test]
fn test_engine_search_empty_query() {
    let idx = setup_index();
    let input = SearchInput {
        query_str: "".into(),
        limit: 10,
        offset: 0,
        ..Default::default()
    };
    let results = raw_hits(&idx, AutoPhraseQueryBuilder, &input).unwrap();
    assert!(results.is_empty(), "Empty query should return no results");
}

#[test]
fn test_engine_count_matches() {
    let idx = setup_index();
    let input = SearchInput {
        query_str: "hello".into(),
        limit: 10,
        offset: 0,
        ..Default::default()
    };
    let count = count(&idx, AutoPhraseQueryBuilder, &input).unwrap();
    assert_eq!(count, 4, "hello should match 4 docs");
}

#[test]
fn test_engine_count_with_path_filter() {
    let idx = setup_index();
    let input = SearchInput {
        query_str: "hello".into(),
        limit: 10,
        offset: 0,
        path_filter: Some(r"/doc\d+\.pdf".into()),
        ..Default::default()
    };
    let count = count(&idx, AutoPhraseQueryBuilder, &input).unwrap();
    assert_eq!(count, 4);
}

#[test]
fn test_engine_count_empty_query() {
    let idx = setup_index();
    let input = SearchInput {
        query_str: "".into(),
        limit: 10,
        offset: 0,
        ..Default::default()
    };
    let count = count(&idx, AutoPhraseQueryBuilder, &input).unwrap();
    assert_eq!(count, 0, "Empty query should return 0 count");
}

#[test]
fn test_pipeline_path_filter() {
    let idx = setup_index();
    let input = SearchInput {
        query_str: "hello".into(),
        limit: 10,
        offset: 0,
        path_filter: Some(r".*/doc\d+\.pdf".into()),
        ..Default::default()
    };
    let results = raw_hits(&idx, AutoPhraseQueryBuilder, &input).unwrap();
    assert_eq!(results.len(), 4);
}

#[test]
fn test_pipeline_path_filter_no_match() {
    let idx = setup_index();
    let input = SearchInput {
        query_str: "hello".into(),
        limit: 10,
        offset: 0,
        path_filter: Some(r"nonexistent".into()),
        ..Default::default()
    };
    let results = raw_hits(&idx, AutoPhraseQueryBuilder, &input).unwrap();
    assert!(results.is_empty(), "No match with nonexistent path filter");
}

#[test]
fn test_pipeline_limit() {
    let idx = setup_index();
    let input = SearchInput {
        query_str: "hello".into(),
        limit: 2,
        offset: 0,
        ..Default::default()
    };
    let results = raw_hits(&idx, AutoPhraseQueryBuilder, &input).unwrap();
    assert_eq!(results.len(), 2, "Limit 2 should return 2 results");
}

#[test]
fn test_pipeline_offset() {
    let idx = setup_index();
    let input = SearchInput {
        query_str: "hello".into(),
        limit: 10,
        offset: 1,
        ..Default::default()
    };
    let results = raw_hits(&idx, AutoPhraseQueryBuilder, &input).unwrap();
    assert_eq!(results.len(), 3, "Offset 1 on 4 results -> 3");
}

#[test]
fn test_pipeline_limit_with_offset() {
    let idx = setup_index();
    let input = SearchInput {
        query_str: "hello".into(),
        limit: 2,
        offset: 1,
        ..Default::default()
    };
    let results = raw_hits(&idx, AutoPhraseQueryBuilder, &input).unwrap();
    assert_eq!(results.len(), 2);
}

#[test]
fn test_pipeline_empty_query_returns_empty() {
    let idx = setup_index();
    let input = SearchInput {
        query_str: "".into(),
        limit: 10,
        offset: 0,
        ..Default::default()
    };
    let results = raw_hits(&idx, AutoPhraseQueryBuilder, &input).unwrap();
    assert!(results.is_empty(), "Empty query should return no results");
}

#[test]
fn test_pipeline_boolean_parentheses() {
    let idx = setup_index();
    let input = SearchInput {
        query_str: "(hello OR rust) AND world".into(),
        limit: 10,
        offset: 0,
        ..Default::default()
    };
    let results = raw_hits(&idx, BooleanPhraseQueryBuilder, &input).unwrap();
    assert_eq!(results.len(), 3, "(hello OR rust) AND world -> doc1, doc4, doc5");
}

#[test]
fn test_pipeline_boolean_mixed_phrase_and_term() {
    let idx = setup_index();
    let input = SearchInput {
        query_str: "\"hello world\" AND boolean".into(),
        limit: 10,
        offset: 0,
        ..Default::default()
    };
    let results = raw_hits(&idx, BooleanPhraseQueryBuilder, &input).unwrap();
    assert_eq!(results.len(), 0, "No doc has consecutive 'hello world' AND 'boolean'");
}

#[test]
fn test_pipeline_boolean_single_word() {
    let idx = setup_index();
    let input = SearchInput {
        query_str: "rust".into(),
        limit: 10,
        offset: 0,
        ..Default::default()
    };
    let results = raw_hits(&idx, BooleanPhraseQueryBuilder, &input).unwrap();
    assert_eq!(results.len(), 1);
}

#[test]
fn test_pipeline_matches_legacy_search() {
    let idx = setup_index();
    let input = SearchInput {
        query_str: "hello".into(),
        limit: 10,
        offset: 0,
        ..Default::default()
    };
    let pipeline_results = raw_hits(&idx, AutoPhraseQueryBuilder, &input).unwrap();
    let index_results = idx.search("hello", 10, None, 0).unwrap();
    assert_eq!(pipeline_results.len(), index_results.len(),
        "Pipeline and index search should return same count");
}

#[test]
fn test_pipeline_with_path_filter_matches_legacy() {
    let idx = setup_index();
    let input = SearchInput {
        query_str: "hello".into(),
        limit: 10,
        offset: 0,
        path_filter: Some(r".*/doc\d+\.pdf".into()),
        ..Default::default()
    };
    let pipeline_results = raw_hits(&idx, AutoPhraseQueryBuilder, &input).unwrap();
    let index_results = idx.search("hello", 10, Some(r".*/doc\d+\.pdf"), 0).unwrap();
    assert_eq!(pipeline_results.len(), index_results.len(),
        "Pipeline and index search should match with path_filter");
}

#[test]
fn test_pipeline_delegates_to_search_parsed() {
    let idx = setup_index();
    let results = idx.search("hello", 10, None, 0).unwrap();
    assert_eq!(results.len(), 4, "hello matches 4 docs via pipeline");
}

#[test]
fn test_default_enrichers_is_empty() {
    let idx = setup_index();
    let input = SearchInput { query_str: "hello".into(), limit: 10, offset: 0, ..Default::default() };
    let raw = raw_hits(&idx, AutoPhraseQueryBuilder, &input).unwrap();
    let n = raw.len();
    let snippets = vec![None; n];
    let rich = pipeline(AutoPhraseQueryBuilder).execute(&input, raw, &snippets).unwrap();
    assert_eq!(n, rich.len(), "Empty enrichers should not change count");
}

#[test]
fn test_pipeline_execute_with_snippet_enricher() {
    let idx = setup_index();
    let input = SearchInput { query_str: "hello".into(), limit: 10, offset: 0, ..Default::default() };
    let enrichers = EnricherCoordinator::new(vec![Enricher::Snippet]).unwrap();
    let p = SearchPipeline::new(
        SearchContext { position_store: None },
        AutoPhraseQueryBuilder,
        TantivyEngine,
        enrichers,
    );
    let raw = raw_hits(&idx, AutoPhraseQueryBuilder, &input).unwrap();
    let snippets = raw.iter().map(|_| Some("<b>hello</b>".to_string())).collect();
    let results: Vec<RichResult> = p.execute(&input, raw, &snippets).unwrap();
    assert!(!results.is_empty(), "Should have results");
    assert!(
        results.iter().any(|r| r.snippet.is_some()),
        "At least one result should have snippet (doc_address is populated)"
    );
    assert!(results.iter().all(|r| r.matched_terms.is_empty()));
}

// --- Boolean searches ---

#[test]
fn a_boolean_search_joins_its_clauses() {
    let idx = setup_index();
    let found = |clauses: &[(&str, Occur)], offset: usize| -> usize {
        idx.search_boolean(clauses, 10, None, offset).unwrap().len()
    };
    assert_eq!(found(&[("hello", Occur::Must), ("world", Occur::Must)], 0), 3);
    assert_eq!(found(&[("hello", Occur::Must), ("world", Occur::MustNot)], 0), 1);
    assert_eq!(found(&[("rust", Occur::Should), ("there", Occur::Should)], 0), 2);
    assert_eq!(found(&[("  ", Occur::Must)], 0), 0);
    assert_eq!(found(&[("hello", Occur::Must)], 3), 1);
    assert_eq!(found(&[("hello", Occur::Must)], 9), 4);
    assert_eq!(idx.search_boolean(&[("hello", Occur::Must)], 10, Some("[bad"), 0).unwrap().len(), 4);
}

// --- Recency ---

#[test]
fn test_recency_noop_when_ingested_at_removed() {
    let idx = TestIndex::new();
    let mut writer = idx.writer().unwrap();
    add_doc(&idx, &mut writer, 1, "/a.pdf", "cs1", "hello", "raw", "eng").unwrap();
    writer.commit().unwrap();

    let results = idx.search_weighted_fields("hello", &[("content", 1.0)], 10, None, 0).unwrap();
    assert_eq!(results.len(), 1);
    let boosted = idx.plans.apply_recency_boost(results, (0.5_f32).to_bits(), 365);
    assert_eq!(boosted.len(), 1, "Should return same results when ingested_at is None");
}

#[test]
fn test_recency_zero_weight_returns_unchanged() {
    let idx = TestIndex::new();
    let mut writer = idx.writer().unwrap();
    add_doc(&idx, &mut writer, 1, "/a.pdf", "cs1", "hello", "hello", "eng").unwrap();
    writer.commit().unwrap();

    let results = idx.search_weighted_fields("hello", &[("content", 1.0)], 10, None, 0).unwrap();
    let original_len = results.len();
    let boosted = idx.plans.apply_recency_boost(results, (0.0_f32).to_bits(), 365);
    assert_eq!(boosted.len(), original_len, "Zero weight should return results unchanged");
}

#[test]
fn test_recency_no_ingested_at_field() {
    let idx = TestIndex::new();
    let mut writer = idx.writer().unwrap();
    add_doc(&idx, &mut writer, 1, "/a.pdf", "cs1", "hello", "hello", "eng").unwrap();
    writer.commit().unwrap();

    let results = idx.search_weighted_fields("hello", &[("content", 1.0)], 10, None, 0).unwrap();
    let boosted = idx.plans.apply_recency_boost(results, (0.5_f32).to_bits(), 365);
    assert_eq!(boosted.len(), 1, "Should still return results when ingested_at is present");
}

#[test]
fn test_recency_noop_with_zero_weight() {
    let idx = TestIndex::new();
    let mut writer = idx.writer().unwrap();
    add_doc(&idx, &mut writer, 1, "/a.pdf", "cs1", "hello", "raw", "eng").unwrap();
    writer.commit().unwrap();

    let results = idx.search_weighted_fields("hello", &[("content", 1.0)], 10, None, 0).unwrap();
    let boosted = idx.plans.apply_recency_boost(results, (0.0_f32).to_bits(), 365);
    assert_eq!(boosted.len(), 1, "Zero weight should return results unchanged");
}

#[test]
fn test_recency_negative_weight_returns_unchanged() {
    let idx = TestIndex::new();
    let mut writer = idx.writer().unwrap();
    add_doc(&idx, &mut writer, 1, "/a.pdf", "cs1", "hello", "hello", "eng").unwrap();
    writer.commit().unwrap();

    let results = idx.search_weighted_fields("hello", &[("content", 1.0)], 10, None, 0).unwrap();
    let original_score = results[0].0;
    let boosted = idx.plans.apply_recency_boost(results, (-0.5_f32).to_bits(), 365);
    assert_eq!(boosted.len(), 1, "Negative weight should return results unchanged");
    assert!((boosted[0].0 - original_score).abs() < f32::EPSILON, "Negative weight should not alter score");
}
