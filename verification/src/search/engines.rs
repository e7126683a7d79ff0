//! What is asked of the index, and which of its hits make a page.

use vstd::prelude::*;

use crate::indexer::SearchIndex;
use crate::search::traits::SearchEngine;
use crate::search::types::SearchInput;
use crate::text::{
    chars_of, is_white, is_word_at, law_trim, law_word_is_found, law_word_is_there,
    law_words_are_the_text, lemma_filter_none, lemma_filter_place, lemma_filter_same, split_words,
    texts, trim, trim_bounds, words,
};

verus! {

// ---------------------------------------------------------------------------
// Clauses
// ---------------------------------------------------------------------------

/// How a clause counts.
#[derive(Clone, Copy, PartialEq, Eq, Structural, Debug)]
pub enum Occur {
    Must,
    Should,
    MustNot,
}

/// One thing that is asked of the index.
#[derive(Debug)]
pub enum Clause {
    /// The query that was built from the text.
    Built,
    /// A text for the query parser on a field, read as a phrase where it has
    /// several words and no quotes.
    AutoPhrase { text: String, field: String },
    /// A text for the query parser on a field, whose terms are joined by OR.
    Parsed { text: String, field: String },
    /// A term within a distance, on a field; a swap of two letters counts as
    /// one change.
    Fuzzy { term: String, field: String, distance: u8 },
    /// A text on a field as for `AutoPhrase`, whose score is multiplied. The
    /// factor is a bit pattern of 32 bits.
    Boosted { text: String, field: String, boost: u32 },
    /// Any of several fuzzy terms.
    AnyFuzzy { terms: Vec<String>, field: String, distance: u8 },
    /// A pattern for the path.
    PathPattern { pattern: String },
}

/// A clause, how it counts, and whether a clause that the index cannot take is
/// an error or is left out.
#[derive(Debug)]
pub struct PlannedClause {
    pub occur: Occur,
    pub clause: Clause,
    pub optional: bool,
}

/// Clauses put together: none at all, one that stands for itself, or several
/// that each count in their way.
#[derive(Debug)]
pub enum Combined<Q> {
    Nothing,
    One(Q),
    Several(Vec<(Occur, Q)>),
}

/// Whether `r` puts `clauses` together.
pub open spec fn is_combined<Q>(clauses: Seq<(Occur, Q)>, r: Combined<Q>) -> bool {
    if clauses.len() == 0 {
        r is Nothing
    } else if clauses.len() == 1 && clauses[0].0 != Occur::MustNot {
        r == Combined::One(clauses[0].1)
    } else {
        r matches Combined::Several(v) && v@ == clauses
    }
}

/// Puts clauses together: one alone stands for itself, unless it says what must
/// not occur.
pub fn combine<Q>(clauses: Vec<(Occur, Q)>) -> (r: Combined<Q>)
    ensures
        is_combined(clauses@, r),
{
    if clauses.len() == 0 {
        Combined::Nothing
    } else if clauses.len() == 1 && clauses[0].0 != Occur::MustNot {
        let mut clauses = clauses;
        let (_, q) = clauses.pop().unwrap();
        Combined::One(q)
    } else {
        Combined::Several(clauses)
    }
}

/// Whether a query says nothing.
pub open spec fn blank(s: Seq<char>) -> bool {
    trim(s).len() == 0
}

/// Whether a query says nothing.
pub fn is_blank(s: &str) -> (b: bool)
    ensures
        b == blank(s@),
{
    let v = chars_of(s);
    assert(v@.subrange(0, v@.len() as int) =~= v@);
    let (i, j) = trim_bounds(&v, 0, v.len());
    i == j
}

/// Whether a path filter says something.
pub open spec fn filters(path_filter: Option<String>) -> bool {
    path_filter matches Some(p) && p@.len() > 0
}

/// Whether `c` is the clause of a path filter.
pub open spec fn is_path_clause(c: PlannedClause, path_filter: Option<String>, optional: bool) -> bool {
    &&& c.occur == Occur::Must
    &&& c.optional == optional
    &&& c.clause matches Clause::PathPattern { pattern } && path_filter matches Some(p) && pattern@
        == p@
}

/// Whether `plan` ends with the clause of the path filter, where the filter
/// says something.
pub open spec fn is_filtered(
    plan: Seq<PlannedClause>,
    path_filter: Option<String>,
    optional: bool,
) -> bool {
    filters(path_filter) ==> plan.len() > 0 && is_path_clause(plan.last(), path_filter, optional)
}

/// What a plan asks for besides the path filter.
pub open spec fn front_of(
    plan: Seq<PlannedClause>,
    path_filter: Option<String>,
) -> Seq<PlannedClause> {
    if filters(path_filter) {
        plan.drop_last()
    } else {
        plan
    }
}

fn add_path_clause(
    plan: &mut Vec<PlannedClause>,
    path_filter: &Option<String>,
    optional: bool,
)
    ensures
        is_filtered(final(plan)@, *path_filter, optional),
        front_of(final(plan)@, *path_filter) == old(plan)@,
{
    if let Some(pattern) = path_filter {
        if !pattern.as_str().is_empty() {
            plan.push(
                PlannedClause {
                    occur: Occur::Must,
                    clause: Clause::PathPattern { pattern: pattern.clone() },
                    optional,
                },
            );
            assert(plan@.drop_last() =~= old(plan)@);
        }
    }
}

// ---------------------------------------------------------------------------
// Plans
// ---------------------------------------------------------------------------

/// Whether `plan` asks for the query that was built, unless its text is blank,
/// and for the path filter.
pub open spec fn is_engine_plan(plan: Seq<PlannedClause>, input: SearchInput) -> bool {
    let front = front_of(plan, input.path_filter);
    &&& is_filtered(plan, input.path_filter, false)
    &&& if blank(input.query_str@) {
        front.len() == 0
    } else {
        front.len() == 1 && front[0].occur == Occur::Must && front[0].clause is Built
            && !front[0].optional
    }
}

/// Whether `c` asks for the words of a query within a distance: for one word
/// as it is, for several words any of them.
pub open spec fn is_fuzzy_clause(
    c: PlannedClause,
    query: Seq<char>,
    field: Seq<char>,
    distance: u8,
) -> bool {
    &&& c.occur == Occur::Must
    &&& !c.optional
    &&& if words(query).len() == 1 {
        c.clause matches Clause::Fuzzy { term, field: f, distance: d } && term@ == words(query)[0]
            && f@ == field && d == distance
    } else {
        c.clause matches Clause::AnyFuzzy { terms, field: f, distance: d } && texts(terms@)
            == words(query) && f@ == field && d == distance
    }
}

/// Whether `front` asks for the words of a query within a distance; a query
/// without words asks for nothing.
pub open spec fn is_fuzzy_front(
    front: Seq<PlannedClause>,
    query: Seq<char>,
    field: Seq<char>,
    distance: u8,
) -> bool {
    if words(query).len() == 0 {
        front.len() == 0
    } else {
        front.len() == 1 && is_fuzzy_clause(front[0], query, field, distance)
    }
}

fn fuzzy_front(query_str: &str, field: &str, distance: u8) -> (front: Vec<PlannedClause>)
    ensures
        is_fuzzy_front(front@, query_str@, field@, distance),
{
    let v = chars_of(query_str);
    assert(v@.subrange(0, v@.len() as int) =~= v@);
    let mut list = split_words(&v, 0, v.len());
    assert(texts(list@).len() == list@.len());
    let mut front: Vec<PlannedClause> = Vec::new();
    if list.len() == 1 {
        assert(texts(list@)[0] == list@[0]@);
        let term = list.pop().unwrap();
        front.push(
            PlannedClause {
                occur: Occur::Must,
                clause: Clause::Fuzzy { term, field: field.to_owned(), distance },
                optional: false,
            },
        );
    } else if list.len() > 1 {
        front.push(
            PlannedClause {
                occur: Occur::Must,
                clause: Clause::AnyFuzzy { terms: list, field: field.to_owned(), distance },
                optional: false,
            },
        );
    }
    front
}

/// The bit pattern of the factor one.
pub const BOOST_ONE: u32 = 0x3f80_0000;

/// Whether `c` asks for a query on a field with a weight; the weight one needs
/// no factor.
pub open spec fn is_weighted_clause(
    c: PlannedClause,
    query: Seq<char>,
    field: Seq<char>,
    boost: u32,
) -> bool {
    &&& c.occur == Occur::Should
    &&& c.optional
    &&& if boost != BOOST_ONE {
        c.clause matches Clause::Boosted { text, field: f, boost: b } && text@ == query && f@
            == field && b == boost
    } else {
        c.clause matches Clause::AutoPhrase { text, field: f } && text@ == query && f@ == field
    }
}

/// The terms of a boolean search that say something.
pub open spec fn said(clauses: Seq<(String, Occur)>) -> Seq<(String, Occur)> {
    clauses.filter(|c: (String, Occur)| !blank(c.0@))
}

/// Whether `c` asks for a term of a boolean search.
pub open spec fn is_boolean_clause(c: PlannedClause, term: Seq<char>, occur: Occur) -> bool {
    &&& c.occur == occur
    &&& c.optional
    &&& c.clause matches Clause::AutoPhrase { text, field } && text@ == term && field@ == "content"@
}

/// Asks the index for what was built of a query.
#[derive(Clone, Copy)]
pub struct TantivyEngine;

impl SearchEngine for TantivyEngine {
    /// What the search engine asks of the index for a query that was built.
    fn search(&self, input: &SearchInput) -> (plan: Vec<PlannedClause>)
        ensures
            is_engine_plan(plan@, *input),
    {
        let mut plan: Vec<PlannedClause> = Vec::new();
        if !is_blank(input.query_str.as_str()) {
            plan.push(
                PlannedClause { occur: Occur::Must, clause: Clause::Built, optional: false },
            );
        }
        add_path_clause(&mut plan, &input.path_filter, false);
        plan
    }

    /// What counting the hits asks of the index: the same as finding them. No
    /// clause means no hit.
    fn count(&self, input: &SearchInput) -> (plan: Vec<PlannedClause>)
        ensures
            is_engine_plan(plan@, *input),
    {
        self.search(input)
    }
}

impl SearchIndex {
    /// What a fuzzy search asks of the index: the words of the query on the
    /// content, each within a distance, and the path filter.
    pub fn search_fuzzy_stem(
        &self,
        query_str: &str,
        path_filter: &Option<String>,
        distance: u8,
    ) -> (plan: Vec<PlannedClause>)
        ensures
            is_filtered(plan@, *path_filter, false),
            ({
                let front = front_of(plan@, *path_filter);
                is_fuzzy_front(front, query_str@, "content"@, distance)
            }),
    {
        let mut plan = fuzzy_front(query_str, "content", distance);
        add_path_clause(&mut plan, path_filter, false);
        plan
    }

    /// What a fuzzy search asks of the index where stems do not count: the same.
    pub fn search_fuzzy(&self, query_str: &str, path_filter: &Option<String>, distance: u8) -> (plan:
        Vec<PlannedClause>)
        ensures
            is_filtered(plan@, *path_filter, false),
            ({
                let front = front_of(plan@, *path_filter);
                is_fuzzy_front(front, query_str@, "content"@, distance)
            }),
    {
        self.search_fuzzy_stem(query_str, path_filter, distance)
    }

    /// What a search on a field asks of the index: within a distance as for a
    /// fuzzy search, or as an automatic phrase where the distance is zero, and
    /// the path filter.
    pub fn search_in_field_fuzzy_stem(
        &self,
        query_str: &str,
        field: &str,
        path_filter: &Option<String>,
        distance: u8,
    ) -> (plan: Vec<PlannedClause>)
        ensures
            is_filtered(plan@, *path_filter, false),
            ({
                let front = front_of(plan@, *path_filter);
                if distance > 0 {
                    is_fuzzy_front(front, query_str@, field@, distance)
                } else if blank(query_str@) {
                    front.len() == 0
                } else {
                    front.len() == 1 && front[0].occur == Occur::Must && !front[0].optional && (
                    front[0].clause matches Clause::AutoPhrase { text, field: f } && text@ == query_str@
                        && f@ == field@)
                }
            }),
    {
        let mut plan: Vec<PlannedClause> = Vec::new();
        if distance > 0 {
            plan = fuzzy_front(query_str, field, distance);
        } else if !is_blank(query_str) {
            plan.push(
                PlannedClause {
                    occur: Occur::Must,
                    clause: Clause::AutoPhrase { text: query_str.to_owned(), field: field.to_owned() },
                    optional: false,
                },
            );
        }
        add_path_clause(&mut plan, path_filter, false);
        plan
    }

    /// What a plain search on a field asks of the index: the text as the query
    /// parser reads it, and the path filter.
    pub fn search_in_field(&self, query_str: &str, field: &str, path_filter: &Option<String>) -> (plan:
        Vec<PlannedClause>)
        ensures
            is_filtered(plan@, *path_filter, false),
            ({
                let front = front_of(plan@, *path_filter);
                if blank(query_str@) {
                    front.len() == 0
                } else {
                    front.len() == 1 && front[0].occur == Occur::Must && !front[0].optional && (
                    front[0].clause matches Clause::Parsed { text, field: f } && text@ == query_str@
                        && f@ == field@)
                }
            }),
    {
        let mut plan: Vec<PlannedClause> = Vec::new();
        if !is_blank(query_str) {
            plan.push(
                PlannedClause {
                    occur: Occur::Must,
                    clause: Clause::Parsed { text: query_str.to_owned(), field: field.to_owned() },
                    optional: false,
                },
            );
        }
        add_path_clause(&mut plan, path_filter, false);
        plan
    }

    /// What a search over weighted fields asks of the index: the query on each
    /// field, and the path filter. What the index cannot take is left out.
    pub fn search_weighted_fields(
        &self,
        query_str: &str,
        fields: &Vec<(String, u32)>,
        path_filter: &Option<String>,
    ) -> (plan: Vec<PlannedClause>)
        ensures
            is_filtered(plan@, *path_filter, true),
            ({
                let front = front_of(plan@, *path_filter);
                if blank(query_str@) {
                    front.len() == 0
                } else {
                    front.len() == fields@.len() && forall|i: int|
                        0 <= i < front.len() ==> is_weighted_clause(
                            #[trigger] front[i],
                            query_str@,
                            fields@[i].0@,
                            fields@[i].1,
                        )
                }
            }),
    {
        let mut plan: Vec<PlannedClause> = Vec::new();
        if !is_blank(query_str) {
            let mut i: usize = 0;
            while i < fields.len()
                invariant
                    i <= fields@.len(),
                    plan@.len() == i,
                    forall|k: int|
                        0 <= k < i ==> is_weighted_clause(
                            #[trigger] plan@[k],
                            query_str@,
                            fields@[k].0@,
                            fields@[k].1,
                        ),
                decreases fields@.len() - i,
            {
                let boost = fields[i].1;
                let text = query_str.to_owned();
                let field = fields[i].0.clone();
                let clause = if boost != BOOST_ONE {
                    Clause::Boosted { text, field, boost }
                } else {
                    Clause::AutoPhrase { text, field }
                };
                plan.push(PlannedClause { occur: Occur::Should, clause, optional: true });
                i += 1;
            }
        }
        add_path_clause(&mut plan, path_filter, true);
        plan
    }

    /// What a boolean search asks of the index: each term that says something, on
    /// the content, and the path filter. What the index cannot take is left out.
    pub fn search_boolean(
        &self,
        clauses: &Vec<(String, Occur)>,
        path_filter: &Option<String>,
    ) -> (plan: Vec<PlannedClause>)
        ensures
            is_filtered(plan@, *path_filter, true),
            ({
                let front = front_of(plan@, *path_filter);
                front.len() == said(clauses@).len() && forall|i: int|
                    0 <= i < front.len() ==> is_boolean_clause(
                        #[trigger] front[i],
                        said(clauses@)[i].0@,
                        said(clauses@)[i].1,
                    )
            }),
    {
        let mut plan: Vec<PlannedClause> = Vec::new();
        let mut i: usize = 0;
        proof {
            reveal(Seq::filter);
            assert(clauses@.take(0) =~= Seq::empty());
        }
        while i < clauses.len()
            invariant
                i <= clauses@.len(),
                plan@.len() == said(clauses@.take(i as int)).len(),
                forall|k: int|
                    0 <= k < plan@.len() ==> is_boolean_clause(
                        #[trigger] plan@[k],
                        said(clauses@.take(i as int))[k].0@,
                        said(clauses@.take(i as int))[k].1,
                    ),
            decreases clauses@.len() - i,
        {
            proof {
                reveal(Seq::filter);
                assert(clauses@.take(i + 1).drop_last() =~= clauses@.take(i as int));
                assert(clauses@.take(i + 1).last() == clauses@[i as int]);
            }
            if !is_blank(clauses[i].0.as_str()) {
                plan.push(
                    PlannedClause {
                        occur: clauses[i].1,
                        clause: Clause::AutoPhrase {
                            text: clauses[i].0.clone(),
                            field: "content".to_owned(),
                        },
                        optional: true,
                    },
                );
            }
            i += 1;
        }
        assert(clauses@.take(i as int) =~= clauses@);
        add_path_clause(&mut plan, path_filter, true);
        plan
    }

    /// What counting the hits of a query asks of the index: an automatic phrase
    /// on the content.
    pub fn search_count(&self, query_str: &str) -> (c: Clause)
        ensures
            c matches Clause::AutoPhrase { text, field } && text@ == query_str@ && field@
                == "content"@,
    {
        Clause::AutoPhrase { text: query_str.to_owned(), field: "content".to_owned() }
    }

    /// What the extract of a document for a query asks of the index; for a query
    /// that says nothing it is empty.
    pub fn generate_snippet(&self, query_str: &str) -> (c: Option<Clause>)
        ensures
            match c {
                None => blank(query_str@),
                Some(clause) => !blank(query_str@) && (clause matches Clause::Parsed { text, field }
                    && text@ == query_str@ && field@ == "content"@),
            },
    {
        if is_blank(query_str) {
            None
        } else {
            Some(Clause::Parsed { text: query_str.to_owned(), field: "content".to_owned() })
        }
    }
}

// ---------------------------------------------------------------------------
// Pages
// ---------------------------------------------------------------------------

/// How many hits are fetched for a page: those before it and its own. Where
/// that is no number of the machine, those of the page alone.
pub fn fetch_count(limit: usize, offset: usize) -> (n: usize)
    ensures
        n == if limit + offset <= usize::MAX {
            limit + offset
        } else {
            limit as int
        },
{
    match limit.checked_add(offset) {
        Some(n) => n,
        None => limit,
    }
}

/// Where a page of hits ends: at least one hit makes a page.
pub open spec fn page_end(hits: int, limit: int, offset: int) -> int {
    let size = if limit < 1 {
        1
    } else {
        limit
    };
    if offset + size < hits {
        offset + size
    } else {
        hits
    }
}

/// The hits of a page: those from `offset` on, as many as `limit`, and one
/// where the limit is zero.
pub open spec fn page_of<T>(hits: Seq<T>, limit: int, offset: int) -> Seq<T> {
    if offset >= hits.len() {
        Seq::empty()
    } else {
        hits.subrange(offset, page_end(hits.len() as int, limit, offset))
    }
}

/// Cuts a page out of hits.
pub fn page<T>(hits: Vec<T>, limit: usize, offset: usize) -> (r: Vec<T>)
    ensures
        r@ == page_of(hits@, limit as int, offset as int),
{
    let ghost all = hits@;
    let mut hits = hits;
    if offset >= hits.len() {
        return Vec::new();
    }
    let mut r = hits.split_off(offset);
    let size = if limit < 1 {
        1
    } else {
        limit
    };
    r.truncate(size);
    assert(r@ =~= page_of(all, limit as int, offset as int));
    r
}

/// The hits of a boolean search: the first ones are left out only where some
/// remain behind them.
pub open spec fn boolean_page_of<T>(hits: Seq<T>, offset: int) -> Seq<T> {
    if 0 < offset < hits.len() {
        hits.skip(offset)
    } else {
        hits
    }
}

/// Cuts the hits of a boolean search.
pub fn boolean_page<T>(hits: Vec<T>, offset: usize) -> (r: Vec<T>)
    ensures
        r@ == boolean_page_of(hits@, offset as int),
{
    if offset > 0 && offset < hits.len() {
        let mut hits = hits;
        let ghost all = hits@;
        let r = hits.split_off(offset);
        assert(r@ =~= all.skip(offset as int));
        r
    } else {
        hits
    }
}

/// Pages of one size that follow each other hold all hits, each once.
pub proof fn law_pages_follow<T>(hits: Seq<T>, limit: int, offset: int)
    requires
        limit > 0,
        0 <= offset <= hits.len(),
    ensures
        page_of(hits, limit, offset) + hits.skip(page_end(hits.len() as int, limit, offset))
            == hits.skip(offset),
        offset + limit <= hits.len() ==> page_end(hits.len() as int, limit, offset) == offset
            + limit,
{
    let e = page_end(hits.len() as int, limit, offset);
    assert(page_of(hits, limit, offset) + hits.skip(e) =~= hits.skip(offset));
}

/// A page of hits holds those from `offset` on, in their order. It has no more
/// than `limit` of them, and one where the limit is zero, and it has fewer
/// only where no more follow.
pub proof fn law_page_of_hits<T>(hits: Seq<T>, limit: int, offset: int)
    requires
        0 <= limit,
        0 <= offset,
    ensures
        ({
            let r = page_of(hits, limit, offset);
            &&& forall|i: int| 0 <= i < r.len() ==> #[trigger] r[i] == hits[offset + i]
            &&& r.len() <= limit || r.len() == 1
            &&& r.len() < limit || r.len() == 0 ==> offset + r.len() >= hits.len()
            &&& r.len() > 0 ==> offset + r.len() <= hits.len()
        }),
{
}

/// The hits of a boolean search lose those before `offset`, and none where
/// that would leave nothing.
pub proof fn law_boolean_page_of_hits<T>(hits: Seq<T>, offset: int)
    requires
        0 <= offset,
    ensures
        hits.take(hits.len() - boolean_page_of(hits, offset).len()) + boolean_page_of(hits, offset)
            == hits,
        offset < hits.len() ==> boolean_page_of(hits, offset).len() == hits.len() - offset,
        offset >= hits.len() ==> boolean_page_of(hits, offset) == hits,
{
    let r = boolean_page_of(hits, offset);
    assert(hits.take(hits.len() - r.len()) + r =~= hits);
}

/// A query says nothing exactly where it holds whitespace alone.
pub proof fn law_blank(s: Seq<char>)
    ensures
        blank(s) <==> forall|i: int| 0 <= i < s.len() ==> is_white(#[trigger] s[i]),
{
    let (a, b) = law_trim(s);
}

/// Putting clauses together loses none and changes none: they come back, one
/// for one, in their order. What must not occur never stands for itself.
pub proof fn law_combined<Q>(clauses: Seq<(Occur, Q)>, r: Combined<Q>)
    requires
        is_combined(clauses, r),
    ensures
        match r {
            Combined::Nothing => clauses.len() == 0,
            Combined::One(q) => clauses.len() == 1 && clauses[0].1 == q && clauses[0].0
                != Occur::MustNot,
            Combined::Several(v) => v@ == clauses && (clauses.len() > 1 || (clauses.len() == 1
                && clauses[0].0 == Occur::MustNot)),
        },
{
}

/// A plan ends with the pattern for the path, which every hit must match,
/// exactly where a path filter is given that is not empty; what stands before
/// it is the rest of the plan.
pub proof fn law_path_filter(plan: Seq<PlannedClause>, path_filter: Option<String>, optional: bool)
    requires
        is_filtered(plan, path_filter, optional),
    ensures
        match path_filter {
            Some(p) => if p@ == Seq::<char>::empty() {
                front_of(plan, path_filter) == plan
            } else {
                &&& plan.len() > 0
                &&& front_of(plan, path_filter).push(plan.last()) == plan
                &&& plan.last().occur == Occur::Must
                &&& plan.last().optional == optional
                &&& plan.last().clause matches Clause::PathPattern { pattern } && pattern@ == p@
            },
            None => front_of(plan, path_filter) == plan,
        },
{
    if let Some(p) = path_filter {
        assert(p@.len() == 0 ==> p@ =~= Seq::empty());
        if p@.len() > 0 {
            assert(front_of(plan, path_filter).push(plan.last()) =~= plan);
        }
    }
}

/// The index is asked for what was built of a query exactly where the query
/// holds more than whitespace. Together with a path filter a hit has to match
/// both, and where neither says anything nothing is asked, so that there is no
/// hit.
pub proof fn law_engine_plan(plan: Seq<PlannedClause>, input: SearchInput)
    requires
        is_engine_plan(plan, input),
    ensures
        ({
            let asks = exists|i: int|
                0 <= i < input.query_str@.len() && !is_white(#[trigger] input.query_str@[i]);
            let has_filter = input.path_filter is Some && input.path_filter->0@ != Seq::<
                char,
            >::empty();
            &&& plan.len() == (if asks { 1int } else { 0 }) + (if has_filter { 1int } else { 0 })
            &&& asks ==> plan[0].clause is Built
            &&& has_filter ==> (plan.last().clause matches Clause::PathPattern { pattern }
                && pattern@ == input.path_filter->0@)
            &&& forall|i: int|
                0 <= i < plan.len() ==> (#[trigger] plan[i]).occur == Occur::Must
                    && !plan[i].optional
        }),
{
    law_blank(input.query_str@);
    law_path_filter(plan, input.path_filter, false);
}

/// The words that a clause looks for within a distance.
pub open spec fn fuzzy_words(c: Clause) -> Seq<Seq<char>> {
    match c {
        Clause::Fuzzy { term, .. } => seq![term@],
        Clause::AnyFuzzy { terms, .. } => texts(terms@),
        _ => Seq::empty(),
    }
}

/// A fuzzy search looks for all words of the query, in their order, on one
/// field and within one distance: for one word as it is, for several words any
/// of them. A query of whitespace asks for nothing.
pub proof fn law_fuzzy_plan(
    front: Seq<PlannedClause>,
    query: Seq<char>,
    field: Seq<char>,
    distance: u8,
)
    requires
        is_fuzzy_front(front, query, field, distance),
    ensures
        front.len() == 0 <==> forall|i: int| 0 <= i < query.len() ==> is_white(#[trigger] query[i]),
        front.len() <= 1,
        front.len() == 1 ==> {
            let c = front[0];
            &&& c.occur == Occur::Must && !c.optional
            &&& fuzzy_words(c.clause).flatten() == query.filter(|c: char| !is_white(c))
            &&& forall|i: int, j: int| #[trigger] is_word_at(query, i, j) ==> fuzzy_words(
                c.clause,
            ).contains(query.subrange(i, j))
            &&& match c.clause {
                Clause::Fuzzy { field: f, distance: d, .. } => f@ == field && d == distance,
                Clause::AnyFuzzy { field: f, distance: d, terms } => f@ == field && d == distance
                    && terms@.len() > 1,
                _ => false,
            }
        },
{
    law_words_are_the_text(query);
    let list = words(query);
    if list.len() == 0 {
        assert(list =~= Seq::empty());
        assert(list.flatten() =~= Seq::empty());
        assert forall|i: int| 0 <= i < query.len() implies is_white(#[trigger] query[i]) by {
            if !is_white(query[i]) {
                lemma_filter_place(query, |c: char| !is_white(c), i);
            }
        }
    } else {
        let (i, j) = law_word_is_there(query, 0);
        assert(!is_white(query[i]));
        let c = front[0];
        assert(fuzzy_words(c.clause) == list) by {
            if list.len() == 1 {
                assert(fuzzy_words(c.clause) =~= list);
            }
        }
        if let Clause::AnyFuzzy { terms, .. } = c.clause {
            assert(texts(terms@).len() == terms@.len());
        }
        assert forall|i: int, j: int| #[trigger] is_word_at(query, i, j) implies list.contains(
            query.subrange(i, j),
        ) by {
            law_word_is_found(query, i, j);
        }
    }
}

/// A search over weighted fields asks for the same text on each field, and has
/// a factor exactly where the weight is not one.
pub proof fn law_weighted_clause(c: PlannedClause, query: Seq<char>, field: Seq<char>, boost: u32)
    requires
        is_weighted_clause(c, query, field, boost),
    ensures
        c.occur == Occur::Should,
        c.optional,
        match c.clause {
            Clause::Boosted { text, field: f, boost: b } => boost != 0x3f80_0000 && text@ == query
                && f@ == field && b == boost,
            Clause::AutoPhrase { text, field: f } => boost == 0x3f80_0000 && text@ == query && f@
                == field,
            _ => false,
        },
{
}

/// A boolean search asks for every term that holds more than whitespace, in
/// order and as it was given, and for no other.
pub proof fn law_boolean_terms_said(clauses: Seq<(String, Occur)>)
    ensures
        said(clauses) == clauses.filter(
            |c: (String, Occur)| c.0@.filter(|x: char| !is_white(x)).len() > 0,
        ),
{
    let a = |c: (String, Occur)| !blank(c.0@);
    let b = |c: (String, Occur)| c.0@.filter(|x: char| !is_white(x)).len() > 0;
    let keep = |x: char| !is_white(x);
    assert forall|i: int| 0 <= i < clauses.len() implies a(#[trigger] clauses[i]) == b(
        clauses[i],
    ) by {
        let s = clauses[i].0@;
        law_blank(s);
        if blank(s) {
            lemma_filter_none(s, keep);
        } else {
            let k = choose|k: int| 0 <= k < s.len() && !is_white(#[trigger] s[k]);
            lemma_filter_place(s, keep, k);
        }
    }
    lemma_filter_same(clauses, a, b);
}

/// A term of a boolean search is asked for on the content, as it was given and
/// counting as it was given.
pub proof fn law_boolean_clause(c: PlannedClause, term: Seq<char>, occur: Occur)
    requires
        is_boolean_clause(c, term, occur),
    ensures
        c.occur == occur,
        c.optional,
        c.clause matches Clause::AutoPhrase { text, field } && text@ == term && field@
            == "content"@,
{
}

/// Enough hits are fetched for a page to be cut out of them: those of the page
/// and those before it. A page that is cut out of so many of the hits is the
/// page that is cut out of all.
pub proof fn law_fetched_hits<T>(hits: Seq<T>, limit: usize, offset: usize, n: usize)
    requires
        call_ensures(fetch_count, (limit, offset), n),
        limit > 0,
        limit + offset <= usize::MAX,
    ensures
        n == limit + offset,
        page_of(
            if hits.len() <= n {
                hits
            } else {
                hits.take(n as int)
            },
            limit as int,
            offset as int,
        ) == page_of(hits, limit as int, offset as int),
{
    if hits.len() > n {
        assert(page_of(hits.take(n as int), limit as int, offset as int) =~= page_of(
            hits,
            limit as int,
            offset as int,
        ));
    }
}

} // verus!
