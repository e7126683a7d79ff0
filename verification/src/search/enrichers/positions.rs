//! Where the terms of a query stand in each result.

use vstd::prelude::*;

use crate::codec::StoredModel;
use crate::extractor::WordPosition;
use crate::positions::{
    all_stored, all_to_store, has_items, lemma_filter_stored, loaded, of_term, stored, to_store,
    PositionStore,
};
use crate::search::enrichers::term_collector::is_punctuation;
use crate::search::errors::SearchError;
use crate::search::traits::ResultEnricher;
use crate::search::types::{PagePosition, RichResult, SearchContext, SearchInput};
use crate::text::{
    chars_of, holds_text, is_white, is_whitespace, lemma_filter_place, lemma_filter_source, texts,
};
use crate::tokenizers::lowercase;

verus! {

/// Whether a character stands between terms: whitespace, or punctuation of
/// ASCII.
pub open spec fn is_break(c: char) -> bool {
    is_white(c) || is_punctuation(c)
}

/// A list of terms, and their lower case, with one more: it is added unless it
/// is empty or the list holds it in another case.
pub open spec fn with_piece(
    seen: (Seq<Seq<char>>, Seq<Seq<char>>),
    piece: Seq<char>,
) -> (Seq<Seq<char>>, Seq<Seq<char>>) {
    if piece.len() == 0 || seen.1.contains(lowercase(piece)) {
        seen
    } else {
        (seen.0.push(piece), seen.1.push(lowercase(piece)))
    }
}

/// What has been read of a query: the terms so far, their lower case, and the
/// piece in hand.
pub open spec fn read_terms(s: Seq<char>) -> ((Seq<Seq<char>>, Seq<Seq<char>>), Seq<char>)
    decreases s.len(),
{
    if s.len() == 0 {
        ((Seq::empty(), Seq::empty()), Seq::empty())
    } else {
        let (seen, piece) = read_terms(s.drop_last());
        if is_break(s.last()) {
            (with_piece(seen, piece), Seq::empty())
        } else {
            (seen, piece.push(s.last()))
        }
    }
}

/// The terms of a query: what stands between whitespace and punctuation, each
/// once whatever its case, as it is written first.
pub open spec fn position_terms(query: Seq<char>) -> Seq<Seq<char>> {
    let (seen, piece) = read_terms(query);
    with_piece(seen, piece).0
}

fn is_break_char(c: char) -> (b: bool)
    ensures
        b == is_break(c),
{
    is_whitespace(c) || ('!' <= c && c <= '/') || (':' <= c && c <= '@') || ('[' <= c && c <= '`')
        || ('{' <= c && c <= '~')
}

fn add_piece(terms: &mut Vec<String>, lower: &mut Vec<String>, piece: String)
    ensures
        (texts(final(terms)@), texts(final(lower)@)) == with_piece(
            (texts(old(terms)@), texts(old(lower)@)),
            piece@,
        ),
{
    if !piece.as_str().is_empty() {
        let l = piece.as_str().to_lowercase();
        if !holds_text(lower, &l) {
            let ghost t = terms@;
            let ghost s = lower@;
            lower.push(l);
            terms.push(piece);
            assert(texts(terms@) =~= texts(t).push(piece@));
            assert(texts(lower@) =~= texts(s).push(l@));
        }
    }
}

/// The terms of a query whose places are looked up.
pub fn query_terms(query: &str) -> (terms: Vec<String>)
    ensures
        texts(terms@) == position_terms(query@),
{
    let v = chars_of(query);
    let mut terms: Vec<String> = Vec::new();
    let mut lower: Vec<String> = Vec::new();
    let mut piece = String::new();
    let mut i: usize = 0;
    proof {
        assert(v@.take(0) =~= Seq::empty());
        assert(texts(terms@) =~= Seq::empty());
        assert(texts(lower@) =~= Seq::empty());
        assert(piece@ =~= Seq::empty());
    }
    while i < v.len()
        invariant
            i <= v@.len(),
            ((texts(terms@), texts(lower@)), piece@) == read_terms(v@.take(i as int)),
        decreases v@.len() - i,
    {
        proof {
            assert(v@.take(i + 1).drop_last() =~= v@.take(i as int));
            assert(v@.take(i + 1).last() == v@[i as int]);
        }
        if is_break_char(v[i]) {
            let mut whole = String::new();
            std::mem::swap(&mut whole, &mut piece);
            add_piece(&mut terms, &mut lower, whole);
            assert(piece@ =~= Seq::empty());
        } else {
            piece.push(v[i]);
        }
        i += 1;
    }
    assert(v@.take(i as int) =~= v@);
    add_piece(&mut terms, &mut lower, piece);
    terms
}

/// The box of a stored word.
pub open spec fn box_of(m: StoredModel) -> PagePosition {
    PagePosition { page: m.1, x_min: m.2, y_min: m.3, x_max: m.4, y_max: m.5 }
}

/// The boxes of a term in a document; none where its words cannot be read.
pub open spec fn term_boxes(blobs: Map<i64, Seq<u8>>, id: i64, term: Seq<char>) -> Seq<
    PagePosition,
> {
    match loaded(blobs, id) {
        Some(words) => of_term(words, term).map_values(|m: StoredModel| box_of(m)),
        None => Seq::empty(),
    }
}

/// The boxes of terms in a document, term by term.
pub open spec fn all_boxes(blobs: Map<i64, Seq<u8>>, id: i64, terms: Seq<Seq<char>>) -> Seq<
    PagePosition,
>
    decreases terms.len(),
{
    if terms.len() == 0 {
        Seq::empty()
    } else {
        all_boxes(blobs, id, terms.drop_last()) + term_boxes(blobs, id, terms.last())
    }
}

/// Whether `after` is a result with the boxes of terms; one without an id stays
/// as it is.
pub open spec fn is_placed(
    before: RichResult,
    after: RichResult,
    blobs: Map<i64, Seq<u8>>,
    terms: Seq<Seq<char>>,
) -> bool {
    match before.doc_id {
        None => after == before,
        Some(id) => {
            &&& after.positions@ == all_boxes(blobs, id, terms)
            &&& after == (RichResult { positions: after.positions, ..before })
        },
    }
}

fn boxes_for(store: &PositionStore, id: i64, terms: &Vec<String>) -> (v: Vec<PagePosition>)
    requires
        store.wf(),
    ensures
        v@ == all_boxes(store.blobs(), id, texts(terms@)),
{
    let ghost all = texts(terms@);
    let mut v: Vec<PagePosition> = Vec::new();
    let mut i: usize = 0;
    assert(all.take(0) =~= Seq::empty());
    while i < terms.len()
        invariant
            store.wf(),
            i <= terms@.len(),
            all == texts(terms@),
            v@ == all_boxes(store.blobs(), id, all.take(i as int)),
        decreases terms@.len() - i,
    {
        proof {
            assert(all.take(i + 1).drop_last() =~= all.take(i as int));
            assert(all.take(i + 1).last() == terms@[i as int]@);
        }
        let ghost start = v@;
        if let Ok(found) = store.get_positions_by_term(id, terms[i].as_str()) {
            let ghost goal = all_stored(found@).map_values(|m: StoredModel| box_of(m));
            let ghost given = found@;
            assert(start + goal.take(0) =~= start);
            for p in it: found
                invariant
                    it.seq() == given,
                    goal == all_stored(given).map_values(|m: StoredModel| box_of(m)),
                    v@ == start + goal.take(it.index()),
            {
                let ghost n = it.index();
                assert(goal[n] == box_of(stored(given[n])));
                assert(goal.take(n + 1) =~= goal.take(n).push(goal[n]));
                v.push(
                    PagePosition {
                        page: p.page,
                        x_min: p.x_min,
                        y_min: p.y_min,
                        x_max: p.x_max,
                        y_max: p.y_max,
                    },
                );
                assert(v@ =~= start + goal.take(n + 1));
            }
            assert(goal.take(goal.len() as int) =~= goal);
        } else {
            assert(start + Seq::<PagePosition>::empty() =~= start);
        }
        i += 1;
    }
    assert(all.take(i as int) =~= all);
    v
}

/// Adds to results where the terms of the query stand on pages.
#[derive(Clone, Copy)]
pub struct PositionEnricher;

/// The kind of the enricher that adds where terms stand.
pub const POSITIONS: u64 = 3;

/// Whether `after` are results with the places of the terms of the query.
/// Without stored positions, and for a query without terms, nothing changes.
pub open spec fn are_placed(
    ctx: SearchContext,
    input: SearchInput,
    before: Seq<RichResult>,
    after: Seq<RichResult>,
) -> bool {
    &&& after.len() == before.len()
    &&& if ctx.position_store is None || position_terms(input.query_str@).len() == 0 {
        after == before
    } else {
        forall|i: int|
            0 <= i < after.len() ==> is_placed(
                before[i],
                #[trigger] after[i],
                ctx.position_store->0.blobs(),
                position_terms(input.query_str@),
            )
    }
}

impl ResultEnricher for PositionEnricher {
    open spec fn kind_of(&self) -> u64 {
        POSITIONS
    }

    open spec fn needs(&self) -> Seq<u64> {
        Seq::empty()
    }

    open spec fn gives(
        &self,
        ctx: SearchContext,
        input: SearchInput,
        extracts: Seq<Option<Seq<char>>>,
        before: Seq<RichResult>,
        r: Result<(), SearchError>,
        after: Seq<RichResult>,
    ) -> bool {
        r is Ok && are_placed(ctx, input, before, after)
    }

    /// Adds to each result where the terms of the query stand.
    fn enrich(
        &self,
        ctx: &SearchContext,
        input: &SearchInput,
        _snippets: &Vec<Option<String>>,
        results: &mut Vec<RichResult>,
    ) -> (r: Result<(), SearchError>) {
        let store = match &ctx.position_store {
            None => {
                return Ok(());
            },
            Some(s) => s,
        };
        let terms = query_terms(input.query_str.as_str());
        assert(texts(terms@).len() == terms@.len());
        if terms.len() == 0 {
            return Ok(());
        }
        let ghost before = results@;
        let mut i: usize = 0;
        while i < results.len()
            invariant
                store.wf(),
                i <= results@.len() == before.len(),
                texts(terms@) == position_terms(input.query_str@),
                forall|k: int|
                    0 <= k < i ==> is_placed(
                        before[k],
                        #[trigger] results@[k],
                        store.blobs(),
                        position_terms(input.query_str@),
                    ),
                forall|k: int| i <= k < before.len() ==> (#[trigger] results@[k]) == before[k],
            decreases results@.len() - i,
        {
            assert(results@[i as int] == before[i as int]);
            if let Some(id) = results[i].doc_id {
                let boxes = boxes_for(store, id, &terms);
                results[i].positions = boxes;
            }
            i += 1;
        }
        Ok(())
    }

    fn depends_on(&self) -> (kinds: Vec<u64>) {
        Vec::new()
    }

    fn type_id(&self) -> (kind: u64) {
        POSITIONS
    }
}

// ---------------------------------------------------------------------------
// Which places are given
// ---------------------------------------------------------------------------

/// Whether a place on a page is that of a word: it has the page and the four
/// edges of the word.
pub open spec fn is_place_of(b: PagePosition, w: WordPosition) -> bool {
    &&& b.page == w.page
    &&& b.x_min == w.x_min
    &&& b.y_min == w.y_min
    &&& b.x_max == w.x_max
    &&& b.y_max == w.y_max
}

/// The places of a term in a document are those of the words that were stored
/// for it and read as the term does in lower case: one for each of them, in
/// their order, with the page, the left, upper, right and lower edge of the
/// word.
pub proof fn law_places_of_term(
    blobs: Map<i64, Seq<u8>>,
    id: i64,
    items: Seq<(usize, WordPosition)>,
    term: Seq<char>,
)
    requires
        has_items(blobs, id, items),
    ensures
        ({
            let found = items.filter(
                |p: (usize, WordPosition)| lowercase(p.1.text@) == lowercase(term),
            );
            &&& term_boxes(blobs, id, term).len() == found.len()
            &&& forall|n: int|
                0 <= n < found.len() ==> is_place_of(
                    #[trigger] term_boxes(blobs, id, term)[n],
                    found[n].1,
                )
        }),
{
    let b = |p: (usize, WordPosition)| lowercase(p.1.text@) == lowercase(term);
    lemma_filter_stored(items, |m: StoredModel| lowercase(m.6) == lowercase(term), b);
    let found = items.filter(b);
    assert(of_term(all_to_store(items), term) == all_to_store(found));
    assert forall|n: int| 0 <= n < found.len() implies is_place_of(
        #[trigger] term_boxes(blobs, id, term)[n],
        found[n].1,
    ) by {
        assert(all_to_store(found)[n] == to_store(found[n]));
    }
}

/// The places of several terms are those of the first, then those of the
/// second, and so on; a document without words has none.
pub proof fn law_places_term_by_term(
    blobs: Map<i64, Seq<u8>>,
    id: i64,
    terms: Seq<Seq<char>>,
    term: Seq<char>,
)
    ensures
        all_boxes(blobs, id, Seq::empty()) == Seq::<PagePosition>::empty(),
        all_boxes(blobs, id, terms.push(term)) == all_boxes(blobs, id, terms) + all_boxes(
            blobs,
            id,
            seq![term],
        ),
        all_boxes(blobs, id, seq![term]) == term_boxes(blobs, id, term),
        !blobs.dom().contains(id) ==> all_boxes(blobs, id, terms) == Seq::<PagePosition>::empty(),
    decreases terms.len(),
{
    assert(terms.push(term).drop_last() =~= terms);
    assert(seq![term].drop_last() =~= Seq::empty());
    assert(seq![term].last() == term);
    assert(all_boxes(blobs, id, Seq::empty()) =~= Seq::empty());
    assert(all_boxes(blobs, id, seq![term]) =~= term_boxes(blobs, id, term));
    if terms.len() > 0 && !blobs.dom().contains(id) {
        law_places_term_by_term(blobs, id, terms.drop_last(), term);
        assert(all_boxes(blobs, id, terms) =~= Seq::empty());
    }
}

/// Whether a place is that of a word among `items` that reads as one of the
/// terms does in lower case.
pub open spec fn is_place_of_term(
    b: PagePosition,
    items: Seq<(usize, WordPosition)>,
    terms: Seq<Seq<char>>,
) -> bool {
    exists|t: int, k: int|
        #![trigger terms[t], items[k]]
        0 <= t < terms.len() && 0 <= k < items.len() && lowercase(terms[t]) == lowercase(
            items[k].1.text@,
        ) && is_place_of(b, items[k].1)
}

/// Whether a word has its place among `boxes`.
pub open spec fn has_place(boxes: Seq<PagePosition>, w: WordPosition) -> bool {
    exists|n: int| 0 <= n < boxes.len() && is_place_of(#[trigger] boxes[n], w)
}

proof fn lemma_places(
    blobs: Map<i64, Seq<u8>>,
    id: i64,
    items: Seq<(usize, WordPosition)>,
    terms: Seq<Seq<char>>,
)
    requires
        has_items(blobs, id, items),
    ensures
        forall|n: int|
            0 <= n < all_boxes(blobs, id, terms).len() ==> is_place_of_term(
                #[trigger] all_boxes(blobs, id, terms)[n],
                items,
                terms,
            ),
        forall|t: int, k: int|
            #![trigger terms[t], items[k]]
            0 <= t < terms.len() && 0 <= k < items.len() && lowercase(terms[t]) == lowercase(
                items[k].1.text@,
            ) ==> has_place(all_boxes(blobs, id, terms), items[k].1),
    decreases terms.len(),
{
    if terms.len() > 0 {
        let d = terms.drop_last();
        let term = terms.last();
        lemma_places(blobs, id, items, d);
        law_places_of_term(blobs, id, items, term);
        let keep = |p: (usize, WordPosition)| lowercase(p.1.text@) == lowercase(term);
        let found = items.filter(keep);
        let front = all_boxes(blobs, id, d);
        let all = all_boxes(blobs, id, terms);
        assert(all == front + term_boxes(blobs, id, term));
        assert forall|n: int| 0 <= n < all.len() implies is_place_of_term(
            #[trigger] all[n],
            items,
            terms,
        ) by {
            if n < front.len() {
                assert(all[n] == front[n]);
                assert(is_place_of_term(front[n], items, d));
                let (t, k) = choose|t: int, k: int|
                    #![trigger d[t], items[k]]
                    0 <= t < d.len() && 0 <= k < items.len() && lowercase(d[t]) == lowercase(
                        items[k].1.text@,
                    ) && is_place_of(front[n], items[k].1);
                assert(terms[t] == d[t] && items[k] == items[k]);
            } else {
                let m = n - front.len();
                let k = lemma_filter_source(items, keep, m);
                assert(terms[terms.len() - 1] == term && items[k] == found[m]);
                assert(is_place_of(term_boxes(blobs, id, term)[m], found[m].1));
            }
        }
        assert forall|t: int, k: int|
            #![trigger terms[t], items[k]]
            0 <= t < terms.len() && 0 <= k < items.len() && lowercase(terms[t]) == lowercase(
                items[k].1.text@,
            ) implies has_place(all, items[k].1) by {
            if t < d.len() {
                assert(d[t] == terms[t] && items[k] == items[k]);
                assert(has_place(front, items[k].1));
                let n = choose|n: int|
                    0 <= n < front.len() && is_place_of(#[trigger] front[n], items[k].1);
                assert(all[n] == front[n]);
            } else {
                lemma_filter_place(items, keep, k);
                let m = items.take(k).filter(keep).len() as int;
                assert(is_place_of(term_boxes(blobs, id, term)[m], found[m].1));
                assert(all[front.len() + m] == term_boxes(blobs, id, term)[m]);
            }
        }
    }
}

/// Each place of a result is that of a word that was stored for its document
/// and is a term of the query, with its page and its four edges, and each such
/// word has its place. Nothing else of the result changes.
pub proof fn law_places_of_result(
    before: RichResult,
    after: RichResult,
    blobs: Map<i64, Seq<u8>>,
    items: Seq<(usize, WordPosition)>,
    terms: Seq<Seq<char>>,
)
    requires
        is_placed(before, after, blobs, terms),
        before.doc_id is Some,
        has_items(blobs, before.doc_id->0, items),
    ensures
        forall|n: int|
            0 <= n < after.positions@.len() ==> is_place_of_term(
                #[trigger] after.positions@[n],
                items,
                terms,
            ),
        forall|t: int, k: int|
            #![trigger terms[t], items[k]]
            0 <= t < terms.len() && 0 <= k < items.len() && lowercase(terms[t]) == lowercase(
                items[k].1.text@,
            ) ==> has_place(after.positions@, items[k].1),
        after == (RichResult { positions: after.positions, ..before }),
{
    lemma_places(blobs, before.doc_id->0, items, terms);
}

// ---------------------------------------------------------------------------
// Which terms a query has
// ---------------------------------------------------------------------------

/// What stands between terms is whitespace, and every graphic character of
/// ASCII that is neither a letter nor a digit.
pub proof fn law_breaks(c: char)
    ensures
        is_break(c) <==> is_white(c) || ('!' <= c <= '~' && !('0' <= c <= '9') && !('A' <= c <= 'Z')
            && !('a' <= c <= 'z')),
{
}

/// Whether the characters from `i` to `j` are a term: none of them stands
/// between terms, and what stands before and behind them does, or is an end of
/// the query.
pub open spec fn is_term_at(s: Seq<char>, i: int, j: int) -> bool {
    &&& 0 <= i < j <= s.len()
    &&& forall|k: int| i <= k < j ==> !is_break(#[trigger] s[k])
    &&& i == 0 || is_break(s[i - 1])
    &&& j == s.len() || is_break(s[j])
}

/// Whether a text stands as a term in a query, and ends before `upto`.
pub open spec fn is_term_of(text: Seq<char>, s: Seq<char>, upto: int) -> bool {
    exists|i: int, j: int| j <= upto && #[trigger] is_term_at(s, i, j) && text == s.subrange(i, j)
}

/// Whether a list has a text that reads as `text` does in lower case.
pub open spec fn is_listed(list: Seq<Seq<char>>, text: Seq<char>) -> bool {
    exists|t: int| 0 <= t < list.len() && lowercase(#[trigger] list[t]) == lowercase(text)
}

/// Whether no term of a query before character `i` reads as `text` does in
/// lower case.
pub open spec fn is_new_at(s: Seq<char>, i: int, text: Seq<char>) -> bool {
    forall|x: int, y: int|
        #[trigger] is_term_at(s, x, y) && x < i ==> lowercase(s.subrange(x, y)) != lowercase(text)
}

/// Whether a list holds the terms that end before `upto`: each is a term of
/// the query, no two read the same in lower case, and each term of the query
/// is there, as it is written first.
pub open spec fn are_terms(list: Seq<Seq<char>>, s: Seq<char>, upto: int) -> bool {
    &&& forall|t: int| 0 <= t < list.len() ==> is_term_of(#[trigger] list[t], s, upto)
    &&& forall|t: int, u: int|
        0 <= t < u < list.len() ==> lowercase(#[trigger] list[t]) != lowercase(#[trigger] list[u])
    &&& forall|i: int, j: int|
        #[trigger] is_term_at(s, i, j) && j <= upto ==> is_listed(list, s.subrange(i, j))
    &&& forall|i: int, j: int|
        #[trigger] is_term_at(s, i, j) && j <= upto && is_new_at(s, i, s.subrange(i, j))
            ==> list.contains(s.subrange(i, j))
}

/// Whether the second list is the first in lower case.
spec fn are_lower(seen: (Seq<Seq<char>>, Seq<Seq<char>>)) -> bool {
    &&& seen.0.len() == seen.1.len()
    &&& forall|t: int| 0 <= t < seen.0.len() ==> seen.1[t] == lowercase(#[trigger] seen.0[t])
}

proof fn lemma_longer(list: Seq<Seq<char>>, s: Seq<char>, n: int, m: int)
    requires
        are_terms(list, s, n),
        n <= m,
        forall|i: int, j: int| #[trigger] is_term_at(s, i, j) && j <= m ==> j <= n,
    ensures
        are_terms(list, s, m),
{
    assert forall|t: int| 0 <= t < list.len() implies is_term_of(#[trigger] list[t], s, m) by {
        assert(is_term_of(list[t], s, n));
        let (i, j) = choose|i: int, j: int|
            j <= n && #[trigger] is_term_at(s, i, j) && list[t] == s.subrange(i, j);
        assert(j <= m && is_term_at(s, i, j));
    }
}

proof fn lemma_lower_listed(seen: (Seq<Seq<char>>, Seq<Seq<char>>), piece: Seq<char>)
    requires
        are_lower(seen),
    ensures
        seen.1.contains(lowercase(piece)) <==> is_listed(seen.0, piece),
{
    if seen.1.contains(lowercase(piece)) {
        let t = choose|t: int| 0 <= t < seen.1.len() && seen.1[t] == lowercase(piece);
        assert(lowercase(seen.0[t]) == lowercase(piece));
    }
    if is_listed(seen.0, piece) {
        let t = choose|t: int|
            0 <= t < seen.0.len() && lowercase(#[trigger] seen.0[t]) == lowercase(piece);
        assert(seen.1[t] == lowercase(piece));
    }
}

/// A term that is in a list already, in another case, changes nothing.
proof fn lemma_known_term(list: Seq<Seq<char>>, s: Seq<char>, n: int, m: int)
    requires
        are_terms(list, s, n),
        n < m,
        is_term_at(s, n, m),
        is_listed(list, s.subrange(n, m)),
        forall|i: int, j: int| #[trigger] is_term_at(s, i, j) && n < j <= m ==> i == n && j == m,
    ensures
        are_terms(list, s, m),
{
    let piece = s.subrange(n, m);
    lemma_not_new(list, s, n, piece);
    assert forall|t: int| 0 <= t < list.len() implies is_term_of(#[trigger] list[t], s, m) by {
        assert(is_term_of(list[t], s, n));
        let (i, j) = choose|i: int, j: int|
            j <= n && #[trigger] is_term_at(s, i, j) && list[t] == s.subrange(i, j);
        assert(j <= m && is_term_at(s, i, j));
    }
    assert forall|i: int, j: int| #[trigger] is_term_at(s, i, j) && j <= m implies is_listed(
        list,
        s.subrange(i, j),
    ) by {
        if j > n {
            assert(i == n && j == m);
        }
    }
    assert forall|i: int, j: int|
        #[trigger] is_term_at(s, i, j) && j <= m && is_new_at(s, i, s.subrange(i, j)) implies
        list.contains(s.subrange(i, j)) by {
        if j > n {
            assert(i == n && j == m);
        }
    }
}

proof fn lemma_not_new(list: Seq<Seq<char>>, s: Seq<char>, n: int, piece: Seq<char>)
    requires
        forall|t: int| 0 <= t < list.len() ==> is_term_of(#[trigger] list[t], s, n),
        is_listed(list, piece),
    ensures
        !is_new_at(s, n, piece),
{
    let t = choose|t: int|
        0 <= t < list.len() && lowercase(#[trigger] list[t]) == lowercase(piece);
    assert(is_term_of(list[t], s, n));
    let (x, y) = choose|x: int, y: int|
        y <= n && #[trigger] is_term_at(s, x, y) && list[t] == s.subrange(x, y);
    assert(is_term_at(s, x, y) && x < n);
}

/// A term that is not in a list goes behind it.
proof fn lemma_new_term(list: Seq<Seq<char>>, s: Seq<char>, n: int, m: int)
    requires
        are_terms(list, s, n),
        n < m,
        is_term_at(s, n, m),
        !is_listed(list, s.subrange(n, m)),
        forall|i: int, j: int| #[trigger] is_term_at(s, i, j) && n < j <= m ==> i == n && j == m,
    ensures
        are_terms(list.push(s.subrange(n, m)), s, m),
{
    let piece = s.subrange(n, m);
    let after = list.push(piece);
    assert forall|t: int| 0 <= t < after.len() implies is_term_of(#[trigger] after[t], s, m) by {
        if t < list.len() {
            assert(is_term_of(list[t], s, n));
            let (i, j) = choose|i: int, j: int|
                j <= n && #[trigger] is_term_at(s, i, j) && list[t] == s.subrange(i, j);
            assert(j <= m && is_term_at(s, i, j));
        } else {
            assert(is_term_at(s, n, m));
        }
    }
    assert forall|t: int, u: int| 0 <= t < u < after.len() implies lowercase(#[trigger] after[t])
        != lowercase(#[trigger] after[u]) by {
        assert(after[t] == list[t]);
        if u < list.len() {
            assert(after[u] == list[u]);
        }
    }
    assert forall|i: int, j: int| #[trigger] is_term_at(s, i, j) && j <= m implies is_listed(
        after,
        s.subrange(i, j),
    ) by {
        if j <= n {
            assert(is_listed(list, s.subrange(i, j)));
            let t = choose|t: int|
                0 <= t < list.len() && lowercase(#[trigger] list[t]) == lowercase(s.subrange(i, j));
            assert(after[t] == list[t]);
        } else {
            assert(after[list.len() as int] == piece);
        }
    }
    assert forall|i: int, j: int|
        #[trigger] is_term_at(s, i, j) && j <= m && is_new_at(s, i, s.subrange(i, j)) implies
        after.contains(s.subrange(i, j)) by {
        if j <= n {
            assert(list.contains(s.subrange(i, j)));
            let t = choose|t: int| 0 <= t < list.len() && list[t] == s.subrange(i, j);
            assert(after[t] == s.subrange(i, j));
        } else {
            assert(after[list.len() as int] == piece);
        }
    }
}

proof fn lemma_one_term_more(
    seen: (Seq<Seq<char>>, Seq<Seq<char>>),
    s: Seq<char>,
    n: int,
    m: int,
)
    requires
        are_terms(seen.0, s, n),
        are_lower(seen),
        0 <= n <= m <= s.len(),
        n == 0 || is_break(s[n - 1]),
        n < m ==> is_term_at(s, n, m),
    ensures
        are_terms(with_piece(seen, s.subrange(n, m)).0, s, m),
        are_lower(with_piece(seen, s.subrange(n, m))),
{
    let piece = s.subrange(n, m);
    assert forall|i: int, j: int| #[trigger] is_term_at(s, i, j) && n < j <= m implies i == n && j
        == m by {
        assert(!is_break(s[j - 1]));
        if i < n {
            assert(!is_break(s[n - 1]));
        }
        if j < m {
            assert(!is_break(s[j]));
        }
        if i > n {
            assert(!is_break(s[i - 1]));
        }
    }
    lemma_lower_listed(seen, piece);
    if n < m {
        if is_listed(seen.0, piece) {
            lemma_known_term(seen.0, s, n, m);
        } else {
            lemma_new_term(seen.0, s, n, m);
        }
    }
}

proof fn lemma_read_terms(s: Seq<char>, k: int) -> (n: int)
    requires
        0 <= k <= s.len(),
    ensures
        0 <= n <= k,
        n == 0 || is_break(s[n - 1]),
        forall|i: int| n <= i < k ==> !is_break(#[trigger] s[i]),
        read_terms(s.take(k)).1 == s.subrange(n, k),
        are_terms(read_terms(s.take(k)).0.0, s, n),
        are_lower(read_terms(s.take(k)).0),
    decreases k,
{
    if k == 0 {
        assert(s.take(0) =~= Seq::empty());
        assert(s.subrange(0, 0) =~= Seq::empty());
        0
    } else {
        let n = lemma_read_terms(s, k - 1);
        let seen = read_terms(s.take(k - 1)).0;
        assert(s.take(k).drop_last() =~= s.take(k - 1));
        assert(s.take(k).last() == s[k - 1]);
        if is_break(s[k - 1]) {
            lemma_one_term_more(seen, s, n, k - 1);
            assert(s.subrange(k, k) =~= Seq::empty());
            assert forall|i: int, j: int| #[trigger] is_term_at(s, i, j) && j <= k implies j <= k
                - 1 by {
                assert(!is_break(s[j - 1]));
            }
            lemma_longer(with_piece(seen, s.subrange(n, k - 1)).0, s, k - 1, k);
            k
        } else {
            assert(s.subrange(n, k - 1).push(s[k - 1]) =~= s.subrange(n, k));
            n
        }
    }
}

/// The terms of a query are what stands in it between whitespace and
/// punctuation: each term stands in the query so, each such piece of the query
/// reads as a term does in lower case, no two terms read the same in lower
/// case, and a term is written as it stands first.
pub proof fn law_terms_of_query(query: Seq<char>)
    ensures
        are_terms(position_terms(query), query, query.len() as int),
{
    let n = lemma_read_terms(query, query.len() as int);
    assert(query.take(query.len() as int) =~= query);
    lemma_one_term_more(read_terms(query).0, query, n, query.len() as int);
}

/// Where there are stored positions and the query has terms, every result of
/// which the document is known has the places of its stored words that are
/// terms of the query, and no others; nothing else of it changes. A result
/// without a document, and all results where there are no stored positions,
/// stay as they are.
pub proof fn law_results_placed(
    ctx: SearchContext,
    input: SearchInput,
    before: Seq<RichResult>,
    after: Seq<RichResult>,
    items: Seq<(usize, WordPosition)>,
    i: int,
)
    requires
        are_placed(ctx, input, before, after),
        0 <= i < before.len(),
    ensures
        after.len() == before.len(),
        ctx.position_store is None || before[i].doc_id is None ==> after[i] == before[i],
        after[i] == (RichResult { positions: after[i].positions, ..before[i] }),
        ctx.position_store is Some && before[i].doc_id is Some && before[i].positions@.len() == 0
            && has_items(ctx.position_store->0.blobs(), before[i].doc_id->0, items) ==> {
            let terms = position_terms(input.query_str@);
            &&& forall|n: int|
                0 <= n < after[i].positions@.len() ==> is_place_of_term(
                    #[trigger] after[i].positions@[n],
                    items,
                    terms,
                )
            &&& forall|t: int, k: int|
                #![trigger terms[t], items[k]]
                0 <= t < terms.len() && 0 <= k < items.len() && lowercase(terms[t]) == lowercase(
                    items[k].1.text@,
                ) ==> has_place(after[i].positions@, items[k].1)
        },
{
    let terms = position_terms(input.query_str@);
    if ctx.position_store is Some && terms.len() > 0 {
        let blobs = ctx.position_store->0.blobs();
        assert(is_placed(before[i], after[i], blobs, terms));
        if before[i].doc_id is Some && has_items(blobs, before[i].doc_id->0, items) {
            law_places_of_result(before[i], after[i], blobs, items, terms);
        }
    }
}

/// What the enricher adds to a result: the page and the four edges of each
/// word that was stored for its document and is a term of the query, and
/// nothing else.
pub proof fn law_enricher_places_words(
    e: PositionEnricher,
    ctx: SearchContext,
    input: SearchInput,
    snippets: Vec<Option<String>>,
    items: Seq<(usize, WordPosition)>,
    i: int,
)
    requires
        ctx.position_store is Some,
    ensures
        forall|results: &mut Vec<RichResult>, r: Result<(), SearchError>| #[trigger]
            call_ensures(
                <PositionEnricher as ResultEnricher>::enrich,
                (&e, &ctx, &input, &snippets, results),
                r,
            ) && 0 <= i < results@.len() && results@[i].doc_id is Some
                && results@[i].positions@.len() == 0 && has_items(
                ctx.position_store->0.blobs(),
                results@[i].doc_id->0,
                items,
            ) ==> {
                let after = final(results)@[i];
                let terms = position_terms(input.query_str@);
                &&& r is Ok
                &&& final(results)@.len() == results@.len()
                &&& forall|n: int|
                    0 <= n < after.positions@.len() ==> is_place_of_term(
                        #[trigger] after.positions@[n],
                        items,
                        terms,
                    )
                &&& forall|t: int, k: int|
                    #![trigger terms[t], items[k]]
                    0 <= t < terms.len() && 0 <= k < items.len() && lowercase(terms[t])
                        == lowercase(items[k].1.text@) ==> has_place(
                        after.positions@,
                        items[k].1,
                    )
            },
{
    assert forall|results: &mut Vec<RichResult>, r: Result<(), SearchError>| #[trigger]
        call_ensures(
            <PositionEnricher as ResultEnricher>::enrich,
            (&e, &ctx, &input, &snippets, results),
            r,
        ) && 0 <= i < results@.len() && results@[i].doc_id is Some && results@[i].positions@.len()
            == 0 && has_items(
            ctx.position_store->0.blobs(),
            results@[i].doc_id->0,
            items,
        ) implies {
        let after = final(results)@[i];
        let terms = position_terms(input.query_str@);
        &&& r is Ok
        &&& final(results)@.len() == results@.len()
        &&& forall|n: int|
            0 <= n < after.positions@.len() ==> is_place_of_term(
                #[trigger] after.positions@[n],
                items,
                terms,
            )
        &&& forall|t: int, k: int|
            #![trigger terms[t], items[k]]
            0 <= t < terms.len() && 0 <= k < items.len() && lowercase(terms[t]) == lowercase(
                items[k].1.text@,
            ) ==> has_place(after.positions@, items[k].1)
    } by {
        assert(are_placed(ctx, input, results@, final(results)@));
        law_results_placed(ctx, input, results@, final(results)@, items, i);
    }
}

} // verus!
