//! Terms and phrases of a query, for marking them in a document.

use vstd::prelude::*;

use crate::search::builders::boolean_phrase::{
    boolean_phrase_text, is_bare_multiword, plain_multiword,
};
use crate::search::errors::SearchError;
use crate::search::traits::ResultEnricher;
use crate::search::types::{RichResult, SearchContext, SearchInput, SearchStrategy};
use crate::text::{
    chars_of, copy_texts, holds_char, holds_text, is_white, is_whitespace, law_trim,
    law_word_is_there, law_words_are_the_text, lemma_filter_none, lemma_filter_place,
    lemma_filter_same, lemma_trim_start, lemma_trim_start_len, same_text, skip_white, split_words, string_of, texts,
    trim, trim_bounds, trim_start, words,
};
use crate::tokenizers::lowercase;

verus! {

// ---------------------------------------------------------------------------
// Quoted groups and bare words
// ---------------------------------------------------------------------------

/// How many characters stand before the first double quote.
pub open spec fn quote_len(s: Seq<char>) -> nat
    decreases s.len(),
{
    if s.len() == 0 || s[0] == '"' {
        0
    } else {
        1 + quote_len(s.drop_first())
    }
}

/// How many characters stand before the first whitespace or double quote.
pub open spec fn bare_len(s: Seq<char>) -> nat
    decreases s.len(),
{
    if s.len() == 0 || s[0] == '"' || is_white(s[0]) {
        0
    } else {
        1 + bare_len(s.drop_first())
    }
}

proof fn lemma_quote_len(s: Seq<char>)
    ensures
        quote_len(s) <= s.len(),
    decreases s.len(),
{
    if s.len() > 0 && s[0] != '"' {
        lemma_quote_len(s.drop_first());
    }
}

proof fn lemma_bare_len(s: Seq<char>)
    ensures
        bare_len(s) <= s.len(),
        s.len() > 0 && s[0] != '"' && !is_white(s[0]) ==> bare_len(s) > 0,
    decreases s.len(),
{
    if s.len() > 0 && s[0] != '"' && !is_white(s[0]) {
        lemma_bare_len(s.drop_first());
    }
}

/// A list with one text, or with none where the text is empty.
pub open spec fn one_unless_empty(s: Seq<char>) -> Seq<Seq<char>> {
    if s.len() > 0 {
        seq![s]
    } else {
        Seq::empty()
    }
}

/// The quoted groups, without their quotes and trimmed, and the bare words of
/// a text, in their order. Empty groups do not count, and a quote that is not
/// closed runs to the end.
pub open spec fn quote_tokens(s: Seq<char>) -> Seq<Seq<char>>
    decreases s.len(),
    via quote_tokens_decreases
{
    let t = trim_start(s);
    if t.len() == 0 {
        Seq::empty()
    } else if t[0] == '"' {
        let body = t.drop_first();
        let n = quote_len(body) as int;
        let rest = if n < body.len() {
            body.skip(n + 1)
        } else {
            Seq::empty()
        };
        one_unless_empty(trim(body.take(n))) + quote_tokens(rest)
    } else {
        let n = bare_len(t) as int;
        seq![t.take(n)] + quote_tokens(t.skip(n))
    }
}

#[via_fn]
proof fn quote_tokens_decreases(s: Seq<char>) {
    lemma_trim_start_len(s);
    let t = trim_start(s);
    if t.len() > 0 {
        lemma_quote_len(t.drop_first());
        lemma_bare_len(t);
    }
}

/// Splits a text into quoted groups and bare words.
pub fn split_respecting_quotes(s: &str) -> (tokens: Vec<String>)
    ensures
        texts(tokens@) == quote_tokens(s@),
{
    let v = chars_of(s);
    let n = v.len();
    let mut tokens: Vec<String> = Vec::new();
    let mut at: usize = 0;
    assert(v@.skip(0) =~= v@);
    assert(texts(tokens@) + quote_tokens(v@) =~= quote_tokens(s@));
    loop
        invariant
            at <= n == v@.len(),
            v@ == s@,
            texts(tokens@) + quote_tokens(v@.skip(at as int)) == quote_tokens(s@),
        ensures
            texts(tokens@) == quote_tokens(s@),
        decreases n - at,
    {
        let start = skip_white(&v, at, n);
        let ghost rest = v@.skip(at as int);
        let ghost t = v@.skip(start as int);
        proof {
            assert(v@.subrange(at as int, n as int) =~= rest);
            assert(v@.subrange(start as int, n as int) =~= t);
            assert(trim_start(rest) == t);
        }
        let ghost before = tokens@;
        if start == n {
            proof {
                assert(quote_tokens(rest) =~= Seq::empty());
                assert(texts(tokens@) =~= quote_tokens(s@));
            }
            break;
        }
        assert(t[0] == v@[start as int]);
        if v[start] == '"' {
            let mut end: usize = start + 1;
            let ghost body = t.drop_first();
            proof {
                assert(v@.skip(end as int) =~= body);
            }
            while end < n && v[end] != '"'
                invariant
                    start < end <= n == v@.len(),
                    quote_len(body) == end - start - 1 + quote_len(v@.skip(end as int)),
                decreases n - end,
            {
                assert(v@.skip(end as int).drop_first() =~= v@.skip(end + 1));
                assert(v@.skip(end as int)[0] == v@[end as int]);
                end += 1;
            }
            proof {
                if end < n {
                    assert(v@.skip(end as int)[0] == v@[end as int]);
                }
                assert(quote_len(body) == end - start - 1);
                assert(body.take(end - start - 1) =~= v@.subrange(start + 1, end as int));
            }
            let (a, b) = trim_bounds(&v, start + 1, end);
            if a < b {
                tokens.push(string_of(&v, a, b));
            }
            let next = if end < n {
                end + 1
            } else {
                n
            };
            proof {
                let g = trim(body.take(end - start - 1));
                let left = if end - start - 1 < body.len() {
                    body.skip(end - start)
                } else {
                    Seq::empty()
                };
                assert(left =~= v@.skip(next as int));
                assert(texts(tokens@) =~= texts(before) + one_unless_empty(g));
                assert(quote_tokens(rest) == one_unless_empty(g) + quote_tokens(left));
                assert(texts(tokens@) + quote_tokens(left) =~= texts(before) + quote_tokens(rest));
            }
            at = next;
        } else {
            let mut end: usize = start;
            while end < n && !is_whitespace(v[end]) && v[end] != '"'
                invariant
                    start <= end <= n == v@.len(),
                    t == v@.skip(start as int),
                    bare_len(t) == end - start + bare_len(v@.skip(end as int)),
                decreases n - end,
            {
                assert(v@.skip(end as int).drop_first() =~= v@.skip(end + 1));
                assert(v@.skip(end as int)[0] == v@[end as int]);
                end += 1;
            }
            proof {
                if end < n {
                    assert(v@.skip(end as int)[0] == v@[end as int]);
                }
                lemma_bare_len(t);
                assert(bare_len(t) == end - start);
                assert(t.take(end - start) =~= v@.subrange(start as int, end as int));
                assert(t.skip(end - start) =~= v@.skip(end as int));
            }
            tokens.push(string_of(&v, start, end));
            proof {
                assert(texts(tokens@) =~= texts(before).push(t.take(end - start)));
                assert(quote_tokens(rest) == seq![t.take(end - start)] + quote_tokens(
                    v@.skip(end as int),
                ));
                assert(texts(tokens@) + quote_tokens(v@.skip(end as int)) =~= texts(before)
                    + quote_tokens(rest));
            }
            at = end;
        }
    }
    tokens
}

// ---------------------------------------------------------------------------
// Lists of terms
// ---------------------------------------------------------------------------

/// The texts of a list that are not empty.
pub open spec fn filled(list: Seq<Seq<char>>) -> Seq<Seq<char>> {
    list.filter(|w: Seq<char>| w.len() > 0)
}

/// The words of a text in lower case.
pub open spec fn lower_words(s: Seq<char>) -> Seq<Seq<char>> {
    filled(words(s).map_values(|w: Seq<char>| lowercase(w)))
}

/// A list with a text added where it does not hold it yet.
pub open spec fn with_term(flat: Seq<Seq<char>>, w: Seq<char>) -> Seq<Seq<char>> {
    if flat.contains(w) {
        flat
    } else {
        flat.push(w)
    }
}

/// A list with each of several texts added where it does not hold it yet.
pub open spec fn with_terms(flat: Seq<Seq<char>>, ws: Seq<Seq<char>>) -> Seq<Seq<char>>
    decreases ws.len(),
{
    if ws.len() == 0 {
        flat
    } else {
        with_term(with_terms(flat, ws.drop_last()), ws.last())
    }
}

/// The texts of a list of lists.
pub open spec fn group_texts(groups: Seq<Vec<String>>) -> Seq<Seq<Seq<char>>> {
    groups.map_values(|g: Vec<String>| texts(g@))
}

/// Adds texts to a list that does not hold them yet.
fn add_terms(flat: &mut Vec<String>, ws: &Vec<String>)
    ensures
        texts(final(flat)@) == with_terms(texts(old(flat)@), texts(ws@)),
{
    let mut i: usize = 0;
    let ghost start = texts(flat@);
    let ghost all = texts(ws@);
    assert(all.take(0) =~= Seq::empty());
    while i < ws.len()
        invariant
            i <= ws@.len(),
            all == texts(ws@),
            texts(flat@) == with_terms(start, all.take(i as int)),
        decreases ws@.len() - i,
    {
        let ghost before = flat@;
        if !holds_text(flat, &ws[i]) {
            flat.push(ws[i].clone());
            assert(texts(flat@) =~= texts(before).push(ws@[i as int]@));
        }
        assert(all.take(i + 1).drop_last() =~= all.take(i as int));
        assert(all.take(i + 1).last() == ws@[i as int]@);
        i += 1;
    }
    assert(all.take(i as int) =~= all);
}

/// A list with a text behind it, unless the text is empty.
proof fn lemma_filled_push(list: Seq<Seq<char>>, w: Seq<char>)
    ensures
        filled(list.push(w)) == if w.len() > 0 {
            filled(list).push(w)
        } else {
            filled(list)
        },
{
    reveal(Seq::filter);
    assert(list.push(w).drop_last() =~= list);
}

/// The words of a text in lower case.
pub fn words_in_lower_case(s: &str) -> (r: Vec<String>)
    ensures
        texts(r@) == lower_words(s@),
{
    let v = chars_of(s);
    assert(v@.subrange(0, v@.len() as int) =~= v@);
    let found = split_words(&v, 0, v.len());
    let mut r: Vec<String> = Vec::new();
    let ghost lowered = words(s@).map_values(|w: Seq<char>| lowercase(w));
    let mut i: usize = 0;
    proof {
        assert(lowered.take(0) =~= Seq::empty());
        reveal(Seq::filter);
        assert(texts(r@) =~= filled(lowered.take(0)));
    }
    while i < found.len()
        invariant
            i <= found@.len(),
            texts(found@) == words(s@),
            lowered == words(s@).map_values(|w: Seq<char>| lowercase(w)),
            texts(r@) == filled(lowered.take(i as int)),
        decreases found@.len() - i,
    {
        assert(texts(found@)[i as int] == found@[i as int]@);
        let w = found[i].as_str().to_lowercase();
        let ghost before = r@;
        proof {
            lemma_filled_push(lowered.take(i as int), w@);
            assert(lowered.take(i + 1) =~= lowered.take(i as int).push(w@));
        }
        let empty = w.as_str().is_empty();
        if !empty {
            r.push(w);
            assert(texts(r@) =~= texts(before).push(w@));
        }
        i += 1;
    }
    assert(texts(found@).len() == found@.len());
    assert(lowered.take(i as int) =~= lowered);
    r
}

// ---------------------------------------------------------------------------
// Phrases by default
// ---------------------------------------------------------------------------

/// The phrases of a query: without quotes it is one phrase as a whole; with
/// quotes each quoted group is a phrase, and so is each bare word.
pub open spec fn auto_groups(query: Seq<char>) -> Seq<Seq<Seq<char>>> {
    if query.contains('"') {
        quote_tokens(query).map_values(|t: Seq<char>| lower_words(t))
    } else if words(query).len() == 0 {
        Seq::empty()
    } else {
        seq![lower_words(query)]
    }
}

/// The terms of phrases, each once.
pub open spec fn terms_of(groups: Seq<Seq<Seq<char>>>) -> Seq<Seq<char>>
    decreases groups.len(),
{
    if groups.len() == 0 {
        Seq::empty()
    } else {
        with_terms(terms_of(groups.drop_last()), groups.last())
    }
}

/// The phrases and the terms of a query that is a phrase by default.
pub fn extract_auto_phrase_groups(query: &str) -> (r: (Vec<Vec<String>>, Vec<String>))
    ensures
        group_texts(r.0@) == auto_groups(query@),
        texts(r.1@) == terms_of(auto_groups(query@)),
{
    let v = chars_of(query);
    assert(v@.subrange(0, v@.len() as int) =~= v@);
    let mut groups: Vec<Vec<String>> = Vec::new();
    let mut flat: Vec<String> = Vec::new();
    let ghost goal = auto_groups(query@);
    if holds_char(&v, 0, v.len(), '"') {
        let tokens = split_respecting_quotes(query);
        let mut i: usize = 0;
        proof {
            assert(goal.take(0) =~= Seq::empty());
            assert(group_texts(groups@) =~= goal.take(0));
            assert(texts(flat@) =~= Seq::empty());
        }
        while i < tokens.len()
            invariant
                i <= tokens@.len(),
                texts(tokens@) == quote_tokens(query@),
                goal == quote_tokens(query@).map_values(|t: Seq<char>| lower_words(t)),
                group_texts(groups@) == goal.take(i as int),
                texts(flat@) == terms_of(goal.take(i as int)),
            decreases tokens@.len() - i,
        {
            assert(texts(tokens@)[i as int] == tokens@[i as int]@);
            let ws = words_in_lower_case(tokens[i].as_str());
            add_terms(&mut flat, &ws);
            let ghost before = groups@;
            let ghost last = texts(ws@);
            groups.push(ws);
            proof {
                assert(goal.take(i + 1).drop_last() =~= goal.take(i as int));
                assert(goal.take(i + 1).last() == last);
                assert(group_texts(groups@) =~= group_texts(before).push(last));
                assert(goal.take(i + 1) =~= goal.take(i as int).push(last));
            }
            i += 1;
        }
        assert(texts(tokens@).len() == tokens@.len());
        assert(goal.take(i as int) =~= goal);
    } else {
        let found = split_words(&v, 0, v.len());
        assert(texts(found@).len() == found@.len());
        if found.len() > 0 {
            let ws = words_in_lower_case(query);
            assert(texts(flat@) =~= Seq::empty());
            add_terms(&mut flat, &ws);
            let ghost last = texts(ws@);
            groups.push(ws);
            proof {
                assert(group_texts(groups@) =~= seq![last]);
                assert(goal =~= seq![last]);
                assert(goal.drop_last() =~= Seq::empty());
                assert(terms_of(goal.drop_last()) =~= Seq::empty());
            }
        } else {
            proof {
                assert(group_texts(groups@) =~= Seq::empty());
                assert(texts(flat@) =~= Seq::empty());
            }
        }
    }
    (groups, flat)
}

// ---------------------------------------------------------------------------
// Operators between phrases
// ---------------------------------------------------------------------------

/// The punctuation of ASCII.
pub open spec fn is_punctuation(c: char) -> bool {
    '!' <= c <= '/' || ':' <= c <= '@' || '[' <= c <= '`' || '{' <= c <= '~'
}

/// Whether a character is cut off at the ends of a word: punctuation but for
/// the apostrophe.
pub open spec fn is_edge(c: char) -> bool {
    is_punctuation(c) && c != '\''
}

/// A word without punctuation before it.
pub open spec fn edge_start(s: Seq<char>) -> Seq<char>
    decreases s.len(),
{
    if s.len() > 0 && is_edge(s[0]) {
        edge_start(s.drop_first())
    } else {
        s
    }
}

/// A word without punctuation behind it.
pub open spec fn edge_end(s: Seq<char>) -> Seq<char>
    decreases s.len(),
{
    if s.len() > 0 && is_edge(s.last()) {
        edge_end(s.drop_last())
    } else {
        s
    }
}

/// A text without leading signs.
pub open spec fn unsigned(s: Seq<char>) -> Seq<char>
    decreases s.len(),
{
    if s.len() > 0 && (s[0] == '+' || s[0] == '-') {
        unsigned(s.drop_first())
    } else {
        s
    }
}

/// A word without punctuation at its ends, in lower case.
pub open spec fn clean_word(w: Seq<char>) -> Seq<char> {
    lowercase(edge_end(edge_start(w)))
}

/// The words of a text without punctuation at their ends, in lower case.
pub open spec fn clean_words(s: Seq<char>) -> Seq<Seq<char>> {
    filled(words(s).map_values(|w: Seq<char>| clean_word(w)))
}

/// Whether a text is one of the operators `and`, `or` and `not`.
pub open spec fn is_operator_word(w: Seq<char>) -> bool {
    w == "and"@ || w == "or"@ || w == "not"@
}

/// Whether a text is a lone bracket or sign.
pub open spec fn is_mark(w: Seq<char>) -> bool {
    w == "("@ || w == ")"@ || w == "+"@ || w == "-"@
}

/// Whether a text holds whitespace.
pub open spec fn has_white(s: Seq<char>) -> bool {
    exists|i: int| 0 <= i < s.len() && is_white(#[trigger] s[i])
}

/// Whether a character is a bracket or a sign.
pub open spec fn is_glue(c: char) -> bool {
    c == '(' || c == ')' || c == '+' || c == '-'
}

/// A token without brackets and signs before it.
pub open spec fn glue_start(s: Seq<char>) -> Seq<char>
    decreases s.len(),
{
    if s.len() > 0 && is_glue(s[0]) {
        glue_start(s.drop_first())
    } else {
        s
    }
}

/// A token without brackets and signs behind it.
pub open spec fn glue_end(s: Seq<char>) -> Seq<char>
    decreases s.len(),
{
    if s.len() > 0 && is_glue(s.last()) {
        glue_end(s.drop_last())
    } else {
        s
    }
}

/// Whether a token is an operator, alone or with brackets and signs around it.
pub open spec fn is_operator(token: Seq<char>) -> bool {
    is_operator_word(lowercase(glue_end(glue_start(token))))
}

/// The words that a token of a query stands for: none where it is an operator,
/// alone or with brackets and signs around it, or a mark.
pub open spec fn token_words(token: Seq<char>) -> Seq<Seq<char>> {
    if is_operator(token) || is_mark(token) {
        Seq::empty()
    } else {
        clean_words(unsigned(token))
    }
}

/// The phrases that a token of a query stands for: one where it has several
/// words, otherwise each word.
pub open spec fn token_groups(token: Seq<char>) -> Seq<Seq<Seq<char>>> {
    let ws = token_words(token);
    if has_white(token) && ws.len() > 1 {
        seq![ws]
    } else {
        ws.map_values(|w: Seq<char>| seq![w])
    }
}

/// The phrases of tokens.
pub open spec fn groups_of(tokens: Seq<Seq<char>>) -> Seq<Seq<Seq<char>>>
    decreases tokens.len(),
{
    if tokens.len() == 0 {
        Seq::empty()
    } else {
        groups_of(tokens.drop_last()) + token_groups(tokens.last())
    }
}

/// The terms of tokens, each once.
pub open spec fn token_terms(tokens: Seq<Seq<char>>) -> Seq<Seq<char>>
    decreases tokens.len(),
{
    if tokens.len() == 0 {
        Seq::empty()
    } else {
        with_terms(token_terms(tokens.drop_last()), token_words(tokens.last()))
    }
}

/// The words that are left of a query that has no phrase.
pub open spec fn left_over(query: Seq<char>) -> Seq<Seq<char>> {
    clean_words(query).filter(|w: Seq<char>| !is_operator_word(w) && !is_mark(w))
}

/// The phrases of a query with operators.
pub open spec fn boolean_groups(query: Seq<char>) -> Seq<Seq<Seq<char>>> {
    let groups = groups_of(quote_tokens(query));
    if plain_multiword(query) {
        seq![lower_words(query)]
    } else if groups.len() == 0 && left_over(query).len() > 0 {
        seq![left_over(query)]
    } else {
        groups
    }
}

/// The terms of a query with operators, each once.
pub open spec fn boolean_terms(query: Seq<char>) -> Seq<Seq<char>> {
    let groups = groups_of(quote_tokens(query));
    if plain_multiword(query) {
        with_terms(Seq::empty(), lower_words(query))
    } else if groups.len() == 0 && left_over(query).len() > 0 {
        with_terms(Seq::empty(), left_over(query))
    } else {
        token_terms(quote_tokens(query))
    }
}

fn is_edge_char(c: char) -> (b: bool)
    ensures
        b == is_edge(c),
{
    (('!' <= c && c <= '/') || (':' <= c && c <= '@') || ('[' <= c && c <= '`') || ('{' <= c && c
        <= '~')) && c != '\''
}

/// A word without punctuation at its ends, in lower case.
fn cleaned(w: &str) -> (r: String)
    ensures
        r@ == clean_word(w@),
{
    let v = chars_of(w);
    let n = v.len();
    let mut a: usize = 0;
    assert(v@.subrange(0, n as int) =~= v@);
    while a < n && is_edge_char(v[a])
        invariant
            a <= n == v@.len(),
            edge_start(v@) == edge_start(v@.subrange(a as int, n as int)),
        decreases n - a,
    {
        assert(v@.subrange(a as int, n as int).drop_first() =~= v@.subrange(a + 1, n as int));
        a += 1;
    }
    let mut b: usize = n;
    while b > a && is_edge_char(v[b - 1])
        invariant
            a <= b <= n == v@.len(),
            edge_end(v@.subrange(a as int, n as int)) == edge_end(
                v@.subrange(a as int, b as int),
            ),
        decreases b,
    {
        assert(v@.subrange(a as int, b as int).drop_last() =~= v@.subrange(a as int, b - 1));
        b -= 1;
    }
    let inner = string_of(&v, a, b);
    inner.as_str().to_lowercase()
}

/// The words of `v[from..]` without punctuation at their ends, in lower case.
fn cleaned_words(v: &Vec<char>, from: usize) -> (r: Vec<String>)
    requires
        from <= v@.len(),
    ensures
        texts(r@) == clean_words(v@.skip(from as int)),
{
    let found = split_words(v, from, v.len());
    let ghost s = v@.skip(from as int);
    assert(v@.subrange(from as int, v@.len() as int) =~= s);
    let mut r: Vec<String> = Vec::new();
    let ghost all = words(s).map_values(|w: Seq<char>| clean_word(w));
    let mut i: usize = 0;
    proof {
        assert(all.take(0) =~= Seq::empty());
        reveal(Seq::filter);
        assert(texts(r@) =~= filled(all.take(0)));
    }
    while i < found.len()
        invariant
            i <= found@.len(),
            texts(found@) == words(s),
            all == words(s).map_values(|w: Seq<char>| clean_word(w)),
            texts(r@) == filled(all.take(i as int)),
        decreases found@.len() - i,
    {
        assert(texts(found@)[i as int] == found@[i as int]@);
        let w = cleaned(found[i].as_str());
        let ghost before = r@;
        proof {
            lemma_filled_push(all.take(i as int), w@);
            assert(all.take(i + 1) =~= all.take(i as int).push(w@));
        }
        let empty = w.as_str().is_empty();
        if !empty {
            r.push(w);
            assert(texts(r@) =~= texts(before).push(w@));
        }
        i += 1;
    }
    assert(texts(found@).len() == found@.len());
    assert(all.take(i as int) =~= all);
    r
}

fn operator_word(w: &str) -> (b: bool)
    ensures
        b == is_operator_word(w@),
{
    same_text(w, "and") || same_text(w, "or") || same_text(w, "not")
}

fn mark(w: &str) -> (b: bool)
    ensures
        b == is_mark(w@),
{
    same_text(w, "(") || same_text(w, ")") || same_text(w, "+") || same_text(w, "-")
}

fn is_glue_char(c: char) -> (b: bool)
    ensures
        b == is_glue(c),
{
    c == '(' || c == ')' || c == '+' || c == '-'
}

/// Whether a token is an operator, alone or with brackets and signs around it.
fn operator(token: &str) -> (b: bool)
    ensures
        b == is_operator(token@),
{
    let v = chars_of(token);
    let n = v.len();
    let mut a: usize = 0;
    assert(v@.subrange(0, n as int) =~= v@);
    while a < n && is_glue_char(v[a])
        invariant
            a <= n == v@.len(),
            glue_start(v@) == glue_start(v@.subrange(a as int, n as int)),
        decreases n - a,
    {
        assert(v@.subrange(a as int, n as int).drop_first() =~= v@.subrange(a + 1, n as int));
        a += 1;
    }
    let mut b: usize = n;
    while b > a && is_glue_char(v[b - 1])
        invariant
            a <= b <= n == v@.len(),
            glue_end(v@.subrange(a as int, n as int)) == glue_end(
                v@.subrange(a as int, b as int),
            ),
        decreases b,
    {
        assert(v@.subrange(a as int, b as int).drop_last() =~= v@.subrange(a as int, b - 1));
        b -= 1;
    }
    let inner = string_of(&v, a, b);
    let lower = inner.as_str().to_lowercase();
    operator_word(lower.as_str())
}

/// The words that a token of a query stands for.
fn words_of_token(token: &str) -> (ws: Vec<String>)
    ensures
        texts(ws@) == token_words(token@),
{
    if operator(token) || mark(token) {
        let none: Vec<String> = Vec::new();
        assert(texts(none@) =~= Seq::empty());
        return none;
    }
    let v = chars_of(token);
    let mut a: usize = 0;
    assert(v@.skip(0) =~= v@);
    while a < v.len() && (v[a] == '+' || v[a] == '-')
        invariant
            a <= v@.len(),
            unsigned(v@) == unsigned(v@.skip(a as int)),
        decreases v@.len() - a,
    {
        assert(v@.skip(a as int)[0] == v@[a as int]);
        assert(v@.skip(a as int).drop_first() =~= v@.skip(a + 1));
        a += 1;
    }
    proof {
        if a < v@.len() {
            assert(v@.skip(a as int)[0] == v@[a as int]);
        }
    }
    cleaned_words(&v, a)
}

fn holds_white(s: &str) -> (b: bool)
    ensures
        b == has_white(s@),
{
    let v = chars_of(s);
    let mut i: usize = 0;
    while i < v.len()
        invariant
            i <= v@.len(),
            v@ == s@,
            forall|k: int| 0 <= k < i ==> !is_white(#[trigger] v@[k]),
        decreases v@.len() - i,
    {
        if is_whitespace(v[i]) {
            assert(is_white(s@[i as int]));
            return true;
        }
        i += 1;
    }
    false
}

/// Adds the phrases of a token.
fn add_groups(groups: &mut Vec<Vec<String>>, token: &str, ws: &Vec<String>)
    requires
        texts(ws@) == token_words(token@),
    ensures
        group_texts(final(groups)@) == group_texts(old(groups)@) + token_groups(token@),
{
    let ghost start = group_texts(groups@);
    assert(texts(ws@).len() == ws@.len());
    if ws.len() > 1 && holds_white(token) {
        let ghost before = groups@;
        groups.push(copy_texts(ws));
        assert(group_texts(groups@) =~= start + seq![texts(ws@)]);
    } else {
        let ghost single = |w: Seq<char>| seq![w];
        let ghost goal = texts(ws@).map_values(single);
        let mut i: usize = 0;
        assert(start + goal.take(0) =~= start);
        while i < ws.len()
            invariant
                i <= ws@.len(),
                goal == texts(ws@).map_values(|w: Seq<char>| seq![w]),
                group_texts(groups@) == start + goal.take(i as int),
            decreases ws@.len() - i,
        {
            let mut one: Vec<String> = Vec::new();
            one.push(ws[i].clone());
            let ghost before = groups@;
            proof {
                assert(texts(ws@)[i as int] == ws@[i as int]@);
                assert(texts(one@) =~= seq![ws@[i as int]@]);
                assert(goal[i as int] == seq![texts(ws@)[i as int]]);
            }
            groups.push(one);
            proof {
                assert(group_texts(groups@) =~= group_texts(before).push(goal[i as int]));
                assert(goal.take(i + 1) =~= goal.take(i as int).push(goal[i as int]));
                assert(group_texts(groups@) =~= start + goal.take(i + 1));
            }
            i += 1;
        }
        assert(goal.take(i as int) =~= goal);
    }
}

/// The words that are left of a query that has no phrase.
fn words_left_over(query: &str) -> (r: Vec<String>)
    ensures
        texts(r@) == left_over(query@),
{
    let v = chars_of(query);
    assert(v@.skip(0) =~= v@);
    let found = cleaned_words(&v, 0);
    let ghost all = clean_words(query@);
    let ghost keep = |w: Seq<char>| !is_operator_word(w) && !is_mark(w);
    let mut r: Vec<String> = Vec::new();
    let mut i: usize = 0;
    proof {
        assert(all.take(0) =~= Seq::empty());
        reveal(Seq::filter);
        assert(texts(r@) =~= all.take(0).filter(keep));
    }
    while i < found.len()
        invariant
            i <= found@.len(),
            texts(found@) == all,
            keep == (|w: Seq<char>| !is_operator_word(w) && !is_mark(w)),
            texts(r@) == all.take(i as int).filter(keep),
        decreases found@.len() - i,
    {
        let ghost w = found@[i as int]@;
        let ghost before = r@;
        proof {
            assert(texts(found@)[i as int] == w);
            reveal(Seq::filter);
            assert(all.take(i + 1).drop_last() =~= all.take(i as int));
            assert(all.take(i + 1).last() == w);
        }
        if !operator_word(found[i].as_str()) && !mark(found[i].as_str()) {
            r.push(found[i].clone());
            assert(texts(r@) =~= texts(before).push(w));
        }
        i += 1;
    }
    assert(texts(found@).len() == found@.len());
    assert(all.take(i as int) =~= all);
    r
}

/// The phrases and the terms of a query with operators. A query of several
/// words without operators is one phrase. Otherwise quoted groups of several
/// words are phrases, other words stand alone, and operators, brackets and
/// signs around words are left out, also where they stand together.
pub fn extract_boolean_phrase_groups(query: &str) -> (r: (Vec<Vec<String>>, Vec<String>))
    ensures
        group_texts(r.0@) == boolean_groups(query@),
        texts(r.1@) == boolean_terms(query@),
{
    let mut groups: Vec<Vec<String>> = Vec::new();
    let mut flat: Vec<String> = Vec::new();
    proof {
        assert(group_texts(groups@) =~= Seq::empty());
        assert(texts(flat@) =~= Seq::empty());
    }
    if is_bare_multiword(query) {
        let ws = words_in_lower_case(query);
        add_terms(&mut flat, &ws);
        let ghost only = texts(ws@);
        groups.push(ws);
        assert(group_texts(groups@) =~= seq![only]);
        return (groups, flat);
    }
    let tokens = split_respecting_quotes(query);
    let ghost all = quote_tokens(query@);
    let mut i: usize = 0;
    assert(all.take(0) =~= Seq::empty());
    while i < tokens.len()
        invariant
            i <= tokens@.len(),
            texts(tokens@) == all,
            group_texts(groups@) == groups_of(all.take(i as int)),
            texts(flat@) == token_terms(all.take(i as int)),
        decreases tokens@.len() - i,
    {
        proof {
            assert(texts(tokens@)[i as int] == tokens@[i as int]@);
            assert(all.take(i + 1).drop_last() =~= all.take(i as int));
            assert(all.take(i + 1).last() == tokens@[i as int]@);
        }
        let ws = words_of_token(tokens[i].as_str());
        add_groups(&mut groups, tokens[i].as_str(), &ws);
        add_terms(&mut flat, &ws);
        i += 1;
    }
    assert(texts(tokens@).len() == tokens@.len());
    assert(all.take(i as int) =~= all);
    assert(group_texts(groups@).len() == groups@.len());
    if groups.len() == 0 {
        let ws = words_left_over(query);
        assert(texts(ws@).len() == ws@.len());
        if ws.len() > 0 {
            flat = Vec::new();
            assert(texts(flat@) =~= Seq::empty());
            add_terms(&mut flat, &ws);
            let ghost only = texts(ws@);
            groups.push(ws);
            assert(group_texts(groups@) =~= seq![only]);
        }
    }
    (groups, flat)
}

// ---------------------------------------------------------------------------
// Adding terms to results
// ---------------------------------------------------------------------------

/// The phrases of a query by its strategy.
pub open spec fn groups_for(input: SearchInput) -> Seq<Seq<Seq<char>>> {
    match input.strategy {
        SearchStrategy::AutoPhrase => auto_groups(input.query_str@),
        SearchStrategy::BooleanPhrase => boolean_groups(input.query_str@),
    }
}

/// The terms of a query by its strategy.
pub open spec fn terms_for(input: SearchInput) -> Seq<Seq<char>> {
    match input.strategy {
        SearchStrategy::AutoPhrase => terms_of(auto_groups(input.query_str@)),
        SearchStrategy::BooleanPhrase => boolean_terms(input.query_str@),
    }
}

/// A result with the terms and phrases of the query; all else as it was.
pub open spec fn is_tagged(
    before: RichResult,
    after: RichResult,
    terms: Seq<Seq<char>>,
    groups: Seq<Seq<Seq<char>>>,
) -> bool {
    &&& after.score == before.score
    &&& after.path == before.path
    &&& after.snippet == before.snippet
    &&& after.positions == before.positions
    &&& after.doc_id == before.doc_id
    &&& after.doc_address == before.doc_address
    &&& texts(after.matched_terms@) == terms
    &&& group_texts(after.phrase_groups@) == groups
}

fn copy_groups(groups: &Vec<Vec<String>>) -> (r: Vec<Vec<String>>)
    ensures
        group_texts(r@) == group_texts(groups@),
{
    let mut r: Vec<Vec<String>> = Vec::new();
    let mut i: usize = 0;
    let ghost all = group_texts(groups@);
    assert(group_texts(r@) =~= all.take(0));
    while i < groups.len()
        invariant
            i <= groups@.len(),
            all == group_texts(groups@),
            group_texts(r@) == all.take(i as int),
        decreases groups@.len() - i,
    {
        let ghost before = r@;
        r.push(copy_texts(&groups[i]));
        assert(group_texts(r@) =~= group_texts(before).push(texts(groups@[i as int]@)));
        assert(all.take(i + 1) =~= all.take(i as int).push(all[i as int]));
        i += 1;
    }
    assert(all.take(i as int) =~= all);
    r
}

/// Adds the terms and phrases of a query to its results.
#[derive(Clone, Copy)]
pub struct TermCollectorEnricher;

/// The kind of the enricher that adds terms and phrases.
pub const TERM_COLLECTOR: u64 = 1;

/// Whether `after` are results with the terms and phrases of the query. A query
/// without terms changes nothing.
pub open spec fn are_tagged(
    input: SearchInput,
    before: Seq<RichResult>,
    after: Seq<RichResult>,
) -> bool {
    &&& after.len() == before.len()
    &&& if terms_for(input).len() == 0 {
        after == before
    } else {
        forall|i: int|
            0 <= i < after.len() ==> is_tagged(
                before[i],
                #[trigger] after[i],
                terms_for(input),
                groups_for(input),
            )
    }
}

impl TermCollectorEnricher {
    fn tag(&self, input: &SearchInput, results: Vec<RichResult>) -> (r: Vec<RichResult>)
        ensures
            are_tagged(*input, results@, r@),
    {
        let (groups, terms) = match input.strategy {
            SearchStrategy::AutoPhrase => extract_auto_phrase_groups(input.query_str.as_str()),
            SearchStrategy::BooleanPhrase => extract_boolean_phrase_groups(
                input.query_str.as_str(),
            ),
        };
        assert(texts(terms@).len() == terms@.len());
        if terms.len() == 0 {
            return results;
        }
        let ghost given = results@;
        let mut out: Vec<RichResult> = Vec::new();
        for x in it: results
            invariant
                it.seq() == given,
                texts(terms@) == terms_for(*input),
                group_texts(groups@) == groups_for(*input),
                out@.len() == it.index(),
                forall|i: int|
                    0 <= i < out@.len() ==> is_tagged(
                        given[i],
                        #[trigger] out@[i],
                        terms_for(*input),
                        groups_for(*input),
                    ),
        {
            let mut y = x;
            y.matched_terms = copy_texts(&terms);
            y.phrase_groups = copy_groups(&groups);
            out.push(y);
        }
        out
    }
}

impl ResultEnricher for TermCollectorEnricher {
    open spec fn kind_of(&self) -> u64 {
        TERM_COLLECTOR
    }

    open spec fn needs(&self) -> Seq<u64> {
        Seq::empty()
    }

    open spec fn gives(
        &self,
        ctx: SearchContext,
        input: SearchInput,
        extracts: Seq<Option<Seq<char>>>,
        before: Seq<RichResult>,
        r: Result<(), SearchError>,
        after: Seq<RichResult>,
    ) -> bool {
        r is Ok && are_tagged(input, before, after)
    }

    /// Adds the terms and phrases of the query to each result.
    fn enrich(
        &self,
        _ctx: &SearchContext,
        input: &SearchInput,
        _snippets: &Vec<Option<String>>,
        results: &mut Vec<RichResult>,
    ) -> (r: Result<(), SearchError>) {
        let mut taken: Vec<RichResult> = Vec::new();
        std::mem::swap(&mut taken, results);
        *results = self.tag(input, taken);
        Ok(())
    }

    fn depends_on(&self) -> (kinds: Vec<u64>) {
        Vec::new()
    }

    fn type_id(&self) -> (kind: u64) {
        TERM_COLLECTOR
    }
}

// ---------------------------------------------------------------------------
// Which terms and phrases a query has
// ---------------------------------------------------------------------------

/// How many double quotes stand before character `i`.
pub open spec fn quotes_before(s: Seq<char>, i: int) -> nat {
    s.take(i).filter(|c: char| c == '"').len()
}

proof fn lemma_quotes_before(s: Seq<char>, i: int, j: int)
    requires
        0 <= i <= j <= s.len(),
    ensures
        quotes_before(s, j) == quotes_before(s, i) + quotes_before(s.skip(i), j - i),
{
    let keep = |c: char| c == '"';
    assert(s.take(j) =~= s.take(i) + s.skip(i).take(j - i));
    Seq::filter_distributes_over_add(s.take(i), s.skip(i).take(j - i), keep);
}

proof fn lemma_no_quotes(s: Seq<char>, i: int)
    requires
        0 <= i <= s.len(),
        forall|k: int| 0 <= k < i ==> #[trigger] s[k] != '"',
    ensures
        quotes_before(s, i) == 0,
{
    lemma_filter_none(s.take(i), |c: char| c == '"');
}

proof fn lemma_quote_end(s: Seq<char>)
    ensures
        quote_len(s) <= s.len(),
        forall|i: int| 0 <= i < quote_len(s) ==> #[trigger] s[i] != '"',
        quote_len(s) < s.len() ==> s[quote_len(s) as int] == '"',
    decreases s.len(),
{
    if s.len() > 0 && s[0] != '"' {
        let d = s.drop_first();
        lemma_quote_end(d);
        assert forall|i: int| 0 <= i < quote_len(s) implies #[trigger] s[i] != '"' by {
            if i > 0 {
                assert(d[i - 1] == s[i]);
            }
        }
        if quote_len(s) < s.len() {
            assert(d[quote_len(d) as int] == s[quote_len(s) as int]);
        }
    }
}

proof fn lemma_bare_end(s: Seq<char>)
    ensures
        bare_len(s) <= s.len(),
        forall|i: int| 0 <= i < bare_len(s) ==> #[trigger] s[i] != '"' && !is_white(s[i]),
        bare_len(s) < s.len() ==> s[bare_len(s) as int] == '"' || is_white(
            s[bare_len(s) as int],
        ),
    decreases s.len(),
{
    if s.len() > 0 && s[0] != '"' && !is_white(s[0]) {
        let d = s.drop_first();
        lemma_bare_end(d);
        assert forall|i: int| 0 <= i < bare_len(s) implies #[trigger] s[i] != '"' && !is_white(
            s[i],
        ) by {
            if i > 0 {
                assert(d[i - 1] == s[i]);
            }
        }
        if bare_len(s) < s.len() {
            assert(d[bare_len(d) as int] == s[bare_len(s) as int]);
        }
    }
}

/// Whether the characters between `i` and `j` are a quoted group: a quote that
/// opens stands at `i`, and the next quote, or the end of the text, at `j`.
pub open spec fn is_group_at(s: Seq<char>, i: int, j: int) -> bool {
    &&& 0 <= i < j <= s.len()
    &&& s[i] == '"'
    &&& quotes_before(s, i) % 2 == 0
    &&& forall|k: int| i < k < j ==> #[trigger] s[k] != '"'
    &&& j == s.len() || s[j] == '"'
}

/// Whether the characters from `i` to `j` are a bare word: they stand outside
/// of quotes, between whitespace, quotes and the ends of the text.
pub open spec fn is_bare_at(s: Seq<char>, i: int, j: int) -> bool {
    &&& 0 <= i < j <= s.len()
    &&& quotes_before(s, i) % 2 == 0
    &&& forall|k: int| i <= k < j ==> #[trigger] s[k] != '"' && !is_white(s[k])
    &&& i == 0 || s[i - 1] == '"' || is_white(s[i - 1])
    &&& j == s.len() || s[j] == '"' || is_white(s[j])
}

/// Whether a text is among the quoted groups, trimmed, and the bare words of a
/// query.
pub open spec fn is_piece_of(t: Seq<char>, s: Seq<char>) -> bool {
    ||| exists|i: int, j: int| #[trigger]
        is_group_at(s, i, j) && t == trim(s.subrange(i + 1, j)) && t.len() > 0
    ||| exists|i: int, j: int| #[trigger] is_bare_at(s, i, j) && t == s.subrange(i, j)
}

proof fn lemma_group_shift(s: Seq<char>, a: int, i: int, j: int)
    requires
        0 <= a <= i <= s.len(),
        quotes_before(s, a) % 2 == 0,
    ensures
        is_group_at(s, i, j) <==> is_group_at(s.skip(a), i - a, j - a),
        i < j <= s.len() ==> s.subrange(i + 1, j) == s.skip(a).subrange(i - a + 1, j - a),
{
    let u = s.skip(a);
    lemma_quotes_before(s, a, i);
    assert(forall|k: int| 0 <= k < u.len() ==> u[k] == s[k + a]);
    if is_group_at(s, i, j) {
        assert forall|k: int| i - a < k < j - a implies #[trigger] u[k] != '"' by {
            assert(u[k] == s[k + a]);
        }
    }
    if is_group_at(u, i - a, j - a) {
        assert forall|k: int| i < k < j implies #[trigger] s[k] != '"' by {
            assert(u[k - a] == s[k]);
        }
    }
    if i < j <= s.len() {
        assert(s.subrange(i + 1, j) =~= u.subrange(i - a + 1, j - a));
    }
}

proof fn lemma_bare_shift(s: Seq<char>, a: int, i: int, j: int)
    requires
        0 <= a <= i <= s.len(),
        quotes_before(s, a) % 2 == 0,
    ensures
        is_bare_at(s, i, j) ==> is_bare_at(s.skip(a), i - a, j - a),
        (i > a || a == 0 || s[a - 1] == '"' || is_white(s[a - 1])) && is_bare_at(
            s.skip(a),
            i - a,
            j - a,
        ) ==> is_bare_at(s, i, j),
        i < j <= s.len() ==> s.subrange(i, j) == s.skip(a).subrange(i - a, j - a),
{
    let u = s.skip(a);
    lemma_quotes_before(s, a, i);
    assert(forall|k: int| 0 <= k < u.len() ==> u[k] == s[k + a]);
    if is_bare_at(s, i, j) {
        assert forall|k: int| i - a <= k < j - a implies #[trigger] u[k] != '"' && !is_white(
            u[k],
        ) by {
            assert(u[k] == s[k + a]);
        }
    }
    if is_bare_at(u, i - a, j - a) {
        assert forall|k: int| i <= k < j implies #[trigger] s[k] != '"' && !is_white(s[k]) by {
            assert(u[k - a] == s[k]);
        }
    }
    if i < j <= s.len() {
        assert(s.subrange(i, j) =~= u.subrange(i - a, j - a));
    }
}

/// A quoted group that is not blank is one token of a query, without its
/// quotes and without whitespace at its ends, whatever it holds.
pub proof fn law_group_is_a_token(s: Seq<char>, i: int, j: int)
    requires
        is_group_at(s, i, j),
        trim(s.subrange(i + 1, j)).len() > 0,
    ensures
        quote_tokens(s).contains(trim(s.subrange(i + 1, j))),
    decreases s.len(),
{
    lemma_trim_start(s);
    let t = trim_start(s);
    let a = s.len() - t.len();
    let g = trim(s.subrange(i + 1, j));
    if i < a {
        assert(is_white(s[i]));
    }
    lemma_no_quotes(s, a);
    lemma_group_shift(s, a, i, j);
    let (x, y) = (i - a, j - a);
    assert(t == s.skip(a));
    assert(is_group_at(t, x, y));
    if t[0] == '"' {
        let body = t.drop_first();
        lemma_quote_end(body);
        let n = quote_len(body) as int;
        let rest = if n < body.len() {
            body.skip(n + 1)
        } else {
            Seq::empty()
        };
        let first = one_unless_empty(trim(body.take(n)));
        assert(quote_tokens(s) == first + quote_tokens(rest));
        assert(forall|k: int| 0 <= k < body.len() ==> body[k] == t[k + 1]);
        if x == 0 {
            if n < y - 1 {
                assert(body[n] == t[n + 1]);
            }
            if y - 1 < n {
                assert(body[y - 1] == t[y]);
            }
            assert(body.take(n) =~= t.subrange(1, y));
            assert(quote_tokens(s)[0] == g);
        } else {
            lemma_quotes_before(t, 1, x);
            assert(quotes_before(t, 1) == 1) by {
                reveal(Seq::filter);
                assert(t.take(1) =~= seq!['"']);
                assert(seq!['"'].drop_last() =~= Seq::<char>::empty());
            }
            assert(t.skip(1) =~= body);
            if x < n + 1 {
                lemma_no_quotes(body, x - 1);
            }
            assert(x >= n + 1);
            if x == n + 1 {
                lemma_no_quotes(body, n);
            }
            assert(x > n + 1);
            assert(n < body.len());
            lemma_quotes_before(body, n, n + 1);
            lemma_no_quotes(body, n);
            assert(quotes_before(body.skip(n), 1) == 1) by {
                reveal(Seq::filter);
                assert(body.skip(n).take(1) =~= seq!['"']);
                assert(seq!['"'].drop_last() =~= Seq::<char>::empty());
            }
            lemma_quotes_before(t, 1, n + 2);
            assert(quotes_before(t, n + 2) == 2);
            lemma_group_shift(t, n + 2, x, y);
            assert(t.skip(n + 2) =~= rest);
            law_group_is_a_token(rest, x - n - 2, y - n - 2);
            let m = choose|m: int|
                0 <= m < quote_tokens(rest).len() && quote_tokens(rest)[m] == g;
            assert(quote_tokens(s)[first.len() + m] == g);
        }
    } else {
        lemma_bare_end(t);
        let n = bare_len(t) as int;
        lemma_bare_len(t);
        assert(quote_tokens(s) == seq![t.take(n)] + quote_tokens(t.skip(n)));
        if x < n {
            assert(t[x] != '"');
        }
        lemma_no_quotes(t, n);
        lemma_group_shift(t, n, x, y);
        law_group_is_a_token(t.skip(n), x - n, y - n);
        let r = quote_tokens(t.skip(n));
        let m = choose|m: int| 0 <= m < r.len() && r[m] == g;
        assert(quote_tokens(s)[1 + m] == g);
    }
}

/// A word outside of quotes is one token of a query.
pub proof fn law_bare_word_is_a_token(s: Seq<char>, i: int, j: int)
    requires
        is_bare_at(s, i, j),
    ensures
        quote_tokens(s).contains(s.subrange(i, j)),
    decreases s.len(),
{
    lemma_trim_start(s);
    let t = trim_start(s);
    let a = s.len() - t.len();
    let g = s.subrange(i, j);
    if i < a {
        assert(is_white(s[i]));
    }
    lemma_no_quotes(s, a);
    lemma_bare_shift(s, a, i, j);
    let (x, y) = (i - a, j - a);
    assert(t == s.skip(a));
    assert(is_bare_at(t, x, y));
    if t[0] == '"' {
        let body = t.drop_first();
        lemma_quote_end(body);
        let n = quote_len(body) as int;
        let rest = if n < body.len() {
            body.skip(n + 1)
        } else {
            Seq::empty()
        };
        let first = one_unless_empty(trim(body.take(n)));
        assert(quote_tokens(s) == first + quote_tokens(rest));
        assert(forall|k: int| 0 <= k < body.len() ==> body[k] == t[k + 1]);
        lemma_quotes_before(t, 1, x);
        assert(quotes_before(t, 1) == 1) by {
            reveal(Seq::filter);
            assert(t.take(1) =~= seq!['"']);
            assert(seq!['"'].drop_last() =~= Seq::<char>::empty());
        }
        assert(t.skip(1) =~= body);
        if x <= n + 1 {
            lemma_no_quotes(body, x - 1);
        }
        assert(x > n + 1);
        lemma_quotes_before(body, n, n + 1);
        lemma_no_quotes(body, n);
        assert(quotes_before(body.skip(n), 1) == 1) by {
            reveal(Seq::filter);
            assert(body.skip(n).take(1) =~= seq!['"']);
            assert(seq!['"'].drop_last() =~= Seq::<char>::empty());
        }
        lemma_quotes_before(t, 1, n + 2);
        lemma_bare_shift(t, n + 2, x, y);
        assert(t.skip(n + 2) =~= rest);
        law_bare_word_is_a_token(rest, x - n - 2, y - n - 2);
        let m = choose|m: int| 0 <= m < quote_tokens(rest).len() && quote_tokens(rest)[m] == g;
        assert(quote_tokens(s)[first.len() + m] == g);
    } else {
        lemma_bare_end(t);
        let n = bare_len(t) as int;
        lemma_bare_len(t);
        assert(quote_tokens(s) == seq![t.take(n)] + quote_tokens(t.skip(n)));
        if x == 0 {
            if y < n {
                assert(t[y] != '"' && !is_white(t[y]));
            }
            if n < y {
                assert(t[n] != '"' && !is_white(t[n]));
            }
            assert(t.take(n) =~= g);
            assert(quote_tokens(s)[0] == g);
        } else {
            if x - 1 < n {
                assert(t[x - 1] != '"' && !is_white(t[x - 1]));
            }
            lemma_no_quotes(t, n);
            lemma_bare_shift(t, n, x, y);
            law_bare_word_is_a_token(t.skip(n), x - n, y - n);
            let r = quote_tokens(t.skip(n));
            let m = choose|m: int| 0 <= m < r.len() && r[m] == g;
            assert(quote_tokens(s)[1 + m] == g);
        }
    }
}

proof fn lemma_piece_shift(t: Seq<char>, s: Seq<char>, a: int)
    requires
        0 <= a <= s.len(),
        quotes_before(s, a) % 2 == 0,
        a == 0 || s[a - 1] == '"' || is_white(s[a - 1]) || a == s.len() || s[a] == '"'
            || is_white(s[a]),
        is_piece_of(t, s.skip(a)),
    ensures
        is_piece_of(t, s),
{
    let u = s.skip(a);
    if exists|i: int, j: int| #[trigger]
        is_group_at(u, i, j) && t == trim(u.subrange(i + 1, j)) && t.len() > 0 {
        let (i, j) = choose|i: int, j: int| #[trigger]
            is_group_at(u, i, j) && t == trim(u.subrange(i + 1, j)) && t.len() > 0;
        lemma_group_shift(s, a, a + i, a + j);
        assert(is_group_at(s, a + i, a + j));
    } else {
        let (i, j) = choose|i: int, j: int| #[trigger]
            is_bare_at(u, i, j) && t == u.subrange(i, j);
        if i == 0 && a < s.len() {
            assert(u[0] == s[a]);
        }
        lemma_bare_shift(s, a, a + i, a + j);
        assert(is_bare_at(s, a + i, a + j));
    }
}

/// Each token of a query is a quoted group or a word outside of quotes.
pub proof fn law_token_is_there(s: Seq<char>, n: int)
    requires
        0 <= n < quote_tokens(s).len(),
    ensures
        is_piece_of(quote_tokens(s)[n], s),
    decreases s.len(),
{
    lemma_trim_start(s);
    let t = trim_start(s);
    let a = s.len() - t.len();
    let g = quote_tokens(s)[n];
    assert(t == s.skip(a));
    lemma_no_quotes(s, a);
    assert(a > 0 ==> is_white(s[a - 1]));
    assert(is_piece_of(g, t)) by {
        assert(quotes_before(t, 0) == 0) by {
            lemma_no_quotes(t, 0);
        }
        if t[0] == '"' {
            let body = t.drop_first();
            lemma_quote_end(body);
            let m = quote_len(body) as int;
            let rest = if m < body.len() {
                body.skip(m + 1)
            } else {
                Seq::empty()
            };
            let inner = trim(body.take(m));
            let first = one_unless_empty(inner);
            assert(quote_tokens(s) == first + quote_tokens(rest));
            assert(forall|k: int| 0 <= k < body.len() ==> body[k] == t[k + 1]);
            if n < first.len() {
                assert(g == inner);
                assert(body.take(m) =~= t.subrange(1, m + 1));
                assert forall|k: int| 0 < k < m + 1 implies #[trigger] t[k] != '"' by {
                    assert(body[k - 1] == t[k]);
                }
                assert(is_group_at(t, 0, m + 1));
            } else {
                lemma_trim_start_len(rest);
                assert(m < body.len()) by {
                    if m >= body.len() {
                        assert(trim_start(rest).len() == 0);
                        assert(quote_tokens(rest) =~= Seq::empty());
                    }
                }
                law_token_is_there(rest, n - first.len());
                assert(t.skip(m + 2) =~= rest);
                assert(t.skip(1) =~= body);
                assert(quotes_before(t, 1) == 1) by {
                    reveal(Seq::filter);
                    assert(t.take(1) =~= seq!['"']);
                    assert(seq!['"'].drop_last() =~= Seq::<char>::empty());
                }
                lemma_quotes_before(body, m, m + 1);
                lemma_no_quotes(body, m);
                assert(quotes_before(body.skip(m), 1) == 1) by {
                    reveal(Seq::filter);
                    assert(body.skip(m).take(1) =~= seq!['"']);
                    assert(seq!['"'].drop_last() =~= Seq::<char>::empty());
                }
                lemma_quotes_before(t, 1, m + 2);
                assert(t[m + 1] == body[m]);
                lemma_piece_shift(g, t, m + 2);
            }
        } else {
            lemma_bare_end(t);
            let m = bare_len(t) as int;
            lemma_bare_len(t);
            assert(quote_tokens(s) == seq![t.take(m)] + quote_tokens(t.skip(m)));
            if n == 0 {
                assert(t.take(m) =~= t.subrange(0, m));
                assert(is_bare_at(t, 0, m));
            } else {
                law_token_is_there(t.skip(m), n - 1);
                lemma_no_quotes(t, m);
                lemma_piece_shift(g, t, m);
            }
        }
    }
    lemma_piece_shift(g, s, a);
}

/// The tokens of a query are what it holds besides whitespace and quotes, in
/// order: nothing is left out, changed or made up.
pub proof fn law_tokens_are_the_query(s: Seq<char>)
    ensures
        quote_tokens(s).flatten().filter(|c: char| !is_white(c) && c != '"') == s.filter(
            |c: char| !is_white(c) && c != '"',
        ),
    decreases s.len(),
{
    let keep = |c: char| !is_white(c) && c != '"';
    lemma_trim_start(s);
    let t = trim_start(s);
    let a = s.len() - t.len();
    let x = s.take(a);
    assert(s =~= x + t);
    Seq::filter_distributes_over_add(x, t, keep);
    lemma_filter_none(x, keep);
    assert(x.filter(keep) + t.filter(keep) =~= t.filter(keep));
    if t.len() == 0 {
        lemma_filter_none(t, keep);
        assert(quote_tokens(s).flatten() =~= Seq::empty());
        lemma_filter_none(quote_tokens(s).flatten(), keep);
    } else if t[0] == '"' {
        let body = t.drop_first();
        lemma_quote_end(body);
        let n = quote_len(body) as int;
        let rest = if n < body.len() {
            body.skip(n + 1)
        } else {
            Seq::empty()
        };
        let inner = body.take(n);
        let first = one_unless_empty(trim(inner));
        law_tokens_are_the_query(rest);
        let mark = seq!['"'];
        let close = if n < body.len() {
            mark
        } else {
            Seq::empty()
        };
        assert(t =~= mark + (inner + (close + rest)));
        Seq::filter_distributes_over_add(mark, inner + (close + rest), keep);
        Seq::filter_distributes_over_add(inner, close + rest, keep);
        Seq::filter_distributes_over_add(close, rest, keep);
        lemma_filter_none(mark, keep);
        lemma_filter_none(close, keep);
        assert(t.filter(keep) =~= inner.filter(keep) + rest.filter(keep));
        lemma_trim_kept(inner, keep);
        let g = trim(inner);
        if g.len() > 0 {
            assert(quote_tokens(s).drop_first() =~= quote_tokens(rest));
            assert(quote_tokens(s).first() == g);
            Seq::filter_distributes_over_add(g, quote_tokens(rest).flatten(), keep);
        } else {
            assert(quote_tokens(s) =~= quote_tokens(rest));
            lemma_filter_none(g, keep);
            assert(inner.filter(keep) + rest.filter(keep) =~= rest.filter(keep));
        }
    } else {
        lemma_bare_end(t);
        let n = bare_len(t) as int;
        lemma_bare_len(t);
        let rest = t.skip(n);
        law_tokens_are_the_query(rest);
        assert(t =~= t.take(n) + rest);
        Seq::filter_distributes_over_add(t.take(n), rest, keep);
        assert(quote_tokens(s).drop_first() =~= quote_tokens(rest));
        assert(quote_tokens(s).first() == t.take(n));
        Seq::filter_distributes_over_add(t.take(n), quote_tokens(rest).flatten(), keep);
    }
}

proof fn lemma_trim_kept(s: Seq<char>, keep: spec_fn(char) -> bool)
    requires
        forall|c: char| is_white(c) ==> !#[trigger] keep(c),
    ensures
        trim(s).filter(keep) == s.filter(keep),
{
    let (a, b) = law_trim(s);
    let (x, y, z) = (s.subrange(0, a), s.subrange(a, b), s.subrange(b, s.len() as int));
    assert(s =~= (x + y) + z);
    Seq::filter_distributes_over_add(x + y, z, keep);
    Seq::filter_distributes_over_add(x, y, keep);
    lemma_filter_none(x, keep);
    lemma_filter_none(z, keep);
    assert(x.filter(keep) + y.filter(keep) + z.filter(keep) =~= y.filter(keep));
}

/// Whether a text is among those of some list of a list of lists.
pub open spec fn in_some_group(groups: Seq<Seq<Seq<char>>>, w: Seq<char>) -> bool {
    exists|g: int| 0 <= g < groups.len() && (#[trigger] groups[g]).contains(w)
}

/// Adding texts to a list keeps what it holds where it stands, adds each text
/// that it does not hold, and adds none twice.
pub proof fn law_terms_added(flat: Seq<Seq<char>>, ws: Seq<Seq<char>>)
    requires
        flat.no_duplicates(),
    ensures
        with_terms(flat, ws).no_duplicates(),
        with_terms(flat, ws).len() >= flat.len(),
        with_terms(flat, ws).take(flat.len() as int) == flat,
        forall|w: Seq<char>| #[trigger]
            with_terms(flat, ws).contains(w) <==> flat.contains(w) || ws.contains(w),
    decreases ws.len(),
{
    let all = with_terms(flat, ws);
    if ws.len() == 0 {
        assert(all.take(flat.len() as int) =~= flat);
        assert(forall|w: Seq<char>| !ws.contains(w));
    } else {
        let d = ws.drop_last();
        let l = ws.last();
        law_terms_added(flat, d);
        let front = with_terms(flat, d);
        assert forall|w: Seq<char>| #[trigger] all.contains(w) <==> flat.contains(w)
            || ws.contains(w) by {
            if ws.contains(w) {
                let k = choose|k: int| 0 <= k < ws.len() && ws[k] == w;
                if k < d.len() {
                    assert(d[k] == w);
                    assert(d.contains(w));
                }
            }
            if d.contains(w) {
                let k = choose|k: int| 0 <= k < d.len() && d[k] == w;
                assert(ws[k] == w);
            }
            assert(ws[ws.len() - 1] == l);
            if front.contains(w) {
                let k = choose|k: int| 0 <= k < front.len() && front[k] == w;
                assert(all[k] == w);
            }
            if !front.contains(l) {
                assert(all[front.len() as int] == l);
                if all.contains(w) && w != l {
                    let k = choose|k: int| 0 <= k < all.len() && all[k] == w;
                    assert(front[k] == w);
                }
            }
        }
        assert(all.take(flat.len() as int) =~= front.take(flat.len() as int));
        if !front.contains(l) {
            assert forall|i: int, j: int| 0 <= i < j < all.len() implies all[i] != all[j] by {
                if j == front.len() {
                    assert(front.contains(front[i]));
                }
            }
        }
    }
}

/// The terms of phrases are the texts in them, each once.
pub proof fn law_terms_of_groups(groups: Seq<Seq<Seq<char>>>)
    ensures
        terms_of(groups).no_duplicates(),
        forall|w: Seq<char>| #[trigger] terms_of(groups).contains(w) <==> in_some_group(groups, w),
    decreases groups.len(),
{
    if groups.len() > 0 {
        let d = groups.drop_last();
        law_terms_of_groups(d);
        law_terms_added(terms_of(d), groups.last());
        assert forall|w: Seq<char>| #[trigger] terms_of(groups).contains(w) <==> in_some_group(
            groups,
            w,
        ) by {
            lemma_one_group_more(groups, w);
        }
    }
}

proof fn lemma_one_group_more(groups: Seq<Seq<Seq<char>>>, w: Seq<char>)
    requires
        groups.len() > 0,
    ensures
        in_some_group(groups, w) <==> in_some_group(groups.drop_last(), w)
            || groups.last().contains(w),
{
    let d = groups.drop_last();
    if in_some_group(groups, w) {
        let g = choose|g: int| 0 <= g < groups.len() && (#[trigger] groups[g]).contains(w);
        if g < d.len() {
            assert(d[g].contains(w));
        }
    }
    if in_some_group(d, w) {
        let g = choose|g: int| 0 <= g < d.len() && (#[trigger] d[g]).contains(w);
        assert(groups[g].contains(w));
    }
    if groups.last().contains(w) {
        assert(groups[groups.len() - 1].contains(w));
    }
}

/// The words of a text in lower case are its words, each in lower case, in
/// their order; one that is empty in lower case is left out.
pub proof fn law_lower_words(s: Seq<char>)
    ensures
        lower_words(s) == words(s).map_values(|w: Seq<char>| lowercase(w)).filter(
            |w: Seq<char>| w != Seq::<char>::empty(),
        ),
{
    let all = words(s).map_values(|w: Seq<char>| lowercase(w));
    let a = |w: Seq<char>| w.len() > 0;
    let b = |w: Seq<char>| w != Seq::<char>::empty();
    assert forall|i: int| 0 <= i < all.len() implies a(#[trigger] all[i]) == b(all[i]) by {
        if all[i].len() == 0 {
            assert(all[i] =~= Seq::<char>::empty());
        }
    }
    lemma_filter_same(all, a, b);
}

/// A query without quotes is one phrase of all its words. With quotes there is
/// one phrase for each quoted group and each bare word, made of its words.
pub proof fn law_auto_groups(query: Seq<char>)
    ensures
        !query.contains('"') && (exists|i: int|
            0 <= i < query.len() && !is_white(#[trigger] query[i])) ==> auto_groups(query)
            == seq![lower_words(query)],
        (forall|i: int| 0 <= i < query.len() ==> is_white(#[trigger] query[i])) ==> auto_groups(
            query,
        ) == Seq::<Seq<Seq<char>>>::empty(),
        query.contains('"') ==> auto_groups(query).len() == quote_tokens(query).len() && forall|
            n: int,
        |
            0 <= n < quote_tokens(query).len() ==> #[trigger] auto_groups(query)[n] == lower_words(
                quote_tokens(query)[n],
            ),
{
    law_words_are_the_text(query);
    let keep = |c: char| !is_white(c);
    if exists|i: int| 0 <= i < query.len() && !is_white(#[trigger] query[i]) {
        let i = choose|i: int| 0 <= i < query.len() && !is_white(#[trigger] query[i]);
        lemma_filter_place(query, keep, i);
        if words(query).len() == 0 {
            assert(words(query).flatten() =~= Seq::empty());
        }
    } else {
        if query.contains('"') {
            let i = choose|i: int| 0 <= i < query.len() && query[i] == '"';
            assert(is_white(query[i]));
        }
        if words(query).len() > 0 {
            let (i, j) = law_word_is_there(query, 0);
            assert(!is_white(query[i]));
        }
    }
}

/// What is cut off a word are the graphic characters of ASCII that are neither
/// letters nor digits, but for the apostrophe.
pub proof fn law_edges(c: char)
    ensures
        is_edge(c) <==> '!' <= c <= '~' && c != '\'' && !('0' <= c <= '9') && !('A' <= c <= 'Z')
            && !('a' <= c <= 'z'),
{
}

proof fn lemma_edge_start(s: Seq<char>)
    ensures
        edge_start(s).len() <= s.len(),
        edge_start(s) == s.skip(s.len() - edge_start(s).len()),
        edge_start(s).len() > 0 ==> !is_edge(edge_start(s)[0]),
        forall|i: int| 0 <= i < s.len() - edge_start(s).len() ==> is_edge(#[trigger] s[i]),
    decreases s.len(),
{
    if s.len() > 0 && is_edge(s[0]) {
        let d = s.drop_first();
        lemma_edge_start(d);
        assert(d.skip(d.len() - edge_start(d).len()) =~= s.skip(s.len() - edge_start(d).len()));
        assert forall|i: int| 0 <= i < s.len() - edge_start(s).len() implies is_edge(
            #[trigger] s[i],
        ) by {
            if i > 0 {
                assert(d[i - 1] == s[i]);
            }
        }
    } else {
        assert(s.skip(0) =~= s);
    }
}

proof fn lemma_edge_end(s: Seq<char>)
    ensures
        edge_end(s).len() <= s.len(),
        edge_end(s) == s.take(edge_end(s).len() as int),
        edge_end(s).len() > 0 ==> !is_edge(edge_end(s).last()),
        forall|i: int| edge_end(s).len() <= i < s.len() ==> is_edge(#[trigger] s[i]),
    decreases s.len(),
{
    if s.len() > 0 && is_edge(s.last()) {
        let d = s.drop_last();
        lemma_edge_end(d);
        assert(d.take(edge_end(d).len() as int) =~= s.take(edge_end(d).len() as int));
        assert forall|i: int| edge_end(s).len() <= i < s.len() implies is_edge(#[trigger] s[i]) by {
            if i < d.len() {
                assert(d[i] == s[i]);
            }
        }
    } else {
        assert(s.take(s.len() as int) =~= s);
    }
}

/// A cleaned word is the part of the word, in lower case, that is left when
/// the punctuation at its two ends is cut off, and nothing else is.
pub proof fn law_clean_word(w: Seq<char>) -> (r: (int, int))
    ensures
        0 <= r.0 <= r.1 <= w.len(),
        clean_word(w) == lowercase(w.subrange(r.0, r.1)),
        r.0 < r.1 ==> !is_edge(w[r.0]) && !is_edge(w[r.1 - 1]),
        forall|i: int| 0 <= i < r.0 || r.1 <= i < w.len() ==> is_edge(#[trigger] w[i]),
{
    lemma_edge_start(w);
    let t = edge_start(w);
    lemma_edge_end(t);
    let a = w.len() - t.len();
    let b = a + edge_end(t).len();
    assert(edge_end(t) =~= w.subrange(a, b));
    if a < b {
        assert(t[0] == w[a]);
        assert(edge_end(t).last() == w[b - 1]);
    }
    assert forall|i: int| 0 <= i < a || b <= i < w.len() implies is_edge(#[trigger] w[i]) by {
        if i >= b {
            assert(t[i - a] == w[i]);
        }
    }
    (a, b)
}

/// The cleaned words of a text are its words, each cleaned, in their order;
/// one of which nothing is left is left out.
pub proof fn law_clean_words(s: Seq<char>)
    ensures
        clean_words(s) == words(s).map_values(|w: Seq<char>| clean_word(w)).filter(
            |w: Seq<char>| w != Seq::<char>::empty(),
        ),
{
    let all = words(s).map_values(|w: Seq<char>| clean_word(w));
    let a = |w: Seq<char>| w.len() > 0;
    let b = |w: Seq<char>| w != Seq::<char>::empty();
    assert forall|i: int| 0 <= i < all.len() implies a(#[trigger] all[i]) == b(all[i]) by {
        if all[i].len() == 0 {
            assert(all[i] =~= Seq::<char>::empty());
        }
    }
    lemma_filter_same(all, a, b);
}

proof fn lemma_glue_start(s: Seq<char>)
    ensures
        glue_start(s).len() <= s.len(),
        glue_start(s) == s.skip(s.len() - glue_start(s).len()),
        glue_start(s).len() > 0 ==> !is_glue(glue_start(s)[0]),
        forall|i: int| 0 <= i < s.len() - glue_start(s).len() ==> is_glue(#[trigger] s[i]),
    decreases s.len(),
{
    if s.len() > 0 && is_glue(s[0]) {
        let d = s.drop_first();
        lemma_glue_start(d);
        assert(d.skip(d.len() - glue_start(d).len()) =~= s.skip(s.len() - glue_start(d).len()));
        assert forall|i: int| 0 <= i < s.len() - glue_start(s).len() implies is_glue(
            #[trigger] s[i],
        ) by {
            if i > 0 {
                assert(d[i - 1] == s[i]);
            }
        }
    } else {
        assert(s.skip(0) =~= s);
    }
}

proof fn lemma_glue_end(s: Seq<char>)
    ensures
        glue_end(s).len() <= s.len(),
        glue_end(s) == s.take(glue_end(s).len() as int),
        glue_end(s).len() > 0 ==> !is_glue(glue_end(s).last()),
        forall|i: int| glue_end(s).len() <= i < s.len() ==> is_glue(#[trigger] s[i]),
    decreases s.len(),
{
    if s.len() > 0 && is_glue(s.last()) {
        let d = s.drop_last();
        lemma_glue_end(d);
        assert(d.take(glue_end(d).len() as int) =~= s.take(glue_end(d).len() as int));
        assert forall|i: int| glue_end(s).len() <= i < s.len() implies is_glue(#[trigger] s[i]) by {
            if i < d.len() {
                assert(d[i] == s[i]);
            }
        }
    } else {
        assert(s.take(s.len() as int) =~= s);
    }
}

/// A token is an operator exactly where it reads `and`, `or` or `not` in lower
/// case once the brackets and signs at its two ends, and nothing else, are
/// taken off.
pub proof fn law_operator_tokens(token: Seq<char>) -> (r: (int, int))
    ensures
        0 <= r.0 <= r.1 <= token.len(),
        r.0 < r.1 ==> !"()+-"@.contains(token[r.0]) && !"()+-"@.contains(token[r.1 - 1]),
        forall|i: int|
            0 <= i < r.0 || r.1 <= i < token.len() ==> "()+-"@.contains(#[trigger] token[i]),
        is_operator(token) <==> (lowercase(token.subrange(r.0, r.1)) == "and"@ || lowercase(
            token.subrange(r.0, r.1),
        ) == "or"@ || lowercase(token.subrange(r.0, r.1)) == "not"@),
{
    reveal_strlit("()+-");
    let marks = "()+-"@;
    assert forall|c: char| is_glue(c) <==> #[trigger] marks.contains(c) by {
        assert(marks[0] == '(' && marks[1] == ')' && marks[2] == '+' && marks[3] == '-');
    }
    lemma_glue_start(token);
    let t = glue_start(token);
    lemma_glue_end(t);
    let a = token.len() - t.len();
    let b = a + glue_end(t).len();
    assert(glue_end(t) =~= token.subrange(a, b));
    if a < b {
        assert(t[0] == token[a]);
        assert(glue_end(t).last() == token[b - 1]);
    }
    assert forall|i: int| 0 <= i < a || b <= i < token.len() implies marks.contains(
        #[trigger] token[i],
    ) by {
        if i >= b {
            assert(t[i - a] == token[i]);
        }
        assert(is_glue(token[i]));
    }
    (a, b)
}

/// Where a token is neither an operator nor a lone bracket or sign, its words
/// are the cleaned words of what is left when the signs before it are taken
/// off. An operator, a bracket and a sign have no words.
pub proof fn law_token_words(token: Seq<char>) -> (n: int)
    ensures
        0 <= n <= token.len(),
        forall|i: int| 0 <= i < n ==> #[trigger] token[i] == '+' || token[i] == '-',
        n < token.len() ==> token[n] != '+' && token[n] != '-',
        token_words(token) == if is_operator(token) || token == "("@ || token == ")"@ || token
            == "+"@ || token == "-"@ {
            Seq::empty()
        } else {
            clean_words(token.skip(n))
        },
{
    lemma_unsigned(token);
    token.len() - unsigned(token).len()
}

proof fn lemma_unsigned(s: Seq<char>)
    ensures
        unsigned(s).len() <= s.len(),
        unsigned(s) == s.skip(s.len() - unsigned(s).len()),
        unsigned(s).len() > 0 ==> unsigned(s)[0] != '+' && unsigned(s)[0] != '-',
        forall|i: int|
            0 <= i < s.len() - unsigned(s).len() ==> #[trigger] s[i] == '+' || s[i] == '-',
    decreases s.len(),
{
    if s.len() > 0 && (s[0] == '+' || s[0] == '-') {
        let d = s.drop_first();
        lemma_unsigned(d);
        assert(d.skip(d.len() - unsigned(d).len()) =~= s.skip(s.len() - unsigned(d).len()));
        assert forall|i: int| 0 <= i < s.len() - unsigned(s).len() implies #[trigger] s[i] == '+'
            || s[i] == '-' by {
            if i > 0 {
                assert(d[i - 1] == s[i]);
            }
        }
    } else {
        assert(s.skip(0) =~= s);
    }
}

/// The phrases of a token hold its words, each once, in their order. They are
/// one phrase where the token holds whitespace and has several words, and one
/// phrase for each word otherwise.
pub proof fn law_token_groups(token: Seq<char>)
    ensures
        token_groups(token).flatten() == token_words(token),
        (exists|i: int| 0 <= i < token.len() && is_white(#[trigger] token[i])) && token_words(
            token,
        ).len() > 1 ==> token_groups(token).len() == 1,
        !((exists|i: int| 0 <= i < token.len() && is_white(#[trigger] token[i])) && token_words(
            token,
        ).len() > 1) ==> forall|g: int|
            0 <= g < token_groups(token).len() ==> (#[trigger] token_groups(token)[g]).len() == 1,
        forall|w: Seq<char>| #[trigger]
            in_some_group(token_groups(token), w) <==> token_words(token).contains(w),
{
    let ws = token_words(token);
    let groups = token_groups(token);
    if has_white(token) && ws.len() > 1 {
        assert(groups.drop_first() =~= Seq::empty());
        assert(groups.drop_first().flatten() =~= Seq::empty());
        assert(groups.flatten() =~= ws);
        assert forall|w: Seq<char>| #[trigger] in_some_group(groups, w) <==> ws.contains(w) by {
            assert(groups[0] == ws);
        }
    } else {
        lemma_singles(ws);
        assert forall|w: Seq<char>| #[trigger] in_some_group(groups, w) <==> ws.contains(w) by {
            if in_some_group(groups, w) {
                let g = choose|g: int| 0 <= g < groups.len() && (#[trigger] groups[g]).contains(w);
                assert(groups[g] == seq![ws[g]]);
                assert(ws[g] == w);
            }
            if ws.contains(w) {
                let g = choose|g: int| 0 <= g < ws.len() && ws[g] == w;
                assert(groups[g] == seq![w]);
                assert(seq![w][0] == w);
                assert(groups[g].contains(w));
            }
        }
    }
}

proof fn lemma_singles(ws: Seq<Seq<char>>)
    ensures
        ws.map_values(|w: Seq<char>| seq![w]).flatten() == ws,
    decreases ws.len(),
{
    let f = |w: Seq<char>| seq![w];
    let all = ws.map_values(f);
    if ws.len() > 0 {
        let d = ws.drop_first();
        lemma_singles(d);
        assert(all.drop_first() =~= d.map_values(f));
        assert(all.first() == seq![ws[0]]);
        assert(all.flatten() =~= ws);
    } else {
        assert(all.flatten() =~= ws);
    }
}

proof fn lemma_groups_and_terms(tokens: Seq<Seq<char>>)
    ensures
        token_terms(tokens).no_duplicates(),
        forall|w: Seq<char>| #[trigger]
            token_terms(tokens).contains(w) <==> in_some_group(groups_of(tokens), w),
    decreases tokens.len(),
{
    if tokens.len() > 0 {
        let d = tokens.drop_last();
        let l = tokens.last();
        lemma_groups_and_terms(d);
        law_token_groups(l);
        law_terms_added(token_terms(d), token_words(l));
        let a = groups_of(d);
        let b = token_groups(l);
        assert forall|w: Seq<char>| #[trigger] token_terms(tokens).contains(w) <==> in_some_group(
            groups_of(tokens),
            w,
        ) by {
            assert(in_some_group(a + b, w) <==> in_some_group(a, w) || in_some_group(b, w)) by {
                if in_some_group(a + b, w) {
                    let g = choose|g: int|
                        0 <= g < (a + b).len() && (#[trigger] (a + b)[g]).contains(w);
                    if g < a.len() {
                        assert(a[g].contains(w));
                    } else {
                        assert(b[g - a.len()].contains(w));
                    }
                }
                if in_some_group(a, w) {
                    let g = choose|g: int| 0 <= g < a.len() && (#[trigger] a[g]).contains(w);
                    assert((a + b)[g].contains(w));
                }
                if in_some_group(b, w) {
                    let g = choose|g: int| 0 <= g < b.len() && (#[trigger] b[g]).contains(w);
                    assert((a + b)[a.len() + g].contains(w));
                }
            }
        }
    }
}

/// The phrases of tokens are those of the first, then those of the second, and
/// so on.
pub proof fn law_groups_token_by_token(a: Seq<Seq<char>>, b: Seq<Seq<char>>, token: Seq<char>)
    ensures
        groups_of(a + b) == groups_of(a) + groups_of(b),
        groups_of(seq![token]) == token_groups(token),
    decreases b.len(),
{
    assert(seq![token].drop_last() =~= Seq::empty());
    assert(seq![token].last() == token);
    reveal_with_fuel(groups_of, 2);
    assert(groups_of(seq![token]) =~= token_groups(token));
    if b.len() == 0 {
        assert(a + b =~= a);
        assert(groups_of(a) + groups_of(b) =~= groups_of(a));
    } else {
        law_groups_token_by_token(a, b.drop_last(), token);
        assert((a + b).drop_last() =~= a + b.drop_last());
        assert((a + b).last() == b.last());
        assert(groups_of(a + b) =~= groups_of(a) + groups_of(b));
    }
}

/// The terms of a query are the texts in its phrases, each once, whichever way
/// the query is read.
pub proof fn law_terms_are_in_groups(input: SearchInput)
    ensures
        terms_for(input).no_duplicates(),
        forall|w: Seq<char>| #[trigger]
            terms_for(input).contains(w) <==> in_some_group(groups_for(input), w),
{
    let query = input.query_str@;
    law_terms_of_groups(auto_groups(query));
    lemma_groups_and_terms(quote_tokens(query));
    law_terms_added(Seq::empty(), lower_words(query));
    law_terms_added(Seq::empty(), left_over(query));
    assert forall|ws: Seq<Seq<char>>, w: Seq<char>|
        #![trigger in_some_group(seq![ws], w)]
        in_some_group(seq![ws], w) <==> ws.contains(w) by {
        assert(seq![ws][0] == ws);
    }
}

/// A query that is read with operators is one phrase of all its words where it
/// is put in quotes for the query parser. Otherwise its phrases are those of
/// its tokens. Where these have none, what is left of its words without
/// operators, brackets and signs is one phrase.
pub proof fn law_boolean_groups(query: Seq<char>)
    ensures
        ({
            let of_tokens = groups_of(quote_tokens(query));
            let left = clean_words(query).filter(
                |w: Seq<char>|
                    w != "and"@ && w != "or"@ && w != "not"@ && w != "("@ && w != ")"@ && w
                        != "+"@ && w != "-"@,
            );
            let is_phrase = boolean_phrase_text(query) != query;
            &&& is_phrase ==> boolean_groups(query) == seq![lower_words(query)]
            &&& !is_phrase && of_tokens.len() > 0 ==> boolean_groups(query) == of_tokens
            &&& !is_phrase && of_tokens.len() == 0 ==> boolean_groups(query) == if left.len() > 0 {
                seq![left]
            } else {
                Seq::empty()
            }
        }),
{
    let a = |w: Seq<char>| !is_operator_word(w) && !is_mark(w);
    let b = |w: Seq<char>|
        w != "and"@ && w != "or"@ && w != "not"@ && w != "("@ && w != ")"@ && w != "+"@ && w
            != "-"@;
    lemma_filter_same(clean_words(query), a, b);
    assert(plain_multiword(query) <==> boolean_phrase_text(query) != query) by {
        if plain_multiword(query) {
            let q = boolean_phrase_text(query);
            assert(q[0] == '"');
            let (x, y) = law_trim(query);
            if q == query {
                assert(q.len() == trim(query).len() + 2);
            }
        }
    }
    let groups = groups_of(quote_tokens(query));
    if groups.len() == 0 {
        assert(groups =~= Seq::empty());
    }
}

/// A result gets the terms and the phrases of the query, and nothing else of
/// it changes.
pub proof fn law_tagged_result(
    before: RichResult,
    after: RichResult,
    terms: Seq<Seq<char>>,
    groups: Seq<Seq<Seq<char>>>,
)
    requires
        is_tagged(before, after, terms, groups),
    ensures
        after == (RichResult {
            matched_terms: after.matched_terms,
            phrase_groups: after.phrase_groups,
            ..before
        }),
        after.matched_terms@.len() == terms.len(),
        forall|i: int| 0 <= i < terms.len() ==> (#[trigger] after.matched_terms@[i])@ == terms[i],
        after.phrase_groups@.len() == groups.len(),
        forall|i: int|
            0 <= i < groups.len() ==> texts((#[trigger] after.phrase_groups@[i])@) == groups[i],
{
    assert(texts(after.matched_terms@).len() == after.matched_terms@.len());
    assert(group_texts(after.phrase_groups@).len() == after.phrase_groups@.len());
    assert forall|i: int| 0 <= i < terms.len() implies (#[trigger] after.matched_terms@[i])@
        == terms[i] by {
        assert(texts(after.matched_terms@)[i] == after.matched_terms@[i]@);
    }
    assert forall|i: int| 0 <= i < groups.len() implies texts(
        (#[trigger] after.phrase_groups@[i])@,
    ) == groups[i] by {
        assert(group_texts(after.phrase_groups@)[i] == texts(after.phrase_groups@[i]@));
    }
}

} // verus!
