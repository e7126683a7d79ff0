//! Queries of several words without quotes are phrases.

use vstd::prelude::*;

use crate::search::builders::{
    bare_operator, find_bare_operator, lemma_quoted, operator_message, operator_text,
    quote_trimmed, quoted,
};
use crate::search::errors::SearchError;
use crate::search::traits::QueryBuilder;
use crate::search::types::SearchInput;
use crate::text::{chars_of, holds_char, is_white, law_trim, trim, trim_bounds};

verus! {

/// Reads a query of several words without quotes as a phrase.
#[derive(Clone, Copy, PartialEq, Eq, Structural, Debug)]
pub struct AutoPhraseQueryBuilder;

/// Whether a query holds a space between its words and no quote.
pub open spec fn bare_multiword(s: Seq<char>) -> bool {
    let t = trim(s);
    t.contains(' ') && !t.contains('"')
}

/// The text for the query parser.
pub open spec fn auto_phrase_text(s: Seq<char>) -> Seq<char> {
    if bare_multiword(s) {
        quoted(trim(s))
    } else {
        s
    }
}

/// Whether a query holds a space between its words and no quote.
pub fn is_bare_multiword(s: &str) -> (b: bool)
    ensures
        b == bare_multiword(s@),
{
    let v = chars_of(s);
    assert(v@.subrange(0, v@.len() as int) =~= v@);
    let (i, j) = trim_bounds(&v, 0, v.len());
    holds_char(&v, i, j, ' ') && !holds_char(&v, i, j, '"')
}

/// The text for the query parser: a query of several words without quotes is
/// put in quotes, any other stays as it is.
pub fn parse_query_auto_phrase(query_str: &str) -> (text: String)
    ensures
        text@ == auto_phrase_text(query_str@),
{
    if is_bare_multiword(query_str) {
        quote_trimmed(query_str)
    } else {
        query_str.to_owned()
    }
}

/// Refuses a query that is an operator alone.
pub fn check_bare_operator(query: &str) -> (r: Result<(), SearchError>)
    ensures
        match bare_operator(query@) {
            Some(op) => r matches Err(SearchError::ParseError(m)) && m@ == operator_text(op),
            None => r is Ok,
        },
{
    match find_bare_operator(query) {
        Some(op) => Err(SearchError::ParseError(operator_message(op))),
        None => Ok(()),
    }
}

impl QueryBuilder for AutoPhraseQueryBuilder {
    fn build(&self, input: &SearchInput) -> (r: Result<String, SearchError>)
        ensures
            match bare_operator(input.query_str@) {
                Some(op) => r matches Err(SearchError::ParseError(m)) && m@ == operator_text(op),
                None => r matches Ok(t) && t@ == auto_phrase_text(input.query_str@),
            },
    {
        match check_bare_operator(input.query_str.as_str()) {
            Err(e) => Err(e),
            Ok(_) => Ok(parse_query_auto_phrase(input.query_str.as_str())),
        }
    }

    fn name(&self) -> (s: &'static str)
        ensures
            s@ == "auto_phrase"@,
    {
        "auto_phrase"
    }
}

/// The text for the query parser is a query that stays as it is: a phrase is
/// put in quotes once.
pub proof fn law_auto_phrase_once(s: Seq<char>)
    ensures
        auto_phrase_text(auto_phrase_text(s)) == auto_phrase_text(s),
{
    lemma_quoted(trim(s));
}

/// A query that holds a quote, wherever it stands, is given to the query
/// parser as it is.
pub proof fn law_quoted_query_stays(s: Seq<char>, k: int)
    requires
        0 <= k < s.len(),
        s[k] == '"',
    ensures
        auto_phrase_text(s) == s,
{
    let (a, b) = law_trim(s);
    assert(trim(s)[k - a] == s[k]);
}

/// A query without a space between two characters that are not whitespace is
/// given to the query parser as it is.
pub proof fn law_single_word_stays(s: Seq<char>)
    requires
        forall|i: int, k: int, j: int|
            #![trigger s[i], s[k], s[j]]
            0 <= i < k < j < s.len() && s[k] == ' ' ==> is_white(s[i]) || is_white(s[j]),
    ensures
        auto_phrase_text(s) == s,
{
    let (a, b) = law_trim(s);
    let t = trim(s);
    if t.contains(' ') {
        let n = choose|n: int| 0 <= n < t.len() && t[n] == ' ';
        assert(s[a + n] == ' ');
        assert(a < a + n < b - 1);
        assert(is_white(s[a]) || is_white(s[b - 1]));
    }
}

/// A query with a space between two words and without a quote is read as a
/// phrase, whatever else it holds. The phrase is the query without whitespace
/// at its ends.
pub proof fn law_words_are_a_phrase(s: Seq<char>, i: int, k: int, j: int) -> (r: (int, int))
    requires
        0 <= i < k < j < s.len(),
        !is_white(s[i]),
        s[k] == ' ',
        !is_white(s[j]),
        forall|n: int| 0 <= n < s.len() ==> #[trigger] s[n] != '"',
    ensures
        0 <= r.0 <= i < j < r.1 <= s.len(),
        auto_phrase_text(s) == seq!['"'] + s.subrange(r.0, r.1) + seq!['"'],
        !is_white(s[r.0]) && !is_white(s[r.1 - 1]),
        forall|n: int| 0 <= n < r.0 || r.1 <= n < s.len() ==> is_white(#[trigger] s[n]),
{
    let (a, b) = law_trim(s);
    let t = trim(s);
    assert(t[k - a] == ' ');
    assert(!t.contains('"')) by {
        assert forall|n: int| 0 <= n < t.len() implies #[trigger] t[n] != '"' by {
            assert(t[n] == s[a + n]);
        }
    }
    (a, b)
}

} // verus!
