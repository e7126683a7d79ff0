//! The two ways to read a query.

use vstd::prelude::*;

use crate::search::builders::auto_phrase::AutoPhraseQueryBuilder;
use crate::text::{
    chars_of, is_white, law_trim, law_trim_keeps, lemma_filter_all, string_of, trim, trim_bounds,
};

pub mod auto_phrase;
pub mod boolean_phrase;

verus! {

/// The way that is used where none is named.
pub fn default_strategy() -> (b: AutoPhraseQueryBuilder)
    ensures
        b == AutoPhraseQueryBuilder,
{
    AutoPhraseQueryBuilder
}

/// A text in double quotes.
pub open spec fn quoted(s: Seq<char>) -> Seq<char> {
    seq!['"'] + s + seq!['"']
}

/// A text in quotes is trimmed and holds a quote.
pub(crate) proof fn lemma_quoted(s: Seq<char>)
    ensures
        trim(quoted(s)) == quoted(s),
        quoted(s).contains('"'),
{
    let q = quoted(s);
    assert(q[0] == '"' && q.last() == '"');
}

/// A trimmed text in double quotes.
pub fn quote_trimmed(s: &str) -> (r: String)
    ensures
        r@ == quoted(trim(s@)),
{
    let v = chars_of(s);
    assert(v@.subrange(0, v@.len() as int) =~= v@);
    let (a, b) = trim_bounds(&v, 0, v.len());
    let mut r = String::new();
    r.push('"');
    let inner = string_of(&v, a, b);
    r.push_str(inner.as_str());
    r.push('"');
    assert(r@ =~= quoted(trim(s@)));
    r
}

/// The operator that a query consists of, where it is one alone.
pub open spec fn bare_operator(query: Seq<char>) -> Option<char> {
    let t = trim(query);
    if t.len() == 1 && (t[0] == '+' || t[0] == '-') {
        Some(t[0])
    } else {
        None
    }
}

/// The message for a query that is an operator alone.
pub open spec fn operator_text(op: char) -> Seq<char> {
    "'"@ + seq![op] + "' operator requires a term to perform the search"@
}

/// The operator that a query consists of, where it is one alone.
pub fn find_bare_operator(query: &str) -> (op: Option<char>)
    ensures
        op == bare_operator(query@),
{
    let v = chars_of(query);
    assert(v@.subrange(0, v@.len() as int) =~= v@);
    let (a, b) = trim_bounds(&v, 0, v.len());
    if b - a == 1 && (v[a] == '+' || v[a] == '-') {
        Some(v[a])
    } else {
        None
    }
}

/// The message for a query that is an operator alone.
pub fn operator_message(op: char) -> (s: String)
    ensures
        s@ == operator_text(op),
{
    let mut s = String::new();
    s.push_str("'");
    s.push(op);
    s.push_str("' operator requires a term to perform the search");
    assert(s@ =~= operator_text(op));
    s
}

/// A query is refused as an operator alone exactly where `+` or `-` is all
/// that it holds besides whitespace.
pub proof fn law_bare_operator(query: Seq<char>, op: char)
    ensures
        bare_operator(query) == Some(op) <==> (op == '+' || op == '-') && query.filter(
            |c: char| !is_white(c),
        ) == seq![op],
{
    let keep = |c: char| !is_white(c);
    let (a, b) = law_trim(query);
    let t = trim(query);
    law_trim_keeps(query);
    if t.len() == 1 {
        lemma_filter_all(t, keep);
        assert(t =~= seq![t[0]]);
        assert(seq![op][0] == op);
    } else if t.len() == 0 {
        lemma_filter_all(t, keep);
        assert(seq![op].len() == 1);
    } else {
        let x = t.take(1);
        let y = t.subrange(1, t.len() - 1);
        let z = t.skip(t.len() - 1);
        assert(t =~= x + (y + z));
        Seq::filter_distributes_over_add(x, y + z, keep);
        Seq::filter_distributes_over_add(y, z, keep);
        lemma_filter_all(x, keep);
        lemma_filter_all(z, keep);
        assert(t.filter(keep).len() >= 2);
    }
}

} // verus!
