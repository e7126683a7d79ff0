//! Queries of several words are phrases unless they hold operators.

use vstd::prelude::*;

use crate::search::builders::{
    bare_operator, find_bare_operator, lemma_quoted, operator_message, operator_text,
    quote_trimmed, quoted,
};
use crate::search::errors::SearchError;
use crate::search::traits::QueryBuilder;
use crate::search::types::SearchInput;
use crate::text::{
    chars_of, holds_char, is_white, is_word_at, law_trim, law_word_is_found, law_word_is_there,
    split_words, texts, trim, trim_bounds, words,
};

verus! {

/// Reads a query of several words as a phrase unless it holds operators,
/// which are then left to the query parser.
#[derive(Clone, Copy, PartialEq, Eq, Structural, Debug)]
pub struct BooleanPhraseQueryBuilder;

/// An ASCII letter in upper case; other characters as they are.
pub open spec fn folded(c: char) -> char {
    crate::tokenizers::ascii_upper(c)
}

/// Whether a word is `op` but for the case of ASCII letters.
pub open spec fn is_word(w: Seq<char>, op: Seq<char>) -> bool {
    w.len() == op.len() && forall|i: int| 0 <= i < w.len() ==> folded(#[trigger] w[i]) == op[i]
}

/// Whether a word is AND, OR or NOT in any case.
pub open spec fn is_operator(w: Seq<char>) -> bool {
    is_word(w, seq!['A', 'N', 'D']) || is_word(w, seq!['O', 'R']) || is_word(
        w,
        seq!['N', 'O', 'T'],
    )
}

/// Whether a query holds a space between its words, none of the characters
/// `"()+-` and none of the words AND, OR and NOT.
pub open spec fn plain_multiword(s: Seq<char>) -> bool {
    let t = trim(s);
    &&& t.contains(' ')
    &&& !t.contains('"')
    &&& !t.contains('(')
    &&& !t.contains(')')
    &&& !t.contains('+')
    &&& !t.contains('-')
    &&& forall|i: int| 0 <= i < words(t).len() ==> !is_operator(#[trigger] words(t)[i])
}

/// The text for the query parser.
pub open spec fn boolean_phrase_text(s: Seq<char>) -> Seq<char> {
    if plain_multiword(s) {
        quoted(trim(s))
    } else {
        s
    }
}

fn upper(c: char) -> (u: char)
    ensures
        u == folded(c),
{
    if 'a' <= c && c <= 'z' {
        let b: u8 = (c as u8) - 32;
        b as char
    } else {
        c
    }
}

/// Whether a word is AND, OR or NOT in any case.
pub fn is_boolean_operator(w: &str) -> (b: bool)
    ensures
        b == is_operator(w@),
{
    let v = chars_of(w);
    if v.len() == 3 {
        let (a, b, c) = (upper(v[0]), upper(v[1]), upper(v[2]));
        let is_and = a == 'A' && b == 'N' && c == 'D';
        let is_not = a == 'N' && b == 'O' && c == 'T';
        assert(is_and == is_word(v@, seq!['A', 'N', 'D'])) by {
            assert(folded(v@[0]) == a && folded(v@[1]) == b && folded(v@[2]) == c);
        }
        assert(is_not == is_word(v@, seq!['N', 'O', 'T'])) by {
            assert(folded(v@[0]) == a && folded(v@[1]) == b && folded(v@[2]) == c);
        }
        is_and || is_not
    } else if v.len() == 2 {
        let (a, b) = (upper(v[0]), upper(v[1]));
        let is_or = a == 'O' && b == 'R';
        assert(is_or == is_word(v@, seq!['O', 'R'])) by {
            assert(folded(v@[0]) == a && folded(v@[1]) == b);
        }
        is_or
    } else {
        false
    }
}

/// Whether a query of several words holds no operator.
pub fn is_bare_multiword(s: &str) -> (b: bool)
    ensures
        b == plain_multiword(s@),
{
    let v = chars_of(s);
    assert(v@.subrange(0, v@.len() as int) =~= v@);
    let (i, j) = trim_bounds(&v, 0, v.len());
    if !holds_char(&v, i, j, ' ') {
        return false;
    }
    if holds_char(&v, i, j, '"') || holds_char(&v, i, j, '(') || holds_char(&v, i, j, ')')
        || holds_char(&v, i, j, '+') || holds_char(&v, i, j, '-') {
        return false;
    }
    let list = split_words(&v, i, j);
    let ghost t = trim(s@);
    let mut k: usize = 0;
    while k < list.len()
        invariant
            k <= list.len(),
            t == trim(s@),
            texts(list@) == words(t),
            forall|n: int| 0 <= n < k ==> !is_operator(#[trigger] words(t)[n]),
        decreases list.len() - k,
    {
        assert(texts(list@)[k as int] == list@[k as int]@);
        if is_boolean_operator(list[k].as_str()) {
            assert(k < texts(list@).len());
            assert(is_operator(words(t)[k as int]));
            return false;
        }
        k += 1;
    }
    assert(texts(list@).len() == list@.len());
    true
}

/// Refuses an empty query and one that is an operator alone.
pub fn check_bare_operator(query: &str) -> (r: Result<(), SearchError>)
    ensures
        if trim(query@).len() == 0 {
            r matches Err(SearchError::ParseError(m)) && m@ == "Query is empty"@
        } else {
            match bare_operator(query@) {
                Some(op) => r matches Err(SearchError::ParseError(m)) && m@ == operator_text(op),
                None => r is Ok,
            }
        },
{
    let v = chars_of(query);
    assert(v@.subrange(0, v@.len() as int) =~= v@);
    let (a, b) = trim_bounds(&v, 0, v.len());
    if a == b {
        return Err(SearchError::ParseError("Query is empty".to_owned()));
    }
    match find_bare_operator(query) {
        Some(op) => Err(SearchError::ParseError(operator_message(op))),
        None => Ok(()),
    }
}

impl QueryBuilder for BooleanPhraseQueryBuilder {
    fn build(&self, input: &SearchInput) -> (r: Result<String, SearchError>)
        ensures
            if trim(input.query_str@).len() == 0 {
                r matches Err(SearchError::ParseError(m)) && m@ == "Query is empty"@
            } else {
                match bare_operator(input.query_str@) {
                    Some(op) => r matches Err(SearchError::ParseError(m)) && m@ == operator_text(
                        op,
                    ),
                    None => r matches Ok(t) && t@ == boolean_phrase_text(input.query_str@),
                }
            },
    {
        match check_bare_operator(input.query_str.as_str()) {
            Err(e) => Err(e),
            Ok(_) => if is_bare_multiword(input.query_str.as_str()) {
                Ok(quote_trimmed(input.query_str.as_str()))
            } else {
                Ok(input.query_str.clone())
            },
        }
    }

    fn name(&self) -> (s: &'static str)
        ensures
            s@ == "boolean_phrase"@,
    {
        "boolean_phrase"
    }
}

/// The text for the query parser is a query that stays as it is: a phrase is
/// put in quotes once.
pub proof fn law_boolean_phrase_once(s: Seq<char>)
    ensures
        boolean_phrase_text(boolean_phrase_text(s)) == boolean_phrase_text(s),
{
    lemma_quoted(trim(s));
}

/// Whether the characters from `i` to `j` are the word `w`, which is written in
/// capitals, in any case.
pub open spec fn reads_as(s: Seq<char>, i: int, j: int, w: Seq<char>) -> bool {
    &&& is_word_at(s, i, j)
    &&& j - i == w.len()
    &&& forall|k: int|
        0 <= k < w.len() ==> s[i + k] == #[trigger] w[k] || s[i + k] as u32 == w[k] as u32 + 32
}

/// Whether a word of a query is AND, OR or NOT in any case.
pub open spec fn has_operator_at(s: Seq<char>, i: int, j: int) -> bool {
    reads_as(s, i, j, seq!['A', 'N', 'D']) || reads_as(s, i, j, seq!['O', 'R']) || reads_as(
        s,
        i,
        j,
        seq!['N', 'O', 'T'],
    )
}

/// Whether a character has a meaning of its own to the query parser.
pub open spec fn is_mark(c: char) -> bool {
    c == '"' || c == '(' || c == ')' || c == '+' || c == '-'
}

proof fn lemma_reads_as(s: Seq<char>, i: int, j: int, w: Seq<char>)
    requires
        0 <= i <= j <= s.len(),
        forall|k: int| 0 <= k < w.len() ==> 'A' <= #[trigger] w[k] <= 'Z',
    ensures
        is_word_at(s, i, j) ==> (is_word(s.subrange(i, j), w) <==> reads_as(s, i, j, w)),
{
    let u = s.subrange(i, j);
    if is_word_at(s, i, j) {
        if is_word(u, w) {
            assert forall|k: int| 0 <= k < w.len() implies s[i + k] == #[trigger] w[k] || s[i + k]
                as u32 == w[k] as u32 + 32 by {
                assert(folded(u[k]) == w[k]);
            }
        }
        if reads_as(s, i, j, w) {
            assert forall|k: int| 0 <= k < u.len() implies folded(#[trigger] u[k]) == w[k] by {
                assert(s[i + k] == w[k] || s[i + k] as u32 == w[k] as u32 + 32);
            }
        }
    }
}

proof fn lemma_operator_at(s: Seq<char>, i: int, j: int)
    requires
        is_word_at(s, i, j),
    ensures
        is_operator(s.subrange(i, j)) <==> has_operator_at(s, i, j),
{
    lemma_reads_as(s, i, j, seq!['A', 'N', 'D']);
    lemma_reads_as(s, i, j, seq!['O', 'R']);
    lemma_reads_as(s, i, j, seq!['N', 'O', 'T']);
}

/// What stands in a trimmed text as a word stands in the text as a word.
proof fn lemma_word_in_trimmed(s: Seq<char>, a: int, b: int, i: int, j: int)
    requires
        0 <= a <= b <= s.len(),
        forall|k: int| 0 <= k < a || b <= k < s.len() ==> is_white(#[trigger] s[k]),
    ensures
        is_word_at(s, i, j) ==> a <= i && j <= b && is_word_at(s.subrange(a, b), i - a, j - a),
        is_word_at(s.subrange(a, b), i - a, j - a) ==> is_word_at(s, i, j),
{
    let t = s.subrange(a, b);
    if is_word_at(s, i, j) {
        assert(!is_white(s[i]) && !is_white(s[j - 1]));
        assert forall|k: int| i - a <= k < j - a implies !is_white(#[trigger] t[k]) by {
            assert(t[k] == s[a + k]);
        }
    }
    if is_word_at(t, i - a, j - a) {
        assert forall|k: int| i <= k < j implies !is_white(#[trigger] s[k]) by {
            assert(t[k - a] == s[k]);
        }
    }
}

/// A query that holds a quote, a parenthesis, a `+` or a `-`, wherever it
/// stands, is given to the query parser as it is.
pub proof fn law_marked_query_stays(s: Seq<char>, k: int)
    requires
        0 <= k < s.len(),
        is_mark(s[k]),
    ensures
        boolean_phrase_text(s) == s,
{
    let (a, b) = law_trim(s);
    assert(!is_white(s[k]));
    assert(a <= k < b);
    assert(trim(s)[k - a] == s[k]);
}

/// A query in which some word is AND, OR or NOT, in any case, is given to the
/// query parser as it is.
pub proof fn law_operator_query_stays(s: Seq<char>, i: int, j: int)
    requires
        has_operator_at(s, i, j),
    ensures
        boolean_phrase_text(s) == s,
{
    let (a, b) = law_trim(s);
    lemma_word_in_trimmed(s, a, b, i, j);
    let t = trim(s);
    law_word_is_found(t, i - a, j - a);
    assert(t.subrange(i - a, j - a) =~= s.subrange(i, j));
    lemma_operator_at(s, i, j);
    let n = choose|n: int| 0 <= n < words(t).len() && words(t)[n] == s.subrange(i, j);
    assert(is_operator(words(t)[n]));
}

/// A query without a space between two characters that are not whitespace is
/// given to the query parser as it is.
pub proof fn law_single_word_stays(s: Seq<char>)
    requires
        forall|i: int, k: int, j: int|
            #![trigger s[i], s[k], s[j]]
            0 <= i < k < j < s.len() && s[k] == ' ' ==> is_white(s[i]) || is_white(s[j]),
    ensures
        boolean_phrase_text(s) == s,
{
    let (a, b) = law_trim(s);
    let t = trim(s);
    if t.contains(' ') {
        let n = choose|n: int| 0 <= n < t.len() && t[n] == ' ';
        assert(s[a + n] == ' ');
        assert(is_white(s[a + n]));
        assert(a < a + n < b - 1);
        assert(is_white(s[a]) || is_white(s[b - 1]));
    }
}

/// Only a query without operators is put in quotes: one with a space between
/// two words, without a quote, a parenthesis, `+` or `-`, of which no word is
/// AND, OR or NOT, is read as a phrase. The phrase is the query without
/// whitespace at its ends.
pub proof fn law_plain_query_is_a_phrase(s: Seq<char>, i: int, k: int, j: int) -> (r: (int, int))
    requires
        0 <= i < k < j < s.len(),
        !is_white(s[i]),
        s[k] == ' ',
        !is_white(s[j]),
        forall|n: int| 0 <= n < s.len() ==> !is_mark(#[trigger] s[n]),
        forall|x: int, y: int| !#[trigger] has_operator_at(s, x, y),
    ensures
        0 <= r.0 <= i < j < r.1 <= s.len(),
        boolean_phrase_text(s) == seq!['"'] + s.subrange(r.0, r.1) + seq!['"'],
        !is_white(s[r.0]) && !is_white(s[r.1 - 1]),
        forall|n: int| 0 <= n < r.0 || r.1 <= n < s.len() ==> is_white(#[trigger] s[n]),
{
    let (a, b) = law_trim(s);
    let t = trim(s);
    assert(a <= i && j < b);
    assert(t[k - a] == ' ');
    assert(!t.contains('"') && !t.contains('(') && !t.contains(')') && !t.contains('+')
        && !t.contains('-')) by {
        assert forall|n: int| 0 <= n < t.len() implies !is_mark(#[trigger] t[n]) by {
            assert(t[n] == s[a + n]);
        }
    }
    assert forall|n: int| 0 <= n < words(t).len() implies !is_operator(#[trigger] words(t)[n]) by {
        let (x, y) = law_word_is_there(t, n);
        lemma_word_in_trimmed(s, a, b, a + x, a + y);
        assert(t.subrange(x, y) =~= s.subrange(a + x, a + y));
        lemma_operator_at(s, a + x, a + y);
        assert(!has_operator_at(s, a + x, a + y));
    }
    (a, b)
}

/// A query is taken for a phrase exactly where it holds a space between two
/// words, none of the characters `"()+-`, and none of the words AND, OR and
/// NOT.
pub proof fn law_bare_multiword(s: &str, b: bool)
    requires
        call_ensures(is_bare_multiword, (s,), b),
    ensures
        b <==> {
            &&& exists|i: int, k: int, j: int|
                #![trigger s@[i], s@[k], s@[j]]
                0 <= i < k < j < s@.len() && !is_white(s@[i]) && s@[k] == ' ' && !is_white(s@[j])
            &&& forall|n: int| 0 <= n < s@.len() ==> !is_mark(#[trigger] s@[n])
            &&& forall|x: int, y: int| !#[trigger] has_operator_at(s@, x, y)
        },
{
    let t = s@;
    if b {
        let (a, e) = law_trim(t);
        let r = trim(t);
        let n = choose|n: int| 0 <= n < r.len() && r[n] == ' ';
        assert(t[a + n] == ' ');
        assert(is_white(t[a + n]));
        assert(a < a + n < e - 1);
        assert(!is_white(t[a]) && t[a + n] == ' ' && !is_white(t[e - 1]));
        assert(boolean_phrase_text(t).len() == r.len() + 2);
        assert(boolean_phrase_text(t) != t) by {
            if boolean_phrase_text(t) == t {
                assert(t[0] == '"');
                assert(!is_white(t[0]));
                assert(a == 0);
                assert(r[0] == t[0]);
            }
        }
        assert forall|n: int| 0 <= n < t.len() implies !is_mark(#[trigger] t[n]) by {
            if is_mark(t[n]) {
                law_marked_query_stays(t, n);
            }
        }
        assert forall|x: int, y: int| !#[trigger] has_operator_at(t, x, y) by {
            if has_operator_at(t, x, y) {
                law_operator_query_stays(t, x, y);
            }
        }
    } else if (exists|i: int, k: int, j: int|
        #![trigger t[i], t[k], t[j]]
        0 <= i < k < j < t.len() && !is_white(t[i]) && t[k] == ' ' && !is_white(t[j])) && (forall|
        n: int,
    |
        0 <= n < t.len() ==> !is_mark(#[trigger] t[n])) && (forall|x: int, y: int|
        !#[trigger] has_operator_at(t, x, y)) {
        let (i, k, j) = choose|i: int, k: int, j: int|
            #![trigger t[i], t[k], t[j]]
            0 <= i < k < j < t.len() && !is_white(t[i]) && t[k] == ' ' && !is_white(t[j]);
        let r = law_plain_query_is_a_phrase(t, i, k, j);
        assert(boolean_phrase_text(t)[0] == '"');
        assert(is_mark(t[0]));
    }
}

/// What the builder hands to the query parser: the query itself where it holds
/// a mark or an operator, and otherwise, where it has a space between two
/// words, the query in quotes.
pub proof fn law_query_for_the_parser(
    builder: BooleanPhraseQueryBuilder,
    input: SearchInput,
    r: Result<String, SearchError>,
)
    requires
        call_ensures(
            <BooleanPhraseQueryBuilder as QueryBuilder>::build,
            (&builder, &input),
            r,
        ),
    ensures
        r matches Ok(t) ==> {
            let s = input.query_str@;
            &&& forall|k: int| 0 <= k < s.len() && is_mark(#[trigger] s[k]) ==> t@ == s
            &&& forall|x: int, y: int| #[trigger] has_operator_at(s, x, y) ==> t@ == s
            &&& t@ == s || (t@.len() >= 2 && t@[0] == '"' && t@.last() == '"' && t@.subrange(
                1,
                t@.len() - 1,
            ) == trim(s))
        },
        r is Err <==> (forall|i: int|
            0 <= i < input.query_str@.len() ==> is_white(#[trigger] input.query_str@[i]))
            || bare_operator(input.query_str@) is Some,
{
    let s = input.query_str@;
    let (a, e) = law_trim(s);
    if a < e {
        assert(!is_white(s[a]));
    }
    if let Ok(t) = r {
        assert forall|k: int| 0 <= k < s.len() && is_mark(#[trigger] s[k]) implies t@ == s by {
            law_marked_query_stays(s, k);
        }
        assert forall|x: int, y: int| #[trigger] has_operator_at(s, x, y) implies t@ == s by {
            law_operator_query_stays(s, x, y);
        }
        if t@ != s {
            assert(t@.subrange(1, t@.len() - 1) =~= trim(s));
        }
    }
}

} // verus!
