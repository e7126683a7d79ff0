//! Tokens: the maximal runs of letters, numbers and symbols of a text.
//!
//! The extractor and the index cut text with the same pattern, so that the
//! word positions of a document and its index terms stay in step.

use tantivy::tokenizer::TokenStream;
use tantivy::tokenizer::Tokenizer;
use vstd::prelude::*;

use crate::text::{is_cc, is_white, utf8_len};

verus! {

// ---------------------------------------------------------------------------
// The token class
// ---------------------------------------------------------------------------

/// Whether a character outside ASCII is in the class `[\p{L}\p{N}\p{S}]`.
pub uninterp spec fn unicode_token_char(c: char) -> bool;

/// Whether a character is in the class `[\p{L}\p{N}\p{S}]`. Whitespace and
/// control characters are not.
pub open spec fn in_token_class(c: char) -> bool {
    if (c as u32) < 0x80 {
        ||| '0' <= c <= '9'
        ||| 'a' <= c <= 'z'
        ||| 'A' <= c <= 'Z'
        ||| c == '$'
        ||| c == '+'
        ||| c == '<'
        ||| c == '='
        ||| c == '>'
        ||| c == '^'
        ||| c == '`'
        ||| c == '|'
        ||| c == '~'
    } else {
        unicode_token_char(c) && !is_white(c) && !is_cc(c)
    }
}

/// The maximal runs of token characters, as bounds in characters.
pub open spec fn token_runs(s: Seq<char>) -> Seq<(int, int)>
    decreases s.len(),
{
    if s.len() == 0 {
        Seq::empty()
    } else {
        let front = token_runs(s.drop_last());
        let n = s.len() as int;
        if !in_token_class(s.last()) {
            front
        } else if front.len() > 0 && front.last().1 == n - 1 {
            front.drop_last().push((front.last().0, n))
        } else {
            front.push((n - 1, n))
        }
    }
}

/// The tokens of a text.
pub open spec fn token_texts(s: Seq<char>) -> Seq<Seq<char>> {
    token_runs(s).map_values(|r: (int, int)| s.subrange(r.0, r.1))
}

/// Runs lie in the text, in order and apart, hold token characters only, and
/// end where the class ends.
pub proof fn lemma_token_runs(s: Seq<char>)
    ensures
        forall|i: int|
            0 <= i < token_runs(s).len() ==> 0 <= (#[trigger] token_runs(s)[i]).0 < token_runs(
                s,
            )[i].1 <= s.len(),
        forall|i: int, k: int|
            #![trigger token_runs(s)[i], s[k]]
            0 <= i < token_runs(s).len() && token_runs(s)[i].0 <= k < token_runs(s)[i].1
                ==> in_token_class(s[k]),
        forall|i: int, j: int|
            0 <= i < j < token_runs(s).len() ==> (#[trigger] token_runs(s)[i]).1 < (
            #[trigger] token_runs(s)[j]).0,
        forall|k: int|
            0 <= k < s.len() && in_token_class(#[trigger] s[k]) ==> exists|i: int|
                0 <= i < token_runs(s).len() && (#[trigger] token_runs(s)[i]).0 <= k < token_runs(
                    s,
                )[i].1,
        (token_runs(s).len() > 0 && token_runs(s).last().1 == s.len()) <==> (s.len() > 0
            && in_token_class(s.last())),
    decreases s.len(),
{
    if s.len() > 0 {
        let d = s.drop_last();
        lemma_token_runs(d);
        let f = token_runs(d);
        let r = token_runs(s);
        let n = s.len() as int;
        if in_token_class(s.last()) {
            assert forall|k: int| 0 <= k < n && in_token_class(#[trigger] s[k]) implies exists|
                i: int,
            | 0 <= i < r.len() && (#[trigger] r[i]).0 <= k < r[i].1 by {
                if k < n - 1 {
                    assert(in_token_class(d[k]));
                    let i = choose|i: int|
                        0 <= i < f.len() && (#[trigger] f[i]).0 <= k < f[i].1;
                    assert(r[i].0 <= k < r[i].1);
                } else {
                    assert(r[r.len() - 1].0 <= k < r[r.len() - 1].1);
                }
            }
            assert forall|i: int, k: int|
                #![trigger r[i], s[k]]
                0 <= i < r.len() && r[i].0 <= k < r[i].1 implies in_token_class(s[k]) by {
                if k < n - 1 {
                    assert(i < f.len());
                    assert(f[i].0 <= k < f[i].1);
                    assert(in_token_class(d[k]));
                }
            }
        } else {
            assert forall|k: int| 0 <= k < n && in_token_class(#[trigger] s[k]) implies exists|
                i: int,
            | 0 <= i < r.len() && (#[trigger] r[i]).0 <= k < r[i].1 by {
                assert(in_token_class(d[k]));
            }
            assert forall|i: int, k: int|
                #![trigger r[i], s[k]]
                0 <= i < r.len() && r[i].0 <= k < r[i].1 implies in_token_class(s[k]) by {
                assert(f[i].0 <= k < f[i].1);
                assert(in_token_class(d[k]));
            }
        }
    }
}

/// Runs lie in the text and are not empty.
pub proof fn lemma_run_bounds(s: Seq<char>, i: int)
    requires
        0 <= i < token_runs(s).len(),
    ensures
        0 <= token_runs(s)[i].0 < token_runs(s)[i].1 <= s.len(),
{
    lemma_token_runs(s);
}

/// Whether no run crosses from the end of `a` into the start of `b`.
pub open spec fn runs_part(a: Seq<char>, b: Seq<char>) -> bool {
    ||| a.len() == 0
    ||| b.len() == 0
    ||| !in_token_class(a.last())
    ||| !in_token_class(b[0])
}

/// A run moved by `n` characters.
pub open spec fn moved(r: (int, int), n: int) -> (int, int) {
    (r.0 + n, r.1 + n)
}

/// Where no run crosses, the runs of a concatenation are those of its parts.
pub proof fn lemma_runs_concat(a: Seq<char>, b: Seq<char>)
    requires
        runs_part(a, b),
    ensures
        token_runs(a + b) == token_runs(a) + token_runs(b).map_values(
            |r: (int, int)| moved(r, a.len() as int),
        ),
    decreases b.len(),
{
    let shift = |r: (int, int)| moved(r, a.len() as int);
    if b.len() == 0 {
        assert(a + b =~= a);
        assert(token_runs(a + b) =~= token_runs(a) + token_runs(b).map_values(shift));
    } else {
        let d = b.drop_last();
        lemma_runs_concat(a, d);
        assert((a + b).drop_last() =~= a + d);
        lemma_token_runs(a);
        lemma_token_runs(d);
        lemma_token_runs(a + d);
        let fd = token_runs(d);
        let fa = token_runs(a);
        let f = token_runs(a + d);
        assert(f == fa + fd.map_values(shift));
        if in_token_class(b.last()) {
            if fd.len() > 0 {
                assert(f.last() == moved(fd.last(), a.len() as int));
                assert((f.last().1 == a.len() + d.len()) == (fd.last().1 == d.len()));
            } else if d.len() == 0 {
                assert(b[0] == b.last());
            } else {
                assert(!in_token_class(d.last()));
                if fa.len() > 0 {
                    assert(fa.last().1 <= a.len());
                }
            }
        }
        assert(token_runs(a + b) =~= fa + token_runs(b).map_values(shift));
    }
}

/// Where no run crosses, the tokens of a concatenation are those of its parts.
pub proof fn law_tokens_concat(a: Seq<char>, b: Seq<char>)
    requires
        runs_part(a, b),
    ensures
        token_texts(a + b) == token_texts(a) + token_texts(b),
{
    lemma_runs_concat(a, b);
    lemma_token_runs(a);
    lemma_token_runs(b);
    let ra = token_runs(a);
    let rb = token_runs(b);
    let r = token_runs(a + b);
    let whole = token_texts(a + b);
    let parts = token_texts(a) + token_texts(b);
    assert(whole.len() == parts.len());
    assert forall|i: int| 0 <= i < whole.len() implies whole[i] == parts[i] by {
        if i < ra.len() {
            assert(r[i] == ra[i]);
            assert((a + b).subrange(ra[i].0, ra[i].1) =~= a.subrange(ra[i].0, ra[i].1));
        } else {
            let j = i - ra.len();
            assert(r[i] == moved(rb[j], a.len() as int));
            assert((a + b).subrange(r[i].0, r[i].1) =~= b.subrange(rb[j].0, rb[j].1));
        }
    }
    assert(whole =~= parts);
}

/// A text without token characters has no tokens.
pub proof fn lemma_no_tokens(s: Seq<char>)
    requires
        forall|i: int| 0 <= i < s.len() ==> !in_token_class(#[trigger] s[i]),
    ensures
        token_texts(s) == Seq::<Seq<char>>::empty(),
{
    lemma_token_runs(s);
    if token_runs(s).len() > 0 {
        let r = token_runs(s)[0];
        assert(in_token_class(s[r.0]));
    }
    assert(token_texts(s) =~= Seq::empty());
}

/// A text is its own only token exactly where it is not empty and holds
/// nothing but token characters.
pub proof fn law_one_token(s: Seq<char>)
    ensures
        token_texts(s) == seq![s] <==> (s.len() > 0 && forall|k: int|
            0 <= k < s.len() ==> in_token_class(#[trigger] s[k])),
        token_texts(s) == seq![s] ==> token_runs(s) == seq![(0int, s.len() as int)],
{
    lemma_token_runs(s);
    let r = token_runs(s);
    if s.len() > 0 && forall|k: int| 0 <= k < s.len() ==> in_token_class(#[trigger] s[k]) {
        assert(in_token_class(s[0]));
        let i = choose|i: int| 0 <= i < r.len() && (#[trigger] r[i]).0 <= 0 < r[i].1;
        assert(in_token_class(s.last()));
        let last = r.len() - 1;
        if i < last {
            assert(r[i].1 < r[last].0);
            let k = r[i].1;
            assert(in_token_class(s[k]));
            let j = choose|j: int| 0 <= j < r.len() && (#[trigger] r[j]).0 <= k < r[j].1;
            if j < i {
                assert(r[j].1 < r[i].0);
            } else if j > i {
                assert(r[i].1 < r[j].0);
            }
        }
        if i > 0 {
            assert(r[0].1 < r[i].0);
        }
        assert(r.len() == 1);
        assert(s.subrange(0, s.len() as int) =~= s);
        assert(token_texts(s) =~= seq![s]);
        assert(r =~= seq![(0int, s.len() as int)]);
    }
    if token_texts(s) == seq![s] {
        assert(token_texts(s).len() == 1);
        assert(token_texts(s)[0] == s);
        let b = r[0];
        assert(s.subrange(b.0, b.1).len() == s.len());
        assert forall|k: int| 0 <= k < s.len() implies in_token_class(#[trigger] s[k]) by {
            assert(r[0].0 <= k < r[0].1);
        }
    }
}

// ---------------------------------------------------------------------------
// Finding tokens
// ---------------------------------------------------------------------------

/// One token: its bounds in bytes, its place in the stream, the number of
/// places it spans, and its text.
#[derive(Debug)]
pub struct Token {
    pub offset_from: usize,
    pub offset_to: usize,
    pub position: usize,
    pub text: String,
    pub position_length: usize,
}

/// Whether `t` is the token number `i` of the text `s`.
pub open spec fn is_run(t: Token, s: Seq<char>, i: int) -> bool {
    let r = token_runs(s)[i];
    &&& t.offset_from == utf8_len(s.take(r.0))
    &&& t.offset_to == utf8_len(s.take(r.1))
    &&& t.position == i
    &&& t.position_length == 1
    &&& t.text@ == s.subrange(r.0, r.1)
}

/// Whether `tokens` are the tokens of the text `s`.
pub open spec fn are_runs(tokens: Seq<Token>, s: Seq<char>) -> bool {
    &&& tokens.len() == token_runs(s).len()
    &&& forall|i: int| 0 <= i < tokens.len() ==> is_run(#[trigger] tokens[i], s, i)
}

/// `regex::Regex::find_iter` with the pattern `[\p{L}\p{N}\p{S}]+`: the
/// matches are the maximal runs of characters of the class, from left to
/// right, with their bounds in bytes.
#[verifier::external_body]
pub(crate) fn find_tokens(text: &str) -> (tokens: Vec<Token>)
    ensures
        are_runs(tokens@, text@),
        forall|i: int, k: int|
            0 <= i < tokens@.len() && 0 <= k < tokens@[i].text@.len() && (
            #[trigger] tokens@[i].text@[k]) as u32 >= 0x80 ==> unicode_token_char(
                tokens@[i].text@[k],
            ),
{
    let re = regex::Regex::new(r"[\p{L}\p{N}\p{S}]+").unwrap();
    let found = re.find_iter(text).enumerate();
    found.map(
        |(i, m)| Token {
            offset_from: m.start(),
            offset_to: m.end(),
            position: i,
            text: m.as_str().to_string(),
            position_length: 1,
        },
    ).collect()
}

/// `regex::Regex::is_match` with the pattern `^[\p{L}\p{N}\p{S}]+$`: whether
/// a text is not empty and all its characters are of the class.
#[verifier::external_body]
pub(crate) fn is_one_token(text: &str) -> (b: bool)
    ensures
        b == (text@.len() > 0 && forall|k: int|
            0 <= k < text@.len() ==> in_token_class(#[trigger] text@[k])),
{
    regex::Regex::new(r"^[\p{L}\p{N}\p{S}]+$").unwrap().is_match(text)
}

/// The stream of `tantivy::tokenizer::RegexTokenizer` with the pattern
/// `[\p{L}\p{N}\p{S}]+`: one token for each match of the pattern in what is
/// left of the text, numbered from zero.
#[verifier::external_body]
pub(crate) fn regex_tokens(text: &str) -> (tokens: Vec<Token>)
    ensures
        are_runs(tokens@, text@),
{
    let mut tokenizer = tantivy::tokenizer::RegexTokenizer::new(r"[\p{L}\p{N}\p{S}]+").unwrap();
    let mut tokens: Vec<Token> = Vec::new();
    tokenizer.token_stream(text).process(
        &mut |t| tokens.push(
            Token {
                offset_from: t.offset_from,
                offset_to: t.offset_to,
                position: t.position,
                text: t.text.clone(),
                position_length: t.position_length,
            },
        ),
    );
    tokens
}

// ---------------------------------------------------------------------------
// Case
// ---------------------------------------------------------------------------

/// Whether all characters are in ASCII.
pub open spec fn all_ascii(s: Seq<char>) -> bool {
    forall|i: int| 0 <= i < s.len() ==> (#[trigger] s[i] as u32) < 0x80
}

/// An ASCII letter in lower case; other characters as they are.
pub open spec fn ascii_lower(c: char) -> char {
    if 'A' <= c <= 'Z' {
        (c as u32 + 32) as char
    } else {
        c
    }
}

/// An ASCII letter in upper case; other characters as they are.
pub open spec fn ascii_upper(c: char) -> char {
    if 'a' <= c <= 'z' {
        (c as u32 - 32) as char
    } else {
        c
    }
}

/// What `str::to_lowercase` makes of a text that is not all ASCII.
pub uninterp spec fn unicode_lowercase(s: Seq<char>) -> Seq<char>;

/// A text in lower case.
pub open spec fn lowercase(s: Seq<char>) -> Seq<char> {
    if all_ascii(s) {
        s.map_values(|c: char| ascii_lower(c))
    } else {
        unicode_lowercase(s)
    }
}

/// `str::to_lowercase`: the lower case by the rules of Unicode, which change
/// only the letters A to Z of a text in ASCII.
pub assume_specification[ str::to_lowercase ](s: &str) -> (r: String)
    ensures
        all_ascii(s@) ==> r@ == s@.map_values(|c: char| ascii_lower(c)),
        !all_ascii(s@) ==> r@ == unicode_lowercase(s@),
;

/// What `str::to_uppercase` makes of a text that is not all ASCII.
pub uninterp spec fn unicode_uppercase(s: Seq<char>) -> Seq<char>;

/// A text in upper case.
pub open spec fn uppercase(s: Seq<char>) -> Seq<char> {
    if all_ascii(s) {
        s.map_values(|c: char| ascii_upper(c))
    } else {
        unicode_uppercase(s)
    }
}

/// `str::to_uppercase`: the upper case by the rules of Unicode, which change
/// only the letters a to z of a text in ASCII.
pub assume_specification[ str::to_uppercase ](s: &str) -> (r: String)
    ensures
        all_ascii(s@) ==> r@ == s@.map_values(|c: char| ascii_upper(c)),
        !all_ascii(s@) ==> r@ == unicode_uppercase(s@),
;

// ---------------------------------------------------------------------------
// Token streams
// ---------------------------------------------------------------------------

/// A stream over tokens that are at hand.
pub struct TokenVecStream {
    tokens: Vec<Token>,
    index: usize,
}

impl TokenVecStream {
    /// All tokens of the stream.
    pub closed spec fn tokens(self) -> Seq<Token> {
        self.tokens@
    }

    /// How many tokens the stream has reached.
    pub closed spec fn reached(self) -> nat {
        self.index as nat
    }

    /// Whether the stream has not run past its end.
    pub closed spec fn wf(self) -> bool {
        self.index <= self.tokens@.len()
    }

    /// A stream before its first token.
    pub fn new(tokens: Vec<Token>) -> (stream: Self)
        ensures
            stream.wf(),
            stream.tokens() == tokens@,
            stream.reached() == 0,
    {
        TokenVecStream { tokens, index: 0 }
    }

    /// Goes to the next token. At the end the stream stays where it is.
    pub fn advance(&mut self) -> (more: bool)
        requires
            old(self).wf(),
        ensures
            final(self).wf(),
            final(self).tokens() == old(self).tokens(),
            more <==> old(self).reached() < old(self).tokens().len(),
            final(self).reached() == old(self).reached() + if more {
                1nat
            } else {
                0
            },
    {
        if self.index < self.tokens.len() {
            self.index = self.index + 1;
            true
        } else {
            false
        }
    }

    /// The token that the stream has reached.
    pub fn token(&self) -> (t: &Token)
        requires
            self.wf(),
            self.reached() > 0,
        ensures
            *t == self.tokens()[self.reached() - 1],
    {
        &self.tokens[self.index - 1]
    }

    /// The tokens of the stream.
    pub fn into_tokens(self) -> (tokens: Vec<Token>)
        ensures
            tokens@ == self.tokens(),
    {
        self.tokens
    }
}

/// A token of the index: that of the text, in lower case.
pub open spec fn is_index_token(t: Token, s: Seq<char>, i: int) -> bool {
    let r = token_runs(s)[i];
    &&& t.offset_from == utf8_len(s.take(r.0))
    &&& t.offset_to == utf8_len(s.take(r.1))
    &&& t.position == i
    &&& t.position_length == 1
    &&& t.text@ == lowercase(s.subrange(r.0, r.1))
}

/// Cuts text into tokens in lower case.
#[derive(Clone, Copy)]
pub struct LanguageAwareTokenizer;

impl LanguageAwareTokenizer {
    /// The tokens of a text.
    pub fn token_stream(&self, text: &str) -> (stream: TokenVecStream)
        ensures
            stream.wf(),
            stream.reached() == 0,
            stream.tokens().len() == token_runs(text@).len(),
            forall|i: int|
                0 <= i < stream.tokens().len() ==> is_index_token(
                    #[trigger] stream.tokens()[i],
                    text@,
                    i,
                ),
    {
        let found = regex_tokens(text);
        let mut tokens: Vec<Token> = Vec::new();
        let mut i: usize = 0;
        while i < found.len()
            invariant
                i <= found.len(),
                are_runs(found@, text@),
                tokens@.len() == i,
                forall|k: int| 0 <= k < i ==> is_index_token(#[trigger] tokens@[k], text@, k),
            decreases found.len() - i,
        {
            let t = &found[i];
            assert(is_run(found@[i as int], text@, i as int));
            tokens.push(
                Token {
                    offset_from: t.offset_from,
                    offset_to: t.offset_to,
                    position: t.position,
                    text: t.text.as_str().to_lowercase(),
                    position_length: t.position_length,
                },
            );
            i += 1;
        }
        TokenVecStream::new(tokens)
    }
}

/// Cuts text with the tokenizer of the index and gives each token with its
/// position.
pub fn tokenize_with_math(text: &str) -> (tokens: Vec<(usize, String)>)
    ensures
        tokens@.len() == token_runs(text@).len(),
        forall|i: int|
            0 <= i < tokens@.len() ==> (#[trigger] tokens@[i]).0 == i && tokens@[i].1@ == lowercase(
                token_texts(text@)[i],
            ),
{
    let found = regex_tokens(text);
    let mut tokens: Vec<(usize, String)> = Vec::new();
    let mut i: usize = 0;
    while i < found.len()
        invariant
            i <= found.len(),
            are_runs(found@, text@),
            tokens@.len() == i,
            forall|k: int|
                0 <= k < i ==> (#[trigger] tokens@[k]).0 == k && tokens@[k].1@ == lowercase(
                    token_texts(text@)[k],
                ),
        decreases found.len() - i,
    {
        let t = &found[i];
        assert(is_run(found@[i as int], text@, i as int));
        tokens.push((t.position, t.text.as_str().to_lowercase()));
        i += 1;
    }
    tokens
}

/// Whether the characters from `i` to `j` are a token: they are of the class,
/// and what stands before and behind them is not, or is an end of the text.
pub open spec fn is_token_at(s: Seq<char>, i: int, j: int) -> bool {
    &&& 0 <= i < j <= s.len()
    &&& forall|k: int| i <= k < j ==> in_token_class(#[trigger] s[k])
    &&& i == 0 || !in_token_class(s[i - 1])
    &&& j == s.len() || !in_token_class(s[j])
}

/// The tokens of a text are the longest runs of characters of the class, in
/// their order: each run is found, and what is found is such a run.
pub proof fn law_tokens_found(s: Seq<char>, i: int, j: int, n: int)
    ensures
        is_token_at(s, i, j) ==> token_runs(s).contains((i, j)) && token_texts(s).contains(
            s.subrange(i, j),
        ),
        0 <= n < token_runs(s).len() ==> is_token_at(
            s,
            token_runs(s)[n].0,
            token_runs(s)[n].1,
        ) && token_texts(s)[n] == s.subrange(token_runs(s)[n].0, token_runs(s)[n].1),
        0 < n < token_runs(s).len() ==> token_runs(s)[n - 1].1 < token_runs(s)[n].0,
        token_texts(s).len() == token_runs(s).len(),
{
    lemma_token_runs(s);
    let runs = token_runs(s);
    if is_token_at(s, i, j) {
        assert(in_token_class(s[i]));
        let m = choose|m: int| 0 <= m < runs.len() && (#[trigger] runs[m]).0 <= i < runs[m].1;
        let r = runs[m];
        if r.0 < i {
            assert(in_token_class(s[i - 1]));
        }
        if r.1 > j {
            assert(in_token_class(s[j]));
        }
        if r.1 < j {
            lemma_run_ends(s, m);
        }
        assert(runs[m] == (i, j));
        assert(token_texts(s)[m] == s.subrange(i, j));
    }
    if 0 <= n < runs.len() {
        lemma_run_ends(s, n);
    }
}

proof fn lemma_run_ends(s: Seq<char>, n: int)
    requires
        0 <= n < token_runs(s).len(),
    ensures
        is_token_at(s, token_runs(s)[n].0, token_runs(s)[n].1),
{
    lemma_token_runs(s);
    let runs = token_runs(s);
    let r = runs[n];
    assert forall|k: int| r.0 <= k < r.1 implies in_token_class(#[trigger] s[k]) by {
        assert(runs[n].0 <= k < runs[n].1);
    }
    if r.0 > 0 && in_token_class(s[r.0 - 1]) {
        let m = choose|m: int|
            0 <= m < runs.len() && (#[trigger] runs[m]).0 <= r.0 - 1 < runs[m].1;
        if m < n {
            assert(runs[m].1 < runs[n].0);
        } else if n < m {
            assert(runs[n].1 < runs[m].0);
        }
    }
    if r.1 < s.len() && in_token_class(s[r.1]) {
        let m = choose|m: int| 0 <= m < runs.len() && (#[trigger] runs[m]).0 <= r.1 < runs[m].1;
        if m < n {
            assert(runs[m].1 < runs[n].0);
        } else if n < m {
            assert(runs[n].1 < runs[m].0);
        }
    }
}

/// A token of the index stands where its run stands, counted in bytes, has the
/// number of the run as its position, and is the run in lower case.
pub proof fn law_index_token(t: Token, s: Seq<char>, i: int)
    requires
        0 <= i < token_runs(s).len(),
        is_index_token(t, s, i),
    ensures
        ({
            let r = token_runs(s)[i];
            &&& t.offset_from == vstd::utf8::encode_utf8(s.take(r.0)).len()
            &&& t.offset_to - t.offset_from == vstd::utf8::encode_utf8(s.subrange(r.0, r.1)).len()
            &&& t.position == i
            &&& t.position_length == 1
            &&& t.text@ == lowercase(s.subrange(r.0, r.1))
        }),
{
    lemma_token_runs(s);
    let r = token_runs(s)[i];
    let (a, b) = (s.take(r.0), s.subrange(r.0, r.1));
    assert(s.take(r.1) =~= a + b);
    crate::text::lemma_utf8_len_add(a, b);
    crate::text::law_utf8_len(a);
    crate::text::law_utf8_len(b);
}

/// Of ASCII only letters change with the case, each into the letter of the
/// other case.
pub proof fn law_ascii_case(c: char)
    ensures
        'A' <= c <= 'Z' ==> ascii_lower(c) as u32 == c as u32 + 32 && ascii_upper(c) == c,
        'a' <= c <= 'z' ==> ascii_upper(c) as u32 + 32 == c as u32 && ascii_lower(c) == c,
        !('A' <= c <= 'Z') && !('a' <= c <= 'z') ==> ascii_lower(c) == c && ascii_upper(c) == c,
        ascii_upper(ascii_lower(c)) == ascii_upper(c),
        ascii_lower(ascii_upper(c)) == ascii_lower(c),
{
}

/// A text of ASCII keeps its length in either case, and each character has the
/// case that is asked for; case does not matter to the case that is asked for.
pub proof fn law_case_of_text(s: Seq<char>)
    requires
        all_ascii(s),
    ensures
        lowercase(s).len() == s.len() == uppercase(s).len(),
        forall|i: int|
            #![trigger lowercase(s)[i]]
            #![trigger uppercase(s)[i]]
            0 <= i < s.len() ==> lowercase(s)[i] == ascii_lower(s[i]) && uppercase(s)[i]
                == ascii_upper(s[i]) && !('A' <= lowercase(s)[i] <= 'Z') && !('a' <= uppercase(
                s,
            )[i] <= 'z'),
        lowercase(uppercase(s)) == lowercase(s),
        lowercase(lowercase(s)) == lowercase(s),
{
    assert forall|i: int| 0 <= i < s.len() implies (#[trigger] uppercase(s)[i] as u32) < 0x80
        && (lowercase(s)[i] as u32) < 0x80 by {
        assert((s[i] as u32) < 0x80);
    }
    assert(all_ascii(uppercase(s)));
    assert(all_ascii(lowercase(s))) by {
        assert forall|i: int| 0 <= i < s.len() implies (#[trigger] lowercase(s)[i] as u32)
            < 0x80 by {
            assert((uppercase(s)[i] as u32) < 0x80);
        }
    }
    assert(lowercase(uppercase(s)) =~= lowercase(s));
    assert(lowercase(lowercase(s)) =~= lowercase(s));
}

} // verus!
