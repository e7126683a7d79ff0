//! Tokens of text with mathematics in LaTeX: besides its words, each construct
//! becomes a token of its own.

use vstd::prelude::*;

use crate::patterns::{
    apart_within, captured_model, captured_models, find_all, group_or_empty, group_text, pattern_matches,
    Captured, Pattern,
};
use crate::text::{
    byte_prefix, chars_of, holds_char, is_boundary, join, joined, law_byte_prefix, law_join,
    law_utf8_len, lemma_filter_none,
    prefix_within, string_of, texts, utf8_len,
};
use crate::tokenizers::{find_tokens, is_run, token_runs, uppercase, Token, TokenVecStream};

verus! {

// ---------------------------------------------------------------------------
// Labels
// ---------------------------------------------------------------------------

/// A construct: its bounds in bytes, and its label.
#[derive(Debug)]
pub struct MathConstruct {
    pub start: usize,
    pub end: usize,
    pub label: String,
}

/// What a construct says.
pub struct ConstructModel {
    pub start: int,
    pub end: int,
    pub label: Seq<char>,
}

/// What a construct says.
pub open spec fn construct_model(c: MathConstruct) -> ConstructModel {
    ConstructModel { start: c.start as int, end: c.end as int, label: c.label@ }
}

/// What constructs say.
pub open spec fn construct_models(v: Seq<MathConstruct>) -> Seq<ConstructModel> {
    v.map_values(|c: MathConstruct| construct_model(c))
}

/// A match of a pattern, as `patterns` gives it.
pub type Found = (int, int, Seq<Option<Seq<char>>>);

/// The label of an operator: its name in upper case, and what it has of
/// limits.
pub open spec fn operator_label(m: Found) -> Seq<char> {
    let name = "MATH_"@ + uppercase(group_or_empty(m.2, 0));
    let sub = group_or_empty(m.2, 1);
    let sup = group_or_empty(m.2, 2);
    if sub.len() > 0 && sup.len() > 0 {
        name + "_LIMITS"@
    } else if sub.len() > 0 {
        name + "_SUB"@
    } else if sup.len() > 0 {
        name + "_SUP"@
    } else {
        name
    }
}

/// The most bytes of a part of a construct that go into its label.
pub const LABEL_BYTES: usize = 8;

/// The beginning of a part of a construct.
pub open spec fn label_part(s: Seq<char>) -> Seq<char> {
    byte_prefix(s, LABEL_BYTES as nat)
}

/// Whether the beginning of a part ends between two characters.
pub open spec fn part_fits(s: Seq<char>) -> bool {
    utf8_len(s) <= LABEL_BYTES || is_boundary(s, LABEL_BYTES as nat)
}

/// The label of a fraction: the beginnings of numerator and denominator.
pub open spec fn fraction_label(m: Found) -> Seq<char> {
    "MATH_FRAC_"@ + label_part(group_or_empty(m.2, 1)) + "_"@ + label_part(group_or_empty(m.2, 2))
}

/// The label of a root: the beginning of the radicand.
pub open spec fn root_label(m: Found) -> Seq<char> {
    "MATH_SQRT_"@ + label_part(group_or_empty(m.2, 2))
}

/// The label of a limit: its name in upper case, and whether something stands
/// below it.
pub open spec fn limit_label(m: Found) -> Seq<char> {
    let name = "MATH_"@ + uppercase(group_or_empty(m.2, 0));
    if group_or_empty(m.2, 1).len() > 0 {
        name + "_LIMITS"@
    } else {
        name
    }
}

/// The kinds of constructs.
#[derive(Clone, Copy, PartialEq, Eq, Structural, Debug)]
pub enum MathKind {
    Operator,
    Fraction,
    Root,
    Limit,
}

/// The construct of a match.
pub open spec fn construct_of(kind: MathKind, m: Found) -> ConstructModel {
    ConstructModel {
        start: m.0,
        end: m.1,
        label: match kind {
            MathKind::Operator => operator_label(m),
            MathKind::Fraction => fraction_label(m),
            MathKind::Root => root_label(m),
            MathKind::Limit => limit_label(m),
        },
    }
}

/// Whether the label of a match can be made without cutting a character.
pub open spec fn match_fits(kind: MathKind, m: Found) -> bool {
    match kind {
        MathKind::Fraction => part_fits(group_or_empty(m.2, 1)) && part_fits(
            group_or_empty(m.2, 2),
        ),
        MathKind::Root => part_fits(group_or_empty(m.2, 2)),
        _ => true,
    }
}

/// Whether the labels of matches can be made without cutting a character.
pub open spec fn matches_fit(kind: MathKind, found: Seq<Found>) -> bool {
    forall|i: int| 0 <= i < found.len() ==> match_fits(kind, #[trigger] found[i])
}

/// The constructs of matches.
pub open spec fn constructs_of(kind: MathKind, found: Seq<Found>) -> Seq<ConstructModel> {
    found.map_values(|m: Found| construct_of(kind, m))
}

/// The beginning of a part, and whether it ends between two characters.
fn part_of(s: &str) -> (r: (String, bool))
    ensures
        r.0@ == label_part(s@),
        r.1 == part_fits(s@),
{
    let v = chars_of(s);
    let (k, n) = prefix_within(&v, 0, v.len(), LABEL_BYTES);
    assert(v@.subrange(0, v@.len() as int) =~= v@);
    (string_of(&v, 0, k), k == v.len() || n == LABEL_BYTES)
}

fn label_of(kind: MathKind, c: &Captured) -> (s: String)
    ensures
        s@ == construct_of(kind, captured_model(*c)).label,
{
    let mut s = String::new();
    match kind {
        MathKind::Operator => {
            let op = group_text(c, 0);
            let sub = group_text(c, 1);
            let sup = group_text(c, 2);
            s.push_str("MATH_");
            let upper = op.as_str().to_uppercase();
            s.push_str(upper.as_str());
            if !sub.as_str().is_empty() && !sup.as_str().is_empty() {
                s.push_str("_LIMITS");
            } else if !sub.as_str().is_empty() {
                s.push_str("_SUB");
            } else if !sup.as_str().is_empty() {
                s.push_str("_SUP");
            }
            assert(s@ =~= operator_label(captured_model(*c)));
        },
        MathKind::Fraction => {
            let num = group_text(c, 1);
            let den = group_text(c, 2);
            s.push_str("MATH_FRAC_");
            let (a, _) = part_of(num.as_str());
            s.push_str(a.as_str());
            s.push_str("_");
            let (b, _) = part_of(den.as_str());
            s.push_str(b.as_str());
            assert(s@ =~= fraction_label(captured_model(*c)));
        },
        MathKind::Root => {
            let radicand = group_text(c, 2);
            s.push_str("MATH_SQRT_");
            let (a, _) = part_of(radicand.as_str());
            s.push_str(a.as_str());
            assert(s@ =~= root_label(captured_model(*c)));
        },
        MathKind::Limit => {
            let op = group_text(c, 0);
            let sub = group_text(c, 1);
            s.push_str("MATH_");
            let upper = op.as_str().to_uppercase();
            s.push_str(upper.as_str());
            if !sub.as_str().is_empty() {
                s.push_str("_LIMITS");
            }
            assert(s@ =~= limit_label(captured_model(*c)));
        },
    }
    s
}

fn add_constructs(list: &mut Vec<MathConstruct>, kind: MathKind, found: &Vec<Captured>)
    ensures
        construct_models(final(list)@) == construct_models(old(list)@) + constructs_of(
            kind,
            captured_models(found@),
        ),
{
    let ghost start = construct_models(list@);
    let ghost goal = constructs_of(kind, captured_models(found@));
    let mut i: usize = 0;
    assert(start + goal.take(0) =~= start);
    while i < found.len()
        invariant
            i <= found@.len(),
            goal == constructs_of(kind, captured_models(found@)),
            construct_models(list@) == start + goal.take(i as int),
        decreases found@.len() - i,
    {
        let ghost before = list@;
        let label = label_of(kind, &found[i]);
        list.push(MathConstruct { start: found[i].start, end: found[i].end, label });
        proof {
            assert(goal[i as int] == construct_of(kind, captured_models(found@)[i as int]));
            assert(captured_models(found@)[i as int] == captured_model(found@[i as int]));
            assert(construct_models(list@) =~= construct_models(before).push(goal[i as int]));
            assert(goal.take(i + 1) =~= goal.take(i as int).push(goal[i as int]));
            assert(start + goal.take(i + 1) =~= (start + goal.take(i as int)).push(
                goal[i as int],
            ));
        }
        i += 1;
    }
    assert(goal.take(i as int) =~= goal);
}

// ---------------------------------------------------------------------------
// Order and overlap
// ---------------------------------------------------------------------------

/// Where a construct goes in a sequence ordered by start: behind all that do
/// not start after it.
pub open spec fn start_place(s: Seq<ConstructModel>, start: int) -> nat
    decreases s.len(),
{
    if s.len() == 0 {
        0
    } else if s.last().start <= start {
        s.len()
    } else {
        start_place(s.drop_last(), start)
    }
}

/// Constructs ordered by start, those with one start in their given order.
pub open spec fn by_start(s: Seq<ConstructModel>) -> Seq<ConstructModel>
    decreases s.len(),
{
    if s.len() == 0 {
        s
    } else {
        let front = by_start(s.drop_last());
        front.insert(start_place(front, s.last().start) as int, s.last())
    }
}

/// Constructs of which each starts at the end of the one before, or later:
/// one that starts inside another is left out.
pub open spec fn outermost(s: Seq<ConstructModel>) -> Seq<ConstructModel>
    decreases s.len(),
{
    if s.len() == 0 {
        s
    } else {
        let front = outermost(s.drop_last());
        if front.len() > 0 && s.last().start < front.last().end {
            front
        } else {
            front.push(s.last())
        }
    }
}

/// The constructs of the matches of the four patterns, ordered by start and
/// without those inside others.
pub open spec fn arranged(
    operators: Seq<Found>,
    fractions: Seq<Found>,
    roots: Seq<Found>,
    limits: Seq<Found>,
) -> Seq<ConstructModel> {
    outermost(
        by_start(
            constructs_of(MathKind::Operator, operators) + constructs_of(
                MathKind::Fraction,
                fractions,
            ) + constructs_of(MathKind::Root, roots) + constructs_of(MathKind::Limit, limits),
        ),
    )
}

fn sort_by_start(list: Vec<MathConstruct>) -> (sorted: Vec<MathConstruct>)
    ensures
        construct_models(sorted@) == by_start(construct_models(list@)),
{
    let ghost given = list@;
    let ghost models = construct_models(given);
    let mut sorted: Vec<MathConstruct> = Vec::new();
    assert(construct_models(sorted@) =~= by_start(models.take(0)));
    for x in it: list
        invariant
            it.seq() == given,
            models == construct_models(given),
            sorted@.len() == it.index(),
            construct_models(sorted@) == by_start(models.take(it.index())),
    {
        let ghost n = it.index();
        let ghost before = construct_models(sorted@);
        let ghost raw = sorted@;
        let mut at: usize = sorted.len();
        assert(before.take(at as int) =~= before);
        while at > 0 && sorted[at - 1].start > x.start
            invariant
                at <= sorted@.len(),
                before == construct_models(sorted@),
                start_place(before, x.start as int) == start_place(
                    before.take(at as int),
                    x.start as int,
                ),
            decreases at,
        {
            assert(before.take(at as int).last() == construct_model(sorted@[at - 1]));
            assert(before.take(at as int).drop_last() =~= before.take(at - 1));
            at -= 1;
        }
        proof {
            if at > 0 {
                assert(before.take(at as int).last() == construct_model(sorted@[at - 1]));
            }
            assert(start_place(before, x.start as int) == at);
        }
        sorted.insert(at, x);
        proof {
            assert(sorted@ == raw.insert(at as int, x));
            assert(construct_models(sorted@) =~= before.insert(at as int, construct_model(x)));
            assert(models.take(n + 1).drop_last() =~= models.take(n));
            assert(models.take(n + 1).last() == construct_model(x));
        }
    }
    assert(models.take(models.len() as int) =~= models);
    sorted
}

fn keep_outermost(list: Vec<MathConstruct>) -> (kept: Vec<MathConstruct>)
    ensures
        construct_models(kept@) == outermost(construct_models(list@)),
{
    let ghost given = list@;
    let ghost models = construct_models(given);
    let mut kept: Vec<MathConstruct> = Vec::new();
    assert(construct_models(kept@) =~= outermost(models.take(0)));
    for x in it: list
        invariant
            it.seq() == given,
            models == construct_models(given),
            construct_models(kept@) == outermost(models.take(it.index())),
    {
        let ghost n = it.index();
        let ghost before = kept@;
        proof {
            assert(models.take(n + 1).drop_last() =~= models.take(n));
            assert(models.take(n + 1).last() == construct_model(x));
            if kept@.len() > 0 {
                assert(construct_models(kept@).last() == construct_model(kept@.last()));
            }
        }
        if kept.len() == 0 || x.start >= kept[kept.len() - 1].end {
            kept.push(x);
            assert(construct_models(kept@) =~= construct_models(before).push(construct_model(x)));
        }
    }
    assert(models.take(models.len() as int) =~= models);
    kept
}

/// Arranges the constructs of the matches of the four patterns.
pub fn arrange_constructs(
    operators: &Vec<Captured>,
    fractions: &Vec<Captured>,
    roots: &Vec<Captured>,
    limits: &Vec<Captured>,
) -> (r: Vec<MathConstruct>)
    requires
        matches_fit(MathKind::Fraction, captured_models(fractions@)),
        matches_fit(MathKind::Root, captured_models(roots@)),
    ensures
        construct_models(r@) == arranged(
            captured_models(operators@),
            captured_models(fractions@),
            captured_models(roots@),
            captured_models(limits@),
        ),
{
    let mut list: Vec<MathConstruct> = Vec::new();
    assert(construct_models(list@) =~= Seq::empty());
    add_constructs(&mut list, MathKind::Operator, operators);
    assert(construct_models(list@) =~= constructs_of(
        MathKind::Operator,
        captured_models(operators@),
    ));
    add_constructs(&mut list, MathKind::Fraction, fractions);
    add_constructs(&mut list, MathKind::Root, roots);
    add_constructs(&mut list, MathKind::Limit, limits);
    keep_outermost(sort_by_start(list))
}

/// The constructs in a text.
pub open spec fn text_constructs(text: Seq<char>) -> Seq<ConstructModel> {
    arranged(
        pattern_matches(Pattern::Operator, text),
        pattern_matches(Pattern::Fraction, text),
        pattern_matches(Pattern::Root, text),
        pattern_matches(Pattern::Limit, text),
    )
}

/// Whether the labels of the constructs in a text can be made without cutting
/// a character.
pub open spec fn text_fits(text: Seq<char>) -> bool {
    matches_fit(MathKind::Fraction, pattern_matches(Pattern::Fraction, text)) && matches_fit(
        MathKind::Root,
        pattern_matches(Pattern::Root, text),
    )
}

/// Finds the constructs in a text: they lie in it, and none overlaps another.
pub fn find_math_constructs(text: &str) -> (r: Vec<MathConstruct>)
    requires
        text_fits(text@),
    ensures
        construct_models(r@) == text_constructs(text@),
        lie_within(construct_models(r@), utf8_len(text@)),
        are_apart(construct_models(r@)),
{
    let operators = find_all(Pattern::Operator, text);
    let fractions = find_all(Pattern::Fraction, text);
    let roots = find_all(Pattern::Root, text);
    let limits = find_all(Pattern::Limit, text);
    proof {
        let n = utf8_len(text@);
        let a = constructs_of(MathKind::Operator, captured_models(operators@));
        let b = constructs_of(MathKind::Fraction, captured_models(fractions@));
        let c = constructs_of(MathKind::Root, captured_models(roots@));
        let d = constructs_of(MathKind::Limit, captured_models(limits@));
        lemma_constructs_within(MathKind::Operator, captured_models(operators@), n);
        lemma_constructs_within(MathKind::Fraction, captured_models(fractions@), n);
        lemma_constructs_within(MathKind::Root, captured_models(roots@), n);
        lemma_constructs_within(MathKind::Limit, captured_models(limits@), n);
        assert(lie_within(a + b + c + d, n));
        lemma_by_start_within(a + b + c + d, n);
        lemma_outermost_within(by_start(a + b + c + d), n);
    }
    arrange_constructs(&operators, &fractions, &roots, &limits)
}

/// Whether constructs lie in a text of `n` bytes.
pub open spec fn lie_within(s: Seq<ConstructModel>, n: nat) -> bool {
    forall|i: int| 0 <= i < s.len() ==> 0 <= (#[trigger] s[i]).start <= s[i].end <= n
}

/// Whether constructs follow each other without overlap.
pub open spec fn are_apart(s: Seq<ConstructModel>) -> bool {
    forall|i: int, j: int| 0 <= i < j < s.len() ==> (#[trigger] s[i]).end <= (#[trigger] s[j]).start
}

proof fn lemma_constructs_within(kind: MathKind, found: Seq<Found>, n: nat)
    requires
        apart_within(found, n),
    ensures
        lie_within(constructs_of(kind, found), n),
{
    let s = constructs_of(kind, found);
    assert forall|i: int| 0 <= i < s.len() implies 0 <= (#[trigger] s[i]).start <= s[i].end
        <= n by {
        assert(s[i] == construct_of(kind, found[i]));
    }
}

proof fn lemma_by_start_within(s: Seq<ConstructModel>, n: nat)
    requires
        lie_within(s, n),
    ensures
        lie_within(by_start(s), n),
    decreases s.len(),
{
    if s.len() > 0 {
        let d = s.drop_last();
        assert forall|i: int| 0 <= i < d.len() implies 0 <= (#[trigger] d[i]).start <= d[i].end
            <= n by {
            assert(d[i] == s[i]);
        }
        lemma_by_start_within(d, n);
        law_by_start(d);
        let front = by_start(d);
        lemma_start_place(front, s.last().start);
        let at = start_place(front, s.last().start) as int;
        let r = by_start(s);
        assert(s[s.len() - 1] == s.last());
        assert forall|i: int| 0 <= i < r.len() implies 0 <= (#[trigger] r[i]).start <= r[i].end
            <= n by {
            if i < at {
                assert(r[i] == front[i]);
            } else if i > at {
                assert(r[i] == front[i - 1]);
            }
        }
    }
}

proof fn lemma_outermost_within(s: Seq<ConstructModel>, n: nat)
    requires
        lie_within(s, n),
    ensures
        lie_within(outermost(s), n),
        are_apart(outermost(s)),
    decreases s.len(),
{
    if s.len() > 0 {
        let d = s.drop_last();
        assert forall|i: int| 0 <= i < d.len() implies 0 <= (#[trigger] d[i]).start <= d[i].end
            <= n by {
            assert(d[i] == s[i]);
        }
        lemma_outermost_within(d, n);
        let f = outermost(d);
        let r = outermost(s);
        assert(s[s.len() - 1] == s.last());
        if r != f {
            assert forall|i: int, j: int| 0 <= i < j < r.len() implies (#[trigger] r[i]).end <= (
            #[trigger] r[j]).start by {
                assert(r[i] == f[i]);
                if j < f.len() {
                    assert(r[j] == f[j]);
                } else if i < f.len() - 1 {
                    assert(f[i].end <= f[f.len() - 1].start);
                }
            }
        }
    }
}

fn all_fit(kind: MathKind, found: &Vec<Captured>) -> (b: bool)
    ensures
        b == matches_fit(kind, captured_models(found@)),
{
    let mut i: usize = 0;
    assert(captured_models(found@).len() == found@.len());
    while i < found.len()
        invariant
            i <= found@.len(),
            captured_models(found@).len() == found@.len(),
            forall|k: int| 0 <= k < i ==> match_fits(kind, #[trigger] captured_models(found@)[k]),
        decreases found@.len() - i,
    {
        assert(captured_models(found@)[i as int] == captured_model(found@[i as int]));
        let fits = match kind {
            MathKind::Fraction => {
                let num = group_text(&found[i], 1);
                let den = group_text(&found[i], 2);
                let (_, a) = part_of(num.as_str());
                let (_, b) = part_of(den.as_str());
                a && b
            },
            MathKind::Root => {
                let radicand = group_text(&found[i], 2);
                let (_, a) = part_of(radicand.as_str());
                a
            },
            _ => true,
        };
        assert(fits == match_fits(kind, captured_models(found@)[i as int]));
        if !fits {
            return false;
        }
        i += 1;
    }
    true
}

/// Whether the labels of the constructs in a text can be made without cutting
/// a character.
pub fn labels_fit(text: &str) -> (b: bool)
    ensures
        b == text_fits(text@),
{
    let fractions = find_all(Pattern::Fraction, text);
    let roots = find_all(Pattern::Root, text);
    all_fit(MathKind::Fraction, &fractions) && all_fit(MathKind::Root, &roots)
}

// ---------------------------------------------------------------------------
// Tokens
// ---------------------------------------------------------------------------

/// What a token says.
pub struct TokenModel {
    pub from: int,
    pub to: int,
    pub position: int,
    pub length: int,
    pub text: Seq<char>,
}

/// What a token says.
pub open spec fn token_model(t: Token) -> TokenModel {
    TokenModel {
        from: t.offset_from as int,
        to: t.offset_to as int,
        position: t.position as int,
        length: t.position_length as int,
        text: t.text@,
    }
}

/// What tokens say.
pub open spec fn token_models(v: Seq<Token>) -> Seq<TokenModel> {
    v.map_values(|t: Token| token_model(t))
}

/// The index of the first token that does not start before `start`.
pub open spec fn first_from(tokens: Seq<TokenModel>, start: int) -> nat
    decreases tokens.len(),
{
    if tokens.len() == 0 || tokens[0].from >= start {
        0
    } else {
        1 + first_from(tokens.drop_first(), start)
    }
}

/// How many tokens at the front do not end after `end`.
pub open spec fn run_within(tokens: Seq<TokenModel>, end: int) -> nat
    decreases tokens.len(),
{
    if tokens.len() == 0 || tokens[0].to > end {
        0
    } else {
        1 + run_within(tokens.drop_first(), end)
    }
}

/// The token of a construct behind other tokens: it spans as many places as
/// there are tokens within it from the first one that does not start before
/// it, and at least one.
pub open spec fn composed(tokens: Seq<TokenModel>, c: ConstructModel) -> TokenModel {
    let first = first_from(tokens, c.start);
    let covered = run_within(tokens.skip(first as int), c.end) as int;
    TokenModel {
        from: c.start,
        to: c.end,
        position: tokens.len() as int,
        length: if covered < 1 {
            1
        } else {
            covered
        },
        text: c.label,
    }
}

/// Tokens with those of constructs behind them.
pub open spec fn with_constructs(
    tokens: Seq<TokenModel>,
    constructs: Seq<ConstructModel>,
) -> Seq<TokenModel>
    decreases constructs.len(),
{
    if constructs.len() == 0 {
        tokens
    } else {
        let front = with_constructs(tokens, constructs.drop_last());
        front.push(composed(front, constructs.last()))
    }
}

/// The words of a text as tokens.
pub open spec fn word_tokens(s: Seq<char>) -> Seq<TokenModel> {
    Seq::new(
        token_runs(s).len(),
        |i: int|
            TokenModel {
                from: utf8_len(s.take(token_runs(s)[i].0)) as int,
                to: utf8_len(s.take(token_runs(s)[i].1)) as int,
                position: i,
                length: 1,
                text: s.subrange(token_runs(s)[i].0, token_runs(s)[i].1),
            },
    )
}

/// The tokens of a text: its words, then its constructs.
pub open spec fn math_tokens(s: Seq<char>) -> Seq<TokenModel> {
    with_constructs(word_tokens(s), text_constructs(s))
}

fn compose_token(tokens: &Vec<Token>, c: &MathConstruct) -> (t: Token)
    ensures
        token_model(t) == composed(token_models(tokens@), construct_model(*c)),
{
    let ghost models = token_models(tokens@);
    let n = tokens.len();
    let mut first: usize = 0;
    assert(models.skip(0) =~= models);
    while first < n && tokens[first].offset_from < c.start
        invariant
            first <= n == tokens@.len(),
            models == token_models(tokens@),
            first_from(models, c.start as int) == first + first_from(
                models.skip(first as int),
                c.start as int,
            ),
        decreases n - first,
    {
        assert(models.skip(first as int)[0] == token_model(tokens@[first as int]));
        assert(models.skip(first as int).drop_first() =~= models.skip(first + 1));
        first += 1;
    }
    proof {
        if first < n {
            assert(models.skip(first as int)[0] == token_model(tokens@[first as int]));
        }
        assert(first_from(models, c.start as int) == first);
    }
    let mut count: usize = 0;
    let ghost rest = models.skip(first as int);
    assert(rest.skip(0) =~= rest);
    while count < n - first && tokens[first + count].offset_to <= c.end
        invariant
            first <= n == tokens@.len(),
            count <= n - first,
            models == token_models(tokens@),
            rest == models.skip(first as int),
            run_within(rest, c.end as int) == count + run_within(
                rest.skip(count as int),
                c.end as int,
            ),
        decreases n - first - count,
    {
        assert(rest.skip(count as int)[0] == token_model(tokens@[first + count]));
        assert(rest.skip(count as int).drop_first() =~= rest.skip(count + 1));
        count += 1;
    }
    proof {
        if count < n - first {
            assert(rest.skip(count as int)[0] == token_model(tokens@[first + count]));
        }
        assert(run_within(rest, c.end as int) == count);
    }
    let length = if count < 1 {
        1
    } else {
        count
    };
    Token {
        offset_from: c.start,
        offset_to: c.end,
        position: n,
        text: c.label.clone(),
        position_length: length,
    }
}

/// Puts the tokens of constructs behind other tokens.
pub fn append_constructs(tokens: Vec<Token>, constructs: &Vec<MathConstruct>) -> (r: Vec<Token>)
    ensures
        token_models(r@) == with_constructs(token_models(tokens@), construct_models(constructs@)),
{
    let ghost start = token_models(tokens@);
    let ghost all = construct_models(constructs@);
    let mut r = tokens;
    let mut i: usize = 0;
    assert(all.take(0) =~= Seq::empty());
    while i < constructs.len()
        invariant
            i <= constructs@.len(),
            all == construct_models(constructs@),
            token_models(r@) == with_constructs(start, all.take(i as int)),
        decreases constructs@.len() - i,
    {
        let ghost before = r@;
        let t = compose_token(&r, &constructs[i]);
        r.push(t);
        proof {
            assert(token_models(r@) =~= token_models(before).push(token_model(t)));
            assert(all.take(i + 1).drop_last() =~= all.take(i as int));
            assert(all.take(i + 1).last() == construct_model(constructs@[i as int]));
        }
        i += 1;
    }
    assert(all.take(i as int) =~= all);
    r
}

/// Cuts text into words, and adds a token for each construct of LaTeX in it.
#[derive(Clone, Copy)]
pub struct MathAwareTokenizer;

impl MathAwareTokenizer {
    /// The tokens of a text.
    pub fn token_stream(&self, text: &str) -> (stream: TokenVecStream)
        requires
            text_fits(text@),
        ensures
            stream.wf(),
            stream.reached() == 0,
            token_models(stream.tokens()) == math_tokens(text@),
    {
        let words = find_tokens(text);
        proof {
            assert forall|i: int| 0 <= i < words@.len() implies token_models(words@)[i]
                == word_tokens(text@)[i] by {
                assert(is_run(words@[i], text@, i));
            }
            assert(token_models(words@) =~= word_tokens(text@));
        }
        let constructs = find_math_constructs(text);
        TokenVecStream::new(append_constructs(words, &constructs))
    }

    /// The tokens of a text, unless a label would have to be cut inside a
    /// character.
    pub fn try_token_stream(&self, text: &str) -> (r: Option<TokenVecStream>)
        ensures
            match r {
                Some(stream) => {
                    &&& text_fits(text@)
                    &&& stream.wf()
                    &&& stream.reached() == 0
                    &&& token_models(stream.tokens()) == math_tokens(text@)
                },
                None => !text_fits(text@),
            },
    {
        if labels_fit(text) {
            Some(self.token_stream(text))
        } else {
            None
        }
    }
}

/// The words of a text come first, as they are without constructs; behind them
/// stands one token for each construct; and each token has the place at which
/// it stands.
pub proof fn law_math_tokens(s: Seq<char>)
    ensures
        math_tokens(s).len() == token_runs(s).len() + text_constructs(s).len(),
        math_tokens(s).take(token_runs(s).len() as int) == word_tokens(s),
        forall|i: int| 0 <= i < math_tokens(s).len() ==> (#[trigger] math_tokens(s)[i]).position == i,
        forall|i: int|
            0 <= i < text_constructs(s).len() ==> (#[trigger] math_tokens(s)[token_runs(s).len()
                + i]).text == text_constructs(s)[i].label,
{
    lemma_with_constructs(word_tokens(s), text_constructs(s));
}

proof fn lemma_with_constructs(tokens: Seq<TokenModel>, cs: Seq<ConstructModel>)
    requires
        forall|i: int| 0 <= i < tokens.len() ==> (#[trigger] tokens[i]).position == i,
    ensures
        with_constructs(tokens, cs).len() == tokens.len() + cs.len(),
        with_constructs(tokens, cs).take(tokens.len() as int) == tokens,
        forall|i: int|
            0 <= i < tokens.len() + cs.len() ==> (#[trigger] with_constructs(
                tokens,
                cs,
            )[i]).position == i,
        forall|i: int|
            0 <= i < cs.len() ==> (#[trigger] with_constructs(tokens, cs)[tokens.len() + i]).text
                == cs[i].label,
    decreases cs.len(),
{
    if cs.len() == 0 {
        assert(tokens.take(tokens.len() as int) =~= tokens);
    } else {
        let d = cs.drop_last();
        lemma_with_constructs(tokens, d);
        let f = with_constructs(tokens, d);
        let r = with_constructs(tokens, cs);
        assert(r.take(tokens.len() as int) =~= f.take(tokens.len() as int));
        assert forall|i: int| 0 <= i < cs.len() implies (#[trigger] r[tokens.len() + i]).text
            == cs[i].label by {
            if i < d.len() {
                assert(r[tokens.len() + i] == f[tokens.len() + i]);
            }
        }
    }
}

/// Constructs that are kept do not overlap: each starts at the end of the one
/// before, or later.
pub proof fn law_constructs_apart(s: Seq<ConstructModel>)
    ensures
        forall|i: int|
            0 < i < outermost(s).len() ==> outermost(s)[i - 1].end <= (#[trigger] outermost(
                s,
            )[i]).start,
    decreases s.len(),
{
    if s.len() > 0 {
        law_constructs_apart(s.drop_last());
        let f = outermost(s.drop_last());
        let r = outermost(s);
        assert forall|i: int| 0 < i < r.len() implies r[i - 1].end <= (#[trigger] r[i]).start by {
            if i < f.len() {
                assert(r[i] == f[i]);
                assert(r[i - 1] == f[i - 1]);
            } else {
                assert(r[i - 1] == f.last());
            }
        }
    }
}

/// Whether constructs are ordered by start.
pub open spec fn in_order(s: Seq<ConstructModel>) -> bool {
    forall|i: int, j: int| 0 <= i <= j < s.len() ==> (#[trigger] s[i]).start <= (#[trigger] s[j]).start
}

proof fn lemma_start_place(s: Seq<ConstructModel>, start: int)
    requires
        in_order(s),
    ensures
        start_place(s, start) <= s.len(),
        forall|i: int| 0 <= i < start_place(s, start) ==> (#[trigger] s[i]).start <= start,
        forall|i: int| start_place(s, start) <= i < s.len() ==> (#[trigger] s[i]).start > start,
    decreases s.len(),
{
    if s.len() > 0 && s.last().start > start {
        let d = s.drop_last();
        assert(forall|i: int| 0 <= i < d.len() ==> (#[trigger] d[i]) == s[i]);
        lemma_start_place(d, start);
        assert forall|i: int| start_place(s, start) <= i < s.len() implies (#[trigger] s[i]).start
            > start by {
            if i < d.len() {
                assert(d[i].start > start);
            }
        }
        assert forall|i: int| 0 <= i < start_place(s, start) implies (#[trigger] s[i]).start
            <= start by {
            assert(d[i].start <= start);
        }
    } else if s.len() > 0 {
        assert forall|i: int| 0 <= i < s.len() implies (#[trigger] s[i]).start <= start by {
            assert(s[i].start <= s[s.len() - 1].start);
        }
    }
}

/// Ordering constructs by start orders them, and neither loses one nor makes
/// one up.
pub proof fn law_by_start(s: Seq<ConstructModel>)
    ensures
        in_order(by_start(s)),
        by_start(s).to_multiset() == s.to_multiset(),
    decreases s.len(),
{
    broadcast use vstd::seq_lib::group_to_multiset_ensures;

    if s.len() > 0 {
        let d = s.drop_last();
        law_by_start(d);
        let f = by_start(d);
        let at = start_place(f, s.last().start) as int;
        lemma_start_place(f, s.last().start);
        let r = by_start(s);
        assert forall|i: int, j: int| 0 <= i <= j < r.len() implies (#[trigger] r[i]).start <= (
        #[trigger] r[j]).start by {
            let a = if i < at {
                i
            } else {
                i - 1
            };
            let b = if j < at {
                j
            } else {
                j - 1
            };
            if i != at && j != at {
                assert(r[i] == f[a] && r[j] == f[b]);
                assert(f[a].start <= f[b].start);
            } else if i != at {
                assert(r[i] == f[a]);
            } else if j != at {
                assert(r[j] == f[b]);
            }
        }
        assert(d.push(s.last()) =~= s);
    }
}

/// A construct that is left out starts inside one that is kept.
pub proof fn law_left_out_inside(s: Seq<ConstructModel>, i: int)
    requires
        in_order(s),
        0 <= i < s.len(),
    ensures
        exists|k: int|
            0 <= k < outermost(s).len() && ((#[trigger] outermost(s)[k]) == s[i] || outermost(
                s,
            )[k].start <= s[i].start < outermost(s)[k].end),
    decreases s.len(),
{
    let d = s.drop_last();
    let f = outermost(d);
    let r = outermost(s);
    assert(forall|k: int| 0 <= k < d.len() ==> (#[trigger] d[k]) == s[k]);
    if i < d.len() {
        law_left_out_inside(d, i);
        let k = choose|k: int|
            0 <= k < f.len() && ((#[trigger] f[k]) == d[i] || f[k].start <= d[i].start < f[k].end);
        assert(r[k] == f[k]);
    } else if f.len() > 0 && s.last().start < f.last().end {
        lemma_outermost_from(d, f.len() - 1);
        let k = choose|k: int| 0 <= k < d.len() && #[trigger] d[k] == f.last();
        assert(s[k].start <= s[i].start);
        assert(r[f.len() - 1] == f.last());
    } else {
        assert(r[r.len() - 1] == s[i]);
    }
}

proof fn lemma_outermost_from(s: Seq<ConstructModel>, k: int)
    requires
        0 <= k < outermost(s).len(),
    ensures
        exists|i: int| 0 <= i < s.len() && #[trigger] s[i] == outermost(s)[k],
    decreases s.len(),
{
    if s.len() > 0 {
        let d = s.drop_last();
        let f = outermost(d);
        if k < f.len() {
            lemma_outermost_from(d, k);
            let i = choose|i: int| 0 <= i < d.len() && #[trigger] d[i] == f[k];
            assert(s[i] == d[i]);
        } else {
            assert(s[s.len() - 1] == outermost(s)[k]);
        }
    }
}

// ---------------------------------------------------------------------------
// Sources
// ---------------------------------------------------------------------------

/// What stands between the delimiters of a match.
pub open spec fn delimited(m: Found) -> Option<Seq<char>> {
    if m.2.len() > 0 && m.2[0] is Some {
        m.2[0]
    } else if m.2.len() > 1 {
        m.2[1]
    } else {
        None
    }
}

/// The parts of matches, each with a mark before it.
pub open spec fn marked(mark: Seq<char>, found: Seq<Found>) -> Seq<Seq<char>>
    decreases found.len(),
{
    if found.len() == 0 {
        Seq::empty()
    } else {
        match delimited(found.last()) {
            Some(t) => marked(mark, found.drop_last()).push(mark + t),
            None => marked(mark, found.drop_last()),
        }
    }
}

/// The mathematics of a text from its matches: first what is set apart, then
/// what stands in lines.
pub open spec fn source_of(display: Seq<Found>, inline: Seq<Found>) -> Option<Seq<char>> {
    let parts = marked("display:"@, display) + marked("inline:"@, inline);
    if parts.len() == 0 {
        None
    } else {
        Some(join(parts, " | "@))
    }
}

/// The mathematics of a text. A text without dollars and backslashes has none.
pub open spec fn math_source(text: Seq<char>) -> Option<Seq<char>> {
    if !text.contains('$') && !text.contains('\\') {
        None
    } else {
        source_of(
            pattern_matches(Pattern::Display, text),
            pattern_matches(Pattern::Inline, text),
        )
    }
}

fn delimited_text(c: &Captured) -> (r: Option<String>)
    ensures
        crate::patterns::opt_text(r) == delimited(captured_model(*c)),
{
    let ghost groups = captured_model(*c).2;
    assert(groups.len() == c.groups@.len());
    if c.groups.len() > 0 {
        assert(groups[0] == crate::patterns::opt_text(c.groups@[0]));
        if let Some(s) = &c.groups[0] {
            return Some(s.clone());
        }
    }
    if c.groups.len() > 1 {
        assert(groups[1] == crate::patterns::opt_text(c.groups@[1]));
        if let Some(s) = &c.groups[1] {
            return Some(s.clone());
        }
    }
    None
}

fn add_marked(parts: &mut Vec<String>, mark: &str, found: &Vec<Captured>)
    ensures
        texts(final(parts)@) == texts(old(parts)@) + marked(mark@, captured_models(found@)),
{
    let ghost start = texts(parts@);
    let ghost all = captured_models(found@);
    let mut i: usize = 0;
    assert(all.take(0) =~= Seq::empty());
    assert(start + marked(mark@, all.take(0)) =~= start);
    while i < found.len()
        invariant
            i <= found@.len(),
            all == captured_models(found@),
            texts(parts@) == start + marked(mark@, all.take(i as int)),
        decreases found@.len() - i,
    {
        let ghost before = parts@;
        proof {
            assert(all.take(i + 1).drop_last() =~= all.take(i as int));
            assert(all.take(i + 1).last() == captured_model(found@[i as int]));
        }
        if let Some(t) = delimited_text(&found[i]) {
            let mut part = String::new();
            part.push_str(mark);
            part.push_str(t.as_str());
            proof {
                assert(part@ =~= mark@ + t@);
            }
            parts.push(part);
            proof {
                assert(texts(parts@) =~= texts(before).push(mark@ + t@));
                assert(start + marked(mark@, all.take(i + 1)) =~= (start + marked(
                    mark@,
                    all.take(i as int),
                )).push(mark@ + t@));
            }
        }
        i += 1;
    }
    assert(all.take(i as int) =~= all);
}

/// The mathematics of a text from its matches.
pub fn source_from(display: &Vec<Captured>, inline: &Vec<Captured>) -> (r: Option<String>)
    ensures
        crate::patterns::opt_text(r) == source_of(
            captured_models(display@),
            captured_models(inline@),
        ),
{
    let mut parts: Vec<String> = Vec::new();
    assert(texts(parts@) =~= Seq::empty());
    add_marked(&mut parts, "display:", display);
    assert(texts(parts@) =~= marked("display:"@, captured_models(display@)));
    add_marked(&mut parts, "inline:", inline);
    assert(texts(parts@).len() == parts@.len());
    if parts.len() == 0 {
        None
    } else {
        Some(joined(&parts, " | "))
    }
}

/// Finds the mathematics of a text by its delimiters.
pub fn extract_math_source(text: &str) -> (r: Option<String>)
    ensures
        crate::patterns::opt_text(r) == math_source(text@),
{
    let v = chars_of(text);
    assert(v@.subrange(0, v@.len() as int) =~= v@);
    if !holds_char(&v, 0, v.len(), '$') && !holds_char(&v, 0, v.len(), '\\') {
        return None;
    }
    let display = find_all(Pattern::Display, text);
    let inline = find_all(Pattern::Inline, text);
    source_from(&display, &inline)
}

// ---------------------------------------------------------------------------
// What a label tells
// ---------------------------------------------------------------------------

/// Whether `part` is what a label has of a text: the text itself where it has
/// at most eight bytes, and of a longer one the longest beginning of at most
/// eight bytes.
pub open spec fn is_label_part(part: Seq<char>, text: Seq<char>) -> bool {
    let n = part.len() as int;
    if vstd::utf8::encode_utf8(text).len() <= 8 {
        part == text
    } else {
        &&& n < text.len()
        &&& part == text.take(n)
        &&& vstd::utf8::encode_utf8(part).len() <= 8
        &&& vstd::utf8::encode_utf8(text.take(n + 1)).len() > 8
    }
}

/// A group of a match that took part, or nothing.
pub open spec fn group_given(m: Found, i: int) -> Seq<char> {
    if 0 <= i < m.2.len() && m.2[i] is Some {
        m.2[i]->0
    } else {
        Seq::empty()
    }
}

/// A numerator, denominator or radicand of at most eight bytes stands in the
/// label in full, and of a longer one as much of its beginning as eight bytes
/// hold: the label of a fraction is `MATH_FRAC_`, that part of the numerator,
/// `_` and that part of the denominator, and the label of a root is
/// `MATH_SQRT_` and that part of the radicand.
pub proof fn law_parts_in_labels(m: Found)
    ensures
        exists|num: Seq<char>, den: Seq<char>|
            #![trigger is_label_part(num, group_given(m, 1)), is_label_part(den, group_given(m, 2))]
            is_label_part(num, group_given(m, 1)) && is_label_part(den, group_given(m, 2))
                && construct_of(MathKind::Fraction, m).label == "MATH_FRAC_"@ + num + "_"@ + den,
        exists|part: Seq<char>|
            #![trigger is_label_part(part, group_given(m, 2))]
            is_label_part(part, group_given(m, 2)) && construct_of(MathKind::Root, m).label
                == "MATH_SQRT_"@ + part,
{
    law_byte_prefix(group_given(m, 1), LABEL_BYTES as nat);
    law_byte_prefix(group_given(m, 2), LABEL_BYTES as nat);
    let num = label_part(group_given(m, 1));
    let den = label_part(group_given(m, 2));
    assert(is_label_part(num, group_given(m, 1)));
    assert(is_label_part(den, group_given(m, 2)));
    assert(construct_of(MathKind::Fraction, m).label == "MATH_FRAC_"@ + num + "_"@ + den);
    assert(construct_of(MathKind::Root, m).label == "MATH_SQRT_"@ + den);
}

/// A label is made without cutting a character exactly where each part that
/// goes into it has at most eight bytes, or some beginning of it has eight.
pub proof fn law_parts_that_fit(s: Seq<char>)
    ensures
        part_fits(s) <==> vstd::utf8::encode_utf8(s).len() <= 8 || exists|k: int|
            0 <= k <= s.len() && vstd::utf8::encode_utf8(#[trigger] s.take(k)).len() == 8,
{
    law_utf8_len(s);
    assert forall|k: int| 0 <= k <= s.len() implies utf8_len(#[trigger] s.take(k)) == vstd::utf8::encode_utf8(
        s.take(k),
    ).len() by {
        law_utf8_len(s.take(k));
    }
}

/// The labels of operators and limits are `MATH_` and their names in capitals;
/// behind it stands what they have of limits: `_LIMITS` for an operator with
/// both and for a limit with something below it, `_SUB` and `_SUP` for an
/// operator with one of them. All constructs have the bounds of their match.
pub proof fn law_names_in_labels(m: Found, kind: MathKind)
    ensures
        construct_of(kind, m).start == m.0,
        construct_of(kind, m).end == m.1,
        ({
            let below = group_given(m, 1) != Seq::<char>::empty();
            let above = group_given(m, 2) != Seq::<char>::empty();
            let name = "MATH_"@ + uppercase(group_given(m, 0));
            &&& construct_of(MathKind::Operator, m).label == name + match (below, above) {
                (true, true) => "_LIMITS"@,
                (true, false) => "_SUB"@,
                (false, true) => "_SUP"@,
                (false, false) => Seq::empty(),
            }
            &&& construct_of(MathKind::Limit, m).label == name + if below {
                "_LIMITS"@
            } else {
                Seq::empty()
            }
        }),
{
    let name = "MATH_"@ + uppercase(group_given(m, 0));
    assert(name + Seq::<char>::empty() =~= name);
    let (a, b) = (group_given(m, 1), group_given(m, 2));
    assert(a.len() == 0 ==> a =~= Seq::empty());
    assert(b.len() == 0 ==> b =~= Seq::empty());
}

// ---------------------------------------------------------------------------
// Which constructs become tokens, and where
// ---------------------------------------------------------------------------

/// Constructs that start at one place keep their given order.
pub proof fn law_by_start_stable(s: Seq<ConstructModel>, start: int)
    ensures
        by_start(s).filter(|c: ConstructModel| c.start == start) == s.filter(
            |c: ConstructModel| c.start == start,
        ),
    decreases s.len(),
{
    let same = |c: ConstructModel| c.start == start;
    if s.len() > 0 {
        let d = s.drop_last();
        law_by_start(d);
        law_by_start_stable(d, start);
        let front = by_start(d);
        let x = s.last();
        lemma_start_place(front, x.start);
        let at = start_place(front, x.start) as int;
        let a = front.take(at);
        let b = front.skip(at);
        assert(front =~= a + b);
        assert(front.insert(at, x) =~= a.push(x) + b);
        Seq::filter_distributes_over_add(a, b, same);
        Seq::filter_distributes_over_add(a.push(x), b, same);
        assert(a.push(x).drop_last() =~= a);
        reveal(Seq::filter);
        if same(x) {
            assert forall|i: int| 0 <= i < b.len() implies !same(#[trigger] b[i]) by {
                assert(b[i] == front[at + i]);
            }
            lemma_filter_none(b, same);
            assert((a.filter(same) + b.filter(same)).push(x) =~= a.filter(same).push(x) + b.filter(
                same,
            ));
        }
    }
}

/// Each match of the four patterns is a construct of the text, unless it
/// starts inside another that is; and each construct is such a match.
pub proof fn law_matches_are_constructs(
    operators: Seq<Found>,
    fractions: Seq<Found>,
    roots: Seq<Found>,
    limits: Seq<Found>,
    kind: MathKind,
    i: int,
)
    requires
        0 <= i < (match kind {
            MathKind::Operator => operators,
            MathKind::Fraction => fractions,
            MathKind::Root => roots,
            MathKind::Limit => limits,
        }).len(),
    ensures
        ({
            let found = match kind {
                MathKind::Operator => operators,
                MathKind::Fraction => fractions,
                MathKind::Root => roots,
                MathKind::Limit => limits,
            };
            let all = arranged(operators, fractions, roots, limits);
            exists|k: int|
                0 <= k < all.len() && (#[trigger] all[k] == construct_of(kind, found[i])
                    || all[k].start <= found[i].0 < all[k].end)
        }),
{
    broadcast use vstd::seq_lib::group_to_multiset_ensures;

    let found = match kind {
        MathKind::Operator => operators,
        MathKind::Fraction => fractions,
        MathKind::Root => roots,
        MathKind::Limit => limits,
    };
    let (a, b, c, d) = (
        constructs_of(MathKind::Operator, operators),
        constructs_of(MathKind::Fraction, fractions),
        constructs_of(MathKind::Root, roots),
        constructs_of(MathKind::Limit, limits),
    );
    let pool = a + b + c + d;
    let x = construct_of(kind, found[i]);
    let at = match kind {
        MathKind::Operator => i,
        MathKind::Fraction => a.len() + i,
        MathKind::Root => a.len() + b.len() + i,
        MathKind::Limit => a.len() + b.len() + c.len() + i,
    };
    assert(pool[at] == x);
    assert(pool.contains(x));
    law_by_start(pool);
    let s = by_start(pool);
    assert(pool.to_multiset().count(x) > 0);
    assert(s.contains(x));
    let k = choose|k: int| 0 <= k < s.len() && s[k] == x;
    law_left_out_inside(s, k);
    let all = arranged(operators, fractions, roots, limits);
    assert(all == outermost(s));
    let n = choose|n: int|
        0 <= n < all.len() && ((#[trigger] all[n]) == s[k] || all[n].start <= s[k].start
            < all[n].end);
    assert(x.start == found[i].0);
    assert(all[n] == x || all[n].start <= found[i].0 < all[n].end);
}

/// Each construct of a text is a match of one of the four patterns.
pub proof fn law_constructs_are_matches(
    operators: Seq<Found>,
    fractions: Seq<Found>,
    roots: Seq<Found>,
    limits: Seq<Found>,
    k: int,
) -> (r: (MathKind, Found))
    requires
        0 <= k < arranged(operators, fractions, roots, limits).len(),
    ensures
        arranged(operators, fractions, roots, limits)[k] == construct_of(r.0, r.1),
        match r.0 {
            MathKind::Operator => operators,
            MathKind::Fraction => fractions,
            MathKind::Root => roots,
            MathKind::Limit => limits,
        }.contains(r.1),
{
    broadcast use vstd::seq_lib::group_to_multiset_ensures;

    let (a, b, c, d) = (
        constructs_of(MathKind::Operator, operators),
        constructs_of(MathKind::Fraction, fractions),
        constructs_of(MathKind::Root, roots),
        constructs_of(MathKind::Limit, limits),
    );
    let pool = a + b + c + d;
    law_by_start(pool);
    let s = by_start(pool);
    lemma_outermost_from(s, k);
    let i = choose|i: int| 0 <= i < s.len() && #[trigger] s[i] == outermost(s)[k];
    let x = s[i];
    assert(s.contains(x));
    assert(s.to_multiset().count(x) > 0);
    assert(pool.contains(x));
    let n = choose|n: int| 0 <= n < pool.len() && pool[n] == x;
    if n < a.len() {
        (MathKind::Operator, operators[n])
    } else if n < a.len() + b.len() {
        (MathKind::Fraction, fractions[n - a.len()])
    } else if n < a.len() + b.len() + c.len() {
        (MathKind::Root, roots[n - a.len() - b.len()])
    } else {
        (MathKind::Limit, limits[n - a.len() - b.len() - c.len()])
    }
}

proof fn lemma_first_from(tokens: Seq<TokenModel>, start: int)
    ensures
        first_from(tokens, start) <= tokens.len(),
        forall|i: int| 0 <= i < first_from(tokens, start) ==> (#[trigger] tokens[i]).from < start,
        first_from(tokens, start) < tokens.len() ==> tokens[first_from(
            tokens,
            start,
        ) as int].from >= start,
    decreases tokens.len(),
{
    if tokens.len() > 0 && tokens[0].from < start {
        let d = tokens.drop_first();
        lemma_first_from(d, start);
        assert forall|i: int| 0 <= i < first_from(tokens, start) implies (#[trigger] tokens[i]).from
            < start by {
            if i > 0 {
                assert(d[i - 1] == tokens[i]);
            }
        }
        if first_from(tokens, start) < tokens.len() {
            assert(d[first_from(d, start) as int] == tokens[first_from(tokens, start) as int]);
        }
    }
}

proof fn lemma_run_within(tokens: Seq<TokenModel>, end: int)
    ensures
        run_within(tokens, end) <= tokens.len(),
        forall|i: int| 0 <= i < run_within(tokens, end) ==> (#[trigger] tokens[i]).to <= end,
        run_within(tokens, end) < tokens.len() ==> tokens[run_within(tokens, end) as int].to > end,
    decreases tokens.len(),
{
    if tokens.len() > 0 && tokens[0].to <= end {
        let d = tokens.drop_first();
        lemma_run_within(d, end);
        assert forall|i: int| 0 <= i < run_within(tokens, end) implies (#[trigger] tokens[i]).to
            <= end by {
            if i > 0 {
                assert(d[i - 1] == tokens[i]);
            }
        }
        if run_within(tokens, end) < tokens.len() {
            assert(d[run_within(d, end) as int] == tokens[run_within(tokens, end) as int]);
        }
    }
}

/// The token of a construct has the bounds and the label of the construct and
/// the next position. It is as long as the run of tokens that it covers, from
/// the first that does not start before it on, and at least one.
pub proof fn law_token_of_construct(tokens: Seq<TokenModel>, c: ConstructModel) -> (r: (int, int))
    ensures
        composed(tokens, c).from == c.start,
        composed(tokens, c).to == c.end,
        composed(tokens, c).position == tokens.len(),
        composed(tokens, c).text == c.label,
        0 <= r.0 <= r.1 <= tokens.len(),
        forall|i: int| 0 <= i < r.0 ==> (#[trigger] tokens[i]).from < c.start,
        r.0 < tokens.len() ==> tokens[r.0].from >= c.start,
        forall|i: int| r.0 <= i < r.1 ==> (#[trigger] tokens[i]).to <= c.end,
        r.1 < tokens.len() ==> tokens[r.1].to > c.end,
        composed(tokens, c).length == if r.0 < r.1 {
            r.1 - r.0
        } else {
            1
        },
{
    lemma_first_from(tokens, c.start);
    let a = first_from(tokens, c.start) as int;
    let t = tokens.skip(a);
    lemma_run_within(t, c.end);
    let b = a + run_within(t, c.end);
    assert forall|i: int| a <= i < b implies (#[trigger] tokens[i]).to <= c.end by {
        assert(t[i - a] == tokens[i]);
    }
    if b < tokens.len() {
        assert(t[b - a] == tokens[b]);
    }
    (a, b)
}

/// A word of a text is a token of length one where it stands, counted in
/// bytes, under its number.
pub proof fn law_word_tokens(s: Seq<char>, i: int)
    requires
        0 <= i < token_runs(s).len(),
    ensures
        word_tokens(s).len() == token_runs(s).len(),
        ({
            let r = token_runs(s)[i];
            let t = word_tokens(s)[i];
            &&& t.from == vstd::utf8::encode_utf8(s.take(r.0)).len()
            &&& t.to == vstd::utf8::encode_utf8(s.take(r.1)).len()
            &&& t.position == i
            &&& t.length == 1
            &&& t.text == s.subrange(r.0, r.1)
        }),
{
    law_utf8_len(s.take(token_runs(s)[i].0));
    law_utf8_len(s.take(token_runs(s)[i].1));
}

/// The parts of matches are, in order, what stands between the first pair of
/// delimiters of each, or else between the second, with the mark before it; a
/// match without either has none.
pub proof fn law_marked_parts(mark: Seq<char>, found: Seq<Found>)
    ensures
        marked(mark, found) == found.filter(
            |m: Found| (m.2.len() > 0 && m.2[0] is Some) || (m.2.len() > 1 && m.2[1] is Some),
        ).map_values(
            |m: Found|
                mark + if m.2[0] is Some {
                    m.2[0]->0
                } else {
                    m.2[1]->0
                },
        ),
    decreases found.len(),
{
    reveal(Seq::filter);
    let keep = |m: Found| (m.2.len() > 0 && m.2[0] is Some) || (m.2.len() > 1 && m.2[1] is Some);
    let text = |m: Found|
        mark + if m.2[0] is Some {
            m.2[0]->0
        } else {
            m.2[1]->0
        };
    if found.len() > 0 {
        let d = found.drop_last();
        law_marked_parts(mark, d);
        let l = found.last();
        if keep(l) {
            assert(d.filter(keep).push(l).map_values(text) =~= d.filter(keep).map_values(text).push(
                text(l),
            ));
        }
    } else {
        assert(found.filter(keep).map_values(text) =~= Seq::empty());
    }
}

/// The source of the mathematics of a text is told exactly where some of it is
/// found: first what is set apart, then what stands in lines, each with its
/// mark, and with a bar between each two.
pub proof fn law_source(display: Seq<Found>, inline: Seq<Found>)
    ensures
        ({
            let a = marked("display:"@, display);
            let b = marked("inline:"@, inline);
            &&& source_of(display, inline) is None <==> a.len() == 0 && b.len() == 0
            &&& a.len() > 0 && b.len() == 0 ==> source_of(display, inline) == Some(join(a, " | "@))
            &&& a.len() == 0 && b.len() > 0 ==> source_of(display, inline) == Some(join(b, " | "@))
            &&& a.len() > 0 && b.len() > 0 ==> source_of(display, inline) == Some(
                join(a, " | "@) + " | "@ + join(b, " | "@),
            )
        }),
{
    let a = marked("display:"@, display);
    let b = marked("inline:"@, inline);
    law_join(a, b, Seq::empty(), " | "@);
    if a.len() == 0 {
        assert(a + b =~= b);
    }
    if b.len() == 0 {
        assert(a + b =~= a);
    }
}

/// Labels can be made of a text without cutting a character exactly where the
/// numerator and the denominator of every fraction, and the radicand of every
/// root, allow it.
pub proof fn law_text_that_fits(text: Seq<char>)
    ensures
        text_fits(text) <==> ({
            let fractions = pattern_matches(Pattern::Fraction, text);
            let roots = pattern_matches(Pattern::Root, text);
            &&& forall|i: int|
                0 <= i < fractions.len() ==> part_fits(group_given(#[trigger] fractions[i], 1))
                    && part_fits(group_given(fractions[i], 2))
            &&& forall|i: int|
                0 <= i < roots.len() ==> part_fits(group_given(#[trigger] roots[i], 2))
        }),
{
    let fractions = pattern_matches(Pattern::Fraction, text);
    let roots = pattern_matches(Pattern::Root, text);
    assert forall|i: int| 0 <= i < fractions.len() implies (match_fits(
        MathKind::Fraction,
        #[trigger] fractions[i],
    ) <==> part_fits(group_given(fractions[i], 1)) && part_fits(group_given(fractions[i], 2))) by {
        assert(group_given(fractions[i], 1) == group_or_empty(fractions[i].2, 1));
    }
    assert forall|i: int| 0 <= i < roots.len() implies (match_fits(
        MathKind::Root,
        #[trigger] roots[i],
    ) <==> part_fits(group_given(roots[i], 2))) by {
        assert(group_given(roots[i], 2) == group_or_empty(roots[i].2, 2));
    }
}

/// Mathematics is looked for in every text with a dollar or a backslash, and
/// no other text has any.
pub proof fn law_where_mathematics_is(text: Seq<char>, k: int)
    ensures
        0 <= k < text.len() && (text[k] == '$' || text[k] == '\\') ==> math_source(text)
            == source_of(
            pattern_matches(Pattern::Display, text),
            pattern_matches(Pattern::Inline, text),
        ),
        (forall|i: int| 0 <= i < text.len() ==> #[trigger] text[i] != '$' && text[i] != '\\')
            ==> math_source(text) is None,
{
    if 0 <= k < text.len() && (text[k] == '$' || text[k] == '\\') {
        assert(text.contains(text[k]));
    }
}

/// A text whose only construct is a fraction has one label: `MATH_FRAC_`, the
/// numerator, `_` and the denominator, each in full up to eight bytes and cut
/// there. A text whose only construct is a root has `MATH_SQRT_` and the
/// radicand in the same way.
pub proof fn law_one_construct(
    none: Vec<Captured>,
    one: Vec<Captured>,
    a: Vec<MathConstruct>,
    b: Vec<MathConstruct>,
)
    requires
        none@.len() == 0,
        one@.len() == 1,
        call_ensures(arrange_constructs, (&none, &one, &none, &none), a),
        call_ensures(arrange_constructs, (&none, &none, &one, &none), b),
    ensures
        ({
            let m = captured_model(one@[0]);
            &&& a@.len() == 1 && b@.len() == 1
            &&& a@[0].start == one@[0].start && a@[0].end == one@[0].end
            &&& b@[0].start == one@[0].start && b@[0].end == one@[0].end
            &&& exists|num: Seq<char>, den: Seq<char>|
                #![trigger is_label_part(num, group_given(m, 1)), is_label_part(
                    den,
                    group_given(m, 2),
                )]
                is_label_part(num, group_given(m, 1)) && is_label_part(den, group_given(m, 2))
                    && a@[0].label@ == "MATH_FRAC_"@ + num + "_"@ + den
            &&& exists|part: Seq<char>|
                #![trigger is_label_part(part, group_given(m, 2))]
                is_label_part(part, group_given(m, 2)) && b@[0].label@ == "MATH_SQRT_"@ + part
        }),
{
    let m = captured_model(one@[0]);
    let found = captured_models(one@);
    let empty = captured_models(none@);
    assert(found =~= seq![m]);
    assert(empty =~= Seq::empty());
    law_parts_in_labels(m);
    let x = construct_of(MathKind::Fraction, m);
    let y = construct_of(MathKind::Root, m);
    let nothing = Seq::<ConstructModel>::empty();
    assert(constructs_of(MathKind::Operator, empty) =~= nothing);
    assert(constructs_of(MathKind::Fraction, empty) =~= nothing);
    assert(constructs_of(MathKind::Root, empty) =~= nothing);
    assert(constructs_of(MathKind::Limit, empty) =~= nothing);
    assert(constructs_of(MathKind::Fraction, found) =~= seq![x]);
    assert(constructs_of(MathKind::Root, found) =~= seq![y]);
    lemma_one_construct(x);
    lemma_one_construct(y);
    assert(nothing + seq![x] + nothing + nothing =~= seq![x]);
    assert(nothing + nothing + seq![y] + nothing =~= seq![y]);
    assert(construct_models(a@) == seq![x]);
    assert(construct_models(b@) == seq![y]);
    assert(construct_models(a@).len() == a@.len());
    assert(construct_models(b@).len() == b@.len());
    assert(construct_models(a@)[0] == construct_model(a@[0]));
    assert(construct_models(b@)[0] == construct_model(b@[0]));
}

proof fn lemma_one_construct(x: ConstructModel)
    ensures
        outermost(by_start(seq![x])) == seq![x],
{
    let s = seq![x];
    let none = Seq::<ConstructModel>::empty();
    assert(s.drop_last() =~= none);
    assert(by_start(none) =~= none);
    assert(start_place(none, x.start) == 0);
    assert(by_start(s) =~= s);
    assert(outermost(none) =~= none);
    assert(outermost(s) =~= s);
}

} // verus!
