//! Regular expressions of this library.

use vstd::prelude::*;

use crate::text::utf8_len;

verus! {

/// A pattern of this library.
#[derive(Clone, Copy, PartialEq, Eq, Structural, Debug)]
pub enum Pattern {
    /// An operator of LaTeX with limits: its name, what stands below it and
    /// what stands above it.
    Operator,
    /// A fraction of LaTeX: its name, numerator and denominator.
    Fraction,
    /// A root of LaTeX: its name, degree and radicand.
    Root,
    /// A limit of LaTeX: its name and what stands below it.
    Limit,
    /// Mathematics set apart: between two double dollars, or between brackets.
    Display,
    /// Mathematics in a line: between two dollars, or between parentheses.
    Inline,
    /// The line with the number of pages in the output of a tool.
    Pages,
}

/// The text of a pattern.
pub open spec fn pattern_source(pattern: Pattern) -> Seq<char> {
    match pattern {
        Pattern::Operator =>
            r"\\(sum|int|iint|iiint|oint|prod|coprod|bigcup|bigcap|bigvee|bigwedge)(?:_\{([^}]*)\})?(?:\^\{([^}]*)\})?"@,
        Pattern::Fraction => r"\\(frac)\{([^}]*)\}\{([^}]*)\}"@,
        Pattern::Root => r"\\(sqrt)(?:\[([^]]*)\])?\{([^}]*)\}"@,
        Pattern::Limit => r"\\(lim|max|min|sup|inf)(?:_\{([^}]*)\})?"@,
        Pattern::Display => r"\$\$(.+?)\$\$|\\\[(.+?)\\\]"@,
        Pattern::Inline => r"\$(.+?)\$|\\\((.+?)\\\)"@,
        Pattern::Pages => r"(?m)^Pages:\s+(\d+)\s*$"@,
    }
}

/// What the pattern with the text `pattern` matches in a text: for each match
/// its bounds in bytes and its groups but for the whole, `None` for a group
/// that took no part.
pub uninterp spec fn regex_matches(pattern: Seq<char>, text: Seq<char>) -> Seq<
    (int, int, Seq<Option<Seq<char>>>),
>;

/// What a pattern matches in a text.
pub open spec fn pattern_matches(pattern: Pattern, text: Seq<char>) -> Seq<
    (int, int, Seq<Option<Seq<char>>>),
> {
    regex_matches(pattern_source(pattern), text)
}

/// A match of a pattern: its bounds in bytes, and the texts of its groups but
/// for the whole.
#[derive(Debug)]
pub struct Captured {
    pub start: usize,
    pub end: usize,
    pub groups: Vec<Option<String>>,
}

/// What a match says.
pub open spec fn captured_model(c: Captured) -> (int, int, Seq<Option<Seq<char>>>) {
    (c.start as int, c.end as int, c.groups@.map_values(|g: Option<String>| opt_text(g)))
}

/// The characters of an optional string.
pub open spec fn opt_text(o: Option<String>) -> Option<Seq<char>> {
    match o {
        Some(s) => Some(s@),
        None => None,
    }
}

/// What matches say.
pub open spec fn captured_models(v: Seq<Captured>) -> Seq<(int, int, Seq<Option<Seq<char>>>)> {
    v.map_values(|c: Captured| captured_model(c))
}

/// Whether matches lie in a text of `n` bytes and follow each other without
/// overlap.
pub open spec fn apart_within(found: Seq<(int, int, Seq<Option<Seq<char>>>)>, n: nat) -> bool {
    &&& forall|i: int| 0 <= i < found.len() ==> 0 <= (#[trigger] found[i]).0 <= found[i].1 <= n
    &&& forall|i: int, j: int|
        0 <= i < j < found.len() ==> (#[trigger] found[i]).1 <= (#[trigger] found[j]).0
}

/// `regex::Regex::captures_iter` with one of the patterns of this library:
/// the matches follow each other without overlap, inside the text. Which they
/// are depends on the pattern and the text alone.
#[verifier::external_body]
fn captures_of(pattern: &str, text: &str) -> (found: Vec<Captured>)
    requires
        exists|p: Pattern| #[trigger] pattern_source(p) == pattern@,
    ensures
        captured_models(found@) == regex_matches(pattern@, text@),
        forall|i: int|
            0 <= i < found@.len() ==> (#[trigger] found@[i]).start <= found@[i].end <= utf8_len(
                text@,
            ),
        forall|i: int, j: int|
            0 <= i < j < found@.len() ==> (#[trigger] found@[i]).end <= (#[trigger] found@[j]).start,
{
    let re = regex::Regex::new(pattern).unwrap();
    let texts = |c: &regex::Captures| {
        let groups = c.iter().skip(1);
        groups.map(|g| g.map(|m| m.as_str().to_string())).collect()
    };
    let range = |c: &regex::Captures| c.get(0).unwrap().range();
    let each = |c: regex::Captures| Captured {
        start: range(&c).start,
        end: range(&c).end,
        groups: texts(&c),
    };
    re.captures_iter(text).map(each).collect()
}

/// What a pattern matches in a text: matches inside it that do not overlap.
pub fn find_all(pattern: Pattern, text: &str) -> (found: Vec<Captured>)
    ensures
        captured_models(found@) == pattern_matches(pattern, text@),
        apart_within(captured_models(found@), utf8_len(text@)),
{
    let source = match pattern {
        Pattern::Operator =>
            r"\\(sum|int|iint|iiint|oint|prod|coprod|bigcup|bigcap|bigvee|bigwedge)(?:_\{([^}]*)\})?(?:\^\{([^}]*)\})?",
        Pattern::Fraction => r"\\(frac)\{([^}]*)\}\{([^}]*)\}",
        Pattern::Root => r"\\(sqrt)(?:\[([^]]*)\])?\{([^}]*)\}",
        Pattern::Limit => r"\\(lim|max|min|sup|inf)(?:_\{([^}]*)\})?",
        Pattern::Display => r"\$\$(.+?)\$\$|\\\[(.+?)\\\]",
        Pattern::Inline => r"\$(.+?)\$|\\\((.+?)\\\)",
        Pattern::Pages => r"(?m)^Pages:\s+(\d+)\s*$",
    };
    assert(source@ == pattern_source(pattern));
    captures_of(source, text)
}

/// The text of a group of a match, counted from zero; empty where it took no
/// part.
pub open spec fn group_or_empty(groups: Seq<Option<Seq<char>>>, i: int) -> Seq<char> {
    if 0 <= i < groups.len() {
        match groups[i] {
            Some(s) => s,
            None => Seq::empty(),
        }
    } else {
        Seq::empty()
    }
}

/// The text of a group of a match, counted from zero; empty where it took no
/// part.
pub fn group_text(c: &Captured, i: usize) -> (s: String)
    ensures
        s@ == group_or_empty(captured_model(*c).2, i as int),
{
    let ghost groups = captured_model(*c).2;
    assert(groups.len() == c.groups@.len());
    if i < c.groups.len() {
        assert(groups[i as int] == opt_text(c.groups@[i as int]));
        match &c.groups[i] {
            Some(s) => s.clone(),
            None => String::new(),
        }
    } else {
        String::new()
    }
}

} // verus!
