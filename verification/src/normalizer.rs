//! Normal form of extracted text: compatibility characters are composed,
//! whitespace is collapsed within lines, and very long lines are cut.

use unicode_normalization::UnicodeNormalization;
use vstd::prelude::*;

use crate::text::{
    byte_prefix, chars_of, is_boundary, is_cc, is_control, is_white, is_whitespace, join, joined,
    law_join, law_trim, lemma_filter_none, prefix_within, string_of, texts, trim, trim_bounds,
    trim_end, trim_start, utf8_len,
};
use crate::tokenizers::all_ascii;

verus! {

/// The most bytes of a line that are kept.
pub const MAX_LINE_LENGTH: usize = 10_000;

/// The Normalization Form KC of a text.
pub uninterp spec fn nfkc(s: Seq<char>) -> Seq<char>;

/// Whether a character is a space, a line break or a full stop.
pub open spec fn is_mark(c: char) -> bool {
    c == ' ' || c == '\n' || c == '.'
}

/// Whether `at` says where in `s` the characters of `t` but for its marks stand:
/// where two follow each other in `t`, they follow each other in `s`.
pub open spec fn stand_at(t: Seq<char>, s: Seq<char>, at: Seq<int>) -> bool {
    &&& at.len() == t.len()
    &&& forall|k: int|
        0 <= k < t.len() && !is_mark(#[trigger] t[k]) ==> 0 <= at[k] < s.len() && s[at[k]] == t[k]
    &&& forall|k: int|
        0 < k < t.len() && !is_mark(t[k - 1]) && !is_mark(#[trigger] t[k]) ==> at[k] == at[k - 1]
            + 1
}

/// Whether a text is made of parts of another, with spaces, line breaks or full
/// stops between them.
pub open spec fn is_made_of(t: Seq<char>, s: Seq<char>) -> bool {
    exists|at: Seq<int>| stand_at(t, s, at)
}

/// `unicode_normalization::UnicodeNormalization::nfkc`: the text in Unicode
/// Normalization Form KC, which leaves ASCII as it is. A part of a text in this
/// form is in the form too. So are several parts with spaces, line breaks or full
/// stops between them, which neither decompose nor compose with what stands
/// beside them.
#[verifier::external_body]
fn to_nfkc(text: &str) -> (r: String)
    ensures
        r@ == nfkc(text@),
        all_ascii(text@) ==> r@ == text@,
        forall|t: Seq<char>| #[trigger] is_made_of(t, r@) ==> nfkc(t) == t,
{
    text.nfkc().collect()
}

// ---------------------------------------------------------------------------
// Collapsing
// ---------------------------------------------------------------------------

/// Whether a character becomes a space: whitespace and control characters but
/// for the line break.
pub open spec fn is_blank(c: char) -> bool {
    c != '\n' && (is_white(c) || is_cc(c))
}

/// A text in which each run of blanks is one space.
pub open spec fn collapse(s: Seq<char>) -> Seq<char>
    decreases s.len(),
{
    if s.len() == 0 {
        Seq::empty()
    } else {
        let front = collapse(s.drop_last());
        if !is_blank(s.last()) {
            front.push(s.last())
        } else if s.len() > 1 && is_blank(s[s.len() - 2]) {
            front
        } else {
            front.push(' ')
        }
    }
}

/// Makes each run of blanks one space.
pub fn collapse_blanks(text: &str) -> (r: Vec<char>)
    ensures
        r@ == collapse(text@),
{
    let v = chars_of(text);
    let mut r: Vec<char> = Vec::new();
    let mut after_blank = false;
    let mut i: usize = 0;
    assert(v@.take(0) =~= Seq::empty());
    while i < v.len()
        invariant
            i <= v@.len(),
            r@ == collapse(v@.take(i as int)),
            after_blank == (i > 0 && is_blank(v@[i - 1])),
        decreases v@.len() - i,
    {
        let c = v[i];
        proof {
            assert(v@.take(i + 1).drop_last() =~= v@.take(i as int));
            assert(v@.take(i + 1).last() == c);
            assert(i > 0 ==> v@.take(i + 1)[i - 1] == v@[i - 1]);
        }
        if c == '\n' {
            r.push('\n');
            after_blank = false;
        } else if is_whitespace(c) || is_control(c) {
            if !after_blank {
                r.push(' ');
            }
            after_blank = true;
        } else {
            r.push(c);
            after_blank = false;
        }
        i += 1;
    }
    assert(v@.take(i as int) =~= v@);
    r
}

// ---------------------------------------------------------------------------
// Lines
// ---------------------------------------------------------------------------

/// The pieces of a text between line breaks.
pub open spec fn pieces(s: Seq<char>) -> Seq<Seq<char>>
    decreases s.len(),
{
    if s.len() == 0 {
        seq![Seq::empty()]
    } else {
        let front = pieces(s.drop_last());
        if s.last() == '\n' {
            front.push(Seq::empty())
        } else {
            front.drop_last().push(front.last().push(s.last()))
        }
    }
}

/// A line without whitespace at its ends; of a line that is too long the
/// beginning, with three dots behind it.
pub open spec fn line_of(piece: Seq<char>) -> Seq<char> {
    let t = trim(piece);
    if utf8_len(t) > MAX_LINE_LENGTH {
        byte_prefix(t, MAX_LINE_LENGTH as nat) + "..."@
    } else {
        t
    }
}

/// Whether a line is short enough, or can be cut between two characters.
pub open spec fn line_fits(piece: Seq<char>) -> bool {
    let t = trim(piece);
    utf8_len(t) <= MAX_LINE_LENGTH || is_boundary(t, MAX_LINE_LENGTH as nat)
}

/// Whether every line of a text is short enough, or can be cut between two
/// characters.
pub open spec fn lines_fit(s: Seq<char>) -> bool {
    forall|i: int| 0 <= i < pieces(s).len() ==> line_fits(#[trigger] pieces(s)[i])
}

/// The normal form of a text that is in Normalization Form KC.
pub open spec fn normal_form(s: Seq<char>) -> Seq<char> {
    trim(join(pieces(collapse(s)).map_values(|p: Seq<char>| line_of(p)), "\n"@))
}

proof fn lemma_pieces_len(s: Seq<char>)
    ensures
        pieces(s).len() > 0,
    decreases s.len(),
{
    if s.len() > 0 {
        lemma_pieces_len(s.drop_last());
    }
}

/// The line of `v[from..to]`.
fn cut_line(v: &Vec<char>, from: usize, to: usize) -> (r: String)
    requires
        from <= to <= v.len(),
    ensures
        r@ == line_of(v@.subrange(from as int, to as int)),
{
    let (a, b) = trim_bounds(v, from, to);
    let (k, n) = prefix_within(v, a, b, MAX_LINE_LENGTH);
    if k < b {
        let mut r = string_of(v, a, k);
        r.push_str("...");
        r
    } else {
        string_of(v, a, b)
    }
}

/// Whether every line can be cut between two characters, where it is too long.
fn all_lines_fit(v: &Vec<char>) -> (r: bool)
    ensures
        r == lines_fit(v@),
{
    let mut start: usize = 0;
    let mut i: usize = 0;
    let mut ok = true;
    assert(v@.take(0) =~= Seq::empty());
    assert(pieces(v@.take(0)) =~= seq![v@.subrange(0, 0)]);
    while i < v.len()
        invariant
            start <= i <= v@.len(),
            pieces(v@.take(i as int)).len() > 0,
            pieces(v@.take(i as int)).last() == v@.subrange(start as int, i as int),
            ok == (forall|k: int|
                0 <= k < pieces(v@.take(i as int)).len() - 1 ==> line_fits(
                    #[trigger] pieces(v@.take(i as int))[k],
                )),
        decreases v@.len() - i,
    {
        let ghost p = pieces(v@.take(i as int));
        let ghost q = pieces(v@.take(i + 1));
        proof {
            assert(v@.take(i + 1).drop_last() =~= v@.take(i as int));
            assert(v@.take(i + 1).last() == v@[i as int]);
        }
        if v[i] == '\n' {
            let (a, b) = trim_bounds(v, start, i);
            let (k, n) = prefix_within(v, a, b, MAX_LINE_LENGTH);
            let fits = k == b || n == MAX_LINE_LENGTH;
            assert(fits == line_fits(p.last()));
            proof {
                assert(p.last() == p[p.len() - 1]);
                assert(q.len() == p.len() + 1);
                assert(forall|k: int| 0 <= k < p.len() ==> q[k] == p[k]);
                assert((ok && fits) == (forall|k: int|
                    0 <= k < q.len() - 1 ==> line_fits(#[trigger] q[k]))) by {
                    if ok && fits {
                        assert forall|k: int| 0 <= k < q.len() - 1 implies line_fits(
                            #[trigger] q[k],
                        ) by {
                            assert(q[k] == p[k]);
                        }
                    }
                    if forall|k: int| 0 <= k < q.len() - 1 ==> line_fits(#[trigger] q[k]) {
                        assert(line_fits(q[p.len() - 1]));
                        assert forall|k: int| 0 <= k < p.len() - 1 implies line_fits(
                            #[trigger] p[k],
                        ) by {
                            assert(q[k] == p[k]);
                        }
                    }
                }
                assert(q.last() =~= v@.subrange(i + 1, i + 1));
            }
            ok = ok && fits;
            start = i + 1;
        } else {
            proof {
                assert(q.len() == p.len());
                assert(forall|k: int| 0 <= k < p.len() - 1 ==> q[k] == p[k]);
                assert(q.last() =~= v@.subrange(start as int, i + 1));
                if forall|k: int| 0 <= k < q.len() - 1 ==> line_fits(#[trigger] q[k]) {
                    assert forall|k: int| 0 <= k < p.len() - 1 implies line_fits(
                        #[trigger] p[k],
                    ) by {
                        assert(q[k] == p[k]);
                    }
                }
            }
        }
        i += 1;
    }
    let (a, b) = trim_bounds(v, start, i);
    let (k, n) = prefix_within(v, a, b, MAX_LINE_LENGTH);
    let fits = k == b || n == MAX_LINE_LENGTH;
    proof {
        assert(v@.take(i as int) =~= v@);
        let p = pieces(v@);
        assert(fits == line_fits(p.last()));
        assert(p.last() == p[p.len() - 1]);
        if ok && fits {
            assert forall|k: int| 0 <= k < p.len() implies line_fits(#[trigger] p[k]) by {}
        }
    }
    ok && fits
}

/// Normalizes a text that is in Normalization Form KC.
pub fn normalize_composed(text: &str) -> (r: String)
    requires
        lines_fit(collapse(text@)),
    ensures
        r@ == normal_form(text@),
{
    let v = collapse_blanks(text);
    let mut lines: Vec<String> = Vec::new();
    let ghost line = |p: Seq<char>| line_of(p);
    let mut start: usize = 0;
    let mut i: usize = 0;
    assert(v@.take(0) =~= Seq::empty());
    assert(pieces(v@.take(0)) =~= seq![v@.subrange(0, 0)]);
    assert(texts(lines@) =~= pieces(v@.take(0)).drop_last().map_values(line));
    while i < v.len()
        invariant
            start <= i <= v@.len(),
            line == (|p: Seq<char>| line_of(p)),
            pieces(v@.take(i as int)).len() > 0,
            pieces(v@.take(i as int)).last() == v@.subrange(start as int, i as int),
            texts(lines@) == pieces(v@.take(i as int)).drop_last().map_values(line),
        decreases v@.len() - i,
    {
        let ghost p = pieces(v@.take(i as int));
        let ghost q = pieces(v@.take(i + 1));
        let ghost before = lines@;
        proof {
            assert(v@.take(i + 1).drop_last() =~= v@.take(i as int));
            assert(v@.take(i + 1).last() == v@[i as int]);
        }
        if v[i] == '\n' {
            lines.push(cut_line(&v, start, i));
            proof {
                assert(q.drop_last() =~= p);
                assert(texts(lines@) =~= texts(before).push(line_of(p.last())));
                assert(p.map_values(line) =~= p.drop_last().map_values(line).push(
                    line_of(p.last()),
                ));
                assert(q.last() =~= v@.subrange(i + 1, i + 1));
            }
            start = i + 1;
        } else {
            proof {
                assert(q.drop_last() =~= p.drop_last());
                assert(q.last() =~= v@.subrange(start as int, i + 1));
            }
        }
        i += 1;
    }
    let ghost before = lines@;
    lines.push(cut_line(&v, start, i));
    proof {
        assert(v@.take(i as int) =~= v@);
        let p = pieces(v@);
        assert(texts(lines@) =~= texts(before).push(line_of(p.last())));
        assert(p.map_values(line) =~= p.drop_last().map_values(line).push(line_of(p.last())));
    }
    let whole = joined(&lines, "\n");
    crate::text::trimmed(whole.as_str())
}

/// Normalizes a text: Normalization Form KC, one space for each run of blanks
/// within a line, no whitespace at the ends of lines and of the text, and
/// lines of at most 10 000 bytes, with three dots where more was cut off. What
/// comes out is what it is normalized to again.
pub fn normalize_text(text: &str) -> (r: String)
    requires
        all_ascii(text@) || lines_fit(collapse(nfkc(text@))),
    ensures
        r@ == normal_form(nfkc(text@)),
        all_ascii(text@) ==> r@ == normal_form(text@) && all_ascii(r@),
        lines_fit(collapse(nfkc(r@))),
        normal_form(nfkc(r@)) == r@,
{
    let composed = to_nfkc(text);
    proof {
        if all_ascii(text@) {
            lemma_ascii_fits(text@);
            lemma_ascii_form(text@);
        }
        law_normal_form_again(composed@);
        lemma_form_made(composed@);
    }
    normalize_composed(composed.as_str())
}

/// Normalizes a text unless a line would have to be cut inside a character,
/// which does not happen in ASCII.
pub fn try_normalize_text(text: &str) -> (r: Option<String>)
    ensures
        match r {
            Some(t) => {
                &&& lines_fit(collapse(nfkc(text@)))
                &&& t@ == normal_form(nfkc(text@))
                &&& all_ascii(text@) ==> t@ == normal_form(text@)
                &&& normal_form(nfkc(t@)) == t@
            },
            None => !lines_fit(collapse(nfkc(text@))) && !all_ascii(text@),
        },
{
    let composed = to_nfkc(text);
    let v = collapse_blanks(composed.as_str());
    proof {
        if all_ascii(text@) {
            lemma_ascii_fits(text@);
        }
    }
    if all_lines_fit(&v) {
        Some(normalize_text(text))
    } else {
        None
    }
}

// ---------------------------------------------------------------------------
// What a normal form looks like
// ---------------------------------------------------------------------------

/// Whether the only whitespace and control characters of a text are single
/// spaces between other characters, and line breaks.
pub open spec fn is_spaced(s: Seq<char>) -> bool {
    forall|i: int|
        0 <= i < s.len() ==> {
            &&& (is_white(#[trigger] s[i]) || is_cc(s[i])) ==> s[i] == ' ' || s[i] == '\n'
            &&& s[i] == ' ' ==> 0 < i < s.len() - 1 && !is_white(s[i - 1]) && !is_white(s[i + 1])
        }
}

/// Whether a text neither begins nor ends with whitespace.
pub open spec fn is_trimmed(s: Seq<char>) -> bool {
    s.len() > 0 ==> !is_white(s[0]) && !is_white(s.last())
}

/// Whether the only whitespace and control characters of a text are spaces
/// that do not follow each other, and line breaks.
spec fn is_collapsed(s: Seq<char>) -> bool {
    forall|i: int|
        0 <= i < s.len() ==> {
            &&& (is_white(#[trigger] s[i]) || is_cc(s[i])) ==> s[i] == ' ' || s[i] == '\n'
            &&& s[i] == ' ' && i > 0 ==> s[i - 1] != ' '
        }
}

proof fn lemma_collapse(s: Seq<char>)
    ensures
        is_collapsed(collapse(s)),
        s.len() > 0 ==> collapse(s).len() > 0 && (is_blank(s.last()) <==> collapse(s).last()
            == ' '),
    decreases s.len(),
{
    if s.len() > 0 {
        let d = s.drop_last();
        lemma_collapse(d);
        let f = collapse(d);
        let r = collapse(s);
        if d.len() > 0 {
            assert(d.last() == s[s.len() - 2]);
        }
        if r != f {
            assert forall|i: int| 0 <= i < r.len() implies ({
                &&& (is_white(#[trigger] r[i]) || is_cc(r[i])) ==> r[i] == ' ' || r[i] == '\n'
                &&& r[i] == ' ' && i > 0 ==> r[i - 1] != ' '
            }) by {
                if i < f.len() {
                    assert(r[i] == f[i]);
                    if i > 0 {
                        assert(r[i - 1] == f[i - 1]);
                    }
                } else if i > 0 {
                    assert(r[i - 1] == f[i - 1]);
                    assert(f.last() == f[i - 1]);
                    if d.len() == 0 {
                        assert(f.len() == 0);
                    }
                }
            }
        }
    }
}

/// A piece is a part of the text without line breaks.
proof fn lemma_piece(s: Seq<char>, i: int)
    requires
        0 <= i < pieces(s).len(),
    ensures
        !pieces(s)[i].contains('\n'),
        exists|a: int, b: int|
            0 <= a <= b <= s.len() && pieces(s)[i] == #[trigger] s.subrange(a, b),
        i == pieces(s).len() - 1 ==> exists|a: int|
            0 <= a <= s.len() && pieces(s)[i] == #[trigger] s.subrange(a, s.len() as int),
    decreases s.len(),
{
    if s.len() == 0 {
        assert(pieces(s)[0] =~= s.subrange(0, 0));
    } else {
        let d = s.drop_last();
        let n = s.len() as int;
        lemma_pieces_len(d);
        let p = pieces(d);
        let q = pieces(s);
        if s.last() == '\n' {
            if i < p.len() {
                lemma_piece(d, i);
                let (a, b) = choose|a: int, b: int|
                    0 <= a <= b <= d.len() && p[i] == #[trigger] d.subrange(a, b);
                assert(d.subrange(a, b) =~= s.subrange(a, b));
                assert(q[i] == p[i]);
            } else {
                assert(q[i] =~= s.subrange(n, n));
            }
        } else {
            if i < p.len() - 1 {
                lemma_piece(d, i);
                let (a, b) = choose|a: int, b: int|
                    0 <= a <= b <= d.len() && p[i] == #[trigger] d.subrange(a, b);
                assert(d.subrange(a, b) =~= s.subrange(a, b));
                assert(q[i] == p[i]);
            } else {
                lemma_piece(d, i);
                let a = choose|a: int|
                    0 <= a <= d.len() && p[i] == #[trigger] d.subrange(a, d.len() as int);
                assert(q[i] == p[i].push(s.last()));
                assert(q[i] =~= s.subrange(a, n));
                assert(!q[i].contains('\n')) by {
                    if q[i].contains('\n') {
                        let k = q[i].index_of('\n');
                        if k < p[i].len() {
                            assert(p[i][k] == '\n');
                        }
                    }
                }
            }
        }
    }
}

proof fn lemma_byte_prefix_is_take(s: Seq<char>, n: nat)
    ensures
        byte_prefix(s, n).len() <= s.len(),
        byte_prefix(s, n) == s.take(byte_prefix(s, n).len() as int),
        utf8_len(byte_prefix(s, n)) <= n,
    decreases s.len(),
{
    if utf8_len(s) > n {
        let d = s.drop_last();
        lemma_byte_prefix_is_take(d, n);
        assert(d.take(byte_prefix(d, n).len() as int) =~= s.take(
            byte_prefix(d, n).len() as int,
        ));
    } else {
        assert(s.take(s.len() as int) =~= s);
    }
}

/// The line of a part of a collapsed text is spaced and trimmed, holds no line
/// break, and takes at most the limit and three bytes.
proof fn lemma_line(s: Seq<char>, i: int)
    requires
        is_collapsed(s),
        0 <= i < pieces(s).len(),
    ensures
        is_spaced(line_of(pieces(s)[i])),
        is_trimmed(line_of(pieces(s)[i])),
        !line_of(pieces(s)[i]).contains('\n'),
        utf8_len(line_of(pieces(s)[i])) <= MAX_LINE_LENGTH + 3,
{
    lemma_piece(s, i);
    let p = pieces(s)[i];
    let (a, b) = choose|a: int, b: int|
        0 <= a <= b <= s.len() && p == #[trigger] s.subrange(a, b);
    let (c, d) = crate::text::lemma_trim(p);
    let t = trim(p);
    assert forall|k: int| 0 <= k < t.len() implies ({
        &&& (is_white(#[trigger] t[k]) || is_cc(t[k])) ==> t[k] == ' '
        &&& t[k] == ' ' ==> 0 < k < t.len() - 1 && !is_white(t[k - 1]) && !is_white(t[k + 1])
    }) by {
        assert(t[k] == p[c + k]);
        assert(p[c + k] == s[a + c + k]);
        assert(p.contains(p[c + k]));
        if t[k] == ' ' {
            assert(is_white(t[k]));
            assert(t[k - 1] == s[a + c + k - 1]);
            assert(p.contains(p[c + k - 1]));
            assert(t[k + 1] == s[a + c + k + 1]);
            assert(p.contains(p[c + k + 1]));
        }
    }
    reveal_strlit("...");
    let l = line_of(p);
    if utf8_len(t) > MAX_LINE_LENGTH {
        lemma_byte_prefix_is_take(t, MAX_LINE_LENGTH as nat);
        let cut = byte_prefix(t, MAX_LINE_LENGTH as nat);
        let dots = "..."@;
        assert(l == cut + dots);
        assert(dots =~= seq!['.', '.', '.']);
        crate::text::lemma_utf8_len_add(cut, dots);
        assert(utf8_len(dots) == 3) by {
            assert(dots.drop_last() =~= seq!['.', '.']);
            assert(dots.drop_last().drop_last() =~= seq!['.']);
            assert(dots.drop_last().drop_last().drop_last() =~= Seq::empty());
            assert(crate::text::char_width('.') == 1);
            reveal_with_fuel(crate::text::utf8_len, 4);
        }
        assert forall|k: int| 0 <= k < l.len() implies ({
            &&& (is_white(#[trigger] l[k]) || is_cc(l[k])) ==> l[k] == ' '
            &&& l[k] == ' ' ==> 0 < k < l.len() - 1 && !is_white(l[k - 1]) && !is_white(l[k + 1])
        }) by {
            if k < cut.len() {
                assert(l[k] == t[k]);
                if k > 0 {
                    assert(l[k - 1] == t[k - 1]);
                }
                if k + 1 < cut.len() {
                    assert(l[k + 1] == t[k + 1]);
                } else {
                    assert(l[k + 1] == '.');
                }
            } else {
                assert(l[k] == '.');
            }
        }
        assert(l.last() == '.');
        if cut.len() > 0 {
            assert(l[0] == t[0]);
            assert(t[0] == p[c]);
        } else {
            assert(l[0] == '.');
        }
        assert(!l.contains('\n')) by {
            if l.contains('\n') {
                let k = l.index_of('\n');
                assert(is_white(l[k]));
            }
        }
    } else {
        if t.len() > 0 {
            assert(t[0] == p[c]);
            assert(t.last() == p[d - 1]);
        }
        assert(!t.contains('\n')) by {
            if t.contains('\n') {
                let k = t.index_of('\n');
                assert(is_white(t[k]));
            }
        }
    }
}

/// Spaced and trimmed lines joined by line breaks are spaced.
proof fn lemma_join_spaced(lines: Seq<Seq<char>>)
    requires
        forall|i: int| 0 <= i < lines.len() ==> is_spaced(#[trigger] lines[i]),
    ensures
        is_spaced(join(lines, "\n"@)),
    decreases lines.len(),
{
    reveal_strlit("\n");
    let br = "\n"@;
    assert(br =~= seq!['\n']);
    if lines.len() == 1 {
        assert(is_spaced(lines[0]));
    } else if lines.len() > 1 {
        let d = lines.drop_last();
        assert forall|i: int| 0 <= i < d.len() implies is_spaced(#[trigger] d[i]) by {
            assert(d[i] == lines[i]);
        }
        lemma_join_spaced(d);
        let f = join(d, br);
        let l = lines.last();
        assert(l == lines[lines.len() - 1]);
        let r = f + br + l;
        let m = f.len() + 1;
        assert forall|i: int| 0 <= i < r.len() implies ({
            &&& (is_white(#[trigger] r[i]) || is_cc(r[i])) ==> r[i] == ' ' || r[i] == '\n'
            &&& r[i] == ' ' ==> 0 < i < r.len() - 1 && !is_white(r[i - 1]) && !is_white(r[i + 1])
        }) by {
            if i < f.len() {
                assert(r[i] == f[i]);
                if f[i] == ' ' {
                    assert(r[i - 1] == f[i - 1]);
                    assert(r[i + 1] == f[i + 1]);
                }
            } else if i >= m {
                assert(r[i] == l[i - m]);
                if l[i - m] == ' ' {
                    assert(r[i - 1] == l[i - m - 1]);
                    assert(r[i + 1] == l[i - m + 1]);
                }
            }
        }
    }
}

/// A normal form holds no whitespace and no control characters but single
/// spaces between other characters and line breaks, and neither begins nor
/// ends with whitespace.
pub proof fn law_normal_form_spaced(s: Seq<char>)
    ensures
        is_spaced(normal_form(s)),
        is_trimmed(normal_form(s)),
{
    lemma_collapse(s);
    let c = collapse(s);
    let lines = pieces(c).map_values(|p: Seq<char>| line_of(p));
    assert forall|i: int| 0 <= i < lines.len() implies is_spaced(#[trigger] lines[i]) by {
        lemma_line(c, i);
    }
    lemma_join_spaced(lines);
    let j = join(lines, "\n"@);
    let (a, b) = crate::text::lemma_trim(j);
    let r = trim(j);
    assert forall|i: int| 0 <= i < r.len() implies ({
        &&& (is_white(#[trigger] r[i]) || is_cc(r[i])) ==> r[i] == ' ' || r[i] == '\n'
        &&& r[i] == ' ' ==> 0 < i < r.len() - 1 && !is_white(r[i - 1]) && !is_white(r[i + 1])
    }) by {
        assert(r[i] == j[a + i]);
        if r[i] == ' ' {
            assert(is_white(r[i]));
            assert(j[a + i - 1] == r[i - 1]);
            assert(j[a + i + 1] == r[i + 1]);
        }
    }
}

// ---------------------------------------------------------------------------
// The lines of a normal form
// ---------------------------------------------------------------------------

/// What a trimmed text loses at its ends is whitespace.
proof fn lemma_trimmed_off(s: Seq<char>)
    ensures
        forall|k: int| 0 <= k < s.len() - trim_start(s).len() ==> is_white(#[trigger] s[k]),
        forall|k: int| trim_end(s).len() <= k < s.len() ==> is_white(#[trigger] s[k]),
    decreases s.len(),
{
    if s.len() > 0 {
        let f = s.drop_first();
        let d = s.drop_last();
        lemma_trimmed_off(f);
        lemma_trimmed_off(d);
        assert forall|k: int| 0 <= k < s.len() - trim_start(s).len() implies is_white(
            #[trigger] s[k],
        ) by {
            if k > 0 {
                assert(f[k - 1] == s[k]);
            }
        }
        assert forall|k: int| trim_end(s).len() <= k < s.len() implies is_white(
            #[trigger] s[k],
        ) by {
            if k < s.len() - 1 {
                assert(d[k] == s[k]);
            }
        }
    }
}

/// Where a trimmed text stands in the text: what is before it and behind it is
/// whitespace.
proof fn lemma_trim_parts(s: Seq<char>) -> (r: (int, int))
    ensures
        0 <= r.0 <= r.1 <= s.len(),
        trim(s) == s.subrange(r.0, r.1),
        forall|k: int| 0 <= k < r.0 ==> is_white(#[trigger] s[k]),
        forall|k: int| r.1 <= k < s.len() ==> is_white(#[trigger] s[k]),
{
    let t = trim_start(s);
    crate::text::lemma_trim_start(s);
    crate::text::lemma_trim_end(t);
    lemma_trimmed_off(s);
    lemma_trimmed_off(t);
    let a = s.len() - t.len();
    let b = a + trim(s).len();
    assert(trim(s) =~= s.subrange(a, b));
    assert forall|k: int| b <= k < s.len() implies is_white(#[trigger] s[k]) by {
        assert(t[k - a] == s[k]);
    }
    (a, b)
}

proof fn lemma_collapse_again(s: Seq<char>)
    requires
        is_collapsed(s),
    ensures
        collapse(s) == s,
    decreases s.len(),
{
    if s.len() > 0 {
        let d = s.drop_last();
        let last = s.len() - 1;
        assert forall|i: int| 0 <= i < d.len() implies ({
            &&& (is_white(#[trigger] d[i]) || is_cc(d[i])) ==> d[i] == ' ' || d[i] == '\n'
            &&& d[i] == ' ' && i > 0 ==> d[i - 1] != ' '
        }) by {
            assert(d[i] == s[i]);
        }
        lemma_collapse_again(d);
        assert(s[last] == s.last());
        if s.len() > 1 {
            assert(is_blank(s[last - 1]) ==> s[last - 1] == ' ');
        }
        assert(collapse(s) =~= s);
    }
}

/// The pieces of a text with line breaks between them are the text.
proof fn lemma_join_pieces(s: Seq<char>)
    ensures
        join(pieces(s), "\n"@) == s,
    decreases s.len(),
{
    reveal_strlit("\n");
    let br = "\n"@;
    if s.len() > 0 {
        let d = s.drop_last();
        lemma_join_pieces(d);
        lemma_pieces_len(d);
        let f = pieces(d);
        let q = pieces(s);
        if s.last() == '\n' {
            assert(q.drop_last() =~= f);
            assert(join(q, br) =~= s);
        } else if f.len() == 1 {
            assert(q =~= seq![f[0].push(s.last())]);
            assert(join(q, br) =~= s);
        } else {
            assert(q.drop_last() =~= f.drop_last());
            assert(join(q, br) =~= join(f, br).push(s.last()));
            assert(join(q, br) =~= s);
        }
    } else {
        assert(join(pieces(s), br) =~= s);
    }
}

/// Text without line breaks goes into the last piece.
proof fn lemma_pieces_append(s: Seq<char>, t: Seq<char>)
    requires
        !t.contains('\n'),
    ensures
        pieces(s + t) == pieces(s).drop_last().push(pieces(s).last() + t),
    decreases t.len(),
{
    lemma_pieces_len(s);
    if t.len() == 0 {
        assert(s + t =~= s);
        assert(pieces(s).last() + t =~= pieces(s).last());
        assert(pieces(s) =~= pieces(s).drop_last().push(pieces(s).last()));
    } else {
        let d = t.drop_last();
        assert(!d.contains('\n')) by {
            if d.contains('\n') {
                let k = d.index_of('\n');
                assert(t[k] == '\n');
            }
        }
        lemma_pieces_append(s, d);
        assert((s + t).drop_last() =~= s + d);
        assert((s + t).last() == t.last());
        assert(t[t.len() - 1] != '\n');
        assert(pieces(s + d).drop_last() =~= pieces(s).drop_last());
        assert((pieces(s).last() + d).push(t.last()) =~= pieces(s).last() + t);
    }
}

/// Lines without line breaks are the pieces of their join.
proof fn lemma_pieces_join(lines: Seq<Seq<char>>)
    requires
        lines.len() > 0,
        forall|i: int| 0 <= i < lines.len() ==> !(#[trigger] lines[i]).contains('\n'),
    ensures
        pieces(join(lines, "\n"@)) == lines,
    decreases lines.len(),
{
    reveal_strlit("\n");
    let br = "\n"@;
    let none = Seq::<char>::empty();
    let last = lines.last();
    assert(last == lines[lines.len() - 1]);
    if lines.len() == 1 {
        lemma_pieces_append(none, last);
        assert(none + last =~= last);
        assert(pieces(last) =~= lines);
    } else {
        let d = lines.drop_last();
        assert forall|i: int| 0 <= i < d.len() implies !(#[trigger] d[i]).contains('\n') by {
            assert(d[i] == lines[i]);
        }
        lemma_pieces_join(d);
        let head = join(d, br) + br;
        assert(head.drop_last() =~= join(d, br));
        assert(pieces(head) == d.push(none));
        lemma_pieces_append(head, last);
        assert(d.push(none).drop_last() =~= d);
        assert(none + last =~= last);
        assert(pieces(head + last) =~= lines);
    }
}

/// A text that ends with a line break, or is empty, and one behind it share no
/// piece.
proof fn lemma_pieces_behind(x: Seq<char>, s: Seq<char>)
    requires
        x.len() > 0 ==> x.last() == '\n',
    ensures
        pieces(x + s) == pieces(x).drop_last() + pieces(s),
    decreases s.len(),
{
    lemma_pieces_len(x);
    let a = pieces(x).drop_last();
    if s.len() == 0 {
        assert(x + s =~= x);
        assert(pieces(x).last() =~= Seq::empty());
        assert(pieces(x + s) =~= a + pieces(s));
    } else {
        let d = s.drop_last();
        lemma_pieces_behind(x, d);
        lemma_pieces_len(d);
        assert((x + s).drop_last() =~= x + d);
        assert((x + s).last() == s.last());
        assert((a + pieces(d)).drop_last() =~= a + pieces(d).drop_last());
        assert(pieces(x + s) =~= a + pieces(s));
    }
}

/// Line breaks behind a text leave its pieces.
proof fn lemma_pieces_before(s: Seq<char>, y: Seq<char>)
    requires
        forall|k: int| 0 <= k < y.len() ==> #[trigger] y[k] == '\n',
    ensures
        pieces(s).len() <= pieces(s + y).len(),
        forall|i: int| 0 <= i < pieces(s).len() ==> pieces(s + y)[i] == #[trigger] pieces(s)[i],
    decreases y.len(),
{
    if y.len() == 0 {
        assert(s + y =~= s);
    } else {
        let d = y.drop_last();
        assert forall|k: int| 0 <= k < d.len() implies #[trigger] d[k] == '\n' by {
            assert(d[k] == y[k]);
        }
        lemma_pieces_before(s, d);
        assert((s + y).drop_last() =~= s + d);
        assert((s + y).last() == y[y.len() - 1]);
    }
}

/// Where a beginning takes exactly `n` bytes, it is the longest that fits.
proof fn lemma_prefix_at(s: Seq<char>, k: int, n: nat)
    requires
        0 <= k <= s.len(),
        utf8_len(s.take(k)) == n,
    ensures
        byte_prefix(s, n) == s.take(k),
{
    crate::text::lemma_byte_prefix(s, k, n);
}

proof fn lemma_trim_again(s: Seq<char>)
    requires
        is_trimmed(s),
    ensures
        trim(s) == s,
{
}

/// A line that fits is its own line.
proof fn lemma_line_again(piece: Seq<char>)
    requires
        line_fits(piece),
        is_trimmed(line_of(piece)),
    ensures
        line_of(line_of(piece)) == line_of(piece),
        line_fits(line_of(piece)),
{
    let t = trim(piece);
    let l = line_of(piece);
    let n = MAX_LINE_LENGTH as nat;
    lemma_trim_again(l);
    if utf8_len(t) > MAX_LINE_LENGTH {
        let k = choose|k: int| 0 <= k <= t.len() && utf8_len(#[trigger] t.take(k)) == n;
        lemma_prefix_at(t, k, n);
        reveal_strlit("...");
        let dots = "..."@;
        let cut = t.take(k);
        crate::text::lemma_utf8_len_add(cut, dots);
        assert(utf8_len(dots) > 0) by {
            assert(crate::text::char_width('.') == 1);
            assert(dots.last() == '.');
        }
        assert(l.take(k) =~= cut);
        lemma_prefix_at(l, k, n);
    }
}

/// A line of a normal form is empty, or the line of a piece.
proof fn lemma_normal_line(s: Seq<char>, i: int)
    requires
        0 <= i < pieces(normal_form(s)).len(),
    ensures
        pieces(normal_form(s))[i].len() == 0 || exists|k: int|
            0 <= k < pieces(collapse(s)).len() && pieces(normal_form(s))[i] == line_of(
                #[trigger] pieces(collapse(s))[k],
            ),
{
    let n = normal_form(s);
    lemma_collapse(s);
    let c = collapse(s);
    let lines = pieces(c).map_values(|p: Seq<char>| line_of(p));
    lemma_pieces_len(c);
    assert forall|i: int| 0 <= i < lines.len() implies is_spaced(#[trigger] lines[i])
        && !lines[i].contains('\n') by {
        lemma_line(c, i);
    }
    lemma_join_spaced(lines);
    lemma_pieces_join(lines);
    let j = join(lines, "\n"@);
    let (a, b) = lemma_trim_parts(j);
    if n.len() > 0 {
        let x = j.take(a);
        let y = j.skip(b);
        assert forall|k: int| 0 <= k < x.len() implies #[trigger] x[k] == '\n' by {
            assert(x[k] == j[k]);
            if j[k] == ' ' {
                assert(is_white(j[k - 1]));
            }
        }
        assert forall|k: int| 0 <= k < y.len() implies #[trigger] y[k] == '\n' by {
            assert(y[k] == j[b + k]);
            if j[b + k] == ' ' {
                assert(is_white(j[b + k + 1]));
            }
        }
        assert(j =~= x + (n + y));
        if x.len() > 0 {
            assert(x.last() == x[x.len() - 1]);
        }
        lemma_pieces_behind(x, n + y);
        lemma_pieces_before(n, y);
        lemma_pieces_len(x);
        let k = pieces(x).len() - 1 + i;
        assert(pieces(j)[k] == pieces(n + y)[i]);
        assert(lines[k] == line_of(pieces(c)[k]));
    }
}

/// No line of a normal form takes more than the limit and three bytes.
pub proof fn law_lines_are_short(s: Seq<char>, i: int)
    requires
        0 <= i < pieces(normal_form(s)).len(),
    ensures
        utf8_len(pieces(normal_form(s))[i]) <= MAX_LINE_LENGTH + 3,
{
    lemma_normal_line(s, i);
    lemma_collapse(s);
    let l = pieces(normal_form(s))[i];
    if l.len() > 0 {
        let k = choose|k: int|
            0 <= k < pieces(collapse(s)).len() && l == line_of(#[trigger] pieces(collapse(s))[k]);
        lemma_line(collapse(s), k);
    }
}

/// A normal form stays as it is when it is normalized again, which can be done:
/// its lines fit.
pub proof fn law_normal_form_again(s: Seq<char>)
    requires
        lines_fit(collapse(s)),
    ensures
        lines_fit(collapse(normal_form(s))),
        normal_form(normal_form(s)) == normal_form(s),
{
    let line = |p: Seq<char>| line_of(p);
    let n = normal_form(s);
    law_normal_form_spaced(s);
    assert(is_collapsed(n));
    lemma_collapse_again(n);
    lemma_join_pieces(n);
    lemma_trim_again(n);
    lemma_collapse(s);
    let c = collapse(s);
    assert forall|i: int| 0 <= i < pieces(n).len() implies line_of(#[trigger] pieces(n)[i])
        == pieces(n)[i] && line_fits(pieces(n)[i]) by {
        lemma_normal_line(s, i);
        let l = pieces(n)[i];
        if l.len() > 0 {
            let k = choose|k: int|
                0 <= k < pieces(c).len() && l == line_of(#[trigger] pieces(c)[k]);
            lemma_line(c, k);
            lemma_line_again(pieces(c)[k]);
        }
    }
    assert(pieces(n).map_values(line) =~= pieces(n));
}

// ---------------------------------------------------------------------------
// Parts of a text
// ---------------------------------------------------------------------------

/// Where the characters of a text stand from which blanks were collapsed. The
/// last one stands at the end.
proof fn lemma_collapse_made(s: Seq<char>) -> (at: Seq<int>)
    ensures
        stand_at(collapse(s), s, at),
        at.len() > 0 && !is_mark(collapse(s).last()) ==> at.last() == s.len() - 1,
    decreases s.len(),
{
    if s.len() == 0 {
        Seq::empty()
    } else {
        let d = s.drop_last();
        let front = lemma_collapse_made(d);
        lemma_collapse(d);
        let f = collapse(d);
        assert(d.len() > 0 ==> d.last() == s[s.len() - 2]);
        assert forall|k: int| 0 <= k < f.len() && !is_mark(#[trigger] f[k]) implies 0 <= front[k]
            < s.len() && s[front[k]] == f[k] by {
            assert(d[front[k]] == s[front[k]]);
        }
        if is_blank(s.last()) && s.len() > 1 && is_blank(s[s.len() - 2]) {
            front
        } else {
            let at = front.push(s.len() - 1);
            let r = collapse(s);
            assert forall|k: int| 0 <= k < r.len() && !is_mark(#[trigger] r[k]) implies 0 <= at[k]
                < s.len() && s[at[k]] == r[k] by {
                if k < f.len() {
                    assert(r[k] == f[k]);
                }
            }
            assert forall|k: int|
                0 < k < r.len() && !is_mark(r[k - 1]) && !is_mark(#[trigger] r[k]) implies at[k]
                == at[k - 1] + 1 by {
                assert(r[k - 1] == f[k - 1]);
                if k < f.len() {
                    assert(r[k] == f[k]);
                } else {
                    assert(f.last() == f[k - 1]);
                }
            }
            at
        }
    }
}

proof fn lemma_part_made(t: Seq<char>, s: Seq<char>, a: int, b: int)
    requires
        is_made_of(t, s),
        0 <= a <= b <= t.len(),
    ensures
        is_made_of(t.subrange(a, b), s),
{
    let at = choose|at: Seq<int>| stand_at(t, s, at);
    let p = t.subrange(a, b);
    let q = at.subrange(a, b);
    assert forall|k: int| 0 <= k < p.len() && !is_mark(#[trigger] p[k]) implies 0 <= q[k] < s.len()
        && s[q[k]] == p[k] by {
        assert(p[k] == t[a + k]);
    }
    assert forall|k: int|
        0 < k < p.len() && !is_mark(p[k - 1]) && !is_mark(#[trigger] p[k]) implies q[k] == q[k - 1]
        + 1 by {
        assert(p[k] == t[a + k]);
        assert(p[k - 1] == t[a + k - 1]);
    }
    assert(stand_at(p, s, q));
}

/// Texts that are made of parts of a text, with a mark between them, are so
/// together.
proof fn lemma_both_made(x: Seq<char>, m: char, y: Seq<char>, s: Seq<char>)
    requires
        is_made_of(x, s),
        is_mark(m),
        is_made_of(y, s),
    ensures
        is_made_of(x.push(m) + y, s),
{
    let f = choose|at: Seq<int>| stand_at(x, s, at);
    let g = choose|at: Seq<int>| stand_at(y, s, at);
    let t = x.push(m) + y;
    let at = f.push(0) + g;
    let n = x.len() as int;
    assert forall|k: int| 0 <= k < t.len() && !is_mark(#[trigger] t[k]) implies 0 <= at[k]
        < s.len() && s[at[k]] == t[k] by {
        if k < n {
            assert(t[k] == x[k]);
        } else {
            assert(k > n);
            assert(t[k] == y[k - n - 1]);
        }
    }
    assert forall|k: int|
        0 < k < t.len() && !is_mark(t[k - 1]) && !is_mark(#[trigger] t[k]) implies at[k] == at[k
        - 1] + 1 by {
        assert(t[n] == m);
        if k < n {
            assert(t[k] == x[k]);
            assert(t[k - 1] == x[k - 1]);
        } else {
            assert(k - 1 > n);
            assert(t[k] == y[k - n - 1]);
            assert(t[k - 1] == y[k - n - 2]);
        }
    }
    assert(stand_at(t, s, at));
}

proof fn lemma_nothing_made(s: Seq<char>)
    ensures
        is_made_of(Seq::empty(), s),
{
    assert(stand_at(Seq::empty(), s, Seq::empty()));
}

proof fn lemma_line_made(t: Seq<char>, s: Seq<char>, i: int)
    requires
        is_made_of(t, s),
        0 <= i < pieces(t).len(),
    ensures
        is_made_of(line_of(pieces(t)[i]), s),
{
    lemma_piece(t, i);
    let p = pieces(t)[i];
    let (a, b) = choose|a: int, b: int|
        0 <= a <= b <= t.len() && p == #[trigger] t.subrange(a, b);
    lemma_part_made(t, s, a, b);
    let (c, d) = crate::text::lemma_trim(p);
    lemma_part_made(p, s, c, d);
    let l = trim(p);
    if utf8_len(l) > MAX_LINE_LENGTH {
        let cut = byte_prefix(l, MAX_LINE_LENGTH as nat);
        lemma_byte_prefix_is_take(l, MAX_LINE_LENGTH as nat);
        lemma_part_made(l, s, 0, cut.len() as int);
        assert(l.subrange(0, cut.len() as int) =~= cut);
        let none = Seq::<char>::empty();
        lemma_nothing_made(s);
        lemma_both_made(none, '.', none, s);
        lemma_both_made(none, '.', none.push('.') + none, s);
        lemma_both_made(cut, '.', none.push('.') + (none.push('.') + none), s);
        reveal_strlit("...");
        assert(line_of(p) =~= cut.push('.') + (none.push('.') + (none.push('.') + none)));
    }
}

proof fn lemma_join_made(lines: Seq<Seq<char>>, s: Seq<char>)
    requires
        forall|i: int| 0 <= i < lines.len() ==> is_made_of(#[trigger] lines[i], s),
    ensures
        is_made_of(join(lines, "\n"@), s),
    decreases lines.len(),
{
    reveal_strlit("\n");
    if lines.len() == 0 {
        lemma_nothing_made(s);
    } else if lines.len() == 1 {
        assert(is_made_of(lines[0], s));
    } else {
        let d = lines.drop_last();
        assert forall|i: int| 0 <= i < d.len() implies is_made_of(#[trigger] d[i], s) by {
            assert(d[i] == lines[i]);
        }
        lemma_join_made(d, s);
        let x = join(d, "\n"@);
        assert(is_made_of(lines[lines.len() - 1], s));
        lemma_both_made(x, '\n', lines.last(), s);
        assert(join(lines, "\n"@) =~= x.push('\n') + lines.last());
    }
}

/// A normal form is made of parts of the text, with spaces, line breaks or full
/// stops between them.
proof fn lemma_form_made(s: Seq<char>)
    ensures
        is_made_of(normal_form(s), s),
{
    let at = lemma_collapse_made(s);
    let c = collapse(s);
    assert(is_made_of(c, s));
    let lines = pieces(c).map_values(|p: Seq<char>| line_of(p));
    assert forall|i: int| 0 <= i < lines.len() implies is_made_of(#[trigger] lines[i], s) by {
        lemma_line_made(c, s, i);
    }
    lemma_join_made(lines, s);
    let j = join(lines, "\n"@);
    let (a, b) = crate::text::lemma_trim(j);
    lemma_part_made(j, s, a, b);
}

// ---------------------------------------------------------------------------
// ASCII
// ---------------------------------------------------------------------------

proof fn lemma_ascii_collapse(s: Seq<char>)
    requires
        all_ascii(s),
    ensures
        all_ascii(collapse(s)),
    decreases s.len(),
{
    if s.len() > 0 {
        let d = s.drop_last();
        assert forall|i: int| 0 <= i < d.len() implies (#[trigger] d[i] as u32) < 0x80 by {
            assert(d[i] == s[i]);
        }
        lemma_ascii_collapse(d);
        assert((s[s.len() - 1] as u32) < 0x80);
    }
}

/// Each character of ASCII takes one byte.
proof fn lemma_ascii_len(s: Seq<char>)
    requires
        all_ascii(s),
    ensures
        utf8_len(s) == s.len(),
    decreases s.len(),
{
    if s.len() > 0 {
        let d = s.drop_last();
        assert forall|i: int| 0 <= i < d.len() implies (#[trigger] d[i] as u32) < 0x80 by {
            assert(d[i] == s[i]);
        }
        lemma_ascii_len(d);
        assert((s[s.len() - 1] as u32) < 0x80);
    }
}

proof fn lemma_ascii_part(s: Seq<char>, a: int, b: int)
    requires
        all_ascii(s),
        0 <= a <= b <= s.len(),
    ensures
        all_ascii(s.subrange(a, b)),
{
    let t = s.subrange(a, b);
    assert forall|i: int| 0 <= i < t.len() implies (#[trigger] t[i] as u32) < 0x80 by {
        assert(t[i] == s[a + i]);
    }
}

/// A piece of a text in ASCII can be cut where it is too long, and its line is
/// in ASCII.
proof fn lemma_ascii_line(s: Seq<char>, i: int)
    requires
        all_ascii(s),
        0 <= i < pieces(s).len(),
    ensures
        line_fits(pieces(s)[i]),
        all_ascii(line_of(pieces(s)[i])),
{
    lemma_piece(s, i);
    let p = pieces(s)[i];
    let (a, b) = choose|a: int, b: int|
        0 <= a <= b <= s.len() && p == #[trigger] s.subrange(a, b);
    lemma_ascii_part(s, a, b);
    let (c, d) = crate::text::lemma_trim(p);
    lemma_ascii_part(p, c, d);
    let t = trim(p);
    lemma_ascii_len(t);
    if utf8_len(t) > MAX_LINE_LENGTH {
        let cut = t.take(MAX_LINE_LENGTH as int);
        lemma_ascii_part(t, 0, MAX_LINE_LENGTH as int);
        lemma_ascii_len(cut);
        assert(is_boundary(t, MAX_LINE_LENGTH as nat));
        lemma_prefix_at(t, MAX_LINE_LENGTH as int, MAX_LINE_LENGTH as nat);
        reveal_strlit("...");
        let l = line_of(p);
        assert forall|k: int| 0 <= k < l.len() implies (#[trigger] l[k] as u32) < 0x80 by {
            if k < cut.len() {
                assert(l[k] == cut[k]);
            } else {
                assert(l[k] == '.');
            }
        }
    }
}

/// The lines of a text in ASCII fit.
proof fn lemma_ascii_fits(s: Seq<char>)
    requires
        all_ascii(s),
    ensures
        lines_fit(collapse(s)),
{
    lemma_ascii_collapse(s);
    let c = collapse(s);
    assert forall|i: int| 0 <= i < pieces(c).len() implies line_fits(#[trigger] pieces(c)[i]) by {
        lemma_ascii_line(c, i);
    }
}

proof fn lemma_ascii_join(lines: Seq<Seq<char>>)
    requires
        forall|i: int| 0 <= i < lines.len() ==> all_ascii(#[trigger] lines[i]),
    ensures
        all_ascii(join(lines, "\n"@)),
    decreases lines.len(),
{
    reveal_strlit("\n");
    if lines.len() == 1 {
        assert(all_ascii(lines[0]));
    } else if lines.len() > 1 {
        let d = lines.drop_last();
        assert forall|i: int| 0 <= i < d.len() implies all_ascii(#[trigger] d[i]) by {
            assert(d[i] == lines[i]);
        }
        lemma_ascii_join(d);
        assert(all_ascii(lines[lines.len() - 1]));
    }
}

/// The normal form of a text in ASCII is in ASCII.
proof fn lemma_ascii_form(s: Seq<char>)
    requires
        all_ascii(s),
    ensures
        all_ascii(normal_form(s)),
{
    lemma_ascii_collapse(s);
    let c = collapse(s);
    let lines = pieces(c).map_values(|p: Seq<char>| line_of(p));
    assert forall|i: int| 0 <= i < lines.len() implies all_ascii(#[trigger] lines[i]) by {
        lemma_ascii_line(c, i);
    }
    lemma_ascii_join(lines);
    let j = join(lines, "\n"@);
    let (a, b) = crate::text::lemma_trim(j);
    lemma_ascii_part(j, a, b);
}

// ---------------------------------------------------------------------------
// What a normal form keeps
// ---------------------------------------------------------------------------

/// Whether a character is neither whitespace nor a control character.
pub open spec fn is_visible(c: char) -> bool {
    !is_white(c) && !is_cc(c)
}

/// The visible characters of a list of texts.
spec fn kept(parts: Seq<Seq<char>>) -> Seq<char>
    decreases parts.len(),
{
    if parts.len() == 0 {
        Seq::empty()
    } else {
        kept(parts.drop_last()) + parts.last().filter(|c: char| is_visible(c))
    }
}

proof fn lemma_collapse_keeps(s: Seq<char>)
    ensures
        collapse(s).filter(|c: char| is_visible(c)) == s.filter(|c: char| is_visible(c)),
        utf8_len(collapse(s)) <= utf8_len(s),
    decreases s.len(),
{
    reveal(Seq::filter);
    let keep = |c: char| is_visible(c);
    if s.len() > 0 {
        let d = s.drop_last();
        lemma_collapse_keeps(d);
        let f = collapse(d);
        assert(f.push(s.last()).drop_last() =~= f);
        assert(f.push(' ').drop_last() =~= f);
    }
}

proof fn lemma_join_kept(parts: Seq<Seq<char>>)
    ensures
        join(parts, "\n"@).filter(|c: char| is_visible(c)) == kept(parts),
    decreases parts.len(),
{
    let keep = |c: char| is_visible(c);
    reveal_strlit("\n");
    let br = "\n"@;
    assert(br =~= seq!['\n']);
    if parts.len() == 0 {
        lemma_filter_none(join(parts, br), keep);
    } else {
        let d = parts.drop_last();
        lemma_join_kept(d);
        let l = parts.last();
        if parts.len() == 1 {
            assert(kept(d) + l.filter(keep) =~= l.filter(keep));
        } else {
            let j = join(d, br);
            Seq::filter_distributes_over_add(j + br, l, keep);
            Seq::filter_distributes_over_add(j, br, keep);
            lemma_filter_none(br, keep);
            assert(j.filter(keep) + br.filter(keep) =~= j.filter(keep));
        }
    }
}

proof fn lemma_trim_visible(s: Seq<char>)
    ensures
        trim(s).filter(|c: char| is_visible(c)) == s.filter(|c: char| is_visible(c)),
        utf8_len(trim(s)) <= utf8_len(s),
{
    let keep = |c: char| is_visible(c);
    let (a, b) = law_trim(s);
    let (x, y, z) = (s.subrange(0, a), s.subrange(a, b), s.subrange(b, s.len() as int));
    assert(s =~= (x + y) + z);
    Seq::filter_distributes_over_add(x + y, z, keep);
    Seq::filter_distributes_over_add(x, y, keep);
    lemma_filter_none(x, keep);
    lemma_filter_none(z, keep);
    assert(x.filter(keep) + y.filter(keep) + z.filter(keep) =~= y.filter(keep));
    crate::text::lemma_utf8_len_add(x + y, z);
    crate::text::lemma_utf8_len_add(x, y);
}

proof fn lemma_lines_kept(parts: Seq<Seq<char>>)
    requires
        forall|i: int| 0 <= i < parts.len() ==> utf8_len(trim(#[trigger] parts[i])) <= 10_000,
    ensures
        kept(parts.map_values(|p: Seq<char>| line_of(p))) == kept(parts),
    decreases parts.len(),
{
    let f = |p: Seq<char>| line_of(p);
    let all = parts.map_values(f);
    if parts.len() > 0 {
        let d = parts.drop_last();
        assert forall|i: int| 0 <= i < d.len() implies utf8_len(trim(#[trigger] d[i])) <= 10_000 by {
            assert(parts[i] == d[i]);
        }
        lemma_lines_kept(d);
        assert(all.drop_last() =~= d.map_values(f));
        assert(parts[parts.len() - 1] == parts.last());
        assert(all.last() == trim(parts.last()));
        lemma_trim_visible(parts.last());
    } else {
        assert(all =~= parts);
    }
}

/// Where no line is too long, a normal form has the visible characters of the
/// text, all of them and in their order: only whitespace and control
/// characters change.
pub proof fn law_visible_text_kept(s: Seq<char>)
    requires
        forall|i: int|
            0 <= i < pieces(collapse(s)).len() ==> utf8_len(
                trim(#[trigger] pieces(collapse(s))[i]),
            ) <= 10_000,
    ensures
        normal_form(s).filter(|c: char| is_visible(c)) == s.filter(|c: char| is_visible(c)),
{
    let c = collapse(s);
    let lines = pieces(c).map_values(|p: Seq<char>| line_of(p));
    lemma_trim_visible(join(lines, "\n"@));
    lemma_join_kept(lines);
    lemma_lines_kept(pieces(c));
    lemma_join_kept(pieces(c));
    lemma_join_pieces(c);
    lemma_collapse_keeps(s);
}

/// A line of at most ten thousand bytes loses the whitespace at its ends and
/// nothing else. Of a longer one as much of the beginning stays as ten thousand
/// bytes hold, with three dots behind it.
pub proof fn law_line(piece: Seq<char>)
    ensures
        ({
            let t = trim(piece);
            let n = line_of(piece).len() - 3;
            if vstd::utf8::encode_utf8(t).len() <= 10_000 {
                line_of(piece) == t
            } else {
                &&& 0 <= n < t.len()
                &&& line_of(piece) == t.take(n) + seq!['.', '.', '.']
                &&& vstd::utf8::encode_utf8(t.take(n)).len() <= 10_000
                &&& vstd::utf8::encode_utf8(t.take(n + 1)).len() > 10_000
            }
        }),
{
    reveal_strlit("...");
    assert("..."@ =~= seq!['.', '.', '.']);
    crate::text::law_utf8_len(trim(piece));
    crate::text::law_byte_prefix(trim(piece), 10_000);
}

proof fn lemma_trim_is(s: Seq<char>, a: int, b: int)
    requires
        0 <= a < b <= s.len(),
        !is_white(s[a]),
        !is_white(s[b - 1]),
        forall|i: int| 0 <= i < a || b <= i < s.len() ==> is_white(#[trigger] s[i]),
    ensures
        trim(s) == s.subrange(a, b),
{
    let (c, d) = law_trim(s);
    assert(c <= a);
    assert(b <= d);
    if c < a {
        assert(is_white(s[c]));
    }
    if b < d {
        assert(is_white(s[d - 1]));
    }
}

/// What is trimmed as a whole is trimmed at its two ends, where neither part
/// ends, or begins, with whitespace in the middle.
proof fn lemma_trim_two(x: Seq<char>, m: char, y: Seq<char>)
    requires
        x.len() > 0,
        y.len() > 0,
        !is_white(x.last()),
        !is_white(y[0]),
    ensures
        trim(x.push(m) + y) == trim(x).push(m) + trim(y),
{
    let s = x.push(m) + y;
    let n = x.len() as int;
    let (a, b) = law_trim(x);
    let (c, d) = law_trim(y);
    assert(b == n) by {
        if b < n {
            assert(is_white(x[n - 1]));
        }
    }
    assert(c == 0) by {
        if c > 0 {
            assert(is_white(y[0]));
        }
    }
    assert(a < n) by {
        if a == n {
            assert(is_white(x[n - 1]));
        }
    }
    assert(d > 0) by {
        if d == 0 {
            assert(is_white(y[0]));
        }
    }
    assert forall|i: int| 0 <= i < a || n + 1 + d <= i < s.len() implies is_white(
        #[trigger] s[i],
    ) by {
        if i < a {
            assert(s[i] == x[i]);
        } else {
            assert(s[i] == y[i - n - 1]);
        }
    }
    assert(s[a] == x[a]);
    assert(s[n + d] == y[d - 1]);
    lemma_trim_is(s, a, n + 1 + d);
    assert(s.subrange(a, n + 1 + d) =~= trim(x).push(m) + trim(y));
}

proof fn lemma_collapse_lines(a: Seq<char>, b: Seq<char>)
    ensures
        collapse(a.push('\n') + b) == collapse(a).push('\n') + collapse(b),
    decreases b.len(),
{
    let s = a.push('\n') + b;
    if b.len() == 0 {
        assert(s =~= a.push('\n'));
        assert(s.drop_last() =~= a);
        assert(collapse(s) =~= collapse(a).push('\n') + collapse(b));
    } else {
        let d = b.drop_last();
        lemma_collapse_lines(a, d);
        assert(s.drop_last() =~= a.push('\n') + d);
        assert(s.last() == b.last());
        if b.len() > 1 {
            assert(s[s.len() - 2] == b[b.len() - 2]);
        } else {
            assert(s[s.len() - 2] == '\n');
        }
        assert(collapse(s) =~= collapse(a).push('\n') + collapse(b));
    }
}

proof fn lemma_join_ends(parts: Seq<Seq<char>>, sep: Seq<char>)
    requires
        parts.len() > 0,
    ensures
        parts.last().len() > 0 ==> join(parts, sep).len() > 0 && join(parts, sep).last()
            == parts.last().last(),
        parts[0].len() > 0 ==> join(parts, sep).len() > 0 && join(parts, sep)[0] == parts[0][0],
    decreases parts.len(),
{
    if parts.len() > 1 {
        lemma_join_ends(parts.drop_last(), sep);
        assert(parts.drop_last()[0] == parts[0]);
    }
}

proof fn lemma_line_ends(piece: Seq<char>)
    requires
        trim(piece).len() > 0,
    ensures
        line_of(piece).len() > 0,
        !is_white(line_of(piece)[0]),
        !is_white(line_of(piece).last()),
{
    let (a, b) = law_trim(piece);
    let t = trim(piece);
    assert(t[0] == piece[a] && t.last() == piece[b - 1]);
    law_line(piece);
    if vstd::utf8::encode_utf8(t).len() > 10_000 {
        let n = line_of(piece).len() - 3;
        assert(line_of(piece).last() == '.');
        if n > 0 {
            assert(line_of(piece)[0] == t[0]);
        } else {
            assert(line_of(piece)[0] == '.');
        }
    }
}

/// A line break between two lines that are not blank stays: the normal form of
/// a text is that of what stands before such a break, the break, and that of
/// what stands behind it.
pub proof fn law_line_breaks_stay(a: Seq<char>, b: Seq<char>)
    requires
        trim(pieces(collapse(a)).last()).len() > 0,
        trim(pieces(collapse(b))[0]).len() > 0,
    ensures
        normal_form(a.push('\n') + b) == normal_form(a).push('\n') + normal_form(b),
{
    reveal_strlit("\n");
    let br = "\n"@;
    assert(br =~= seq!['\n']);
    let f = |p: Seq<char>| line_of(p);
    let (ca, cb) = (collapse(a), collapse(b));
    lemma_collapse_lines(a, b);
    let x = ca.push('\n');
    lemma_pieces_behind(x, cb);
    assert(x.drop_last() =~= ca);
    assert(pieces(x).drop_last() =~= pieces(ca));
    lemma_pieces_len(ca);
    lemma_pieces_len(cb);
    let (la, lb) = (pieces(ca).map_values(f), pieces(cb).map_values(f));
    assert((pieces(ca) + pieces(cb)).map_values(f) =~= la + lb);
    law_join(la, lb, Seq::empty(), br);
    let (ja, jb) = (join(la, br), join(lb, br));
    assert(ja + br + jb =~= ja.push('\n') + jb);
    lemma_line_ends(pieces(ca).last());
    lemma_line_ends(pieces(cb)[0]);
    assert(la.last() == line_of(pieces(ca).last()));
    assert(lb[0] == line_of(pieces(cb)[0]));
    lemma_join_ends(la, br);
    lemma_join_ends(lb, br);
    lemma_trim_two(ja, '\n', jb);
}

proof fn lemma_one_line(s: Seq<char>)
    requires
        !s.contains('\n'),
        utf8_len(s) <= 10_000,
    ensures
        normal_form(s) == trim(collapse(s)),
{
    let c = collapse(s);
    assert(!c.contains('\n')) by {
        lemma_no_break(s);
    }
    let none = Seq::<char>::empty();
    lemma_pieces_append(none, c);
    assert(none + c =~= c);
    assert(pieces(none).drop_last() =~= Seq::empty());
    assert(pieces(none).last() + c =~= c);
    assert(pieces(c) =~= seq![c]);
    lemma_collapse_keeps(s);
    lemma_trim_visible(c);
    let lines = pieces(c).map_values(|p: Seq<char>| line_of(p));
    assert(lines =~= seq![trim(c)]);
    assert(join(lines, "\n"@) == trim(c));
    let (a, b) = law_trim(c);
    assert(is_trimmed(trim(c))) by {
        if a < b {
            assert(trim(c)[0] == c[a] && trim(c).last() == c[b - 1]);
        }
    }
    lemma_trim_again(trim(c));
}

proof fn lemma_no_break(s: Seq<char>)
    requires
        !s.contains('\n'),
    ensures
        !collapse(s).contains('\n'),
    decreases s.len(),
{
    if s.len() > 0 {
        let d = s.drop_last();
        assert(!d.contains('\n')) by {
            if d.contains('\n') {
                let i = choose|i: int| 0 <= i < d.len() && d[i] == '\n';
                assert(s[i] == '\n');
            }
        }
        assert(s[s.len() - 1] != '\n');
        lemma_no_break(d);
        let r = collapse(s);
        if r.contains('\n') {
            let i = choose|i: int| 0 <= i < r.len() && r[i] == '\n';
            if i < collapse(d).len() {
                assert(collapse(d)[i] == '\n');
            }
        }
    }
}

proof fn lemma_collapse_blanks(a: Seq<char>, w: Seq<char>)
    requires
        a.len() > 0,
        !is_blank(a.last()),
        forall|i: int| 0 <= i < w.len() ==> is_blank(#[trigger] w[i]),
    ensures
        w.len() > 0 ==> collapse(a + w) == collapse(a).push(' '),
        w.len() == 0 ==> collapse(a + w) == collapse(a),
    decreases w.len(),
{
    let s = a + w;
    if w.len() == 0 {
        assert(s =~= a);
    } else {
        let d = w.drop_last();
        assert forall|i: int| 0 <= i < d.len() implies is_blank(#[trigger] d[i]) by {
            assert(d[i] == w[i]);
        }
        lemma_collapse_blanks(a, d);
        assert(s.drop_last() =~= a + d);
        assert(s.last() == w.last());
        assert(is_blank(w[w.len() - 1]));
        if d.len() > 0 {
            assert(s[s.len() - 2] == d[d.len() - 1]);
        } else {
            assert(s[s.len() - 2] == a.last());
        }
    }
}

proof fn lemma_collapse_behind(x: Seq<char>, b: Seq<char>)
    requires
        b.len() > 0,
        !is_blank(b[0]),
    ensures
        collapse(x + b) == collapse(x) + collapse(b),
    decreases b.len(),
{
    let s = x + b;
    let d = b.drop_last();
    assert(s.drop_last() =~= x + d);
    assert(s.last() == b.last());
    if b.len() == 1 {
        assert(x + d =~= x);
        assert(b[0] == b.last());
        assert(collapse(d) =~= Seq::empty());
        assert(collapse(s) =~= collapse(x) + collapse(b));
    } else {
        assert(d[0] == b[0]);
        lemma_collapse_behind(x, d);
        assert(s[s.len() - 2] == b[b.len() - 2]);
        assert(collapse(s) =~= collapse(x) + collapse(b));
    }
}

proof fn lemma_collapse_words(w: Seq<char>)
    requires
        forall|i: int| 0 <= i < w.len() ==> is_visible(#[trigger] w[i]),
    ensures
        collapse(w) == w,
    decreases w.len(),
{
    if w.len() > 0 {
        let d = w.drop_last();
        assert forall|i: int| 0 <= i < d.len() implies is_visible(#[trigger] d[i]) by {
            assert(d[i] == w[i]);
        }
        lemma_collapse_words(d);
        assert(is_visible(w[w.len() - 1]));
        assert(d.push(w.last()) =~= w);
    } else {
        assert(w =~= Seq::empty());
    }
}

/// Between two words of a line that is not too long there is one space in the
/// normal form, however many blanks and control characters there were; a word
/// alone stays as it is.
pub proof fn law_one_space_between(a: Seq<char>, blanks: Seq<char>, word: Seq<char>)
    requires
        utf8_len(a + blanks + word) <= 10_000,
        !a.contains('\n'),
        a.len() > 0,
        is_visible(a.last()),
        blanks.len() > 0,
        forall|i: int|
            0 <= i < blanks.len() ==> #[trigger] blanks[i] != '\n' && !is_visible(blanks[i]),
        word.len() > 0,
        forall|i: int| 0 <= i < word.len() ==> is_visible(#[trigger] word[i]),
    ensures
        normal_form(word) == word,
        normal_form(a + blanks + word) == normal_form(a).push(' ') + word,
{
    let s = a + blanks + word;
    assert(!word.contains('\n')) by {
        if word.contains('\n') {
            let i = choose|i: int| 0 <= i < word.len() && word[i] == '\n';
            assert(is_visible(word[i]));
        }
    }
    assert(!s.contains('\n')) by {
        if s.contains('\n') {
            let i = choose|i: int| 0 <= i < s.len() && s[i] == '\n';
            if i < a.len() {
                assert(a[i] == '\n');
            } else if i < a.len() + blanks.len() {
                assert(blanks[i - a.len()] == '\n');
            } else {
                assert(word[i - a.len() - blanks.len()] == '\n');
            }
        }
    }
    crate::text::lemma_utf8_len_add(a + blanks, word);
    crate::text::lemma_utf8_len_add(a, blanks);
    lemma_one_line(word);
    lemma_one_line(a);
    lemma_one_line(s);
    lemma_collapse_words(word);
    assert(is_visible(word[0]) && is_visible(word[word.len() - 1]));
    assert forall|i: int| 0 <= i < word.len() implies !is_white(#[trigger] word[i]) by {
        assert(is_visible(word[i]));
    }
    lemma_trim_is(word, 0, word.len() as int);
    assert(word.subrange(0, word.len() as int) =~= word);
    lemma_collapse_blanks(a, blanks);
    lemma_collapse_behind(a + blanks, word);
    lemma_collapse(a);
    let c = collapse(a);
    assert(c.last() == a.last());
    lemma_trim_two(c, ' ', word);
}

} // verus!
