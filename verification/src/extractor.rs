//! Words of a page: from the characters that the page holds to its text and
//! the tokens in it.

use vstd::prelude::*;

use crate::pdfium::{error_meaning, error_str, FPDF_ERR_FILE, FPDF_ERR_FORMAT};
use crate::text::{chars_of, is_white, join, joined, string_of, texts, trim, trim_end};
use crate::tokenizers::{
    are_runs, find_tokens, in_token_class, is_one_token, is_run, token_runs, token_texts,
};

verus! {

/// A word on a page with its box. The coordinates are the bit patterns of
/// numbers of 32 bits, in points from the upper left corner.
#[derive(Debug)]
pub struct WordPosition {
    pub page: u32,
    pub x_min: u32,
    pub y_min: u32,
    pub x_max: u32,
    pub y_max: u32,
    pub text: String,
}

/// The tokens of a text, with one space between each two of them.
pub fn clean_word_text(s: &str) -> (r: String)
    ensures
        r@ == join(token_texts(s@), " "@),
{
    let found = find_tokens(s);
    let mut parts: Vec<String> = Vec::new();
    let ghost given = found@;
    for t in it: found
        invariant
            it.seq() == given,
            are_runs(given, s@),
            parts@.len() == it.index(),
            forall|k: int| 0 <= k < parts@.len() ==> (#[trigger] parts@[k])@ == token_texts(s@)[k],
    {
        assert(is_run(given[it.index()], s@, it.index()));
        parts.push(t.text);
    }
    assert(texts(parts@) =~= token_texts(s@));
    joined(&parts, " ")
}

/// Whether a text is one token as a whole.
pub fn is_single_token(s: &str) -> (b: bool)
    ensures
        b <==> token_texts(s@) == seq![s@],
{
    proof {
        crate::tokenizers::law_one_token(s@);
    }
    is_one_token(s)
}

// ---------------------------------------------------------------------------
// Segments of a word
// ---------------------------------------------------------------------------

/// A token on a page: its text, and which of the characters with a box, in
/// the order of the page, it is made of.
#[derive(Debug)]
pub struct WordSpan {
    pub page: u32,
    pub text: String,
    pub first: usize,
    pub end: usize,
}

/// What a span says.
pub struct SpanModel {
    pub page: u32,
    pub text: Seq<char>,
    pub first: int,
    pub end: int,
}

/// What a span says.
pub open spec fn span_model(s: WordSpan) -> SpanModel {
    SpanModel { page: s.page, text: s.text@, first: s.first as int, end: s.end as int }
}

/// What spans say.
pub open spec fn span_models(s: Seq<WordSpan>) -> Seq<SpanModel> {
    s.map_values(|w: WordSpan| span_model(w))
}

/// The texts of spans.
pub open spec fn span_texts(s: Seq<SpanModel>) -> Seq<Seq<char>> {
    s.map_values(|w: SpanModel| w.text)
}

/// The tokens of a word whose characters begin at character `base`.
pub open spec fn segments(word: Seq<char>, base: int, page: u32) -> Seq<SpanModel> {
    token_runs(word).map_values(
        |r: (int, int)|
            SpanModel {
                page,
                text: word.subrange(r.0, r.1),
                first: base + r.0,
                end: base + r.1,
            },
    )
}

/// How many characters of `v` take the first `bytes` bytes.
fn char_index(v: &Vec<char>, bytes: usize, Ghost(k): Ghost<int>) -> (i: usize)
    requires
        0 <= k <= v@.len(),
        bytes == crate::text::utf8_len(v@.take(k)),
    ensures
        i == k,
{
    let (i, n) = crate::text::prefix_within(v, 0, v.len(), bytes);
    proof {
        assert(v@.subrange(0, v@.len() as int) =~= v@);
        assert(v@.subrange(0, i as int) =~= v@.take(i as int));
        assert(crate::text::is_boundary(v@, bytes as nat));
        if i < k {
            crate::text::lemma_utf8_len_take(v@, i as int, k);
        } else if k < i {
            crate::text::lemma_utf8_len_take(v@, k, i as int);
        }
    }
    i
}

/// Cuts a word into its tokens. The word begins at character `base` of its
/// page.
pub fn split_word_into_segments(raw_word: &str, base: usize, page: u32) -> (spans: Vec<WordSpan>)
    requires
        base + raw_word@.len() <= usize::MAX,
    ensures
        span_models(spans@) == segments(raw_word@, base as int, page),
{
    let found = find_tokens(raw_word);
    let v = chars_of(raw_word);
    let mut spans: Vec<WordSpan> = Vec::new();
    let ghost given = found@;
    proof {
        crate::tokenizers::lemma_token_runs(raw_word@);
    }
    for t in it: found
        invariant
            it.seq() == given,
            are_runs(given, raw_word@),
            v@ == raw_word@,
            base + raw_word@.len() <= usize::MAX,
            spans@.len() == it.index(),
            forall|i: int|
                0 <= i < token_runs(raw_word@).len() ==> 0 <= (#[trigger] token_runs(
                    raw_word@,
                )[i]).0 < token_runs(raw_word@)[i].1 <= raw_word@.len(),
            forall|k: int|
                0 <= k < spans@.len() ==> span_model(#[trigger] spans@[k]) == segments(
                    raw_word@,
                    base as int,
                    page,
                )[k],
    {
        let ghost r = token_runs(raw_word@)[it.index()];
        assert(is_run(given[it.index()], raw_word@, it.index()));
        let a = char_index(&v, t.offset_from, Ghost(r.0));
        let b = char_index(&v, t.offset_to, Ghost(r.1));
        spans.push(WordSpan { page, text: t.text, first: base + a, end: base + b });
    }
    assert(span_models(spans@) =~= segments(raw_word@, base as int, page));
    spans
}

// ---------------------------------------------------------------------------
// The text of a page
// ---------------------------------------------------------------------------

/// Whether a number is a Unicode scalar value.
pub open spec fn is_scalar(code: u32) -> bool {
    code <= 0xd7ff || 0xe000 <= code <= 0x10ffff
}

/// `char::from_u32`: the character with a scalar value, none for other
/// numbers.
pub assume_specification[ char::from_u32 ](i: u32) -> (r: Option<char>)
    ensures
        r == if is_scalar(i) {
            Some(i as char)
        } else {
            None
        },
;

/// What has been read of a document: its text, the tokens found so far, the
/// word that is being read, how many characters with a box the page had, and
/// whether the last character was a separator.
pub struct TextModel {
    pub text: Seq<char>,
    pub spans: Seq<SpanModel>,
    pub word: Seq<char>,
    pub glyphs: nat,
    pub after_space: bool,
}

/// The end of a word: its tokens are found.
pub open spec fn end_word(m: TextModel, page: u32) -> TextModel {
    TextModel {
        spans: m.spans + segments(m.word, m.glyphs - m.word.len(), page),
        word: Seq::empty(),
        ..m
    }
}

/// A separator: it ends a word and leaves a space, or a line break, in the
/// text; spaces do not follow each other.
pub open spec fn separate(m: TextModel, page: u32, line_break: bool) -> TextModel {
    let e = end_word(m, page);
    TextModel {
        text: if line_break {
            m.text.push('\n')
        } else if !m.after_space {
            m.text.push(' ')
        } else {
            m.text
        },
        after_space: true,
        ..e
    }
}

/// A character of a word. Where it stands apart from the one before, the word
/// ends first and a space follows.
pub open spec fn word_char(m: TextModel, page: u32, c: char, gap: bool) -> TextModel {
    let b = if m.word.len() > 0 && gap {
        TextModel { text: m.text.push(' '), ..end_word(m, page) }
    } else {
        m
    };
    TextModel {
        text: b.text.push(c),
        word: b.word.push(c),
        glyphs: b.glyphs + 1,
        after_space: false,
        ..b
    }
}

/// One character of a page: the value that the page gives it, whether it has
/// a box, and whether its box stands apart from the one before. A character
/// without value or box separates; a value that is no character is passed
/// over.
pub open spec fn read_char(
    m: TextModel,
    page: u32,
    code: u32,
    has_box: bool,
    gap: bool,
) -> TextModel {
    if code == 0 || !has_box {
        separate(m, page, false)
    } else if !is_scalar(code) {
        m
    } else if is_white(code as char) {
        separate(m, page, code as char == '\n' || code as char == '\r')
    } else {
        word_char(m, page, code as char, gap)
    }
}

/// The end of a page: an open word ends, with a space behind it.
pub open spec fn end_page(m: TextModel, page: u32) -> TextModel {
    if m.word.len() > 0 {
        TextModel { text: m.text.push(' '), ..end_word(m, page) }
    } else {
        m
    }
}

/// The start of a page.
pub open spec fn start_page(m: TextModel) -> TextModel {
    TextModel { word: Seq::empty(), glyphs: 0, after_space: true, ..m }
}

/// A document of which nothing has been read.
pub open spec fn empty_document() -> TextModel {
    TextModel {
        text: Seq::empty(),
        spans: Seq::empty(),
        word: Seq::empty(),
        glyphs: 0,
        after_space: true,
    }
}

/// What became of a character of a page.
#[derive(Clone, Copy, PartialEq, Eq, Structural, Debug)]
pub enum CharOutcome {
    /// It separates words.
    Separator,
    /// It is no character.
    Skipped,
    /// It belongs to a word; its box is the next one of the page.
    Word,
}

/// What `read_char` makes of a character.
pub open spec fn char_outcome(code: u32, has_box: bool) -> CharOutcome {
    if code == 0 || !has_box {
        CharOutcome::Separator
    } else if !is_scalar(code) {
        CharOutcome::Skipped
    } else if is_white(code as char) {
        CharOutcome::Separator
    } else {
        CharOutcome::Word
    }
}

proof fn lemma_one_segment(word: Seq<char>, base: int, page: u32)
    requires
        token_runs(word) == seq![(0int, word.len() as int)],
    ensures
        segments(word, base, page) == seq![
            SpanModel { page, text: word, first: base, end: base + word.len() },
        ],
{
    assert(word.subrange(0, word.len() as int) =~= word);
    assert(segments(word, base, page) =~= seq![
        SpanModel { page, text: word, first: base, end: base + word.len() },
    ]);
}

/// Reads the characters of a document, page by page.
pub struct TextReader {
    text: String,
    spans: Vec<WordSpan>,
    word: String,
    word_len: usize,
    glyphs: usize,
    after_space: bool,
    page: u32,
}

impl TextReader {
    /// What has been read.
    pub closed spec fn model(self) -> TextModel {
        TextModel {
            text: self.text@,
            spans: span_models(self.spans@),
            word: self.word@,
            glyphs: self.glyphs as nat,
            after_space: self.after_space,
        }
    }

    /// The page that is being read.
    pub closed spec fn page(self) -> u32 {
        self.page
    }

    /// Whether the word in hand is counted among the characters of the page,
    /// and follows them without a separator.
    pub closed spec fn wf(self) -> bool {
        &&& self.word_len == self.word@.len()
        &&& self.word@.len() <= self.glyphs
        &&& self.word@.len() > 0 ==> !self.after_space
    }

    /// A document of which nothing has been read.
    pub fn new() -> (r: Self)
        ensures
            r.wf(),
            r.model() == empty_document(),
            r.page() == 0,
    {
        let r = TextReader {
            text: String::new(),
            spans: Vec::new(),
            word: String::new(),
            word_len: 0,
            glyphs: 0,
            after_space: true,
            page: 0,
        };
        assert(r.model().spans =~= Seq::empty());
        r
    }

    /// Starts the page `page`.
    pub fn start_page(&mut self, page: u32)
        requires
            old(self).wf(),
        ensures
            final(self).wf(),
            final(self).page() == page,
            final(self).model() == start_page(old(self).model()),
    {
        self.word = String::new();
        self.word_len = 0;
        self.glyphs = 0;
        self.after_space = true;
        self.page = page;
    }

    /// Ends the word in hand, if there is one.
    fn flush_word(&mut self)
        requires
            old(self).wf(),
        ensures
            final(self).wf(),
            final(self).page() == old(self).page(),
            final(self).model() == end_word(old(self).model(), old(self).page()),
    {
        if self.word_len == 0 {
            proof {
                assert(self.word@ =~= Seq::empty());
                assert(segments(self.word@, self.glyphs as int, self.page) =~= Seq::empty());
                assert(span_models(self.spans@) + Seq::<SpanModel>::empty() =~= span_models(
                    self.spans@,
                ));
            }
            return;
        }
        let base = self.glyphs - self.word_len;
        let mut word = String::new();
        std::mem::swap(&mut word, &mut self.word);
        self.word_len = 0;
        let ghost before = self.spans@;
        let mut found: Vec<WordSpan> = if is_single_token(word.as_str()) {
            proof {
                crate::tokenizers::law_one_token(word@);
                lemma_one_segment(word@, base as int, self.page);
            }
            let ghost text = word@;
            let mut one: Vec<WordSpan> = Vec::new();
            one.push(WordSpan { page: self.page, text: word, first: base, end: self.glyphs });
            assert(span_models(one@) =~= segments(text, base as int, self.page));
            one
        } else {
            split_word_into_segments(word.as_str(), base, self.page)
        };
        let ghost f = found@;
        self.spans.append(&mut found);
        assert(span_models(self.spans@) =~= span_models(before) + span_models(f));
    }

    /// Reads one character: the value that the page gives it, whether it has
    /// a box, and whether its box stands apart from that of the character of
    /// a word before it.
    pub fn read_char(&mut self, code: u32, has_box: bool, gap: bool) -> (outcome: CharOutcome)
        requires
            old(self).wf(),
            old(self).model().glyphs < usize::MAX,
        ensures
            final(self).wf(),
            final(self).page() == old(self).page(),
            final(self).model() == read_char(
                old(self).model(),
                old(self).page(),
                code,
                has_box,
                gap,
            ),
            outcome == char_outcome(code, has_box),
    {
        if code == 0 || !has_box {
            self.flush_word();
            if !self.after_space {
                self.text.push(' ');
            }
            self.after_space = true;
            return CharOutcome::Separator;
        }
        let c = match char::from_u32(code) {
            Some(c) => c,
            None => {
                return CharOutcome::Skipped;
            },
        };
        if crate::text::is_whitespace(c) {
            self.flush_word();
            if c == '\n' || c == '\r' {
                self.text.push('\n');
            } else if !self.after_space {
                self.text.push(' ');
            }
            self.after_space = true;
            CharOutcome::Separator
        } else {
            if self.word_len > 0 && gap {
                self.flush_word();
                self.text.push(' ');
            }
            self.word.push(c);
            self.word_len = self.word_len + 1;
            self.glyphs = self.glyphs + 1;
            self.text.push(c);
            self.after_space = false;
            CharOutcome::Word
        }
    }

    /// Ends the page.
    pub fn end_page(&mut self)
        requires
            old(self).wf(),
        ensures
            final(self).wf(),
            final(self).page() == old(self).page(),
            final(self).model() == end_page(old(self).model(), old(self).page()),
    {
        if self.word_len > 0 {
            self.flush_word();
            self.text.push(' ');
        }
    }

    /// The text and the tokens that were read.
    pub fn into_parts(self) -> (r: (String, Vec<WordSpan>))
        ensures
            r.0@ == self.model().text,
            span_models(r.1@) == self.model().spans,
    {
        (self.text, self.spans)
    }
}

// ---------------------------------------------------------------------------
// Text and tokens in step
// ---------------------------------------------------------------------------

/// Whether the tokens found so far are those of the text before the word in
/// hand, and no token of that text runs into the word.
pub open spec fn in_step(m: TextModel) -> bool {
    let n = m.text.len() - m.word.len();
    &&& 0 <= n
    &&& m.text.skip(n) == m.word
    &&& token_texts(m.text.take(n)) == span_texts(m.spans)
    &&& n == 0 || !in_token_class(m.text[n - 1])
    &&& m.word.len() > 0 ==> !m.after_space
}

proof fn lemma_end_word(m: TextModel, page: u32, sep: char)
    requires
        in_step(m),
        !in_token_class(sep),
    ensures
        in_step(
            TextModel { text: m.text.push(sep), after_space: true, ..end_word(m, page) },
        ),
        m.word.len() == 0 ==> in_step(TextModel { after_space: true, ..end_word(m, page) }),
        span_texts(end_word(m, page).spans) == token_texts(m.text),
{
    let n = m.text.len() - m.word.len();
    let front = m.text.take(n);
    assert(m.text =~= front + m.word);
    assert(n > 0 ==> front.last() == m.text[n - 1]);
    crate::tokenizers::law_tokens_concat(front, m.word);
    let e = end_word(m, page);
    let segs = segments(m.word, m.glyphs - m.word.len(), page);
    assert(span_texts(segs) =~= token_texts(m.word));
    assert(span_texts(m.spans + segs) =~= span_texts(m.spans) + span_texts(segs));
    let s = seq![sep];
    crate::tokenizers::lemma_no_tokens(s);
    crate::tokenizers::law_tokens_concat(m.text, s);
    let t = m.text.push(sep);
    assert(t =~= m.text + s);
    assert(t.take(t.len() as int) =~= t);
    assert(t.skip(t.len() as int) =~= Seq::empty());
    assert(token_texts(t) =~= token_texts(m.text));
    if m.word.len() == 0 {
        assert(m.text.take(m.text.len() as int) =~= m.text);
        assert(m.text.skip(m.text.len() as int) =~= Seq::empty());
    }
}

/// Reading keeps tokens and text in step: whatever a page gives, the tokens
/// found are those of the text before the word in hand.
pub proof fn law_reading_in_step(m: TextModel, page: u32, code: u32, has_box: bool, gap: bool)
    requires
        in_step(m),
    ensures
        in_step(read_char(m, page, code, has_box, gap)),
        in_step(end_page(m, page)),
        end_page(m, page).word.len() == 0,
{
    lemma_end_word(m, page, ' ');
    lemma_end_word(m, page, '\n');
    let r = read_char(m, page, code, has_box, gap);
    if m.word.len() > 0 {
        let e = TextModel { text: m.text.push(' '), ..end_word(m, page) };
        assert(in_step(TextModel { after_space: true, ..e }));
    }
    if code != 0 && has_box && is_scalar(code) && !is_white(code as char) {
        let c = code as char;
        let b = if m.word.len() > 0 && gap {
            TextModel { text: m.text.push(' '), ..end_word(m, page) }
        } else {
            m
        };
        let n = b.text.len() - b.word.len();
        if m.word.len() > 0 && gap {
            assert(in_step(TextModel { after_space: true, ..b }));
        }
        assert(b.text.push(c).take(n) =~= b.text.take(n));
        assert(b.text.push(c).skip(n) =~= b.text.skip(n).push(c));
    }
}

/// A document starts in step, and so does each page after a page that ended.
pub proof fn law_start_in_step(m: TextModel)
    requires
        in_step(m),
        m.word.len() == 0,
    ensures
        in_step(empty_document()),
        in_step(start_page(m)),
{
    let e = empty_document();
    assert(e.text.take(0) =~= Seq::empty());
    assert(e.text.skip(0) =~= e.word);
    assert(token_texts(Seq::<char>::empty()) =~= Seq::empty());
    assert(span_texts(e.spans) =~= Seq::empty());
    assert(m.text.skip(m.text.len() as int) =~= Seq::empty());
}

/// Whether the text of each span is one token: it is not empty, and there is
/// neither a space nor another separator in it.
pub open spec fn one_token_each(spans: Seq<SpanModel>) -> bool {
    forall|i: int|
        0 <= i < spans.len() ==> token_texts((#[trigger] spans[i]).text) == seq![spans[i].text]
}

proof fn lemma_segments_are_tokens(word: Seq<char>, base: int, page: u32)
    ensures
        one_token_each(segments(word, base, page)),
{
    let found = segments(word, base, page);
    crate::tokenizers::lemma_token_runs(word);
    assert forall|i: int| 0 <= i < found.len() implies token_texts((#[trigger] found[i]).text)
        == seq![found[i].text] by {
        let r = token_runs(word)[i];
        let t = found[i].text;
        assert forall|k: int| 0 <= k < t.len() implies in_token_class(#[trigger] t[k]) by {
            assert(t[k] == word[r.0 + k]);
        }
        crate::tokenizers::law_one_token(t);
    }
}

/// Whatever a page gives, the text of each word that is found is one token.
pub proof fn law_words_are_tokens(m: TextModel, page: u32, code: u32, has_box: bool, gap: bool)
    requires
        one_token_each(m.spans),
    ensures
        one_token_each(empty_document().spans),
        one_token_each(start_page(m).spans),
        one_token_each(read_char(m, page, code, has_box, gap).spans),
        one_token_each(end_page(m, page).spans),
{
    lemma_segments_are_tokens(m.word, m.glyphs - m.word.len(), page);
}

// ---------------------------------------------------------------------------
// The result of an extraction
// ---------------------------------------------------------------------------

/// What an extraction gives: the text, whether it has to be recognised from
/// images, and the words with their places.
pub struct ExtractionResult<W> {
    pub text: String,
    pub ocr_flag: bool,
    pub word_positions: Vec<W>,
    pub page_count: u32,
    pub extraction_ms: u64,
}

/// Builds the result of an extraction. Where the pages had no character, or
/// the text is blank, nothing is kept and the document is marked for text
/// recognition. Otherwise the text loses its trailing whitespace.
pub fn build_result<W>(
    text: String,
    word_positions: Vec<W>,
    total_chars: usize,
    page_count: u32,
    extraction_ms: u64,
) -> (r: ExtractionResult<W>)
    ensures
        r.ocr_flag <==> (total_chars == 0 || trim(text@).len() == 0),
        r.text@ == if r.ocr_flag {
            Seq::empty()
        } else {
            trim_end(text@)
        },
        r.word_positions@ == if r.ocr_flag {
            Seq::empty()
        } else {
            word_positions@
        },
        r.page_count == page_count,
        r.extraction_ms == extraction_ms,
{
    let v = chars_of(text.as_str());
    assert(v@.subrange(0, v@.len() as int) =~= v@);
    let (a, b) = crate::text::trim_bounds(&v, 0, v.len());
    if total_chars == 0 || a == b {
        ExtractionResult {
            text: String::new(),
            ocr_flag: true,
            word_positions: Vec::new(),
            page_count,
            extraction_ms,
        }
    } else {
        let end = crate::text::skip_white_back(&v, 0, v.len());
        ExtractionResult {
            text: string_of(&v, 0, end),
            ocr_flag: false,
            word_positions,
            page_count,
            extraction_ms,
        }
    }
}

/// The result of a document that could not be opened, with the code of the
/// last error. A file that is missing or malformed is an error; where there is
/// another reason, the document is marked for text recognition.
pub fn unopened_result<W>(code: u32, extraction_ms: u64) -> (r: Result<ExtractionResult<W>, String>)
    ensures
        match r {
            Ok(x) => {
                &&& code != FPDF_ERR_FILE && code != FPDF_ERR_FORMAT
                &&& x.text@ == Seq::<char>::empty()
                &&& x.ocr_flag
                &&& x.word_positions@ == Seq::<W>::empty()
                &&& x.page_count == 0
                &&& x.extraction_ms == extraction_ms
            },
            Err(message) => {
                &&& code == FPDF_ERR_FILE || code == FPDF_ERR_FORMAT
                &&& message@ == "Failed to load PDF: "@ + error_meaning(code)
            },
        },
{
    if code == FPDF_ERR_FILE || code == FPDF_ERR_FORMAT {
        let mut message = String::new();
        message.push_str("Failed to load PDF: ");
        message.push_str(error_str(code));
        assert(message@ =~= "Failed to load PDF: "@ + error_meaning(code));
        return Err(message);
    }
    Ok(
        ExtractionResult {
            text: String::new(),
            ocr_flag: true,
            word_positions: Vec::new(),
            page_count: 0,
            extraction_ms,
        },
    )
}

/// Trailing whitespace holds no token: a result has the tokens of the text
/// that was read.
pub proof fn law_trimming_keeps_tokens(s: Seq<char>)
    ensures
        token_texts(trim_end(s)) == token_texts(s),
{
    crate::text::lemma_trim_end(s);
    let a = trim_end(s);
    let b = s.skip(a.len() as int);
    assert(s =~= a + b);
    assert forall|i: int| 0 <= i < b.len() implies !in_token_class(#[trigger] b[i]) by {
        assert(is_white(s[a.len() + i]));
    }
    crate::tokenizers::lemma_no_tokens(b);
    crate::tokenizers::law_tokens_concat(a, b);
    assert(token_texts(a) + Seq::<Seq<char>>::empty() =~= token_texts(a));
}

// ---------------------------------------------------------------------------
// Whole documents
// ---------------------------------------------------------------------------

/// A character as a page gives it: its value, whether it has a box, and
/// whether its box stands apart from the one before.
pub struct GivenChar {
    pub code: u32,
    pub has_box: bool,
    pub gap: bool,
}

/// The characters of a page, read one after the other.
pub open spec fn read_chars(m: TextModel, page: u32, chars: Seq<GivenChar>) -> TextModel
    decreases chars.len(),
{
    if chars.len() == 0 {
        m
    } else {
        let c = chars.last();
        read_char(read_chars(m, page, chars.drop_last()), page, c.code, c.has_box, c.gap)
    }
}

/// A document, read page by page: the number and the characters of each.
pub open spec fn read_pages(pages: Seq<(u32, Seq<GivenChar>)>) -> TextModel
    decreases pages.len(),
{
    if pages.len() == 0 {
        empty_document()
    } else {
        let (page, chars) = pages.last();
        end_page(read_chars(start_page(read_pages(pages.drop_last())), page, chars), page)
    }
}

proof fn lemma_read_chars(m: TextModel, page: u32, chars: Seq<GivenChar>)
    requires
        in_step(m),
        one_token_each(m.spans),
    ensures
        in_step(read_chars(m, page, chars)),
        one_token_each(read_chars(m, page, chars).spans),
    decreases chars.len(),
{
    if chars.len() > 0 {
        let c = chars.last();
        let before = read_chars(m, page, chars.drop_last());
        lemma_read_chars(m, page, chars.drop_last());
        law_reading_in_step(before, page, c.code, c.has_box, c.gap);
        law_words_are_tokens(before, page, c.code, c.has_box, c.gap);
    }
}

proof fn lemma_read_pages(pages: Seq<(u32, Seq<GivenChar>)>)
    ensures
        in_step(read_pages(pages)),
        one_token_each(read_pages(pages).spans),
        read_pages(pages).word.len() == 0,
    decreases pages.len(),
{
    if pages.len() == 0 {
        let e = empty_document();
        assert(e.text.take(0) =~= Seq::empty());
        assert(e.text.skip(0) =~= e.word);
        assert(token_texts(Seq::<char>::empty()) =~= Seq::empty());
        assert(span_texts(e.spans) =~= Seq::empty());
    } else {
        let (page, chars) = pages.last();
        let before = read_pages(pages.drop_last());
        lemma_read_pages(pages.drop_last());
        law_start_in_step(before);
        law_words_are_tokens(before, page, 0, false, false);
        lemma_read_chars(start_page(before), page, chars);
        let m = read_chars(start_page(before), page, chars);
        law_reading_in_step(m, page, 0, false, false);
        law_words_are_tokens(m, page, 0, false, false);
    }
}

/// Whatever its pages give, the words of a document are the tokens of its
/// text, each word one token, whether whitespace at the end of the text is cut
/// off or not.
pub proof fn law_words_of_document(pages: Seq<(u32, Seq<GivenChar>)>)
    ensures
        span_texts(read_pages(pages).spans) == token_texts(read_pages(pages).text),
        span_texts(read_pages(pages).spans) == token_texts(trim_end(read_pages(pages).text)),
        one_token_each(read_pages(pages).spans),
{
    lemma_read_pages(pages);
    let m = read_pages(pages);
    assert(m.text.take(m.text.len() as int) =~= m.text);
    law_trimming_keeps_tokens(m.text);
}

// ---------------------------------------------------------------------------
// What the pages hold, and what is read of it
// ---------------------------------------------------------------------------

/// Whether a page gives a character of a word: one with a box, whose value is
/// a Unicode scalar value, not zero and not whitespace.
pub open spec fn is_letter(c: GivenChar) -> bool {
    &&& c.has_box
    &&& 0 < c.code <= 0xd7ff || 0xe000 <= c.code <= 0x10ffff
    &&& !is_white(c.code as char)
}

/// The characters of words among those that a page gives, in their order.
pub open spec fn letters(chars: Seq<GivenChar>) -> Seq<char> {
    chars.filter(|c: GivenChar| is_letter(c)).map_values(|c: GivenChar| c.code as char)
}

/// The characters of words of all pages, in their order.
pub open spec fn all_letters(pages: Seq<(u32, Seq<GivenChar>)>) -> Seq<char>
    decreases pages.len(),
{
    if pages.len() == 0 {
        Seq::empty()
    } else {
        all_letters(pages.drop_last()) + letters(pages.last().1)
    }
}

proof fn lemma_letters(chars: Seq<GivenChar>)
    ensures
        chars.len() == 0 ==> letters(chars) == Seq::<char>::empty(),
        chars.len() > 0 ==> letters(chars) == if is_letter(chars.last()) {
            letters(chars.drop_last()).push(chars.last().code as char)
        } else {
            letters(chars.drop_last())
        },
{
    reveal(Seq::filter);
    if chars.len() > 0 {
        if is_letter(chars.last()) {
            assert(letters(chars) =~= letters(chars.drop_last()).push(chars.last().code as char));
        }
    } else {
        assert(letters(chars) =~= Seq::empty());
    }
}

/// Whether spans are tokens of the characters `line` of a page up to `upto`:
/// each has the characters that it names, they stand one behind the other, and
/// no character of a token is left out.
pub open spec fn are_tokens_of(
    spans: Seq<SpanModel>,
    page: u32,
    line: Seq<char>,
    upto: int,
) -> bool {
    &&& forall|i: int|
        0 <= i < spans.len() ==> {
            let s = #[trigger] spans[i];
            &&& s.page == page
            &&& 0 <= s.first < s.end <= upto
            &&& s.text == line.subrange(s.first, s.end)
        }
    &&& forall|i: int, j: int|
        0 <= i < j < spans.len() ==> (#[trigger] spans[i]).end <= (#[trigger] spans[j]).first
    &&& forall|k: int|
        0 <= k < upto && in_token_class(#[trigger] line[k]) ==> exists|i: int|
            0 <= i < spans.len() && (#[trigger] spans[i]).first <= k < spans[i].end
}

/// Whether a page that was read as far as `line` has its tokens in the spans
/// behind the first `start`, but for the word in hand, which is the end of
/// `line`.
spec fn is_page_read(m: TextModel, start: Seq<SpanModel>, page: u32, line: Seq<char>) -> bool {
    let n = line.len() - m.word.len();
    &&& 0 <= n
    &&& m.glyphs == line.len()
    &&& m.word == line.skip(n)
    &&& start.len() <= m.spans.len()
    &&& m.spans.take(start.len() as int) == start
    &&& are_tokens_of(m.spans.skip(start.len() as int), page, line, n)
}

proof fn lemma_word_read(m: TextModel, start: Seq<SpanModel>, page: u32, line: Seq<char>)
    requires
        is_page_read(m, start, page, line),
    ensures
        is_page_read(end_word(m, page), start, page, line),
{
    let n = line.len() - m.word.len();
    let a = m.spans.skip(start.len() as int);
    let segs = segments(m.word, n, page);
    let e = end_word(m, page);
    let b = e.spans.skip(start.len() as int);
    assert(b =~= a + segs);
    assert(e.spans.take(start.len() as int) =~= start);
    assert(line.skip(line.len() as int) =~= Seq::empty());
    let runs = token_runs(m.word);
    crate::tokenizers::lemma_token_runs(m.word);
    assert forall|i: int| 0 <= i < b.len() implies {
        let s = #[trigger] b[i];
        &&& s.page == page
        &&& 0 <= s.first < s.end <= line.len()
        &&& s.text == line.subrange(s.first, s.end)
    } by {
        if i < a.len() {
            assert(b[i] == a[i]);
        } else {
            assert(b[i] == segs[i - a.len()]);
            let r = runs[i - a.len()];
            assert(m.word.subrange(r.0, r.1) =~= line.subrange(n + r.0, n + r.1));
        }
    }
    assert forall|i: int, j: int| 0 <= i < j < b.len() implies (#[trigger] b[i]).end <= (
    #[trigger] b[j]).first by {
        if j < a.len() {
            assert(a[i].end <= a[j].first);
        } else {
            assert(b[j] == segs[j - a.len()]);
            if i < a.len() {
                assert(b[i] == a[i]);
                assert(runs[j - a.len()].0 >= 0);
            } else {
                assert(b[i] == segs[i - a.len()]);
                assert(runs[i - a.len()].1 < runs[j - a.len()].0);
            }
        }
    }
    assert forall|k: int| 0 <= k < line.len() && in_token_class(#[trigger] line[k]) implies exists|
        i: int,
    | 0 <= i < b.len() && (#[trigger] b[i]).first <= k < b[i].end by {
        if k < n {
            let i = choose|i: int| 0 <= i < a.len() && (#[trigger] a[i]).first <= k < a[i].end;
            assert(b[i] == a[i]);
        } else {
            assert(m.word[k - n] == line[k]);
            let i = choose|i: int|
                0 <= i < runs.len() && (#[trigger] runs[i]).0 <= k - n < runs[i].1;
            assert(b[a.len() + i] == segs[i]);
        }
    }
}

proof fn lemma_letter_read(
    m: TextModel,
    start: Seq<SpanModel>,
    page: u32,
    line: Seq<char>,
    c: char,
)
    requires
        is_page_read(m, start, page, line),
    ensures
        is_page_read(
            TextModel { word: m.word.push(c), glyphs: m.glyphs + 1, ..m },
            start,
            page,
            line.push(c),
        ),
{
    let n = line.len() - m.word.len();
    let l = line.push(c);
    assert(l.skip(n) =~= m.word.push(c));
    let a = m.spans.skip(start.len() as int);
    assert forall|i: int| 0 <= i < a.len() implies {
        let s = #[trigger] a[i];
        &&& s.page == page
        &&& 0 <= s.first < s.end <= n
        &&& s.text == l.subrange(s.first, s.end)
    } by {
        let s = a[i];
        assert(l.subrange(s.first, s.end) =~= line.subrange(s.first, s.end));
    }
    assert forall|k: int| 0 <= k < n && in_token_class(#[trigger] l[k]) implies exists|i: int|
        0 <= i < a.len() && (#[trigger] a[i]).first <= k < a[i].end by {
        assert(l[k] == line[k]);
    }
}

proof fn lemma_page_read(m: TextModel, page: u32, chars: Seq<GivenChar>)
    requires
        m.word.len() == 0,
        m.glyphs == 0,
    ensures
        is_page_read(read_chars(m, page, chars), m.spans, page, letters(chars)),
    decreases chars.len(),
{
    lemma_letters(chars);
    if chars.len() == 0 {
        assert(m.spans.take(m.spans.len() as int) =~= m.spans);
        assert(m.spans.skip(m.spans.len() as int) =~= Seq::empty());
        assert(m.word =~= letters(chars).skip(0));
    } else {
        let d = chars.drop_last();
        let c = chars.last();
        lemma_page_read(m, page, d);
        let b = read_chars(m, page, d);
        lemma_word_read(b, m.spans, page, letters(d));
        if is_letter(c) {
            if b.word.len() > 0 && c.gap {
                let e = TextModel { text: b.text.push(' '), ..end_word(b, page) };
                assert(is_page_read(e, m.spans, page, letters(d)));
                lemma_letter_read(e, m.spans, page, letters(d), c.code as char);
            } else {
                lemma_letter_read(b, m.spans, page, letters(d), c.code as char);
            }
        }
    }
}

/// The words of a page are the tokens of its characters, each where it stands:
/// a word has the number of the page, its text is made of the characters that
/// it names, words follow each other as their characters do, and every
/// character of a token belongs to a word. The words found before stay.
pub proof fn law_places_of_words(m: TextModel, page: u32, chars: Seq<GivenChar>)
    ensures
        ({
            let r = end_page(read_chars(start_page(m), page, chars), page);
            let n = m.spans.len() as int;
            &&& r.spans.take(n) == m.spans
            &&& are_tokens_of(r.spans.skip(n), page, letters(chars), letters(chars).len() as int)
        }),
{
    let b = read_chars(start_page(m), page, chars);
    lemma_page_read(start_page(m), page, chars);
    lemma_word_read(b, m.spans, page, letters(chars));
}

proof fn lemma_pushed_blank(t: Seq<char>, c: char)
    ensures
        is_white(c) ==> t.push(c).filter(|c: char| !is_white(c)) == t.filter(
            |c: char| !is_white(c),
        ),
        !is_white(c) ==> t.push(c).filter(|c: char| !is_white(c)) == t.filter(
            |c: char| !is_white(c),
        ).push(c),
{
    reveal(Seq::filter);
    assert(t.push(c).drop_last() =~= t);
}

proof fn lemma_letters_kept(m: TextModel, page: u32, chars: Seq<GivenChar>)
    ensures
        read_chars(m, page, chars).text.filter(|c: char| !is_white(c)) == m.text.filter(
            |c: char| !is_white(c),
        ) + letters(chars),
    decreases chars.len(),
{
    lemma_letters(chars);
    let keep = |c: char| !is_white(c);
    if chars.len() == 0 {
        assert(m.text.filter(keep) + Seq::<char>::empty() =~= m.text.filter(keep));
    } else {
        let d = chars.drop_last();
        let c = chars.last();
        lemma_letters_kept(m, page, d);
        let t = read_chars(m, page, d).text;
        lemma_pushed_blank(t, ' ');
        lemma_pushed_blank(t, '\n');
        if is_letter(c) {
            lemma_pushed_blank(t, c.code as char);
            lemma_pushed_blank(t.push(' '), c.code as char);
            assert(t.filter(keep).push(c.code as char) =~= m.text.filter(keep) + letters(chars));
        }
    }
}

/// The text of a document without its whitespace is the sequence of all
/// characters of its pages that have a box, are scalar values and are not
/// whitespace, in their order: none is left out, changed or made up.
pub proof fn law_text_is_the_letters(pages: Seq<(u32, Seq<GivenChar>)>)
    ensures
        read_pages(pages).text.filter(|c: char| !is_white(c)) == all_letters(pages),
    decreases pages.len(),
{
    let keep = |c: char| !is_white(c);
    if pages.len() == 0 {
        reveal(Seq::filter);
        assert(read_pages(pages).text.filter(keep) =~= Seq::empty());
    } else {
        let (page, chars) = pages.last();
        let before = read_pages(pages.drop_last());
        law_text_is_the_letters(pages.drop_last());
        lemma_letters_kept(start_page(before), page, chars);
        lemma_pushed_blank(read_chars(start_page(before), page, chars).text, ' ');
    }
}

/// What a page gives is a character of a word exactly where it is reported so,
/// and then the text ends with it and the page has one character more. What
/// is passed over changes nothing, and it is a value with a box that is no
/// scalar value. All else separates words.
pub proof fn law_outcome_of_character(
    m: TextModel,
    page: u32,
    code: u32,
    has_box: bool,
    gap: bool,
)
    ensures
        ({
            let r = read_char(m, page, code, has_box, gap);
            let c = GivenChar { code, has_box, gap };
            let is_value = code <= 0xd7ff || 0xe000 <= code <= 0x10ffff;
            match char_outcome(code, has_box) {
                CharOutcome::Word => {
                    &&& is_letter(c)
                    &&& r.text.last() == code as char
                    &&& r.glyphs == m.glyphs + 1
                    &&& r.word.len() > 0
                },
                CharOutcome::Skipped => has_box && !is_value && r == m,
                CharOutcome::Separator => {
                    &&& !is_letter(c)
                    &&& !has_box || is_value
                    &&& r.word.len() == 0
                    &&& r.glyphs == m.glyphs
                    &&& r.after_space
                },
            }
        }),
{
}

/// What stands between two characters of words that follow each other: nothing
/// where the second does not stand apart, one space where it does.
pub proof fn law_neighbours(m: TextModel, page: u32, a: GivenChar, b: GivenChar)
    requires
        is_letter(a),
        is_letter(b),
    ensures
        ({
            let x = read_char(m, page, a.code, a.has_box, a.gap);
            let y = read_char(x, page, b.code, b.has_box, b.gap);
            y.text == x.text + if b.gap {
                seq![' ', b.code as char]
            } else {
                seq![b.code as char]
            }
        }),
{
    let x = read_char(m, page, a.code, a.has_box, a.gap);
    let y = read_char(x, page, b.code, b.has_box, b.gap);
    assert(y.text =~= x.text + if b.gap {
        seq![' ', b.code as char]
    } else {
        seq![b.code as char]
    });
}

/// What follows a word is kept apart from it: a line break leaves a line
/// break, any other separator and the end of the page one space. A separator
/// that is no line break adds nothing behind another separator, and a line
/// break is never lost.
pub proof fn law_words_kept_apart(m: TextModel, page: u32, a: GivenChar, s: GivenChar, t: GivenChar)
    requires
        is_letter(a),
        !is_letter(s),
        s.has_box ==> 0 <= s.code <= 0xd7ff || 0xe000 <= s.code <= 0x10ffff,
        !is_letter(t),
        t.has_box ==> 0 <= t.code <= 0xd7ff || 0xe000 <= t.code <= 0x10ffff,
    ensures
        ({
            let x = read_char(m, page, a.code, a.has_box, a.gap);
            let y = read_char(x, page, s.code, s.has_box, s.gap);
            let z = read_char(y, page, t.code, t.has_box, t.gap);
            let breaks = |c: GivenChar|
                c.has_box && (c.code as char == '\n' || c.code as char == '\r');
            &&& y.text == x.text.push(if breaks(s) { '\n' } else { ' ' })
            &&& z.text == if breaks(t) { y.text.push('\n') } else { y.text }
            &&& end_page(x, page).text == x.text.push(' ')
            &&& end_page(y, page).text == y.text
        }),
{
}

/// A page begins without a space: before its first character of a word a
/// separator adds nothing, but for a line break, which leaves one. What was
/// read before stays as it is, and the characters of the page are counted anew.
pub proof fn law_page_begins(m: TextModel, page: u32, s: GivenChar, a: GivenChar)
    requires
        !is_letter(s),
        is_letter(a),
    ensures
        ({
            let p = start_page(m);
            let x = read_char(p, page, s.code, s.has_box, s.gap);
            let y = read_char(p, page, a.code, a.has_box, a.gap);
            let breaks = s.has_box && (s.code == 0x0a || s.code == 0x0d);
            &&& p.text == m.text
            &&& p.spans == m.spans
            &&& x.text == if breaks { m.text.push('\n') } else { m.text }
            &&& y.text == m.text.push(a.code as char)
            &&& y.glyphs == 1
            &&& start_page(empty_document()) == empty_document()
            &&& empty_document().text == Seq::<char>::empty()
            &&& empty_document().spans == Seq::<SpanModel>::empty()
        }),
{
    assert(start_page(empty_document()).text =~= empty_document().text);
}

/// A document is marked for text recognition exactly where its pages gave no
/// character or its text is whitespace; nothing of it is then kept. Otherwise
/// all words are kept, and of the text all but whitespace at its end.
pub proof fn law_result_of_extraction<W>(
    text: String,
    words: Vec<W>,
    total_chars: usize,
    page_count: u32,
    extraction_ms: u64,
    r: ExtractionResult<W>,
)
    requires
        call_ensures(
            build_result::<W>,
            (text, words, total_chars, page_count, extraction_ms),
            r,
        ),
    ensures
        r.ocr_flag <==> total_chars == 0 || forall|i: int|
            0 <= i < text@.len() ==> is_white(#[trigger] text@[i]),
        r.ocr_flag ==> r.text@.len() == 0 && r.word_positions@.len() == 0,
        !r.ocr_flag ==> r.word_positions@ == words@ && r.text@.len() <= text@.len() && r.text@
            == text@.take(r.text@.len() as int) && r.text@.filter(|c: char| !is_white(c))
            == text@.filter(|c: char| !is_white(c)) && !is_white(r.text@.last()),
        r.page_count == page_count,
        r.extraction_ms == extraction_ms,
{
    let keep = |c: char| !is_white(c);
    let t = text@;
    let (a, b) = crate::text::law_trim(t);
    if a < b {
        assert(!is_white(t[a]));
    }
    crate::text::lemma_trim_end(t);
    let e = trim_end(t);
    if a < b {
        assert(e.len() > 0) by {
            if e.len() == 0 {
                assert(is_white(t[a]));
            }
        }
    }
    let z = t.skip(e.len() as int);
    assert(t =~= e + z);
    Seq::filter_distributes_over_add(e, z, keep);
    crate::text::lemma_filter_none(z, keep);
    assert(e.filter(keep) + z.filter(keep) =~= e.filter(keep));
}

/// What the reader does with a character that a page gives: one with a box
/// whose value is a Unicode scalar value, not zero and not whitespace, becomes
/// the last character of the text, whatever it is; a value that is no scalar
/// value changes nothing; all else ends a word.
pub proof fn law_reader_takes_characters()
    ensures
        forall|r: &mut TextReader, code: u32, has_box: bool, gap: bool, o: CharOutcome| #[trigger]
            call_ensures(TextReader::read_char, (r, code, has_box, gap), o) ==> {
                let c = GivenChar { code, has_box, gap };
                let before = r.model();
                let after = final(r).model();
                &&& is_letter(c) <==> o == CharOutcome::Word
                &&& is_letter(c) ==> after.text.last() == code as char && after.text.filter(
                    |x: char| !is_white(x),
                ) == before.text.filter(|x: char| !is_white(x)).push(code as char) && after.glyphs
                    == before.glyphs + 1
                &&& !is_letter(c) ==> after.text.filter(|x: char| !is_white(x))
                    == before.text.filter(|x: char| !is_white(x)) && after.glyphs == before.glyphs
                &&& final(r).page() == r.page()
            },
{
    assert forall|r: &mut TextReader, code: u32, has_box: bool, gap: bool, o: CharOutcome|
        #[trigger] call_ensures(TextReader::read_char, (r, code, has_box, gap), o) implies {
        let c = GivenChar { code, has_box, gap };
        let before = r.model();
        let after = final(r).model();
        &&& is_letter(c) <==> o == CharOutcome::Word
        &&& is_letter(c) ==> after.text.last() == code as char && after.text.filter(
            |x: char| !is_white(x),
        ) == before.text.filter(|x: char| !is_white(x)).push(code as char) && after.glyphs
            == before.glyphs + 1
        &&& !is_letter(c) ==> after.text.filter(|x: char| !is_white(x)) == before.text.filter(
            |x: char| !is_white(x),
        ) && after.glyphs == before.glyphs
        &&& final(r).page() == r.page()
    } by {
        let t = r.model().text;
        law_outcome_of_character(r.model(), r.page(), code, has_box, gap);
        lemma_pushed_blank(t, ' ');
        lemma_pushed_blank(t, '\n');
        lemma_pushed_blank(t, code as char);
        lemma_pushed_blank(t.push(' '), code as char);
    }
}

} // verus!
