//! Measurements: small documents of one page, and what is run on them.

use vstd::prelude::*;

use crate::normalizer::pieces;
use crate::patterns::opt_text;
use crate::text::{chars_of, decimal, join, joined, push_decimal, string_of, texts, trim, trimmed};

verus! {

// ---------------------------------------------------------------------------
// A document
// ---------------------------------------------------------------------------

/// The bytes of a text.
pub open spec fn utf8(s: Seq<char>) -> Seq<u8> {
    vstd::utf8::encode_utf8(s)
}

/// A text with a backslash before each parenthesis and each backslash.
pub open spec fn escaped(s: Seq<char>) -> Seq<char>
    decreases s.len(),
{
    if s.len() == 0 {
        s
    } else {
        let front = escaped(s.drop_last());
        let c = s.last();
        if c == '(' || c == ')' || c == '\\' {
            front.push('\\').push(c)
        } else {
            front.push(c)
        }
    }
}

/// The drawing of a page with a text on it.
pub open spec fn drawing(body: Seq<char>) -> Seq<char> {
    " BT /F1 12 Tf 100 700 Td ("@ + escaped(body) + ") Tj ET "@
}

/// The first line of an object.
pub open spec fn object_head(k: int) -> Seq<char> {
    if k == 1 {
        "1 0 obj\n"@
    } else if k == 2 {
        "2 0 obj\n"@
    } else if k == 3 {
        "3 0 obj\n"@
    } else if k == 4 {
        "4 0 obj\n"@
    } else {
        "5 0 obj\n"@
    }
}

/// What stands behind the first line of an object.
pub open spec fn object_rest(k: int, body: Seq<char>) -> Seq<u8> {
    if k == 1 {
        utf8("<< /Type /Catalog /Pages 2 0 R >>\nendobj\n"@)
    } else if k == 2 {
        utf8("<< /Type /Pages /Kids [3 0 R] /Count 1 >>\nendobj\n"@)
    } else if k == 3 {
        utf8(
            "<< /Type /Page /Parent 2 0 R /MediaBox [0 0 612 792]\n   /Contents 4 0 R /Resources << /Font << /F1 5 0 R >> >> >>\nendobj\n"@,
        )
    } else if k == 4 {
        utf8("<< /Length "@) + utf8(decimal(utf8(drawing(body)).len())) + utf8(" >>\nstream\n"@)
            + utf8(drawing(body)) + utf8("\nendstream\nendobj\n"@)
    } else {
        utf8("<< /Type /Font /Subtype /Type1 /BaseFont /Helvetica >>\nendobj\n"@)
    }
}

/// The document up to its object `k`.
pub open spec fn before_object(k: int, body: Seq<char>) -> Seq<u8>
    decreases k,
{
    if k <= 1 {
        utf8("%PDF-1.4\n"@)
    } else {
        before_object(k - 1, body) + utf8(object_head(k - 1)) + object_rest(k - 1, body)
    }
}

/// A number with leading zeros, at least ten digits.
pub open spec fn padded(n: nat) -> Seq<char> {
    let d = decimal(n);
    if d.len() >= 10 {
        d
    } else {
        Seq::new((10 - d.len()) as nat, |i: int| '0') + d
    }
}

/// The line of the table for an object at a place.
pub open spec fn table_line(place: nat) -> Seq<u8> {
    utf8(padded(place)) + utf8(" 00000 n \n"@)
}

/// The lines of the table for the first `k` objects.
pub open spec fn table_lines(k: int, body: Seq<char>) -> Seq<u8>
    decreases k,
{
    if k <= 0 {
        Seq::empty()
    } else {
        table_lines(k - 1, body) + table_line(before_object(k, body).len())
    }
}

/// The end of the document: the table of the objects and where it stands.
pub open spec fn table(body: Seq<char>) -> Seq<u8> {
    utf8("xref\n0 6\n0000000000 65535 f \n"@) + table_lines(5, body) + utf8(
        "trailer\n<< /Size 6 /Root 1 0 R >>\nstartxref\n"@,
    ) + utf8(decimal(before_object(6, body).len())) + utf8("\n%%EOF\n"@)
}

/// A document of one page with a text on it.
pub open spec fn document(body: Seq<char>) -> Seq<u8> {
    before_object(6, body) + table(body)
}

fn push_text(buf: &mut Vec<u8>, s: &str)
    ensures
        final(buf)@ == old(buf)@ + utf8(s@),
{
    let mut bytes = vstd::slice::slice_to_vec(s.as_bytes());
    buf.append(&mut bytes);
}

fn push_number(buf: &mut Vec<u8>, n: usize)
    ensures
        final(buf)@ == old(buf)@ + utf8(decimal(n as nat)),
{
    let mut s = String::new();
    push_decimal(&mut s, n as u64);
    assert(s@ =~= decimal(n as nat));
    push_text(buf, s.as_str());
}

fn push_place(buf: &mut Vec<u8>, n: usize)
    ensures
        final(buf)@ == old(buf)@ + table_line(n as nat),
{
    let mut digits = String::new();
    push_decimal(&mut digits, n as u64);
    assert(digits@ =~= decimal(n as nat));
    let have = chars_of(digits.as_str()).len();
    let mut s = String::new();
    let mut i: usize = have;
    assert(s@ =~= Seq::new(0, |i: int| '0'));
    while i < 10
        invariant
            have == decimal(n as nat).len(),
            have <= i,
            i <= 10 || i == have,
            s@ == Seq::new((i - have) as nat, |i: int| '0'),
        decreases 10 - i,
    {
        s.push('0');
        i += 1;
        assert(s@ =~= Seq::new((i - have) as nat, |i: int| '0'));
    }
    s.push_str(digits.as_str());
    assert(s@ =~= padded(n as nat));
    push_text(buf, s.as_str());
    push_text(buf, " 00000 n \n");
    assert(buf@ =~= old(buf)@ + table_line(n as nat));
}

fn escape(body: &str) -> (s: String)
    ensures
        s@ == escaped(body@),
{
    let v = chars_of(body);
    let mut s = String::new();
    let mut i: usize = 0;
    assert(v@.take(0) =~= Seq::empty());
    while i < v.len()
        invariant
            i <= v@.len(),
            s@ == escaped(v@.take(i as int)),
        decreases v@.len() - i,
    {
        let c = v[i];
        proof {
            assert(v@.take(i + 1).drop_last() =~= v@.take(i as int));
            assert(v@.take(i + 1).last() == c);
        }
        if c == '(' || c == ')' || c == '\\' {
            s.push('\\');
        }
        s.push(c);
        i += 1;
    }
    assert(v@.take(i as int) =~= v@);
    s
}

/// Makes a document of one page with a text on it.
pub fn make_pdf(buf: &mut Vec<u8>, body: &str)
    ensures
        final(buf)@ == document(body@),
{
    let mut content = String::new();
    content.push_str(" BT /F1 12 Tf 100 700 Td (");
    let inner = escape(body);
    content.push_str(inner.as_str());
    content.push_str(") Tj ET ");
    assert(content@ =~= drawing(body@));
    let length = content.as_str().as_bytes().len();

    let mut out: Vec<u8> = Vec::new();
    push_text(&mut out, "%PDF-1.4\n");
    assert(out@ =~= before_object(1, body@));
    let o1 = out.len();
    push_text(&mut out, "1 0 obj\n");
    push_text(&mut out, "<< /Type /Catalog /Pages 2 0 R >>\nendobj\n");
    assert(out@ =~= before_object(2, body@));
    let o2 = out.len();
    push_text(&mut out, "2 0 obj\n");
    push_text(&mut out, "<< /Type /Pages /Kids [3 0 R] /Count 1 >>\nendobj\n");
    assert(out@ =~= before_object(3, body@));
    let o3 = out.len();
    push_text(&mut out, "3 0 obj\n");
    push_text(
        &mut out,
        "<< /Type /Page /Parent 2 0 R /MediaBox [0 0 612 792]\n   /Contents 4 0 R /Resources << /Font << /F1 5 0 R >> >> >>\nendobj\n",
    );
    assert(out@ =~= before_object(4, body@));
    let o4 = out.len();
    push_text(&mut out, "4 0 obj\n");
    push_text(&mut out, "<< /Length ");
    push_number(&mut out, length);
    push_text(&mut out, " >>\nstream\n");
    push_text(&mut out, content.as_str());
    push_text(&mut out, "\nendstream\nendobj\n");
    assert(out@ =~= before_object(5, body@));
    let o5 = out.len();
    push_text(&mut out, "5 0 obj\n");
    push_text(&mut out, "<< /Type /Font /Subtype /Type1 /BaseFont /Helvetica >>\nendobj\n");
    assert(out@ =~= before_object(6, body@));
    let xref = out.len();
    let ghost front = out@;
    push_text(&mut out, "xref\n0 6\n0000000000 65535 f \n");
    let ghost head = out@;
    assert(head =~= head + table_lines(0, body@));
    push_place(&mut out, o1);
    assert(out@ =~= head + table_lines(1, body@));
    push_place(&mut out, o2);
    assert(out@ =~= head + table_lines(2, body@));
    push_place(&mut out, o3);
    assert(out@ =~= head + table_lines(3, body@));
    push_place(&mut out, o4);
    assert(out@ =~= head + table_lines(4, body@));
    push_place(&mut out, o5);
    assert(out@ =~= head + table_lines(5, body@));
    push_text(&mut out, "trailer\n<< /Size 6 /Root 1 0 R >>\nstartxref\n");
    push_number(&mut out, xref);
    push_text(&mut out, "\n%%EOF\n");
    assert(out@ =~= front + table(body@));
    *buf = out;
}

/// Each object stands where the table says, and so does the table.
pub proof fn law_objects_in_place(body: Seq<char>, k: int)
    requires
        1 <= k <= 5,
    ensures
        crate::codec::begins(
            document(body).skip(before_object(k, body).len() as int),
            utf8(object_head(k)),
        ),
        crate::codec::begins(
            document(body).skip(before_object(6, body).len() as int),
            utf8("xref\n0 6\n0000000000 65535 f \n"@),
        ),
{
    let d = document(body);
    lemma_before_prefix(k + 1, 6, body);
    let front = before_object(k, body);
    let whole = before_object(k + 1, body);
    assert(whole =~= front + utf8(object_head(k)) + object_rest(k, body));
    let n = front.len() as int;
    let head = utf8(object_head(k));
    assert(d.take(whole.len() as int) =~= before_object(6, body).take(whole.len() as int));
    let p = d.take(whole.len() as int);
    assert(p == whole);
    assert(d.skip(n).take(head.len() as int) =~= p.subrange(n, n + head.len() as int));
    assert(whole.subrange(n, n + head.len() as int) =~= head);
    let t = utf8("xref\n0 6\n0000000000 65535 f \n"@);
    assert(d.skip(before_object(6, body).len() as int) =~= table(body));
    assert(table(body).take(t.len() as int) =~= t);
}

proof fn lemma_before_prefix(a: int, b: int, body: Seq<char>)
    requires
        1 <= a <= b,
    ensures
        before_object(a, body).len() <= before_object(b, body).len(),
        before_object(b, body).take(before_object(a, body).len() as int) == before_object(a, body),
    decreases b - a,
{
    let x = before_object(a, body);
    let y = before_object(b, body);
    if a < b {
        lemma_before_prefix(a, b - 1, body);
        let z = before_object(b - 1, body);
        assert(y =~= z + (utf8(object_head(b - 1)) + object_rest(b - 1, body)));
        assert(y.take(x.len() as int) =~= z.take(x.len() as int));
    } else {
        assert(y.take(x.len() as int) =~= x);
    }
}

// ---------------------------------------------------------------------------
// The texts of documents
// ---------------------------------------------------------------------------

/// The English words of documents.
pub open spec fn english_text(i: int) -> Seq<char> {
    if i == 0 {
        "quantum"@
    } else if i == 1 {
        "computing"@
    } else if i == 2 {
        "machine"@
    } else if i == 3 {
        "learning"@
    } else if i == 4 {
        "neural"@
    } else if i == 5 {
        "network"@
    } else if i == 6 {
        "deep"@
    } else if i == 7 {
        "algorithm"@
    } else if i == 8 {
        "transformer"@
    } else if i == 9 {
        "attention"@
    } else if i == 10 {
        "gradient"@
    } else if i == 11 {
        "optimization"@
    } else if i == 12 {
        "regression"@
    } else if i == 13 {
        "classification"@
    } else if i == 14 {
        "clustering"@
    } else if i == 15 {
        "reinforcement"@
    } else if i == 16 {
        "supervised"@
    } else if i == 17 {
        "unsupervised"@
    } else if i == 18 {
        "embedding"@
    } else if i == 19 {
        "tokenization"@
    } else if i == 20 {
        "semantic"@
    } else if i == 21 {
        "syntax"@
    } else if i == 22 {
        "parsing"@
    } else if i == 23 {
        "inference"@
    } else if i == 24 {
        "backpropagation"@
    } else if i == 25 {
        "convolution"@
    } else if i == 26 {
        "pooling"@
    } else if i == 27 {
        "dropout"@
    } else {
        "normalization"@
    }
}

/// One of the English words.
fn english(i: usize) -> (s: &'static str)
    requires
        i < 29,
    ensures
        s@ == english_text(i as int),
{
    match i {
        0 => "quantum",
        1 => "computing",
        2 => "machine",
        3 => "learning",
        4 => "neural",
        5 => "network",
        6 => "deep",
        7 => "algorithm",
        8 => "transformer",
        9 => "attention",
        10 => "gradient",
        11 => "optimization",
        12 => "regression",
        13 => "classification",
        14 => "clustering",
        15 => "reinforcement",
        16 => "supervised",
        17 => "unsupervised",
        18 => "embedding",
        19 => "tokenization",
        20 => "semantic",
        21 => "syntax",
        22 => "parsing",
        23 => "inference",
        24 => "backpropagation",
        25 => "convolution",
        26 => "pooling",
        27 => "dropout",
        _ => "normalization",
    }
}

/// The formulas of documents.
pub open spec fn formula_text(i: int) -> Seq<char> {
    if i == 0 {
        r"\sum_{i=0}^{n} x_i"@
    } else if i == 1 {
        r"\frac{a}{b} + \frac{c}{d}"@
    } else if i == 2 {
        r"\sqrt{x^2 + y^2}"@
    } else if i == 3 {
        r"\int_{0}^{\infty} e^{-x} dx"@
    } else {
        r"\lim_{n \to \infty} \frac{1}{n}"@
    }
}

/// One of the formulas.
fn formula(i: usize) -> (s: &'static str)
    requires
        i < 5,
    ensures
        s@ == formula_text(i as int),
{
    match i {
        0 => r"\sum_{i=0}^{n} x_i",
        1 => r"\frac{a}{b} + \frac{c}{d}",
        2 => r"\sqrt{x^2 + y^2}",
        3 => r"\int_{0}^{\infty} e^{-x} dx",
        _ => r"\lim_{n \to \infty} \frac{1}{n}",
    }
}

/// The Japanese sentences of documents.
pub open spec fn japanese_text(i: int) -> Seq<char> {
    if i == 0 {
        "機械学習は人工知能の一分野である"@
    } else if i == 1 {
        "自然言語処理はテキストデータを解析する技術である"@
    } else {
        "ディープラーニングは多層ニューラルネットワークを使用する"@
    }
}

/// One of the Japanese sentences.
fn japanese(i: usize) -> (s: &'static str)
    requires
        i < 3,
    ensures
        s@ == japanese_text(i as int),
{
    match i {
        0 => "機械学習は人工知能の一分野である",
        1 => "自然言語処理はテキストデータを解析する技術である",
        _ => "ディープラーニングは多層ニューラルネットワークを使用する",
    }
}

/// The Chinese sentences of documents.
pub open spec fn chinese_text(i: int) -> Seq<char> {
    if i == 0 {
        "机器学习是人工智能的一个分支"@
    } else if i == 1 {
        "自然语言处理是分析文本数据的技术"@
    } else {
        "深度学习使用多层神经网络"@
    }
}

/// One of the Chinese sentences.
fn chinese(i: usize) -> (s: &'static str)
    requires
        i < 3,
    ensures
        s@ == chinese_text(i as int),
{
    match i {
        0 => "机器学习是人工智能的一个分支",
        1 => "自然语言处理是分析文本数据的技术",
        _ => "深度学习使用多层神经网络",
    }
}

/// The words of the document with a number: fifty, from a place that moves on
/// by one with each document.
pub open spec fn document_words(idx: int) -> Seq<Seq<char>> {
    Seq::new(50, |j: int| english_text((idx + j) % 29))
}

/// The text of the document with a number: words, and now and then a formula
/// or a sentence of another language.
pub open spec fn document_text(idx: int) -> Seq<char> {
    let words = join(document_words(idx), " "@);
    let with_formula = if idx % 10 == 0 {
        words.push(' ') + formula_text(idx % 5)
    } else {
        words
    };
    let with_japanese = if idx % 15 == 0 {
        with_formula.push(' ') + japanese_text(idx % 3)
    } else {
        with_formula
    };
    if idx % 15 == 5 {
        with_japanese.push(' ') + chinese_text(idx % 3)
    } else {
        with_japanese
    }
}

/// The text of the document with a number.
pub fn bench_text(idx: usize) -> (s: String)
    requires
        idx <= usize::MAX - 50,
    ensures
        s@ == document_text(idx as int),
{
    let mut words: Vec<String> = Vec::new();
    let mut j: usize = 0;
    while j < 50
        invariant
            j <= 50,
            idx <= usize::MAX - 50,
            words@.len() == j,
            forall|k: int| 0 <= k < j ==> (#[trigger] words@[k])@ == document_words(idx as int)[k],
        decreases 50 - j,
    {
        words.push(english((idx + j) % 29).to_owned());
        j += 1;
    }
    assert(texts(words@) =~= document_words(idx as int));
    let mut s = joined(&words, " ");
    if idx % 10 == 0 {
        s.push(' ');
        s.push_str(formula(idx % 5));
    }
    if idx % 15 == 0 {
        s.push(' ');
        s.push_str(japanese(idx % 3));
    }
    if idx % 15 == 5 {
        s.push(' ');
        s.push_str(chinese(idx % 3));
    }
    s
}

// ---------------------------------------------------------------------------
// Measurements
// ---------------------------------------------------------------------------

/// The arguments with which the files of a directory are extracted.
pub fn extract_args(dir: &str, output: &str, db: &str, log: &str, index: &str) -> (v: Vec<String>)
    ensures
        texts(v@) == seq![
            "extract"@,
            "-i"@,
            dir@,
            "-o"@,
            output@,
            "-d"@,
            db@,
            "-l"@,
            log@,
            "--index-path"@,
            index@,
        ],
{
    let mut v: Vec<String> = Vec::new();
    v.push("extract".to_owned());
    v.push("-i".to_owned());
    v.push(dir.to_owned());
    v.push("-o".to_owned());
    v.push(output.to_owned());
    v.push("-d".to_owned());
    v.push(db.to_owned());
    v.push("-l".to_owned());
    v.push(log.to_owned());
    v.push("--index-path".to_owned());
    v.push(index.to_owned());
    assert(texts(v@) =~= seq![
        "extract"@,
        "-i"@,
        dir@,
        "-o"@,
        output@,
        "-d"@,
        db@,
        "-l"@,
        log@,
        "--index-path"@,
        index@,
    ]);
    v
}

/// How many searches of a kind are measured.
pub const ITERATIONS: usize = 30;

/// A kind of search that is measured.
#[derive(Clone, Copy, PartialEq, Eq, Structural, Debug)]
pub enum MeasuredSearch {
    Basic,
    Fuzzy,
    Stem,
    Field,
}

/// What a kind of search is called.
pub open spec fn search_label(k: MeasuredSearch) -> Seq<char> {
    match k {
        MeasuredSearch::Basic => "basic"@,
        MeasuredSearch::Fuzzy => "fuzzy"@,
        MeasuredSearch::Stem => "stem"@,
        MeasuredSearch::Field => "field"@,
    }
}

/// The arguments of a kind of search.
pub open spec fn search_options(k: MeasuredSearch) -> Seq<Seq<char>> {
    match k {
        MeasuredSearch::Basic => Seq::empty(),
        MeasuredSearch::Fuzzy => seq!["--fuzzy"@, "2"@],
        MeasuredSearch::Stem => seq!["--stem"@],
        MeasuredSearch::Field => seq!["--field"@, "normalized_text"@],
    }
}

/// The query of the search with a number, from zero on.
pub open spec fn measured_query(i: int) -> Seq<char> {
    let k = i % 7;
    if k == 0 {
        "quantum"@
    } else if k == 1 {
        "machine"@
    } else if k == 2 {
        "neural"@
    } else if k == 3 {
        "gradient"@
    } else if k == 4 {
        "optimization"@
    } else if k == 5 {
        "transformer"@
    } else {
        "reinforcement"@
    }
}

impl MeasuredSearch {
    /// What the kind is called.
    pub fn label(&self) -> (s: &'static str)
        ensures
            s@ == search_label(*self),
    {
        match self {
            MeasuredSearch::Basic => "basic",
            MeasuredSearch::Fuzzy => "fuzzy",
            MeasuredSearch::Stem => "stem",
            MeasuredSearch::Field => "field",
        }
    }

    /// The arguments of the search of this kind with a number.
    pub fn args(&self, index: &str, i: usize) -> (v: Vec<String>)
        ensures
            texts(v@) == seq!["search"@, "--index-path"@, index@] + search_options(*self) + seq![
                measured_query(i as int),
            ],
    {
        let query = match i % 7 {
            0 => "quantum",
            1 => "machine",
            2 => "neural",
            3 => "gradient",
            4 => "optimization",
            5 => "transformer",
            _ => "reinforcement",
        };
        let mut v: Vec<String> = Vec::new();
        v.push("search".to_owned());
        v.push("--index-path".to_owned());
        v.push(index.to_owned());
        match self {
            MeasuredSearch::Basic => {},
            MeasuredSearch::Fuzzy => {
                v.push("--fuzzy".to_owned());
                v.push("2".to_owned());
            },
            MeasuredSearch::Stem => {
                v.push("--stem".to_owned());
            },
            MeasuredSearch::Field => {
                v.push("--field".to_owned());
                v.push("normalized_text".to_owned());
            },
        }
        v.push(query.to_owned());
        assert(texts(v@) =~= seq!["search"@, "--index-path"@, index@] + search_options(*self)
            + seq![measured_query(i as int)]);
        v
    }
}

/// The place, among `n` times in rising order, of that below which a share of
/// them lies.
pub fn percentile_index(n: usize, percent: usize) -> (i: usize)
    requires
        0 < n,
        n * 100 <= usize::MAX,
        percent < 100,
    ensures
        i == (n * percent) / 100,
        i < n,
{
    assert(n * percent <= n * 99 && n * 99 < n * 100) by (nonlinear_arith)
        requires
            0 < n,
            percent < 100,
    ;
    n * percent / 100
}

// ---------------------------------------------------------------------------
// The log of an extraction
// ---------------------------------------------------------------------------

/// The text under a key of a line of JSON.
pub uninterp spec fn json_text(line: Seq<char>, key: Seq<char>) -> Option<Seq<char>>;

/// `serde_json::from_str` into a `serde_json::Value`, and of that the text under
/// a key: there is none where the line is no JSON, where it is no object, where
/// the object has no such key, and where what is under the key is no text.
#[verifier::external_body]
fn json_text_at(line: &str, key: &str) -> (r: Option<String>)
    ensures
        opt_text(r) == json_text(line@, key@),
{
    let value: serde_json::Value = serde_json::from_str(line).ok()?;
    value.get(key)?.as_str().map(|s| s.to_string())
}

/// The first text of a list, as far as there is one.
pub open spec fn first_text(list: Seq<Option<Seq<char>>>) -> Option<Seq<char>>
    decreases list.len(),
{
    if list.len() == 0 {
        None
    } else if list[0] is Some {
        list[0]
    } else {
        first_text(list.drop_first())
    }
}

/// The rate that a line of a log gives. A blank line gives none.
pub open spec fn rate_in(line: Seq<char>) -> Option<Seq<char>> {
    if trim(line).len() == 0 {
        None
    } else {
        json_text(trim(line), "avg_throughput"@)
    }
}

/// The rates that the lines of a log give.
pub open spec fn rates(log: Seq<char>) -> Seq<Option<Seq<char>>> {
    pieces(log).map_values(|line: Seq<char>| rate_in(line))
}

/// The first text of a list.
pub fn first_found(list: Vec<Option<String>>) -> (r: Option<String>)
    ensures
        opt_text(r) == first_text(list@.map_values(|x: Option<String>| opt_text(x))),
{
    let ghost all = list@.map_values(|x: Option<String>| opt_text(x));
    let mut i: usize = 0;
    assert(all.skip(0) =~= all);
    while i < list.len()
        invariant
            i <= list@.len(),
            all == list@.map_values(|x: Option<String>| opt_text(x)),
            first_text(all) == first_text(all.skip(i as int)),
        decreases list@.len() - i,
    {
        proof {
            assert(all.skip(i as int)[0] == opt_text(list@[i as int]));
            assert(all.skip(i as int).drop_first() =~= all.skip(i + 1));
        }
        if let Some(s) = &list[i] {
            return Some(s.clone());
        }
        i += 1;
    }
    None
}

/// The rate that a line of a log gives.
fn rate_of(line: &str) -> (r: Option<String>)
    ensures
        opt_text(r) == rate_in(line@),
{
    let t = trimmed(line);
    if t.as_str().is_empty() {
        None
    } else {
        json_text_at(t.as_str(), "avg_throughput")
    }
}

/// The rate that an extraction logged: of its log the first line that gives one
/// counts.
pub fn logged_throughput(log: &str) -> (r: Option<String>)
    ensures
        opt_text(r) == first_text(rates(log@)),
{
    let v = chars_of(log);
    let ghost rate = |line: Seq<char>| rate_in(line);
    let ghost text = |x: Option<String>| opt_text(x);
    let mut found: Vec<Option<String>> = Vec::new();
    let mut start: usize = 0;
    let mut i: usize = 0;
    proof {
        assert(v@.take(0) =~= Seq::empty());
        assert(pieces(v@.take(0)) =~= seq![v@.subrange(0, 0)]);
        assert(found@.map_values(text) =~= pieces(v@.take(0)).drop_last().map_values(rate));
    }
    while i < v.len()
        invariant
            start <= i <= v@.len(),
            rate == (|line: Seq<char>| rate_in(line)),
            text == (|x: Option<String>| opt_text(x)),
            pieces(v@.take(i as int)).len() > 0,
            pieces(v@.take(i as int)).last() == v@.subrange(start as int, i as int),
            found@.map_values(text) == pieces(v@.take(i as int)).drop_last().map_values(rate),
        decreases v@.len() - i,
    {
        let ghost p = pieces(v@.take(i as int));
        let ghost q = pieces(v@.take(i + 1));
        let ghost before = found@;
        proof {
            assert(v@.take(i + 1).drop_last() =~= v@.take(i as int));
            assert(v@.take(i + 1).last() == v@[i as int]);
        }
        if v[i] == '\n' {
            let line = string_of(&v, start, i);
            found.push(rate_of(line.as_str()));
            proof {
                assert(q.drop_last() =~= p);
                assert(found@.map_values(text) =~= before.map_values(text).push(
                    rate_in(p.last()),
                ));
                assert(p.map_values(rate) =~= p.drop_last().map_values(rate).push(
                    rate_in(p.last()),
                ));
                assert(q.last() =~= v@.subrange(i + 1, i + 1));
            }
            start = i + 1;
        } else {
            proof {
                assert(q.drop_last() =~= p.drop_last());
                assert(q.last() =~= v@.subrange(start as int, i + 1));
            }
        }
        i += 1;
    }
    let ghost before = found@;
    let line = string_of(&v, start, i);
    found.push(rate_of(line.as_str()));
    proof {
        assert(v@.take(i as int) =~= v@);
        let p = pieces(v@);
        assert(found@.map_values(text) =~= before.map_values(text).push(rate_in(p.last())));
        assert(p.map_values(rate) =~= p.drop_last().map_values(rate).push(rate_in(p.last())));
        assert(found@.map_values(text) =~= rates(log@));
    }
    first_found(found)
}

/// Whether a character has a meaning of its own in a string of a PDF.
pub open spec fn needs_escape(c: char) -> bool {
    c == '(' || c == ')' || c == '\\'
}

/// What a reader of a string makes of it: a backslash makes the character
/// behind it stand for itself.
pub open spec fn unescaped(s: Seq<char>) -> Seq<char>
    decreases s.len(),
{
    if s.len() == 0 {
        Seq::empty()
    } else if s[0] == '\\' && s.len() > 1 {
        seq![s[1]] + unescaped(s.skip(2))
    } else {
        seq![s[0]] + unescaped(s.skip(1))
    }
}

proof fn lemma_escaped_first(s: Seq<char>)
    requires
        s.len() > 0,
    ensures
        escaped(s) == (if needs_escape(s[0]) {
            seq!['\\', s[0]]
        } else {
            seq![s[0]]
        }) + escaped(s.drop_first()),
    decreases s.len(),
{
    let d = s.drop_last();
    if s.len() == 1 {
        assert(d =~= Seq::empty());
        assert(s.drop_first() =~= Seq::empty());
        reveal_with_fuel(escaped, 2);
        assert(escaped(s) =~= (if needs_escape(s[0]) {
            seq!['\\', s[0]]
        } else {
            seq![s[0]]
        }) + escaped(s.drop_first()));
    } else {
        lemma_escaped_first(d);
        let t = s.drop_first();
        assert(t.drop_last() =~= d.drop_first());
        assert(t.last() == s.last());
        assert(escaped(s) =~= (if needs_escape(s[0]) {
            seq!['\\', s[0]]
        } else {
            seq![s[0]]
        }) + escaped(t));
    }
}

/// A text that is escaped for a PDF is read back as it was.
pub proof fn law_escaped_is_read(s: Seq<char>)
    ensures
        unescaped(escaped(s)) == s,
    decreases s.len(),
{
    if s.len() > 0 {
        lemma_escaped_first(s);
        let d = s.drop_first();
        law_escaped_is_read(d);
        let e = escaped(s);
        if needs_escape(s[0]) {
            assert(e[0] == '\\' && e[1] == s[0]);
            assert(e.skip(2) =~= escaped(d));
        } else {
            assert(e[0] == s[0]);
            assert(e.skip(1) =~= escaped(d));
        }
        assert(seq![s[0]] + d =~= s);
    }
}

proof fn lemma_zeros(n: nat, d: Seq<char>)
    ensures
        crate::text::value_in_base(Seq::new(n, |i: int| '0') + d, 10)
            == crate::text::value_in_base(d, 10),
    decreases d.len(), n,
{
    let z = Seq::new(n, |i: int| '0');
    if d.len() > 0 {
        lemma_zeros(n, d.drop_last());
        assert((z + d).drop_last() =~= z + d.drop_last());
        assert((z + d).last() == d.last());
    } else if n > 0 {
        let m = (n - 1) as nat;
        lemma_zeros(m, d);
        let y = Seq::new(m, |i: int| '0');
        assert(z + d =~= z);
        assert(y + d =~= y);
        assert(z.drop_last() =~= y);
        assert(z.last() == '0');
    } else {
        assert(z + d =~= d);
    }
}

/// A place in the table of a PDF has at least ten digits and says the number.
pub proof fn law_padded(n: nat)
    ensures
        padded(n).len() >= 10,
        n < 1_000_000_000 ==> padded(n).len() == 10,
        crate::text::value_in_base(padded(n), 10) == n,
        forall|i: int| 0 <= i < padded(n).len() ==> '0' <= #[trigger] padded(n)[i] <= '9',
{
    crate::text::law_decimal(n);
    let d = decimal(n);
    if d.len() < 10 {
        lemma_zeros((10 - d.len()) as nat, d);
    } else if n < 1_000_000_000 {
        reveal_with_fuel(decimal, 11);
    }
}

/// The throughput of a log is the first that is found in it.
pub proof fn law_first_text(list: Seq<Option<Seq<char>>>)
    ensures
        match first_text(list) {
            Some(t) => exists|i: int|
                0 <= i < list.len() && #[trigger] list[i] == Some(t) && (forall|k: int|
                    0 <= k < i ==> (#[trigger] list[k]) is None),
            None => forall|i: int| 0 <= i < list.len() ==> (#[trigger] list[i]) is None,
        },
    decreases list.len(),
{
    if list.len() > 0 {
        if list[0] is Some {
            assert(list[0] == Some(list[0]->0));
        } else {
            let d = list.drop_first();
            law_first_text(d);
            if let Some(t) = first_text(d) {
                let i = choose|i: int|
                    0 <= i < d.len() && #[trigger] d[i] == Some(t) && (forall|k: int|
                        0 <= k < i ==> (#[trigger] d[k]) is None);
                assert(list[i + 1] == Some(t));
                assert forall|k: int| 0 <= k < i + 1 implies (#[trigger] list[k]) is None by {
                    if k > 0 {
                        assert(d[k - 1] == list[k]);
                    }
                }
            } else {
                assert forall|i: int| 0 <= i < list.len() implies (#[trigger] list[i]) is None by {
                    if i > 0 {
                        assert(d[i - 1] == list[i]);
                    }
                }
            }
        }
    }
}

} // verus!
