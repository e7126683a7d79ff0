//! The language of a text, and the tokens that suit it.

use vstd::prelude::*;

use crate::text::{chars_of, prefix_within, same_text, trim, trimmed, utf8_len};

verus! {

/// The fewest bytes of a text whose language is looked for.
pub const MIN_DETECT_BYTES: usize = 20;

/// The code of the language that a text is taken for, and whether that is
/// reliable; `None` where nothing can be said.
pub uninterp spec fn whatlang_detected(text: Seq<char>) -> Option<(Seq<char>, bool)>;

/// `whatlang::detect`, with `Lang::code` and `Info::is_reliable` of what it
/// finds: they depend on the text alone.
#[verifier::external_body]
fn detect(text: &str) -> (r: Option<(String, bool)>)
    ensures
        match r {
            Some(found) => whatlang_detected(text@) == Some((found.0@, found.1)),
            None => whatlang_detected(text@) is None,
        },
{
    whatlang::detect(text).map(|info| (info.lang().code().to_string(), info.is_reliable()))
}

/// The language of what was found: its code where it is reliable.
pub open spec fn reliable(found: Option<(Seq<char>, bool)>) -> Option<Seq<char>> {
    match found {
        Some(f) => if f.1 {
            Some(f.0)
        } else {
            None
        },
        None => None,
    }
}

/// The language of what was found.
pub fn reliable_language(found: Option<(String, bool)>) -> (r: Option<String>)
    ensures
        crate::patterns::opt_text(r) == reliable(
            match found {
                Some(f) => Some((f.0@, f.1)),
                None => None,
            },
        ),
{
    match found {
        Some((code, true)) => Some(code),
        _ => None,
    }
}

/// The language of a text, `None` for one that is too short and for one whose
/// language is not reliable. Whitespace around the text does not count.
pub open spec fn language_of(text: Seq<char>) -> Option<Seq<char>> {
    let t = trim(text);
    if utf8_len(t) < MIN_DETECT_BYTES {
        None
    } else {
        reliable(whatlang_detected(t))
    }
}

/// The code in ISO 639-3 of the language of a text.
pub fn detect_language(text: &str) -> (r: Option<String>)
    ensures
        crate::patterns::opt_text(r) == language_of(text@),
{
    let t = trimmed(text);
    let v = chars_of(t.as_str());
    let (k, _) = prefix_within(&v, 0, v.len(), MIN_DETECT_BYTES - 1);
    assert(v@.subrange(0, v@.len() as int) =~= v@);
    if k == v.len() {
        return None;
    }
    reliable_language(detect(t.as_str()))
}

/// The name of the tokens for a language.
pub open spec fn tokenizer_name(lang: Seq<char>) -> Seq<char> {
    if lang == "jpn"@ || lang == "ja"@ {
        "ja"@
    } else if lang == "cmn"@ || lang == "zh"@ {
        "zh"@
    } else if lang == "kor"@ || lang == "ko"@ {
        "ko"@
    } else if lang == "tha"@ || lang == "th"@ {
        "th"@
    } else {
        "math"@
    }
}

/// The name of the tokens for a language, those for mathematics where it has
/// none of its own.
pub fn tokenizer_for_lang(lang: &str) -> (s: &'static str)
    ensures
        s@ == tokenizer_name(lang@),
{
    if same_text(lang, "jpn") || same_text(lang, "ja") {
        "ja"
    } else if same_text(lang, "cmn") || same_text(lang, "zh") {
        "zh"
    } else if same_text(lang, "kor") || same_text(lang, "ko") {
        "ko"
    } else if same_text(lang, "tha") || same_text(lang, "th") {
        "th"
    } else {
        "math"
    }
}

/// A language is told only of a text of at least twenty bytes, not counting
/// whitespace at its ends, and only where the guess is reliable; it is then the
/// one that was guessed.
pub proof fn law_language(text: Seq<char>)
    ensures
        vstd::utf8::encode_utf8(trim(text)).len() < 20 ==> language_of(text) is None,
        vstd::utf8::encode_utf8(trim(text)).len() >= 20 ==> match whatlang_detected(trim(text)) {
            Some((name, sure)) => language_of(text) == if sure { Some(name) } else { None },
            None => language_of(text) is None,
        },
{
    crate::text::law_utf8_len(trim(text));
}

/// The languages that are written without spaces have a tokenizer of their
/// own, under their short name, whether they are given by two letters or by
/// three; all others have the common one.
pub proof fn law_tokenizers(lang: Seq<char>)
    ensures
        tokenizer_name("jpn"@) == "ja"@ && tokenizer_name("ja"@) == "ja"@,
        tokenizer_name("cmn"@) == "zh"@ && tokenizer_name("zh"@) == "zh"@,
        tokenizer_name("kor"@) == "ko"@ && tokenizer_name("ko"@) == "ko"@,
        tokenizer_name("tha"@) == "th"@ && tokenizer_name("th"@) == "th"@,
        !seq!["jpn"@, "ja"@, "cmn"@, "zh"@, "kor"@, "ko"@, "tha"@, "th"@].contains(lang)
            ==> tokenizer_name(lang) == "math"@,
{
    reveal_strlit("jpn");
    reveal_strlit("ja");
    reveal_strlit("cmn");
    reveal_strlit("zh");
    reveal_strlit("kor");
    reveal_strlit("ko");
    reveal_strlit("tha");
    reveal_strlit("th");
    assert("jpn"@[0] == 'j' && "cmn"@[0] == 'c' && "kor"@[0] == 'k' && "tha"@[0] == 't');
    assert("ja"@[0] == 'j' && "zh"@[0] == 'z' && "ko"@[0] == 'k' && "th"@[0] == 't');
    let all = seq!["jpn"@, "ja"@, "cmn"@, "zh"@, "kor"@, "ko"@, "tha"@, "th"@];
    assert(all[0] == "jpn"@ && all[1] == "ja"@ && all[2] == "cmn"@ && all[3] == "zh"@ && all[4]
        == "kor"@ && all[5] == "ko"@ && all[6] == "tha"@ && all[7] == "th"@);
}

} // verus!
