use pdf_extractor::math_tokenizer::{
    extract_math_source, find_math_constructs, MathAwareTokenizer,
};
use pdf_extractor::tokenizers::Token;
use tantivy::tokenizer::TokenStream;

/// The tokens of the library as a stream of the index.
struct Stream {
    tokens: Vec<tantivy::tokenizer::Token>,
    reached: usize,
}

impl tantivy::tokenizer::TokenStream for Stream {
    fn advance(&mut self) -> bool {
        if self.reached < self.tokens.len() {
            self.reached += 1;
            true
        } else {
            false
        }
    }

    fn token(&self) -> &tantivy::tokenizer::Token {
        &self.tokens[self.reached - 1]
    }

    fn token_mut(&mut self) -> &mut tantivy::tokenizer::Token {
        &mut self.tokens[self.reached - 1]
    }
}

fn stream_of(tokens: Vec<Token>) -> Stream {
    let tokens = tokens
        .into_iter()
        .map(|t| tantivy::tokenizer::Token {
            offset_from: t.offset_from,
            offset_to: t.offset_to,
            position: t.position,
            text: t.text,
            position_length: t.position_length,
        })
        .collect();
    Stream { tokens, reached: 0 }
}

#[derive(Clone)]
struct Registered;

impl tantivy::tokenizer::Tokenizer for Registered {
    type TokenStream<'a> = Stream;

    fn token_stream<'a>(&'a mut self, text: &'a str) -> Stream {
        stream_of(MathAwareTokenizer.token_stream(text).into_tokens())
    }
}


// --- MathAwareTokenizer tests ---

#[test]
fn test_basic_text_still_tokenized() {
    let tok = MathAwareTokenizer;
    let mut stream = tok.token_stream("hello world");
    let tokens: Vec<String> = {
        let mut r = Vec::new();
        while stream.advance() {
            r.push(stream.token().text.clone());
        }
        r
    };
    assert_eq!(tokens, vec!["hello", "world"]);
}

#[test]
fn test_basic_text_with_lowercase_filter() {
    let mut analyzer = tantivy::tokenizer::TextAnalyzer::builder(Registered)
        .filter(tantivy::tokenizer::LowerCaser)
        .build();
    let mut stream = analyzer.token_stream("Hello World");
    let tokens: Vec<String> = {
        let mut r = Vec::new();
        while stream.advance() {
            r.push(stream.token().text.clone());
        }
        r
    };
    assert_eq!(tokens, vec!["hello", "world"]);
}

#[test]
fn test_math_sum_construct_emitted() {
    let tok = MathAwareTokenizer;
    let mut stream = tok.token_stream(r"\sum_{i=1}^{n} x_i");
    let tokens: Vec<String> = {
        let mut r = Vec::new();
        while stream.advance() {
            r.push(stream.token().text.clone());
        }
        r
    };
    // Individual tokens from the regex tokenizer: "sum", "i", "1", "n", "x_i"
    // (backslash is not captured by [\p{L}\p{N}\p{S}])
    assert!(
        tokens.iter().any(|t| t.starts_with("MATH_SUM_")),
        "Should emit MATH_SUM_* composed token, got: {:?}", tokens
    );
    assert!(
        tokens.contains(&"sum".to_string()),
        "Should keep individual sum token, got: {:?}", tokens
    );
}

#[test]
fn test_math_frac_construct_emitted() {
    let tok = MathAwareTokenizer;
    let mut stream = tok.token_stream(r"\frac{a}{b}");
    let tokens: Vec<String> = {
        let mut r = Vec::new();
        while stream.advance() {
            r.push(stream.token().text.clone());
        }
        r
    };
    assert!(
        tokens.iter().any(|t| t.starts_with("MATH_FRAC_")),
        "Should emit MATH_FRAC_* composed token, got: {:?}", tokens
    );
    assert!(
        tokens.contains(&"frac".to_string()),
        "Should keep individual \\frac token, got: {:?}", tokens
    );
}

#[test]
fn test_math_sqrt_construct_emitted() {
    let tok = MathAwareTokenizer;
    let mut stream = tok.token_stream(r"\sqrt{x^2+y^2}");
    let tokens: Vec<String> = {
        let mut r = Vec::new();
        while stream.advance() {
            r.push(stream.token().text.clone());
        }
        r
    };
    assert!(
        tokens.iter().any(|t| t.starts_with("MATH_SQRT_")),
        "Should emit MATH_SQRT_* composed token, got: {:?}", tokens
    );
}

#[test]
fn test_math_int_construct_emitted() {
    let tok = MathAwareTokenizer;
    let mut stream = tok.token_stream(r"\int_{0}^{\infty} f(x) dx");
    let tokens: Vec<String> = {
        let mut r = Vec::new();
        while stream.advance() {
            r.push(stream.token().text.clone());
        }
        r
    };
    assert!(
        tokens.iter().any(|t| t.starts_with("MATH_INT_")),
        "Should emit MATH_INT_* composed token, got: {:?}", tokens
    );
}

#[test]
fn test_lim_construct_emitted() {
    let tok = MathAwareTokenizer;
    let mut stream = tok.token_stream(r"\lim_{x\to\infty} f(x)");
    let tokens: Vec<String> = {
        let mut r = Vec::new();
        while stream.advance() {
            r.push(stream.token().text.clone());
        }
        r
    };
    assert!(
        tokens.iter().any(|t| t.starts_with("MATH_LIM_")),
        "Should emit MATH_LIM_* composed token, got: {:?}", tokens
    );
}

#[test]
fn test_empty_text() {
    let tok = MathAwareTokenizer;
    let mut stream = tok.token_stream("");
    assert!(!stream.advance());
}

#[test]
fn test_math_symbols_preserved() {
    let tok = MathAwareTokenizer;
    let mut stream = tok.token_stream("E = mc^2 and ∑ ∫ symbols");
    let tokens: Vec<String> = {
        let mut r = Vec::new();
        while stream.advance() {
            r.push(stream.token().text.clone());
        }
        r
    };
    assert!(tokens.contains(&"E".to_string()));
    assert!(tokens.contains(&"∑".to_string()));
    assert!(tokens.contains(&"∫".to_string()));
}

// --- extract_math_source tests ---

#[test]
fn test_extract_inline_math() {
    let text = "The value is $\\alpha + \\beta$ in this equation.";
    let result = extract_math_source(text);
    assert!(result.is_some(), "Should find inline math");
    let source = result.unwrap();
    assert!(source.contains("inline:"));
    assert!(source.contains(r"\alpha + \beta"));
}

#[test]
fn test_extract_display_math() {
    let text = "Consider $$\\int_{0}^{\\infty} e^{-x} dx$$ which converges.";
    let result = extract_math_source(text);
    assert!(result.is_some(), "Should find display math");
    let source = result.unwrap();
    assert!(source.contains("display:"));
    assert!(source.contains(r"\int_{0}^{\infty}"));
}

#[test]
fn test_extract_no_math() {
    let text = "This is plain text without any math delimiters.";
    let result = extract_math_source(text);
    assert!(result.is_none(), "Plain text should return None");
}

#[test]
fn test_extract_multiple_math_regions() {
    let text = "Inline $a+b$ and display $$\\sum_{i=1}^n i$$";
    let result = extract_math_source(text).unwrap();
    assert!(result.contains("inline:"));
    assert!(result.contains("display:"));
}

#[test]
fn test_extract_math_empty_delimiters() {
    let text = "Empty $$ $$ math";
    let result = extract_math_source(text);
    assert!(result.is_some());
}

// ── Regression: extract_math_source quick-filter equivalence ──

#[test]
fn test_extract_math_source_backslash_path_no_math() {
    // Backslash present but not a math delimiter — quick-filter passes it through
    let text = r"file\path\name.txt";
    let result = extract_math_source(text);
    // Quick-filter: text contains '\' → regex runs → no math patterns → None
    assert!(result.is_none(), "backslash-only path should return None");
}

#[test]
fn test_extract_math_source_very_long_no_math() {
    let text = "This is plain text without any math delimiters. ".repeat(100);
    let result = extract_math_source(&text);
    assert!(result.is_none(), "long text without math should return None (hits quick-filter)");
}

#[test]
fn test_extract_math_source_empty_string() {
    let result = extract_math_source("");
    assert!(result.is_none(), "empty string should return None");
}

#[test]
fn test_extract_math_source_whitespace_only() {
    let result = extract_math_source("   \n  \t  ");
    assert!(result.is_none(), "whitespace-only should return None (hits quick-filter)");
}

#[test]
fn test_extract_math_source_only_backslash() {
    // Single backslash triggers quick-filter pass-through; regex finds no math
    let result = extract_math_source("\\");
    assert!(result.is_none(), "single backslash has no math delimiters");
}

#[test]
fn test_extract_math_source_quick_filter_still_detects_inline_math() {
    // Dollar sign present AND valid inline math — quick-filter must
    // pass it through to regex, which must detect it.
    let text = r"Solve $\int_{0}^{1} x^2 dx$ for the area.";
    let result = extract_math_source(text);
    assert!(result.is_some(), "quick-filter should still detect inline math");
    let source = result.unwrap();
    assert!(source.contains("inline:"), "should contain inline math content");
}

// --- What a text holds, exactly ---

fn texts_of(text: &str) -> Vec<String> {
    MathAwareTokenizer.token_stream(text).into_tokens().into_iter().map(|t| t.text).collect()
}

#[test]
fn constructs_stand_behind_the_words() {
    assert_eq!(
        texts_of(r"\frac{a}{b}"),
        vec!["frac", "a", "b", "MATH_FRAC_a_b"]
    );
}

#[test]
fn a_construct_inside_another_is_left_out() {
    let found = find_math_constructs(r"\sum_{\lim}^{n} \sqrt{x}");
    let labels: Vec<(usize, usize, &str)> =
        found.iter().map(|c| (c.start, c.end, c.label.as_str())).collect();
    assert_eq!(labels, vec![(0, 15, "MATH_SUM_LIMITS"), (16, 24, "MATH_SQRT_x")]);
}

#[test]
fn operators_are_named_by_their_bounds() {
    let labels = |text: &str| -> Vec<String> {
        find_math_constructs(text).into_iter().map(|c| c.label).collect()
    };
    assert_eq!(labels(r"\prod_{i}"), vec!["MATH_PROD_SUB"]);
    assert_eq!(labels(r"\prod^{n}"), vec!["MATH_PROD_SUP"]);
    assert_eq!(labels(r"\prod"), vec!["MATH_PROD"]);
    assert_eq!(labels(r"\max_{x}"), vec!["MATH_MAX_LIMITS"]);
    assert_eq!(labels(r"\inf"), vec!["MATH_INF"]);
}

#[test]
fn a_label_that_would_be_cut_inside_a_character_has_no_tokens() {
    assert!(MathAwareTokenizer.try_token_stream(r"\frac{aaaaaaaé}{b}").is_none());
    assert!(MathAwareTokenizer.try_token_stream(r"\frac{a}{b}").is_some());
}

#[test]
fn sources_are_listed_by_kind() {
    assert_eq!(
        extract_math_source("Inline $a+b$ and display $$c$$"),
        Some("display:c | inline:a+b | inline:$c".to_string())
    );
}
