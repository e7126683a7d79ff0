use pdf_extractor::tokenizers::{LanguageAwareTokenizer, Token};
use tantivy::tokenizer::{TextAnalyzer, TokenStream};

/// The tokens of the library as a stream of the index.
struct Stream {
    tokens: Vec<tantivy::tokenizer::Token>,
    reached: usize,
}

impl tantivy::tokenizer::TokenStream for Stream {
    fn advance(&mut self) -> bool {
        if self.reached < self.tokens.len() {
            self.reached += 1;
            true
        } else {
            false
        }
    }

    fn token(&self) -> &tantivy::tokenizer::Token {
        &self.tokens[self.reached - 1]
    }

    fn token_mut(&mut self) -> &mut tantivy::tokenizer::Token {
        &mut self.tokens[self.reached - 1]
    }
}

fn stream_of(tokens: Vec<Token>) -> Stream {
    let tokens = tokens
        .into_iter()
        .map(|t| tantivy::tokenizer::Token {
            offset_from: t.offset_from,
            offset_to: t.offset_to,
            position: t.position,
            text: t.text,
            position_length: t.position_length,
        })
        .collect();
    Stream { tokens, reached: 0 }
}

#[derive(Clone)]
struct Registered;

impl tantivy::tokenizer::Tokenizer for Registered {
    type TokenStream<'a> = Stream;

    fn token_stream<'a>(&'a mut self, text: &'a str) -> Stream {
        stream_of(LanguageAwareTokenizer.token_stream(text).into_tokens())
    }
}


#[test]
fn test_language_aware_tokenizer_splits_and_lowercases() {
    let tok = LanguageAwareTokenizer;
    let mut stream = tok.token_stream("Hello World");
    let mut tokens = Vec::new();
    while stream.advance() {
        tokens.push(stream.token().text.clone());
    }
    assert_eq!(tokens, vec!["hello", "world"]);
}

#[test]
fn test_language_aware_tokenizer_spanish_accents() {
    let tok = LanguageAwareTokenizer;
    let mut stream = tok.token_stream("Canción musical");
    let mut tokens = Vec::new();
    while stream.advance() {
        tokens.push(stream.token().text.clone());
    }
    assert_eq!(tokens, vec!["canción", "musical"]);
}

#[test]
fn test_language_aware_tokenizer_numbers() {
    let tok = LanguageAwareTokenizer;
    let mut stream = tok.token_stream("test 123");
    let mut tokens = Vec::new();
    while stream.advance() {
        tokens.push(stream.token().text.clone());
    }
    assert_eq!(tokens, vec!["test", "123"]);
}

#[test]
fn test_language_aware_tokenizer_empty() {
    let tok = LanguageAwareTokenizer;
    let mut stream = tok.token_stream("");
    assert!(!stream.advance());
}

#[test]
fn test_text_analyzer_composition() {
    let mut analyzer = TextAnalyzer::builder(Registered)
        .build();
    let mut stream = analyzer.token_stream("Hello World");
    let tokens: Vec<String> = {
        let mut result = Vec::new();
        while stream.advance() {
            result.push(stream.token().text.clone());
        }
        result
    };
    assert_eq!(tokens, vec!["hello", "world"]);
}

#[test]
fn tokens_know_where_they_stand() {
    let tokens = LanguageAwareTokenizer.token_stream("Ñu, x+1").into_tokens();
    let found: Vec<(usize, usize, usize, &str)> = tokens
        .iter()
        .map(|t| (t.offset_from, t.offset_to, t.position, t.text.as_str()))
        .collect();
    assert_eq!(found, vec![(0, 3, 0, "ñu"), (5, 8, 1, "x+1")]);
}
