use pdf_extractor::search::enrichers::term_collector::{
    extract_auto_phrase_groups, extract_boolean_phrase_groups, split_respecting_quotes,
};


#[test]
fn test_auto_phrase_single_word() {
    let (groups, flat) = extract_auto_phrase_groups("hello");
    assert_eq!(groups, vec![vec!["hello"]]);
    assert_eq!(flat, vec!["hello"]);
}

#[test]
fn test_auto_phrase_bare_multiword() {
    let (groups, flat) = extract_auto_phrase_groups("hello world");
    assert_eq!(groups, vec![vec!["hello", "world"]]);
    assert_eq!(flat, vec!["hello", "world"]);
}

#[test]
fn test_auto_phrase_quoted() {
    let (groups, flat) = extract_auto_phrase_groups("\"hello world\"");
    assert_eq!(groups, vec![vec!["hello", "world"]]);
    assert_eq!(flat, vec!["hello", "world"]);
}

#[test]
fn test_boolean_single_word() {
    let (groups, flat) = extract_boolean_phrase_groups("hello");
    assert_eq!(groups, vec![vec!["hello"]]);
    assert_eq!(flat, vec!["hello"]);
}

#[test]
fn test_boolean_and_operator() {
    let (groups, flat) = extract_boolean_phrase_groups("hello AND world");
    assert_eq!(groups, vec![vec!["hello"], vec!["world"]]);
    assert_eq!(flat, vec!["hello", "world"]);
}

#[test]
fn test_boolean_quoted_phrases() {
    let input = "\"machine learning\" AND \"signal processing\"";
    let (groups, flat) = extract_boolean_phrase_groups(input);
    assert_eq!(groups, vec![
        vec!["machine", "learning"],
        vec!["signal", "processing"],
    ]);
    assert_eq!(flat, vec!["machine", "learning", "signal", "processing"]);
}

#[test]
fn test_boolean_bare_multiword_no_operators() {
    let (groups, flat) = extract_boolean_phrase_groups("hello world");
    assert_eq!(groups, vec![vec!["hello", "world"]]);
    assert_eq!(flat, vec!["hello", "world"]);
}

#[test]
fn test_boolean_parentheses_and_or() {
    let input = "(hello OR world) -foo";
    let (groups, flat) = extract_boolean_phrase_groups(input);
    assert_eq!(groups, vec![vec!["hello"], vec!["world"], vec!["foo"]]);
    assert_eq!(flat, vec!["hello", "world", "foo"]);
}

#[test]
fn quotes_hold_words_together() {
    assert_eq!(
        split_respecting_quotes("a \"b c\" d"),
        vec!["a", "b c", "d"]
    );
    assert_eq!(split_respecting_quotes("  "), Vec::<String>::new());
}

#[test]
fn a_term_counts_once() {
    let (groups, flat) = extract_auto_phrase_groups("\"Big data\" data");
    assert_eq!(groups, vec![vec!["big", "data"], vec!["data"]]);
    assert_eq!(flat, vec!["big", "data"]);
}

#[test]
fn operators_with_other_punctuation_are_words() {
    let (groups, flat) = extract_boolean_phrase_groups("(hello) and.");
    assert_eq!(groups, vec![vec!["hello"], vec!["and"]]);
    assert_eq!(flat, vec!["hello", "and"]);
    let (groups, _) = extract_boolean_phrase_groups("(hello) (And) [or] -not+");
    assert_eq!(groups, vec![vec!["hello"], vec!["or"]]);
}

#[test]
fn operators_with_brackets_are_left_out() {
    let found = |q: &str| extract_boolean_phrase_groups(q);
    assert_eq!(found("(NOT hello)"), (vec![vec!["hello".to_string()]], vec!["hello".to_string()]));
    assert_eq!(found("+(and) -or) (not"), (vec![], vec![]));
    let (groups, flat) = found("(\"to be or not\" OR (AND why)");
    assert_eq!(groups, vec![vec!["to", "be", "or", "not"], vec!["why"]]);
    assert_eq!(flat, vec!["to", "be", "or", "not", "why"]);
}
