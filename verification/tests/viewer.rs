use pdf_extractor::viewer::{
    bgra_of, layout, list_snippet, path_form, picture_size, png_to_bgra, window_command, AppState,
    Area, QueryFactory, QueryPlan, QueryType, ThumbnailCache, WindowCommand, ID_BUTTON, ID_EDIT,
    ID_LIST,
};
use tantivy::query::{AllQuery, FuzzyTermQuery, Query, QueryParser, RegexQuery};


// -- ThumbnailCache tests --

#[test]
fn test_thumbnail_cache_put_get() {
    let mut cache = ThumbnailCache::new(10);
    cache.put("/a.pdf", 0, vec![1, 2, 3], 100, 200);
    let result = cache.get("/a.pdf", 0);
    assert!(result.is_some());
    let (data, w, h) = result.unwrap();
    assert_eq!(data, vec![1, 2, 3]);
    assert_eq!(w, 100);
    assert_eq!(h, 200);
}

#[test]
fn test_thumbnail_cache_miss() {
    let mut cache = ThumbnailCache::new(10);
    let result = cache.get("/nonexistent.pdf", 0);
    assert!(result.is_none());
}

#[test]
fn test_thumbnail_cache_different_page() {
    let mut cache = ThumbnailCache::new(10);
    cache.put("/a.pdf", 0, vec![1], 10, 10);
    cache.put("/a.pdf", 1, vec![2], 10, 10);
    assert_eq!(cache.get("/a.pdf", 0).unwrap().0, vec![1]);
    assert_eq!(cache.get("/a.pdf", 1).unwrap().0, vec![2]);
    assert_eq!(cache.len(), 2);
}

#[test]
fn test_thumbnail_cache_eviction() {
    let mut cache = ThumbnailCache::new(2);
    cache.put("/a.pdf", 0, vec![1], 1, 1);
    cache.put("/b.pdf", 0, vec![2], 1, 1);
    cache.put("/c.pdf", 0, vec![3], 1, 1);
    // a should be evicted
    assert!(cache.get("/a.pdf", 0).is_none());
    assert_eq!(cache.len(), 2);
}

#[test]
fn test_thumbnail_cache_clear() {
    let mut cache = ThumbnailCache::new(10);
    cache.put("/a.pdf", 0, vec![1], 1, 1);
    cache.put("/b.pdf", 0, vec![2], 1, 1);
    cache.clear();
    assert_eq!(cache.len(), 0);
}

#[test]
fn test_thumbnail_cache_zero_capacity_clamped() {
    let mut cache = ThumbnailCache::new(0);
    assert_eq!(cache.len(), 0);
    cache.put("/a.pdf", 0, vec![1], 1, 1);
    assert_eq!(cache.len(), 1);
}

// -- QueryFactory tests --

fn test_index() -> (tantivy::Index, tantivy::schema::Field) {
    let mut schema_builder = tantivy::schema::Schema::builder();
    let field = schema_builder.add_text_field("content", tantivy::schema::TEXT);
    let schema = schema_builder.build();
    let index = tantivy::Index::create_in_ram(schema);
    (index, field)
}

/// Hands a plan to the index.
fn run(
    plan: QueryPlan,
    field: tantivy::schema::Field,
    index: &tantivy::Index,
) -> Result<Box<dyn Query>, String> {
    match plan {
        QueryPlan::Parse { query } => QueryParser::for_index(index, vec![field])
            .parse_query(&query)
            .map_err(|e| e.to_string()),
        QueryPlan::Fuzzy { term, distance } => Ok(Box::new(FuzzyTermQuery::new(
            tantivy::Term::from_field_text(field, &term),
            distance,
            true,
        ))),
        QueryPlan::Pattern { pattern } => match RegexQuery::from_pattern(&pattern, field) {
            Ok(q) => Ok(Box::new(q)),
            Err(e) => Err(e.to_string()),
        },
        QueryPlan::All => Ok(Box::new(AllQuery)),
    }
}

#[test]
fn test_query_factory_standard() {
    let (index, field) = test_index();
    let q = run(QueryFactory::build(QueryType::Standard, "hello"), field, &index);
    assert!(q.is_ok());
}

#[test]
fn test_query_factory_fuzzy() {
    let (index, field) = test_index();
    let q = run(QueryFactory::build(QueryType::Fuzzy, "hello"), field, &index);
    assert!(q.is_ok());
}

#[test]
fn test_query_factory_regex() {
    let (index, field) = test_index();
    let q = run(QueryFactory::build(QueryType::Regex, "hel.*"), field, &index);
    assert!(q.is_ok());
}

#[test]
fn test_query_factory_regex_invalid_pattern() {
    let (index, field) = test_index();
    let q = run(QueryFactory::build(QueryType::Regex, "[invalid"), field, &index);
    assert!(q.is_err());
}

#[test]
fn test_query_factory_phrase() {
    let (index, field) = test_index();
    let q = run(QueryFactory::build(QueryType::Phrase, "hello world"), field, &index);
    assert!(q.is_ok());
}

#[test]
fn test_query_factory_phrase_empty() {
    let (index, field) = test_index();
    let q = run(QueryFactory::build(QueryType::Phrase, ""), field, &index);
    assert!(q.is_ok());
}

#[test]
fn test_query_factory_standard_empty() {
    let (index, field) = test_index();
    let q = run(QueryFactory::build(QueryType::Standard, ""), field, &index);
    assert!(q.is_ok());
}

#[test]
fn test_query_type_labels() {
    let labels: Vec<&str> = QueryType::variants().iter().map(|q| q.label()).collect();
    assert!(labels.contains(&"Standard"));
    assert!(labels.contains(&"Fuzzy"));
    assert!(labels.contains(&"Regex"));
    assert!(labels.contains(&"Phrase"));
}

// -- What the index is asked --

#[test]
fn plans_say_what_the_index_is_asked() {
    assert!(matches!(
        QueryFactory::build(QueryType::Standard, "a b"),
        QueryPlan::Parse { query } if query == "a b"
    ));
    assert!(matches!(
        QueryFactory::build(QueryType::Fuzzy, "helo"),
        QueryPlan::Fuzzy { term, distance: 1 } if term == "helo"
    ));
    assert!(matches!(
        QueryFactory::build(QueryType::Regex, "h.*"),
        QueryPlan::Pattern { pattern } if pattern == "h.*"
    ));
    assert!(matches!(
        QueryFactory::build(QueryType::Phrase, "a b"),
        QueryPlan::Parse { query } if query == "\"a b\""
    ));
    assert!(matches!(QueryFactory::build(QueryType::Phrase, "  "), QueryPlan::All));
}

#[test]
fn kinds_are_chosen_by_their_place() {
    let chosen: Vec<&str> = (-1..5).map(|i| QueryType::at(i).label()).collect();
    assert_eq!(chosen, vec!["Standard", "Standard", "Fuzzy", "Regex", "Phrase", "Standard"]);
}

// -- The cache --

#[test]
fn a_thumbnail_that_was_used_stays() {
    let mut cache = ThumbnailCache::new(2);
    cache.put("/a.pdf", 0, vec![1], 1, 1);
    cache.put("/b.pdf", 0, vec![2], 1, 1);
    assert!(cache.get("/a.pdf", 0).is_some());
    cache.put("/c.pdf", 0, vec![3], 1, 1);
    assert!(cache.get("/b.pdf", 0).is_none());
    assert_eq!(cache.get("/a.pdf", 0).unwrap().0, vec![1]);
}

#[test]
fn a_thumbnail_is_replaced_in_place() {
    let mut cache = ThumbnailCache::new(2);
    cache.put("/a.pdf", 0, vec![1], 1, 1);
    cache.put("/a.pdf", 0, vec![9], 2, 3);
    assert_eq!(cache.len(), 1);
    assert_eq!(cache.get("/a.pdf", 0).unwrap(), (vec![9], 2, 3));
}

// -- The window --

#[test]
fn the_parts_of_a_window_have_their_places() {
    let l = layout(1200, 800);
    assert_eq!(l.page, Area { x: 0, y: 0, width: 950, height: 760 });
    assert_eq!(l.edit, Area { x: 5, y: 765, width: 740, height: 24 });
    assert_eq!(l.button, Area { x: 750, y: 765, width: 80, height: 24 });
    assert_eq!(l.combo, Area { x: 840, y: 765, width: 100, height: 200 });
    assert_eq!(l.list, Area { x: 950, y: 0, width: 250, height: 760 });
}

#[test]
fn a_small_window_keeps_least_sizes() {
    let l = layout(120, 40);
    assert_eq!(l.page, Area { x: 0, y: 0, width: 80, height: 30 });
    assert_eq!(l.edit.width, 50);
    assert_eq!(l.button.x, 5);
    assert_eq!(l.combo.x, 5);
}

#[test]
fn long_texts_are_shortened_in_the_list() {
    assert_eq!(list_snippet("short").unwrap(), "short");
    let long = "a".repeat(101);
    assert_eq!(list_snippet(&long).unwrap(), "a".repeat(100) + "...");
    let split = "a".repeat(99) + "\u{00E9}b";
    assert_eq!(list_snippet(&split), None);
}

#[test]
fn red_and_blue_change_places() {
    assert_eq!(bgra_of(&[1, 2, 3, 4, 5, 6, 7, 8]), vec![3, 2, 1, 4, 7, 6, 5, 8]);
    assert_eq!(bgra_of(&bgra_of(&[1, 2, 3, 4])), vec![1, 2, 3, 4]);
}

#[test]
fn a_search_and_a_choice() {
    assert_eq!(window_command(ID_BUTTON), WindowCommand::Search);
    assert_eq!(window_command(ID_LIST), WindowCommand::Choose);
    assert_eq!(window_command(ID_EDIT), WindowCommand::Other);
    let mut state = AppState::new();
    assert!(state.on_search("", 0, true).is_none());
    assert!(state.on_search("word", 2, false).is_none());
    assert!(matches!(
        state.on_search("word", 2, true),
        Some(QueryPlan::Pattern { pattern }) if pattern == "word"
    ));
    assert!(state.add_hit(7, "/a.pdf", "text"));
    assert!(state.add_hit(5, "/b.pdf", "more"));
    assert_eq!(state.on_choose(2), None);
    assert_eq!(state.on_choose(-1), None);
    assert_eq!(state.current_pdf, None);
    assert_eq!(state.on_choose(1), Some("/b.pdf".to_string()));
    assert_eq!(state.current_pdf, Some("/b.pdf".to_string()));
    state.on_search("other", 0, true);
    assert!(state.results.is_empty());
}

#[test]
fn a_picture_is_decoded() {
    let pixels = vec![1, 2, 3, 255, 4, 5, 6, 7, 8, 9, 10, 11, 12, 13, 14, 15, 16, 17, 18, 19, 20, 21, 22, 23];
    let picture = image::RgbaImage::from_raw(3, 2, pixels.clone()).unwrap();
    let mut png = std::io::Cursor::new(Vec::new());
    picture.write_to(&mut png, image::ImageFormat::Png).unwrap();
    let png = png.into_inner();
    assert_eq!(png_to_bgra(&png), Some((3, 2, bgra_of(&pixels))));
    assert_eq!(picture_size(&png), Some((3, 2)));
    assert_eq!(png_to_bgra(&png[..20]), None);
    assert_eq!(picture_size(b"no picture"), None);
}

#[test]
fn one_file_has_one_thumbnail() {
    let mut cache = ThumbnailCache::new(4);
    cache.put("/a//b.pdf", 0, vec![1], 2, 3);
    assert_eq!(cache.get("/a/b.pdf", 0), Some((vec![1], 2, 3)));
    assert_eq!(cache.get("/a/./b.pdf/", 0), Some((vec![1], 2, 3)));
    assert_eq!(cache.get("a/b.pdf", 0), None);
    assert_eq!(cache.get("/a/c/../b.pdf", 0), None);
    cache.put("/a/b.pdf", 0, vec![2], 2, 3);
    assert_eq!(cache.len(), 1);
    assert_eq!(cache.get("/a//b.pdf", 0), Some((vec![2], 2, 3)));
}

#[test]
fn ways_to_write_a_path() {
    for (path, form) in [
        ("", ""),
        (".", "."),
        ("./a", "./a"),
        ("a/.", "a"),
        ("/.", "/"),
        ("///a", "/a"),
        (r"c:\\x\.\y\", "C:/x/y"),
        (r"C:x", "C:x"),
        (r"C:\", "C:/"),
        ("C:", "C:"),
        (r"C:.\x", "C:./x"),
        (r"\\server\share\\a", "//server/share/a"),
        (r"\\server", "/server"),
        ("//server//share", "/server/share"),
        (r"\\?\C:\a\\b", r"\\?\C:\a\\b"),
        ("..//a", "../a"),
    ] {
        assert_eq!(path_form(path), form, "{:?}", path);
        assert_eq!(path_form(form), form, "{:?}", form);
    }
}
