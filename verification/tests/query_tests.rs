use docsearch::query::{chars_of, query_chars, route, same_text, MalformedQuery, Route, Verb};

#[test]
fn the_characters_of_a_string() {
    assert_eq!(chars_of("héllo 日本"), vec!['h', 'é', 'l', 'l', 'o', ' ', '日', '本']);
    assert!(chars_of("").is_empty());
}

#[test]
fn a_body_of_valid_utf8_is_a_query() {
    assert_eq!(query_chars(b"cat ran"), Ok(vec!['c', 'a', 't', ' ', 'r', 'a', 'n']));
    assert_eq!(query_chars("é😀".as_bytes()), Ok(vec!['é', '😀']));
    assert_eq!(query_chars(b""), Ok(Vec::new()));
}

#[test]
fn a_body_that_is_not_utf8_is_refused() {
    assert_eq!(query_chars(&[0xff, 0xfe]), Err(MalformedQuery));
    assert_eq!(query_chars(&[b'a', 0xc3]), Err(MalformedQuery));
    assert_eq!(query_chars(&[0xed, 0xa0, 0x80]), Err(MalformedQuery));
    assert_eq!(query_chars(&[0xc0, 0x80]), Err(MalformedQuery));
}

#[test]
fn strings_with_the_same_characters_are_the_same() {
    assert!(same_text("", ""));
    assert!(same_text("index.js", "index.js"));
    assert!(same_text("é日", "é日"));
    assert!(!same_text("a", "b"));
    assert!(!same_text("a", "ab"));
    assert!(!same_text("ab", "a"));
    assert!(!same_text("/", ""));
}

#[test]
fn the_search_is_posted() {
    assert_eq!(route(Verb::Post, "/api/search"), Route::Search);
    assert_eq!(route(Verb::Get, "/api/search"), Route::NotFound);
    assert_eq!(route(Verb::Other, "/api/search"), Route::NotFound);
    assert_eq!(route(Verb::Post, "/api/search/"), Route::NotFound);
}

#[test]
fn the_page_and_the_script_are_fetched() {
    assert_eq!(route(Verb::Get, "/"), Route::Page);
    assert_eq!(route(Verb::Get, "/index.html"), Route::Page);
    assert_eq!(route(Verb::Get, "/index.js"), Route::Script);
    assert_eq!(route(Verb::Post, "/"), Route::NotFound);
    assert_eq!(route(Verb::Post, "/index.js"), Route::NotFound);
    assert_eq!(route(Verb::Other, "/index.html"), Route::NotFound);
}

#[test]
fn any_other_address_is_not_found() {
    assert_eq!(route(Verb::Get, ""), Route::NotFound);
    assert_eq!(route(Verb::Get, "/index"), Route::NotFound);
    assert_eq!(route(Verb::Get, "/INDEX.HTML"), Route::NotFound);
    assert_eq!(route(Verb::Get, "/index.html?x=1"), Route::NotFound);
}
