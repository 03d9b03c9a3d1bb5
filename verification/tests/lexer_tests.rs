use docsearch::lexer::{tokenize, Lexer};

fn chars(text: &str) -> Vec<char> {
    text.chars().collect()
}

fn terms(text: &str) -> Vec<String> {
    tokenize(&chars(text))
}

#[test]
fn words_are_upper_cased() {
    assert_eq!(terms("the cat sat"), vec!["THE", "CAT", "SAT"]);
}

#[test]
fn empty_text_has_no_terms() {
    let content = chars("");
    assert!(tokenize(&content).is_empty());
    let mut lexer = Lexer::new(&content);
    assert_eq!(lexer.next_token(), None);
}

#[test]
fn blank_text_has_no_terms() {
    assert!(terms(" \t\n\r  ").is_empty());
}

#[test]
fn a_word_takes_the_digits_that_follow_it() {
    assert_eq!(terms("abc123 gl4"), vec!["ABC123", "GL4"]);
}

#[test]
fn a_number_stops_before_a_letter() {
    assert_eq!(terms("123abc"), vec!["123", "ABC"]);
}

#[test]
fn a_number_is_kept_as_written() {
    assert_eq!(terms("007 42"), vec!["007", "42"]);
}

#[test]
fn every_other_character_is_a_term() {
    assert_eq!(terms("x+=1;"), vec!["X", "+", "=", "1", ";"]);
    assert_eq!(terms("a_b"), vec!["A", "_", "B"]);
    assert_eq!(terms("(.)"), vec!["(", ".", ")"]);
}

#[test]
fn only_ascii_letters_change_case() {
    assert_eq!(terms("héllo wörld"), vec!["HéLLO", "WöRLD"]);
    assert_eq!(terms("straße"), vec!["STRAßE"]);
}

#[test]
fn unicode_blanks_separate_terms() {
    assert_eq!(terms("a\u{00a0}b\u{2003}c"), vec!["A", "B", "C"]);
}

#[test]
fn unicode_digits_form_numbers() {
    assert_eq!(terms("٣٤ x"), vec!["٣٤", "X"]);
    assert_eq!(terms("①②"), vec!["①②"]);
}

#[test]
fn next_token_moves_through_the_text() {
    let content = chars("  glBegin(GL_1); ");
    let mut lexer = Lexer::new(&content);
    assert_eq!(lexer.next_token(), Some("GLBEGIN".to_string()));
    assert_eq!(lexer.next_token(), Some("(".to_string()));
    assert_eq!(lexer.next_token(), Some("GL".to_string()));
    assert_eq!(lexer.next_token(), Some("_".to_string()));
    assert_eq!(lexer.next_token(), Some("1".to_string()));
    assert_eq!(lexer.next_token(), Some(")".to_string()));
    assert_eq!(lexer.next_token(), Some(";".to_string()));
    assert_eq!(lexer.next_token(), None);
    assert_eq!(lexer.next_token(), None);
}

#[test]
fn tokenizing_twice_gives_the_same_terms() {
    let content = chars("The quick brown fox, 42 times: jumps!");
    let first = tokenize(&content);
    let second = tokenize(&content);
    assert_eq!(first, second);
    let mut lexer = Lexer::new(&content);
    let mut third = Vec::new();
    while let Some(term) = lexer.next_token() {
        third.push(term);
    }
    assert_eq!(first, third);
    assert_eq!(first, vec!["THE", "QUICK", "BROWN", "FOX", ",", "42", "TIMES", ":", "JUMPS", "!"]);
}

#[test]
fn a_lexer_can_be_started_again_on_what_is_left() {
    let content = chars("one two three");
    let whole = tokenize(&content);
    let rest = tokenize(&content[3..]);
    assert_eq!(whole[1..], rest[..]);
}
