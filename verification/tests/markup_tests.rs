use docsearch::lexer::tokenize;
use docsearch::markup::{extract_text, join_pieces, MarkupFault};
use docsearch::query::chars_of;

#[test]
fn runs_of_text_are_joined_with_spaces() {
    let pieces = vec![
        None,
        Some("the cat".to_string()),
        None,
        None,
        Some("sat".to_string()),
        Some("".to_string()),
        None,
    ];
    assert_eq!(join_pieces(&pieces), "the cat sat  ");
    assert_eq!(join_pieces(&Vec::new()), "");
    assert_eq!(join_pieces(&vec![None, None]), "");
}

#[test]
fn the_text_of_a_document_is_its_character_data() {
    let document = b"<?xml version=\"1.0\"?><doc><title>glBegin</title><p>delimit the <b>vertices</b> of a primitive</p></doc>";
    assert_eq!(
        extract_text(document),
        Ok("glBegin delimit the  vertices  of a primitive ".to_string())
    );
}

#[test]
fn markup_is_not_text() {
    let document = b"<a href=\"x\"><!-- note --><b/>  <c>7 &lt; 8</c></a>";
    assert_eq!(extract_text(document), Ok("7 < 8 ".to_string()));
}

#[test]
fn words_of_two_runs_stay_two_terms() {
    let text = extract_text(b"<r><a>one</a><b>two</b></r>").unwrap();
    assert_eq!(text, "one two ");
    assert_eq!(tokenize(&chars_of(&text)), vec!["ONE", "TWO"]);
}

#[test]
fn a_document_that_is_not_well_formed_has_no_text() {
    let fault = extract_text(b"<a><b></a>").unwrap_err();
    assert_eq!(fault.row, 0);
    assert_eq!(fault.column, 9);
    assert!(!fault.message.is_empty());
    assert!(matches!(extract_text(b""), Err(MarkupFault { row: 0, column: 0, .. })));
    assert!(extract_text(b"plain words").is_err());
    assert!(extract_text(&[b'<', b'a', b'>', 0xff, b'<', b'/', b'a', b'>']).is_err());
}
