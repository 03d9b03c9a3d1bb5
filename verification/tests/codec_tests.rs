use docsearch::codec::{decode, decode_node, encode, model_node, CorruptIndex};
use docsearch::json::{JsonNode, Member};
use docsearch::model::{build, Model, Source};

fn chars(text: &str) -> Vec<char> {
    text.chars().collect()
}

fn source(id: &str, text: &str) -> Source {
    Source { id: id.to_string(), text: Some(chars(text)) }
}

fn cats() -> Model {
    build(&vec![source("A", "the cat sat"), source("B", "the cat ran ran")])
}

fn sorted(mut model: Model) -> Model {
    model.docs.sort_by(|a, b| a.id.cmp(&b.id));
    for record in model.docs.iter_mut() {
        record.terms.entries.sort_by(|a, b| a.term.cmp(&b.term));
    }
    model.df.entries.sort_by(|a, b| a.term.cmp(&b.term));
    model
}

fn member(key: &str, value: JsonNode) -> Member {
    Member { key: key.to_string(), value }
}

fn number(n: u64) -> JsonNode {
    JsonNode::Number(Some(n))
}

fn object(members: Vec<Member>) -> JsonNode {
    JsonNode::Object(members)
}

fn pair(total: u64, terms: Vec<Member>) -> JsonNode {
    JsonNode::List(vec![number(total), object(terms)])
}

fn index(records: Vec<Member>, frequencies: Vec<Member>) -> JsonNode {
    object(vec![member("tfpf", object(records)), member("df", object(frequencies))])
}

#[test]
fn a_model_is_written_as_two_objects() {
    let model = build(&vec![source("A", "x x y")]);
    let expected = index(
        vec![member("A", pair(3, vec![member("X", number(2)), member("Y", number(1))]))],
        vec![member("X", number(1)), member("Y", number(1))],
    );
    assert_eq!(model_node(&model), expected);
}

#[test]
fn the_text_of_a_model_is_indented_json() {
    let model = build(&vec![source("A", "x")]);
    let text = encode(&model).unwrap();
    let expected = "{\n  \"df\": {\n    \"X\": 1\n  },\n  \"tfpf\": {\n    \"A\": [\n      1,\n      {\n        \"X\": 1\n      }\n    ]\n  }\n}";
    assert_eq!(text, expected);
}

#[test]
fn the_text_of_the_empty_model() {
    let text = encode(&Model::new()).unwrap();
    assert_eq!(text, "{\n  \"df\": {},\n  \"tfpf\": {}\n}");
    assert_eq!(decode(&text), Ok(Model::new()));
}

#[test]
fn reading_back_what_was_written_gives_the_model() {
    let model = cats();
    let text = encode(&model).unwrap();
    let back = decode(&text).unwrap();
    assert_eq!(sorted(back), sorted(model));
}

#[test]
fn reading_back_the_value_gives_the_very_model() {
    let model = build(&vec![
        source("zebra", "the cat sat on the mat"),
        source("apple", ""),
        source("mango", "1 2 2 + +"),
    ]);
    assert_eq!(decode_node(&model_node(&model)), Ok(model));
}

#[test]
fn identifiers_and_terms_survive_escaping() {
    let model = build(&vec![source("dir\\file \"one\".xml", "say \"hé\" \\ \u{1f600}")]);
    let text = encode(&model).unwrap();
    let back = decode(&text).unwrap();
    assert_eq!(sorted(back), sorted(model));
}

#[test]
fn a_model_is_read_from_plain_json() {
    let text = r#"{"tfpf": {"B": [4, {"THE": 1, "CAT": 1, "RAN": 2}], "A": [3, {"THE": 1, "CAT": 1, "SAT": 1}]},
                   "df": {"THE": 2, "CAT": 2, "SAT": 1, "RAN": 1}}"#;
    let back = decode(text).unwrap();
    assert_eq!(sorted(back), sorted(cats()));
}

#[test]
fn other_members_are_passed_over() {
    let text = r#"{"version": 3, "tfpf": {}, "note": [true, null, "x", -1, 1.5], "df": {}}"#;
    assert_eq!(decode(text), Ok(Model::new()));
}

#[test]
fn text_that_is_not_json_is_refused() {
    assert_eq!(decode("{"), Err(CorruptIndex::Syntax { line: 1, column: 1 }));
    assert_eq!(decode(""), Err(CorruptIndex::Syntax { line: 1, column: 0 }));
    assert_eq!(
        decode("{\n  \"tfpf\": {},\n  \"df\": {,}\n}"),
        Err(CorruptIndex::Syntax { line: 3, column: 10 })
    );
    assert_eq!(decode("{\"tfpf\": {}, \"df\": {}} x"), Err(CorruptIndex::Syntax { line: 1, column: 24 }));
}

#[test]
fn a_value_without_the_two_objects_is_refused() {
    assert_eq!(decode("[]"), Err(CorruptIndex::Layout));
    assert_eq!(decode("null"), Err(CorruptIndex::Layout));
    assert_eq!(decode("{}"), Err(CorruptIndex::Layout));
    assert_eq!(decode(r#"{"tfpf": {}}"#), Err(CorruptIndex::Layout));
    assert_eq!(decode(r#"{"df": {}}"#), Err(CorruptIndex::Layout));
    assert_eq!(decode(r#"{"tfpf": {}, "df": 3}"#), Err(CorruptIndex::Layout));
    assert_eq!(decode(r#"{"tfpf": [], "df": {}}"#), Err(CorruptIndex::Layout));
    assert_eq!(decode(r#"{"TFPF": {}, "DF": {}}"#), Err(CorruptIndex::Layout));
}

#[test]
fn a_record_that_is_no_pair_is_refused() {
    let fault = Err(CorruptIndex::Record { doc: "a".to_string() });
    assert_eq!(decode(r#"{"tfpf": {"a": [1]}, "df": {}}"#), fault);
    assert_eq!(decode(r#"{"tfpf": {"a": 1}, "df": {}}"#), fault);
    assert_eq!(decode(r#"{"tfpf": {"a": [1, {"X": 1}, 2]}, "df": {}}"#), fault);
    assert_eq!(decode(r#"{"tfpf": {"a": [{"X": 1}, 1]}, "df": {}}"#), fault);
    assert_eq!(decode(r#"{"tfpf": {"a": [-1, {}]}, "df": {}}"#), fault);
    assert_eq!(decode(r#"{"tfpf": {"a": [1.0, {"X": 1}]}, "df": {}}"#), fault);
    assert_eq!(decode(r#"{"tfpf": {"a": [1, {"X": "1"}]}, "df": {}}"#), fault);
    assert_eq!(decode(r#"{"tfpf": {"a": [0, {"X": 0}]}, "df": {}}"#), fault);
    let twice = index(
        vec![member("a", pair(2, vec![member("X", number(1)), member("X", number(1))]))],
        vec![member("X", number(1))],
    );
    assert_eq!(decode_node(&twice), fault);
}

#[test]
fn the_first_bad_record_is_named() {
    let text = r#"{"tfpf": {"a": [1, {"X": 1}], "b": [1], "c": 7}, "df": {"X": 1}}"#;
    assert_eq!(decode(text), Err(CorruptIndex::Record { doc: "b".to_string() }));
}

#[test]
fn counts_that_do_not_add_up_are_refused() {
    let fault = Err(CorruptIndex::Total { doc: "a".to_string() });
    assert_eq!(decode(r#"{"tfpf": {"a": [3, {"X": 1}]}, "df": {"X": 1}}"#), fault);
    assert_eq!(decode(r#"{"tfpf": {"a": [0, {"X": 1}]}, "df": {"X": 1}}"#), fault);
    assert_eq!(decode(r#"{"tfpf": {"a": [1, {}]}, "df": {}}"#), fault);
    let large = r#"{"tfpf": {"a": [1, {"X": 18446744073709551615, "Y": 2}]}, "df": {"X": 1, "Y": 1}}"#;
    assert_eq!(decode(large), fault);
}

#[test]
fn a_document_with_two_records_is_refused() {
    let node = index(
        vec![
            member("a", pair(1, vec![member("X", number(1))])),
            member("b", pair(0, vec![])),
            member("a", pair(1, vec![member("Y", number(1))])),
        ],
        vec![member("X", number(1)), member("Y", number(1))],
    );
    assert_eq!(decode_node(&node), Err(CorruptIndex::Repeated { doc: "a".to_string() }));
}

#[test]
fn a_document_frequency_that_is_no_count_is_refused() {
    let fault = Err(CorruptIndex::Frequency { term: "X".to_string() });
    assert_eq!(decode(r#"{"tfpf": {}, "df": {"X": 0}}"#), fault);
    assert_eq!(decode(r#"{"tfpf": {}, "df": {"X": -2}}"#), fault);
    assert_eq!(decode(r#"{"tfpf": {}, "df": {"X": null}}"#), fault);
    assert_eq!(decode(r#"{"tfpf": {}, "df": {"A": 1, "X": [1]}}"#), fault);
    let twice = index(vec![], vec![member("X", number(1)), member("X", number(1))]);
    assert_eq!(decode_node(&twice), fault);
}

#[test]
fn document_frequencies_that_disagree_with_the_records_are_refused() {
    let fault = Err(CorruptIndex::Mismatch { term: "X".to_string() });
    assert_eq!(decode(r#"{"tfpf": {"a": [1, {"X": 1}]}, "df": {"X": 2}}"#), fault);
    assert_eq!(decode(r#"{"tfpf": {"a": [1, {"X": 1}]}, "df": {}}"#), fault);
    assert_eq!(decode(r#"{"tfpf": {}, "df": {"X": 1}}"#), fault);
    assert_eq!(
        decode(r#"{"tfpf": {"a": [1, {"X": 1}], "b": [2, {"X": 2}]}, "df": {"X": 1}}"#),
        fault
    );
}

#[test]
fn a_number_without_a_value_is_written_as_null() {
    let node = index(vec![], vec![member("X", JsonNode::Number(None))]);
    assert_eq!(decode_node(&node), Err(CorruptIndex::Frequency { term: "X".to_string() }));
}
