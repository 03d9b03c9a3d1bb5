use docsearch::model::{build, DocRecord, Model, Source};
use docsearch::table::TermTable;

fn chars(text: &str) -> Vec<char> {
    text.chars().collect()
}

fn source(id: &str, text: &str) -> Source {
    Source { id: id.to_string(), text: Some(chars(text)) }
}

fn failed(id: &str) -> Source {
    Source { id: id.to_string(), text: None }
}

fn count(table: &TermTable, term: &str) -> usize {
    table.get(&term.to_string())
}

fn record<'a>(model: &'a Model, id: &str) -> &'a DocRecord {
    let place = model.position(&id.to_string()).unwrap();
    &model.docs[place]
}

fn cats() -> Model {
    build(&vec![source("A", "the cat sat"), source("B", "the cat ran ran")])
}

#[test]
fn a_record_counts_each_term() {
    let record = DocRecord::from_text("B".to_string(), &chars("the cat ran ran"));
    assert_eq!(record.id, "B");
    assert_eq!(record.total, 4);
    assert_eq!(record.terms.entries.len(), 3);
    assert_eq!(count(&record.terms, "THE"), 1);
    assert_eq!(count(&record.terms, "CAT"), 1);
    assert_eq!(count(&record.terms, "RAN"), 2);
    assert_eq!(count(&record.terms, "SAT"), 0);
}

#[test]
fn a_record_of_no_text_is_empty() {
    let record = DocRecord::from_text("E".to_string(), &chars("   "));
    assert_eq!(record.total, 0);
    assert!(record.terms.entries.is_empty());
}

#[test]
fn the_counts_of_a_document_add_up_to_its_total() {
    let model = build(&vec![
        source("A", "the cat sat on the mat, the end."),
        source("B", ""),
        source("C", "1 2 3 3 3"),
    ]);
    for record in &model.docs {
        let sum: usize = record.terms.entries.iter().map(|entry| entry.count).sum();
        assert_eq!(sum, record.total);
    }
    assert_eq!(record(&model, "A").total, 10);
    assert_eq!(record(&model, "B").total, 0);
    assert_eq!(record(&model, "C").total, 5);
}

#[test]
fn document_frequency_counts_documents_once() {
    let model = cats();
    assert_eq!(model.docs.len(), 2);
    assert_eq!(record(&model, "A").total, 3);
    assert_eq!(record(&model, "B").total, 4);
    assert_eq!(count(&record(&model, "B").terms, "RAN"), 2);
    assert_eq!(count(&model.df, "THE"), 2);
    assert_eq!(count(&model.df, "CAT"), 2);
    assert_eq!(count(&model.df, "SAT"), 1);
    assert_eq!(count(&model.df, "RAN"), 1);
    assert_eq!(count(&model.df, "DOG"), 0);
    assert_eq!(model.df.entries.len(), 4);
}

#[test]
fn document_frequency_is_the_number_of_records_with_the_term() {
    let model = build(&vec![
        source("a", "x y z"),
        source("b", "x x x"),
        source("c", "y"),
        source("d", ""),
    ]);
    for entry in &model.df.entries {
        let holders = model
            .docs
            .iter()
            .filter(|record| record.terms.get(&entry.term) >= 1)
            .count();
        assert_eq!(entry.count, holders);
        assert!(entry.count >= 1 && entry.count <= model.docs.len());
    }
    assert_eq!(count(&model.df, "X"), 2);
    assert_eq!(count(&model.df, "Y"), 2);
    assert_eq!(count(&model.df, "Z"), 1);
}

#[test]
fn a_document_without_text_is_passed_over() {
    let model = build(&vec![source("A", "the cat sat"), failed("broken"), source("B", "the dog")]);
    assert_eq!(model.docs.len(), 2);
    assert!(model.position(&"A".to_string()).is_some());
    assert!(model.position(&"B".to_string()).is_some());
    assert_eq!(model.position(&"broken".to_string()), None);
    assert_eq!(count(&model.df, "THE"), 2);
    assert_eq!(count(&model.df, "CAT"), 1);
    assert_eq!(count(&model.df, "DOG"), 1);
}

#[test]
fn the_empty_corpus_has_the_empty_model() {
    let model = build(&Vec::new());
    assert!(model.docs.is_empty());
    assert!(model.df.entries.is_empty());
    assert_eq!(model, Model::new());
    assert_eq!(model, Model::default());
}

#[test]
fn a_second_record_replaces_the_first() {
    let mut model = cats();
    model.add_document("A".to_string(), &chars("the dog dog"));
    assert_eq!(model.docs.len(), 2);
    assert_eq!(record(&model, "A").total, 3);
    assert_eq!(count(&record(&model, "A").terms, "DOG"), 2);
    assert_eq!(count(&record(&model, "A").terms, "CAT"), 0);
    assert_eq!(count(&model.df, "THE"), 2);
    assert_eq!(count(&model.df, "CAT"), 1);
    assert_eq!(count(&model.df, "SAT"), 0);
    assert_eq!(count(&model.df, "DOG"), 1);
    assert_eq!(count(&model.df, "RAN"), 1);
    assert_eq!(model.df.find(&"SAT".to_string()), None);
}

#[test]
fn a_repeated_identifier_keeps_the_later_text() {
    let model = build(&vec![source("A", "one"), source("B", "one two"), source("A", "three")]);
    assert_eq!(model.docs.len(), 2);
    assert_eq!(count(&record(&model, "A").terms, "THREE"), 1);
    assert_eq!(count(&record(&model, "A").terms, "ONE"), 0);
    assert_eq!(count(&model.df, "ONE"), 1);
    assert_eq!(count(&model.df, "TWO"), 1);
    assert_eq!(count(&model.df, "THREE"), 1);
}

#[test]
fn removing_a_document_takes_its_terms_back() {
    let mut model = cats();
    assert!(model.remove_document(&"B".to_string()));
    assert!(!model.remove_document(&"B".to_string()));
    assert_eq!(model.docs.len(), 1);
    assert_eq!(count(&model.df, "THE"), 1);
    assert_eq!(count(&model.df, "CAT"), 1);
    assert_eq!(count(&model.df, "SAT"), 1);
    assert_eq!(count(&model.df, "RAN"), 0);
    assert_eq!(model.df.entries.len(), 3);
    assert!(model.remove_document(&"A".to_string()));
    assert_eq!(model, Model::new());
}

#[test]
fn a_table_counts_up_and_down() {
    let mut table = TermTable::new();
    table.bump("X".to_string());
    table.bump("Y".to_string());
    table.bump("X".to_string());
    assert_eq!(count(&table, "X"), 2);
    assert_eq!(count(&table, "Y"), 1);
    assert_eq!(table.find(&"Y".to_string()), Some(1));
    table.drop_one(&"X".to_string());
    assert_eq!(count(&table, "X"), 1);
    table.drop_one(&"X".to_string());
    assert_eq!(count(&table, "X"), 0);
    assert_eq!(table.entries.len(), 1);
    table.drop_one(&"Z".to_string());
    assert_eq!(table.entries.len(), 1);
    assert_eq!(count(&table, "Y"), 1);
}
