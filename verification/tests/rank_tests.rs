use docsearch::model::{build, Model, Source};
use docsearch::order::{bits_of_key, comes_before, key_of_bits, sort_ranking, Ranked};
use docsearch::rank::{compute_idf, compute_tf, score_factors, Factor, Ratio, Weighed};
use docsearch::table::TermTable;

fn chars(text: &str) -> Vec<char> {
    text.chars().collect()
}

fn source(id: &str, text: &str) -> Source {
    Source { id: id.to_string(), text: Some(chars(text)) }
}

fn cats() -> Model {
    build(&vec![source("A", "the cat sat"), source("B", "the cat ran ran")])
}

fn score(factors: &[Factor]) -> f32 {
    let mut rank = 0f32;
    for factor in factors {
        let tf = factor.tf.num as f32 / factor.tf.den as f32;
        let idf = (factor.idf.num as f32 / factor.idf.den as f32).ln();
        rank += tf * idf;
    }
    rank
}

fn ranked(weighed: &[Weighed]) -> Vec<Ranked> {
    weighed
        .iter()
        .map(|doc| Ranked { id: doc.id.clone(), key: key_of_bits(score(&doc.factors).to_bits()) })
        .collect()
}

fn ids(ranking: &[Ranked]) -> Vec<String> {
    ranking.iter().map(|doc| doc.id.clone()).collect()
}

fn entry(id: &str, key: u32) -> Ranked {
    Ranked { id: id.to_string(), key }
}

#[test]
fn term_frequency_is_count_over_total() {
    let model = cats();
    let b = &model.docs[model.position(&"B".to_string()).unwrap()];
    let a = &model.docs[model.position(&"A".to_string()).unwrap()];
    assert_eq!(compute_tf(&"RAN".to_string(), b.total, &b.terms), Ratio { num: 2, den: 4 });
    assert_eq!(compute_tf(&"RAN".to_string(), a.total, &a.terms), Ratio { num: 0, den: 3 });
    assert_eq!(compute_tf(&"THE".to_string(), a.total, &a.terms), Ratio { num: 1, den: 3 });
}

#[test]
fn term_frequency_of_an_empty_document_is_zero() {
    let table = TermTable::new();
    assert_eq!(compute_tf(&"X".to_string(), 0, &table), Ratio { num: 0, den: 1 });
    let model = build(&vec![source("empty", "")]);
    let record = &model.docs[0];
    assert_eq!(compute_tf(&"X".to_string(), record.total, &record.terms), Ratio { num: 0, den: 1 });
}

#[test]
fn term_frequency_lies_between_zero_and_one() {
    let model = build(&vec![source("a", "x x x"), source("b", "x y"), source("c", "")]);
    for record in &model.docs {
        for term in ["X", "Y", "Z"] {
            let tf = compute_tf(&term.to_string(), record.total, &record.terms);
            assert!(tf.den >= 1);
            assert!(tf.num <= tf.den);
        }
    }
    let full = &model.docs[0];
    assert_eq!(compute_tf(&"X".to_string(), full.total, &full.terms), Ratio { num: 3, den: 3 });
}

#[test]
fn inverse_document_frequency_is_corpus_over_documents() {
    let model = cats();
    let n = model.docs.len();
    assert_eq!(compute_idf(&"RAN".to_string(), n, &model.df), Ratio { num: 2, den: 1 });
    assert_eq!(compute_idf(&"THE".to_string(), n, &model.df), Ratio { num: 2, den: 2 });
}

#[test]
fn an_absent_term_counts_as_one_document() {
    let model = cats();
    assert_eq!(compute_idf(&"DOG".to_string(), 2, &model.df), Ratio { num: 2, den: 1 });
    assert_eq!(compute_idf(&"DOG".to_string(), 0, &TermTable::new()), Ratio { num: 0, den: 1 });
}

#[test]
fn inverse_document_frequency_is_never_negative() {
    let model = build(&vec![source("a", "x y"), source("b", "x"), source("c", "z z")]);
    for term in ["X", "Y", "Z", "W"] {
        let idf = compute_idf(&term.to_string(), model.docs.len(), &model.df);
        assert!(idf.den >= 1 && idf.den <= idf.num);
        let value = (idf.num as f32 / idf.den as f32).ln();
        assert!(value.is_finite() && value >= 0.0);
    }
}

#[test]
fn every_document_is_weighed_against_every_term() {
    let model = cats();
    let weighed = score_factors(&model, &chars("ran the ran"));
    assert_eq!(weighed.len(), 2);
    assert_eq!(weighed[0].id, "A");
    assert_eq!(weighed[1].id, "B");
    let ran_a = Factor { tf: Ratio { num: 0, den: 3 }, idf: Ratio { num: 2, den: 1 } };
    let the_a = Factor { tf: Ratio { num: 1, den: 3 }, idf: Ratio { num: 2, den: 2 } };
    let ran_b = Factor { tf: Ratio { num: 2, den: 4 }, idf: Ratio { num: 2, den: 1 } };
    let the_b = Factor { tf: Ratio { num: 1, den: 4 }, idf: Ratio { num: 2, den: 2 } };
    assert_eq!(weighed[0].factors, vec![ran_a, the_a, ran_a]);
    assert_eq!(weighed[1].factors, vec![ran_b, the_b, ran_b]);
}

#[test]
fn the_cat_that_ran_ranks_first() {
    let model = cats();
    let weighed = score_factors(&model, &chars("ran"));
    assert_eq!(weighed[0].factors.len(), 1);
    assert_eq!(score(&weighed[0].factors), 0.0);
    let b = score(&weighed[1].factors);
    assert!((b - 0.34657359).abs() < 1e-6);
    assert!(((2f32).ln() - 0.693).abs() < 1e-3);
    let ranking = sort_ranking(ranked(&weighed));
    assert_eq!(ids(&ranking), vec!["B", "A"]);
    assert_eq!(f32::from_bits(bits_of_key(ranking[0].key)), b);
    assert_eq!(f32::from_bits(bits_of_key(ranking[1].key)), 0.0);
}

#[test]
fn a_repeated_query_term_counts_twice() {
    let model = cats();
    let once = score_factors(&model, &chars("ran"));
    let twice = score_factors(&model, &chars("ran ran"));
    assert_eq!(twice[1].factors.len(), 2);
    assert_eq!(score(&twice[1].factors), 2.0 * score(&once[1].factors));
}

#[test]
fn an_empty_query_ranks_every_document_by_identifier() {
    let model = build(&vec![
        source("zebra", "the cat"),
        source("apple", "sat"),
        source("mango", ""),
        source("Apple", "ran ran"),
    ]);
    let weighed = score_factors(&model, &chars("   "));
    assert_eq!(weighed.len(), 4);
    for doc in &weighed {
        assert!(doc.factors.is_empty());
        assert_eq!(score(&doc.factors), 0.0);
    }
    let ranking = sort_ranking(ranked(&weighed));
    assert_eq!(ids(&ranking), vec!["Apple", "apple", "mango", "zebra"]);
    for doc in &ranking {
        assert_eq!(doc.key, 0x8000_0000);
    }
}

#[test]
fn ranking_the_empty_model_gives_nothing() {
    let weighed = score_factors(&Model::new(), &chars("anything"));
    assert!(weighed.is_empty());
    assert!(sort_ranking(Vec::new()).is_empty());
}

#[test]
fn larger_keys_come_first() {
    let ranking = sort_ranking(vec![entry("a", 1), entry("b", 3), entry("c", 2)]);
    assert_eq!(ranking, vec![entry("b", 3), entry("c", 2), entry("a", 1)]);
}

#[test]
fn equal_keys_come_in_the_order_of_the_identifiers() {
    let ranking = sort_ranking(vec![
        entry("docs/b.xml", 7),
        entry("docs/a.xml", 7),
        entry("docs/c.xml", 9),
        entry("docs/a", 7),
        entry("docs/é.xml", 7),
    ]);
    assert_eq!(ids(&ranking), vec!["docs/c.xml", "docs/a", "docs/a.xml", "docs/b.xml", "docs/é.xml"]);
}

#[test]
fn sorting_keeps_every_document() {
    let items = vec![entry("x", 2), entry("x", 2), entry("y", 0), entry("w", u32::MAX)];
    let ranking = sort_ranking(items);
    assert_eq!(ranking, vec![entry("w", u32::MAX), entry("x", 2), entry("x", 2), entry("y", 0)]);
}

#[test]
fn identifiers_are_ordered_as_strings() {
    for (a, b) in [("", "a"), ("a", "b"), ("a", "aa"), ("B", "a"), ("z", "é"), ("é", "日")] {
        assert!(comes_before(a, b));
        assert!(!comes_before(b, a));
        assert_eq!(comes_before(a, b), a < b);
    }
    assert!(!comes_before("same", "same"));
}

#[test]
fn keys_keep_the_order_of_the_scores() {
    let scores = [
        f32::NEG_INFINITY,
        -3.5e10,
        -1.0,
        -1.0e-40,
        -0.0,
        0.0,
        1.0e-40,
        0.34657359,
        0.6931472,
        1.0,
        2.5e20,
        f32::INFINITY,
    ];
    for pair in scores.windows(2) {
        assert!(key_of_bits(pair[0].to_bits()) < key_of_bits(pair[1].to_bits()));
    }
    for score in scores {
        assert_eq!(bits_of_key(key_of_bits(score.to_bits())), score.to_bits());
    }
}

#[test]
fn the_keys_of_some_scores() {
    assert_eq!(key_of_bits(0), 0x8000_0000);
    assert_eq!(key_of_bits(0x8000_0000), 0x7fff_ffff);
    assert_eq!(key_of_bits(0xffff_ffff), 0);
    assert_eq!(key_of_bits(0x7fff_ffff), 0xffff_ffff);
    assert_eq!(key_of_bits(1f32.to_bits()), 0xbf80_0000);
    assert_eq!(bits_of_key(0), 0xffff_ffff);
    assert_eq!(bits_of_key(0xffff_ffff), 0x7fff_ffff);
    assert_eq!(bits_of_key(0x8000_0000), 0);
    assert_eq!(bits_of_key(0x7fff_ffff), 0x8000_0000);
}
