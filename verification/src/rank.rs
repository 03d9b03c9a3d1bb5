//! Ranking: the two quotients that a score is made of, for every document
//! and every term of a query, and the order of the ranked documents.
//!
//! A score is the sum, over the terms of the query, of the term frequency
//! times the natural logarithm of the inverse document frequency. This
//! module computes both quotients exactly, as fractions of counts. Taking the
//! logarithm and adding up is arithmetic on real numbers and is left to the
//! caller, who hands back, for each document, a key that is larger for a
//! larger score; [`crate::order::sort_ranking`] then puts the documents in
//! order.
use vstd::prelude::*;
use crate::lexer::{terms, tokenize, views};
use crate::model::{containing, lemma_containing_le, DocRecord, Model};
use crate::table::{lemma_count_le_total, TermTable};

verus! {

/// A quotient of two counts, as a mathematical value.
pub struct Fraction {
    pub num: int,
    pub den: int,
}

/// A quotient of two counts. The denominator of one that this module
/// computes is never zero.
#[derive(Clone, Copy, PartialEq, Eq, Structural, Debug)]
pub struct Ratio {
    pub num: usize,
    pub den: usize,
}

impl View for Ratio {
    type V = Fraction;

    open spec fn view(&self) -> Fraction {
        Fraction { num: self.num as int, den: self.den as int }
    }
}

/// The term frequency of a term that occurs `count` times in a document of
/// `total` tokens: `count / total`, and zero for a document without tokens.
pub open spec fn tf_of(count: nat, total: nat) -> Fraction {
    if total == 0 {
        Fraction { num: 0, den: 1 }
    } else {
        Fraction { num: count as int, den: total as int }
    }
}

/// The inverse document frequency of a term that occurs in `df` of `n`
/// documents, before the logarithm is taken: `n / df`, with 1 in place of
/// `df` for a term that occurs in none.
pub open spec fn idf_of(df: nat, n: nat) -> Fraction {
    Fraction { num: n as int, den: if df == 0 { 1 } else { df as int } }
}

/// The term frequency of `current_term` in a document of `n` tokens whose
/// term counts are `freq_map`.
pub fn compute_tf(current_term: &String, n: usize, freq_map: &TermTable) -> (tf: Ratio)
    requires
        freq_map.wf(),
    ensures
        tf@ == tf_of(freq_map.count(current_term@), n as nat),
        tf.den >= 1,
        n == 0 ==> tf.num == 0,
        freq_map.total() == n ==> tf.num <= tf.den,
{
    proof {
        lemma_count_le_total(freq_map.entries@, current_term@);
    }
    if n == 0 {
        Ratio { num: 0, den: 1 }
    } else {
        Ratio { num: freq_map.get(current_term), den: n }
    }
}

/// The inverse document frequency of `current_term` in a corpus of `n`
/// documents whose document frequencies are `df`, before the logarithm is
/// taken.
pub fn compute_idf(current_term: &String, n: usize, df: &TermTable) -> (idf: Ratio)
    requires
        df.wf(),
    ensures
        idf@ == idf_of(df.count(current_term@), n as nat),
        idf.den >= 1,
{
    let found: usize = df.get(current_term);
    if found == 0 {
        Ratio { num: n, den: 1 }
    } else {
        Ratio { num: n, den: found }
    }
}

/// The term frequency of every term lies between zero and one, and is zero
/// in a document without tokens.
pub proof fn lemma_tf_in_unit_interval(record: DocRecord, term: Seq<char>)
    requires
        record.wf(),
    ensures
        ({
            let tf = tf_of(record.terms.count(term), record.total as nat);
            &&& 0 <= tf.num <= tf.den
            &&& tf.den >= 1
            &&& record.total == 0 ==> tf.num == 0
        }),
{
    lemma_count_le_total(record.terms.entries@, term);
}

/// In a corpus that is not empty, the quotient whose logarithm is the
/// inverse document frequency is at least one for every term, so that the
/// logarithm is finite and not negative.
pub proof fn lemma_idf_at_least_one(model: Model, term: Seq<char>)
    requires
        model.wf(),
        model.docs@.len() >= 1,
    ensures
        ({
            let idf = idf_of(model.df.count(term), model.docs@.len());
            1 <= idf.den <= idf.num
        }),
{
    lemma_containing_le(model.docs@, term);
    assert(model.df.count(term) == containing(model.docs@, term));
}

/// What one term of a query adds to the score of one document: the term
/// frequency, times the logarithm of the inverse document frequency.
#[derive(Clone, Copy, PartialEq, Eq, Structural, Debug)]
pub struct Factor {
    /// The term frequency.
    pub tf: Ratio,
    /// The inverse document frequency, before the logarithm is taken.
    pub idf: Ratio,
}

/// A document with one factor for each term of a query, in the order of the
/// query, repeats included.
#[derive(PartialEq, Eq, Debug)]
pub struct Weighed {
    /// The document's identifier.
    pub id: String,
    /// One factor for each term of the query.
    pub factors: Vec<Factor>,
}

/// `factor` is the factor of `term` for the document at place `i` of
/// `model`.
pub open spec fn is_factor_of(factor: Factor, model: Model, i: int, term: Seq<char>) -> bool {
    &&& factor.tf@ == tf_of(model.docs@[i].terms.count(term), model.docs@[i].total as nat)
    &&& factor.idf@ == idf_of(model.df.count(term), model.docs@.len())
}

/// `weighed` is the document at place `i` of `model` with its factors for
/// the terms `query`.
pub open spec fn is_weighed(weighed: Weighed, model: Model, i: int, query: Seq<Seq<char>>) -> bool {
    &&& weighed.id@ == model.docs@[i].id@
    &&& weighed.factors@.len() == query.len()
    &&& forall|j: int|
        0 <= j < query.len() ==> is_factor_of(#[trigger] weighed.factors@[j], model, i, query[j])
}

/// Tokenizes `query` and weighs every document of `model` against it: one
/// entry for each document, in the order of the model, with one factor for
/// each term of the query. A query without terms gives every document with
/// no factor.
pub fn score_factors(model: &Model, query: &[char]) -> (out: Vec<Weighed>)
    requires
        model.wf(),
    ensures
        out@.len() == model.docs@.len(),
        forall|i: int|
            0 <= i < out@.len() ==> is_weighed(#[trigger] out@[i], *model, i, terms(query@)),
{
    let tokens = tokenize(query);
    let ghost wanted = terms(query@);
    assert(tokens@.len() == wanted.len());
    let mut out: Vec<Weighed> = Vec::new();
    let mut i: usize = 0;
    while i < model.docs.len()
        invariant
            model.wf(),
            i <= model.docs@.len(),
            out@.len() == i,
            views(tokens@) == wanted,
            forall|k: int| 0 <= k < i ==> is_weighed(#[trigger] out@[k], *model, k, wanted),
        decreases model.docs@.len() - i,
    {
        let record = &model.docs[i];
        assert(record.wf());
        let mut factors: Vec<Factor> = Vec::new();
        let mut j: usize = 0;
        while j < tokens.len()
            invariant
                model.wf(),
                i < model.docs@.len(),
                record == model.docs@[i as int],
                j <= tokens@.len(),
                factors@.len() == j,
                views(tokens@) == wanted,
                forall|k: int|
                    0 <= k < j ==> is_factor_of(#[trigger] factors@[k], *model, i as int, wanted[k]),
            decreases tokens@.len() - j,
        {
            let term = &tokens[j];
            assert(term@ == wanted[j as int]) by {
                assert(views(tokens@)[j as int] == tokens@[j as int]@);
            }
            let tf = compute_tf(term, record.total, &record.terms);
            let idf = compute_idf(term, model.docs.len(), &model.df);
            factors.push(Factor { tf, idf });
            j += 1;
        }
        out.push(Weighed { id: record.id.clone(), factors });
        i += 1;
    }
    out
}

/// Against a query without terms every document of the model is weighed,
/// and none gets a factor: every score is the empty sum.
pub proof fn lemma_empty_query(model: Model, query: Seq<char>, out: Seq<Weighed>)
    requires
        terms(query).len() == 0,
        out.len() == model.docs@.len(),
        forall|i: int| 0 <= i < out.len() ==> is_weighed(#[trigger] out[i], model, i, terms(query)),
    ensures
        forall|i: int|
            0 <= i < model.docs@.len() ==> (#[trigger] out[i]).id@ == model.docs@[i].id@
                && out[i].factors@.len() == 0,
{
}

} // verus!
