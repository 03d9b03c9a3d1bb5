//! A small full-text relevance engine: it indexes a corpus of documents
//! and ranks the documents against a free-text query by TF-IDF.
//!
//! - [`lexer`] turns a text into its terms.
//! - [`table`] and [`model`] hold the frequency model: the term counts of
//!   each document and the document frequency of each term.
//!   [`model::build`] and [`Model::add_document`] index documents.
//! - [`rank`] weighs every document against a query, as exact fractions,
//!   and [`order`] puts the scored documents in order.
//! - [`codec`] writes the model as JSON and reads it back, checking all
//!   that a well-formed model promises; [`json`] is the JSON underneath.
//! - [`markup`] extracts the text of an XML document, and [`query`] takes
//!   a query from the bytes of a request.
//!
//! Every function states in its contract what it returns, over the
//! mathematical view of its arguments, and is proved to meet it. What is
//! taken on trust of the standard library and of the crates `serde_json`
//! and `xml-rs` stands in [`chars`], [`json`], [`markup`] and [`query`],
//! each item marked as trusted where it stands.
pub mod chars;
pub mod codec;
pub mod json;
pub mod lexer;
pub mod markup;
pub mod model;
pub mod order;
pub mod query;
pub mod rank;
pub mod table;

pub use crate::codec::{decode, encode, CorruptIndex};
pub use crate::lexer::{tokenize, Lexer};
pub use crate::markup::{extract_text, MarkupFault};
pub use crate::model::{build, DocRecord, Model, Source};
pub use crate::order::{bits_of_key, key_of_bits, sort_ranking, Ranked};
pub use crate::query::{chars_of, query_chars, MalformedQuery};
pub use crate::rank::{compute_idf, compute_tf, score_factors, Factor, Ratio, Weighed};
pub use crate::table::{Entry, TermTable};
