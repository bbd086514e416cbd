//! The exact core of a latent-semantic search engine over a corpus of
//! articles.
//!
//! Text becomes terms in [`tokenizer`], by way of the Porter-style
//! [`stemmer`]; the terms of a corpus make its vocabulary, a sorted
//! [`terms::TermSet`]; [`counts`] holds how often each term occurs in each
//! document and in how many documents, and [`sparse`] the compressed form
//! of these counts. A query is counted like a document; [`query`] finds
//! the documents that can match it and [`ranking`] orders them by score.
//!
//! Everything here is in whole numbers. The weights, the singular value
//! decomposition and the cosines are floating-point work and are the
//! caller's; what is decided about them without arithmetic on them is
//! here: the shape and the end of a Lanczos run in [`lanczos`], the names,
//! chunks, size repair and layout check of the cache in [`layout`] and
//! [`persist`], and the order of loading and building in [`coordinator`].

pub mod coordinator;
pub mod counts;
pub mod document;
pub mod lanczos;
pub mod layout;
pub mod persist;
pub mod query;
pub mod ranking;
pub mod sparse;
pub mod stemmer;
pub mod stopwords;
pub mod terms;
pub mod text;
pub mod tokenizer;
