//! Hybrid search core: lexical scoring, rank fusion and result rollups over
//! an in-memory corpus of document chunks, plus the document lifecycle events.
//!
//! Scores are fixed-point integers in units of `1 / SCORE_ONE`, so every
//! formula of the ranking is exact and its contract can say what it returns.
//!
//! - [`tokenizer`] splits text into terms; [`terms`] counts them.
//! - [`logarithm`] and [`bm25`] score a query against the corpus.
//! - [`ranking`] orders hits, [`groups`] groups them by key.
//! - [`fusion`] fuses a vector ranking with a keyword ranking.
//! - [`aggregate`] rolls chunk hits up to documents and folders.
//! - [`searcher`] routes a request through these, step by step.
//! - [`events`] broadcasts document and folder changes.

pub mod aggregate;
pub mod bm25;
pub mod error;
pub mod events;
pub mod fusion;
pub mod groups;
pub mod hit;
pub mod logarithm;
pub mod options;
pub mod ranking;
pub mod searcher;
pub mod terms;
pub mod text;
pub mod tokenizer;
