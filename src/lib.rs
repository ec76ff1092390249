//! Document ingestion and context retrieval: whitespace normalization of
//! extracted text, keyword context windows, ranked lookup over a document
//! store, and discovery of image streams in a PDF object graph.

pub mod models;
pub mod pdf;
pub mod pipeline;
pub mod rank;
pub mod search;
pub mod store;
pub mod text;
