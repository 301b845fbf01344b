//! A local retrieval engine: documents are split into sentence-bounded,
//! token-estimated chunks, each chunk carries a fixed-point embedding vector,
//! and a persistent vector store ranks chunks against a query embedding by
//! cosine similarity to assemble a token-budgeted grounding context.
//!
//! Embedding coordinates and similarity scores are fixed-point integers:
//! a score of `similarity::SCORE_SCALE` stands for a cosine of exactly 1.

pub mod chunker;
pub mod codec;
pub mod config;
pub mod errors;
pub mod html;
pub mod indexer;
pub mod model;
pub mod retriever;
pub mod similarity;
pub mod store;
