//! A verified semantic memory store: content-addressed deduplicated
//! records with tag search, fixed-point similarity ranking, and the wire
//! codec for a remote vector-collection backend.
pub mod codec;
pub mod config;
pub mod embeddings;
pub mod hashing;
pub mod models;
pub mod service;
pub mod similarity;
pub mod storage;
pub mod text;
