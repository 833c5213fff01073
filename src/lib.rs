//! In-memory vector search: collections of labelled embeddings with their
//! sign-bit signatures and label index, top-k selection, and a layered
//! proximity graph (HNSW) with its searches, linking and label map. Distances
//! are supplied by the caller as integer ranks.

pub mod distance;
pub mod error;
pub mod graph;
pub mod hnsw;
pub mod ids;
pub mod mmr;
pub mod signature;
pub mod store;
pub mod topk;
