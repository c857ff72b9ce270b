//! Knowledge-graph bundles built from a Wahapedia corpus, and the retrieval
//! path that answers questions from such a bundle.

pub mod ask;
pub mod foreign;
pub mod graph;
pub mod jsonl;
pub mod keyed;
pub mod tagged;
pub mod text;

