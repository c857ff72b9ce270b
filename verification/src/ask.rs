//! The question answerer: load a bundle, retrieve passages, expand them
//! along graph edges, build the prompt and cite what the answer used.

pub mod error;
pub mod bundle;
pub mod expand;
pub mod cite;
pub mod retrieve;
pub mod model;
pub mod prompt;
pub mod query;
pub mod index;
pub mod settings;
