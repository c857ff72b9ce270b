//! The graph builder: corpus v1 entities in, a checked bundle of nodes,
//! edges and passages out.

pub mod attrs;
pub mod builder;
pub mod bundle;
pub mod corpus;
pub mod edges;
pub mod error;
pub mod groups;
pub mod html;
pub mod keysets;
pub mod lookup;
pub mod model;
pub mod nodes;
pub mod summary;
pub mod textutil;
