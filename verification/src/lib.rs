//! idea_db: an immutable, versioned idea graph. The library holds the record
//! model, the domain validator, composition traversal, restore checks and the
//! read projections; storage and transport live outside it.

pub mod limits;
pub mod json;
pub mod text;
pub mod util;
pub mod num;
pub mod model;
pub mod error;
pub mod graph;
pub mod validate;
pub mod store;
pub mod backup;
pub mod mutation;
pub mod query;
pub mod staging;
pub mod config;
pub mod retry;
pub mod ingest;
pub mod search;
pub mod export;
pub mod access;
pub mod preview;
