//! A verified core for a semantic record store: binary file formats, an HNSW
//! graph index, date handling and the text helpers around them.

pub mod le;
pub mod hnsw;
pub mod codec;
pub mod record;
pub mod text;
pub mod store;
pub mod date;
pub mod query;
pub mod timeline;
pub mod dedup;
pub mod transfer;
pub mod api;
pub mod tools;
