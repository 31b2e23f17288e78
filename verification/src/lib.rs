//! A dictionary service core: a block-compressed word store, the ingest of
//! tagged dictionary text, a registry of dictionaries, and the line protocol
//! that answers definition and match queries.

pub mod codec;
pub mod config;
pub mod dictionary;
pub mod fallback;
pub mod ingest;
pub mod protocol;
pub mod registry;
pub mod session;
pub mod store;
pub mod tags;
pub mod text;
