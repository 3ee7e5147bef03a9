//! Core of a sharded, replicated document search engine: the per-partition
//! write pipeline that applies committed log entries to a key-value model,
//! the asynchronous index-event model, and the scatter/gather search merge.

pub mod bitmap;
pub mod codec;
pub mod codes;
pub mod doc;
pub mod indexer;
pub mod json;
pub mod laws;
pub mod meta;
pub mod router;
pub mod search;
pub mod service;
pub mod simba;
pub mod snapshot;
