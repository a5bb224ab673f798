//! Core of a multi-version key-value store: key ranges and request
//! options, an in-memory storage engine with atomic batches and snapshots,
//! a revision index, the store's read and write paths, and the dispatch of
//! changes to watchers.
pub mod bytes;
pub mod command;
pub mod engine;
pub mod entries;
pub mod index;
pub mod key_range;
pub mod kv_store;
pub mod opts;
pub mod query;
pub mod rpc;
pub mod snapshot;
pub mod watcher;
