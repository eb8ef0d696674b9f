//! Catalog synchronisation for a rhythm-game beatmap tracker: page parsing,
//! bounded pagination, partitioned storage, reconciliation and download batching.

pub mod status;
pub mod text;
pub mod json;
pub mod catalog;
pub mod crawl;
pub mod store;
pub mod sync;
