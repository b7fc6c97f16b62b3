//! Core of an HTTP-triggered web crawler: a verified frontier traversal that
//! discovers every URL reachable from a seed, and a verified store of crawl
//! results keyed by seed URL. Fetching a page and extracting its anchors are
//! collaborators supplied from outside; the traversal, its deduplication and
//! termination bookkeeping, and the store's overwrite semantics are specified
//! and proved here.

pub mod engine;
pub mod graph;
pub mod store;
mod url_map;
pub mod urls;
