//! Core machinery of a slippy-map tile pyramid: tile addressing, quadtree
//! visibility and level-of-detail selection, priority scheduling of fetches,
//! retry/fallback classification for downloads, a two-tier cache with
//! eviction, and the per-frame reconciliation bookkeeping.

pub mod cache;
pub mod channel;
pub mod downloader;
pub mod loader;
pub mod osm;
pub mod quadtree;
pub mod reconciler;
pub mod scheduler;
pub mod tiles;
pub mod types;
