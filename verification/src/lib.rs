//! Core engine of a threaded-discussion reader: breadth-first, depth-bounded
//! retrieval of a reply tree, depth-first linearization into a flat display
//! order, and the cache-layer decisions that make fresh and cached data come
//! out in the same order.

pub mod arena;
pub mod cache;
pub mod feed;
pub mod html;
pub mod linearize;
pub mod records;
pub mod spinner;
pub mod theme;
pub mod timefmt;
pub mod tree;
pub mod walker;
