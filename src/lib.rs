//! A layered facet-value index: bitmaps of document ids grouped into a
//! multi-level tree over sorted facet values, with bulk and incremental
//! update paths and a normalized mirror for facet search.

pub mod docids;
pub mod order;
pub mod tree;
pub mod leaves;
pub mod update;
pub mod query;
pub mod codec;
pub mod sorted;
pub mod mirror;
pub mod error;
pub mod index;
pub mod search;
pub mod walk;
pub mod prefix;
pub mod batch;
