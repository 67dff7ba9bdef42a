//! The indexer's pipelines.

pub mod bitmap;
