//! Incremental directory indexing: a persistent per-directory cache of file
//! metadata, the scan decisions that keep it current, its on-disk envelope,
//! and the CSV and tree renderings of it.

pub mod text;
pub mod tree;
pub mod paths;
pub mod scanner;
pub mod state;
pub mod store;
pub mod table;
