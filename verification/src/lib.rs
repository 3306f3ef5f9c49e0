//! Scan-configuration layer of a columnar query engine's file-based data
//! source: projection of a file schema combined with virtual partition
//! columns, minimum regrouping of files into ordered non-overlapping groups,
//! and per-batch materialization of constant partition columns.

pub mod config;
pub mod error;
pub mod packing;
pub mod projector;
pub mod scalar;
pub mod schema;
pub mod sort;
pub mod stats;
