//! A single-node, in-memory time-series document store keyed by a 128-bit
//! timestamp, with point lookups, range scans, schema-checked inserts and a
//! textual query protocol.

pub mod bptree;
pub mod database;
pub mod document;
pub mod files;
pub mod html;
pub mod index;
pub mod nodes;
pub mod query;
pub mod rebalance;
pub mod records;
pub mod render;
pub mod schema;
pub mod text;
pub mod tree;
