//! Null-aware columnar builders: scalar, string and list columns are
//! accumulated row by row and finished into immutable chunked columns,
//! preserving per-slot validity across every physical layout.

pub mod flat;
pub mod dtypes;
pub mod chunk;
pub mod chunked;
pub mod builder;
pub mod list;
pub mod functions;
pub mod laws;
