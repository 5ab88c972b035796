//! A minimal embedded data-storage engine.
//!
//! Tables are created from an ordered list of column definitions; rows are
//! encoded into fixed-width byte buffers according to the derived schema;
//! optional per-column indices map values to row positions; filtered
//! projection queries scan the stored rows; table definitions and row data
//! are rendered to byte documents for persistence.

pub mod engine;
pub mod engine_operator;
pub mod index;
pub mod query;
pub mod query_parser;
pub mod repl;
pub mod table_sync;
pub mod text;
pub mod util;
