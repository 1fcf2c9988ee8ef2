//! Catalog of published survey table and variable identifiers: the identifier
//! grammar, the per-year version detection of a table's layout, the merged
//! catalog that a refresh builds, and the exact-key search index over it.

pub mod text;
pub mod codes;
pub mod grammar;
pub mod versions;
pub mod catalog;
pub mod listing;
pub mod index;
pub mod format;
pub mod commands;
