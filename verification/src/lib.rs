//! A small extract-transform-load core: records fetched as CSV text are
//! parsed into typed rows and kept in a single-table store that offers
//! create, read-all, update-by-id and delete-by-id operations.
//!
//! The store is modelled here as a value with a mathematical view; the
//! surrounding binary performs the actual HTTP fetch and the SQLite
//! persistence, handing this crate plain values.

use vstd::prelude::*;

pub mod loader;
pub mod numerals;
pub mod record;
pub mod store;

verus! {

} // verus!
