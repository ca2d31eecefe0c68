//! Core of a nutrition-tracking service backend: a schema migration engine
//! that brings a SQLite store forward exactly once across restarts, and an
//! in-process fuzzy-search cache that serves ranked autocomplete matches over
//! logged item names.

pub mod dates;
pub mod migrate;
pub mod search;
pub mod store;

use vstd::prelude::*;

verus! {

/// A configuration assignment: one key and the value stored under it.
pub struct ConfSet {
    pub key: String,
    pub value: String,
}

} // verus!
