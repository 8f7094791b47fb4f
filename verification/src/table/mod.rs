//! Bucket stores: from a hash to the identifiers filed under it.
pub mod general;
pub mod mem;
pub mod sqlite;
