//! An append-only versioned store of maintenance items grouped in categories.
//!
//! Items never change their attributes in place: each change is a new
//! immutable entry, and an item's current state is its entry with the
//! largest sequence id. Categories and items are soft-deleted, and titles
//! are unique among the records that are still active.
pub mod history;
pub mod laws;
pub mod model;
pub mod store;
