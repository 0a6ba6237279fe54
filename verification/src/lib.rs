//! Verified core of a shopping-list backend: items with a checked flag,
//! named colored tags, and a many-to-many association between them.
//!
//! The `store` module holds the relational state and its operations, each
//! specified against a mathematical model; the `handlers` module holds the
//! per-request decision logic (validation, status mapping). I/O lives
//! outside this crate.

pub mod models;
pub mod order;
pub mod store;
pub mod handlers;
pub mod laws;
