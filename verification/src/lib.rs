//! A small, verified event catalogue: an in-memory store mapping numeric
//! identifiers to titled event records, together with the exact JSON bodies
//! that its operations produce.

pub mod api;
pub mod json;
pub mod store;
