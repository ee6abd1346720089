//! An append-only, content-indexed audit registry.
//!
//! The registry records star-rated audits against fixed-size content hashes,
//! keeps a deduplicated global index of every hash ever audited, tracks which
//! hashes each submitter has touched, and offers bounds-checked paginated
//! reads over the accumulated history.

pub mod registry;
pub mod types;
