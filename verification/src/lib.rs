//! An in-process key/value cache with frequency-based eviction, optional
//! per-entry time-to-live, and optional weight and entry-count bounds.
//!
//! Entries are ranked by a priority score computed from one of three policies
//! (plain frequency, frequency plus age, size-weighted frequency plus age);
//! the entry with the lowest score is evicted first.  Time is supplied by the
//! caller as a plain millisecond-style counter, so the whole engine is a
//! deterministic, verified value type; wiring it to a real clock or to an
//! eviction-notification callback is left to the embedding program.

pub use crate::builder::CacheBuilder;
pub use crate::cache::Cache;
pub use crate::cache::CacheError;
pub use crate::cache::Item;
pub use crate::policies::CachePolicy;
pub use crate::policies::calculate_policy;

mod builder;
mod cache;
mod laws;
mod policies;
mod support;
