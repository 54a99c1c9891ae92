//! A multi-tenant key/value store manager with per-record expiry.
//!
//! Databases are created and destroyed at runtime and addressed by name;
//! each stored record carries a time-to-live: an absolute wall-clock
//! millisecond timestamp after which reads observe the record as absent,
//! with `0` meaning "never expires". Expired records are reclaimed lazily:
//! a read that finds one enqueues a deferred deletion job, and a
//! compaction filter drops expired or undecodable records wholesale.

pub mod config;
pub mod conversion;
pub mod db;
pub mod errors;
pub mod strmap;
