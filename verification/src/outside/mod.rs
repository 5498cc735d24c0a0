//! What comes from std and from other crates.
//!
//! Each type here is carried without looking inside, and the contract of each call
//! is believed, not proved. A value that a call gave back comes with a record of
//! what it was called on. The records are private to these modules, so whoever
//! speaks of one has made the call.
pub mod lock;
pub mod metric;
pub mod time;
