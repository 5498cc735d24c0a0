//! A bounded cache of connection pools, one pool per scope.
//!
//! A pool that has not been used for the idle timeout is dropped, and when the
//! cache is full the least recently used pool makes room for a new one. Every
//! operation is a step on the model of [`model`]. [`operations`] states what each
//! of those steps does, and [`laws`] what holds of them together.
pub mod background;
pub mod clock;
pub mod laws;
pub mod locks;
pub mod metrics;
pub mod model;
pub mod operations;
pub mod outside;
pub mod pools;
pub mod scope;
mod table;
