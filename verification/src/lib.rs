//! A venue seat-inventory library: a category/zone/row/seat tree with
//! atomic find/reserve/purchase/release operations, and a line-oriented
//! text protocol for driving them.
//!
//! All operations on the inventory are all-or-nothing: a batch that names
//! one unavailable seat changes nothing.  Callers that share one inventory
//! across threads serialize every call behind a single lock, so each
//! verified operation describes one indivisible step of the shared state.

pub mod codec;
pub mod handler;
pub mod seating;
