//! A generic frequency counter: a table from elements to occurrence counts.
//!
//! [`Counter`] is the container. What its operations promise is stated over
//! the functions of [`model`]; [`laws`] holds what follows for the operations
//! taken together. The remaining modules carry the proofs: [`entries`] for
//! walks over a table, [`tally`] for counting a sequence, and [`ranking`] for
//! ordering entries by count.

pub mod counter;
pub mod entries;
pub mod error;
pub mod laws;
pub mod model;
pub mod ranking;
pub mod tally;

pub use counter::Counter;
pub use error::CounterError;
