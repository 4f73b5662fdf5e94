//! A version-range algebra: sets of values of an ordered, steppable domain,
//! kept as canonical sequences of half-open interval boundaries.
//!
//! - `extreme`: what a boundary type offers (order, extremes, successor,
//!   text, reading from text);
//! - `numeric`: fixed-width integers as boundaries;
//! - `boundaries`: the model of a boundary sequence and the set it describes;
//! - `range`: the `Range` type, its constructors and its set operations;
//! - `closure`, `laws`: which sets have boundary sequences, and the algebraic
//!   laws of the operations;
//! - `order`, `text`, `version`: semantic versions, their order, text and
//!   successor;
//! - `display`, `parse`: writing ranges as text and reading range expressions;
//! - `round_trip`: reading back the text of a range.

pub mod extreme;
pub mod numeric;
pub mod boundaries;
pub mod range;
pub mod closure;
pub mod laws;
pub mod order;
pub mod version;
pub mod text;
pub mod display;
pub mod parse;
pub mod round_trip;
