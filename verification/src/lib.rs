//! A range-normalization and repeated-pattern classification engine.
//!
//! The library classifies 64-bit identifiers against a set of inclusive
//! numeric ranges and two digit-repetition predicates.  Raw, possibly
//! overlapping range lists are parsed from text, merged into a canonical
//! disjoint form, and queried either for membership of individual
//! identifiers or for aggregate sums of identifiers whose decimal digits
//! form a repeated pattern.

pub mod aggregate;
pub mod digits;
pub mod freshness;
pub mod lookup;
pub mod merge;
pub mod parse;
pub mod patterns;
pub mod ranges;
