//! A library for constructing and composing discrete probability
//! distributions over arbitrary outcome types, in a monadic combinator
//! style (`map`, `and_then`, `flatten`, conditioning with `given`).
//!
//! Probabilities are exact rational numbers, so every combinator is
//! exact: no sampling, no rounding.  A `Distribution<T>` is a finite
//! probability mass function over outcomes `T`, where `T` only needs to
//! support equality comparison.  Internally it is an association list of
//! `(outcome, probability)` pairs with unique outcomes, kept in
//! first-occurrence order.

pub mod assoc_list;
pub mod dist;
pub mod laws;
pub mod model;
pub mod prob;
pub mod ratio;

pub use assoc_list::AssociationExt;
pub use dist::Distribution;
pub use dist::DistributionError;
pub use prob::Probability;
pub use prob::ProbabilityError;
pub use ratio::Ratio;
