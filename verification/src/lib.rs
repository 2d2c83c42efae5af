//! # matchkit — vocabulary types for multi-pattern matching
//!
//! The [`Match`] record, the sorted and deduplicated [`MatchSet`], the raw
//! [`GpuMatch`] form and the error type shared by matching backends.
use vstd::prelude::*;

pub mod error;
pub mod match_set;
pub mod match_type;
pub mod matcher;
pub mod merge;
pub mod order;
pub mod patterns;

pub use error::Error;
pub use error::Result;
pub use match_set::MatchSet;
pub use match_type::GpuMatch;
pub use match_type::Match;

verus! {

} // verus!
