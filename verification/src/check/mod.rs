//! Type checking.

pub mod types;
