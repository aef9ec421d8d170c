//! Projections of a buffer rendered beside it.

pub mod rust;
