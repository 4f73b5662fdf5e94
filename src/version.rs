//! Semantic versions as range boundaries.

pub mod prerelease;
pub mod pure;

