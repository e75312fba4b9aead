//! Topics: named logs made of segments.

pub mod contents;
pub mod invariants;
pub mod listing;
pub mod topic;
