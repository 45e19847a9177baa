//! Power-of-d-choices placement of per-keyword top-k result sets into bins.
//!
//! Each keyword's set of document identifiers is placed into one of `d`
//! candidate bins derived from a deterministic hash, preferring the bin that
//! already overlaps most with the set, after discarding the least overlapping
//! and the fullest candidates.

pub mod hashing;
pub mod candidates;
pub mod dataloader;
pub mod ids;
pub mod laws;
pub mod placement;
pub mod report;
pub mod search;
