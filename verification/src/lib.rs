//! Semisupervised ternary agglomerative clustering over a boolean space.
//!
//! Points are fixed-length bit vectors with an optional advisory label.
//! Training repeatedly merges the closest pair of clusters by Hamming
//! distance, unless the merge would join a cluster holding a point labeled
//! `Malware` with one holding a point labeled `Accept`; a vetoed merge may
//! fall back to an alternate candidate a bounded number of times.

pub mod distance;
pub mod model;
pub mod partition;
