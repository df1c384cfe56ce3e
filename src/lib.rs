//! A temporal, content-addressed property-graph store: content digests and
//! capabilities, a pack-based content store with a Bloom hierarchy, a graph
//! with timelines and adjacency, query fingerprints with a diff-able result
//! manifest, an adaptive planner, and a capability-checked executor.

pub mod cid;
pub mod perms;
pub mod signature;
pub mod varint;
pub mod trace;
pub mod manifest;
pub mod filters;
pub mod cas;
pub mod graph;
pub mod concur;
pub mod planner;
