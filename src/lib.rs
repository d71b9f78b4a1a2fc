//! Graph computation core: a stable-id graph topology with compressed
//! adjacency export, cycle-safe containment trees for the tree and
//! circle-packing layouts, and the integer bookkeeping of multi-level
//! modularity optimisation, each with its contract proved.
pub mod community;
pub mod counting;
pub mod csr;
pub mod edge;
pub mod label;
pub mod laws;
pub mod layout;
pub mod node;
pub mod round_trip;
pub mod topology;
pub mod tree;
