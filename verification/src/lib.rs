//! A disk-resident vantage-point-tree index over fixed-length binary feature
//! descriptors, supporting insertion and bounded k-nearest-neighbor lookup
//! under squared Euclidean distance with triangle-inequality pruning.
//!
//! The index spans shard files: each shard holds one subtree, read and
//! rewritten whole per touch, so memory stays bounded on data sets larger
//! than it. Tree operations are verified against an in-memory value of the
//! shard files; an unverified shell maps that value to a real directory.

pub mod constants;
pub mod error;
pub mod feature_description;
pub mod features_database;
pub mod frame_info;
pub mod node;
pub mod node_path;
pub mod rng;
pub mod search_result;
pub mod shard_store;
pub mod tree_insert;
pub mod tree_model;
pub mod tree_search;
pub mod uuid_description_pair;
