//! Fixed bounds and key bytes of the index, and the configuration value
//! threaded through construction in their place.

use vstd::prelude::*;

verus! {

/// Number of bytes in one feature descriptor.
pub const FEATURE_DESCRIPTION_LENGTH: usize = 32;

/// Largest number of records a leaf may hold before it is split.
pub const MAX_LEAF_NODE_SIZE: u64 = 8192;

/// Logical depth interval at which a subtree is forked into its own shard file.
pub const MAX_FILE_NODE_DEPTH: usize = 8;

/// Default radius for an internal node built without sampling: the expected
/// squared distance of a uniformly random descriptor to an edge descriptor,
/// 32 times the mean of x^2 over x in 0..=255.
pub const AVERAGE_EDGE_FEATURE_DISTANCE: u32 = 694960;

/// Direction key bytes used in shard file names.
pub const NEAR_KEY: u8 = 110;

pub const FAR_KEY: u8 = 97;

pub const FILE_KEY: u8 = 108;

pub const UNUSED_KEY: u8 = 117;

/// Default number of neighbors returned by a search.
pub const DEFAULT_K: usize = 100;

/// Largest number of neighbors a caller may request.
pub const MAX_K_VALUE: usize = 1000;

/// Default bound on how many shard boundaries one traversal may cross.
pub const DEFAULT_TRAVERSAL_FUEL: u32 = 64;


/// Configuration threaded through construction, so that several independent
/// indices, and tests with small bounds, can coexist.
#[derive(Clone, Copy, Debug)]
pub struct TreeConfig {
    /// Largest number of records a leaf may hold before it is split.
    pub max_leaf_node_size: u64,
    /// Logical depth interval at which a subtree forks into its own shard.
    pub max_file_node_depth: usize,
}

impl TreeConfig {
    pub open spec fn wf(&self) -> bool {
        &&& self.max_leaf_node_size >= 1
        &&& self.max_file_node_depth >= 1
    }

    pub fn new(max_leaf_node_size: u64, max_file_node_depth: usize) -> (r: TreeConfig)
        requires
            max_leaf_node_size >= 1,
            max_file_node_depth >= 1,
        ensures
            r.wf(),
            r.max_leaf_node_size == max_leaf_node_size,
            r.max_file_node_depth == max_file_node_depth,
    {
        TreeConfig { max_leaf_node_size, max_file_node_depth }
    }

    /// The bounds the index was built with historically.
    pub fn default_config() -> (r: TreeConfig)
        ensures
            r.wf(),
            r.max_leaf_node_size == MAX_LEAF_NODE_SIZE,
            r.max_file_node_depth == MAX_FILE_NODE_DEPTH,
    {
        TreeConfig {
            max_leaf_node_size: MAX_LEAF_NODE_SIZE,
            max_file_node_depth: MAX_FILE_NODE_DEPTH,
        }
    }
}

} // verus!
