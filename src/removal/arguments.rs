use vstd::prelude::*;

verus! {

/// The number of entries in a batch when none is given.
pub const DEFAULT_BATCH_SIZE: usize = 5;

/// The settings of a removal run.
#[derive(Debug)]
pub struct Arguments {
    /// The root of the tree to remove.
    pub root: String,
    /// Pause before each batch until the operator confirms.
    pub confirm: bool,
    /// The number of entries in a batch, and the depth of the ring.
    pub batch_size: usize,
    /// Build a synthetic tree under the root before removing it.
    pub testing: bool,
}

impl Arguments {
    /// The settings for removing `root`, with every option at its default.
    pub fn new(root: String) -> (r: Arguments)
        ensures
            r.root == root,
            !r.confirm,
            r.batch_size == DEFAULT_BATCH_SIZE,
            !r.testing,
    {
        Arguments { root, confirm: false, batch_size: DEFAULT_BATCH_SIZE, testing: false }
    }
}

} // verus!
