//! Data of the indirect-light baking program.
use vstd::prelude::*;

verus! {

/// Push constants of the indirect-light baking program.
#[derive(Clone, Copy, Debug, PartialEq, Eq, Structural)]
pub struct PushConstants {
    pub compacted_count: u32,
    pub sample_index: u32,
    pub max_samples: u32,
    pub bounce_index: u32,
}

} // verus!
