//! Push constants of the baking programs.
use vstd::prelude::*;

verus! {

/// Push constants of the lightmap baking program.
#[derive(Clone, Copy, Debug, PartialEq, Eq, Structural)]
pub struct BakePushConstants {
    pub lights_count: u32,
    pub max_samples: u32,
    pub sample_index: u32,
    pub width: u32,
    pub height: u32,
    pub bounce_count: u32,
}

/// Push constants of the light probe baking program.
#[derive(Clone, Copy, Debug, PartialEq, Eq, Structural)]
pub struct BakeSHPushConstants {
    pub lights_count: u32,
    pub max_samples: u32,
    pub sample_index: u32,
    pub probes_count: u32,
    pub pad0: u32,
    pub bounce_count: u32,
}

} // verus!
