//! The compaction-based lightmap baker: sample and bounce limits, the layout
//! of lightmap groups in the compaction buffers, GPU data records, and the
//! bookkeeping of the seam solver.
use vstd::prelude::*;
use crate::baker::shaders::MapEntry;

pub mod bake_plan;
pub mod bake_schedule;
pub mod readback;
pub mod seams;

verus! {

/// Largest sample count a bake accepts per texel.
pub const MAX_SAMPLES: u32 = 65536;

/// Largest number of random dimensions a sample may draw.
pub const MAX_DIMENSIONS: u32 = 256;

/// Largest bounce count: two dimensions for the direct light, two per bounce.
pub const MAX_BOUNCES: u32 = 127;

/// Clamps a requested sample count into `1..=MAX_SAMPLES`.
pub fn clamp_samples(samples: u32) -> (r: u32)
    ensures
        r == if samples < 1 { 1 } else if samples > MAX_SAMPLES { MAX_SAMPLES } else { samples },
{
    if samples < 1 {
        1
    } else if samples > MAX_SAMPLES {
        MAX_SAMPLES
    } else {
        samples
    }
}

/// Clamps a requested bounce count into `0..=MAX_BOUNCES`.
pub fn clamp_bounces(bounces: u32) -> (r: u32)
    ensures
        MAX_BOUNCES == (MAX_DIMENSIONS - 2) / 2,
        r == if bounces > MAX_BOUNCES { MAX_BOUNCES } else { bounces },
{
    if bounces > MAX_BOUNCES {
        MAX_BOUNCES
    } else {
        bounces
    }
}

/// Whether lightmaps store a dominant light direction beside the colour.
#[derive(Clone, Copy, Debug, PartialEq, Eq, Structural)]
pub enum LightmapMode {
    NonDirectional,
    Directional,
}

/// Kind of a light source.
#[derive(Clone, Copy, Debug, PartialEq, Eq, Structural)]
pub enum LightType {
    Directional,
    Point,
    Spot,
    Area,
}

impl LightType {
    /// The value shaders read for this kind.
    pub fn code(self) -> (r: u32)
        ensures
            r == match self {
                LightType::Directional => 0u32,
                LightType::Point => 1u32,
                LightType::Spot => 2u32,
                LightType::Area => 3u32,
            },
    {
        match self {
            LightType::Directional => 0,
            LightType::Point => 1,
            LightType::Spot => 2,
            LightType::Area => 3,
        }
    }
}

/// Push constants of the preview shader.
#[derive(Clone, Copy, Debug, PartialEq, Eq, Structural)]
pub struct PreviewPushConstants {
    pub lights_count: u32,
    pub max_samples: u32,
    pub sample_index: u32,
    pub width: u32,
    pub height: u32,
    pub bounce_count: u32,
}

/// Push constants of the light probe baking shader.
#[derive(Clone, Copy, Debug, PartialEq, Eq, Structural)]
pub struct BakeSHPushConstants {
    pub lights_count: u32,
    pub max_samples: u32,
    pub sample_index: u32,
    pub probes_count: u32,
}

/// Push constants of the bounce baking shader.
#[derive(Clone, Copy, Debug, PartialEq, Eq, Structural)]
pub struct BakeBouncePushConstants {
    pub width: u32,
    pub height: u32,
    pub sample_index: u32,
    pub max_samples: u32,
    pub bounce_index: u32,
    pub pad0: u32,
    pub pad1: u32,
    pub pad2: u32,
}

/// Per-group record the shaders read: resolution and where the group's
/// words start in the compaction buffer.
#[derive(Clone, Copy, Debug)]
pub struct LightmapInfo {
    pub resolution: [u32; 2],
    pub compaction_offset: u32,
    pub pad: u32,
}

/// Push constants of the compaction mask shader.
#[derive(Clone, Copy, Debug, PartialEq, Eq, Structural)]
pub struct CompactionPushConstants {
    pub width: u32,
    pub height: u32,
    pub offset: u32,
    pub compacted_count: u32,
    pub lightmap_type: u32,
    pub pad0: u32,
    pub pad1: u32,
    pub pad2: u32,
}

/// The positions of the seven 32-bit specialization constants, one after
/// another.
pub fn create_specialization_map_entries() -> (entries: Vec<MapEntry>)
    ensures
        entries@.len() == 7,
        forall|i: int|
            0 <= i < 7 ==> #[trigger] entries@[i] == (MapEntry { constant_id: i as u32, offset: (4 * i) as u32, size: 4 }),
{
    let mut entries: Vec<MapEntry> = Vec::new();
    let mut i: u32 = 0;
    while i < 7
        invariant
            i <= 7,
            entries@.len() == i,
            forall|k: int|
                0 <= k < i ==> #[trigger] entries@[k] == (MapEntry { constant_id: k as u32, offset: (4 * k) as u32, size: 4 }),
        decreases 7 - i,
    {
        entries.push(MapEntry { constant_id: i, offset: 4 * i, size: 4 });
        i = i + 1;
    }
    entries
}

/// Push constants of the dilation shader.
#[derive(Clone, Copy, Debug, PartialEq, Eq, Structural)]
pub struct DilatePushConstants {
    pub width: u32,
    pub height: u32,
    pub pad0: u32,
    pub pad1: u32,
}

} // verus!
