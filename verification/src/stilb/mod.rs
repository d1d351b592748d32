//! The lightmap baker's CPU side: UV packing, seam detection, mesh and
//! configuration data shared with the host engine.
use vstd::prelude::*;

pub mod bindings;
pub mod bmp;
pub mod compute_shader;
pub mod lights;
pub mod mesh;
pub mod oidn;
pub mod pack;
pub mod progress;
pub mod seams;
pub mod swapchain;
pub mod vulkan_core;

verus! {

/// Largest sample count a bake accepts per texel.
pub const MAX_SAMPLES: u32 = 65536;

/// Largest number of random dimensions a sample may draw.
pub const MAX_DIMENSIONS: u32 = 256;

/// Largest bounce count: two dimensions for the direct light, two per bounce.
pub const MAX_BOUNCES: u32 = 127;

/// Clamps a requested sample count into `1..=MAX_SAMPLES`.
pub fn clamp_samples(samples: u32) -> (r: u32)
    ensures
        r == if samples < 1 { 1 } else if samples > MAX_SAMPLES { MAX_SAMPLES } else { samples },
{
    if samples < 1 {
        1
    } else if samples > MAX_SAMPLES {
        MAX_SAMPLES
    } else {
        samples
    }
}

/// Clamps a requested bounce count into `0..=MAX_BOUNCES`.
pub fn clamp_bounces(bounces: u32) -> (r: u32)
    ensures
        MAX_BOUNCES == (MAX_DIMENSIONS - 2) / 2,
        r == if bounces > MAX_BOUNCES { MAX_BOUNCES } else { bounces },
{
    if bounces > MAX_BOUNCES {
        MAX_BOUNCES
    } else {
        bounces
    }
}

} // verus!
