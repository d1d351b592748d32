//! The standalone baker: texture encodings, shader tables and device setup
//! decisions.
use vstd::prelude::*;

pub mod gpu_memory;
pub mod shader;
pub mod shaders;
pub mod texture2d;
pub mod vulkan_core;

verus! {

} // verus!
