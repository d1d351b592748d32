//! The verified CPU side of a GPU lightmap baker: packing of UV charts into
//! lightmap atlases, seam bookkeeping, mesh merging, BMP files, texel
//! encodings, the layout of bake data, and the decisions of device setup and
//! of the sample loops. The GPU work and the floating-point geometry live in
//! the program around this library.
use vstd::prelude::*;

pub mod baker;
pub mod bits;
pub mod glim;
pub mod shaders;
pub mod stilb;
pub mod tinybvh;

verus! {

} // verus!
