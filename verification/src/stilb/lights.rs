//! Kinds of light sources.
use vstd::prelude::*;

verus! {

/// Kind of a light source.
#[derive(Clone, Copy, Debug, PartialEq, Eq, Structural)]
pub enum LightType {
    Directional,
    Point,
    Spot,
}

impl LightType {
    /// The value shaders read for this kind.
    pub fn code(self) -> (r: u32)
        ensures
            r == match self {
                LightType::Directional => 0u32,
                LightType::Point => 1u32,
                LightType::Spot => 2u32,
            },
    {
        match self {
            LightType::Directional => 0,
            LightType::Point => 1,
            LightType::Spot => 2,
        }
    }
}

} // verus!
