//! The data that the host engine and the baker exchange: settings, enums
//! with their wire values, and borrowed strings.
use vstd::prelude::*;
use vstd::string::StringSliceAdditionalSpecFns;

verus! {

/// Kind of a log message sent to the host.
#[derive(Clone, Copy, Debug, PartialEq, Eq, Structural)]
pub enum LogMessageType {
    Success,
    Error,
    Progress,
}

impl LogMessageType {
    /// The value the host reads for this kind.
    pub fn code(self) -> (r: u32)
        ensures
            r == match self {
                LogMessageType::Success => 0u32,
                LogMessageType::Error => 1u32,
                LogMessageType::Progress => 2u32,
            },
    {
        match self {
            LogMessageType::Success => 0,
            LogMessageType::Error => 1,
            LogMessageType::Progress => 2,
        }
    }
}

/// A string handed to the host: its UTF-8 bytes, or none for the null
/// string, and their count, which the host receives as a `u32` (the count is
/// cut to 32 bits).
pub struct FfiString<'a> {
    pub bytes: Option<&'a [u8]>,
    pub length: u32,
}

impl<'a> FfiString<'a> {
    pub fn new(value: &'a str) -> (s: FfiString<'a>)
        ensures
            s.bytes is Some,
            s.bytes->0@ == value.spec_bytes(),
            s.length == #[verifier::truncate] (value.len() as u32),
    {
        FfiString { bytes: Some(value.as_bytes()), length: #[verifier::truncate] (value.len() as u32) }
    }

    /// The string that stands for no string: no bytes, length 0.
    pub fn null() -> (s: FfiString<'a>)
        ensures
            s.bytes is None,
            s.length == 0,
    {
        FfiString { bytes: None, length: 0 }
    }
}

/// Output size and post-processing switches of one lightmap group.
#[derive(Clone, Copy, Debug, PartialEq, Eq, Structural)]
pub struct LightmapSettings {
    pub width: u32,
    pub height: u32,
    pub dilate: bool,
    pub denoise: bool,
    pub fix_seams: bool,
}

/// Axis convention of the positions the host sends.
#[derive(Clone, Copy, Debug, PartialEq, Eq, Structural)]
pub enum CoordinateSystem {
    Default,
    Unity,
}

impl CoordinateSystem {
    /// The value shaders read for this convention.
    pub fn code(self) -> (r: u32)
        ensures
            r == match self {
                CoordinateSystem::Default => 0u32,
                CoordinateSystem::Unity => 1u32,
            },
    {
        match self {
            CoordinateSystem::Default => 0,
            CoordinateSystem::Unity => 1,
        }
    }
}

/// How textures are sampled.
#[derive(Clone, Copy, Debug, PartialEq, Eq, Structural)]
pub enum TextureSamplerFilter {
    Nearest,
    Linear,
}

impl TextureSamplerFilter {
    /// The value shaders read for this filter.
    pub fn code(self) -> (r: u32)
        ensures
            r == match self {
                TextureSamplerFilter::Nearest => 0u32,
                TextureSamplerFilter::Linear => 1u32,
            },
    {
        match self {
            TextureSamplerFilter::Nearest => 0,
            TextureSamplerFilter::Linear => 1,
        }
    }
}

/// How light intensity falls off with distance.
#[derive(Clone, Copy, Debug, PartialEq, Eq, Structural)]
pub enum LightFalloffType {
    InverseSquare,
    UnityBuiltIn,
}

impl LightFalloffType {
    /// The value shaders read for this falloff.
    pub fn code(self) -> (r: u32)
        ensures
            r == match self {
                LightFalloffType::InverseSquare => 0u32,
                LightFalloffType::UnityBuiltIn => 1u32,
            },
    {
        match self {
            LightFalloffType::InverseSquare => 0,
            LightFalloffType::UnityBuiltIn => 1,
        }
    }
}

} // verus!
