//! The values Open Image Denoise uses for device kinds, errors and formats.
use vstd::prelude::*;

verus! {

/// Kind of denoising device.
#[derive(Clone, Copy, Debug, PartialEq, Eq, Structural)]
pub enum OIDNDeviceType {
    Default,
    CPU,
    SYCL,
    CUDA,
    HIP,
    METAL,
}

impl OIDNDeviceType {
    /// The value the denoiser library takes for this kind.
    pub fn code(self) -> (r: u32)
        ensures
            r == match self {
                OIDNDeviceType::Default => 0u32,
                OIDNDeviceType::CPU => 1u32,
                OIDNDeviceType::SYCL => 2u32,
                OIDNDeviceType::CUDA => 3u32,
                OIDNDeviceType::HIP => 4u32,
                OIDNDeviceType::METAL => 5u32,
            },
    {
        match self {
            OIDNDeviceType::Default => 0,
            OIDNDeviceType::CPU => 1,
            OIDNDeviceType::SYCL => 2,
            OIDNDeviceType::CUDA => 3,
            OIDNDeviceType::HIP => 4,
            OIDNDeviceType::METAL => 5,
        }
    }
}

/// Error reported by the denoiser library (`NoError` is the library's code 0).
#[derive(Clone, Copy, Debug, PartialEq, Eq, Structural)]
pub enum OIDNError {
    NoError,
    Unknown,
    InvalidArgument,
    InvalidOperation,
    OutOfMemory,
    UnsupportedHardware,
    Cancelled,
}

impl OIDNError {
    /// The error with the code the library returned; codes it does not define
    /// read as `Unknown`.
    pub fn from_code(code: u32) -> (e: OIDNError)
        ensures
            e == match code {
                0 => OIDNError::NoError,
                2 => OIDNError::InvalidArgument,
                3 => OIDNError::InvalidOperation,
                4 => OIDNError::OutOfMemory,
                5 => OIDNError::UnsupportedHardware,
                6 => OIDNError::Cancelled,
                _ => OIDNError::Unknown,
            },
    {
        match code {
            0 => OIDNError::NoError,
            2 => OIDNError::InvalidArgument,
            3 => OIDNError::InvalidOperation,
            4 => OIDNError::OutOfMemory,
            5 => OIDNError::UnsupportedHardware,
            6 => OIDNError::Cancelled,
            _ => OIDNError::Unknown,
        }
    }
}

/// Pixel format of an image handed to the denoiser.
#[derive(Clone, Copy, Debug, PartialEq, Eq, Structural)]
pub enum OIDNFormat {
    Undefined,
    Float,
    Float2,
    Float3,
    Float4,
    Half,
    Half2,
    Half3,
    Half4,
}

impl OIDNFormat {
    /// The value the denoiser library takes for this format.
    pub fn code(self) -> (r: u32)
        ensures
            r == match self {
                OIDNFormat::Undefined => 0u32,
                OIDNFormat::Float => 1u32,
                OIDNFormat::Float2 => 2u32,
                OIDNFormat::Float3 => 3u32,
                OIDNFormat::Float4 => 4u32,
                OIDNFormat::Half => 257u32,
                OIDNFormat::Half2 => 258u32,
                OIDNFormat::Half3 => 259u32,
                OIDNFormat::Half4 => 260u32,
            },
    {
        match self {
            OIDNFormat::Undefined => 0,
            OIDNFormat::Float => 1,
            OIDNFormat::Float2 => 2,
            OIDNFormat::Float3 => 3,
            OIDNFormat::Float4 => 4,
            OIDNFormat::Half => 257,
            OIDNFormat::Half2 => 258,
            OIDNFormat::Half3 => 259,
            OIDNFormat::Half4 => 260,
        }
    }
}

} // verus!
