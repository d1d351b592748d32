//! The compute programs of the baker, the resources each one binds, and the
//! layout of its specialization constants.
use vstd::prelude::*;
use crate::shaders::{word_in, ByteOrder};

pub mod bake_direct;
pub mod bake_indirect;

verus! {

/// The programs of the baker.
#[derive(Clone, Copy, Debug, PartialEq, Eq, Structural)]
pub enum ShaderName {
    CompactionMask,
    CompactVisibility,
    Decompact,
    RasterizeVertex,
    RasterizeFragment,
    InitializePreview,
    BakeLightProbes,
    BakeDirectLight,
    BakeIndirect,
    BakeDirectEmission,
    AdjustSamples,
    Preview,
}

/// The file, in the build's output directory, that holds the program.
pub fn shader_file_name(name: ShaderName) -> (r: &'static str)
    ensures
        r@ == match name {
            ShaderName::CompactionMask => "compaction_mask.spv"@,
            ShaderName::CompactVisibility => "compact_visibility.spv"@,
            ShaderName::Decompact => "decompact.spv"@,
            ShaderName::RasterizeVertex => "rasterize_vertex.spv"@,
            ShaderName::RasterizeFragment => "rasterize_fragment.spv"@,
            ShaderName::InitializePreview => "initialize_preview.spv"@,
            ShaderName::BakeLightProbes => "bake_sh.spv"@,
            ShaderName::BakeIndirect => "bake_indirect.spv"@,
            ShaderName::AdjustSamples => "adjust_samples.spv"@,
            ShaderName::Preview => "preview.spv"@,
            ShaderName::BakeDirectLight => "bake_direct_light.spv"@,
            ShaderName::BakeDirectEmission => "bake_direct_emission.spv"@,
        },
{
    match name {
        ShaderName::CompactionMask => "compaction_mask.spv",
        ShaderName::CompactVisibility => "compact_visibility.spv",
        ShaderName::Decompact => "decompact.spv",
        ShaderName::RasterizeVertex => "rasterize_vertex.spv",
        ShaderName::RasterizeFragment => "rasterize_fragment.spv",
        ShaderName::InitializePreview => "initialize_preview.spv",
        ShaderName::BakeLightProbes => "bake_sh.spv",
        ShaderName::BakeIndirect => "bake_indirect.spv",
        ShaderName::AdjustSamples => "adjust_samples.spv",
        ShaderName::Preview => "preview.spv",
        ShaderName::BakeDirectLight => "bake_direct_light.spv",
        ShaderName::BakeDirectEmission => "bake_direct_emission.spv",
    }
}

/// The 32-bit words of a SPIR-V file, read four bytes at a time in the
/// machine's byte order; trailing bytes that do not fill a word are dropped.
pub fn load_shader_bytes(bytes: &[u8], order: ByteOrder) -> (words: Vec<u32>)
    ensures
        words@.len() == bytes@.len() / 4,
        forall|i: int|
            0 <= i < words@.len() ==> #[trigger] words@[i] == word_in(order, bytes@.subrange(4 * i, 4 * i + 4)),
{
    crate::shaders::load_shader_bytes(bytes, order)
}

/// A resource slot of the compute programs.
#[derive(Clone, Copy, Debug, PartialEq, Eq, Structural)]
pub enum ShaderBinding {
    Tlas,
    Visibility,
    PreviewDiffuse,
    Emissions,
    Albedos,
    Skybox,
    SkyboxSampler,
}

impl ShaderBinding {
    /// The binding number of the slot in the programs' descriptor set.
    pub fn id(self) -> (r: u32)
        ensures
            r == match self {
                ShaderBinding::Tlas => 0u32,
                ShaderBinding::Visibility => 2u32,
                ShaderBinding::PreviewDiffuse => 4u32,
                ShaderBinding::Emissions => 5u32,
                ShaderBinding::Albedos => 3u32,
                ShaderBinding::Skybox => 20u32,
                ShaderBinding::SkyboxSampler => 21u32,
            },
    {
        match self {
            ShaderBinding::Tlas => 0,
            ShaderBinding::Visibility => 2,
            ShaderBinding::PreviewDiffuse => 4,
            ShaderBinding::Emissions => 5,
            ShaderBinding::Albedos => 3,
            ShaderBinding::Skybox => 20,
            ShaderBinding::SkyboxSampler => 21,
        }
    }
}

/// The kind of resource a descriptor slot holds.
#[derive(Clone, Copy, Debug, PartialEq, Eq, Structural)]
pub enum DescriptorKind {
    AccelerationStructure,
    StorageImage,
    SampledImage,
    Sampler,
}

/// One slot of a compute program's descriptor set layout.
#[derive(Clone, Copy, Debug, PartialEq, Eq, Structural)]
pub struct BindingLayout {
    pub binding: u32,
    pub kind: DescriptorKind,
    pub count: u32,
}

/// The layout slot a program declares for `binding`: texture arrays hold one
/// texture per lightmap group, every other slot holds one resource.
pub open spec fn binding_layout_spec(binding: ShaderBinding, lightmap_group_count: u32) -> BindingLayout {
    match binding {
        ShaderBinding::Tlas => BindingLayout { binding: 0, kind: DescriptorKind::AccelerationStructure, count: 1 },
        ShaderBinding::Visibility => BindingLayout { binding: 2, kind: DescriptorKind::StorageImage, count: 1 },
        ShaderBinding::PreviewDiffuse => BindingLayout { binding: 4, kind: DescriptorKind::StorageImage, count: 1 },
        ShaderBinding::Emissions => BindingLayout {
            binding: 5,
            kind: DescriptorKind::SampledImage,
            count: lightmap_group_count,
        },
        ShaderBinding::Albedos => BindingLayout {
            binding: 3,
            kind: DescriptorKind::SampledImage,
            count: lightmap_group_count,
        },
        ShaderBinding::Skybox => BindingLayout { binding: 20, kind: DescriptorKind::SampledImage, count: 1 },
        ShaderBinding::SkyboxSampler => BindingLayout { binding: 21, kind: DescriptorKind::Sampler, count: 1 },
    }
}

/// The layout slots of a program that binds `required`, in that order.
pub fn binding_layouts(required: &[ShaderBinding], lightmap_group_count: u32) -> (layouts: Vec<BindingLayout>)
    ensures
        layouts@.len() == required@.len(),
        forall|i: int|
            0 <= i < required@.len() ==> #[trigger] layouts@[i] == binding_layout_spec(
                required@[i],
                lightmap_group_count,
            ),
        forall|i: int|
            0 <= i < required@.len() ==> (#[trigger] layouts@[i]).count == if required@[i] == ShaderBinding::Albedos
                || required@[i] == ShaderBinding::Emissions {
                lightmap_group_count
            } else {
                1
            },
{
    let mut layouts: Vec<BindingLayout> = Vec::new();
    let mut i: usize = 0;
    while i < required.len()
        invariant
            i <= required.len(),
            layouts@.len() == i,
            forall|k: int|
                0 <= k < i ==> #[trigger] layouts@[k] == binding_layout_spec(required@[k], lightmap_group_count),
        decreases required.len() - i,
    {
        let b = required[i];
        let kind = match b {
            ShaderBinding::Tlas => DescriptorKind::AccelerationStructure,
            ShaderBinding::Visibility => DescriptorKind::StorageImage,
            ShaderBinding::PreviewDiffuse => DescriptorKind::StorageImage,
            ShaderBinding::Emissions => DescriptorKind::SampledImage,
            ShaderBinding::Albedos => DescriptorKind::SampledImage,
            ShaderBinding::Skybox => DescriptorKind::SampledImage,
            ShaderBinding::SkyboxSampler => DescriptorKind::Sampler,
        };
        let count = match b {
            ShaderBinding::Emissions | ShaderBinding::Albedos => lightmap_group_count,
            _ => 1,
        };
        layouts.push(BindingLayout { binding: b.id(), kind, count });
        i = i + 1;
    }
    proof {
        assert forall|i: int| 0 <= i < required@.len() implies (#[trigger] layouts@[i]).count == if required@[i]
            == ShaderBinding::Albedos || required@[i] == ShaderBinding::Emissions {
            lightmap_group_count
        } else {
            1
        } by {
            lemma_layout_counts(required@[i], lightmap_group_count);
        }
    }
    layouts
}

/// The albedo and emission slots are texture arrays with one texture per
/// lightmap group, sampled images; every other slot holds one resource.
pub proof fn lemma_layout_counts(binding: ShaderBinding, lightmap_group_count: u32)
    ensures
        binding_layout_spec(binding, lightmap_group_count).count == if binding == ShaderBinding::Albedos || binding
            == ShaderBinding::Emissions {
            lightmap_group_count
        } else {
            1
        },
        binding == ShaderBinding::Albedos || binding == ShaderBinding::Emissions ==> binding_layout_spec(
            binding,
            lightmap_group_count,
        ).kind == DescriptorKind::SampledImage,
{
}

/// Where one specialization constant sits in the constants block.
#[derive(Clone, Copy, Debug, PartialEq, Eq, Structural)]
pub struct MapEntry {
    pub constant_id: u32,
    pub offset: u32,
    pub size: usize,
}

/// The constants block holds eleven 32-bit values, a padding word, then
/// eight 64-bit addresses.
pub open spec fn map_entry_spec(i: int) -> MapEntry {
    if i < 11 {
        MapEntry { constant_id: i as u32, offset: (4 * i) as u32, size: 4 }
    } else {
        MapEntry { constant_id: i as u32, offset: (4 * (12 + 2 * (i - 11))) as u32, size: 8 }
    }
}

/// The positions of the 19 specialization constants.
pub fn create_specialization_map_entries() -> (entries: Vec<MapEntry>)
    ensures
        entries@.len() == 19,
        forall|i: int| 0 <= i < 19 ==> #[trigger] entries@[i] == map_entry_spec(i),
{
    let mut entries: Vec<MapEntry> = Vec::new();
    let mut i: u32 = 0;
    while i < 19
        invariant
            i <= 19,
            entries@.len() == i,
            forall|k: int| 0 <= k < i ==> #[trigger] entries@[k] == map_entry_spec(k),
        decreases 19 - i,
    {
        if i < 11 {
            entries.push(MapEntry { constant_id: i, offset: 4 * i, size: 4 });
        } else {
            entries.push(MapEntry { constant_id: i, offset: 4 * (12 + 2 * (i - 11)), size: 8 });
        }
        i = i + 1;
    }
    entries
}

/// Push constants of the preview program.
#[derive(Clone, Copy, Debug, PartialEq, Eq, Structural)]
pub struct PreviewPushConstants {
    pub lights_count: u32,
    pub max_samples: u32,
    pub sample_index: u32,
    pub width: u32,
    pub height: u32,
    pub bounce_count: u32,
}

} // verus!
