//! The programs of the earlier baker pipeline: their files, the fixed binding
//! numbers of their resources, and their constant layout.
use vstd::prelude::*;
use crate::shaders::{word_in, ByteOrder};
use crate::baker::shaders::{BindingLayout, DescriptorKind, MapEntry};

verus! {

/// The programs of the baker.
#[derive(Clone, Copy, Debug, PartialEq, Eq, Structural)]
pub enum ShaderName {
    CompactionMask,
    CompactVisibility,
    Decompact,
    RasterizeVertex,
    RasterizeFragment,
    InitializePreview,
    BakeLightProbes,
    BakeDirectLight,
    BakeIndirect,
    BakeDirectEmission,
    AdjustSamples,
    Preview,
}

/// The file, in the build's output directory, that holds the program.
pub fn shader_file_name(name: ShaderName) -> (r: &'static str)
    ensures
        r@ == match name {
            ShaderName::CompactionMask => "compaction_mask.spv"@,
            ShaderName::CompactVisibility => "compact_visibility.spv"@,
            ShaderName::Decompact => "decompact.spv"@,
            ShaderName::RasterizeVertex => "rasterize_vertex.spv"@,
            ShaderName::RasterizeFragment => "rasterize_fragment.spv"@,
            ShaderName::InitializePreview => "initialize_preview.spv"@,
            ShaderName::BakeLightProbes => "bake_sh.spv"@,
            ShaderName::BakeIndirect => "bake_indirect.spv"@,
            ShaderName::AdjustSamples => "adjust_samples.spv"@,
            ShaderName::Preview => "preview.spv"@,
            ShaderName::BakeDirectLight => "bake_direct_light.spv"@,
            ShaderName::BakeDirectEmission => "bake_direct_emission.spv"@,
        },
{
    match name {
        ShaderName::CompactionMask => "compaction_mask.spv",
        ShaderName::CompactVisibility => "compact_visibility.spv",
        ShaderName::Decompact => "decompact.spv",
        ShaderName::RasterizeVertex => "rasterize_vertex.spv",
        ShaderName::RasterizeFragment => "rasterize_fragment.spv",
        ShaderName::InitializePreview => "initialize_preview.spv",
        ShaderName::BakeLightProbes => "bake_sh.spv",
        ShaderName::BakeIndirect => "bake_indirect.spv",
        ShaderName::AdjustSamples => "adjust_samples.spv",
        ShaderName::Preview => "preview.spv",
        ShaderName::BakeDirectLight => "bake_direct_light.spv",
        ShaderName::BakeDirectEmission => "bake_direct_emission.spv",
    }
}

/// The 32-bit words of a SPIR-V file, read four bytes at a time in the
/// machine's byte order; trailing bytes that do not fill a word are dropped.
pub fn load_shader_bytes(bytes: &[u8], order: ByteOrder) -> (words: Vec<u32>)
    ensures
        words@.len() == bytes@.len() / 4,
        forall|i: int|
            0 <= i < words@.len() ==> #[trigger] words@[i] == word_in(order, bytes@.subrange(4 * i, 4 * i + 4)),
{
    crate::shaders::load_shader_bytes(bytes, order)
}

/// The binding numbers of the programs' resources.
pub struct ShaderBindingID {}

impl ShaderBindingID {
    pub const TLAS: u32 = 0;
    pub const VISIBILITY: u32 = 2;
    pub const PREVIEW_DIFFUSE: u32 = 4;
    pub const EMISSIONS: u32 = 5;
    pub const ALBEDOS: u32 = 3;
    pub const SKYBOX: u32 = 20;
    pub const SKYBOX_SAMPLER: u32 = 21;
}

/// Which resources a program is given; texture arrays count as given when
/// they hold at least one texture.
#[derive(Clone, Copy, Debug, PartialEq, Eq, Structural)]
pub struct BoundResources {
    pub tlas: bool,
    pub visibility: bool,
    pub preview_diffuse: bool,
    pub emissions: bool,
    pub albedos: bool,
    pub skybox: bool,
    pub skybox_sampler: bool,
}

/// The slot that goes in the layout when `present` holds.
pub open spec fn slot_if(present: bool, slot: BindingLayout) -> Seq<BindingLayout> {
    if present {
        seq![slot]
    } else {
        Seq::empty()
    }
}

/// The layout slots for the given resources, in the fixed order TLAS,
/// visibility, preview target, emissions, albedos, skybox, skybox sampler.
pub open spec fn layouts_spec(r: BoundResources, lightmap_group_count: u32) -> Seq<BindingLayout> {
    slot_if(r.tlas, BindingLayout { binding: 0, kind: DescriptorKind::AccelerationStructure, count: 1 })
        + slot_if(r.visibility, BindingLayout { binding: 2, kind: DescriptorKind::StorageImage, count: 1 })
        + slot_if(r.preview_diffuse, BindingLayout { binding: 4, kind: DescriptorKind::StorageImage, count: 1 })
        + slot_if(r.emissions, BindingLayout { binding: 5, kind: DescriptorKind::SampledImage, count: lightmap_group_count })
        + slot_if(r.albedos, BindingLayout { binding: 3, kind: DescriptorKind::SampledImage, count: lightmap_group_count })
        + slot_if(r.skybox, BindingLayout { binding: 20, kind: DescriptorKind::SampledImage, count: 1 })
        + slot_if(r.skybox_sampler, BindingLayout { binding: 21, kind: DescriptorKind::Sampler, count: 1 })
}

fn push_if(layouts: &mut Vec<BindingLayout>, present: bool, slot: BindingLayout)
    ensures
        final(layouts)@ == old(layouts)@ + slot_if(present, slot),
{
    if present {
        layouts.push(slot);
    }
    proof {
        if present {
            assert(final(layouts)@ =~= old(layouts)@ + seq![slot]);
        } else {
            assert(final(layouts)@ =~= old(layouts)@ + Seq::<BindingLayout>::empty());
        }
    }
}

/// The descriptor set layout of a program given `resources`.
pub fn binding_layouts(resources: BoundResources, lightmap_group_count: u32) -> (layouts: Vec<BindingLayout>)
    ensures
        layouts@ == layouts_spec(resources, lightmap_group_count),
{
    let mut layouts: Vec<BindingLayout> = Vec::new();
    push_if(&mut layouts, resources.tlas, BindingLayout { binding: ShaderBindingID::TLAS, kind: DescriptorKind::AccelerationStructure, count: 1 });
    push_if(&mut layouts, resources.visibility, BindingLayout { binding: ShaderBindingID::VISIBILITY, kind: DescriptorKind::StorageImage, count: 1 });
    push_if(&mut layouts, resources.preview_diffuse, BindingLayout { binding: ShaderBindingID::PREVIEW_DIFFUSE, kind: DescriptorKind::StorageImage, count: 1 });
    push_if(&mut layouts, resources.emissions, BindingLayout { binding: ShaderBindingID::EMISSIONS, kind: DescriptorKind::SampledImage, count: lightmap_group_count });
    push_if(&mut layouts, resources.albedos, BindingLayout { binding: ShaderBindingID::ALBEDOS, kind: DescriptorKind::SampledImage, count: lightmap_group_count });
    push_if(&mut layouts, resources.skybox, BindingLayout { binding: ShaderBindingID::SKYBOX, kind: DescriptorKind::SampledImage, count: 1 });
    push_if(&mut layouts, resources.skybox_sampler, BindingLayout { binding: ShaderBindingID::SKYBOX_SAMPLER, kind: DescriptorKind::Sampler, count: 1 });
    proof {
        assert(layouts@ =~= layouts_spec(resources, lightmap_group_count));
    }
    layouts
}

/// Slot `x` of a layout for `r` has the count its binding asks for, and its
/// binding is one of the texture arrays only when `r` gives that array.
pub open spec fn slot_ok(x: BindingLayout, r: BoundResources, n: u32) -> bool {
    &&& x.count == if x.binding == 3 || x.binding == 5 { n } else { 1 }
    &&& x.binding == 3 ==> r.albedos
    &&& x.binding == 5 ==> r.emissions
}

proof fn lemma_slots_ok_concat(s1: Seq<BindingLayout>, s2: Seq<BindingLayout>, r: BoundResources, n: u32)
    requires
        forall|i: int| 0 <= i < s1.len() ==> slot_ok(#[trigger] s1[i], r, n),
        forall|i: int| 0 <= i < s2.len() ==> slot_ok(#[trigger] s2[i], r, n),
    ensures
        forall|i: int| 0 <= i < (s1 + s2).len() ==> slot_ok(#[trigger] (s1 + s2)[i], r, n),
{
    assert forall|i: int| 0 <= i < (s1 + s2).len() implies slot_ok(#[trigger] (s1 + s2)[i], r, n) by {
        if i >= s1.len() {
            assert((s1 + s2)[i] == s2[i - s1.len()]);
        }
    }
}

proof fn lemma_slot_if_ok(present: bool, slot: BindingLayout, r: BoundResources, n: u32)
    requires
        present ==> slot_ok(slot, r, n),
    ensures
        forall|i: int| 0 <= i < slot_if(present, slot).len() ==> slot_ok(#[trigger] slot_if(present, slot)[i], r, n),
{
}

proof fn lemma_layout_slots_ok(r: BoundResources, n: u32)
    ensures
        forall|i: int| 0 <= i < layouts_spec(r, n).len() ==> slot_ok(#[trigger] layouts_spec(r, n)[i], r, n),
{
    let t = slot_if(r.tlas, BindingLayout { binding: 0, kind: DescriptorKind::AccelerationStructure, count: 1 });
    let v = slot_if(r.visibility, BindingLayout { binding: 2, kind: DescriptorKind::StorageImage, count: 1 });
    let p = slot_if(r.preview_diffuse, BindingLayout { binding: 4, kind: DescriptorKind::StorageImage, count: 1 });
    let e = slot_if(r.emissions, BindingLayout { binding: 5, kind: DescriptorKind::SampledImage, count: n });
    let a = slot_if(r.albedos, BindingLayout { binding: 3, kind: DescriptorKind::SampledImage, count: n });
    let k = slot_if(r.skybox, BindingLayout { binding: 20, kind: DescriptorKind::SampledImage, count: 1 });
    let q = slot_if(r.skybox_sampler, BindingLayout { binding: 21, kind: DescriptorKind::Sampler, count: 1 });
    lemma_slot_if_ok(r.tlas, BindingLayout { binding: 0, kind: DescriptorKind::AccelerationStructure, count: 1 }, r, n);
    lemma_slot_if_ok(r.visibility, BindingLayout { binding: 2, kind: DescriptorKind::StorageImage, count: 1 }, r, n);
    lemma_slot_if_ok(r.preview_diffuse, BindingLayout { binding: 4, kind: DescriptorKind::StorageImage, count: 1 }, r, n);
    lemma_slot_if_ok(r.emissions, BindingLayout { binding: 5, kind: DescriptorKind::SampledImage, count: n }, r, n);
    lemma_slot_if_ok(r.albedos, BindingLayout { binding: 3, kind: DescriptorKind::SampledImage, count: n }, r, n);
    lemma_slot_if_ok(r.skybox, BindingLayout { binding: 20, kind: DescriptorKind::SampledImage, count: 1 }, r, n);
    lemma_slot_if_ok(r.skybox_sampler, BindingLayout { binding: 21, kind: DescriptorKind::Sampler, count: 1 }, r, n);
    lemma_slots_ok_concat(t, v, r, n);
    lemma_slots_ok_concat(t + v, p, r, n);
    lemma_slots_ok_concat(t + v + p, e, r, n);
    lemma_slots_ok_concat(t + v + p + e, a, r, n);
    lemma_slots_ok_concat(t + v + p + e + a, k, r, n);
    lemma_slots_ok_concat(t + v + p + e + a + k, q, r, n);
}

/// In a program's layout the albedo (binding 3) and emission (binding 5)
/// slots hold one texture per lightmap group and every other slot one
/// resource; each array is there exactly when the program is given it.
pub proof fn lemma_fixed_layout_counts(r: BoundResources, lightmap_group_count: u32)
    ensures
        forall|i: int|
            0 <= i < layouts_spec(r, lightmap_group_count).len() ==> (#[trigger] layouts_spec(r, lightmap_group_count)[i]).count
                == if layouts_spec(r, lightmap_group_count)[i].binding == 3 || layouts_spec(r, lightmap_group_count)[i].binding
                == 5 {
                lightmap_group_count
            } else {
                1
            },
        r.albedos <==> exists|i: int|
            0 <= i < layouts_spec(r, lightmap_group_count).len() && (#[trigger] layouts_spec(r, lightmap_group_count)[i]).binding == 3,
        r.emissions <==> exists|i: int|
            0 <= i < layouts_spec(r, lightmap_group_count).len() && (#[trigger] layouts_spec(r, lightmap_group_count)[i]).binding == 5,
{
    let n = lightmap_group_count;
    let all = layouts_spec(r, n);
    lemma_layout_slots_ok(r, n);
    assert forall|i: int| 0 <= i < all.len() implies (#[trigger] all[i]).count == if all[i].binding == 3
        || all[i].binding == 5 {
        n
    } else {
        1
    } by {
        assert(slot_ok(all[i], r, n));
    }
    lemma_array_slot_present(r, n);
    if exists|i: int| 0 <= i < all.len() && (#[trigger] all[i]).binding == 3 {
        let i = choose|i: int| 0 <= i < all.len() && (#[trigger] all[i]).binding == 3;
        assert(slot_ok(all[i], r, n));
    }
    if exists|i: int| 0 <= i < all.len() && (#[trigger] all[i]).binding == 5 {
        let i = choose|i: int| 0 <= i < all.len() && (#[trigger] all[i]).binding == 5;
        assert(slot_ok(all[i], r, n));
    }
}

proof fn lemma_array_slot_present(r: BoundResources, n: u32)
    ensures
        r.albedos ==> exists|i: int| 0 <= i < layouts_spec(r, n).len() && (#[trigger] layouts_spec(r, n)[i]).binding == 3,
        r.emissions ==> exists|i: int| 0 <= i < layouts_spec(r, n).len() && (#[trigger] layouts_spec(r, n)[i]).binding == 5,
{
    let t = slot_if(r.tlas, BindingLayout { binding: 0, kind: DescriptorKind::AccelerationStructure, count: 1 });
    let v = slot_if(r.visibility, BindingLayout { binding: 2, kind: DescriptorKind::StorageImage, count: 1 });
    let p = slot_if(r.preview_diffuse, BindingLayout { binding: 4, kind: DescriptorKind::StorageImage, count: 1 });
    let e = slot_if(r.emissions, BindingLayout { binding: 5, kind: DescriptorKind::SampledImage, count: n });
    let a = slot_if(r.albedos, BindingLayout { binding: 3, kind: DescriptorKind::SampledImage, count: n });
    let k = slot_if(r.skybox, BindingLayout { binding: 20, kind: DescriptorKind::SampledImage, count: 1 });
    let q = slot_if(r.skybox_sampler, BindingLayout { binding: 21, kind: DescriptorKind::Sampler, count: 1 });
    let all = layouts_spec(r, n);
    let s2 = t + v + p;
    let s3 = s2 + e;
    let s4 = s3 + a;
    assert(all == s4 + k + q);
    if r.albedos {
        assert(s4[s3.len() as int] == a[0]);
        assert(all[s3.len() as int] == s4[s3.len() as int]);
    }
    if r.emissions {
        assert(s3[s2.len() as int] == e[0]);
        assert(all[s2.len() as int] == s3[s2.len() as int]);
    }
}

/// Number of 32-bit specialization constants the programs take: the constant
/// block is 128 bytes long.
pub const SPECIALIZATION_MAP_ENTRIES_LEN: usize = 32;

/// One 32-bit specialization constant per word of the constant block.
pub fn specialization_map_entries() -> (entries: Vec<MapEntry>)
    ensures
        entries@.len() == SPECIALIZATION_MAP_ENTRIES_LEN,
        forall|i: int|
            0 <= i < SPECIALIZATION_MAP_ENTRIES_LEN ==> #[trigger] entries@[i] == (MapEntry {
                constant_id: i as u32,
                offset: (4 * i) as u32,
                size: 4,
            }),
{
    let mut entries: Vec<MapEntry> = Vec::new();
    let mut i: u32 = 0;
    while (i as usize) < SPECIALIZATION_MAP_ENTRIES_LEN
        invariant
            i <= SPECIALIZATION_MAP_ENTRIES_LEN,
            entries@.len() == i,
            forall|k: int|
                0 <= k < i ==> #[trigger] entries@[k] == (MapEntry {
                    constant_id: k as u32,
                    offset: (4 * k) as u32,
                    size: 4,
                }),
        decreases SPECIALIZATION_MAP_ENTRIES_LEN - i,
    {
        entries.push(MapEntry { constant_id: i, offset: 4 * i, size: 4 });
        i = i + 1;
    }
    entries
}

/// Push constants of the preview program.
#[derive(Clone, Copy, Debug, PartialEq, Eq, Structural)]
pub struct PreviewPushConstants {
    pub lights_count: u32,
    pub max_samples: u32,
    pub sample_index: u32,
    pub width: u32,
    pub height: u32,
    pub bounce_count: u32,
}

} // verus!
