use lightmapper::baker::gpu_memory::GpuMemoryTally;
use lightmapper::baker::shader::{self, binding_layouts as fixed_layouts, specialization_map_entries, BoundResources, ShaderBindingID};
use lightmapper::baker::shaders::{
    binding_layouts, create_specialization_map_entries, BindingLayout, DescriptorKind, ShaderBinding,
};
use lightmapper::shaders::{load_shader_bytes, shader_file_name, ByteOrder, ShaderName};
use lightmapper::stilb::bindings::{
    CoordinateSystem, FfiString, LightFalloffType, LogMessageType, TextureSamplerFilter,
};
use lightmapper::stilb::mesh::{append_indices, vertex_flags};
use lightmapper::stilb::oidn::{OIDNDeviceType, OIDNError, OIDNFormat};

#[test]
fn shader_words_in_machine_order() {
    let bytes = [1u8, 0, 0, 0, 0x78, 0x56, 0x34, 0x12, 9];
    let native = if u32::from_ne_bytes([1, 0, 0, 0]) == 1 { ByteOrder::Little } else { ByteOrder::Big };
    let words = load_shader_bytes(&bytes, native);
    assert_eq!(
        words,
        vec![u32::from_ne_bytes([1, 0, 0, 0]), u32::from_ne_bytes([0x78, 0x56, 0x34, 0x12])]
    );
    assert_eq!(load_shader_bytes(&bytes, ByteOrder::Little), vec![1, 0x12345678]);
    assert_eq!(load_shader_bytes(&bytes, ByteOrder::Big), vec![0x01000000, 0x78563412]);
    assert!(load_shader_bytes(&[1, 2, 3], native).is_empty());
    assert_eq!(shader::load_shader_bytes(&bytes, native), words);
    assert_eq!(lightmapper::baker::shaders::load_shader_bytes(&bytes, native), words);
}

#[test]
fn shader_files() {
    assert_eq!(shader_file_name(ShaderName::BakeLightProbes), "bake_sh.spv");
    assert_eq!(shader_file_name(ShaderName::Preview), "preview.spv");
    assert_eq!(
        lightmapper::baker::shaders::shader_file_name(lightmapper::baker::shaders::ShaderName::BakeDirectEmission),
        "bake_direct_emission.spv"
    );
}

#[test]
fn binding_slots() {
    assert_eq!(ShaderBinding::Skybox.id(), 20);
    assert_eq!(ShaderBinding::Albedos.id(), 3);
    let layouts = binding_layouts(&[ShaderBinding::Emissions, ShaderBinding::Tlas], 4);
    assert_eq!(
        layouts,
        vec![
            BindingLayout { binding: 5, kind: DescriptorKind::SampledImage, count: 4 },
            BindingLayout { binding: 0, kind: DescriptorKind::AccelerationStructure, count: 1 },
        ]
    );
    let present = BoundResources {
        tlas: true,
        visibility: false,
        preview_diffuse: true,
        emissions: false,
        albedos: true,
        skybox: false,
        skybox_sampler: true,
    };
    let layouts = fixed_layouts(present, 2);
    let ids: Vec<u32> = layouts.iter().map(|l| l.binding).collect();
    assert_eq!(ids, vec![ShaderBindingID::TLAS, ShaderBindingID::PREVIEW_DIFFUSE, ShaderBindingID::ALBEDOS, 21]);
    assert_eq!(layouts[2].count, 2);
}

#[test]
fn specialization_constant_offsets() {
    let e = create_specialization_map_entries();
    assert_eq!(e.len(), 19);
    assert_eq!((e[10].offset, e[10].size), (40, 4));
    assert_eq!((e[11].offset, e[11].size), (48, 8));
    assert_eq!((e[18].constant_id, e[18].offset), (18, 104));
    let f = specialization_map_entries();
    assert_eq!(f.len(), 32);
    assert_eq!((f[31].constant_id, f[31].offset, f[31].size), (31, 124, 4));
    let g = lightmapper::glim::create_specialization_map_entries();
    assert_eq!(g.len(), 7);
    assert_eq!(g[6].offset, 24);
}

#[test]
fn vertex_flag_bits() {
    assert_eq!(vertex_flags(3, false), 3);
    assert_eq!(vertex_flags(3, true), 3 | (1 << 16));
    assert_eq!(vertex_flags(0x3FFFF, false), 0xFFFF);
}

#[test]
fn indices_are_rebased_and_rewound() {
    let mut target = vec![9];
    append_indices(&mut target, &[0, 1, 2, 3, 4, 5], 10, CoordinateSystem::Unity);
    assert_eq!(target, vec![9, 10, 12, 11, 13, 15, 14]);
    let mut target = vec![];
    append_indices(&mut target, &[0, 1, 2], 1, CoordinateSystem::Default);
    assert_eq!(target, vec![1, 2, 3]);
}

#[test]
fn strings_for_the_host() {
    let s = FfiString::new("héllo");
    assert_eq!(s.length, 6);
    assert_eq!(s.bytes, Some("héllo".as_bytes()));
    let n = FfiString::null();
    assert_eq!(n.length, 0);
    assert!(n.bytes.is_none());
}

#[test]
fn wire_values() {
    assert_eq!(LogMessageType::Progress.code(), 2);
    assert_eq!(CoordinateSystem::Unity.code(), 1);
    assert_eq!(TextureSamplerFilter::Linear.code(), 1);
    assert_eq!(LightFalloffType::InverseSquare.code(), 0);
    assert_eq!(OIDNFormat::Half3.code(), 259);
    assert_eq!(OIDNDeviceType::CUDA.code(), 3);
    assert_eq!(OIDNError::from_code(4), OIDNError::OutOfMemory);
    assert_eq!(OIDNError::from_code(0), OIDNError::NoError);
    assert_eq!(OIDNError::from_code(99), OIDNError::Unknown);
    assert_eq!(lightmapper::glim::LightType::Area.code(), 3);
    assert_eq!(lightmapper::stilb::lights::LightType::Spot.code(), 2);
}

#[test]
fn gpu_memory_tally_balances() {
    let mut t = GpuMemoryTally::new();
    assert_eq!(t.register_gpu_alloc(1024), 1024);
    assert_eq!(t.register_gpu_alloc(4096), 5120);
    t.unregister_gpu_alloc(1024);
    assert_eq!(t.allocated, 4096);
    t.unregister_gpu_alloc(8192);
    assert_eq!(t.allocated, 4096u64.wrapping_sub(8192));
    assert_eq!(t.register_gpu_alloc(8192), 4096);
}
