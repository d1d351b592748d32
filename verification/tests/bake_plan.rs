use lightmapper::glim::bake_plan::{
    dispatch_size, lightmap_channels, lightmap_infos, plan_groups, prefix_compaction_counts,
};
use lightmapper::glim::{clamp_bounces, clamp_samples, LightmapMode, MAX_BOUNCES, MAX_SAMPLES};
use lightmapper::glim::bake_schedule::{BakeDispatch, BakePass, BakeSchedule};
use lightmapper::glim::readback::{readback_steps, ReadbackStep as S};
use lightmapper::stilb::bindings::LightmapSettings;

fn group(width: u32, height: u32) -> LightmapSettings {
    LightmapSettings { width, height, dilate: true, denoise: false, fix_seams: false }
}

#[test]
fn groups_are_laid_out_one_after_another() {
    let groups = [group(64, 32), group(16, 16), group(1, 1)];
    let layout = plan_groups(&groups);
    assert_eq!(layout.max_width, 64);
    assert_eq!(layout.max_height, 32);
    assert_eq!(layout.total_pixels, 2048 + 256 + 1);
    assert_eq!(layout.starts, vec![0, 64, 72]);
}

#[test]
fn no_groups_give_a_one_texel_target() {
    let layout = plan_groups(&[]);
    assert_eq!((layout.max_width, layout.max_height, layout.total_pixels), (1, 1, 0));
    assert!(layout.starts.is_empty());
}

#[test]
fn compaction_counts_become_prefix_offsets() {
    let groups = [group(64, 2), group(32, 3)];
    let layout = plan_groups(&groups);
    assert_eq!(layout.starts, vec![0, 4]);
    let words = 4 + 3;
    let mut buffer = vec![0u32; words * 2 + 2];
    for k in 0..words {
        buffer[2 * k] = 0xAAAA_0000 + k as u32;
        buffer[2 * k + 1] = (k as u32 * 5) % 33;
    }
    buffer[words * 2] = 77;
    buffer[words * 2 + 1] = 88;
    let before = buffer.clone();
    let total = prefix_compaction_counts(&mut buffer, &groups, &layout.starts);
    let mut running = 0;
    for k in 0..words {
        assert_eq!(buffer[2 * k], before[2 * k]);
        assert_eq!(buffer[2 * k + 1], running);
        running += before[2 * k + 1];
    }
    assert_eq!(total, running);
    assert_eq!(&buffer[words * 2..], &[77, 88]);
}

#[test]
fn dispatch_sizes_round_up() {
    assert_eq!(dispatch_size(100, 8), 13);
    assert_eq!(dispatch_size(64, 64), 1);
    assert_eq!(dispatch_size(65, 64), 2);
    assert_eq!(dispatch_size(0, 32), 0);
}

#[test]
fn channels_per_texel() {
    assert_eq!(lightmap_channels(LightmapMode::NonDirectional, 0), 3);
    assert_eq!(lightmap_channels(LightmapMode::Directional, 0), 6);
    assert_eq!(lightmap_channels(LightmapMode::NonDirectional, 1), 9);
    assert_eq!(lightmap_channels(LightmapMode::Directional, 3), 12);
}

#[test]
fn lightmap_info_records() {
    let groups = [group(8, 4), group(2, 2)];
    let infos = lightmap_infos(&groups, &[0, 1]);
    assert_eq!(infos.len(), 2);
    assert_eq!(infos[1].resolution, [2, 2]);
    assert_eq!(infos[1].compaction_offset, 1);
    assert_eq!(infos[0].pad, 0);
}

#[test]
fn sample_and_bounce_limits() {
    assert_eq!(clamp_samples(0), 1);
    assert_eq!(clamp_samples(5), 5);
    assert_eq!(clamp_samples(70000), MAX_SAMPLES);
    assert_eq!(clamp_bounces(0), 0);
    assert_eq!(clamp_bounces(200), MAX_BOUNCES);
    assert_eq!(MAX_BOUNCES, 127);
    assert_eq!(lightmapper::stilb::clamp_samples(0), 1);
    assert_eq!(lightmapper::stilb::clamp_bounces(128), 127);
}

#[test]
fn readback_runs_group_by_group() {
    let groups = [
        LightmapSettings { width: 64, height: 64, dilate: true, denoise: true, fix_seams: false },
        LightmapSettings { width: 32, height: 32, dilate: false, denoise: false, fix_seams: true },
    ];
    assert_eq!(
        readback_steps(&groups, LightmapMode::NonDirectional),
        vec![
            S::Decompact { group: 0, lightmap_type: 0 },
            S::Denoise { group: 0, directional: false },
            S::Dilate { group: 0 },
            S::Readback { group: 0, lightmap_type: 0 },
            S::Decompact { group: 1, lightmap_type: 0 },
            S::FixSeams { group: 1 },
            S::Dilate { group: 1 },
            S::Readback { group: 1, lightmap_type: 0 },
        ]
    );
    let directional = readback_steps(&groups[..1], LightmapMode::Directional);
    assert_eq!(
        directional,
        vec![
            S::Decompact { group: 0, lightmap_type: 0 },
            S::Denoise { group: 0, directional: false },
            S::Dilate { group: 0 },
            S::Readback { group: 0, lightmap_type: 0 },
            S::Decompact { group: 0, lightmap_type: 1 },
            S::Denoise { group: 0, directional: true },
            S::EncodeDirectional { group: 0 },
            S::Dilate { group: 0 },
            S::Readback { group: 0, lightmap_type: 1 },
        ]
    );
    assert!(readback_steps(&[], LightmapMode::Directional).is_empty());
}

#[test]
fn bake_dispatches_direct_then_bounces() {
    let mut s = BakeSchedule::new(2, 3, 2);
    assert_eq!(s.total(), 8);
    let mut seen = Vec::new();
    while let Some(d) = s.next_dispatch() {
        seen.push(d);
    }
    let d = |pass, sample_index, progress| BakeDispatch { pass, sample_index, progress };
    assert_eq!(
        seen,
        vec![
            d(BakePass::Direct, 0, 0),
            d(BakePass::Direct, 1, 1),
            d(BakePass::Bounce(0), 0, 2),
            d(BakePass::Bounce(0), 1, 3),
            d(BakePass::Bounce(0), 2, 4),
            d(BakePass::Bounce(1), 0, 5),
            d(BakePass::Bounce(1), 1, 6),
            d(BakePass::Bounce(1), 2, 7),
        ]
    );
    assert_eq!(s.next_dispatch(), None);
}

#[test]
fn bake_without_samples_dispatches_nothing() {
    let mut s = BakeSchedule::new(0, 0, 5);
    assert_eq!(s.total(), 0);
    assert_eq!(s.next_dispatch(), None);
    let mut s = BakeSchedule::new(1, 4, 0);
    assert_eq!(s.next_dispatch().map(|d| d.pass), Some(BakePass::Direct));
    assert_eq!(s.next_dispatch(), None);
}
