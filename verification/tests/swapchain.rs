use lightmapper::stilb::swapchain::{
    concurrent_sharing, next_frame_index, select_present_mode, select_surface_format, swapchain_extent, swapchain_image_count,
    SurfaceFormat, COLOR_SPACE_SRGB_NONLINEAR, FORMAT_B8G8R8A8_SRGB, PRESENT_MODE_MAILBOX,
};

fn fmt(format: i32, color_space: i32) -> SurfaceFormat {
    SurfaceFormat { format, color_space }
}

#[test]
fn surface_format_prefers_srgb_bgra() {
    let srgb = fmt(FORMAT_B8G8R8A8_SRGB, COLOR_SPACE_SRGB_NONLINEAR);
    assert_eq!(select_surface_format(&[fmt(44, 0), fmt(50, 1000104001), srgb]), srgb);
    assert_eq!(select_surface_format(&[fmt(44, 0), fmt(37, 0)]), fmt(44, 0));
    assert_eq!(select_surface_format(&[srgb, fmt(44, 0)]), srgb);
}

#[test]
fn present_mode_prefers_mailbox() {
    assert_eq!(select_present_mode(&[2, 0, PRESENT_MODE_MAILBOX]), PRESENT_MODE_MAILBOX);
    assert_eq!(select_present_mode(&[2, 0, 3]), 2);
}

#[test]
fn extent_follows_surface_or_clamps_request() {
    assert_eq!(swapchain_extent((800, 600), (1, 1), (4096, 4096), (1920, 1080)), (800, 600));
    assert_eq!(swapchain_extent((u32::MAX, u32::MAX), (64, 64), (1024, 768), (1920, 10)), (1024, 64));
    assert_eq!(swapchain_extent((u32::MAX, u32::MAX), (64, 64), (1024, 768), (512, 512)), (512, 512));
}

#[test]
fn image_count_is_three_within_limits() {
    assert_eq!(swapchain_image_count(2, 8), 3);
    assert_eq!(swapchain_image_count(4, 8), 4);
    assert_eq!(swapchain_image_count(1, 2), 2);
}

#[test]
fn sharing_mode() {
    assert!(concurrent_sharing(0, 1));
    assert!(!concurrent_sharing(2, 2));
}

#[test]
fn frames_rotate() {
    assert_eq!(next_frame_index(0, 3), 1);
    assert_eq!(next_frame_index(2, 3), 0);
    assert_eq!(next_frame_index(0, 1), 0);
    let mut i = 1;
    for _ in 0..3 {
        i = next_frame_index(i, 3);
    }
    assert_eq!(i, 1);
}
