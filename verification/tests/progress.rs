use lightmapper::stilb::progress::{progress_max, FrameRender, FrameStart, PassProgress, PreviewProgress};

#[test]
fn preview_accumulates_then_idles_and_reports_once() {
    let mut p = PreviewProgress::new(2);
    let s = p.begin_frame();
    assert_eq!(s, FrameStart { restart_clock: true, idle: false, report_complete: false });
    assert_eq!(p.record_frame(), FrameRender { clear_target: true, dispatch_sample: true });
    assert!(p.initialized);
    assert_eq!(p.begin_frame(), FrameStart { restart_clock: false, idle: false, report_complete: false });
    assert_eq!(p.record_frame(), FrameRender { clear_target: false, dispatch_sample: true });
    assert_eq!(p.sample_index, 2);
    assert_eq!(p.begin_frame(), FrameStart { restart_clock: false, idle: true, report_complete: true });
    assert_eq!(p.record_frame(), FrameRender { clear_target: false, dispatch_sample: false });
    assert_eq!(p.sample_index, 2);
    assert_eq!(p.begin_frame(), FrameStart { restart_clock: false, idle: true, report_complete: false });
}

#[test]
fn preview_restarts_when_camera_moves() {
    let mut p = PreviewProgress::new(4);
    p.begin_frame();
    p.record_frame();
    p.begin_frame();
    p.record_frame();
    assert_eq!(p.sample_index, 2);
    p.invalidate();
    assert!(!p.initialized);
    let s = p.begin_frame();
    assert!(s.restart_clock);
    assert_eq!(p.sample_index, 0);
    let r = p.record_frame();
    assert!(r.clear_target && r.dispatch_sample);
    assert_eq!(p.sample_index, 1);
}

#[test]
fn preview_with_no_samples_reports_at_once() {
    let mut p = PreviewProgress::new(0);
    assert_eq!(p.begin_frame(), FrameStart { restart_clock: true, idle: true, report_complete: true });
    assert_eq!(p.record_frame(), FrameRender { clear_target: true, dispatch_sample: false });
    assert_eq!(p.begin_frame(), FrameStart { restart_clock: false, idle: true, report_complete: false });
}

#[test]
fn pass_dispatches_its_samples() {
    let mut progress: u32 = 10;
    let mut pass = PassProgress::new(3);
    let mut dispatches = 0;
    loop {
        dispatches += 1;
        if pass.after_dispatch(&mut progress) {
            break;
        }
    }
    assert_eq!(dispatches, 3);
    assert_eq!(progress, 12);
    assert_eq!(pass.sample_index, 3);
}

#[test]
fn empty_pass_still_dispatches_once() {
    let mut progress: u32 = 0;
    let mut pass = PassProgress::new(0);
    assert!(pass.after_dispatch(&mut progress));
    assert_eq!(progress, 0);
    assert_eq!(pass.sample_index, 1);
}

#[test]
fn progress_target() {
    assert_eq!(progress_max(2, 64, 16, 3), 2 * 64 + 2 * 16 * 3);
    assert_eq!(progress_max(0, 64, 16, 3), 0);
    assert_eq!(progress_max(5, 7, 100, 0), 35);
}
