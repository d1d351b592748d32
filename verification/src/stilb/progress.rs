//! The decisions of the sample loops: the interactive preview, which
//! accumulates one sample per frame until the camera moves, and the bake
//! passes, which dispatch a group's samples one after another. The caller
//! records the GPU work and the timing; these types say what to do next.
use vstd::prelude::*;

verus! {

/// What the preview loop does at the top of a frame.
#[derive(Clone, Copy, Debug, PartialEq, Eq, Structural)]
pub struct FrameStart {
    /// The accumulation starts over: restart the bake clock.
    pub restart_clock: bool,
    /// Every sample is in: the loop may sleep instead of spinning.
    pub idle: bool,
    /// Print the "bake complete" line with the time since the clock started.
    pub report_complete: bool,
}

/// What the frame's command buffer records.
#[derive(Clone, Copy, Debug, PartialEq, Eq, Structural)]
pub struct FrameRender {
    /// First sample of an accumulation: trace visibility from the camera and
    /// clear the diffuse target.
    pub clear_target: bool,
    /// Dispatch one more sample.
    pub dispatch_sample: bool,
}

/// Progress of the preview's accumulation.
#[derive(Clone, Copy, Debug, PartialEq, Eq, Structural)]
pub struct PreviewProgress {
    pub sample_index: u32,
    pub max_samples: u32,
    /// Whether the current accumulation has started (visibility traced).
    pub initialized: bool,
    /// Whether completion of the current accumulation was reported.
    pub complete_reported: bool,
}

impl PreviewProgress {
    /// The accumulated samples never pass the target.
    pub open spec fn wf(self) -> bool {
        self.sample_index <= self.max_samples
    }

    /// The state and action after the top of a frame.
    pub open spec fn begin_spec(self) -> (PreviewProgress, FrameStart) {
        let restart = !self.initialized;
        let samples = if restart { 0 } else { self.sample_index };
        let reported = if restart { false } else { self.complete_reported };
        let idle = samples >= self.max_samples;
        let report = idle && !reported;
        (
            PreviewProgress {
                sample_index: samples,
                max_samples: self.max_samples,
                initialized: self.initialized,
                complete_reported: reported || report,
            },
            FrameStart { restart_clock: restart, idle, report_complete: report },
        )
    }

    /// The state and action after a frame's commands are recorded.
    pub open spec fn record_spec(self) -> (PreviewProgress, FrameRender) {
        let clear = self.sample_index == 0;
        let dispatch = self.sample_index < self.max_samples;
        (
            PreviewProgress {
                sample_index: if dispatch { (self.sample_index + 1) as u32 } else { self.sample_index },
                max_samples: self.max_samples,
                initialized: self.initialized || clear,
                complete_reported: self.complete_reported,
            },
            FrameRender { clear_target: clear, dispatch_sample: dispatch },
        )
    }

    /// One whole frame: its top, then its commands.
    pub open spec fn frame_spec(self) -> PreviewProgress {
        self.begin_spec().0.record_spec().0
    }

    /// The state after `k` frames in which the camera did not move.
    pub open spec fn frames(self, k: nat) -> PreviewProgress
        decreases k,
    {
        if k == 0 {
            self
        } else {
            self.frames((k - 1) as nat).frame_spec()
        }
    }

    /// A fresh accumulation towards `max_samples` samples, as set up when the
    /// render target is (re)created.
    pub fn new(max_samples: u32) -> (p: Self)
        ensures
            p.wf(),
            p == (PreviewProgress {
                sample_index: 0,
                max_samples,
                initialized: false,
                complete_reported: false,
            }),
    {
        PreviewProgress { sample_index: 0, max_samples, initialized: false, complete_reported: false }
    }

    /// The camera moved or a restart was asked for: the next frame starts
    /// the accumulation over.
    pub fn invalidate(&mut self)
        ensures
            *final(self) == (PreviewProgress { initialized: false, ..*old(self) }),
    {
        self.initialized = false;
    }

    /// The decisions at the top of a frame.
    pub fn begin_frame(&mut self) -> (r: FrameStart)
        requires
            old(self).wf(),
        ensures
            final(self).wf(),
            (*final(self), r) == old(self).begin_spec(),
    {
        let restart = !self.initialized;
        if restart {
            self.sample_index = 0;
            self.complete_reported = false;
        }
        let idle = self.sample_index >= self.max_samples;
        let report = idle && !self.complete_reported;
        if report {
            self.complete_reported = true;
        }
        FrameStart { restart_clock: restart, idle, report_complete: report }
    }

    /// The decisions while recording a frame's commands.
    pub fn record_frame(&mut self) -> (r: FrameRender)
        requires
            old(self).wf(),
        ensures
            final(self).wf(),
            (*final(self), r) == old(self).record_spec(),
    {
        let clear = self.sample_index == 0;
        if clear {
            self.initialized = true;
        }
        let dispatch = self.sample_index < self.max_samples;
        if dispatch {
            self.sample_index = self.sample_index + 1;
        }
        FrameRender { clear_target: clear, dispatch_sample: dispatch }
    }
}

/// After `k` frames with a still camera the preview holds
/// `min(start + k, max_samples)` samples, where `start` is what it held
/// before (nothing if it had to start over), and it has started.
pub proof fn lemma_preview_accumulates(p: PreviewProgress, k: nat)
    requires
        p.wf(),
        k > 0,
    ensures
        p.frames(k).wf(),
        p.frames(k).initialized,
        p.frames(k).max_samples == p.max_samples,
        p.frames(k).sample_index == ({
            let start = if p.initialized { p.sample_index as int } else { 0 };
            if start + k < p.max_samples { start + k } else { p.max_samples as int }
        }),
    decreases k,
{
    let prev = p.frames((k - 1) as nat);
    assert(p.frames(k) == prev.frame_spec());
    if k > 1 {
        lemma_preview_accumulates(p, (k - 1) as nat);
    } else {
        assert(prev == p);
    }
}

/// Completion is reported once per accumulation: after a frame that
/// reported it, the next frame with a still camera does not report it again.
pub proof fn lemma_preview_reports_once(p: PreviewProgress)
    requires
        p.wf(),
        p.begin_spec().1.report_complete,
    ensures
        !p.frame_spec().begin_spec().1.report_complete,
        p.frame_spec().begin_spec().1.idle,
{
}

/// Moving the camera restarts the clock and the accumulation at the next
/// frame, whatever had been accumulated.
pub proof fn lemma_preview_restart(p: PreviewProgress)
    requires
        p.wf(),
    ensures
        ({
            let q = PreviewProgress { initialized: false, ..p };
            &&& q.begin_spec().1.restart_clock
            &&& q.begin_spec().0.sample_index == 0
            &&& q.begin_spec().0.record_spec().1.clear_target
        }),
{
}

/// Frames after a restart with a still camera: after `k` frames, for
/// `1 <= k <= max_samples`, the accumulation has started and holds `k`
/// samples, and completion has not been reported.
proof fn lemma_restart_frames(p: PreviewProgress, k: nat)
    requires
        p.wf(),
        !p.initialized,
        1 <= k <= p.max_samples,
    ensures
        p.frames(k) == (PreviewProgress {
            sample_index: k as u32,
            max_samples: p.max_samples,
            initialized: true,
            complete_reported: false,
        }),
    decreases k,
{
    if k > 1 {
        lemma_restart_frames(p, (k - 1) as nat);
    } else {
        assert(p.frames(0) == p);
    }
}

/// A restarted accumulation is reported complete once it is complete,
/// whatever was reported before the restart: with a still camera, the top of
/// frame `k` (counting from 0) reports completion exactly when `k` equals the
/// sample target, and the frame after does not report it again.
pub proof fn lemma_restart_reports_completion(p: PreviewProgress, k: nat)
    requires
        p.wf(),
        !p.initialized,
    ensures
        p.frames(k).begin_spec().1.report_complete <==> k == p.max_samples,
{
    let m = p.max_samples as nat;
    assert(p.frames(0) == p);
    if m == 0 {
        if k >= 1 {
            lemma_preview_accumulates(p, k);
            let q = p.frames((k - 1) as nat);
            if k == 1 {
                assert(q == p);
            } else {
                lemma_preview_accumulates(p, (k - 1) as nat);
            }
            assert(q.begin_spec().0.complete_reported);
            assert(p.frames(k) == q.frame_spec());
        }
    } else if k >= 1 {
        if k <= m {
            lemma_restart_frames(p, k);
        } else {
            lemma_restart_frames(p, m);
            lemma_after_report(p, m, k);
        }
    }
}

/// Once completion was reported, later frames with a still camera stay
/// complete and reported.
proof fn lemma_after_report(p: PreviewProgress, m: nat, k: nat)
    requires
        p.wf(),
        !p.initialized,
        m == p.max_samples,
        1 <= m < k,
        p.frames(m) == (PreviewProgress { sample_index: m as u32, max_samples: p.max_samples, initialized: true, complete_reported: false }),
    ensures
        p.frames(k) == (PreviewProgress { sample_index: m as u32, max_samples: p.max_samples, initialized: true, complete_reported: true }),
    decreases k,
{
    if k > m + 1 {
        lemma_after_report(p, m, (k - 1) as nat);
    }
}

/// One bake pass over a lightmap group: the sample index of the next
/// dispatch and the pass's sample target.
#[derive(Clone, Copy, Debug, PartialEq, Eq, Structural)]
pub struct PassProgress {
    pub sample_index: u32,
    pub max_samples: u32,
}

/// Dispatches a pass of `max_samples` makes: the loop dispatches before it
/// tests, so a pass always makes at least one.
pub open spec fn pass_dispatches(max_samples: u32) -> int {
    if max_samples == 0 { 1 } else { max_samples as int }
}

impl PassProgress {
    /// A pass starting at its first sample.
    pub fn new(max_samples: u32) -> (p: Self)
        ensures
            p == (PassProgress { sample_index: 0, max_samples }),
    {
        PassProgress { sample_index: 0, max_samples }
    }

    /// Called after each dispatch: counts it, and says whether the pass is
    /// over. While it goes on, the overall progress counter takes one step.
    pub fn after_dispatch(&mut self, progress: &mut u32) -> (done: bool)
        requires
            old(self).sample_index < u32::MAX,
            !(old(self).sample_index + 1 >= old(self).max_samples) ==> *old(progress) < u32::MAX,
        ensures
            final(self).max_samples == old(self).max_samples,
            final(self).sample_index == old(self).sample_index + 1,
            done == (final(self).sample_index >= final(self).max_samples),
            *final(progress) == *old(progress) + if done { 0int } else { 1int },
    {
        self.sample_index = self.sample_index + 1;
        if self.sample_index >= self.max_samples {
            true
        } else {
            *progress = *progress + 1;
            false
        }
    }
}

/// A pass ends at its `pass_dispatches(max_samples)`-th dispatch and not
/// before: counting from a fresh pass, the `k`-th call of `after_dispatch`
/// (`k >= 1`) leaves the index at `k` and ends the pass exactly when `k`
/// reaches that count.
pub proof fn lemma_pass_length(max_samples: u32, k: int)
    requires
        1 <= k <= u32::MAX,
    ensures
        (k >= max_samples) <==> (k >= pass_dispatches(max_samples)),
        pass_dispatches(max_samples) >= 1,
{
}

/// The progress target of a bake: one step per direct sample of each group
/// and per indirect sample of each group and bounce.
pub fn progress_max(group_count: u32, direct_samples: u32, indirect_samples: u32, bounce_count: u32) -> (m: u32)
    requires
        group_count * direct_samples + group_count * indirect_samples * bounce_count <= u32::MAX,
    ensures
        m == group_count * direct_samples + group_count * indirect_samples * bounce_count,
{
    proof {
        assert(0 <= group_count * direct_samples) by (nonlinear_arith);
        assert(0 <= group_count * indirect_samples * bounce_count) by (nonlinear_arith);
        assert(0 <= group_count * indirect_samples) by (nonlinear_arith);
        assert(group_count * indirect_samples <= group_count * indirect_samples * bounce_count || bounce_count == 0)
            by (nonlinear_arith);
    }
    let direct = group_count * direct_samples;
    let per_bounce = if bounce_count == 0 { 0 } else { group_count * indirect_samples };
    let indirect = per_bounce * bounce_count;
    proof {
        assert(per_bounce * bounce_count == group_count * indirect_samples * bounce_count) by (nonlinear_arith)
            requires
                per_bounce == (if bounce_count == 0 { 0 } else { group_count * indirect_samples }),
        ;
    }
    direct + indirect
}

} // verus!
