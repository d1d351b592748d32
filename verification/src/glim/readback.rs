//! The order in which baked lightmaps are brought back from the GPU and
//! handed to the host: which steps run, for which group and lightmap type.
use vstd::prelude::*;
use crate::stilb::bindings::LightmapSettings;
use crate::glim::LightmapMode;

verus! {

/// One step of bringing a group's lightmap back. Lightmap type 0 is the
/// colour, type 1 the dominant direction.
#[derive(Clone, Copy, Debug, PartialEq, Eq, Structural)]
pub enum ReadbackStep {
    /// Expand the compacted texels of the group into its staging image.
    Decompact { group: u32, lightmap_type: u32 },
    /// Denoise the staging image (when a denoiser could be loaded).
    Denoise { group: u32, directional: bool },
    /// Re-encode a direction image for the host.
    EncodeDirectional { group: u32 },
    /// Repair the group's seams.
    FixSeams { group: u32 },
    /// Grow the charts' borders into the empty texels.
    Dilate { group: u32 },
    /// Hand the image to the host's readback callback.
    Readback { group: u32, lightmap_type: u32 },
}

/// The steps for lightmap type `ty` of group `g` with settings `s`.
pub open spec fn group_steps(s: LightmapSettings, g: u32, ty: u32) -> Seq<ReadbackStep> {
    seq![ReadbackStep::Decompact { group: g, lightmap_type: ty }]
        + (if s.denoise { seq![ReadbackStep::Denoise { group: g, directional: ty == 1 }] } else { Seq::empty() })
        + (if ty == 1 { seq![ReadbackStep::EncodeDirectional { group: g }] } else { Seq::empty() })
        + (if s.fix_seams { seq![ReadbackStep::FixSeams { group: g }] } else { Seq::empty() })
        + seq![ReadbackStep::Dilate { group: g }, ReadbackStep::Readback { group: g, lightmap_type: ty }]
}

/// The steps for the first `n` groups: each group in turn, its colour image
/// and then, in directional mode, its direction image.
pub open spec fn readback_plan(gs: Seq<LightmapSettings>, mode: LightmapMode, n: int) -> Seq<ReadbackStep>
    decreases n,
{
    if n <= 0 {
        Seq::empty()
    } else {
        let g = (n - 1) as u32;
        readback_plan(gs, mode, n - 1) + group_steps(gs[n - 1], g, 0) + match mode {
            LightmapMode::NonDirectional => Seq::empty(),
            LightmapMode::Directional => group_steps(gs[n - 1], g, 1),
        }
    }
}

/// The plan for `m` groups is the start of the plan for `n >= m` groups.
proof fn lemma_plan_prefix(gs: Seq<LightmapSettings>, mode: LightmapMode, m: int, n: int)
    requires
        0 <= m <= n,
    ensures
        readback_plan(gs, mode, m).len() <= readback_plan(gs, mode, n).len(),
        forall|x: int|
            0 <= x < readback_plan(gs, mode, m).len() ==> #[trigger] readback_plan(gs, mode, n)[x]
                == readback_plan(gs, mode, m)[x],
    decreases n - m,
{
    if m < n {
        lemma_plan_prefix(gs, mode, m, n - 1);
    }
}

/// One image's steps: decompaction first, then denoising exactly when the
/// group asks for it, re-encoding exactly for a direction image, seam fixing
/// exactly when the group asks for it, and dilation and readback last.
proof fn lemma_image_steps(s: LightmapSettings, g: u32, ty: u32)
    ensures
        ({
            let seg = group_steps(s, g, ty);
            &&& 2 <= seg.len()
            &&& seg[0] == ReadbackStep::Decompact { group: g, lightmap_type: ty }
            &&& seg[seg.len() - 1] == ReadbackStep::Readback { group: g, lightmap_type: ty }
            &&& seg[seg.len() - 2] == ReadbackStep::Dilate { group: g }
            &&& s.fix_seams <==> exists|l: int| 0 < l < seg.len() - 1 && #[trigger] seg[l] == ReadbackStep::FixSeams { group: g }
            &&& s.denoise <==> exists|l: int|
                0 < l < seg.len() - 1 && #[trigger] seg[l] == ReadbackStep::Denoise { group: g, directional: ty == 1 }
            &&& (ty == 1) <==> exists|l: int| 0 < l < seg.len() - 1 && #[trigger] seg[l] == ReadbackStep::EncodeDirectional { group: g }
        }),
{
    let seg = group_steps(s, g, ty);
    if s.denoise && ty == 1 && s.fix_seams {
        assert(seg =~= seq![
            ReadbackStep::Decompact { group: g, lightmap_type: ty },
            ReadbackStep::Denoise { group: g, directional: ty == 1 },
            ReadbackStep::EncodeDirectional { group: g },
            ReadbackStep::FixSeams { group: g },
            ReadbackStep::Dilate { group: g },
            ReadbackStep::Readback { group: g, lightmap_type: ty },
        ]);
    } else if s.denoise && ty == 1 && !s.fix_seams {
        assert(seg =~= seq![
            ReadbackStep::Decompact { group: g, lightmap_type: ty },
            ReadbackStep::Denoise { group: g, directional: ty == 1 },
            ReadbackStep::EncodeDirectional { group: g },
            ReadbackStep::Dilate { group: g },
            ReadbackStep::Readback { group: g, lightmap_type: ty },
        ]);
    } else if s.denoise && ty != 1 && s.fix_seams {
        assert(seg =~= seq![
            ReadbackStep::Decompact { group: g, lightmap_type: ty },
            ReadbackStep::Denoise { group: g, directional: ty == 1 },
            ReadbackStep::FixSeams { group: g },
            ReadbackStep::Dilate { group: g },
            ReadbackStep::Readback { group: g, lightmap_type: ty },
        ]);
    } else if s.denoise && ty != 1 && !s.fix_seams {
        assert(seg =~= seq![
            ReadbackStep::Decompact { group: g, lightmap_type: ty },
            ReadbackStep::Denoise { group: g, directional: ty == 1 },
            ReadbackStep::Dilate { group: g },
            ReadbackStep::Readback { group: g, lightmap_type: ty },
        ]);
    } else if !s.denoise && ty == 1 && s.fix_seams {
        assert(seg =~= seq![
            ReadbackStep::Decompact { group: g, lightmap_type: ty },
            ReadbackStep::EncodeDirectional { group: g },
            ReadbackStep::FixSeams { group: g },
            ReadbackStep::Dilate { group: g },
            ReadbackStep::Readback { group: g, lightmap_type: ty },
        ]);
    } else if !s.denoise && ty == 1 && !s.fix_seams {
        assert(seg =~= seq![
            ReadbackStep::Decompact { group: g, lightmap_type: ty },
            ReadbackStep::EncodeDirectional { group: g },
            ReadbackStep::Dilate { group: g },
            ReadbackStep::Readback { group: g, lightmap_type: ty },
        ]);
    } else if !s.denoise && ty != 1 && s.fix_seams {
        assert(seg =~= seq![
            ReadbackStep::Decompact { group: g, lightmap_type: ty },
            ReadbackStep::FixSeams { group: g },
            ReadbackStep::Dilate { group: g },
            ReadbackStep::Readback { group: g, lightmap_type: ty },
        ]);
    } else if !s.denoise && ty != 1 && !s.fix_seams {
        assert(seg =~= seq![
            ReadbackStep::Decompact { group: g, lightmap_type: ty },
            ReadbackStep::Dilate { group: g },
            ReadbackStep::Readback { group: g, lightmap_type: ty },
        ]);
    }
}

/// The image of type `ty` (0 for colour, 1 for direction) of group `g` runs
/// from its decompaction to its readback, and in between: its seams are
/// fixed exactly when the group asks for it, it is denoised exactly when
/// the group asks for it, it is re-encoded exactly when it is a direction
/// image, and it is dilated last, whatever its type. Direction images are
/// read back only in directional mode.
pub proof fn lemma_readback_image(gs: Seq<LightmapSettings>, mode: LightmapMode, n: int, g: int, ty: u32)
    requires
        0 <= g < n <= gs.len(),
        n <= u32::MAX,
        ty == 0 || (ty == 1 && mode == LightmapMode::Directional),
    ensures
        ({
            let plan = readback_plan(gs, mode, n);
            let s = gs[g];
            let gi = g as u32;
            exists|i: int, j: int|
                #![trigger plan[i], plan[j]]
                {
                    &&& 0 <= i < j < plan.len()
                    &&& plan[i] == ReadbackStep::Decompact { group: gi, lightmap_type: ty }
                    &&& plan[j] == ReadbackStep::Readback { group: gi, lightmap_type: ty }
                    &&& plan[j - 1] == ReadbackStep::Dilate { group: gi }
                    &&& s.fix_seams <==> exists|l: int| i < l < j && #[trigger] plan[l] == ReadbackStep::FixSeams { group: gi }
                    &&& s.denoise <==> exists|l: int|
                        i < l < j && #[trigger] plan[l] == ReadbackStep::Denoise { group: gi, directional: ty == 1 }
                    &&& (ty == 1) <==> exists|l: int| i < l < j && #[trigger] plan[l] == ReadbackStep::EncodeDirectional { group: gi }
                }
        }),
{
    let plan = readback_plan(gs, mode, n);
    let s = gs[g];
    let gi = g as u32;
    let o = lemma_image_in_plan(gs, mode, n, g, ty);
    let seg = group_steps(s, gi, ty);
    lemma_image_steps(s, gi, ty);
    let i = o;
    let j = o + seg.len() - 1;
    assert(plan[i] == seg[0]);
    assert(plan[j] == seg[seg.len() - 1]);
    assert(plan[j - 1] == seg[seg.len() - 2]);
    if s.fix_seams {
        let l = choose|l: int| 0 < l < seg.len() - 1 && #[trigger] seg[l] == ReadbackStep::FixSeams { group: gi };
        assert(plan[o + l] == seg[l]);
    }
    if s.denoise {
        let l = choose|l: int| 0 < l < seg.len() - 1 && #[trigger] seg[l] == ReadbackStep::Denoise { group: gi, directional: ty == 1 };
        assert(plan[o + l] == seg[l]);
    }
    if ty == 1 {
        let l = choose|l: int| 0 < l < seg.len() - 1 && #[trigger] seg[l] == ReadbackStep::EncodeDirectional { group: gi };
        assert(plan[o + l] == seg[l]);
    }
}

/// Where the steps of image `ty` of group `g` start in the plan: the plan
/// holds them there, one after another.
proof fn lemma_image_in_plan(gs: Seq<LightmapSettings>, mode: LightmapMode, n: int, g: int, ty: u32) -> (o: int)
    requires
        0 <= g < n <= gs.len(),
        ty == 0 || (ty == 1 && mode == LightmapMode::Directional),
    ensures
        0 <= o,
        o + group_steps(gs[g], g as u32, ty).len() <= readback_plan(gs, mode, n).len(),
        forall|y: int|
            o <= y < o + group_steps(gs[g], g as u32, ty).len() ==> #[trigger] readback_plan(gs, mode, n)[y]
                == group_steps(gs[g], g as u32, ty)[y - o],
{
    let s = gs[g];
    let gi = g as u32;
    lemma_plan_prefix(gs, mode, g + 1, n);
    let before = readback_plan(gs, mode, g);
    let colour = group_steps(s, gi, 0);
    let seg = group_steps(s, gi, ty);
    let step = readback_plan(gs, mode, g + 1);
    let o: int = if ty == 0 { before.len() as int } else { (before.len() + colour.len()) as int };
    assert(step == before + colour + match mode {
        LightmapMode::NonDirectional => Seq::<ReadbackStep>::empty(),
        LightmapMode::Directional => group_steps(s, gi, 1),
    });
    assert forall|y: int| o <= y < o + seg.len() implies #[trigger] readback_plan(gs, mode, n)[y] == seg[y - o] by {
        assert(readback_plan(gs, mode, n)[y] == step[y]);
    }
    o
}

fn push_group_steps(steps: &mut Vec<ReadbackStep>, s: LightmapSettings, g: u32, ty: u32)
    ensures
        final(steps)@ == old(steps)@ + group_steps(s, g, ty),
{
    let ghost start = steps@;
    steps.push(ReadbackStep::Decompact { group: g, lightmap_type: ty });
    let ghost a = steps@;
    if s.denoise {
        steps.push(ReadbackStep::Denoise { group: g, directional: ty == 1 });
    }
    let ghost b = steps@;
    if ty == 1 {
        steps.push(ReadbackStep::EncodeDirectional { group: g });
    }
    let ghost c = steps@;
    if s.fix_seams {
        steps.push(ReadbackStep::FixSeams { group: g });
    }
    let ghost d = steps@;
    steps.push(ReadbackStep::Dilate { group: g });
    steps.push(ReadbackStep::Readback { group: g, lightmap_type: ty });
    proof {
        let den = if s.denoise { seq![ReadbackStep::Denoise { group: g, directional: ty == 1 }] } else { Seq::empty() };
        let enc = if ty == 1 { seq![ReadbackStep::EncodeDirectional { group: g }] } else { Seq::empty() };
        let fix = if s.fix_seams { seq![ReadbackStep::FixSeams { group: g }] } else { Seq::empty() };
        assert(a =~= start + seq![ReadbackStep::Decompact { group: g, lightmap_type: ty }]);
        assert(b =~= a + den);
        assert(c =~= b + enc);
        assert(d =~= c + fix);
        assert(steps@ =~= start + group_steps(s, g, ty));
    }
}

/// The readback steps of a bake, in the order they run.
pub fn readback_steps(groups: &[LightmapSettings], mode: LightmapMode) -> (steps: Vec<ReadbackStep>)
    requires
        groups@.len() <= u32::MAX,
    ensures
        steps@ == readback_plan(groups@, mode, groups@.len() as int),
{
    let mut steps: Vec<ReadbackStep> = Vec::new();
    let mut g: usize = 0;
    while g < groups.len()
        invariant
            g <= groups@.len(),
            groups@.len() <= u32::MAX,
            steps@ == readback_plan(groups@, mode, g as int),
        decreases groups@.len() - g,
    {
        let s = groups[g];
        let ghost before = steps@;
        push_group_steps(&mut steps, s, g as u32, 0);
        match mode {
            LightmapMode::NonDirectional => {
                proof {
                    assert(steps@ =~= readback_plan(groups@, mode, g as int + 1));
                }
            },
            LightmapMode::Directional => {
                push_group_steps(&mut steps, s, g as u32, 1);
                proof {
                    assert(steps@ =~= readback_plan(groups@, mode, g as int + 1));
                }
            },
        }
        g = g + 1;
    }
    steps
}

} // verus!
