//! The order of the sample dispatches of a compacted bake: every direct
//! sample, then, bounce after bounce, every indirect sample. The progress the
//! host is told before each dispatch counts the dispatches made before it.
use vstd::prelude::*;

verus! {

/// The pass a dispatch belongs to.
#[derive(Clone, Copy, Debug, PartialEq, Eq, Structural)]
pub enum BakePass {
    Direct,
    /// The bounce with this index, from 0.
    Bounce(u32),
}

/// One sample dispatch: its pass, its sample index within the pass, and the
/// progress reported before it.
#[derive(Clone, Copy, Debug, PartialEq, Eq, Structural)]
pub struct BakeDispatch {
    pub pass: BakePass,
    pub sample_index: u32,
    pub progress: u32,
}

/// Dispatches of a bake: the direct samples and the indirect samples of
/// every bounce. It is also the progress total the host is given.
pub open spec fn bake_total(direct: u32, indirect: u32, bounces: u32) -> int {
    direct + indirect * bounces
}

/// The `k`-th dispatch of a bake, counted from 0, or none after the last.
pub open spec fn dispatch_at(direct: u32, indirect: u32, bounces: u32, k: int) -> Option<BakeDispatch> {
    if 0 <= k < direct {
        Some(BakeDispatch { pass: BakePass::Direct, sample_index: k as u32, progress: k as u32 })
    } else if direct <= k < bake_total(direct, indirect, bounces) {
        Some(
            BakeDispatch {
                pass: BakePass::Bounce(((k - direct) / (indirect as int)) as u32),
                sample_index: ((k - direct) % (indirect as int)) as u32,
                progress: k as u32,
            },
        )
    } else {
        None
    }
}

/// Where a bake is: its sample counts and the dispatches issued so far.
#[derive(Clone, Copy, Debug, PartialEq, Eq, Structural)]
pub struct BakeSchedule {
    pub direct_samples: u32,
    pub indirect_samples: u32,
    pub bounce_count: u32,
    pub issued: u32,
}

impl BakeSchedule {
    /// The dispatch count fits the counters.
    pub open spec fn wf(self) -> bool {
        &&& bake_total(self.direct_samples, self.indirect_samples, self.bounce_count) <= u32::MAX
        &&& self.issued <= bake_total(self.direct_samples, self.indirect_samples, self.bounce_count)
    }

    /// A bake about to make its first dispatch.
    pub fn new(direct_samples: u32, indirect_samples: u32, bounce_count: u32) -> (s: Self)
        requires
            bake_total(direct_samples, indirect_samples, bounce_count) <= u32::MAX,
        ensures
            s.wf(),
            s == (BakeSchedule { direct_samples, indirect_samples, bounce_count, issued: 0 }),
    {
        proof {
            assert(0 <= indirect_samples * bounce_count) by (nonlinear_arith);
        }
        BakeSchedule { direct_samples, indirect_samples, bounce_count, issued: 0 }
    }

    /// The progress total: one step per dispatch.
    pub fn total(&self) -> (t: u32)
        requires
            self.wf(),
        ensures
            t == bake_total(self.direct_samples, self.indirect_samples, self.bounce_count),
    {
        proof {
            assert(0 <= self.indirect_samples * self.bounce_count) by (nonlinear_arith);
        }
        self.direct_samples + self.indirect_samples * self.bounce_count
    }

    /// The next dispatch to make, counted as made, or `None` when the bake's
    /// samples are all dispatched.
    pub fn next_dispatch(&mut self) -> (r: Option<BakeDispatch>)
        requires
            old(self).wf(),
        ensures
            final(self).wf(),
            r == dispatch_at(
                old(self).direct_samples,
                old(self).indirect_samples,
                old(self).bounce_count,
                old(self).issued as int,
            ),
            *final(self) == (BakeSchedule {
                issued: (old(self).issued + if r is Some { 1int } else { 0int }) as u32,
                ..*old(self)
            }),
    {
        let total = self.total();
        let k = self.issued;
        if k >= total {
            return None;
        }
        let r = if k < self.direct_samples {
            BakeDispatch { pass: BakePass::Direct, sample_index: k, progress: k }
        } else {
            let j = k - self.direct_samples;
            proof {
                if self.indirect_samples == 0 {
                    assert(self.indirect_samples * self.bounce_count == 0) by (nonlinear_arith)
                        requires
                            self.indirect_samples == 0,
                    ;
                }
            }
            BakeDispatch {
                pass: BakePass::Bounce(j / self.indirect_samples),
                sample_index: j % self.indirect_samples,
                progress: k,
            }
        };
        self.issued = k + 1;
        Some(r)
    }
}

/// Every sample of every pass is dispatched once, in order: sample `s` of
/// the direct pass is dispatch `s`, and sample `s` of bounce `b` is dispatch
/// `direct + b * indirect + s`, after all earlier bounces; each is told the
/// progress equal to its position, and nothing follows the last.
pub proof fn lemma_bake_order(direct: u32, indirect: u32, bounces: u32, b: u32, s: u32)
    ensures
        s < direct ==> dispatch_at(direct, indirect, bounces, s as int) == Some(
            BakeDispatch { pass: BakePass::Direct, sample_index: s, progress: s },
        ),
        b < bounces && s < indirect && bake_total(direct, indirect, bounces) <= u32::MAX ==> dispatch_at(
            direct,
            indirect,
            bounces,
            direct + b * indirect + s,
        ) == Some(
            BakeDispatch {
                pass: BakePass::Bounce(b),
                sample_index: s,
                progress: (direct + b * indirect + s) as u32,
            },
        ),
        dispatch_at(direct, indirect, bounces, bake_total(direct, indirect, bounces)) is None,
{
    if b < bounces && s < indirect {
        let k = direct + b * indirect + s;
        assert(b * indirect + s < indirect * bounces) by (nonlinear_arith)
            requires
                b < bounces,
                s < indirect,
        ;
        assert(b * indirect == indirect * b) by (nonlinear_arith);
        vstd::arithmetic::div_mod::lemma_fundamental_div_mod_converse(k - direct, indirect as int, b as int, s as int);
    }
}

} // verus!
