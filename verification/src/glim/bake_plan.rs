//! Where each lightmap group lives in the compaction buffers, and how the
//! per-word pixel counts read back from the GPU become compacted offsets.
use vstd::prelude::*;
use crate::stilb::bindings::LightmapSettings;
use crate::glim::{LightmapInfo, LightmapMode};

verus! {

/// Texels of group `g`.
pub open spec fn group_pixels(g: LightmapSettings) -> int {
    g.width * g.height
}

/// Texels of the first `n` groups.
pub open spec fn pixel_sum(gs: Seq<LightmapSettings>, n: int) -> int
    decreases n,
{
    if n <= 0 {
        0
    } else {
        pixel_sum(gs, n - 1) + group_pixels(gs[n - 1])
    }
}

/// Compaction words of the first `n` groups, one word per whole 32 texels
/// of a group.
pub open spec fn word_sum(gs: Seq<LightmapSettings>, n: int) -> int
    decreases n,
{
    if n <= 0 {
        0
    } else {
        word_sum(gs, n - 1) + group_pixels(gs[n - 1]) / 32
    }
}

/// The widest group width among the first `n` groups, at least 1.
pub open spec fn max_width(gs: Seq<LightmapSettings>, n: int) -> int
    decreases n,
{
    if n <= 0 {
        1
    } else if gs[n - 1].width > max_width(gs, n - 1) {
        gs[n - 1].width as int
    } else {
        max_width(gs, n - 1)
    }
}

/// The tallest group height among the first `n` groups, at least 1.
pub open spec fn max_height(gs: Seq<LightmapSettings>, n: int) -> int
    decreases n,
{
    if n <= 0 {
        1
    } else if gs[n - 1].height > max_height(gs, n - 1) {
        gs[n - 1].height as int
    } else {
        max_height(gs, n - 1)
    }
}

proof fn lemma_sums_grow(gs: Seq<LightmapSettings>, i: int, n: int)
    requires
        0 <= i <= n,
    ensures
        pixel_sum(gs, i) <= pixel_sum(gs, n),
        word_sum(gs, i) <= word_sum(gs, n),
        0 <= word_sum(gs, i) <= pixel_sum(gs, i),
        32 * word_sum(gs, i) <= pixel_sum(gs, i),
    decreases n,
{
    if n > 0 {
        let p = group_pixels(gs[n - 1]);
        assert(p >= 0) by (nonlinear_arith)
            requires
                p == gs[n - 1].width * gs[n - 1].height,
        ;
        if i < n {
            lemma_sums_grow(gs, i, n - 1);
        }
        lemma_sums_grow(gs, n - 1, n - 1);
    }
}

/// The render targets and compaction layout of a set of lightmap groups.
pub struct GroupLayout {
    /// Widest group width (at least 1).
    pub max_width: u32,
    /// Tallest group height (at least 1).
    pub max_height: u32,
    /// Texels of all groups.
    pub total_pixels: u32,
    /// First compaction word of each group.
    pub starts: Vec<u32>,
}

/// Lays the groups out one after another in the compaction buffers.
pub fn plan_groups(groups: &[LightmapSettings]) -> (layout: GroupLayout)
    requires
        pixel_sum(groups@, groups@.len() as int) <= u32::MAX,
    ensures
        layout.max_width == max_width(groups@, groups@.len() as int),
        layout.max_height == max_height(groups@, groups@.len() as int),
        layout.total_pixels == pixel_sum(groups@, groups@.len() as int),
        layout.starts@.len() == groups@.len(),
        forall|g: int| 0 <= g < groups@.len() ==> #[trigger] layout.starts@[g] == word_sum(groups@, g),
{
    let mut max_w: u32 = 1;
    let mut max_h: u32 = 1;
    let mut total: u32 = 0;
    let mut offset: u32 = 0;
    let mut starts: Vec<u32> = Vec::new();
    let mut g: usize = 0;
    while g < groups.len()
        invariant
            g <= groups.len(),
            pixel_sum(groups@, groups@.len() as int) <= u32::MAX,
            max_w == max_width(groups@, g as int),
            max_h == max_height(groups@, g as int),
            total == pixel_sum(groups@, g as int),
            offset == word_sum(groups@, g as int),
            starts@.len() == g,
            forall|k: int| 0 <= k < g ==> #[trigger] starts@[k] == word_sum(groups@, k),
        decreases groups.len() - g,
    {
        let s = groups[g];
        proof {
            lemma_sums_grow(groups@, g as int + 1, groups@.len() as int);
            lemma_sums_grow(groups@, g as int + 1, g as int + 1);
            assert(s.width * s.height <= u32::MAX) by (nonlinear_arith)
                requires
                    pixel_sum(groups@, g as int + 1) == pixel_sum(groups@, g as int) + s.width * s.height,
                    pixel_sum(groups@, g as int) >= 0,
                    pixel_sum(groups@, g as int + 1) <= u32::MAX,
            ;
        }
        if s.width > max_w {
            max_w = s.width;
        }
        if s.height > max_h {
            max_h = s.height;
        }
        let pixels = s.width * s.height;
        starts.push(offset);
        total = total + pixels;
        offset = offset + pixels / 32;
        g = g + 1;
    }
    GroupLayout { max_width: max_w, max_height: max_h, total_pixels: total, starts }
}

/// Sum of the pixel counts held in the odd slots of the first `k`
/// compaction words (each word is a mask slot followed by a count slot).
pub open spec fn count_prefix(buffer: Seq<u32>, k: int) -> int
    decreases k,
{
    if k <= 0 {
        0
    } else {
        count_prefix(buffer, k - 1) + buffer[2 * (k - 1) + 1]
    }
}

/// The running count never decreases.
proof fn lemma_count_prefix_grows(buffer: Seq<u32>, j: int, k: int)
    requires
        0 <= j <= k,
    ensures
        0 <= count_prefix(buffer, j) <= count_prefix(buffer, k),
    decreases k,
{
    if k > j {
        lemma_count_prefix_grows(buffer, j, k - 1);
    } else if j > 0 {
        lemma_count_prefix_grows(buffer, j - 1, j - 1);
    }
}

/// Replaces the pixel count of every compaction word of every group by the
/// number of pixels counted before it, and returns the number of pixels
/// counted in all of them.
pub fn prefix_compaction_counts(
    buffer: &mut Vec<u32>,
    groups: &[LightmapSettings],
    starts: &[u32],
) -> (total: u32)
    requires
        pixel_sum(groups@, groups@.len() as int) <= u32::MAX,
        starts@.len() == groups@.len(),
        forall|g: int| 0 <= g < groups@.len() ==> #[trigger] starts@[g] == word_sum(groups@, g),
        old(buffer)@.len() >= 2 * word_sum(groups@, groups@.len() as int),
        count_prefix(old(buffer)@, word_sum(groups@, groups@.len() as int)) <= u32::MAX,
    ensures
        final(buffer)@.len() == old(buffer)@.len(),
        total == count_prefix(old(buffer)@, word_sum(groups@, groups@.len() as int)),
        forall|j: int|
            0 <= j < word_sum(groups@, groups@.len() as int) ==> #[trigger] final(buffer)@[2 * j + 1]
                == count_prefix(old(buffer)@, j),
        forall|i: int|
            0 <= i < old(buffer)@.len() && !(i % 2 == 1 && i < 2 * word_sum(groups@, groups@.len() as int))
                ==> #[trigger] final(buffer)@[i] == old(buffer)@[i],
{
    let ghost orig = buffer@;
    let ghost words = word_sum(groups@, groups@.len() as int);
    let mut count: u32 = 0;
    let mut g: usize = 0;
    proof {
        lemma_sums_grow(groups@, 0, groups@.len() as int);
        lemma_sums_grow(groups@, groups@.len() as int, groups@.len() as int);
    }
    while g < groups.len()
        invariant
            g <= groups.len(),
            words <= pixel_sum(groups@, groups@.len() as int),
            32 * words <= pixel_sum(groups@, groups@.len() as int),
            pixel_sum(groups@, groups@.len() as int) <= u32::MAX,
            starts@.len() == groups@.len(),
            forall|h: int| 0 <= h < groups@.len() ==> #[trigger] starts@[h] == word_sum(groups@, h),
            words == word_sum(groups@, groups@.len() as int),
            buffer@.len() == orig.len(),
            orig.len() >= 2 * words,
            count_prefix(orig, words) <= u32::MAX,
            count == count_prefix(orig, word_sum(groups@, g as int)),
            forall|j: int| 0 <= j < word_sum(groups@, g as int) ==> #[trigger] buffer@[2 * j + 1] == count_prefix(orig, j),
            forall|i: int|
                0 <= i < orig.len() && !(i % 2 == 1 && i < 2 * word_sum(groups@, g as int)) ==> #[trigger] buffer@[i] == orig[i],
        decreases groups.len() - g,
    {
        let s = groups[g];
        proof {
            lemma_sums_grow(groups@, g as int + 1, groups@.len() as int);
            lemma_sums_grow(groups@, g as int, g as int + 1);
            assert(s.width * s.height <= u32::MAX) by (nonlinear_arith)
                requires
                    pixel_sum(groups@, g as int + 1) == pixel_sum(groups@, g as int) + s.width * s.height,
                    pixel_sum(groups@, g as int) >= 0,
                    pixel_sum(groups@, g as int + 1) <= u32::MAX,
            ;
        }
        let group_start = starts[g];
        let pixel_count = s.width * s.height;
        let ghost base = word_sum(groups@, g as int);
        let mut i: u32 = 0;
        while i < pixel_count / 32
            invariant
                g < groups.len(),
                base == word_sum(groups@, g as int),
                group_start == base,
                pixel_count / 32 == word_sum(groups@, g as int + 1) - base,
                word_sum(groups@, g as int + 1) <= words,
                words <= pixel_sum(groups@, groups@.len() as int),
                32 * words <= pixel_sum(groups@, groups@.len() as int),
                pixel_sum(groups@, groups@.len() as int) <= u32::MAX,
                0 <= base,
                i <= pixel_count / 32,
                buffer@.len() == orig.len(),
                orig.len() >= 2 * words,
                count_prefix(orig, words) <= u32::MAX,
                count == count_prefix(orig, base + i),
                forall|j: int| 0 <= j < base + i ==> #[trigger] buffer@[2 * j + 1] == count_prefix(orig, j),
                forall|k: int|
                    0 <= k < orig.len() && !(k % 2 == 1 && k < 2 * (base + i)) ==> #[trigger] buffer@[k] == orig[k],
            decreases pixel_count / 32 - i,
        {
            let ghost w = base + i;
            proof {
                lemma_count_prefix_grows(orig, w + 1, words);
                assert(buffer@[2 * w + 1] == orig[2 * w + 1]);
                assert(w < words);
                assert(buffer.len() == orig.len());
            }
            let idx: usize = (group_start as usize + i as usize) * 2 + 1;
            let bits = buffer[idx];
            buffer.set(idx, count);
            count = count + bits;
            i = i + 1;
            proof {
                assert forall|k: int|
                    0 <= k < orig.len() && !(k % 2 == 1 && k < 2 * (base + i)) implies #[trigger] buffer@[k] == orig[k] by {
                    if k != 2 * w + 1 {
                        assert(!(k % 2 == 1 && k < 2 * w));
                    }
                }
            }
        }
        g = g + 1;
    }
    count
}

/// Floats stored per compacted texel: RGB colour, plus a direction and its
/// weight in directional mode, plus six more when bounces are baked.
pub fn lightmap_channels(mode: LightmapMode, bounce_count: u32) -> (r: usize)
    ensures
        r == (match mode {
            LightmapMode::NonDirectional => 3usize,
            LightmapMode::Directional => 6usize,
        }) + (if bounce_count > 0 { 6usize } else { 0usize }),
{
    let mut channels: usize = match mode {
        LightmapMode::NonDirectional => 3,
        LightmapMode::Directional => 6,
    };
    if bounce_count > 0 {
        channels = channels + 6;
    }
    channels
}

/// Workgroups of `local` invocations needed to cover `n` items.
pub fn dispatch_size(n: u32, local: u32) -> (r: u32)
    requires
        local > 0,
        n + local - 1 <= u32::MAX,
    ensures
        r == (n + local - 1) / (local as int),
        r * local >= n,
        n > 0 ==> (r - 1) * local < n,
{
    let r = (n + (local - 1)) / local;
    proof {
        vstd::arithmetic::div_mod::lemma_fundamental_div_mod((n + local - 1) as int, local as int);
        assert(r * local >= n && (n > 0 ==> (r - 1) * local < n)) by (nonlinear_arith)
            requires
                (n + local - 1) == local * r + (n + local - 1) % (local as int),
                0 <= (n + local - 1) % (local as int) < local,
                local > 0,
        ;
    }
    r
}

/// The record the shaders read for each group.
pub fn lightmap_infos(groups: &[LightmapSettings], starts: &[u32]) -> (infos: Vec<LightmapInfo>)
    requires
        starts@.len() == groups@.len(),
    ensures
        infos@.len() == groups@.len(),
        forall|g: int|
            0 <= g < groups@.len() ==> #[trigger] infos@[g] == (LightmapInfo {
                resolution: [groups@[g].width, groups@[g].height],
                compaction_offset: starts@[g],
                pad: 0,
            }),
{
    let mut infos: Vec<LightmapInfo> = Vec::with_capacity(groups.len());
    let mut g: usize = 0;
    while g < groups.len()
        invariant
            g <= groups.len(),
            starts@.len() == groups@.len(),
            infos@.len() == g,
            forall|k: int|
                0 <= k < g ==> #[trigger] infos@[k] == (LightmapInfo {
                    resolution: [groups@[k].width, groups@[k].height],
                    compaction_offset: starts@[k],
                    pad: 0,
                }),
        decreases groups.len() - g,
    {
        infos.push(LightmapInfo { resolution: [groups[g].width, groups[g].height], compaction_offset: starts[g], pad: 0 });
        g = g + 1;
    }
    infos
}

} // verus!
