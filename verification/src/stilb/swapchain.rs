//! How the preview window's swapchain is configured from what the surface
//! supports. Vulkan enumerations are held by their raw values.
use vstd::prelude::*;

verus! {

/// Raw value of `VK_FORMAT_B8G8R8A8_SRGB`.
pub const FORMAT_B8G8R8A8_SRGB: i32 = 50;

/// Raw value of `VK_COLOR_SPACE_SRGB_NONLINEAR_KHR`.
pub const COLOR_SPACE_SRGB_NONLINEAR: i32 = 0;

/// Raw value of `VK_PRESENT_MODE_MAILBOX_KHR`.
pub const PRESENT_MODE_MAILBOX: i32 = 1;

/// A surface format: pixel format and colour space, by raw value.
#[derive(Clone, Copy, Debug, PartialEq, Eq, Structural)]
pub struct SurfaceFormat {
    pub format: i32,
    pub color_space: i32,
}

/// The format the preview wants: 8-bit BGRA in sRGB.
pub open spec fn preferred_format(f: SurfaceFormat) -> bool {
    f.format == FORMAT_B8G8R8A8_SRGB && f.color_space == COLOR_SPACE_SRGB_NONLINEAR
}

/// The first supported format that is 8-bit BGRA in sRGB, or the first
/// supported format when there is none.
pub fn select_surface_format(formats: &[SurfaceFormat]) -> (r: SurfaceFormat)
    requires
        formats@.len() > 0,
    ensures
        (exists|i: int| 0 <= i < formats@.len() && preferred_format(#[trigger] formats@[i])) ==> {
            &&& preferred_format(r)
            &&& exists|i: int|
                0 <= i < formats@.len() && formats@[i] == r && forall|j: int|
                    0 <= j < i ==> !preferred_format(#[trigger] formats@[j])
        },
        (forall|i: int| 0 <= i < formats@.len() ==> !preferred_format(#[trigger] formats@[i])) ==> r
            == formats@[0],
{
    let mut i: usize = 0;
    while i < formats.len()
        invariant
            i <= formats@.len(),
            forall|j: int| 0 <= j < i ==> !preferred_format(#[trigger] formats@[j]),
        decreases formats@.len() - i,
    {
        let f = formats[i];
        if f.format == FORMAT_B8G8R8A8_SRGB && f.color_space == COLOR_SPACE_SRGB_NONLINEAR {
            return f;
        }
        i = i + 1;
    }
    formats[0]
}

/// Mailbox presentation when the surface offers it, else the first mode
/// offered.
pub fn select_present_mode(modes: &[i32]) -> (r: i32)
    requires
        modes@.len() > 0,
    ensures
        r == if modes@.contains(PRESENT_MODE_MAILBOX) { PRESENT_MODE_MAILBOX } else { modes@[0] },
{
    let mut i: usize = 0;
    while i < modes.len()
        invariant
            i <= modes@.len(),
            forall|j: int| 0 <= j < i ==> modes@[j] != PRESENT_MODE_MAILBOX,
        decreases modes@.len() - i,
    {
        if modes[i] == PRESENT_MODE_MAILBOX {
            return PRESENT_MODE_MAILBOX;
        }
        i = i + 1;
    }
    modes[0]
}

/// `v` clamped into `[lo, hi]`.
pub open spec fn clamp_spec(v: u32, lo: u32, hi: u32) -> u32 {
    if v < lo { lo } else if v > hi { hi } else { v }
}

fn clamp_u32(v: u32, lo: u32, hi: u32) -> (r: u32)
    requires
        lo <= hi,
    ensures
        r == clamp_spec(v, lo, hi),
{
    if v < lo {
        lo
    } else if v > hi {
        hi
    } else {
        v
    }
}

/// The swapchain's size: the surface's current size, unless the surface
/// leaves it open (width `u32::MAX`), in which case the requested size is
/// clamped into the supported range.
pub fn swapchain_extent(
    current: (u32, u32),
    min_extent: (u32, u32),
    max_extent: (u32, u32),
    requested: (u32, u32),
) -> (r: (u32, u32))
    requires
        current.0 == u32::MAX ==> min_extent.0 <= max_extent.0 && min_extent.1 <= max_extent.1,
    ensures
        r == if current.0 != u32::MAX {
            current
        } else {
            (
                clamp_spec(requested.0, min_extent.0, max_extent.0),
                clamp_spec(requested.1, min_extent.1, max_extent.1),
            )
        },
{
    if current.0 != u32::MAX {
        current
    } else {
        (clamp_u32(requested.0, min_extent.0, max_extent.0), clamp_u32(requested.1, min_extent.1, max_extent.1))
    }
}

/// Triple buffering, within the image counts the surface allows.
pub fn swapchain_image_count(min_image_count: u32, max_image_count: u32) -> (r: u32)
    requires
        min_image_count <= max_image_count,
    ensures
        r == clamp_spec(3, min_image_count, max_image_count),
{
    clamp_u32(3, min_image_count, max_image_count)
}

/// Whether the swapchain images are shared between two queue families:
/// exactly when graphics and presentation use different ones.
pub fn concurrent_sharing(graphics: u32, present: u32) -> (r: bool)
    ensures
        r == (graphics != present),
{
    graphics != present
}

/// The swapchain frame drawn after frame `frame_index`: the frames are used
/// in turn, the last one followed by the first.
pub fn next_frame_index(frame_index: usize, frame_count: usize) -> (r: usize)
    requires
        frame_count > 0,
        frame_index < usize::MAX,
    ensures
        r == (frame_index + 1) % (frame_count as int),
        r < frame_count,
{
    (frame_index + 1) % frame_count
}

/// The frame drawn `k` frames after frame `i` of `n`.
pub open spec fn frame_after(i: int, n: int, k: nat) -> int
    decreases k,
{
    if k == 0 {
        i
    } else {
        (frame_after(i, n, (k - 1) as nat) + 1) % n
    }
}

/// `k` frames after frame `i` comes frame `(i + k) mod n`: every frame is
/// used once in any `n` consecutive frames, and after `n` frames the
/// rotation is back where it started.
pub proof fn lemma_frame_rotation(i: int, n: int, k: nat)
    requires
        0 <= i < n,
    ensures
        frame_after(i, n, k) == (i + k) % n,
        frame_after(i, n, n as nat) == i,
{
    lemma_frame_offset(i, n, k);
    lemma_frame_after_n(i, n);
}

proof fn lemma_frame_after_n(i: int, n: int)
    requires
        0 <= i < n,
    ensures
        frame_after(i, n, n as nat) == i,
{
    lemma_frame_offset(i, n, n as nat);
    vstd::arithmetic::div_mod::lemma_fundamental_div_mod_converse(i + n, n, 1, i);
}

proof fn lemma_frame_offset(i: int, n: int, k: nat)
    requires
        0 <= i < n,
    ensures
        frame_after(i, n, k) == (i + k) % n,
    decreases k,
{
    if k > 0 {
        lemma_frame_offset(i, n, (k - 1) as nat);
        vstd::arithmetic::div_mod::lemma_add_mod_noop(i + k - 1, 1, n);
        if n == 1 {
            vstd::arithmetic::div_mod::lemma_mod_self_0(1);
        } else {
            vstd::arithmetic::div_mod::lemma_small_mod(1, n as nat);
        }
    } else {
        vstd::arithmetic::div_mod::lemma_small_mod(i as nat, n as nat);
    }
}

} // verus!
