//! Bit-packed coverage bitmaps and the greedy placement of UV charts into a
//! lightmap atlas.
use vstd::prelude::*;
use crate::bits::{bit, lemma_bit_and, lemma_bit_or, lemma_bit_shl, lemma_bit_shr, lemma_bit_one, lemma_bit_zero, lemma_nonzero_iff_bit, lemma_bit_test};
use vstd::arithmetic::div_mod::lemma_fundamental_div_mod_converse;

verus! {

/// Bit `f` of a sequence of words read as one long bit string
/// (bit `f % 64` of word `f / 64`); false past the end.
pub open spec fn flat_bit(ws: Seq<u64>, f: int) -> bool {
    0 <= f < 64 * ws.len() && bit(ws[f / 64], f % 64)
}

proof fn lemma_flat_index(ws: Seq<u64>, k: int, b: int)
    requires
        0 <= b < 64,
        0 <= k,
    ensures
        flat_bit(ws, 64 * k + b) == (k < ws.len() && bit(ws[k], b)),
{
    lemma_fundamental_div_mod_converse(64 * k + b, 64, k, b);
}


proof fn lemma_flat_update(ws: Seq<u64>, k: int, v: u64, f: int)
    requires
        0 <= k < ws.len(),
    ensures
        flat_bit(ws.update(k, v), f) == if 0 <= f && f / 64 == k {
            bit(v, f % 64)
        } else {
            flat_bit(ws, f)
        },
{
}

/// `y * (64 * stride) + x` splits into word `y * stride + x / 64` and bit `x % 64`.
proof fn lemma_row_index(stride: int, y: int, x: int)
    requires
        0 <= stride,
        0 <= y,
        0 <= x,
    ensures
        y * (64 * stride) + x == 64 * (y * stride + x / 64) + x % 64,
        0 <= x % 64 < 64,
{
    assert(y * (64 * stride) == 64 * (y * stride)) by (nonlinear_arith);
}

/// Column `x` of a `width`-wide row lies in one of its `ceil(width / 64)` words.
proof fn lemma_col_word(x: int, width: int)
    requires
        0 <= x < width,
    ensures
        x / 64 < (width + 63) / 64,
        0 <= x / 64,
{
    assert(x / 64 < (width + 63) / 64) by (nonlinear_arith)
        requires
            0 <= x < width,
    ;
}

/// Row `y` of a `stride`-word-wide grid of `h` rows ends inside the grid.
proof fn lemma_row_fits(stride: int, y: int, h: int)
    requires
        0 <= stride,
        0 <= y < h,
    ensures
        y * stride + stride <= h * stride,
        y * stride + stride <= stride * h,
        0 <= y * stride,
{
    assert(h * stride == stride * h) by (nonlinear_arith);
    assert(y * stride + stride <= h * stride) by (nonlinear_arith)
        requires
            0 <= stride,
            0 <= y < h,
    ;
    assert(0 <= y * stride) by (nonlinear_arith)
        requires
            0 <= stride,
            0 <= y,
    ;
}

/// Where chart bit `b` of word `cw` of chart row `cy` comes from, and where it
/// lands in `s` when the chart's origin is at `(ox, oy)`.
proof fn lemma_word_lands(
    s: BitmapModel,
    o: BitmapModel,
    ox: int,
    oy: int,
    cy: int,
    cw: int,
    b: int,
    trow: int,
)
    requires
        s.wf(),
        o.wf(),
        0 <= ox,
        0 <= oy,
        0 <= cy < o.height,
        oy + cy < s.height,
        0 <= cw < o.row_words,
        0 <= b < 64,
        trow == (oy + cy) * s.row_words,
    ensures
        0 <= cy * o.row_words,
        cy * o.row_words + o.row_words <= o.words.len(),
        0 <= trow,
        trow + s.row_words <= s.words.len(),
        o.flat(cy * o.row_bits() + 64 * cw + b) == bit(o.words[cy * o.row_words + cw], b),
        s.lands(ox, oy, cy, 64 * cw + b) == 64 * (trow + ox / 64 + cw) + ox % 64 + b,
        ox % 64 + b < 64 ==> s.flat(s.lands(ox, oy, cy, 64 * cw + b)) == (trow + ox / 64 + cw
            < s.words.len() && bit(s.words[trow + ox / 64 + cw], ox % 64 + b)),
        ox % 64 + b >= 64 ==> s.flat(s.lands(ox, oy, cy, 64 * cw + b)) == (trow + ox / 64 + cw
            + 1 < s.words.len() && bit(s.words[trow + ox / 64 + cw + 1], ox % 64 + b - 64)),
{
    lemma_row_fits(o.row_words as int, cy, o.height as int);
    lemma_row_fits(s.row_words as int, oy + cy, s.height as int);
    lemma_row_index(o.row_words as int, cy, 64 * cw + b);
    lemma_fundamental_div_mod_converse(64 * cw + b, 64, cw, b);
    lemma_flat_index(o.words, cy * o.row_words + cw, b);
    assert((oy + cy) * (64 * (s.row_words as int)) == 64 * ((oy + cy) * s.row_words)) by (nonlinear_arith);
    assert(ox == 64 * (ox / 64) + ox % 64);
    let tw = trow + ox / 64 + cw;
    if ox % 64 + b < 64 {
        lemma_flat_index(s.words, tw, ox % 64 + b);
    } else {
        lemma_flat_index(s.words, tw + 1, ox % 64 + b - 64);
    }
}

/// The storage bits that the chart word `cw` of row `cy` stamps, read off
/// the two target words it straddles.
proof fn lemma_stamp_word(
    s: BitmapModel,
    o: BitmapModel,
    ox: int,
    oy: int,
    cy: int,
    cw: int,
    trow: int,
    f: int,
)
    requires
        s.wf(),
        o.wf(),
        0 <= ox,
        0 <= oy,
        0 <= cy < o.height,
        oy + cy < s.height,
        0 <= cw < o.row_words,
        trow == (oy + cy) * s.row_words,
    ensures
        (exists|b: int| 0 <= b < 64 && #[trigger] s.stamp(o, ox, oy, cy, 64 * cw + b, f)) == ({
            let word = o.words[cy * o.row_words + cw];
            let tw = trow + ox / 64 + cw;
            let sh = ox % 64;
            ||| (0 <= f && f / 64 == tw && tw < s.words.len() && f % 64 >= sh && bit(word, f % 64 - sh))
            ||| (0 <= f && f / 64 == tw + 1 && tw + 1 < s.words.len() && f % 64 < sh && bit(
                word,
                f % 64 + 64 - sh,
            ))
        }),
{
    let word = o.words[cy * o.row_words + cw];
    let tw = trow + ox / 64 + cw;
    let sh = ox % 64;
    if exists|b: int| 0 <= b < 64 && #[trigger] s.stamp(o, ox, oy, cy, 64 * cw + b, f) {
        let b = choose|b: int| 0 <= b < 64 && #[trigger] s.stamp(o, ox, oy, cy, 64 * cw + b, f);
        lemma_word_lands(s, o, ox, oy, cy, cw, b, trow);
        if sh + b < 64 {
            lemma_fundamental_div_mod_converse(f, 64, tw, sh + b);
        } else {
            lemma_fundamental_div_mod_converse(f, 64, tw + 1, sh + b - 64);
        }
    }
    if 0 <= f && f / 64 == tw && tw < s.words.len() && f % 64 >= sh && bit(word, f % 64 - sh) {
        let b = f % 64 - sh;
        lemma_word_lands(s, o, ox, oy, cy, cw, b, trow);
        assert(f == 64 * (f / 64) + f % 64);
        assert(s.stamp(o, ox, oy, cy, 64 * cw + b, f));
    }
    if 0 <= f && f / 64 == tw + 1 && tw + 1 < s.words.len() && f % 64 < sh && bit(word, f % 64 + 64 - sh) {
        let b = f % 64 + 64 - sh;
        lemma_word_lands(s, o, ox, oy, cy, cw, b, trow);
        assert(f == 64 * (f / 64) + f % 64);
        assert(s.stamp(o, ox, oy, cy, 64 * cw + b, f));
    }
}

/// Within a row of `w` bits, `y * w + x` names row `y` and column `x`.
proof fn lemma_row_unique(w: int, y1: int, x1: int, y2: int, x2: int)
    requires
        0 < w,
        0 <= x1 < w,
        0 <= x2 < w,
        y1 * w + x1 == y2 * w + x2,
    ensures
        y1 == y2,
        x1 == x2,
{
    lemma_fundamental_div_mod_converse(y1 * w + x1, w, y1, x1);
    lemma_fundamental_div_mod_converse(y2 * w + x2, w, y2, x2);
}

/// Placing a clean chart so that it fits across the atlas, `overlaps` reports
/// exactly whether some set pixel of the chart covers a set pixel of the atlas.
pub proof fn lemma_overlaps_pixels(atlas: BitmapModel, chart: BitmapModel, ox: int, oy: int)
    requires
        atlas.wf(),
        chart.wf(),
        chart.clean(),
        0 <= ox,
        0 <= oy,
        ox + chart.width <= atlas.width,
    ensures
        atlas.overlaps_at(chart, ox, oy) == (exists|cx: int, cy: int|
            #[trigger] chart.pixel(cx, cy) && atlas.pixel(ox + cx, oy + cy)),
{
    if atlas.overlaps_at(chart, ox, oy) {
        let (cy, cx) = choose|cy: int, cx: int| #[trigger] atlas.hit(chart, ox, oy, cy, cx);
        if cx >= chart.width {
            assert(chart.flat(cy * chart.row_bits() + cx));
        }
        assert(chart.pixel(cx, cy));
        assert((oy + cy) * atlas.row_bits() + (ox + cx) == atlas.lands(ox, oy, cy, cx));
        assert(atlas.pixel(ox + cx, oy + cy));
    }
    if exists|cx: int, cy: int| #[trigger] chart.pixel(cx, cy) && atlas.pixel(ox + cx, oy + cy) {
        let (cx, cy) = choose|cx: int, cy: int| #[trigger] chart.pixel(cx, cy) && atlas.pixel(ox + cx, oy + cy);
        assert((oy + cy) * atlas.row_bits() + (ox + cx) == atlas.lands(ox, oy, cy, cx));
        assert(atlas.hit(chart, ox, oy, cy, cx));
    }
}

/// Painting a clean chart that fits across the atlas sets exactly the atlas
/// pixels that a set chart pixel covers, and keeps the atlas clean.
pub proof fn lemma_paint_pixels(before: BitmapModel, after: BitmapModel, chart: BitmapModel, ox: int, oy: int)
    requires
        before.wf(),
        chart.wf(),
        chart.clean(),
        0 <= ox,
        0 <= oy,
        ox + chart.width <= before.width,
        after.width == before.width,
        after.height == before.height,
        after.row_words == before.row_words,
        after.words.len() == before.words.len(),
        forall|f: int| #[trigger] after.flat(f) == (before.flat(f) || before.stamped(chart, ox, oy, f)),
    ensures
        after.wf(),
        forall|x: int, y: int|
            #[trigger] after.pixel(x, y) == (before.pixel(x, y) || (0 <= x < before.width && 0 <= y
                < before.height && chart.pixel(x - ox, y - oy))),
        before.clean() ==> after.clean(),
{
    let w = before.row_bits();
    assert forall|x: int, y: int|
        #[trigger] after.pixel(x, y) == (before.pixel(x, y) || (0 <= x < before.width && 0 <= y
            < before.height && chart.pixel(x - ox, y - oy))) by {
        if 0 <= x < before.width && 0 <= y < before.height {
            let f = y * w + x;
            assert(after.flat(f) == (before.flat(f) || before.stamped(chart, ox, oy, f)));
            if before.stamped(chart, ox, oy, f) {
                let (cy, cx) = choose|cy: int, cx: int| #[trigger] before.stamp(chart, ox, oy, cy, cx, f);
                if cx >= chart.width {
                    assert(chart.flat(cy * chart.row_bits() + cx));
                }
                lemma_row_unique(w, y, x, oy + cy, ox + cx);
                assert(chart.pixel(x - ox, y - oy));
            }
            if chart.pixel(x - ox, y - oy) {
                lemma_row_fits(before.row_words as int, y, before.height as int);
                assert(0 <= f < 64 * before.words.len()) by (nonlinear_arith)
                    requires
                        f == y * w + x,
                        w == 64 * (before.row_words as int),
                        y * (before.row_words as int) + (before.row_words as int) <= (before.height as int) * (before.row_words as int),
                        before.words.len() == before.row_words * before.height,
                        0 <= x < w,
                        0 <= y,
                ;
                assert(before.stamp(chart, ox, oy, y - oy, x - ox, f));
            }
        }
    }
    if before.clean() {
        assert forall|y: int, c: int|
            0 <= y < after.height && after.width <= c < after.row_bits() implies !#[trigger] after.flat(
            y * after.row_bits() + c,
        ) by {
            let f = y * w + c;
            assert(!before.flat(f));
            if before.stamped(chart, ox, oy, f) {
                let (cy, cx) = choose|cy: int, cx: int| #[trigger] before.stamp(chart, ox, oy, cy, cx, f);
                if cx >= chart.width {
                    assert(chart.flat(cy * chart.row_bits() + cx));
                }
                lemma_row_unique(w, y, c, oy + cy, ox + cx);
            }
        }
    }
}

/// Position `(x, y)` comes at or after `(x0, y0)` in row-major scan order.
pub open spec fn at_or_after(x: int, y: int, x0: int, y0: int) -> bool {
    y > y0 || (y == y0 && x >= x0)
}

/// The chart placed with its origin at `(x, y)` lies inside the atlas.
pub open spec fn fits(atlas: BitmapModel, chart: BitmapModel, x: int, y: int) -> bool {
    0 <= x && 0 <= y && x + chart.width <= atlas.width && y + chart.height <= atlas.height
}

/// The chart fits at `(x, y)` and covers no set atlas pixel there.
pub open spec fn free_at(atlas: BitmapModel, chart: BitmapModel, x: int, y: int) -> bool {
    fits(atlas, chart, x, y) && !atlas.overlaps_at(chart, x, y)
}

/// Where a scan that is asked to start at `(sx, sy)` really starts: a start
/// column past the last usable one moves to the start of the next row.
pub open spec fn scan_start(atlas: BitmapModel, chart: BitmapModel, sx: int, sy: int) -> (int, int) {
    if sx + chart.width > atlas.width {
        (0, sy + 1)
    } else {
        (sx, sy)
    }
}

/// A chart with at least one row and one column; only these are placed.
pub open spec fn nonempty(c: BitmapModel) -> bool {
    c.width > 0 && c.height > 0
}

/// A chart placed with its origin at `p` covers atlas pixel `(x, y)`.
pub open spec fn covers(c: BitmapModel, p: (u32, u32), x: int, y: int) -> bool {
    nonempty(c) && c.pixel(x - p.0, y - p.1)
}

/// One of the first `n` charts covers atlas pixel `(x, y)`.
pub open spec fn covered(cs: Seq<Bitmap>, ps: Seq<(u32, u32)>, n: int, x: int, y: int) -> bool {
    exists|i: int| 0 <= i < n && #[trigger] covers(cs[i]@, ps[i], x, y)
}

/// Chart `k` placed at `(x, y)` would cover an atlas pixel that one of the
/// first `k` charts already covers.
pub open spec fn blocked(cs: Seq<Bitmap>, ps: Seq<(u32, u32)>, k: int, x: int, y: int) -> bool {
    exists|cx: int, cy: int| #[trigger] cs[k]@.pixel(cx, cy) && covered(cs, ps, k, x + cx, y + cy)
}

/// The first `n` placements put every non-empty chart inside a
/// `width` x `height` atlas, put every empty chart at the origin, and no two
/// charts cover the same atlas pixel.
pub open spec fn valid_packing(cs: Seq<Bitmap>, ps: Seq<(u32, u32)>, n: int, width: int, height: int) -> bool {
    &&& forall|i: int|
        0 <= i < n && nonempty(#[trigger] cs[i]@) ==> ps[i].0 + cs[i]@.width <= width && ps[i].1
            + cs[i]@.height <= height
    &&& forall|i: int| 0 <= i < n && !nonempty(#[trigger] cs[i]@) ==> ps[i] == (0u32, 0u32)
    &&& forall|i: int, j: int, x: int, y: int|
        0 <= i < j < n && #[trigger] covers(cs[i]@, ps[i], x, y) ==> !#[trigger] covers(
            cs[j]@,
            ps[j],
            x,
            y,
        )
}

/// Chart `c` placed with its origin at `(x, y)` lies inside a
/// `width` x `height` atlas.
pub open spec fn placeable(c: BitmapModel, x: int, y: int, width: int, height: int) -> bool {
    0 <= x && 0 <= y && x + c.width <= width && y + c.height <= height
}

/// `(x, y)` is the first position at or after `(x0, y0)`, in row-major scan
/// order, at which chart `k` lies inside the atlas without covering a pixel
/// of the first `k` charts.
pub open spec fn first_free(
    cs: Seq<Bitmap>,
    ps: Seq<(u32, u32)>,
    k: int,
    x: int,
    y: int,
    x0: int,
    y0: int,
    width: int,
    height: int,
) -> bool {
    &&& placeable(cs[k]@, x, y, width, height)
    &&& !blocked(cs, ps, k, x, y)
    &&& at_or_after(x, y, x0, y0)
    &&& forall|x2: int, y2: int|
        placeable(cs[k]@, x2, y2, width, height) && at_or_after(x2, y2, x0, y0) && !at_or_after(
            x2,
            y2,
            x,
            y,
        ) ==> #[trigger] blocked(cs, ps, k, x2, y2)
}

/// No position at or after `(x0, y0)` takes chart `k` without covering a
/// pixel of the first `k` charts.
pub open spec fn none_free(cs: Seq<Bitmap>, ps: Seq<(u32, u32)>, k: int, x0: int, y0: int, width: int, height: int) -> bool {
    forall|x2: int, y2: int|
        placeable(cs[k]@, x2, y2, width, height) && at_or_after(x2, y2, x0, y0) ==> #[trigger] blocked(
            cs,
            ps,
            k,
            x2,
            y2,
        )
}

/// Where the scan for chart `k` starts when the charts are packed with a
/// cursor: just right of the last non-empty chart placed before it, or at the
/// start of the next row when that chart ends at the atlas's right edge.
pub open spec fn cursor_before(cs: Seq<Bitmap>, ps: Seq<(u32, u32)>, k: int, width: int) -> (int, int)
    decreases k,
{
    if k <= 0 {
        (0, 0)
    } else if !nonempty(cs[k - 1]@) {
        cursor_before(cs, ps, k - 1, width)
    } else if ps[k - 1].0 + cs[k - 1]@.width >= width {
        (0, ps[k - 1].1 + 1)
    } else {
        (ps[k - 1].0 + cs[k - 1]@.width, ps[k - 1].1 as int)
    }
}

/// Chart `k` sits where the greedy packer puts it: at the first free
/// position from the origin when `brute_force` is set; otherwise at the first
/// free position from the cursor, or, when there is none, the first free
/// position from the origin.
pub open spec fn greedy_choice(cs: Seq<Bitmap>, ps: Seq<(u32, u32)>, k: int, width: int, height: int, brute_force: bool) -> bool {
    let (x, y) = (ps[k].0 as int, ps[k].1 as int);
    if brute_force {
        first_free(cs, ps, k, x, y, 0, 0, width, height)
    } else {
        let (cx, cy) = cursor_before(cs, ps, k, width);
        ||| first_free(cs, ps, k, x, y, cx, cy, width, height)
        ||| (none_free(cs, ps, k, cx, cy, width, height) && first_free(cs, ps, k, x, y, 0, 0, width, height))
    }
}

/// The choices the greedy packer makes for the first `n` charts, which the
/// positions of the earlier charts determine.
pub open spec fn greedy_packing(cs: Seq<Bitmap>, ps: Seq<(u32, u32)>, n: int, width: int, height: int, brute_force: bool) -> bool {
    forall|i: int| 0 <= i < n && nonempty(cs[i]@) ==> #[trigger] greedy_choice(cs, ps, i, width, height, brute_force)
}

/// In cursor mode each scan resumes where the last chart placed left off:
/// when the chart before chart `k` is non-empty and sits at `(px, py)`, chart
/// `k` is placed at the first free position from `(px + w, py)`, `w` being
/// that chart's width, or from the start of the next row, `(0, py + 1)`, when
/// that chart reaches the atlas's right edge; only when nothing is free from
/// there does the scan start over from the origin.
pub proof fn lemma_cursor_resumes(
    cs: Seq<Bitmap>,
    ps: Seq<(u32, u32)>,
    n: int,
    k: int,
    width: int,
    height: int,
)
    requires
        greedy_packing(cs, ps, n, width, height, false),
        1 <= k < n,
        nonempty(cs[k]@),
        nonempty(cs[k - 1]@),
    ensures
        ({
            let (px, py) = (ps[k - 1].0 as int, ps[k - 1].1 as int);
            let (x, y) = (ps[k].0 as int, ps[k].1 as int);
            let (sx, sy) = if px + cs[k - 1]@.width >= width {
                (0int, py + 1)
            } else {
                (px + cs[k - 1]@.width, py)
            };
            ||| first_free(cs, ps, k, x, y, sx, sy, width, height)
            ||| (none_free(cs, ps, k, sx, sy, width, height) && first_free(cs, ps, k, x, y, 0, 0, width, height))
        }),
{
    assert(greedy_choice(cs, ps, k, width, height, false));
}

/// When brute-forcing, every chart is placed at the first free position
/// from the origin: holes left by earlier charts are filled.
pub proof fn lemma_brute_force_fills_holes(
    cs: Seq<Bitmap>,
    ps: Seq<(u32, u32)>,
    n: int,
    k: int,
    width: int,
    height: int,
)
    requires
        greedy_packing(cs, ps, n, width, height, true),
        0 <= k < n,
        nonempty(cs[k]@),
    ensures
        first_free(cs, ps, k, ps[k].0 as int, ps[k].1 as int, 0, 0, width, height),
{
    assert(greedy_choice(cs, ps, k, width, height, true));
}

/// What is said of chart `k` depends only on the positions of the charts
/// before it, and, for its own choice, on its own position.
proof fn lemma_prefix_stable(cs: Seq<Bitmap>, ps: Seq<(u32, u32)>, qs: Seq<(u32, u32)>, k: int, width: int, height: int, brute_force: bool)
    requires
        0 <= k <= ps.len(),
        k <= qs.len(),
        forall|j: int| 0 <= j < k ==> ps[j] == qs[j],
    ensures
        forall|x: int, y: int| #[trigger] covered(cs, ps, k, x, y) == covered(cs, qs, k, x, y),
        forall|x: int, y: int| #[trigger] blocked(cs, ps, k, x, y) == blocked(cs, qs, k, x, y),
        cursor_before(cs, ps, k, width) == cursor_before(cs, qs, k, width),
        forall|x: int, y: int, x0: int, y0: int|
            #[trigger] first_free(cs, ps, k, x, y, x0, y0, width, height) == first_free(cs, qs, k, x, y, x0, y0, width, height),
        forall|x0: int, y0: int|
            #[trigger] none_free(cs, ps, k, x0, y0, width, height) == none_free(cs, qs, k, x0, y0, width, height),
        k < ps.len() && k < qs.len() && ps[k] == qs[k] ==> greedy_choice(cs, ps, k, width, height, brute_force)
            == greedy_choice(cs, qs, k, width, height, brute_force),
    decreases k,
{
    assert forall|x: int, y: int| #[trigger] covered(cs, ps, k, x, y) == covered(cs, qs, k, x, y) by {
        if covered(cs, ps, k, x, y) {
            let i = choose|i: int| 0 <= i < k && #[trigger] covers(cs[i]@, ps[i], x, y);
            assert(covers(cs[i]@, qs[i], x, y));
        }
        if covered(cs, qs, k, x, y) {
            let i = choose|i: int| 0 <= i < k && #[trigger] covers(cs[i]@, qs[i], x, y);
            assert(covers(cs[i]@, ps[i], x, y));
        }
    }
    assert forall|x: int, y: int| #[trigger] blocked(cs, ps, k, x, y) == blocked(cs, qs, k, x, y) by {
        if blocked(cs, ps, k, x, y) {
            let (cx, cy) = choose|cx: int, cy: int| #[trigger] cs[k]@.pixel(cx, cy) && covered(cs, ps, k, x + cx, y + cy);
            assert(covered(cs, qs, k, x + cx, y + cy));
        }
        if blocked(cs, qs, k, x, y) {
            let (cx, cy) = choose|cx: int, cy: int| #[trigger] cs[k]@.pixel(cx, cy) && covered(cs, qs, k, x + cx, y + cy);
            assert(covered(cs, ps, k, x + cx, y + cy));
        }
    }
    if k > 0 {
        lemma_prefix_stable(cs, ps, qs, k - 1, width, height, brute_force);
    }
    assert forall|x: int, y: int, x0: int, y0: int|
        #[trigger] first_free(cs, ps, k, x, y, x0, y0, width, height) == first_free(cs, qs, k, x, y, x0, y0, width, height) by {
        if first_free(cs, ps, k, x, y, x0, y0, width, height) {
            assert forall|x2: int, y2: int|
                placeable(cs[k]@, x2, y2, width, height) && at_or_after(x2, y2, x0, y0) && !at_or_after(x2, y2, x, y)
                implies #[trigger] blocked(cs, qs, k, x2, y2) by {
                assert(blocked(cs, ps, k, x2, y2));
            }
        }
        if first_free(cs, qs, k, x, y, x0, y0, width, height) {
            assert forall|x2: int, y2: int|
                placeable(cs[k]@, x2, y2, width, height) && at_or_after(x2, y2, x0, y0) && !at_or_after(x2, y2, x, y)
                implies #[trigger] blocked(cs, ps, k, x2, y2) by {
                assert(blocked(cs, qs, k, x2, y2));
            }
        }
    }
    assert forall|x0: int, y0: int|
        #[trigger] none_free(cs, ps, k, x0, y0, width, height) == none_free(cs, qs, k, x0, y0, width, height) by {
        if none_free(cs, ps, k, x0, y0, width, height) {
            assert forall|x2: int, y2: int|
                placeable(cs[k]@, x2, y2, width, height) && at_or_after(x2, y2, x0, y0)
                implies #[trigger] blocked(cs, qs, k, x2, y2) by {
                assert(blocked(cs, ps, k, x2, y2));
            }
        }
        if none_free(cs, qs, k, x0, y0, width, height) {
            assert forall|x2: int, y2: int|
                placeable(cs[k]@, x2, y2, width, height) && at_or_after(x2, y2, x0, y0)
                implies #[trigger] blocked(cs, ps, k, x2, y2) by {
                assert(blocked(cs, qs, k, x2, y2));
            }
        }
    }
    if k < ps.len() && k < qs.len() && ps[k] == qs[k] {
        let c = cursor_before(cs, ps, k, width);
        assert(first_free(cs, ps, k, ps[k].0 as int, ps[k].1 as int, 0, 0, width, height)
            == first_free(cs, qs, k, qs[k].0 as int, qs[k].1 as int, 0, 0, width, height));
        assert(first_free(cs, ps, k, ps[k].0 as int, ps[k].1 as int, c.0, c.1, width, height)
            == first_free(cs, qs, k, qs[k].0 as int, qs[k].1 as int, c.0, c.1, width, height));
        assert(none_free(cs, ps, k, c.0, c.1, width, height) == none_free(cs, qs, k, c.0, c.1, width, height));
    }
}

/// Appending a position keeps the greedy choices already made.
proof fn lemma_push_keeps_greedy(cs: Seq<Bitmap>, ps: Seq<(u32, u32)>, p: (u32, u32), k: int, width: int, height: int, brute_force: bool)
    requires
        ps.len() == k,
        greedy_packing(cs, ps, k, width, height, brute_force),
    ensures
        greedy_packing(cs, ps.push(p), k, width, height, brute_force),
{
    let qs = ps.push(p);
    assert forall|i: int| 0 <= i < k && nonempty(cs[i]@) implies #[trigger] greedy_choice(cs, qs, i, width, height, brute_force) by {
        lemma_prefix_stable(cs, qs, ps, i, width, height, brute_force);
        assert(greedy_choice(cs, ps, i, width, height, brute_force));
    }
}

/// Against an atlas that holds exactly the first `k` charts, overlapping it
/// at a position inside the atlas is covering one of those charts.
proof fn lemma_blocked_is_overlap(atlas: BitmapModel, cs: Seq<Bitmap>, ps: Seq<(u32, u32)>, k: int, x: int, y: int)
    requires
        atlas.wf(),
        0 <= k < cs.len(),
        cs[k]@.wf(),
        cs[k]@.clean(),
        forall|x2: int, y2: int| #[trigger] atlas.pixel(x2, y2) == covered(cs, ps, k, x2, y2),
        placeable(cs[k]@, x, y, atlas.width as int, atlas.height as int),
    ensures
        atlas.overlaps_at(cs[k]@, x, y) == blocked(cs, ps, k, x, y),
{
    let cm = cs[k]@;
    lemma_overlaps_pixels(atlas, cm, x, y);
    if atlas.overlaps_at(cm, x, y) {
        let (cx, cy) = choose|cx: int, cy: int| #[trigger] cm.pixel(cx, cy) && atlas.pixel(x + cx, y + cy);
        assert(covered(cs, ps, k, x + cx, y + cy));
    }
    if blocked(cs, ps, k, x, y) {
        let (cx, cy) = choose|cx: int, cy: int| #[trigger] cs[k]@.pixel(cx, cy) && covered(cs, ps, k, x + cx, y + cy);
        assert(atlas.pixel(x + cx, y + cy));
    }
}

/// What `find_placement` reports, against an atlas holding exactly the first
/// `k` charts, read as the first free position from `(sx, sy)`.
proof fn lemma_scan_result(
    atlas: BitmapModel,
    cs: Seq<Bitmap>,
    ps: Seq<(u32, u32)>,
    k: int,
    sx: int,
    sy: int,
    r: Option<(u32, u32)>,
)
    requires
        atlas.wf(),
        0 <= k < cs.len(),
        cs[k]@.wf(),
        cs[k]@.clean(),
        forall|x2: int, y2: int| #[trigger] atlas.pixel(x2, y2) == covered(cs, ps, k, x2, y2),
        ({
            let (x0, y0) = scan_start(atlas, cs[k]@, sx, sy);
            match r {
                Some((x, y)) => {
                    &&& free_at(atlas, cs[k]@, x as int, y as int)
                    &&& at_or_after(x as int, y as int, x0, y0)
                    &&& forall|x2: int, y2: int|
                        fits(atlas, cs[k]@, x2, y2) && at_or_after(x2, y2, x0, y0) && !at_or_after(
                            x2,
                            y2,
                            x as int,
                            y as int,
                        ) ==> #[trigger] atlas.overlaps_at(cs[k]@, x2, y2)
                },
                None => forall|x2: int, y2: int|
                    fits(atlas, cs[k]@, x2, y2) && at_or_after(x2, y2, x0, y0)
                        ==> #[trigger] atlas.overlaps_at(cs[k]@, x2, y2),
            }
        }),
    ensures
        match r {
            Some((x, y)) => first_free(cs, ps, k, x as int, y as int, sx, sy, atlas.width as int, atlas.height as int),
            None => none_free(cs, ps, k, sx, sy, atlas.width as int, atlas.height as int),
        },
{
    let cm = cs[k]@;
    let w = atlas.width as int;
    let h = atlas.height as int;
    let (x0, y0) = scan_start(atlas, cm, sx, sy);
    assert forall|x2: int, y2: int|
        placeable(cm, x2, y2, w, h) && at_or_after(x2, y2, sx, sy) implies at_or_after(x2, y2, x0, y0) by {}
    match r {
        Some((x, y)) => {
            lemma_blocked_is_overlap(atlas, cs, ps, k, x as int, y as int);
            assert forall|x2: int, y2: int|
                placeable(cm, x2, y2, w, h) && at_or_after(x2, y2, sx, sy) && !at_or_after(x2, y2, x as int, y as int)
                implies #[trigger] blocked(cs, ps, k, x2, y2) by {
                assert(fits(atlas, cm, x2, y2));
                assert(atlas.overlaps_at(cm, x2, y2));
                lemma_blocked_is_overlap(atlas, cs, ps, k, x2, y2);
            }
        },
        None => {
            assert forall|x2: int, y2: int|
                placeable(cm, x2, y2, w, h) && at_or_after(x2, y2, sx, sy) implies #[trigger] blocked(cs, ps, k, x2, y2) by {
                assert(fits(atlas, cm, x2, y2));
                assert(atlas.overlaps_at(cm, x2, y2));
                lemma_blocked_is_overlap(atlas, cs, ps, k, x2, y2);
            }
        },
    }
}

/// A monochrome bitmap whose rows are packed 64 pixels to a word.
pub struct Bitmap {
    pub width: u32,
    pub height: u32,
    row_stride: usize,
    pixels: Vec<u64>,
}

/// The mathematical content of a `Bitmap`: its size and packed storage.
pub struct BitmapModel {
    pub width: nat,
    pub height: nat,
    /// Words per row.
    pub row_words: nat,
    /// The packed pixel words, row after row.
    pub words: Seq<u64>,
}

impl View for Bitmap {
    type V = BitmapModel;

    closed spec fn view(&self) -> BitmapModel {
        BitmapModel {
            width: self.width as nat,
            height: self.height as nat,
            row_words: self.row_stride as nat,
            words: self.pixels@,
        }
    }
}

impl BitmapModel {
    /// Bits per row, including the padding bits after the last column.
    pub open spec fn row_bits(self) -> int {
        64 * (self.row_words as int)
    }

    /// Rows hold `ceil(width / 64)` words and there is one row per line.
    pub open spec fn wf(self) -> bool {
        &&& self.row_words == (self.width + 63) / 64
        &&& self.words.len() == self.row_words * self.height
    }

    /// Bit `f` of the packed storage.
    pub open spec fn flat(self, f: int) -> bool {
        flat_bit(self.words, f)
    }

    /// Whether pixel `(x, y)` is set; false outside the bitmap.
    pub open spec fn pixel(self, x: int, y: int) -> bool {
        0 <= x < self.width && 0 <= y < self.height && self.flat(y * self.row_bits() + x)
    }

    /// No padding bit past the last column of a row is set.
    pub open spec fn clean(self) -> bool {
        forall|y: int, c: int|
            0 <= y < self.height && self.width <= c < self.row_bits() ==> !#[trigger] self.flat(
                y * self.row_bits() + c,
            )
    }

    /// The storage bit that chart bit `(cx, cy)` lands on when the chart is
    /// laid over `self` with its origin at `(ox, oy)`.
    pub open spec fn lands(self, ox: int, oy: int, cy: int, cx: int) -> int {
        (oy + cy) * self.row_bits() + ox + cx
    }

    /// Chart bit `(cx, cy)` is set, its row lies inside `self`, and it lands on
    /// a set bit of `self`'s storage.
    pub open spec fn hit(self, other: BitmapModel, ox: int, oy: int, cy: int, cx: int) -> bool {
        &&& 0 <= cy < other.height
        &&& oy + cy < self.height
        &&& 0 <= cx < other.row_bits()
        &&& other.flat(cy * other.row_bits() + cx)
        &&& self.flat(self.lands(ox, oy, cy, cx))
    }

    /// What `overlaps` reports: some set chart bit lands on a set bit.
    pub open spec fn overlaps_at(self, other: BitmapModel, ox: int, oy: int) -> bool {
        exists|cy: int, cx: int| #[trigger] self.hit(other, ox, oy, cy, cx)
    }

    /// Chart bit `(cx, cy)` is set, its row lies inside `self`, and it lands on
    /// storage bit `f`, which exists.
    pub open spec fn stamp(self, other: BitmapModel, ox: int, oy: int, cy: int, cx: int, f: int) -> bool {
        &&& 0 <= cy < other.height
        &&& oy + cy < self.height
        &&& 0 <= cx < other.row_bits()
        &&& other.flat(cy * other.row_bits() + cx)
        &&& f == self.lands(ox, oy, cy, cx)
        &&& 0 <= f < 64 * self.words.len()
    }

    /// Storage bit `f` is set by `paint(other, ox, oy)`.
    pub open spec fn stamped(self, other: BitmapModel, ox: int, oy: int, f: int) -> bool {
        exists|cy: int, cx: int| #[trigger] self.stamp(other, ox, oy, cy, cx, f)
    }

    /// Storage bit `f` is set by a chart bit in a row before `cy`, or in row
    /// `cy` before column `cxlim`.
    pub open spec fn stamped_upto(self, other: BitmapModel, ox: int, oy: int, cy: int, cxlim: int, f: int) -> bool {
        exists|cy2: int, cx2: int|
            (cy2 < cy || (cy2 == cy && cx2 < cxlim)) && #[trigger] self.stamp(other, ox, oy, cy2, cx2, f)
    }
}

impl Bitmap {
    /// A `width` x `height` bitmap with every pixel clear.
    pub fn new(width: u32, height: u32) -> (r: Bitmap)
        requires
            ((width + 63) / 64) * height <= usize::MAX,
        ensures
            r@.width == width,
            r@.height == height,
            r@.wf(),
            r@.clean(),
            forall|f: int| !#[trigger] r@.flat(f),
    {
        let row_stride: usize = ((width as u64 + 63) / 64) as usize;
        let count: usize = row_stride * height as usize;
        let mut pixels: Vec<u64> = Vec::new();
        while pixels.len() < count
            invariant
                pixels.len() <= count,
                forall|i: int| 0 <= i < pixels.len() ==> pixels@[i] == 0u64,
            decreases count - pixels.len(),
        {
            pixels.push(0u64);
        }
        let r = Bitmap { width, height, row_stride, pixels };
        assert forall|f: int| !#[trigger] r@.flat(f) by {
            if 0 <= f < 64 * r@.words.len() {
                lemma_bit_zero(f % 64);
            }
        }
        r
    }

    /// The bitmap with no rows and no columns.
    pub fn empty() -> (r: Bitmap)
        ensures
            r@.width == 0,
            r@.height == 0,
            r@.wf(),
            r@.clean(),
            forall|f: int| !#[trigger] r@.flat(f),
    {
        Bitmap { width: 0, height: 0, row_stride: 0, pixels: Vec::new() }
    }

    /// Sets pixel `(x, y)`; a position outside the bitmap leaves it unchanged.
    pub fn set_pixel(&mut self, x: u32, y: u32)
        requires
            old(self)@.wf(),
        ensures
            final(self)@.width == old(self)@.width,
            final(self)@.height == old(self)@.height,
            final(self)@.row_words == old(self)@.row_words,
            final(self)@.words.len() == old(self)@.words.len(),
            final(self)@.wf(),
            old(self)@.clean() ==> final(self)@.clean(),
            forall|f: int|
                #[trigger] final(self)@.flat(f) == (old(self)@.flat(f) || (x < old(self)@.width && y
                    < old(self)@.height && f == y * old(self)@.row_bits() + x)),
            forall|a: int, b: int|
                #[trigger] final(self)@.pixel(a, b) == (old(self)@.pixel(a, b) || (a == x && b == y && x
                    < old(self)@.width && y < old(self)@.height)),
    {
        if x >= self.width || y >= self.height {
            return ;
        }
        proof {
            assert(self@.words.len() == self.pixels.len());
            assert(self.row_stride * self.height == self.pixels.len());
            lemma_row_fits(self.row_stride as int, y as int, self.height as int);
            lemma_row_index(self.row_stride as int, y as int, x as int);
            lemma_col_word(x as int, self.width as int);
        }
        let wi: usize = y as usize * self.row_stride + x as usize / 64;
        let shift: u64 = (x % 64) as u64;
        let w = self.pixels[wi] | (1u64 << shift);
        let ghost old_words = self.pixels@;
        self.pixels.set(wi, w);
        proof {
            let target = y * self@.row_bits() + x;
            assert forall|f: int| #[trigger] self@.flat(f) == (flat_bit(old_words, f) || f == target) by {
                lemma_flat_update(old_words, wi as int, w, f);
                if 0 <= f && f / 64 == wi {
                    lemma_bit_or(old_words[wi as int], 1u64 << shift, f % 64);
                    lemma_bit_one(shift, f % 64);
                    assert(f == 64 * (f / 64) + f % 64);
                    assert(64 * (wi as int) < 64 * old_words.len());
                } else {
                    if f == target {
                        assert(f / 64 == wi) by {
                            lemma_fundamental_div_mod_converse(f, 64, wi as int, x as int % 64);
                        }
                    }
                }
            }
            assert forall|a: int, b: int|
                #[trigger] self@.pixel(a, b) == (old(self)@.pixel(a, b) || (a == x && b == y)) by {
                if 0 <= a < self.width && 0 <= b < self.height {
                    let f = b * self@.row_bits() + a;
                    assert(self@.flat(f) == (flat_bit(old_words, f) || f == target));
                    if f == target {
                        lemma_row_unique(self@.row_bits(), b, a, y as int, x as int);
                    }
                }
            }
            if old(self)@.clean() {
                assert forall|yy: int, c: int|
                    0 <= yy < self@.height && self@.width <= c < self@.row_bits() implies !#[trigger] self@.flat(
                    yy * self@.row_bits() + c,
                ) by {
                    let f = yy * self@.row_bits() + c;
                    assert(!old(self)@.flat(yy * old(self)@.row_bits() + c));
                    assert(self@.flat(f) == (flat_bit(old_words, f) || f == target));
                    if f == target {
                        lemma_row_index(self.row_stride as int, yy, c);
                        lemma_fundamental_div_mod_converse(f, 64, yy * self.row_stride + c / 64, c % 64);
                        lemma_fundamental_div_mod_converse(f, 64, wi as int, x as int % 64);
                        let rs = self.row_stride as int;
                        lemma_fundamental_div_mod_converse(yy * rs + c / 64, rs, yy, c / 64);
                        lemma_fundamental_div_mod_converse(yy * rs + c / 64, rs, y as int, x as int / 64);
                        assert(c == 64 * (c / 64) + c % 64);
                        assert(x == 64 * (x / 64) + x % 64);
                    }
                }
            }
        }
    }


    /// Whether some set pixel of `other`, with its origin placed at
    /// `(ox, oy)`, lands on a set pixel of `self`.
    pub fn overlaps(&self, other: &Bitmap, ox: u32, oy: u32) -> (r: bool)
        requires
            self@.wf(),
            other@.wf(),
        ensures
            r == self@.overlaps_at(other@, ox as int, oy as int),
    {
        let ghost sm = self@;
        let ghost om = other@;
        let word_off: u64 = (ox / 64) as u64;
        let shift: u64 = (ox % 64) as u64;
        let len: u64 = self.pixels.len() as u64;
        let mut cy: u32 = 0;
        while cy < other.height
            invariant
                sm == self@,
                om == other@,
                sm.wf(),
                om.wf(),
                sm.words == self.pixels@,
                om.words == other.pixels@,
                sm.row_words == self.row_stride,
                om.row_words == other.row_stride,
                sm.height == self.height,
                om.height == other.height,
                len == sm.words.len(),
                len == self.pixels.len(),
                word_off == ox / 64,
                shift == ox % 64,
                cy <= other.height,
                forall|cy2: int, cx2: int|
                    0 <= cy2 < cy ==> !#[trigger] sm.hit(om, ox as int, oy as int, cy2, cx2),
            decreases other.height - cy,
        {
            if oy as u64 + cy as u64 >= self.height as u64 {
                assert forall|cy2: int, cx2: int| !#[trigger] sm.hit(om, ox as int, oy as int, cy2, cx2) by {}
                return false;
            }
            let ty: u32 = oy + cy;
            proof {
                lemma_row_fits(self.row_stride as int, ty as int, self.height as int);
                lemma_row_fits(other.row_stride as int, cy as int, other.height as int);
            }
            let trow: u64 = ty as u64 * self.row_stride as u64;
            assert(other.pixels.len() == other.row_stride * other.height);
            assert(cy * other.row_stride + other.row_stride <= other.pixels.len());
            let crow: usize = cy as usize * other.row_stride;
            let mut cw: usize = 0;
            while cw < other.row_stride
                invariant
                    sm == self@,
                    om == other@,
                    sm.wf(),
                    om.wf(),
                    sm.words == self.pixels@,
                    om.words == other.pixels@,
                    sm.row_words == self.row_stride,
                    om.row_words == other.row_stride,
                    sm.height == self.height,
                    om.height == other.height,
                    len == sm.words.len(),
                    word_off == ox / 64,
                    shift == ox % 64,
                    cy < other.height,
                    ty == oy + cy,
                    ty < self.height,
                    trow == ty * sm.row_words,
                    trow + sm.row_words <= len,
                    crow == cy * om.row_words,
                    crow + om.row_words <= om.words.len(),
                    crow + other.row_stride <= other.pixels.len(),
                    len == self.pixels.len(),
                    cw <= other.row_stride,
                    forall|cy2: int, cx2: int|
                        0 <= cy2 < cy ==> !#[trigger] sm.hit(om, ox as int, oy as int, cy2, cx2),
                    forall|cx2: int|
                        cx2 < 64 * cw ==> !#[trigger] sm.hit(om, ox as int, oy as int, cy as int, cx2),
                decreases other.row_stride - cw,
            {
                let word = other.pixels[crow + cw];
                let ghost tw = trow + word_off + cw;
                let mut lo_hit = false;
                let mut hi_hit = false;
                if word != 0 {
                    if word_off + (cw as u64) < len - trow {
                        let twi: usize = (trow + word_off + cw as u64) as usize;
                        let t = self.pixels[twi];
                        lo_hit = (t & (word << shift)) != 0;
                        assert(twi == tw);
                        assert(t == sm.words[tw]);
                    }
                    if shift > 0 {
                        let hi = word >> (64 - shift);
                        if hi != 0 && word_off + (cw as u64) + 1 < len - trow {
                            let twi: usize = (trow + word_off + cw as u64 + 1) as usize;
                            let t = self.pixels[twi];
                            hi_hit = (t & hi) != 0;
                            assert(twi == tw + 1);
                            assert(t == sm.words[tw + 1]);
                        }
                    }
                }
                proof {
                    assert forall|b: int| 0 <= b < 64 implies #[trigger] sm.hit(
                        om,
                        ox as int,
                        oy as int,
                        cy as int,
                        64 * cw + b,
                    ) == ((shift + b < 64 && lo_hit && bit(word, b) && bit(sm.words[tw], shift + b))
                        || (shift + b >= 64 && hi_hit && bit(word, b) && bit(sm.words[tw + 1], shift + b - 64))) by {
                        lemma_word_lands(sm, om, ox as int, oy as int, cy as int, cw as int, b, trow as int);
                        let h = sm.hit(om, ox as int, oy as int, cy as int, 64 * cw + b);
                        assert(om.flat(cy * om.row_bits() + (64 * cw + b)) == bit(word, b));
                        if word == 0 {
                            lemma_bit_zero(b);
                            assert(!h);
                        } else if shift + b < 64 {
                            if tw < len {
                                let t = sm.words[tw];
                                lemma_nonzero_iff_bit(t & (word << shift));
                                lemma_bit_and(t, word << shift, shift + b);
                                lemma_bit_shl(word, shift, shift + b);
                                if h {
                                    assert(bit(t & (word << shift), shift + b));
                                }
                            } else {
                                assert(!h);
                            }
                        } else {
                            if tw + 1 < len {
                                let t = sm.words[tw + 1];
                                let hi = word >> (64 - shift) as u64;
                                lemma_nonzero_iff_bit(t & hi);
                                lemma_bit_and(t, hi, shift + b - 64);
                                lemma_bit_shr(word, (64 - shift) as u64, shift + b - 64);
                                lemma_nonzero_iff_bit(hi);
                                assert(h ==> hi_hit);
                            } else {
                                assert(!h);
                            }
                        }
                    }
                }
                if lo_hit || hi_hit {
                    proof {
                        if lo_hit {
                            let t = sm.words[tw];
                            lemma_nonzero_iff_bit(t & (word << shift));
                            let i = choose|i: int| #[trigger] bit(t & (word << shift), i);
                            lemma_bit_and(t, word << shift, i);
                            lemma_bit_shl(word, shift, i);
                            assert(sm.hit(om, ox as int, oy as int, cy as int, 64 * cw + (i - shift)));
                        } else {
                            let t = sm.words[tw + 1];
                            let hi = word >> (64 - shift) as u64;
                            lemma_nonzero_iff_bit(t & hi);
                            let i = choose|i: int| #[trigger] bit(t & hi, i);
                            lemma_bit_and(t, hi, i);
                            lemma_bit_shr(word, (64 - shift) as u64, i);
                            assert(sm.hit(om, ox as int, oy as int, cy as int, 64 * cw + (i + 64 - shift)));
                        }
                    }
                    return true;
                }
                proof {
                    assert forall|cx2: int|
                        cx2 < 64 * (cw + 1) implies !#[trigger] sm.hit(om, ox as int, oy as int, cy as int, cx2) by {
                        if cx2 >= 64 * cw {
                            assert(sm.hit(om, ox as int, oy as int, cy as int, 64 * cw + (cx2 - 64 * cw))
                                == sm.hit(om, ox as int, oy as int, cy as int, cx2));
                        }
                    }
                }
                cw = cw + 1;
            }
            cy = cy + 1;
        }
        false
    }


    /// Sets every pixel of `self` on which a set pixel of `other` lands when
    /// `other`'s origin is placed at `(ox, oy)`.
    pub fn paint(&mut self, other: &Bitmap, ox: u32, oy: u32)
        requires
            old(self)@.wf(),
            other@.wf(),
        ensures
            final(self)@.width == old(self)@.width,
            final(self)@.height == old(self)@.height,
            final(self)@.row_words == old(self)@.row_words,
            final(self)@.words.len() == old(self)@.words.len(),
            final(self)@.wf(),
            forall|f: int|
                #[trigger] final(self)@.flat(f) == (old(self)@.flat(f) || old(self)@.stamped(
                    other@,
                    ox as int,
                    oy as int,
                    f,
                )),
    {
        let ghost sm = self@;
        let ghost om = other@;
        let word_off: u64 = (ox / 64) as u64;
        let shift: u64 = (ox % 64) as u64;
        let len: u64 = self.pixels.len() as u64;
        let mut cy: u32 = 0;
        while cy < other.height
            invariant
                om == other@,
                sm.wf(),
                om.wf(),
                self@.width == sm.width,
                self@.height == sm.height,
                self@.row_words == sm.row_words,
                self.pixels.len() == sm.words.len(),
                om.words == other.pixels@,
                sm.row_words == self.row_stride,
                om.row_words == other.row_stride,
                sm.height == self.height,
                om.height == other.height,
                len == sm.words.len(),
                len == self.pixels.len(),
                word_off == ox / 64,
                shift == ox % 64,
                cy <= other.height,
                forall|f: int|
                    #[trigger] flat_bit(self.pixels@, f) == (sm.flat(f) || sm.stamped_upto(
                        om,
                        ox as int,
                        oy as int,
                        cy as int,
                        0,
                        f,
                    )),
            ensures
                cy >= other.height || oy + cy >= sm.height,
            decreases other.height - cy,
        {
            if oy as u64 + cy as u64 >= self.height as u64 {
                break;
            }
            let ty: u32 = oy + cy;
            proof {
                lemma_row_fits(self.row_stride as int, ty as int, self.height as int);
                lemma_row_fits(other.row_stride as int, cy as int, other.height as int);
            }
            let trow: u64 = ty as u64 * self.row_stride as u64;
            assert(other.pixels.len() == other.row_stride * other.height);
            assert(cy * other.row_stride + other.row_stride <= other.pixels.len());
            let crow: usize = cy as usize * other.row_stride;
            let mut cw: usize = 0;
            while cw < other.row_stride
                invariant
                    om == other@,
                    sm.wf(),
                    om.wf(),
                    self@.width == sm.width,
                    self@.height == sm.height,
                    self@.row_words == sm.row_words,
                    self.pixels.len() == sm.words.len(),
                    om.words == other.pixels@,
                    sm.row_words == self.row_stride,
                    om.row_words == other.row_stride,
                    sm.height == self.height,
                    om.height == other.height,
                    len == sm.words.len(),
                    len == self.pixels.len(),
                    word_off == ox / 64,
                    shift == ox % 64,
                    cy < other.height,
                    ty == oy + cy,
                    ty < self.height,
                    trow == ty * sm.row_words,
                    trow + sm.row_words <= len,
                    crow == cy * om.row_words,
                    crow + other.row_stride <= other.pixels.len(),
                    cw <= other.row_stride,
                    forall|f: int|
                        #[trigger] flat_bit(self.pixels@, f) == (sm.flat(f) || sm.stamped_upto(
                            om,
                            ox as int,
                            oy as int,
                            cy as int,
                            64 * cw,
                            f,
                        )),
                decreases other.row_stride - cw,
            {
                let word = other.pixels[crow + cw];
                let ghost tw = trow + word_off + cw;
                let ghost before = self.pixels@;
                let mut wrote_lo = false;
                let mut wrote_hi = false;
                let mut hi: u64 = 0;
                if word != 0 {
                    if word_off + (cw as u64) < len - trow {
                        let twi: usize = (trow + word_off + cw as u64) as usize;
                        let v = self.pixels[twi] | (word << shift);
                        self.pixels.set(twi, v);
                        wrote_lo = true;
                    }
                    if shift > 0 {
                        hi = word >> (64 - shift);
                        if hi != 0 && word_off + (cw as u64) + 1 < len - trow {
                            let twi: usize = (trow + word_off + cw as u64 + 1) as usize;
                            let v = self.pixels[twi] | hi;
                            self.pixels.set(twi, v);
                            wrote_hi = true;
                        }
                    }
                }
                proof {
                    let new = self.pixels@;
                    assert(new.len() == before.len());
                    assert forall|k: int| 0 <= k < new.len() implies #[trigger] new[k] == (if wrote_lo && k
                        == tw {
                        before[tw] | (word << shift)
                    } else if wrote_hi && k == tw + 1 {
                        before[tw + 1] | hi
                    } else {
                        before[k]
                    }) by {}
                    assert forall|f: int|
                        #[trigger] flat_bit(self.pixels@, f) == (sm.flat(f) || sm.stamped_upto(
                            om,
                            ox as int,
                            oy as int,
                            cy as int,
                            64 * (cw + 1),
                            f,
                        )) by {
                        assert(flat_bit(before, f) == (sm.flat(f) || sm.stamped_upto(
                            om, ox as int, oy as int, cy as int, 64 * cw, f)));
                        lemma_stamp_word(sm, om, ox as int, oy as int, cy as int, cw as int, trow as int, f);
                        let word_stamps = exists|b: int|
                            0 <= b < 64 && #[trigger] sm.stamp(om, ox as int, oy as int, cy as int, 64 * cw + b, f);
                        // the new prefix splits into the old prefix and this word
                        if sm.stamped_upto(om, ox as int, oy as int, cy as int, 64 * (cw + 1), f) {
                            let (cy2, cx2) = choose|cy2: int, cx2: int|
                                (cy2 < cy || (cy2 == cy && cx2 < 64 * (cw + 1))) && #[trigger] sm.stamp(
                                    om, ox as int, oy as int, cy2, cx2, f);
                            if cy2 == cy && cx2 >= 64 * cw {
                                assert(sm.stamp(om, ox as int, oy as int, cy as int, 64 * cw + (cx2 - 64 * cw), f));
                            } else {
                                assert(sm.stamped_upto(om, ox as int, oy as int, cy as int, 64 * cw, f));
                            }
                        }
                        if sm.stamped_upto(om, ox as int, oy as int, cy as int, 64 * cw, f) {
                            let (cy2, cx2) = choose|cy2: int, cx2: int|
                                (cy2 < cy || (cy2 == cy && cx2 < 64 * cw)) && #[trigger] sm.stamp(
                                    om, ox as int, oy as int, cy2, cx2, f);
                            assert(sm.stamped_upto(om, ox as int, oy as int, cy as int, 64 * (cw + 1), f));
                        }
                        if word_stamps {
                            let b = choose|b: int|
                                0 <= b < 64 && #[trigger] sm.stamp(om, ox as int, oy as int, cy as int, 64 * cw + b, f);
                            assert(sm.stamped_upto(om, ox as int, oy as int, cy as int, 64 * (cw + 1), f));
                        }
                        // how the stored bit changed
                        if 0 <= f < 64 * self.pixels@.len() {
                            let k = f / 64;
                            let i = f % 64;
                            assert(new[k] == (if wrote_lo && k == tw {
                                before[tw] | (word << shift)
                            } else if wrote_hi && k == tw + 1 {
                                before[tw + 1] | hi
                            } else {
                                before[k]
                            }));
                            if wrote_lo && k == tw {
                                lemma_bit_or(before[tw], word << shift, i);
                                lemma_bit_shl(word, shift, i);
                            }
                            if wrote_hi && k == tw + 1 {
                                lemma_bit_or(before[tw + 1], hi, i);
                                lemma_bit_shr(word, (64 - shift) as u64, i);
                            }
                            if !wrote_lo && k == tw && tw < len {
                                lemma_bit_zero(i - shift);
                            }
                            if !wrote_hi && k == tw + 1 && tw + 1 < len && i < shift {
                                if word != 0 {
                                    lemma_nonzero_iff_bit(hi);
                                    lemma_bit_shr(word, (64 - shift) as u64, i);
                                } else {
                                    lemma_bit_zero(i + 64 - shift);
                                }
                            }
                        }
                    }
                }
                cw = cw + 1;
            }
            proof {
                assert forall|f: int|
                    #[trigger] flat_bit(self.pixels@, f) == (sm.flat(f) || sm.stamped_upto(
                        om,
                        ox as int,
                        oy as int,
                        cy + 1,
                        0,
                        f,
                    )) by {
                    if sm.stamped_upto(om, ox as int, oy as int, cy + 1, 0, f) {
                        let (cy2, cx2) = choose|cy2: int, cx2: int|
                            (cy2 < cy + 1 || (cy2 == cy + 1 && cx2 < 0)) && #[trigger] sm.stamp(
                                om, ox as int, oy as int, cy2, cx2, f);
                        assert(sm.stamped_upto(om, ox as int, oy as int, cy as int, 64 * cw, f));
                    }
                    if sm.stamped_upto(om, ox as int, oy as int, cy as int, 64 * cw, f) {
                        let (cy2, cx2) = choose|cy2: int, cx2: int|
                            (cy2 < cy || (cy2 == cy && cx2 < 64 * cw)) && #[trigger] sm.stamp(
                                om, ox as int, oy as int, cy2, cx2, f);
                        assert(sm.stamped_upto(om, ox as int, oy as int, cy + 1, 0, f));
                    }
                }
            }
            cy = cy + 1;
        }
        proof {
            assert forall|f: int|
                #[trigger] self@.flat(f) == (sm.flat(f) || sm.stamped(om, ox as int, oy as int, f)) by {
                assert(self@.flat(f) == flat_bit(self.pixels@, f));
                if sm.stamped(om, ox as int, oy as int, f) {
                    let (cy2, cx2) = choose|cy2: int, cx2: int| #[trigger] sm.stamp(om, ox as int, oy as int, cy2, cx2, f);
                    assert(sm.stamped_upto(om, ox as int, oy as int, cy as int, 0, f));
                }
                if sm.stamped_upto(om, ox as int, oy as int, cy as int, 0, f) {
                    let (cy2, cx2) = choose|cy2: int, cx2: int|
                        (cy2 < cy || (cy2 == cy && cx2 < 0)) && #[trigger] sm.stamp(om, ox as int, oy as int, cy2, cx2, f);
                    assert(sm.stamped(om, ox as int, oy as int, f));
                }
            }
        }
    }

    /// Whether pixel `(x, y)` is set; false outside the bitmap.
    pub fn get_pixel(&self, x: u32, y: u32) -> (r: bool)
        requires
            self@.wf(),
        ensures
            r == self@.pixel(x as int, y as int),
    {
        if x >= self.width || y >= self.height {
            return false;
        }
        proof {
            assert(self@.words.len() == self.pixels.len());
            assert(self.row_stride * self.height == self.pixels.len());
            lemma_row_fits(self.row_stride as int, y as int, self.height as int);
            lemma_row_index(self.row_stride as int, y as int, x as int);
            lemma_col_word(x as int, self.width as int);
            lemma_flat_index(self.pixels@, y * self.row_stride + x / 64, x as int % 64);
        }
        let wi: usize = y as usize * self.row_stride + x as usize / 64;
        proof {
            lemma_bit_test(self.pixels@[wi as int], (x % 64) as u64);
        }
        (self.pixels[wi] >> ((x % 64) as u64)) & 1 != 0
    }
}

/// The first position, in row-major order from `(start_x, start_y)`, at which
/// `chart` fits inside `target` without covering a set pixel of it.
pub fn find_placement(target: &Bitmap, chart: &Bitmap, start_x: u32, start_y: u32) -> (r: Option<(u32, u32)>)
    requires
        target@.wf(),
        chart@.wf(),
        chart@.width > 0 || target@.width < u32::MAX,
        chart@.height > 0 || target@.height < u32::MAX,
    ensures
        ({
            let (x0, y0) = scan_start(target@, chart@, start_x as int, start_y as int);
            match r {
                Some((x, y)) => {
                    &&& free_at(target@, chart@, x as int, y as int)
                    &&& at_or_after(x as int, y as int, x0, y0)
                    &&& forall|x2: int, y2: int|
                        fits(target@, chart@, x2, y2) && at_or_after(x2, y2, x0, y0) && !at_or_after(
                            x2,
                            y2,
                            x as int,
                            y as int,
                        ) ==> #[trigger] target@.overlaps_at(chart@, x2, y2)
                },
                None => forall|x2: int, y2: int|
                    fits(target@, chart@, x2, y2) && at_or_after(x2, y2, x0, y0)
                        ==> #[trigger] target@.overlaps_at(chart@, x2, y2),
            }
        }),
{
    let ghost tm = target@;
    let ghost cm = chart@;
    let tw = target.width;
    let th = target.height;
    let cw = chart.width;
    let ch = chart.height;
    assert(tm.width == tw && tm.height == th && cm.width == cw && cm.height == ch);
    if cw > tw || ch > th {
        return None;
    }
    let max_x = tw - cw;
    let max_y = th - ch;
    let ghost start = scan_start(tm, cm, start_x as int, start_y as int);
    assert(start == scan_start(target@, chart@, start_x as int, start_y as int));
    let mut y = start_y;
    let mut x = start_x;
    if y > max_y {
        return None;
    }
    if x > max_x {
        x = 0;
        y = y + 1;
        if y > max_y {
            return None;
        }
    }
    loop
        invariant
            tm == target@,
            cm == chart@,
            tm.wf(),
            cm.wf(),
            max_x == tm.width - cm.width,
            max_y == tm.height - cm.height,
            max_x < u32::MAX,
            max_y < u32::MAX,
            x <= max_x,
            y <= max_y,
            start == scan_start(target@, chart@, start_x as int, start_y as int),
            at_or_after(x as int, y as int, start.0, start.1),
            forall|x2: int, y2: int|
                fits(tm, cm, x2, y2) && at_or_after(x2, y2, start.0, start.1) && !at_or_after(
                    x2,
                    y2,
                    x as int,
                    y as int,
                ) ==> #[trigger] tm.overlaps_at(cm, x2, y2),
        decreases max_y - y, max_x - x,
    {
        if !target.overlaps(chart, x, y) {
            return Some((x, y));
        }
        x = x + 1;
        if x > max_x {
            x = 0;
            y = y + 1;
            if y > max_y {
                return None;
            }
        }
    }
}

/// Places the charts one after another into an empty `width` x `height`
/// atlas, each at the first free position found by `find_placement`: from the
/// origin when `brute_force` is set, otherwise from just right of the chart
/// placed before it, falling back to the origin. Charts with no rows or no
/// columns are not placed and get the position `(0, 0)`. Returns the
/// positions and the painted atlas, or `None` as soon as a chart does not fit
/// anywhere.
pub fn place_charts(charts: &Vec<Bitmap>, width: u32, height: u32, brute_force: bool) -> (r: Option<
    (Vec<(u32, u32)>, Bitmap),
>)
    requires
        ((width + 63) / 64) * height <= usize::MAX,
        forall|i: int| 0 <= i < charts.len() ==> (#[trigger] charts@[i])@.wf() && charts@[i]@.clean(),
    ensures
        match r {
            Some((ps, atlas)) => {
                &&& ps.len() == charts.len()
                &&& atlas@.width == width
                &&& atlas@.height == height
                &&& atlas@.wf()
                &&& atlas@.clean()
                &&& valid_packing(charts@, ps@, charts.len() as int, width as int, height as int)
                &&& greedy_packing(charts@, ps@, charts.len() as int, width as int, height as int, brute_force)
                &&& forall|x: int, y: int|
                    #[trigger] atlas@.pixel(x, y) == covered(charts@, ps@, charts.len() as int, x, y)
            },
            None => exists|k: int, ps: Seq<(u32, u32)>|
                {
                    &&& 0 <= k < charts.len()
                    &&& ps.len() == k
                    &&& nonempty(charts@[k]@)
                    &&& valid_packing(charts@, ps, k, width as int, height as int)
                    &&& greedy_packing(charts@, ps, k, width as int, height as int, brute_force)
                    &&& none_free(charts@, ps, k, 0, 0, width as int, height as int)
                },
        },
{
    let mut target = Bitmap::new(width, height);
    let mut placements: Vec<(u32, u32)> = Vec::with_capacity(charts.len());
    let mut cursor_x: u32 = 0;
    let mut cursor_y: u32 = 0;
    let mut k: usize = 0;
    while k < charts.len()
        invariant
            forall|i: int| 0 <= i < charts.len() ==> (#[trigger] charts@[i])@.wf() && charts@[i]@.clean(),
            k <= charts.len(),
            placements.len() == k,
            target@.width == width,
            target@.height == height,
            target@.wf(),
            target@.clean(),
            valid_packing(charts@, placements@, k as int, width as int, height as int),
            greedy_packing(charts@, placements@, k as int, width as int, height as int, brute_force),
            !brute_force ==> (cursor_x as int, cursor_y as int) == cursor_before(charts@, placements@, k as int, width as int),
            forall|x: int, y: int|
                #[trigger] target@.pixel(x, y) == covered(charts@, placements@, k as int, x, y),
        decreases charts.len() - k,
    {
        let chart = &charts[k];
        let ghost cm = chart@;
        let ghost tm = target@;
        let ghost ps = placements@;
        assert(cm.width == chart.width && cm.height == chart.height);
        let cw = chart.width;
        let ch = chart.height;
        if cw == 0 || ch == 0 {
            placements.push((0, 0));
            proof {
                lemma_push_keeps_greedy(charts@, ps, (0u32, 0u32), k as int, width as int, height as int, brute_force);
                lemma_prefix_stable(charts@, placements@, ps, k as int, width as int, height as int, brute_force);
                assert forall|x: int, y: int|
                    #[trigger] target@.pixel(x, y) == covered(charts@, placements@, k + 1, x, y) by {
                    if covered(charts@, placements@, k + 1, x, y) {
                        let i = choose|i: int| 0 <= i < k + 1 && #[trigger] covers(charts@[i]@, placements@[i], x, y);
                        assert(covers(charts@[i]@, ps[i], x, y));
                    }
                    if covered(charts@, ps, k as int, x, y) {
                        let i = choose|i: int| 0 <= i < k && #[trigger] covers(charts@[i]@, ps[i], x, y);
                        assert(covers(charts@[i]@, placements@[i], x, y));
                    }
                }
                assert forall|i: int, j: int, x: int, y: int|
                    0 <= i < j < k + 1 && #[trigger] covers(charts@[i]@, placements@[i], x, y) implies !#[trigger] covers(
                        charts@[j]@, placements@[j], x, y) by {
                    if j < k {
                        assert(covers(charts@[i]@, ps[i], x, y));
                        assert(!covers(charts@[j]@, ps[j], x, y));
                    }
                }
            }
            k = k + 1;
            continue;
        }
        if cw > width || ch > height {
            proof {
                assert(valid_packing(charts@, ps, k as int, width as int, height as int));
                assert(none_free(charts@, ps, k as int, 0, 0, width as int, height as int));
            }
            return None;
        }
        let (sx, sy) = if brute_force {
            (0u32, 0u32)
        } else {
            (cursor_x, cursor_y)
        };
        let first = find_placement(&target, chart, sx, sy);
        proof {
            lemma_scan_result(tm, charts@, ps, k as int, sx as int, sy as int, first);
        }
        let mut placed = first;
        if placed.is_none() && !brute_force {
            placed = find_placement(&target, chart, 0, 0);
            proof {
                lemma_scan_result(tm, charts@, ps, k as int, 0, 0, placed);
            }
        }
        let (ox, oy) = match placed {
            Some(p) => p,
            None => {
                return None;
            }
        };
        proof {
            lemma_overlaps_pixels(tm, cm, ox as int, oy as int);
        }
        target.paint(chart, ox, oy);
        proof {
            lemma_paint_pixels(tm, target@, cm, ox as int, oy as int);
        }
        placements.push((ox, oy));
        proof {
            let p = (ox, oy);
            assert(placements@[k as int] == p);
            lemma_push_keeps_greedy(charts@, ps, p, k as int, width as int, height as int, brute_force);
            lemma_prefix_stable(charts@, placements@, ps, k as int, width as int, height as int, brute_force);
            assert(greedy_choice(charts@, placements@, k as int, width as int, height as int, brute_force));
            assert forall|x: int, y: int|
                #[trigger] target@.pixel(x, y) == covered(charts@, placements@, k + 1, x, y) by {
                assert(target@.pixel(x, y) == (tm.pixel(x, y) || (0 <= x < width && 0 <= y < height
                    && cm.pixel(x - ox, y - oy))));
                assert(tm.pixel(x, y) == covered(charts@, ps, k as int, x, y));
                if covered(charts@, placements@, k + 1, x, y) {
                    let i = choose|i: int| 0 <= i < k + 1 && #[trigger] covers(charts@[i]@, placements@[i], x, y);
                    if i < k {
                        assert(covers(charts@[i]@, ps[i], x, y));
                    }
                }
                if covered(charts@, ps, k as int, x, y) {
                    let i = choose|i: int| 0 <= i < k && #[trigger] covers(charts@[i]@, ps[i], x, y);
                    assert(covers(charts@[i]@, placements@[i], x, y));
                }
                if 0 <= x < width && 0 <= y < height && cm.pixel(x - ox, y - oy) {
                    assert(covers(charts@[k as int]@, placements@[k as int], x, y));
                }
            }
            assert forall|i: int, j: int, x: int, y: int|
                0 <= i < j < k + 1 && #[trigger] covers(charts@[i]@, placements@[i], x, y) implies !#[trigger] covers(
                    charts@[j]@, placements@[j], x, y) by {
                assert(covers(charts@[i]@, ps[i], x, y));
                if j < k {
                    assert(!covers(charts@[j]@, ps[j], x, y));
                } else {
                    assert(covered(charts@, ps, k as int, x, y));
                    assert(tm.pixel(x, y));
                    if covers(charts@[j]@, placements@[j], x, y) {
                        assert(cm.pixel(x - ox, y - oy) && tm.pixel(ox + (x - ox), oy + (y - oy)));
                    }
                }
            }
        }
        if !brute_force {
            cursor_x = ox + cw;
            cursor_y = oy;
            if cursor_x >= width {
                cursor_x = 0;
                cursor_y = oy + 1;
            }
        }
        k = k + 1;
    }
    Some((placements, target))
}

} // verus!
