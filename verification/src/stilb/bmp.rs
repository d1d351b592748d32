//! The 32-bit uncompressed BMP files the baker writes for inspection and
//! reads back: a 54-byte header, then rows from the bottom row up, each pixel
//! stored as blue, green, red, alpha.
use vstd::prelude::*;

verus! {

/// The four little-endian bytes of `v`.
pub open spec fn le32(v: int) -> Seq<u8> {
    seq![(v % 0x100) as u8, ((v / 0x100) % 0x100) as u8, ((v / 0x10000) % 0x100) as u8, ((v / 0x1000000) % 0x100) as u8]
}

/// The two little-endian bytes of `v`.
pub open spec fn le16(v: int) -> Seq<u8> {
    seq![(v % 0x100) as u8, ((v / 0x100) % 0x100) as u8]
}

/// The value of the four little-endian bytes of `data` at `at`.
pub open spec fn read_le32(data: Seq<u8>, at: int) -> int {
    data[at] + data[at + 1] * 0x100 + data[at + 2] * 0x10000 + data[at + 3] * 0x1000000
}

/// The header of a `width` x `height` image: file size, pixel data at byte
/// 54, a 40-byte info header, one plane, 32 bits per pixel, no compression.
pub open spec fn bmp_header(width: int, height: int) -> Seq<u8> {
    seq![0x42u8, 0x4du8] + le32(54 + width * height * 4) + le32(0) + le32(54) + le32(40) + le32(width)
        + le32(height) + le16(1) + le16(32) + le32(0) + le32(0) + le32(0) + le32(0) + le32(0) + le32(0)
}

/// Where pixel `(x, y)` (rows counted from the top) starts in the pixel data:
/// rows are stored from the bottom up.
pub open spec fn stored_pixel(width: int, height: int, x: int, y: int) -> int {
    4 * ((height - 1 - y) * width + x)
}

/// Byte `c` (0 to 3) of the stored pixel comes from byte `swizzle(c)` of the
/// RGBA pixel: blue, green, red, alpha.
pub open spec fn swizzle(c: int) -> int {
    if c == 0 {
        2
    } else if c == 2 {
        0
    } else {
        c
    }
}

proof fn lemma_row_step(w: int, r: int)
    ensures
        (r + 1) * w == r * w + w,
        r * w == w * r,
{
    assert((r + 1) * w == r * w + w) by (nonlinear_arith);
    assert(r * w == w * r) by (nonlinear_arith);
}

/// Row `r`, column `x` of a grid `w` wide, `h` tall has an index below `w * h`.
proof fn lemma_grid_index(w: int, h: int, r: int, x: int)
    requires
        0 <= r < h,
        0 <= x < w,
    ensures
        0 <= r * w + x < w * h,
        r * w + x + 1 <= w * h,
        (r + 1) * w == r * w + w,
{
    assert(0 <= r * w + x < w * h && r * w + x + 1 <= w * h) by (nonlinear_arith)
        requires
            0 <= r < h,
            0 <= x < w,
    ;
    assert((r + 1) * w == r * w + w) by (nonlinear_arith);
}

fn push_le32(out: &mut Vec<u8>, v: u32)
    ensures
        final(out)@ == old(out)@ + le32(v as int),
{
    out.push((v % 0x100) as u8);
    out.push(((v / 0x100) % 0x100) as u8);
    out.push(((v / 0x10000) % 0x100) as u8);
    out.push(((v / 0x1000000) % 0x100) as u8);
    proof {
        assert(final(out)@ =~= old(out)@ + le32(v as int));
    }
}

fn push_le16(out: &mut Vec<u8>, v: u16)
    ensures
        final(out)@ == old(out)@ + le16(v as int),
{
    out.push((v % 0x100) as u8);
    out.push(((v / 0x100) % 0x100) as u8);
    proof {
        assert(final(out)@ =~= old(out)@ + le16(v as int));
    }
}

/// The BMP file of a `width` x `height` image whose RGBA bytes are `rgba`,
/// row after row from the top.
pub fn encode_bmp(width: u32, height: u32, rgba: &[u8]) -> (file: Vec<u8>)
    requires
        54 + width * height * 4 <= u32::MAX,
        rgba@.len() == width * height * 4,
    ensures
        file@.len() == 54 + width * height * 4,
        file@.subrange(0, 54) == bmp_header(width as int, height as int),
        forall|x: int, y: int, c: int|
            0 <= x < width && 0 <= y < height && 0 <= c < 4 ==> #[trigger] file@[54 + stored_pixel(
                width as int,
                height as int,
                x,
                y,
            ) + c] == rgba@[4 * (y * width + x) + swizzle(c)],
{
    let mut out: Vec<u8> = Vec::new();
    let pixels: u32 = width * height * 4;
    out.push(0x42);
    out.push(0x4d);
    push_le32(&mut out, 54 + pixels);
    push_le32(&mut out, 0);
    push_le32(&mut out, 54);
    push_le32(&mut out, 40);
    push_le32(&mut out, width);
    push_le32(&mut out, height);
    push_le16(&mut out, 1);
    push_le16(&mut out, 32);
    push_le32(&mut out, 0);
    push_le32(&mut out, 0);
    push_le32(&mut out, 0);
    push_le32(&mut out, 0);
    push_le32(&mut out, 0);
    push_le32(&mut out, 0);
    let ghost header = out@;
    proof {
        assert(header =~= bmp_header(width as int, height as int));
    }
    let mut r: u32 = 0;
    while r < height
        invariant
            54 + width * height * 4 <= u32::MAX,
            rgba@.len() == width * height * 4,
            r <= height,
            out@.len() == 54 + 4 * (r * width),
            out@.subrange(0, 54) == header,
            header == bmp_header(width as int, height as int),
            forall|x: int, y: int, c: int|
                0 <= x < width && height - r <= y < height && 0 <= c < 4 ==> #[trigger] out@[54
                    + stored_pixel(width as int, height as int, x, y) + c] == rgba@[4 * (y * width + x)
                    + swizzle(c)],
        decreases height - r,
    {
        let y: u32 = height - 1 - r;
        let mut x: u32 = 0;
        while x < width
            invariant
                54 + width * height * 4 <= u32::MAX,
                rgba@.len() == width * height * 4,
                r < height,
                y == height - 1 - r,
                x <= width,
                out@.len() == 54 + 4 * (r * width + x),
                out@.subrange(0, 54) == header,
                forall|x2: int, y2: int, c: int|
                    0 <= x2 < width && height - r <= y2 < height && 0 <= c < 4 ==> #[trigger] out@[54
                        + stored_pixel(width as int, height as int, x2, y2) + c] == rgba@[4 * (y2 * width + x2)
                        + swizzle(c)],
                forall|x2: int, c: int|
                    0 <= x2 < x && 0 <= c < 4 ==> #[trigger] out@[54 + stored_pixel(width as int, height as int, x2, y as int) + c]
                        == rgba@[4 * (y * width + x2) + swizzle(c)],
            decreases width - x,
        {
            proof {
                lemma_grid_index(width as int, height as int, y as int, x as int);
                lemma_grid_index(width as int, height as int, r as int, x as int);
            }
            let i: usize = ((y * width + x) * 4) as usize;
            let ghost before = out@;
            out.push(rgba[i + 2]);
            out.push(rgba[i + 1]);
            out.push(rgba[i]);
            out.push(rgba[i + 3]);
            proof {
                assert(stored_pixel(width as int, height as int, x as int, y as int) == 4 * (r * width + x));
                assert forall|x2: int, y2: int, c: int|
                    0 <= x2 < width && height - r <= y2 < height && 0 <= c < 4 implies #[trigger] out@[54
                        + stored_pixel(width as int, height as int, x2, y2) + c] == rgba@[4 * (y2 * width + x2)
                        + swizzle(c)] by {
                    let rr = height - 1 - y2;
                    lemma_grid_index(width as int, height as int, rr, x2);
                    assert(rr * width + x2 + 1 <= r * width) by (nonlinear_arith)
                        requires
                            0 <= rr < r,
                            0 <= x2 < width,
                    ;
                    assert(out@[54 + stored_pixel(width as int, height as int, x2, y2) + c] == before[54
                        + stored_pixel(width as int, height as int, x2, y2) + c]);
                }
                assert(out@.subrange(0, 54) =~= before.subrange(0, 54));
            }
            x = x + 1;
        }
        proof {
            lemma_row_step(width as int, r as int);
        }
        r = r + 1;
    }
    proof {
        lemma_row_step(width as int, height as int);
    }
    out
}

/// The width, height and RGBA bytes (rows from the top) of a BMP file: the
/// width and height are read from bytes 18 and 22, the start of the pixel
/// data from byte 10; rows are stored from the bottom up, pixels as blue,
/// green, red, alpha.
pub fn decode_bmp(data: &[u8]) -> (image: (u32, u32, Vec<u8>))
    requires
        data@.len() >= 26,
        read_le32(data@, 18) * read_le32(data@, 22) * 4 <= u32::MAX,
        read_le32(data@, 10) + read_le32(data@, 18) * read_le32(data@, 22) * 4 <= data@.len(),
    ensures
        image.0 == read_le32(data@, 18),
        image.1 == read_le32(data@, 22),
        image.2@.len() == image.0 * image.1 * 4,
        forall|x: int, y: int, c: int|
            0 <= x < image.0 && 0 <= y < image.1 && 0 <= c < 4 ==> #[trigger] image.2@[4 * (y * image.0 + x)
                + c] == data@[read_le32(data@, 10) + stored_pixel(image.0 as int, image.1 as int, x, y)
                + swizzle(c)],
{
    let width: u32 = data[18] as u32 + data[19] as u32 * 0x100 + data[20] as u32 * 0x10000 + data[21] as u32 * 0x1000000;
    let height: u32 = data[22] as u32 + data[23] as u32 * 0x100 + data[24] as u32 * 0x10000 + data[25] as u32 * 0x1000000;
    let offset: usize = (data[10] as u32 + data[11] as u32 * 0x100 + data[12] as u32 * 0x10000 + data[13] as u32 * 0x1000000) as usize;
    let ghost n = width * height;
    let mut pixels: Vec<u8> = Vec::new();
    let mut y: u32 = 0;
    while y < height
        invariant
            width == read_le32(data@, 18),
            height == read_le32(data@, 22),
            offset == read_le32(data@, 10),
            width * height * 4 <= u32::MAX,
            offset + width * height * 4 <= data@.len(),
            y <= height,
            pixels@.len() == 4 * (y * width),
            forall|x: int, y2: int, c: int|
                0 <= x < width && 0 <= y2 < y && 0 <= c < 4 ==> #[trigger] pixels@[4 * (y2 * width + x) + c]
                    == data@[offset + stored_pixel(width as int, height as int, x, y2) + swizzle(c)],
        decreases height - y,
    {
        let mut x: u32 = 0;
        while x < width
            invariant
                width == read_le32(data@, 18),
                height == read_le32(data@, 22),
                offset == read_le32(data@, 10),
                width * height * 4 <= u32::MAX,
                offset + width * height * 4 <= data@.len(),
                y < height,
                x <= width,
                pixels@.len() == 4 * (y * width + x),
                forall|x2: int, y2: int, c: int|
                    0 <= x2 < width && 0 <= y2 < y && 0 <= c < 4 ==> #[trigger] pixels@[4 * (y2 * width + x2) + c]
                        == data@[offset + stored_pixel(width as int, height as int, x2, y2) + swizzle(c)],
                forall|x2: int, c: int|
                    0 <= x2 < x && 0 <= c < 4 ==> #[trigger] pixels@[4 * (y * width + x2) + c]
                        == data@[offset + stored_pixel(width as int, height as int, x2, y as int) + swizzle(c)],
            decreases width - x,
        {
            proof {
                lemma_grid_index(width as int, height as int, y as int, x as int);
                lemma_grid_index(width as int, height as int, (height - 1 - y) as int, x as int);
            }
            proof {
                assert(data@.len() == data.len());
                assert(((height - 1 - y) * width + x) * 4 + 4 <= width * height * 4);
            }
            let src: usize = offset + (((height - 1 - y) * width + x) * 4) as usize;
            let ghost before = pixels@;
            pixels.push(data[src + 2]);
            pixels.push(data[src + 1]);
            pixels.push(data[src]);
            pixels.push(data[src + 3]);
            proof {
                assert forall|x2: int, y2: int, c: int|
                    0 <= x2 < width && 0 <= y2 < y && 0 <= c < 4 implies #[trigger] pixels@[4 * (y2 * width + x2) + c]
                        == data@[offset + stored_pixel(width as int, height as int, x2, y2) + swizzle(c)] by {
                    lemma_grid_index(width as int, height as int, y2, x2);
                    assert(y2 * width + x2 + 1 <= y * width) by (nonlinear_arith)
                        requires
                            0 <= y2 < y,
                            0 <= x2 < width,
                    ;
                    assert(pixels@[4 * (y2 * width + x2) + c] == before[4 * (y2 * width + x2) + c]);
                }
            }
            x = x + 1;
        }
        proof {
            lemma_row_step(width as int, y as int);
        }
        y = y + 1;
    }
    proof {
        lemma_row_step(width as int, height as int);
    }
    (width, height, pixels)
}

proof fn lemma_le32_read(v: int)
    requires
        0 <= v < 0x1_0000_0000,
    ensures
        le32(v)[0] + le32(v)[1] * 0x100 + le32(v)[2] * 0x10000 + le32(v)[3] * 0x1000000 == v,
{
    let b0 = v % 0x100;
    let b1 = (v / 0x100) % 0x100;
    let b2 = (v / 0x10000) % 0x100;
    let b3 = (v / 0x1000000) % 0x100;
    assert(v == b0 + b1 * 0x100 + b2 * 0x10000 + b3 * 0x1000000) by {
        vstd::arithmetic::div_mod::lemma_fundamental_div_mod(v, 0x100);
        vstd::arithmetic::div_mod::lemma_fundamental_div_mod(v / 0x100, 0x100);
        vstd::arithmetic::div_mod::lemma_fundamental_div_mod(v / 0x10000, 0x100);
        vstd::arithmetic::div_mod::lemma_div_denominator(v, 0x100, 0x100);
        vstd::arithmetic::div_mod::lemma_div_denominator(v, 0x10000, 0x100);
        vstd::arithmetic::div_mod::lemma_small_mod((v / 0x1000000) as nat, 0x100);
    }
}

/// The header written for a `width` x `height` image reads, as the BMP
/// format lays it out: the signature "BM", the file size `54 + 4 * width *
/// height` at byte 2, the pixel data offset 54 at byte 10, the info header
/// size 40 at byte 14, the width at byte 18, the height at byte 22, one
/// plane at byte 26, 32 bits per pixel at byte 28, and no compression at
/// byte 30.
pub proof fn lemma_bmp_header_fields(width: u32, height: u32)
    requires
        54 + width * height * 4 <= u32::MAX,
    ensures
        ({
            let h = bmp_header(width as int, height as int);
            &&& h.len() == 54
            &&& h[0] == 0x42 && h[1] == 0x4d
            &&& read_le32(h, 2) == 54 + width * height * 4
            &&& read_le32(h, 10) == 54
            &&& read_le32(h, 14) == 40
            &&& read_le32(h, 18) == width
            &&& read_le32(h, 22) == height
            &&& h[26] + h[27] * 0x100 == 1
            &&& h[28] + h[29] * 0x100 == 32
            &&& read_le32(h, 30) == 0
        }),
{
    let size = 54 + width * height * 4;
    assert(0 <= width * height) by (nonlinear_arith);
    lemma_le32_read(size);
    lemma_le32_read(54);
    lemma_le32_read(40);
    lemma_le32_read(width as int);
    lemma_le32_read(height as int);
    lemma_le32_read(0);
}

/// A file that `encode_bmp` wrote for an image is one that `decode_bmp`
/// accepts, and it decodes to that same image.
pub proof fn lemma_bmp_round_trip(width: u32, height: u32, rgba: Seq<u8>, file: Seq<u8>)
    requires
        54 + width * height * 4 <= u32::MAX,
        rgba.len() == width * height * 4,
        file.len() == 54 + width * height * 4,
        file.subrange(0, 54) == bmp_header(width as int, height as int),
        forall|x: int, y: int, c: int|
            0 <= x < width && 0 <= y < height && 0 <= c < 4 ==> #[trigger] file[54 + stored_pixel(
                width as int,
                height as int,
                x,
                y,
            ) + c] == rgba[4 * (y * width + x) + swizzle(c)],
    ensures
        file.len() >= 26,
        read_le32(file, 18) == width,
        read_le32(file, 22) == height,
        read_le32(file, 10) == 54,
        read_le32(file, 18) * read_le32(file, 22) * 4 <= u32::MAX,
        read_le32(file, 10) + read_le32(file, 18) * read_le32(file, 22) * 4 <= file.len(),
        forall|x: int, y: int, c: int|
            0 <= x < width && 0 <= y < height && 0 <= c < 4 ==> #[trigger] file[54 + stored_pixel(
                width as int,
                height as int,
                x,
                y,
            ) + swizzle(c)] == rgba[4 * (y * width + x) + c],
{
    let h = file.subrange(0, 54);
    assert(file[10] == h[10] && file[11] == h[11] && file[12] == h[12] && file[13] == h[13]);
    assert(file[18] == h[18] && file[19] == h[19] && file[20] == h[20] && file[21] == h[21]);
    assert(file[22] == h[22] && file[23] == h[23] && file[24] == h[24] && file[25] == h[25]);
    lemma_le32_read(54);
    lemma_le32_read(width as int);
    lemma_le32_read(height as int);
    assert(h[10] == le32(54)[0] && h[11] == le32(54)[1] && h[12] == le32(54)[2] && h[13] == le32(54)[3]);
    assert(h[18] == le32(width as int)[0] && h[19] == le32(width as int)[1] && h[20] == le32(width as int)[2]
        && h[21] == le32(width as int)[3]);
    assert(h[22] == le32(height as int)[0] && h[23] == le32(height as int)[1] && h[24] == le32(height as int)[2]
        && h[25] == le32(height as int)[3]);
    assert forall|x: int, y: int, c: int|
        0 <= x < width && 0 <= y < height && 0 <= c < 4 implies #[trigger] file[54 + stored_pixel(
            width as int,
            height as int,
            x,
            y,
        ) + swizzle(c)] == rgba[4 * (y * width + x) + c] by {
        assert(swizzle(swizzle(c)) == c);
        assert(file[54 + stored_pixel(width as int, height as int, x, y) + swizzle(c)] == rgba[4 * (y * width + x)
            + swizzle(swizzle(c))]);
    }
}

} // verus!
