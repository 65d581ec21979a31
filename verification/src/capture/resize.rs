//! Area-average (box) scaling.

use super::pixels;
use super::pixels::{Raster, RgbImage};
use crate::double::Double;
use crate::rounding;
use vstd::prelude::*;

verus! {

/// How many source pixels fall to one target pixel along an edge.
pub open spec fn edge_ratio(s: int, d: int) -> real {
    rounding::rounded(s as real / d as real)
}

/// The first source pixel that target pixel `i` averages, for an edge of `s`
/// source pixels scaled to `d`.
pub open spec fn box_start(i: int, s: int, d: int) -> int {
    rounding::rounded(i as real * edge_ratio(s, d)).floor()
}

/// One past the last source pixel that target pixel `i` averages.
pub open spec fn box_end(i: int, s: int, d: int) -> int {
    let end = rounding::ceiling(rounding::rounded((i + 1) as real * edge_ratio(s, d)));
    let clipped = if end < s {
        end
    } else {
        s
    };
    if clipped < box_start(i, s, d) + 1 {
        box_start(i, s, d) + 1
    } else {
        clipped
    }
}

/// The sum of channel `c` over columns `x0..x1` of row `y`.
pub open spec fn row_sum(src: Raster, y: int, x0: int, x1: int, c: int) -> int
    decreases x1 - x0,
{
    if x1 <= x0 {
        0
    } else {
        row_sum(src, y, x0, x1 - 1, c) + src.at(x1 - 1, y, c)
    }
}

/// The sum of channel `c` over columns `x0..x1` of rows `y0..y1`.
pub open spec fn box_sum(src: Raster, x0: int, x1: int, y0: int, y1: int, c: int) -> int
    decreases y1 - y0,
{
    if y1 <= y0 {
        0
    } else {
        box_sum(src, x0, x1, y0, y1 - 1, c) + row_sum(src, y1 - 1, x0, x1, c)
    }
}

/// The average of channel `c` over a box, rounded down.
pub open spec fn box_mean(src: Raster, x0: int, x1: int, y0: int, y1: int, c: int) -> int {
    box_sum(src, x0, x1, y0, y1, c) / ((x1 - x0) * (y1 - y0))
}

/// `src` scaled to `dw` by `dh` pixels: each target pixel is the
/// average of the box of source pixels that it covers.
pub open spec fn resized(src: Raster, dw: int, dh: int) -> Raster {
    let (sw, sh) = (src.width, src.height);
    pixels::raster(
        dw,
        dh,
        |x: int, y: int, c: int|
            box_mean(
                src,
                box_start(x, sw, dw),
                box_end(x, sw, dw),
                box_start(y, sh, dh),
                box_end(y, sh, dh),
                c,
            ) as u8,
    )
}

/// Every box is a non-empty part of the edge.
pub proof fn lemma_box_inside(i: int, s: int, d: int)
    requires
        0 <= i < d,
        1 <= s <= 0x1_0000_0000,
        1 <= d <= 0x1_0000_0000,
    ensures
        0 <= box_start(i, s, d) < box_end(i, s, d) <= s,
        edge_ratio(s, d) > 0 as real,
{
    let (sr, dr, ir) = (s as real, d as real, i as real);
    let q = sr / dr;
    assert(q > 0 as real && q * dr == sr) by (nonlinear_arith)
        requires
            q == sr / dr,
            sr > 0 as real,
            dr > 0 as real,
    ;
    rounding::lemma_rounded_error(q);
    let r = edge_ratio(s, d);
    assert(ir * r >= 0 as real) by (nonlinear_arith)
        requires
            ir >= 0 as real,
            r > 0 as real,
    ;
    rounding::lemma_rounded_error(ir * r);
    let iq = ir * q;
    // the exact position of the box stays a full source pixel share before the end
    assert(iq + q <= sr) by (nonlinear_arith)
        requires
            iq == ir * q,
            q * dr == sr,
            q > 0 as real,
            ir + 1 as real <= dr,
    ;
    assert(0x20_0000_0000_0000 as real * (ir * r) <= 0x20_0000_0000_0001 as real * iq)
        by (nonlinear_arith)
        requires
            iq == ir * q,
            ir >= 0 as real,
            0x20_0000_0000_0000 as real * r <= 0x20_0000_0000_0001 as real * q,
    ;
    assert(0x1_0000_0000 as real * q >= sr) by (nonlinear_arith)
        requires
            q * dr == sr,
            q > 0 as real,
            dr <= 0x1_0000_0000 as real,
    ;
}

/// Boxes leave no source pixel between them.
pub proof fn law_boxes_have_no_gaps(i: int, s: int, d: int)
    requires
        0 <= i,
        i + 1 < d,
        1 <= s <= 0x1_0000_0000,
        d <= 0x1_0000_0000,
    ensures
        box_start(i + 1, s, d) <= box_end(i, s, d),
{
    lemma_box_inside(i + 1, s, d);
    lemma_box_inside(i, s, d);
}

/// The first box starts at the first source pixel, and the last ends at the last.
pub proof fn law_boxes_reach_both_ends(s: int, d: int)
    requires
        1 <= s <= 0x1_0000_0000,
        1 <= d <= 0x1_0000_0000,
    ensures
        box_start(0, s, d) == 0,
        box_end(d - 1, s, d) == s,
{
    lemma_box_inside(0, s, d);
    lemma_box_inside(d - 1, s, d);
    let (sr, dr) = (s as real, d as real);
    let r = edge_ratio(s, d);
    let z = 0int as real;
    assert(z * r == 0 as real) by (nonlinear_arith)
        requires
            z == 0 as real,
    ;
    let q = sr / dr;
    assert(q * dr == sr && q > 0 as real) by (nonlinear_arith)
        requires
            q == sr / dr,
            sr > 0 as real,
            dr > 0 as real,
    ;
    rounding::lemma_rounded_error(q);
    assert(dr * r >= 0 as real) by (nonlinear_arith)
        requires
            dr > 0 as real,
            r > 0 as real,
    ;
    rounding::lemma_rounded_error(dr * r);
    assert(0x1f_ffff_ffff_ffff as real * sr <= 0x20_0000_0000_0000 as real * (dr * r))
        by (nonlinear_arith)
        requires
            0x1f_ffff_ffff_ffff as real * q <= 0x20_0000_0000_0000 as real * r,
            q * dr == sr,
            dr > 0 as real,
    ;
}

/// Sums of bytes are bounded by the number of bytes.
proof fn lemma_row_sum_bounds(src: Raster, y: int, x0: int, x1: int, c: int)
    requires
        x0 <= x1,
    ensures
        0 <= row_sum(src, y, x0, x1, c) <= 255 * (x1 - x0),
    decreases x1 - x0,
{
    if x0 < x1 {
        lemma_row_sum_bounds(src, y, x0, x1 - 1, c);
    }
}

proof fn lemma_box_sum_bounds(src: Raster, x0: int, x1: int, y0: int, y1: int, c: int)
    requires
        x0 <= x1,
        y0 <= y1,
    ensures
        0 <= box_sum(src, x0, x1, y0, y1, c) <= 255 * ((x1 - x0) * (y1 - y0)),
    decreases y1 - y0,
{
    if y0 < y1 {
        lemma_box_sum_bounds(src, x0, x1, y0, y1 - 1, c);
        lemma_row_sum_bounds(src, y1 - 1, x0, x1, c);
        assert((x1 - x0) * (y1 - y0) == (x1 - x0) * (y1 - 1 - y0) + (x1 - x0)) by (nonlinear_arith);
    } else {
        assert((x1 - x0) * (y1 - y0) == 0) by (nonlinear_arith)
            requires
                y1 == y0,
        ;
    }
}

/// The source range of target pixel `i`, given the edge's ratio.
fn box_bounds(i: u32, s: u32, d: u32, ratio: Double) -> (r: (u32, u32))
    requires
        i < d,
        1 <= s,
        ratio.wf(),
        ratio.mant != 0,
        -200 <= ratio.exp <= 200,
        ratio.value() == edge_ratio(s as int, d as int),
    ensures
        r.0 == box_start(i as int, s as int, d as int),
        r.1 == box_end(i as int, s as int, d as int),
        r.0 < r.1 <= s,
{
    proof {
        lemma_box_inside(i as int, s as int, d as int);
        rounding::lemma_rounded_int(i as int);
        rounding::lemma_rounded_int(i + 1);
    }
    let start: u64 = Double::from_u64(i as u64).times(ratio).floor_to(0xffff_ffff);
    let end: u64 = Double::from_u64(i as u64 + 1).times(ratio).ceil_to(0xffff_ffff);
    let clipped: u64 = if end < s as u64 {
        end
    } else {
        s as u64
    };
    if clipped < start + 1 {
        (start as u32, (start + 1) as u32)
    } else {
        (start as u32, clipped as u32)
    }
}

/// The averages of the three channels over a box of an image.
fn box_average(src: &RgbImage, x0: u32, x1: u32, y0: u32, y1: u32) -> (r: (u8, u8, u8))
    requires
        src@.wf(),
        x0 < x1 <= src.width,
        y0 < y1 <= src.height,
        (src.height - 1) * src.width <= u32::MAX,
    ensures
        r.0 == box_mean(src@, x0 as int, x1 as int, y0 as int, y1 as int, 0),
        r.1 == box_mean(src@, x0 as int, x1 as int, y0 as int, y1 as int, 1),
        r.2 == box_mean(src@, x0 as int, x1 as int, y0 as int, y1 as int, 2),
{
    let len: usize = src.pixels.len();
    let sw: usize = src.width as usize;
    let mut red: u64 = 0;
    let mut green: u64 = 0;
    let mut blue: u64 = 0;
    let mut count: u64 = 0;
    let ghost span = x1 - x0;
    let mut y: u32 = y0;
    while y < y1
        invariant
            src@.wf(),
            len == src.pixels@.len(),
            sw == src.width,
            x0 < x1 <= src.width,
            y0 <= y <= y1 <= src.height,
            (src.height - 1) * src.width <= u32::MAX,
            span == x1 - x0,
            count == span * (y - y0),
            count <= 0x2_0000_0000,
            red == box_sum(src@, x0 as int, x1 as int, y0 as int, y as int, 0),
            green == box_sum(src@, x0 as int, x1 as int, y0 as int, y as int, 1),
            blue == box_sum(src@, x0 as int, x1 as int, y0 as int, y as int, 2),
        decreases y1 - y,
    {
        proof {
            pixels::lemma_pixel_number(sw as int, src.height as int, y as int, x1 - 1);
            lemma_count_bound(span, y1 - y0, src.width as int, src.height as int);
            lemma_count_bound(span, y + 1 - y0, src.width as int, src.height as int);
            lemma_box_sum_bounds(src@, x0 as int, x1 as int, y0 as int, y as int, 0);
            lemma_box_sum_bounds(src@, x0 as int, x1 as int, y0 as int, y as int, 1);
            lemma_box_sum_bounds(src@, x0 as int, x1 as int, y0 as int, y as int, 2);
            assert(span * (y + 1 - y0) == span * (y - y0) + span) by (nonlinear_arith);
        }
        let ghost (r0, g0, b0, n0) = (red as int, green as int, blue as int, count as int);
        let row: usize = y as usize * sw;
        let mut x: u32 = x0;
        while x < x1
            invariant
                src@.wf(),
                len == src.pixels@.len(),
                sw == src.width,
                x0 <= x <= x1 <= src.width,
                y < src.height,
                row == y * sw,
                (row + sw) * 3 <= len,
                0 <= n0,
                n0 + (x1 - x0) <= 0x2_0000_0000,
                count == n0 + (x - x0),
                0 <= r0 <= 255 * n0,
                0 <= g0 <= 255 * n0,
                0 <= b0 <= 255 * n0,
                red == r0 + row_sum(src@, y as int, x0 as int, x as int, 0),
                green == g0 + row_sum(src@, y as int, x0 as int, x as int, 1),
                blue == b0 + row_sum(src@, y as int, x0 as int, x as int, 2),
            decreases x1 - x,
        {
            proof {
                lemma_row_sum_bounds(src@, y as int, x0 as int, x as int, 0);
                lemma_row_sum_bounds(src@, y as int, x0 as int, x as int, 1);
                lemma_row_sum_bounds(src@, y as int, x0 as int, x as int, 2);
            }
            let s: usize = (row + x as usize) * 3;
            red = red + src.pixels[s] as u64;
            green = green + src.pixels[s + 1] as u64;
            blue = blue + src.pixels[s + 2] as u64;
            count = count + 1;
            x = x + 1;
        }
        y = y + 1;
    }
    proof {
        let n = span * (y1 - y0);
        assert(n > 0) by (nonlinear_arith)
            requires
                n == span * (y1 - y0),
                span > 0,
                y1 > y0,
        ;
        lemma_mean_bound(src@, x0 as int, x1 as int, y0 as int, y1 as int, 0);
        lemma_mean_bound(src@, x0 as int, x1 as int, y0 as int, y1 as int, 1);
        lemma_mean_bound(src@, x0 as int, x1 as int, y0 as int, y1 as int, 2);
    }
    ((red / count) as u8, (green / count) as u8, (blue / count) as u8)
}

/// A box of an image holds no more pixels than the image.
proof fn lemma_count_bound(span: int, rows: int, w: int, h: int)
    requires
        0 <= span <= w <= u32::MAX,
        0 <= rows <= h,
        1 <= h,
        (h - 1) * w <= u32::MAX,
    ensures
        0 <= span * rows <= 0x2_0000_0000,
{
    assert(0 <= span * rows <= w * h) by (nonlinear_arith)
        requires
            0 <= span <= w,
            0 <= rows <= h,
    ;
    assert(w * h == (h - 1) * w + w) by (nonlinear_arith);
}

/// The average of bytes is a byte.
proof fn lemma_mean_bound(src: Raster, x0: int, x1: int, y0: int, y1: int, c: int)
    requires
        x0 < x1,
        y0 < y1,
    ensures
        0 <= box_mean(src, x0, x1, y0, y1, c) <= 255,
{
    lemma_box_sum_bounds(src, x0, x1, y0, y1, c);
    let n = (x1 - x0) * (y1 - y0);
    assert(n > 0) by (nonlinear_arith)
        requires
            n == (x1 - x0) * (y1 - y0),
            x0 < x1,
            y0 < y1,
    ;
    let t = box_sum(src, x0, x1, y0, y1, c);
    assert(0 <= t / n <= 255) by (nonlinear_arith)
        requires
            n > 0,
            0 <= t <= 255 * n,
    ;
}

/// Scales an image to `dst_w` by `dst_h` pixels (each at least one) by averaging.
pub fn resize_area_average(src: &RgbImage, dst_w: u32, dst_h: u32) -> (r: RgbImage)
    requires
        src@.wf(),
        1 <= src.width,
        1 <= src.height,
        (src.height - 1) * src.width <= u32::MAX,
        super::dims::edge(dst_w as int) * super::dims::edge(dst_h as int) <= u32::MAX + 1,
        super::dims::edge(dst_w as int) * super::dims::edge(dst_h as int) * 3 <= isize::MAX,
    ensures
        r@.wf(),
        r@ == resized(
            src@,
            super::dims::edge(dst_w as int),
            super::dims::edge(dst_h as int),
        ),
{
    let dw: u32 = if dst_w < 1 {
        1
    } else {
        dst_w
    };
    let dh: u32 = if dst_h < 1 {
        1
    } else {
        dst_h
    };
    let sw: u32 = src.width;
    let sh: u32 = src.height;
    proof {
        rounding::lemma_rounded_int(sw as int);
        rounding::lemma_rounded_int(sh as int);
        rounding::lemma_rounded_int(dw as int);
        rounding::lemma_rounded_int(dh as int);
    }
    let x_ratio = Double::from_u64(sw as u64).over(Double::from_u64(dw as u64));
    let y_ratio = Double::from_u64(sh as u64).over(Double::from_u64(dh as u64));
    let ghost f = |x: int, y: int, c: int|
        box_mean(
            src@,
            box_start(x, sw as int, dw as int),
            box_end(x, sw as int, dw as int),
            box_start(y, sh as int, dh as int),
            box_end(y, sh as int, dh as int),
            c,
        ) as u8;
    let ghost image = pixels::raster(dw as int, dh as int, f).bytes;
    let mut out: Vec<u8> = Vec::new();
    let mut dy: u32 = 0;
    while dy < dh
        invariant
            src@.wf(),
            sw == src.width,
            sh == src.height,
            1 <= sw,
            1 <= sh,
            1 <= dw,
            1 <= dh,
            (src.height - 1) * src.width <= u32::MAX,
            dy <= dh,
            x_ratio.wf(),
            x_ratio.mant != 0,
            -200 <= x_ratio.exp <= 200,
            x_ratio.value() == edge_ratio(sw as int, dw as int),
            y_ratio.wf(),
            y_ratio.mant != 0,
            -200 <= y_ratio.exp <= 200,
            y_ratio.value() == edge_ratio(sh as int, dh as int),
            f == (|x: int, y: int, c: int|
                box_mean(
                    src@,
                    box_start(x, sw as int, dw as int),
                    box_end(x, sw as int, dw as int),
                    box_start(y, sh as int, dh as int),
                    box_end(y, sh as int, dh as int),
                    c,
                ) as u8),
            image == pixels::raster(dw as int, dh as int, f).bytes,
            out@.len() == dy * dw * 3,
            out@ == image.take(dy * dw * 3),
        decreases dh - dy,
    {
        let (sy0, sy1): (u32, u32) = box_bounds(dy, sh, dh, y_ratio);
        let mut dx: u32 = 0;
        while dx < dw
            invariant
                src@.wf(),
                sw == src.width,
                sh == src.height,
                1 <= sw,
                1 <= dw,
                1 <= dh,
                (src.height - 1) * src.width <= u32::MAX,
                dy < dh,
                dx <= dw,
                sy0 == box_start(dy as int, sh as int, dh as int),
                sy1 == box_end(dy as int, sh as int, dh as int),
                sy0 < sy1 <= sh,
                x_ratio.wf(),
                x_ratio.mant != 0,
                -200 <= x_ratio.exp <= 200,
                x_ratio.value() == edge_ratio(sw as int, dw as int),
                f == (|x: int, y: int, c: int|
                    box_mean(
                        src@,
                        box_start(x, sw as int, dw as int),
                        box_end(x, sw as int, dw as int),
                        box_start(y, sh as int, dh as int),
                        box_end(y, sh as int, dh as int),
                        c,
                    ) as u8),
                image == pixels::raster(dw as int, dh as int, f).bytes,
                out@.len() == (dy * dw + dx) * 3,
                out@ == image.take((dy * dw + dx) * 3),
            decreases dw - dx,
        {
            let (sx0, sx1): (u32, u32) = box_bounds(dx, sw, dw, x_ratio);
            let (red, green, blue): (u8, u8, u8) = box_average(src, sx0, sx1, sy0, sy1);
            let ghost p = dy * dw + dx;
            out.push(red);
            out.push(green);
            out.push(blue);
            proof {
                pixels::lemma_pixel_number(dw as int, dh as int, dy as int, dx as int);
                pixels::lemma_raster_at(dw as int, dh as int, f, dx as int, dy as int, 0);
                pixels::lemma_raster_at(dw as int, dh as int, f, dx as int, dy as int, 1);
                pixels::lemma_raster_at(dw as int, dh as int, f, dx as int, dy as int, 2);
                assert(out@ =~= image.take((p + 1) * 3));
            }
            dx = dx + 1;
        }
        proof {
            assert((dy + 1) * dw == dy * dw + dw) by (nonlinear_arith);
        }
        dy = dy + 1;
    }
    proof {
        assert(dh * dw == dw * dh) by (nonlinear_arith);
        assert(image.take(image.len() as int) =~= image);
        assert(image =~= resized(src@, dw as int, dh as int).bytes);
    }
    RgbImage { width: dw, height: dh, pixels: out }
}

proof fn lemma_row_sum_range(src: Raster, y: int, x0: int, x1: int, c: int, lo: u8, hi: u8)
    requires
        x0 <= x1,
        forall|x: int| x0 <= x < x1 ==> lo <= #[trigger] src.at(x, y, c) <= hi,
    ensures
        lo * (x1 - x0) <= row_sum(src, y, x0, x1, c) <= hi * (x1 - x0),
    decreases x1 - x0,
{
    let n = x1 - x0;
    if x0 < x1 {
        lemma_row_sum_range(src, y, x0, x1 - 1, c, lo, hi);
        let v = src.at(x1 - 1, y, c);
        assert(lo * n == lo * (n - 1) + lo) by (nonlinear_arith);
        assert(hi * n == hi * (n - 1) + hi) by (nonlinear_arith);
    } else {
        assert(lo * n == 0 && hi * n == 0) by (nonlinear_arith)
            requires
                n == 0,
        ;
    }
}

proof fn lemma_box_sum_range(
    src: Raster,
    x0: int,
    x1: int,
    y0: int,
    y1: int,
    c: int,
    lo: u8,
    hi: u8,
)
    requires
        x0 <= x1,
        y0 <= y1,
        forall|x: int, y: int|
            x0 <= x < x1 && y0 <= y < y1 ==> lo <= #[trigger] src.at(x, y, c) <= hi,
    ensures
        lo * ((x1 - x0) * (y1 - y0)) <= box_sum(src, x0, x1, y0, y1, c) <= hi * ((x1 - x0) * (y1
            - y0)),
    decreases y1 - y0,
{
    let (n, m) = (x1 - x0, y1 - y0);
    if y0 < y1 {
        lemma_box_sum_range(src, x0, x1, y0, y1 - 1, c, lo, hi);
        lemma_row_sum_range(src, y1 - 1, x0, x1, c, lo, hi);
        assert(lo * (n * m) == lo * (n * (m - 1)) + lo * n) by (nonlinear_arith);
        assert(hi * (n * m) == hi * (n * (m - 1)) + hi * n) by (nonlinear_arith);
    } else {
        assert(lo * (n * m) == 0 && hi * (n * m) == 0) by (nonlinear_arith)
            requires
                m == 0,
        ;
    }
}

/// Scaling adds no brightness: where a channel of the source stays between two
/// values, so does it in the scaled image. A solid image stays solid.
pub proof fn law_scaling_stays_in_range(
    src: Raster,
    dw: int,
    dh: int,
    c: int,
    lo: u8,
    hi: u8,
    x: int,
    y: int,
)
    requires
        src.wf(),
        1 <= src.width <= u32::MAX,
        1 <= src.height <= u32::MAX,
        0 <= x < dw <= 0x1_0000_0000,
        0 <= y < dh <= 0x1_0000_0000,
        0 <= c < 3,
        forall|i: int, j: int|
            0 <= i < src.width && 0 <= j < src.height ==> lo <= #[trigger] src.at(i, j, c) <= hi,
    ensures
        lo <= resized(src, dw, dh).at(x, y, c) <= hi,
{
    let (sw, sh) = (src.width, src.height);
    lemma_box_inside(x, sw, dw);
    lemma_box_inside(y, sh, dh);
    let (x0, x1) = (box_start(x, sw, dw), box_end(x, sw, dw));
    let (y0, y1) = (box_start(y, sh, dh), box_end(y, sh, dh));
    lemma_box_sum_range(src, x0, x1, y0, y1, c, lo, hi);
    let f = |x: int, y: int, c: int|
        box_mean(
            src,
            box_start(x, sw, dw),
            box_end(x, sw, dw),
            box_start(y, sh, dh),
            box_end(y, sh, dh),
            c,
        ) as u8;
    pixels::lemma_raster_at(dw, dh, f, x, y, c);
    lemma_mean_bound(src, x0, x1, y0, y1, c);
    let n = (x1 - x0) * (y1 - y0);
    let t = box_sum(src, x0, x1, y0, y1, c);
    assert(n > 0) by (nonlinear_arith)
        requires
            n == (x1 - x0) * (y1 - y0),
            x0 < x1,
            y0 < y1,
    ;
    assert(lo <= t / n <= hi) by (nonlinear_arith)
        requires
            n > 0,
            lo * n <= t <= hi * n,
    ;
}

/// At the source's own size each box is the pixel itself.
proof fn lemma_same_size_box(i: int, s: int)
    requires
        0 <= i < s <= 0x1_0000_0000,
    ensures
        box_start(i, s, s) == i,
        box_end(i, s, s) == i + 1,
{
    let sr = s as real;
    assert(sr / sr == 1 as real) by (nonlinear_arith)
        requires
            sr > 0 as real,
    ;
    rounding::lemma_rounded_int(1);
    rounding::lemma_rounded_int(i);
    rounding::lemma_rounded_int(i + 1);
    let (a, b) = (i as real, (i + 1) as real);
    assert(a * (1 as real) == a) by (nonlinear_arith);
    assert(b * (1 as real) == b) by (nonlinear_arith);
}

/// Scaling an image to its own size changes nothing.
pub proof fn law_scaling_to_same_size_is_identity(src: Raster)
    requires
        src.wf(),
        src.width <= u32::MAX,
        src.height <= u32::MAX,
    ensures
        resized(src, src.width, src.height) == src,
{
    let (w, h) = (src.width, src.height);
    let out = resized(src, w, h).bytes;
    assert forall|i: int| 0 <= i < out.len() implies out[i] == src.bytes[i] by {
        let p = i / 3;
        let c = i % 3;
        assert(0 < w && 0 <= p < w * h) by (nonlinear_arith)
            requires
                0 <= w,
                p == i / 3,
                0 <= i < w * h * 3,
        ;
        let x = p % w;
        let y = p / w;
        assert(0 <= x < w && 0 <= y < h && p == y * w + x) by (nonlinear_arith)
            requires
                0 < w,
                0 <= p < w * h,
                x == p % w,
                y == p / w,
        ;
        lemma_same_size_box(x, w);
        lemma_same_size_box(y, h);
        reveal_with_fuel(box_sum, 2);
        reveal_with_fuel(row_sum, 2);
        assert(box_sum(src, x, x + 1, y, y + 1, c) == src.at(x, y, c));
        assert((x + 1 - x) * (y + 1 - y) == 1) by (nonlinear_arith);
    }
    assert(out =~= src.bytes);
}

/// The sum of `k` bytes that lie three apart, from `at` on: one channel of `k` pixels side by
/// side.
pub open spec fn line_total(bytes: Seq<u8>, at: int, k: nat) -> int
    decreases k,
{
    if k == 0 {
        0
    } else {
        bytes[at] + line_total(bytes, at + 3, (k - 1) as nat)
    }
}

/// The sum of one channel over a block of `k` by `l` pixels of an image of the given width,
/// whose first byte is at `at`.
pub open spec fn block_total(bytes: Seq<u8>, width: int, at: int, k: nat, l: nat) -> int
    decreases l,
{
    if l == 0 {
        0
    } else {
        line_total(bytes, at, k) + block_total(bytes, width, at + 3 * width, k, (l - 1) as nat)
    }
}

proof fn lemma_line_end(bytes: Seq<u8>, at: int, k: nat)
    requires
        k > 0,
    ensures
        line_total(bytes, at, k) == line_total(bytes, at, (k - 1) as nat) + bytes[at + 3 * (k - 1)],
    decreases k,
{
    if k > 1 {
        lemma_line_end(bytes, at + 3, (k - 1) as nat);
        assert(at + 3 + 3 * (k - 2) == at + 3 * (k - 1));
    } else {
        assert(line_total(bytes, at, 0) == 0);
        assert(line_total(bytes, at + 3, 0) == 0);
    }
}

proof fn lemma_block_end(bytes: Seq<u8>, width: int, at: int, k: nat, l: nat)
    requires
        l > 0,
    ensures
        block_total(bytes, width, at, k, l) == block_total(bytes, width, at, k, (l - 1) as nat)
            + line_total(bytes, at + 3 * ((l - 1) * width), k),
    decreases l,
{
    if l > 1 {
        lemma_block_end(bytes, width, at + 3 * width, k, (l - 1) as nat);
        assert((l - 1) * width == width + (l - 2) * width) by (nonlinear_arith);
    } else {
        assert((l - 1) * width == 0) by (nonlinear_arith)
            requires
                l == 1,
        ;
        assert(block_total(bytes, width, at, k, 0) == 0);
        assert(block_total(bytes, width, at + 3 * width, k, 0) == 0);
    }
}

proof fn lemma_line_is_row(src: Raster, y: int, x0: int, k: nat, c: int)
    ensures
        row_sum(src, y, x0, x0 + k, c) == line_total(
            src.bytes,
            (y * src.width + x0) * 3 + c,
            k,
        ),
    decreases k,
{
    if k > 0 {
        lemma_line_is_row(src, y, x0, (k - 1) as nat, c);
        lemma_line_end(src.bytes, (y * src.width + x0) * 3 + c, k);
        assert((y * src.width + (x0 + k - 1)) * 3 + c == (y * src.width + x0) * 3 + c + 3 * (k - 1));
    }
}

proof fn lemma_block_is_box(src: Raster, x0: int, k: nat, y0: int, l: nat, c: int)
    ensures
        box_sum(src, x0, x0 + k, y0, y0 + l, c) == block_total(
            src.bytes,
            src.width,
            (y0 * src.width + x0) * 3 + c,
            k,
            l,
        ),
    decreases l,
{
    if l > 0 {
        lemma_block_is_box(src, x0, k, y0, (l - 1) as nat, c);
        lemma_block_end(src.bytes, src.width, (y0 * src.width + x0) * 3 + c, k, l);
        lemma_line_is_row(src, y0 + l - 1, x0, k, c);
        assert((y0 + l - 1) * src.width == y0 * src.width + (l - 1) * src.width)
            by (nonlinear_arith);
    }
}

/// A scaled pixel is the average of a block of source pixels, rounded down: the byte times
/// the number of pixels is not above their sum, and one more would be. The block goes from
/// the start of the pixel's box to its end, along both edges.
pub proof fn law_scaled_pixels_are_averages(
    src: RgbImage,
    out: RgbImage,
    x: int,
    y: int,
    c: int,
)
    requires
        src@.wf(),
        1 <= src.width,
        1 <= src.height,
        out@ == resized(src@, out.width as int, out.height as int),
        0 <= x < out.width,
        0 <= y < out.height,
        0 <= c < 3,
    ensures
        ({
            let (sw, sh) = (src.width as int, src.height as int);
            let (dw, dh) = (out.width as int, out.height as int);
            let (left, top) = (box_start(x, sw, dw), box_start(y, sh, dh));
            let (k, l) = (box_end(x, sw, dw) - left, box_end(y, sh, dh) - top);
            let total = block_total(
                src.pixels@,
                sw,
                (top * sw + left) * 3 + c,
                k as nat,
                l as nat,
            );
            let byte = out.pixels@[(y * dw + x) * 3 + c];
            &&& 1 <= k
            &&& 1 <= l
            &&& byte * (k * l) <= total < (byte + 1) * (k * l)
        }),
{
    let (sw, sh) = (src.width as int, src.height as int);
    let (dw, dh) = (out.width as int, out.height as int);
    lemma_box_inside(x, sw, dw);
    lemma_box_inside(y, sh, dh);
    let (x0, x1) = (box_start(x, sw, dw), box_end(x, sw, dw));
    let (y0, y1) = (box_start(y, sh, dh), box_end(y, sh, dh));
    let f = |x: int, y: int, c: int|
        box_mean(
            src@,
            box_start(x, sw, dw),
            box_end(x, sw, dw),
            box_start(y, sh, dh),
            box_end(y, sh, dh),
            c,
        ) as u8;
    assert(resized(src@, dw, dh) == pixels::raster(dw, dh, f));
    pixels::lemma_raster_at(dw, dh, f, x, y, c);
    lemma_mean_bound(src@, x0, x1, y0, y1, c);
    let (k, l) = ((x1 - x0) as nat, (y1 - y0) as nat);
    lemma_block_is_box(src@, x0, k, y0, l, c);
    let n = (x1 - x0) * (y1 - y0);
    let t = box_sum(src@, x0, x1, y0, y1, c);
    let m = t / n;
    assert(n > 0) by (nonlinear_arith)
        requires
            n == (x1 - x0) * (y1 - y0),
            x0 < x1,
            y0 < y1,
    ;
    assert(m * n <= t < (m + 1) * n) by (nonlinear_arith)
        requires
            n > 0,
            m == t / n,
    ;
}

/// A scaled image has the size that it is scaled to, three bytes a pixel.
pub proof fn law_scaled_size(src: Raster, dw: int, dh: int)
    requires
        0 <= dw,
        0 <= dh,
    ensures
        resized(src, dw, dh).width == dw,
        resized(src, dw, dh).height == dh,
        resized(src, dw, dh).bytes.len() == dw * dh * 3,
{
    assert(dw * dh >= 0) by (nonlinear_arith)
        requires
            0 <= dw,
            0 <= dh,
    ;
}

/// Where boxes lie: the box of target pixel `i` starts within a pixel of the exact place
/// `i * s / d` and ends within two of the exact place `(i + 1) * s / d`, so pixels keep their
/// order along the edge and none is averaged with what is far from it.
pub proof fn law_boxes_lie_in_place(i: int, s: int, d: int)
    requires
        0 <= i < d,
        1 <= s <= 0x1_0000_0000,
        1 <= d <= 0x1_0000_0000,
    ensures
        (box_start(i, s, d) - 1) * d <= i * s <= (box_start(i, s, d) + 2) * d,
        (box_end(i, s, d) - 2) * d <= (i + 1) * s <= (box_end(i, s, d) + 1) * d,
{
    lemma_box_inside(i, s, d);
    lemma_place(i, s, d);
    lemma_place(i + 1, s, d);
    let (start, end) = (box_start(i, s, d), box_end(i, s, d));
    let a = rounding::rounded(i as real * edge_ratio(s, d));
    let b = rounding::rounded((i + 1) as real * edge_ratio(s, d));
    let dr = d as real;
    let (p, q) = ((i * s) as real, ((i + 1) * s) as real);
    rounding::lemma_cast_mul(start - 1, d);
    rounding::lemma_cast_mul(start + 2, d);
    rounding::lemma_cast_mul(end - 2, d);
    rounding::lemma_cast_mul(end + 1, d);
    let (sr, er) = (start as real, end as real);
    assert(sr <= a && a < sr + 1 as real);
    assert((sr - 1 as real) * dr <= p && p <= (sr + 2 as real) * dr) by (nonlinear_arith)
        requires
            sr <= a,
            a < sr + 1 as real,
            dr >= 1 as real,
            a * dr - dr <= p,
            p <= a * dr + dr,
    ;
    assert((i + 1) * s == i * s + s) by (nonlinear_arith);
    assert((i + 1) * s <= d * s) by (nonlinear_arith)
        requires
            i + 1 <= d,
            s >= 1,
    ;
    let e = rounding::ceiling(b);
    assert(e as real >= b && b > e as real - 1 as real);
    if end == e {
        assert((er - 2 as real) * dr <= q && q <= (er + 1 as real) * dr) by (nonlinear_arith)
            requires
                er - 1 as real <= b,
                b <= er,
                dr >= 1 as real,
                b * dr - dr <= q,
                q <= b * dr + dr,
        ;
    } else if end == s {
        rounding::lemma_cast_mul(d, s);
        assert((end + 1) * d >= (i + 1) * s) by (nonlinear_arith)
            requires
                end == s,
                (i + 1) * s <= d * s,
                d >= 1,
        ;
        if s <= e {
            assert((er - 2 as real) * dr <= q) by (nonlinear_arith)
                requires
                    er <= e as real,
                    e as real - 1 as real <= b,
                    dr >= 1 as real,
                    b * dr - dr <= q,
            ;
        } else {
            assert(end == start + 1);
            lemma_end_after_start(start, i, s, d);
        }
    } else {
        assert(end == start + 1);
        lemma_end_after_start(start, i, s, d);
        assert(e <= start);
        assert(q <= (er + 1 as real) * dr) by (nonlinear_arith)
            requires
                b <= e as real,
                e as real <= er,
                dr >= 1 as real,
                q <= b * dr + dr,
        ;
    }
}

proof fn lemma_end_after_start(start: int, i: int, s: int, d: int)
    requires
        (start - 1) * d <= i * s,
        s >= 1,
        d >= 1,
    ensures
        (start + 1 - 2) * d <= (i + 1) * s,
{
    assert((i + 1) * s == i * s + s) by (nonlinear_arith);
}

/// A place on the edge in double precision is less than a pixel off.
proof fn lemma_place(i: int, s: int, d: int)
    requires
        0 <= i <= d,
        1 <= s <= 0x1_0000_0000,
        1 <= d <= 0x1_0000_0000,
    ensures
        ({
            let a = rounding::rounded(i as real * edge_ratio(s, d));
            let p = (i * s) as real;
            a >= 0 as real && a * d as real - d as real <= p && p <= a * d as real + d as real
        }),
{
    let (ir, sr, dr) = (i as real, s as real, d as real);
    let q = sr / dr;
    assert(q * dr == sr && q > 0 as real) by (nonlinear_arith)
        requires
            q == sr / dr,
            sr > 0 as real,
            dr > 0 as real,
    ;
    rounding::lemma_rounded_error(q);
    let r = edge_ratio(s, d);
    let v = ir * r;
    let u = ir * q;
    let k = 0x20_0000_0000_0000 as real;
    let over = 0x20_0000_0000_0001 as real;
    let under = 0x1f_ffff_ffff_ffff as real;
    assert(v >= 0 as real && k * v <= over * u && under * u <= k * v) by (nonlinear_arith)
        requires
            v == ir * r,
            u == ir * q,
            ir >= 0 as real,
            r >= 0 as real,
            k * r <= over * q,
            under * q <= k * r,
    ;
    rounding::lemma_rounded_error(v);
    let a = rounding::rounded(v);
    rounding::lemma_cast_mul(i, s);
    let p = (i * s) as real;
    assert(u * dr == p && 0 as real <= u && u <= sr) by (nonlinear_arith)
        requires
            u == ir * q,
            q * dr == sr,
            p == ir * sr,
            0 as real <= ir,
            ir <= dr,
            q > 0 as real,
    ;
    assert(a - u <= 1 as real && u - a <= 1 as real);
    assert(a * dr - dr <= p && p <= a * dr + dr) by (nonlinear_arith)
        requires
            a - u <= 1 as real,
            u - a <= 1 as real,
            u * dr == p,
            dr >= 1 as real,
    ;
}

/// A whole ratio times a whole number is exact.
proof fn lemma_whole_place(i: int, k: int, e: real, p: int)
    requires
        0 <= i,
        0 <= k,
        p == i * k,
        p <= 0xffff_ffff,
        e == k as real,
    ensures
        rounding::rounded(i as real * e) == p as real,
        rounding::rounded(i as real * e).floor() == p,
        rounding::ceiling(rounding::rounded(i as real * e)) == p,
{
    rounding::lemma_cast_mul(i, k);
    let (ir, kr, pr) = (i as real, k as real, p as real);
    assert(p >= 0) by (nonlinear_arith)
        requires
            p == i * k,
            0 <= i,
            0 <= k,
    ;
    rounding::lemma_rounded_int(p);
    assert(ir * e == pr) by (nonlinear_arith)
        requires
            pr == ir * kr,
            e == kr,
    ;
}

proof fn lemma_whole_ratio_box(i: int, k: int, d: int, s: int)
    requires
        0 <= i < d,
        1 <= k,
        s == k * d,
        s <= 0xffff_ffff,
    ensures
        box_start(i, s, d) == i * k,
        box_end(i, s, d) == (i + 1) * k,
{
    let (kr, dr, sr) = (k as real, d as real, s as real);
    rounding::lemma_cast_mul(k, d);
    assert(sr / dr == kr) by (nonlinear_arith)
        requires
            sr == kr * dr,
            dr > 0 as real,
    ;
    assert(k <= s && 0 <= i * k && (i + 1) * k <= s && (i + 1) * k == i * k + k)
        by (nonlinear_arith)
        requires
            s == k * d,
            1 <= k,
            0 <= i < d,
    ;
    rounding::lemma_rounded_int(k);
    lemma_whole_place(i, k, edge_ratio(s, d), i * k);
    lemma_whole_place(i + 1, k, edge_ratio(s, d), (i + 1) * k);
}

/// Scaling down by whole factors averages whole blocks: where the source is `k` times as wide
/// and `l` times as high, target pixel `(x, y)` is the average, rounded down, of the `k` by
/// `l` source pixels that start at `(x * k, y * l)`.
pub proof fn law_whole_factors_average_blocks(
    src: RgbImage,
    out: RgbImage,
    k: int,
    l: int,
    x: int,
    y: int,
    c: int,
)
    requires
        src@.wf(),
        1 <= k,
        1 <= l,
        src.width == k * out.width,
        src.height == l * out.height,
        out@ == resized(src@, out.width as int, out.height as int),
        0 <= x < out.width,
        0 <= y < out.height,
        0 <= c < 3,
    ensures
        ({
            let total = block_total(
                src.pixels@,
                src.width as int,
                (y * l * src.width + x * k) * 3 + c,
                k as nat,
                l as nat,
            );
            let byte = out.pixels@[(y * out.width + x) * 3 + c];
            byte * (k * l) <= total < (byte + 1) * (k * l)
        }),
{
    let (dw, dh) = (out.width as int, out.height as int);
    assert(k * dw >= 1 && l * dh >= 1) by (nonlinear_arith)
        requires
            k >= 1,
            l >= 1,
            dw >= 1,
            dh >= 1,
    ;
    lemma_whole_ratio_box(x, k, dw, src.width as int);
    lemma_whole_ratio_box(y, l, dh, src.height as int);
    assert((x + 1) * k == x * k + k && (y + 1) * l == y * l + l) by (nonlinear_arith);
    law_scaled_pixels_are_averages(src, out, x, y, c);
}

} // verus!
