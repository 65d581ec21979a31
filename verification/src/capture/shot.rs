//! The two capture commands, from the pixels of an output to the reported image.

use super::dims;
use super::encode;
use super::error::CaptureError;
use super::pixels;
use super::pixels::RgbImage;
use super::resize;
use crate::double::Double;
use crate::output::{ScreenshotCapture, ScreenshotResult};
use crate::rounding;
use crate::screens;
use crate::screens::OutputGeometry;
use vstd::prelude::*;

verus! {

/// An image that can be scaled down: it has pixels, and its last row starts at a
/// 32-bit pixel number.
pub open spec fn capturable(rgb: &RgbImage) -> bool {
    &&& rgb@.wf()
    &&& 1 <= rgb.width
    &&& 1 <= rgb.height
    &&& (rgb.height - 1) * rgb.width <= u32::MAX
}

/// What the caps on the encoded size mean for scaling: the target is always small
/// enough to be built.
proof fn lemma_target_is_small(w: u32, h: u32)
    ensures
        ({
            let t = dims::target_dims(w as int, h as int);
            &&& 1 <= t.0 <= 1568
            &&& 1 <= t.1 <= 1568
            &&& t.0 * t.1 <= 1568 * 1568
        }),
{
    dims::law_never_enlarges(w, h);
    dims::law_long_edge_is_capped(w, h);
    let t = dims::target_dims(w as int, h as int);
    assert(t.0 * t.1 <= 1568 * 1568) by (nonlinear_arith)
        requires
            1 <= t.0 <= 1568,
            1 <= t.1 <= 1568,
    ;
}

/// Encodes an image at the size that the caps give it.
fn encode_capped(rgb: &RgbImage) -> (r: Result<ScreenshotCapture, CaptureError>)
    requires
        capturable(rgb),
    ensures
        encode::reports_image(r, rgb@, dims::target_dims(rgb.width as int, rgb.height as int)),
{
    let target: (u32, u32) = dims::compute_target_dims(rgb.width, rgb.height);
    proof {
        lemma_target_is_small(rgb.width, rgb.height);
    }
    encode::encode_resized_jpeg_base64(rgb, target)
}

/// The report says where the output lies.
pub open spec fn places(shot: ScreenshotResult, geom: &OutputGeometry) -> bool {
    let rect = geom.logical_rect();
    &&& shot.display_width == pixels::at_least_zero(rect.width as int)
    &&& shot.display_height == pixels::at_least_zero(rect.height as int)
    &&& shot.display_id@ == geom.display_name()
    &&& shot.origin_x == rect.x
    &&& shot.origin_y == rect.y
}

/// Reports a captured output: the encoded image, and where the output lies.
pub fn screenshot(geom: &OutputGeometry, rgb: &RgbImage) -> (r: Result<
    ScreenshotResult,
    CaptureError,
>)
    requires
        capturable(rgb),
    ensures
        encode::reports_image(
            match r {
                Ok(s) => Ok(
                    ScreenshotCapture { base64: s.base64, width: s.width, height: s.height },
                ),
                Err(e) => Err(e),
            },
            rgb@,
            dims::target_dims(rgb.width as int, rgb.height as int),
        ),
        r is Ok ==> places(r->Ok_0, geom),
{
    let screen = screens::to_screen(geom, true);
    match encode_capped(rgb) {
        Ok(encoded) => Ok(
            ScreenshotResult {
                base64: encoded.base64,
                width: encoded.width,
                height: encoded.height,
                display_width: pixels::clamp_to_zero(screen.geometry.width),
                display_height: pixels::clamp_to_zero(screen.geometry.height),
                display_id: screen.id,
                origin_x: screen.geometry.x,
                origin_y: screen.geometry.y,
            },
        ),
        Err(e) => Err(e),
    }
}

/// How many buffer pixels a logical pixel spans along an edge.
pub open spec fn buffer_scale(physical: int, logical: int) -> real {
    rounding::rounded(physical as real / dims::edge(logical) as real)
}

/// A logical length in buffer pixels, at most the largest 32-bit integer.
pub open spec fn buffer_length(n: int, scale: real) -> int {
    let exact = rounding::round_half_up(rounding::rounded(n as real * scale));
    if exact <= i32::MAX {
        exact
    } else {
        i32::MAX as int
    }
}

/// The region of the buffer that a logical region of an output covers: left, top,
/// width and height.
pub open spec fn buffer_region(
    geom: &OutputGeometry,
    phys_w: int,
    phys_h: int,
    x: int,
    y: int,
    w: int,
    h: int,
) -> (int, int, int, int) {
    let rect = geom.logical_rect();
    let sx = buffer_scale(phys_w, rect.width as int);
    let sy = buffer_scale(phys_h, rect.height as int);
    (
        buffer_length(pixels::at_least_zero(x), sx),
        buffer_length(pixels::at_least_zero(y), sy),
        buffer_length(w, sx),
        buffer_length(h, sy),
    )
}

/// The ratio of a buffer edge to a logical edge.
fn edge_scale(physical: u32, logical: i32) -> (r: Double)
    ensures
        r.wf(),
        r.value() == buffer_scale(physical as int, logical as int),
        r.mant != 0 ==> -200 <= r.exp <= 200,
{
    let by: u64 = if logical < 1 {
        1
    } else {
        logical as u64
    };
    proof {
        rounding::lemma_rounded_int(physical as int);
        rounding::lemma_rounded_int(by as int);
    }
    Double::from_u64(physical as u64).over(Double::from_u64(by))
}

/// A logical length in buffer pixels.
fn scale_length(n: u32, scale: Double) -> (r: i32)
    requires
        scale.wf(),
        scale.mant != 0 ==> -200 <= scale.exp <= 200,
    ensures
        r == buffer_length(n as int, scale.value()),
        r >= 0,
{
    proof {
        rounding::lemma_rounded_int(n as int);
    }
    Double::from_u64(n as u64).times(scale).round_to(0x7fff_ffff) as i32
}

/// Converts a logical region of an output to buffer pixels, so that a
/// fractional-scaled output is cropped where it was asked for.
pub fn zoom_region(
    geom: &OutputGeometry,
    phys_w: u32,
    phys_h: u32,
    x: i32,
    y: i32,
    w: u32,
    h: u32,
) -> (r: (i32, i32, i32, i32))
    ensures
        (r.0 as int, r.1 as int, r.2 as int, r.3 as int) == buffer_region(
            geom,
            phys_w as int,
            phys_h as int,
            x as int,
            y as int,
            w as int,
            h as int,
        ),
        r.0 >= 0,
        r.1 >= 0,
        r.2 >= 0,
        r.3 >= 0,
{
    let screen = screens::to_screen(geom, true);
    let sx = edge_scale(phys_w, screen.geometry.width);
    let sy = edge_scale(phys_h, screen.geometry.height);
    (
        scale_length(pixels::clamp_to_zero(x), sx),
        scale_length(pixels::clamp_to_zero(y), sy),
        scale_length(w, sx),
        scale_length(h, sy),
    )
}

/// Whether a region may be asked for: its width and height are positive.
pub fn check_region(w: i32, h: i32) -> (r: Result<(), CaptureError>)
    ensures
        r == (if w <= 0 || h <= 0 {
            Err::<(), CaptureError>(CaptureError::EmptyRegion)
        } else {
            Ok(())
        }),
{
    if w <= 0 || h <= 0 {
        Err(CaptureError::EmptyRegion)
    } else {
        Ok(())
    }
}

/// The part of a captured output that a logical region covers, where it covers any: the
/// region is positive and meets the capture.
pub open spec fn zoomed_part(
    geom: &OutputGeometry,
    rgb: pixels::Raster,
    x: int,
    y: int,
    w: int,
    h: int,
) -> Option<pixels::Raster> {
    let (px, py, pw, ph) = buffer_region(geom, rgb.width, rgb.height, x, y, w, h);
    if w > 0 && h > 0 && rgb.meets(px, py, pw, ph) {
        Some(rgb.cropped(px, py, pw, ph))
    } else {
        None
    }
}

/// `r` reports a logical region of a captured output, or why there is nothing to report.
pub open spec fn zooms(
    r: Result<ScreenshotCapture, CaptureError>,
    geom: &OutputGeometry,
    rgb: &RgbImage,
    x: i32,
    y: i32,
    w: i32,
    h: i32,
) -> bool {
    match zoomed_part(geom, rgb@, x as int, y as int, w as int, h as int) {
        Some(part) => encode::reports_image(r, part, dims::target_dims(part.width, part.height)),
        None => r == Err::<ScreenshotCapture, CaptureError>(
            if w <= 0 || h <= 0 {
                CaptureError::EmptyRegion
            } else {
                CaptureError::RegionOutside
            },
        ),
    }
}

/// Reports the logical region `(x, y, w, h)` of a captured output. Coordinates are
/// relative to the output's top left corner.
pub fn zoom(geom: &OutputGeometry, rgb: &RgbImage, x: i32, y: i32, w: i32, h: i32) -> (r: Result<
    ScreenshotCapture,
    CaptureError,
>)
    requires
        rgb@.wf(),
        zoomed_part(geom, rgb@, x as int, y as int, w as int, h as int) matches Some(part) ==> (
        part.height - 1) * part.width <= u32::MAX,
    ensures
        zooms(r, geom, rgb, x, y, w, h),
{
    match check_region(w, h) {
        Ok(_) => {},
        Err(e) => {
            return Err(e);
        },
    }
    let (px, py, pw, ph): (i32, i32, i32, i32) = zoom_region(
        geom,
        rgb.width,
        rgb.height,
        x,
        y,
        w as u32,
        h as u32,
    );
    match pixels::crop_rgb(rgb, px, py, pw, ph) {
        Ok(part) => encode_capped(&part),
        Err(e) => Err(e),
    }
}

/// The encoder takes every image that the caps have been applied to.
pub proof fn law_capped_images_are_encodable(src: pixels::Raster)
    requires
        src.wf(),
        1 <= src.width <= u32::MAX,
        1 <= src.height <= u32::MAX,
    ensures
        encode::jpeg_of(
            encode::fitted(src, dims::target_dims(src.width, src.height)),
        ) is Some,
{
    lemma_target_is_small(src.width as u32, src.height as u32);
}

/// The whole length of an edge maps to the whole buffer edge.
proof fn lemma_whole_edge(physical: int, logical: int)
    requires
        1 <= physical <= i32::MAX,
        1 <= logical <= i32::MAX,
    ensures
        buffer_length(logical, buffer_scale(physical, logical)) == physical,
{
    let (p, l) = (physical as real, logical as real);
    let q = p / l;
    assert(q * l == p && q > 0 as real) by (nonlinear_arith)
        requires
            q == p / l,
            p > 0 as real,
            l > 0 as real,
    ;
    rounding::lemma_rounded_error(q);
    let s = rounding::rounded(q);
    let t = l * s;
    assert(t >= 0 as real) by (nonlinear_arith)
        requires
            t == l * s,
            l > 0 as real,
            s > 0 as real,
    ;
    assert(0x20_0000_0000_0000 as real * t <= 0x20_0000_0000_0001 as real * p) by (nonlinear_arith)
        requires
            t == l * s,
            q * l == p,
            l > 0 as real,
            0x20_0000_0000_0000 as real * s <= 0x20_0000_0000_0001 as real * q,
    ;
    assert(0x1f_ffff_ffff_ffff as real * p <= 0x20_0000_0000_0000 as real * t) by (nonlinear_arith)
        requires
            t == l * s,
            q * l == p,
            l > 0 as real,
            0x1f_ffff_ffff_ffff as real * q <= 0x20_0000_0000_0000 as real * s,
    ;
    rounding::lemma_rounded_error(t);
}

proof fn lemma_zero_length(scale: real)
    ensures
        buffer_length(0, scale) == 0,
{
    let z = 0int as real;
    assert(z * scale == 0 as real) by (nonlinear_arith)
        requires
            z == 0 as real,
    ;
}

/// Zooming on all of an output covers the whole buffer, whatever its scale: the part
/// that is encoded is the full capture.
pub proof fn law_zoom_on_everything_is_everything(geom: &OutputGeometry, rgb: &RgbImage)
    requires
        capturable(rgb),
        rgb.width <= i32::MAX,
        rgb.height <= i32::MAX,
        geom.logical_rect().width >= 1,
        geom.logical_rect().height >= 1,
    ensures
        ({
            let rect = geom.logical_rect();
            let region = buffer_region(
                geom,
                rgb.width as int,
                rgb.height as int,
                0,
                0,
                rect.width as int,
                rect.height as int,
            );
            &&& region == (0int, 0int, rgb.width as int, rgb.height as int)
            &&& rgb@.meets(region.0, region.1, region.2, region.3)
            &&& rgb@.cropped(region.0, region.1, region.2, region.3) == rgb@
        }),
{
    let rect = geom.logical_rect();
    lemma_whole_edge(rgb.width as int, rect.width as int);
    lemma_whole_edge(rgb.height as int, rect.height as int);
    lemma_zero_length(buffer_scale(rgb.width as int, rect.width as int));
    lemma_zero_length(buffer_scale(rgb.height as int, rect.height as int));
    pixels::law_whole_crop_is_identity(rgb@);
}

/// On an output that is not scaled, a region is cropped where it was asked for.
pub proof fn law_unscaled_regions_stay(
    geom: &OutputGeometry,
    x: i32,
    y: i32,
    w: i32,
    h: i32,
)
    requires
        geom.logical_rect().width >= 1,
        geom.logical_rect().height >= 1,
        w >= 0,
        h >= 0,
    ensures
        buffer_region(
            geom,
            geom.logical_rect().width as int,
            geom.logical_rect().height as int,
            x as int,
            y as int,
            w as int,
            h as int,
        ) == (
            pixels::at_least_zero(x as int),
            pixels::at_least_zero(y as int),
            w as int,
            h as int,
        ),
{
    let rect = geom.logical_rect();
    lemma_unit_scale(rect.width as int);
    lemma_unit_scale(rect.height as int);
    lemma_unit_length(pixels::at_least_zero(x as int));
    lemma_unit_length(pixels::at_least_zero(y as int));
    lemma_unit_length(w as int);
    lemma_unit_length(h as int);
}

proof fn lemma_unit_scale(n: int)
    requires
        n >= 1,
    ensures
        buffer_scale(n, n) == 1 as real,
{
    let r = n as real;
    assert(r / r == 1 as real) by (nonlinear_arith)
        requires
            r > 0 as real,
    ;
    rounding::lemma_rounded_int(1);
}

proof fn lemma_unit_length(n: int)
    requires
        0 <= n <= i32::MAX,
    ensures
        buffer_length(n, 1 as real) == n,
{
    let r = n as real;
    assert(r * (1 as real) == r) by (nonlinear_arith);
    rounding::lemma_rounded_int(n);
}

/// A region is scaled by the ratio of the buffer to the output: every length of it is the
/// nearest number of buffer pixels to the exact proportion, half a pixel and a two-thousandth
/// off at most. Left out are lengths beyond 32 bits,
/// which are cut off.
pub proof fn law_regions_are_proportional(n: int, physical: int, logical: int)
    requires
        0 <= n <= i32::MAX,
        0 <= physical <= u32::MAX,
        n * physical <= i32::MAX * dims::edge(logical),
    ensures
        ({
            let len = buffer_length(n, buffer_scale(physical, logical));
            &&& -dims::edge(logical) < len * dims::edge(logical) - n * physical < dims::edge(
                logical,
            )
            &&& -1001 * dims::edge(logical) <= 2000 * (len * dims::edge(logical) - n * physical)
                <= 1001 * dims::edge(logical)
        }),
{
    let by = dims::edge(logical);
    let (nr, pr, br) = (n as real, physical as real, by as real);
    let e = pr / br;
    let f = rounding::rounded(e);
    let v = nr * f;
    let u = nr * e;
    let k = 0x20_0000_0000_0000 as real;
    let over = 0x20_0000_0000_0001 as real;
    let under = 0x1f_ffff_ffff_ffff as real;
    assert(e >= 0 as real && e * br == pr) by (nonlinear_arith)
        requires
            e == pr / br,
            pr >= 0 as real,
            br >= 1 as real,
    ;
    rounding::lemma_rounded_error(e);
    assert(v >= 0 as real) by (nonlinear_arith)
        requires
            v == nr * f,
            nr >= 0 as real,
            f >= 0 as real,
    ;
    assert(k * v <= over * u) by (nonlinear_arith)
        requires
            v == nr * f,
            u == nr * e,
            nr >= 0 as real,
            k * f <= over * e,
    ;
    assert(under * u <= k * v) by (nonlinear_arith)
        requires
            v == nr * f,
            u == nr * e,
            nr >= 0 as real,
            under * e <= k * f,
    ;
    rounding::lemma_cast_mul(n, physical);
    rounding::lemma_cast_mul(i32::MAX as int, by);
    let top = i32::MAX as real;
    assert(0 as real <= u && u * br == nr * pr) by (nonlinear_arith)
        requires
            u == nr * e,
            e * br == pr,
            nr >= 0 as real,
            e >= 0 as real,
    ;
    assert(u <= top) by (nonlinear_arith)
        requires
            u * br <= top * br,
            br >= 1 as real,
    ;
    rounding::lemma_rounded_error(v);
    let w = rounding::rounded(v);
    assert(4000 as real * (w - u) < 1 as real);
    assert(4000 as real * (u - w) < 1 as real);
    let len = rounding::round_half_up(w);
    assert(len as real <= w + (1 as real) / (2 as real));
    assert(w + (1 as real) / (2 as real) < len as real + 1 as real);
    assert(len <= i32::MAX);
    let lr = len as real;
    rounding::lemma_cast_mul(len, by);
    assert(2000 as real * (lr * br - u * br) <= 1001 as real * br && 2000 as real * (u * br - lr
        * br) <= 1001 as real * br) by (nonlinear_arith)
        requires
            2000 as real * (lr - u) <= 1001 as real,
            2000 as real * (u - lr) <= 1001 as real,
            br >= 1 as real,
    ;
    assert(lr * br - u * br < br && u * br - lr * br < br) by (nonlinear_arith)
        requires
            lr - u < 1 as real,
            u - lr < 1 as real,
            br >= 1 as real,
    ;
}

/// A region is relative to its output: where the output lies among the others, what it is
/// called and how often it refreshes do not matter to what is captured of it.
pub proof fn law_zoom_does_not_depend_on_the_place(
    geom: &OutputGeometry,
    other: &OutputGeometry,
    rgb: &RgbImage,
    x: i32,
    y: i32,
    w: i32,
    h: i32,
    r: Result<ScreenshotCapture, CaptureError>,
)
    requires
        geom.scale == other.scale,
        geom.logical_width == other.logical_width,
        geom.logical_height == other.logical_height,
        geom.mode_width == other.mode_width,
        geom.mode_height == other.mode_height,
    ensures
        zooms(r, geom, rgb, x, y, w, h) <==> zooms(r, other, rgb, x, y, w, h),
        zoomed_part(geom, rgb@, x as int, y as int, w as int, h as int) == zoomed_part(
            other,
            rgb@,
            x as int,
            y as int,
            w as int,
            h as int,
        ),
{
}

/// The part of an output that is not scaled: it starts at `(x, y)`, is `w` by `h` pixels large
/// or ends where the capture does, and its pixel `(i, j)` is the capture's pixel
/// `(x + i, y + j)`.
pub proof fn law_zoom_takes_the_region(
    geom: &OutputGeometry,
    rgb: &RgbImage,
    x: i32,
    y: i32,
    w: i32,
    h: i32,
    i: int,
    j: int,
    c: int,
)
    requires
        rgb@.wf(),
        geom.logical_width is Some,
        geom.logical_height is Some,
        geom.logical_width->0 == rgb.width,
        geom.logical_height->0 == rgb.height,
        0 <= x < rgb.width,
        0 <= y < rgb.height,
        0 < w,
        0 < h,
        0 <= i < w,
        0 <= j < h,
        x + i < rgb.width,
        y + j < rgb.height,
        0 <= c < 3,
    ensures
        ({
            let part = zoomed_part(geom, rgb@, x as int, y as int, w as int, h as int);
            &&& part is Some
            &&& part->0.width == (if x + w < rgb.width {
                w as int
            } else {
                rgb.width - x
            })
            &&& part->0.height == (if y + h < rgb.height {
                h as int
            } else {
                rgb.height - y
            })
            &&& part->0.bytes[(j * part->0.width + i) * 3 + c] == rgb.pixels@[((y + j) * rgb.width
                + x + i) * 3 + c]
        }),
{
    law_unscaled_regions_stay(geom, x, y, w, h);
    pixels::law_crop_takes_pixels_in_place(
        rgb@,
        x as int,
        y as int,
        w as int,
        h as int,
        i,
        j,
        c,
    );
}

/// What zooming reports of a part that keeps both caps: the base64 text of the JPEG file of
/// the part's bytes, and its size.
pub proof fn law_small_parts_are_reported_as_they_are(
    r: Result<ScreenshotCapture, CaptureError>,
    geom: &OutputGeometry,
    rgb: &RgbImage,
    x: i32,
    y: i32,
    w: i32,
    h: i32,
)
    requires
        rgb@.wf(),
        zooms(r, geom, rgb, x, y, w, h),
        zoomed_part(geom, rgb@, x as int, y as int, w as int, h as int) matches Some(part) && {
            &&& part.width <= 1568
            &&& part.height <= 1568
            &&& part.width * part.height <= 1_150_000
        },
    ensures
        ({
            let part = zoomed_part(geom, rgb@, x as int, y as int, w as int, h as int)->0;
            let file = encode::jpeg_file(part.bytes, part.width as u32, part.height as u32, 75);
            if (file.len() + 2) / 3 * 4 <= isize::MAX {
                &&& r is Ok
                &&& r->Ok_0.base64@ == encode::base64_text(file)
                &&& r->Ok_0.width == part.width
                &&& r->Ok_0.height == part.height
            } else {
                r == Err::<ScreenshotCapture, CaptureError>(CaptureError::JpegTooLong)
            }
        }),
{
    let part = zoomed_part(geom, rgb@, x as int, y as int, w as int, h as int)->0;
    dims::law_small_images_keep_their_size(part.width as u32, part.height as u32);
}

/// The part of an output at any scale: there is a corner, less than one buffer pixel off the
/// exact proportion of `(x, y)`, from which the part takes the capture's pixels in place, and
/// a size, as near to the exact proportion of `w` by `h`, that the part has unless the capture
/// ends before.
pub proof fn law_zoom_takes_the_region_in_proportion(
    geom: &OutputGeometry,
    rgb: &RgbImage,
    x: i32,
    y: i32,
    w: i32,
    h: i32,
) -> (region: (int, int, int, int))
    requires
        rgb@.wf(),
        geom.logical_width is Some,
        geom.logical_height is Some,
        geom.logical_width->0 >= 1,
        geom.logical_height->0 >= 1,
        0 <= x,
        0 <= y,
        x * rgb.width <= i32::MAX * geom.logical_width->0,
        y * rgb.height <= i32::MAX * geom.logical_height->0,
        w * rgb.width <= i32::MAX * geom.logical_width->0,
        h * rgb.height <= i32::MAX * geom.logical_height->0,
        zoomed_part(geom, rgb@, x as int, y as int, w as int, h as int) is Some,
    ensures
        ({
            let (px, py, pw, ph) = region;
            let (lw, lh) = (geom.logical_width->0 as int, geom.logical_height->0 as int);
            let part = zoomed_part(geom, rgb@, x as int, y as int, w as int, h as int)->0;
            &&& -lw < px * lw - x * rgb.width < lw
            &&& -lh < py * lh - y * rgb.height < lh
            &&& -lw < pw * lw - w * rgb.width < lw
            &&& -lh < ph * lh - h * rgb.height < lh
            &&& part.width == (if px + pw < rgb.width {
                pw
            } else {
                rgb.width - px
            })
            &&& part.height == (if py + ph < rgb.height {
                ph
            } else {
                rgb.height - py
            })
            &&& forall|i: int, j: int, c: int|
                0 <= i < part.width && 0 <= j < part.height && 0 <= c < 3 ==> #[trigger] part.at(
                    i,
                    j,
                    c,
                ) == rgb@.at(px + i, py + j, c)
        }),
{
    let (lw, lh) = (geom.logical_width->0 as int, geom.logical_height->0 as int);
    law_regions_are_proportional(x as int, rgb.width as int, lw);
    law_regions_are_proportional(y as int, rgb.height as int, lh);
    law_regions_are_proportional(w as int, rgb.width as int, lw);
    law_regions_are_proportional(h as int, rgb.height as int, lh);
    let region = buffer_region(
        geom,
        rgb.width as int,
        rgb.height as int,
        x as int,
        y as int,
        w as int,
        h as int,
    );
    lemma_length_is_not_negative(x as int, rgb.width as int, lw);
    lemma_length_is_not_negative(y as int, rgb.height as int, lh);
    let (px, py, pw, ph) = region;
    let part = rgb@.cropped(px, py, pw, ph);
    assert forall|i: int, j: int, c: int|
        0 <= i < part.width && 0 <= j < part.height && 0 <= c < 3 implies #[trigger] part.at(i, j, c)
        == rgb@.at(px + i, py + j, c) by {
        pixels::law_crop_takes_pixels_in_place(rgb@, px, py, pw, ph, i, j, c);
    }
    region
}

/// A region that starts before the output is taken from its corner, as one that starts there.
pub proof fn law_regions_start_inside(
    geom: &OutputGeometry,
    rgb: &RgbImage,
    x: i32,
    y: i32,
    w: i32,
    h: i32,
)
    ensures
        x < 0 ==> zoomed_part(geom, rgb@, x as int, y as int, w as int, h as int) == zoomed_part(
            geom,
            rgb@,
            0,
            y as int,
            w as int,
            h as int,
        ),
        y < 0 ==> zoomed_part(geom, rgb@, x as int, y as int, w as int, h as int) == zoomed_part(
            geom,
            rgb@,
            x as int,
            0,
            w as int,
            h as int,
        ),
{
}

/// Which regions are refused: those without a positive width and height, and, on an output
/// that is not scaled, those that start at its end or beyond. All others are reported.
pub proof fn law_refused_regions(
    r: Result<ScreenshotCapture, CaptureError>,
    geom: &OutputGeometry,
    rgb: &RgbImage,
    x: i32,
    y: i32,
    w: i32,
    h: i32,
)
    requires
        zooms(r, geom, rgb, x, y, w, h),
        geom.logical_width is Some,
        geom.logical_height is Some,
        geom.logical_width->0 == rgb.width,
        geom.logical_height->0 == rgb.height,
        1 <= rgb.width,
        1 <= rgb.height,
    ensures
        w <= 0 || h <= 0 ==> r == Err::<ScreenshotCapture, CaptureError>(CaptureError::EmptyRegion),
        w > 0 && h > 0 && (x >= rgb.width || y >= rgb.height) ==> r == Err::<
            ScreenshotCapture,
            CaptureError,
        >(CaptureError::RegionOutside),
        w > 0 && h > 0 && x < rgb.width && y < rgb.height ==> zoomed_part(
            geom,
            rgb@,
            x as int,
            y as int,
            w as int,
            h as int,
        ) is Some,
{
    if w > 0 && h > 0 {
        law_unscaled_regions_stay(geom, x, y, w, h);
    }
}

/// A screenshot says where its output lies: the origin is the output's logical position, the
/// display size is its logical size, neither edge below zero, and the display's id is its
/// name. Without a logical position the origin is (0, 0); without a logical size the mode's
/// size is divided by the scale.
pub proof fn law_screenshots_say_where_they_are(shot: ScreenshotResult, geom: &OutputGeometry)
    requires
        places(shot, geom),
    ensures
        shot.origin_x == (match geom.logical_x {
            Some(x) => x,
            None => 0,
        }),
        shot.origin_y == (match geom.logical_y {
            Some(y) => y,
            None => 0,
        }),
        (geom.logical_width, geom.logical_height) matches (Some(w), Some(h)) ==> {
            &&& w >= 0 ==> shot.display_width == w
            &&& w < 0 ==> shot.display_width == 0
            &&& h >= 0 ==> shot.display_height == h
            &&& h < 0 ==> shot.display_height == 0
        },
        geom.logical_width is None || geom.logical_height is None ==> {
            let by = if geom.scale < 1 {
                1
            } else {
                geom.scale as int
            };
            &&& geom.mode_width is Some && geom.mode_width->0 >= 0 ==> shot.display_width
                == geom.mode_width->0 as int / by
            &&& geom.mode_height is Some && geom.mode_height->0 >= 0 ==> shot.display_height
                == geom.mode_height->0 as int / by
            &&& geom.mode_width is None ==> shot.display_width == 0
            &&& geom.mode_height is None ==> shot.display_height == 0
        },
        geom.name matches Some(name) ==> shot.display_id@ == name@,
{
    let by = if geom.scale < 1 {
        1
    } else {
        geom.scale as int
    };
    if let Some(w) = geom.mode_width {
        if w >= 0 {
            lemma_share(w as int, by);
        }
    }
    if let Some(h) = geom.mode_height {
        if h >= 0 {
            lemma_share(h as int, by);
        }
    }
}

proof fn lemma_share(n: int, by: int)
    requires
        n >= 0,
        by >= 1,
    ensures
        0 <= n / by <= n,
{
    assert(0 <= n / by <= n) by (nonlinear_arith)
        requires
            n >= 0,
            by >= 1,
    ;
}

proof fn lemma_length_is_not_negative(n: int, physical: int, logical: int)
    requires
        n >= 0,
        physical >= 0,
    ensures
        buffer_length(n, buffer_scale(physical, logical)) >= 0,
{
    let scale = buffer_scale(physical, logical);
    let q = physical as real / dims::edge(logical) as real;
    assert(q >= 0 as real) by (nonlinear_arith)
        requires
            q == physical as real / dims::edge(logical) as real,
            physical as real >= 0 as real,
            dims::edge(logical) as real >= 1 as real,
    ;
    rounding::lemma_rounded_error(q);
    let v = n as real * scale;
    assert(v >= 0 as real) by (nonlinear_arith)
        requires
            v == n as real * scale,
            n as real >= 0 as real,
            scale >= 0 as real,
    ;
    rounding::lemma_rounded_error(v);
}

/// What zooming reports keeps the caps: the reported size has edges of at most 1568 pixels and
/// at most 1,150,000 pixels in all, is not larger than the part, and has its proportions as
/// near as whole pixels allow, unless an edge is down to a pixel. The text is that of the JPEG
/// file of the part at the reported size.
pub proof fn law_zooms_keep_the_caps(
    r: Result<ScreenshotCapture, CaptureError>,
    geom: &OutputGeometry,
    rgb: &RgbImage,
    x: i32,
    y: i32,
    w: i32,
    h: i32,
)
    requires
        rgb@.wf(),
        zooms(r, geom, rgb, x, y, w, h),
        r is Ok,
    ensures
        zoomed_part(geom, rgb@, x as int, y as int, w as int, h as int) matches Some(part) && {
            let (rw, rh) = (r->Ok_0.width, r->Ok_0.height);
            let bytes = if rw == part.width && rh == part.height {
                part.bytes
            } else {
                resize::resized(part, rw as int, rh as int).bytes
            };
            &&& 1 <= rw <= 1568
            &&& 1 <= rh <= 1568
            &&& rw * rh <= 1_150_000
            &&& rw <= part.width
            &&& rh <= part.height
            &&& rw >= 2 && rh >= 2 ==> -(part.width + part.height) <= 2 * (rw * part.height - rh
                * part.width) <= part.width + part.height
            &&& r->Ok_0.base64@ == encode::base64_text(encode::jpeg_file(bytes, rw, rh, 75))
        },
{
    let part = zoomed_part(geom, rgb@, x as int, y as int, w as int, h as int)->0;
    encode::law_reported_sizes_keep_the_caps(r, part);
}

} // verus!
