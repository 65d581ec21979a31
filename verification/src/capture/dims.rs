//! The size that a captured image is encoded at.

use crate::double::Double;
use crate::rounding;
use vstd::prelude::*;

verus! {

/// Long-edge cap on the encoded image, in physical pixels.
pub const MAX_LONG_EDGE: u32 = 1568;

/// Total-pixel cap on the encoded image.
pub const MAX_PIXELS: u32 = 1_150_000;

/// `max(n, 1)`: an empty edge counts as one pixel.
pub open spec fn edge(n: int) -> int {
    if n < 1 {
        1
    } else {
        n
    }
}

/// The factor that brings the longer edge down to the long-edge cap.
pub open spec fn long_edge_scale(w: int, h: int) -> real {
    rounding::rounded(1568 as real / (if w >= h {
        w
    } else {
        h
    }) as real)
}

/// The factor that brings the area down to the pixel cap.
pub open spec fn pixel_scale(w: int, h: int) -> real {
    rounding::root_rounded(
        rounding::rounded(1_150_000 as real / rounding::rounded(w as real * h as real)),
    )
}

/// The factor that both edges are multiplied by: never above one.
pub open spec fn scale_factor(w: int, h: int) -> real {
    rounding::real_min(
        rounding::real_min(1 as real, long_edge_scale(w, h)),
        pixel_scale(w, h),
    )
}

/// One edge after scaling, at least one pixel.
pub open spec fn scaled_edge(n: int, scale: real) -> int {
    edge(rounding::round_half_up(rounding::rounded(n as real * scale)))
}

/// The size nearest below `a` by `b` that fits the pixel cap, for an image of `w` by `h`
/// pixels: as the scale falls, the edge whose rounding gives way first gets shorter by a
/// pixel, or both edges do where they give way together. The edge `a` gives way where the
/// scale falls below `(a - 1/2) / w`.
pub open spec fn within_cap(w: int, h: int, a: int, b: int) -> (int, int)
    decreases a + b,
{
    if a < 1 || b < 1 || a * b <= MAX_PIXELS {
        (a, b)
    } else if (2 * a - 1) * h > (2 * b - 1) * w {
        within_cap(w, h, a - 1, b)
    } else if (2 * a - 1) * h < (2 * b - 1) * w {
        within_cap(w, h, a, b - 1)
    } else {
        within_cap(w, h, a - 1, b - 1)
    }
}

/// The size of an image of `w` by `h` pixels at the scale of the caps, its edges rounded to
/// whole pixels.
pub open spec fn scaled_dims(w: int, h: int) -> (int, int) {
    let scale = scale_factor(edge(w), edge(h));
    (scaled_edge(edge(w), scale), scaled_edge(edge(h), scale))
}

/// The size that an image of `w` by `h` pixels is encoded at: that of the largest scale not
/// above the scale of the caps at which the whole edges fit the pixel cap.
pub open spec fn target_dims(w: int, h: int) -> (int, int) {
    let (a, b) = scaled_dims(w, h);
    within_cap(edge(w), edge(h), a, b)
}

/// Caps the long edge and the total number of pixels, keeps the aspect ratio and
/// never enlarges.
pub fn compute_target_dims(w: u32, h: u32) -> (r: (u32, u32))
    ensures
        (r.0 as int, r.1 as int) == target_dims(w as int, h as int),
        r.0 * r.1 <= MAX_PIXELS,
{
    let pw: u64 = if w < 1 {
        1
    } else {
        w as u64
    };
    let ph: u64 = if h < 1 {
        1
    } else {
        h as u64
    };
    let longer: u64 = if pw >= ph {
        pw
    } else {
        ph
    };
    proof {
        rounding::lemma_rounded_int(pw as int);
        rounding::lemma_rounded_int(ph as int);
        rounding::lemma_rounded_int(1);
        rounding::lemma_rounded_int(1568);
        rounding::lemma_rounded_int(1_150_000);
    }
    let phys_w = Double::from_u64(pw);
    let phys_h = Double::from_u64(ph);
    let long_edge_scale = Double::from_u64(MAX_LONG_EDGE as u64).over(Double::from_u64(longer));
    let pixel_scale = Double::from_u64(MAX_PIXELS as u64).over(phys_w.times(phys_h)).root();
    let scale = Double::from_u64(1).smaller(long_edge_scale).smaller(pixel_scale);
    let tw: u64 = phys_w.times(scale).round_to(0xffff_ffff);
    let th: u64 = phys_h.times(scale).round_to(0xffff_ffff);
    let mut a: u64 = if tw < 1 {
        1
    } else {
        tw
    };
    let mut b: u64 = if th < 1 {
        1
    } else {
        th
    };
    proof {
        lemma_scaled_dims(w, h);
        lemma_scaled_edge_bounds(pw as int, pw as int, ph as int);
        lemma_scaled_edge_bounds(ph as int, pw as int, ph as int);
        lemma_small_product(a as int, b as int);
        lemma_within_cap(pw as int, ph as int, a as int, b as int);
    }
    while a * b > MAX_PIXELS as u64
        invariant
            1 <= pw <= u32::MAX,
            1 <= ph <= u32::MAX,
            1 <= a <= 1568,
            1 <= b <= 1568,
            a * b <= 1568 * 1568,
            within_cap(pw as int, ph as int, a as int, b as int) == target_dims(
                w as int,
                h as int,
            ),
        decreases a + b,
    {
        proof {
            lemma_large_product(a as int, b as int);
            lemma_threshold_fits(a as int, ph as int);
            lemma_threshold_fits(b as int, pw as int);
        }
        let across: u64 = (2 * a - 1) * ph;
        let down: u64 = (2 * b - 1) * pw;
        if across >= down {
            a = a - 1;
        }
        if across <= down {
            b = b - 1;
        }
        proof {
            lemma_small_product(a as int, b as int);
        }
    }
    (a as u32, b as u32)
}

proof fn lemma_small_product(a: int, b: int)
    requires
        1 <= a <= 1568,
        1 <= b <= 1568,
    ensures
        1 <= a * b <= 1568 * 1568,
{
    assert(1 <= a * b <= 1568 * 1568) by (nonlinear_arith)
        requires
            1 <= a <= 1568,
            1 <= b <= 1568,
    ;
}

/// Edges within the long-edge cap that pass the pixel cap are both far above one pixel.
proof fn lemma_large_product(a: int, b: int)
    requires
        a <= 1568,
        b <= 1568,
        1 <= a,
        1 <= b,
        a * b > 1_150_000,
    ensures
        a >= 2,
        b >= 2,
{
    assert(a >= 2 && b >= 2) by (nonlinear_arith)
        requires
            1 <= a <= 1568,
            1 <= b <= 1568,
            a * b > 1_150_000,
    ;
}

proof fn lemma_threshold_fits(a: int, n: int)
    requires
        1 <= a <= 1568,
        1 <= n <= u32::MAX,
    ensures
        0 <= (2 * a - 1) * n <= u64::MAX,
{
    assert(0 <= (2 * a - 1) * n <= 3135 * 0xffff_ffff) by (nonlinear_arith)
        requires
            1 <= a <= 1568,
            1 <= n <= 0xffff_ffff,
    ;
}

/// Fitting the cap leaves at least a pixel, lengthens no edge and keeps the aspect ratio.
proof fn lemma_within_cap(w: int, h: int, a: int, b: int)
    requires
        1 <= w,
        1 <= h,
        1 <= a <= 1568,
        1 <= b <= 1568,
    ensures
        ({
            let r = within_cap(w, h, a, b);
            &&& 1 <= r.0 <= a
            &&& 1 <= r.1 <= b
            &&& r.0 * r.1 <= MAX_PIXELS
            &&& -(w + h) <= 2 * (a * h - b * w) <= w + h ==> -(w + h) <= 2 * (r.0 * h - r.1 * w)
                <= w + h
        }),
    decreases a + b,
{
    if a * b > MAX_PIXELS {
        lemma_large_product(a, b);
        assert((2 * a - 1) * h == 2 * (a * h) - h) by (nonlinear_arith);
        assert((2 * b - 1) * w == 2 * (b * w) - w) by (nonlinear_arith);
        assert((a - 1) * h == a * h - h) by (nonlinear_arith);
        assert((b - 1) * w == b * w - w) by (nonlinear_arith);
        if (2 * a - 1) * h > (2 * b - 1) * w {
            lemma_within_cap(w, h, a - 1, b);
        } else if (2 * a - 1) * h < (2 * b - 1) * w {
            lemma_within_cap(w, h, a, b - 1);
        } else {
            lemma_within_cap(w, h, a - 1, b - 1);
        }
    }
}

/// At the scale of the caps every edge is between one pixel and the long-edge cap, and not
/// longer than it was.
proof fn lemma_scaled_dims(w: u32, h: u32)
    ensures
        1 <= scaled_dims(w as int, h as int).0 <= 1568,
        1 <= scaled_dims(w as int, h as int).1 <= 1568,
        scaled_dims(w as int, h as int).0 <= edge(w as int),
        scaled_dims(w as int, h as int).1 <= edge(h as int),
{
    let (pw, ph) = (edge(w as int), edge(h as int));
    lemma_scaled_edge_bounds(pw, pw, ph);
    lemma_scaled_edge_bounds(ph, pw, ph);
    lemma_long_edge(pw, pw, ph);
    lemma_long_edge(ph, pw, ph);
}

/// [`lemma_within_cap`] for an image.
proof fn lemma_target_dims(w: u32, h: u32)
    ensures
        ({
            let (a, b) = scaled_dims(w as int, h as int);
            let (pw, ph) = (edge(w as int), edge(h as int));
            let t = target_dims(w as int, h as int);
            &&& 1 <= t.0 <= a <= 1568
            &&& 1 <= t.1 <= b <= 1568
            &&& a <= pw
            &&& b <= ph
            &&& t.0 * t.1 <= MAX_PIXELS
            &&& -(pw + ph) <= 2 * (a * ph - b * pw) <= pw + ph ==> -(pw + ph) <= 2 * (t.0 * ph - t.1
                * pw) <= pw + ph
        }),
{
    lemma_scaled_dims(w, h);
    let (a, b) = scaled_dims(w as int, h as int);
    lemma_within_cap(edge(w as int), edge(h as int), a, b);
}

/// The scale factor is positive and at most one.
proof fn lemma_scale_factor(w: int, h: int)
    requires
        1 <= w,
        1 <= h,
    ensures
        scale_factor(w, h) > 0 as real,
        scale_factor(w, h) <= 1 as real,
        long_edge_scale(w, h) > 0 as real,
        pixel_scale(w, h) > 0 as real,
{
    let m = (if w >= h {
        w
    } else {
        h
    }) as real;
    assert(1568 as real / m > 0 as real) by (nonlinear_arith)
        requires
            m > 0 as real,
    ;
    rounding::lemma_rounded_error(1568 as real / m);
    let (wr, hr) = (w as real, h as real);
    assert(wr * hr > 0 as real) by (nonlinear_arith)
        requires
            wr > 0 as real,
            hr > 0 as real,
    ;
    rounding::lemma_rounded_error(wr * hr);
    let area = rounding::rounded(wr * hr);
    assert(1_150_000 as real / area > 0 as real) by (nonlinear_arith)
        requires
            area > 0 as real,
    ;
    rounding::lemma_rounded_error(1_150_000 as real / area);
    rounding::lemma_root_rounded_error(rounding::rounded(1_150_000 as real / area));
}

/// A scaled edge is not longer than the edge.
proof fn lemma_scaled_edge_bounds(n: int, w: int, h: int)
    requires
        1 <= n <= 0x20_0000_0000_0000,
        1 <= w,
        1 <= h,
    ensures
        0 <= rounding::round_half_up(rounding::rounded(n as real * scale_factor(w, h))) <= n,
{
    lemma_scale_factor(w, h);
    let (nr, s) = (n as real, scale_factor(w, h));
    assert(0 as real <= nr * s <= nr) by (nonlinear_arith)
        requires
            nr > 0 as real,
            0 as real <= s <= 1 as real,
    ;
    rounding::lemma_rounded_monotone(nr * s, nr);
    rounding::lemma_rounded_error(nr * s);
    rounding::lemma_rounded_int(n);
}

/// Scaling never enlarges: neither edge grows.
pub proof fn law_never_enlarges(w: u32, h: u32)
    ensures
        1 <= target_dims(w as int, h as int).0 <= edge(w as int),
        1 <= target_dims(w as int, h as int).1 <= edge(h as int),
{
    lemma_target_dims(w, h);
}

/// An image within both caps keeps its size.
pub proof fn law_small_images_keep_their_size(w: u32, h: u32)
    requires
        1 <= w <= MAX_LONG_EDGE,
        1 <= h <= MAX_LONG_EDGE,
        w * h <= MAX_PIXELS,
    ensures
        target_dims(w as int, h as int) == (w as int, h as int),
{
    let (wi, hi) = (w as int, h as int);
    let (wr, hr) = (w as real, h as real);
    let m = (if w >= h {
        w
    } else {
        h
    }) as real;
    assert(1568 as real / m >= 1 as real) by (nonlinear_arith)
        requires
            1 as real <= m <= 1568 as real,
    ;
    rounding::lemma_rounded_int(1);
    rounding::lemma_rounded_monotone(1 as real, 1568 as real / m);
    rounding::lemma_cast_mul(wi, hi);
    assert(1 <= wi * hi) by (nonlinear_arith)
        requires
            1 <= wi,
            1 <= hi,
    ;
    rounding::lemma_rounded_int(wi * hi);
    let area = (wi * hi) as real;
    assert(1_150_000 as real / area >= 1 as real) by (nonlinear_arith)
        requires
            1 as real <= area <= 1_150_000 as real,
    ;
    rounding::lemma_rounded_monotone(1 as real, 1_150_000 as real / area);
    rounding::lemma_root_rounded_at_least_one(rounding::rounded(1_150_000 as real / area));
    assert(scale_factor(wi, hi) == 1 as real);
    assert(wr * (1 as real) == wr) by (nonlinear_arith);
    assert(hr * (1 as real) == hr) by (nonlinear_arith);
    rounding::lemma_rounded_int(wi);
    rounding::lemma_rounded_int(hi);
}

/// A scaled edge before it is rounded to whole pixels stays within one part in
/// 2^50 of the long-edge cap.
proof fn lemma_long_edge(n: int, w: int, h: int)
    requires
        1 <= n,
        n <= w || n <= h,
        1 <= w,
        1 <= h,
    ensures
        0 as real <= rounding::rounded(n as real * scale_factor(w, h)),
        10_000 as real * rounding::rounded(n as real * scale_factor(w, h)) < 15_680_001 as real,
{
    lemma_scale_factor(w, h);
    let m = (if w >= h {
        w
    } else {
        h
    }) as real;
    let nr = n as real;
    let s = scale_factor(w, h);
    let l = long_edge_scale(w, h);
    let q = 1568 as real / m;
    assert(q * m == 1568 as real && q > 0 as real) by (nonlinear_arith)
        requires
            q == 1568 as real / m,
            m > 0 as real,
    ;
    rounding::lemma_rounded_error(q);
    assert(nr * s <= m * l) by (nonlinear_arith)
        requires
            0 as real <= nr <= m,
            0 as real <= s <= l,
    ;
    assert(0x20_0000_0000_0000 as real * (m * l) <= 0x20_0000_0000_0001 as real * 1568 as real)
        by (nonlinear_arith)
        requires
            0x20_0000_0000_0000 as real * l <= 0x20_0000_0000_0001 as real * q,
            q * m == 1568 as real,
            m > 0 as real,
    ;
    assert(nr * s >= 0 as real) by (nonlinear_arith)
        requires
            nr >= 0 as real,
            s >= 0 as real,
    ;
    rounding::lemma_rounded_error(nr * s);
}

/// No edge of the encoded image is longer than the long-edge cap.
pub proof fn law_long_edge_is_capped(w: u32, h: u32)
    ensures
        target_dims(w as int, h as int).0 <= MAX_LONG_EDGE,
        target_dims(w as int, h as int).1 <= MAX_LONG_EDGE,
{
    lemma_target_dims(w, h);
}

/// The encoded image has at most the capped number of pixels.
pub proof fn law_pixels_are_capped(w: u32, h: u32)
    ensures
        target_dims(w as int, h as int).0 * target_dims(w as int, h as int).1 <= MAX_PIXELS,
{
    lemma_target_dims(w, h);
}

/// The whole edges of an image of `w` by `h` pixels at a scale.
pub open spec fn edges_at(w: int, h: int, scale: real) -> (int, int) {
    (rounding::round_half_up(w as real * scale), rounding::round_half_up(h as real * scale))
}

/// What holds of [`law_no_larger_scale_fits`] from any size on.
proof fn lemma_no_larger_scale_fits(w: int, h: int, a: int, b: int, scale: real)
    requires
        1 <= w,
        1 <= h,
        1 <= a <= 1568,
        1 <= b <= 1568,
        edges_at(w, h, scale).0 <= a,
        edges_at(w, h, scale).1 <= b,
        edges_at(w, h, scale).0 * edges_at(w, h, scale).1 <= MAX_PIXELS,
    ensures
        edges_at(w, h, scale).0 <= within_cap(w, h, a, b).0,
        edges_at(w, h, scale).1 <= within_cap(w, h, a, b).1,
    decreases a + b,
{
    if a * b > MAX_PIXELS {
        lemma_large_product(a, b);
        let (x, y) = edges_at(w, h, scale);
        if (2 * a - 1) * h >= (2 * b - 1) * w && x == a {
            lemma_gives_way_first(w, h, a, b, scale);
        }
        if (2 * b - 1) * w >= (2 * a - 1) * h && y == b {
            lemma_gives_way_first(h, w, b, a, scale);
        }
        if (2 * a - 1) * h > (2 * b - 1) * w {
            lemma_no_larger_scale_fits(w, h, a - 1, b, scale);
        } else if (2 * a - 1) * h < (2 * b - 1) * w {
            lemma_no_larger_scale_fits(w, h, a, b - 1, scale);
        } else {
            lemma_no_larger_scale_fits(w, h, a - 1, b - 1, scale);
        }
    }
}

/// While the edge that gives way first has not, the other has not either.
proof fn lemma_gives_way_first(w: int, h: int, a: int, b: int, scale: real)
    requires
        1 <= w,
        1 <= h,
        (2 * a - 1) * h >= (2 * b - 1) * w,
        edges_at(w, h, scale).0 >= a,
    ensures
        edges_at(w, h, scale).1 >= b,
{
    let (wr, hr) = (w as real, h as real);
    let p = (2 * a - 1) as real;
    let q = (2 * b - 1) as real;
    rounding::lemma_cast_mul(2 * a - 1, h);
    rounding::lemma_cast_mul(2 * b - 1, w);
    assert(wr * scale + (1 as real) / (2 as real) >= a as real);
    assert(2 as real * (wr * scale) >= p);
    assert(2 as real * (hr * scale) >= q) by (nonlinear_arith)
        requires
            2 as real * (wr * scale) >= p,
            p * hr >= q * wr,
            wr >= 1 as real,
            hr >= 1 as real,
    ;
    assert(hr * scale + (1 as real) / (2 as real) >= b as real);
}

/// No larger scale would fit: whatever scale is taken whose edges are not above those at the
/// scale of the caps and fit the pixel cap, its edges are not above those of the encoded
/// image.
pub proof fn law_no_larger_scale_fits(w: u32, h: u32, scale: real)
    requires
        ({
            let (x, y) = edges_at(edge(w as int), edge(h as int), scale);
            let (a, b) = scaled_dims(w as int, h as int);
            x <= a && y <= b && x * y <= MAX_PIXELS
        }),
    ensures
        edges_at(edge(w as int), edge(h as int), scale).0 <= target_dims(w as int, h as int).0,
        edges_at(edge(w as int), edge(h as int), scale).1 <= target_dims(w as int, h as int).1,
{
    lemma_scaled_dims(w, h);
    let (a, b) = scaled_dims(w as int, h as int);
    lemma_no_larger_scale_fits(edge(w as int), edge(h as int), a, b, scale);
}

proof fn lemma_within_cap_mirrors(w: int, h: int, a: int, b: int)
    ensures
        within_cap(h, w, b, a) == (within_cap(w, h, a, b).1, within_cap(w, h, a, b).0),
    decreases a + b,
{
    assert(a * b == b * a) by (nonlinear_arith);
    if a >= 1 && b >= 1 && a * b > MAX_PIXELS {
        if (2 * a - 1) * h > (2 * b - 1) * w {
            lemma_within_cap_mirrors(w, h, a - 1, b);
        } else if (2 * a - 1) * h < (2 * b - 1) * w {
            lemma_within_cap_mirrors(w, h, a, b - 1);
        } else {
            lemma_within_cap_mirrors(w, h, a - 1, b - 1);
        }
    }
}

/// Width and height are treated alike: an image on its side is encoded on its side.
pub proof fn law_orientation_does_not_matter(w: u32, h: u32)
    ensures
        target_dims(h as int, w as int) == (
            target_dims(w as int, h as int).1,
            target_dims(w as int, h as int).0,
        ),
{
    let (pw, ph) = (edge(w as int), edge(h as int));
    let (wr, hr) = (pw as real, ph as real);
    assert(wr * hr == hr * wr) by (nonlinear_arith);
    assert(scale_factor(pw, ph) == scale_factor(ph, pw));
    let (a, b) = scaled_dims(w as int, h as int);
    lemma_within_cap_mirrors(pw, ph, a, b);
}

/// One side of [`law_aspect_ratio_is_kept`], on real numbers alone: `x` and `y` are
/// the whole edges, `a` and `b` the scaled ones.
proof fn lemma_aspect_side(w: real, h: real, s: real, a: real, b: real, x: real, y: real)
    requires
        1 as real <= w <= 0x1_0000_0000 as real,
        1 as real <= h <= 0x1_0000_0000 as real,
        s >= 0 as real,
        w * s <= 2000 as real,
        0x20_0000_0000_0000 as real * a <= 0x20_0000_0000_0001 as real * (w * s),
        0x1f_ffff_ffff_ffff as real * (h * s) <= 0x20_0000_0000_0000 as real * b,
        2 as real * x <= 2 as real * a + 1 as real,
        2 as real * b - 1 as real <= 2 as real * y,
    ensures
        2 as real * (x * h - y * w) < w + h + 1 as real,
{
    let ws = w * s;
    let hs = h * s;
    let t = ws * h;
    assert(ws >= 0 as real) by (nonlinear_arith)
        requires
            ws == w * s,
            w > 0 as real,
            s >= 0 as real,
    ;
    assert(t == hs * w && t <= 2000 as real * 0x1_0000_0000 as real) by (nonlinear_arith)
        requires
            t == ws * h,
            ws == w * s,
            hs == h * s,
            0 as real <= ws <= 2000 as real,
            0 as real <= h <= 0x1_0000_0000 as real,
    ;
    let ah = a * h;
    let bw = b * w;
    assert(0x20_0000_0000_0000 as real * ah <= 0x20_0000_0000_0001 as real * t)
        by (nonlinear_arith)
        requires
            ah == a * h,
            t == ws * h,
            h > 0 as real,
            0x20_0000_0000_0000 as real * a <= 0x20_0000_0000_0001 as real * ws,
    ;
    assert(0x1f_ffff_ffff_ffff as real * t <= 0x20_0000_0000_0000 as real * bw)
        by (nonlinear_arith)
        requires
            bw == b * w,
            t == hs * w,
            w > 0 as real,
            0x1f_ffff_ffff_ffff as real * hs <= 0x20_0000_0000_0000 as real * b,
    ;
    assert(2 as real * (x * h) <= 2 as real * ah + h) by (nonlinear_arith)
        requires
            ah == a * h,
            h > 0 as real,
            2 as real * x <= 2 as real * a + 1 as real,
    ;
    assert(2 as real * bw - w <= 2 as real * (y * w)) by (nonlinear_arith)
        requires
            bw == b * w,
            w > 0 as real,
            2 as real * b - 1 as real <= 2 as real * y,
    ;
}

/// The encoded image keeps the aspect ratio, as near as whole pixels allow: the
/// cross products of the edges differ by at most half the sum of the edges. Left
/// out are images so thin that an edge would vanish and is kept at one pixel.
pub proof fn law_aspect_ratio_is_kept(w: u32, h: u32)
    requires
        1 <= w,
        1 <= h,
        rounding::round_half_up(
            rounding::rounded(w as real * scale_factor(w as int, h as int)),
        ) >= 1,
        rounding::round_half_up(
            rounding::rounded(h as real * scale_factor(w as int, h as int)),
        ) >= 1,
    ensures
        ({
            let t = target_dims(w as int, h as int);
            -(w + h) <= 2 * (t.0 * h - t.1 * w) <= w + h
        }),
{
    let (wi, hi) = (w as int, h as int);
    let (wr, hr) = (w as real, h as real);
    let s = scale_factor(wi, hi);
    let a = rounding::rounded(wr * s);
    let b = rounding::rounded(hr * s);
    let t = scaled_dims(wi, hi);
    lemma_scale_factor(wi, hi);
    lemma_long_edge(wi, wi, hi);
    lemma_long_edge(hi, wi, hi);
    assert(wr * s >= 0 as real && hr * s >= 0 as real) by (nonlinear_arith)
        requires
            wr > 0 as real,
            hr > 0 as real,
            s >= 0 as real,
    ;
    rounding::lemma_rounded_error(wr * s);
    rounding::lemma_rounded_error(hr * s);
    let (x, y) = (t.0 as real, t.1 as real);
    lemma_aspect_side(wr, hr, s, a, b, x, y);
    lemma_aspect_side(hr, wr, s, b, a, y, x);
    rounding::lemma_cast_mul(t.0, hi);
    rounding::lemma_cast_mul(t.1, wi);
    let d = t.0 * hi - t.1 * wi;
    assert(d as real == x * hr - y * wr);
    assert(2 as real * d as real == (2 * d) as real);
    lemma_target_dims(w, h);
}

/// The scale of the caps is not below any scale that keeps both caps, but for rounding.
proof fn lemma_scale_is_large(w: int, h: int, scale: real)
    requires
        1 <= w <= u32::MAX,
        1 <= h <= u32::MAX,
        scale > 0 as real,
        scale <= 1 as real,
        w as real * scale <= 1568 as real,
        h as real * scale <= 1568 as real,
        (w as real * scale) * (h as real * scale) <= 1_150_000 as real,
    ensures
        scale * 999_999 as real <= 1_000_000 as real * scale_factor(w, h),
{
    lemma_scale_factor(w, h);
    let (wr, hr) = (w as real, h as real);
    let m = (if w >= h {
        w
    } else {
        h
    }) as real;
    let q = 1568 as real / m;
    assert(q >= scale) by (nonlinear_arith)
        requires
            q == 1568 as real / m,
            m >= 1 as real,
            m * scale <= 1568 as real,
    ;
    rounding::lemma_rounded_error(q);
    let l = long_edge_scale(w, h);
    assert(scale * 999_999 as real <= 1_000_000 as real * l);
    let area = wr * hr;
    assert(area > 0 as real && area * (scale * scale) <= 1_150_000 as real) by (nonlinear_arith)
        requires
            area == wr * hr,
            wr >= 1 as real,
            hr >= 1 as real,
            (wr * scale) * (hr * scale) <= 1_150_000 as real,
    ;
    rounding::lemma_rounded_error(area);
    let f = rounding::rounded(area);
    let u = 1_150_000 as real / f;
    let sq = scale * scale;
    assert(sq > 0 as real) by (nonlinear_arith)
        requires
            sq == scale * scale,
            scale > 0 as real,
    ;
    let k = 0x20_0000_0000_0000 as real;
    let over = 0x20_0000_0000_0001 as real;
    let under = 0x1f_ffff_ffff_ffff as real;
    assert(u * f == 1_150_000 as real && u > 0 as real) by (nonlinear_arith)
        requires
            u == 1_150_000 as real / f,
            f > 0 as real,
    ;
    assert(over * u >= k * sq) by (nonlinear_arith)
        requires
            u * f == 1_150_000 as real,
            f > 0 as real,
            k * f <= over * area,
            area * sq <= 1_150_000 as real,
            sq > 0 as real,
            u > 0 as real,
            area > 0 as real,
            k > 0 as real,
            over > 0 as real,
    ;
    rounding::lemma_rounded_error(u);
    let v = rounding::rounded(u);
    rounding::lemma_root_rounded_error(v);
    let r = rounding::root_rounded(v);
    let above = over * r;
    let kk = 0x400_0000_0000_0000_0000_0000_0000 as real;
    let rr = r * r;
    assert(above * above == (over * over) * rr) by (nonlinear_arith)
        requires
            above == over * r,
            rr == r * r,
    ;
    assert(kk * v < (over * over) * rr);
    // a thousandth of a millionth covers all of the errors
    assert(sq * 999_999_999 as real <= 1_000_000_000 as real * v);
    assert(sq * 999_999_998 as real <= 1_000_000_000 as real * rr);
    assert(scale * 999_999 as real <= 1_000_000 as real * r) by (nonlinear_arith)
        requires
            sq == scale * scale,
            rr == r * r,
            scale > 0 as real,
            r > 0 as real,
            sq * 999_999_998 as real <= 1_000_000_000 as real * rr,
    ;
    assert(r == pixel_scale(w, h));
}

/// A common scale that is a little smaller fits the pixel cap after rounding.
proof fn lemma_a_little_smaller_fits(a: real, b: real)
    requires
        0 as real <= a,
        a <= 1568 as real,
        0 as real <= b,
        b <= 1568 as real,
        a * b <= 1_150_000 as real,
    ensures
        ({
            let (x, y) = (a * 1499 as real / 1500 as real, b * 1499 as real / 1500 as real);
            rounding::round_half_up(x) * rounding::round_half_up(y) <= 1_150_000
        }),
{
    let (x, y) = (a * 1499 as real / 1500 as real, b * 1499 as real / 1500 as real);
    let (i, j) = (rounding::round_half_up(x), rounding::round_half_up(y));
    let half = (1 as real) / (2 as real);
    let p = a * b;
    assert(1568 as real * (a + b) <= 1568 as real * 1568 as real + p) by (nonlinear_arith)
        requires
            p == a * b,
            a <= 1568 as real,
            b <= 1568 as real,
    ;
    let xy = x * y;
    assert(2_250_000 as real * xy == 2_247_001 as real * p) by (nonlinear_arith)
        requires
            p == a * b,
            xy == x * y,
            1500 as real * x == 1499 as real * a,
            1500 as real * y == 1499 as real * b,
    ;
    let (ir, jr) = (i as real, j as real);
    assert(0 as real <= ir && ir <= x + half && 0 as real <= jr && jr <= y + half);
    assert(ir * jr <= xy + (x + y) * half + half * half) by (nonlinear_arith)
        requires
            xy == x * y,
            0 as real <= ir,
            ir <= x + half,
            0 as real <= jr,
            jr <= y + half,
    ;
    assert((x + y) * half == (x + y) / 2 as real && half * half == (1 as real) / (4 as real))
        by (nonlinear_arith)
        requires
            half == (1 as real) / (2 as real),
    ;
    rounding::lemma_cast_mul(i, j);
    assert(ir * jr <= 1_150_000 as real);
}

/// The caps waste nothing: whatever scale keeps the image within both caps and does not
/// enlarge it, the encoded image is less than two pixels short of it along either edge.
pub proof fn law_the_size_is_used_up(w: u32, h: u32, scale: real)
    requires
        1 <= w,
        1 <= h,
        scale > 0 as real,
        scale <= 1 as real,
        w as real * scale <= 1568 as real,
        h as real * scale <= 1568 as real,
        (w as real * scale) * (h as real * scale) <= 1_150_000 as real,
    ensures
        target_dims(w as int, h as int).0 as real > w as real * scale - 2 as real,
        target_dims(w as int, h as int).1 as real > h as real * scale - 2 as real,
{
    let (wi, hi) = (w as int, h as int);
    let (wr, hr) = (w as real, h as real);
    let t = scale * 1499 as real / 1500 as real;
    let s = scale_factor(wi, hi);
    lemma_scale_is_large(wi, hi, scale);
    lemma_scale_factor(wi, hi);
    let (a, b) = (wr * scale, hr * scale);
    assert(a >= 0 as real && b >= 0 as real) by (nonlinear_arith)
        requires
            a == wr * scale,
            b == hr * scale,
            wr >= 0 as real,
            hr >= 0 as real,
            scale >= 0 as real,
    ;
    assert(wr * t == a * 1499 as real / 1500 as real && hr * t == b * 1499 as real / 1500 as real)
        by (nonlinear_arith)
        requires
            a == wr * scale,
            b == hr * scale,
            t == scale * 1499 as real / 1500 as real,
    ;
    lemma_a_little_smaller_fits(a, b);
    lemma_edge_at_smaller_scale(wi, t, s);
    lemma_edge_at_smaller_scale(hi, t, s);
    law_no_larger_scale_fits(w, h, t);
}

/// An edge at a scale that is clearly smaller is not longer, rounding and all.
proof fn lemma_edge_at_smaller_scale(n: int, t: real, s: real)
    requires
        1 <= n,
        t > 0 as real,
        s > 0 as real,
        t * 1_000_100 as real <= 1_000_000 as real * s,
    ensures
        rounding::round_half_up(n as real * t) <= scaled_edge(n, s),
{
    let nr = n as real;
    let (a, b) = (nr * t, nr * s);
    assert(a * 1_000_100 as real <= 1_000_000 as real * b && b > 0 as real && a > 0 as real)
        by (nonlinear_arith)
        requires
            a == nr * t,
            b == nr * s,
            nr >= 1 as real,
            t > 0 as real,
            s > 0 as real,
            t * 1_000_100 as real <= 1_000_000 as real * s,
    ;
    rounding::lemma_rounded_error(b);
    assert(a <= rounding::rounded(b));
}

/// An edge without pixels counts as one pixel, and every other edge as it is.
pub proof fn law_empty_edges_count_as_one(n: int)
    ensures
        n >= 1 ==> edge(n) == n,
        n < 1 ==> edge(n) == 1,
{
}

/// An image keeps its shape as long as both edges are more than a pixel: the cross products of
/// the edges differ by at most half the sum of the edges.
pub proof fn law_shapes_are_kept(w: u32, h: u32)
    requires
        1 <= w,
        1 <= h,
        target_dims(w as int, h as int).0 >= 2,
        target_dims(w as int, h as int).1 >= 2,
    ensures
        ({
            let t = target_dims(w as int, h as int);
            -(w + h) <= 2 * (t.0 * h - t.1 * w) <= w + h
        }),
{
    lemma_target_dims(w, h);
    law_aspect_ratio_is_kept(w, h);
}

} // verus!
