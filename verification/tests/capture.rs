use wlroots_bridge::capture::dims::{compute_target_dims, MAX_LONG_EDGE, MAX_PIXELS};
use wlroots_bridge::capture::encode::{capture_from_jpeg, encode_resized_jpeg_base64};
use wlroots_bridge::capture::error::CaptureError;
use wlroots_bridge::capture::frame::{
    find_output, shm_fallback_path, shm_layout, CaptureAction, CapturePhase, CaptureRun,
    CaptureState, FrameEvent, MAX_COPY_ROUNDS,
};
use wlroots_bridge::capture::pixels::{crop_rgb, decode_shm, BufferFormat, PixelFormat, RgbImage};
use wlroots_bridge::capture::resize::resize_area_average;
use wlroots_bridge::capture::shot::{check_region, screenshot, zoom, zoom_region};
use wlroots_bridge::conn::OutputEntry;
use wlroots_bridge::screens::OutputGeometry;

#[test]
fn xrgb8888_is_bgrx() {
    let data = [0x10u8, 0x20, 0x30, 0xFF];
    let fmt = BufferFormat { format: PixelFormat::Xrgb8888, width: 1, height: 1, stride: 4 };
    let img = decode_shm(&data, fmt, false).unwrap();
    assert_eq!(img.pixels, vec![0x30, 0x20, 0x10]);
}

#[test]
fn xbgr8888_is_rgbx() {
    let data = [0x30u8, 0x20, 0x10, 0xFF];
    let fmt = BufferFormat { format: PixelFormat::Xbgr8888, width: 1, height: 1, stride: 4 };
    let img = decode_shm(&data, fmt, false).unwrap();
    assert_eq!(img.pixels, vec![0x30, 0x20, 0x10]);
}

#[test]
fn y_invert_reads_bottom_up() {
    let data = [0x00, 0x00, 0xFF, 0xFF, 0x00, 0xFF, 0x00, 0xFF];
    let fmt = BufferFormat { format: PixelFormat::Xrgb8888, width: 1, height: 2, stride: 4 };
    let img = decode_shm(&data, fmt, true).unwrap();
    assert_eq!(&img.pixels[0..3], &[0x00, 0xFF, 0x00]);
    assert_eq!(&img.pixels[3..6], &[0xFF, 0x00, 0x00]);
}

#[test]
fn stride_padding_respected() {
    let data = [
        0x10, 0x20, 0x30, 0xFF, 0, 0, 0, 0, 0x40, 0x50, 0x60, 0xFF, 0, 0, 0, 0,
    ];
    let fmt = BufferFormat { format: PixelFormat::Xrgb8888, width: 1, height: 2, stride: 8 };
    let img = decode_shm(&data, fmt, false).unwrap();
    assert_eq!(&img.pixels[0..3], &[0x30, 0x20, 0x10]);
    assert_eq!(&img.pixels[3..6], &[0x60, 0x50, 0x40]);
}

#[test]
fn rejects_short_buffer() {
    let data = [0u8; 3];
    let fmt = BufferFormat { format: PixelFormat::Xrgb8888, width: 1, height: 1, stride: 4 };
    assert!(decode_shm(&data, fmt, false).is_err());
    assert_eq!(
        decode_shm(&data, fmt, false).unwrap_err(),
        CaptureError::ShortBuffer { len: 3, needed: 4, width: 1, height: 1 }
    );
}

/// The code of `wl_shm`'s one-byte palette format.
const C8: u32 = 0x2020_3843;

#[test]
fn rejects_unknown_format() {
    let data = [0u8; 4];
    let fmt =
        BufferFormat { format: PixelFormat::from_code(C8), width: 1, height: 1, stride: 4 };
    assert!(decode_shm(&data, fmt, false).is_err());
    assert_eq!(
        decode_shm(&data, fmt, false).unwrap_err(),
        CaptureError::UnsupportedFormat(C8)
    );
}

#[test]
fn the_buffer_size_must_fit() {
    let fmt = BufferFormat {
        format: PixelFormat::Argb8888,
        width: 1,
        height: u32::MAX,
        stride: u32::MAX,
    };
    let e = decode_shm(&[], fmt, false).unwrap_err();
    if usize::BITS == 64 {
        assert_eq!(
            e,
            CaptureError::ShortBuffer {
                len: 0,
                needed: 0xffff_fffe_0000_0001,
                width: 1,
                height: u32::MAX,
            }
        );
    } else {
        assert_eq!(e, CaptureError::SizeOverflow);
    }
}

#[test]
fn format_codes_are_those_of_the_protocol() {
    assert_eq!(PixelFormat::from_code(0), PixelFormat::Argb8888);
    assert_eq!(PixelFormat::from_code(1), PixelFormat::Xrgb8888);
    assert_eq!(PixelFormat::from_code(u32::from_le_bytes(*b"AB24")), PixelFormat::Abgr8888);
    assert_eq!(PixelFormat::from_code(u32::from_le_bytes(*b"XB24")), PixelFormat::Xbgr8888);
    assert_eq!(PixelFormat::from_code(C8), PixelFormat::Other(C8));
}

#[test]
fn argb_and_abgr_mirror_each_other() {
    let data: Vec<u8> = (0u8..24).collect();
    let a = BufferFormat { format: PixelFormat::Argb8888, width: 3, height: 2, stride: 12 };
    let b = BufferFormat { format: PixelFormat::Abgr8888, ..a };
    let x = decode_shm(&data, a, false).unwrap();
    let y = decode_shm(&data, b, false).unwrap();
    for i in 0..6 {
        assert_eq!(x.pixels[3 * i], y.pixels[3 * i + 2]);
        assert_eq!(x.pixels[3 * i + 1], y.pixels[3 * i + 1]);
        assert_eq!(x.pixels[3 * i + 2], y.pixels[3 * i]);
    }
}

fn solid(w: u32, h: u32, rgb: [u8; 3]) -> RgbImage {
    let mut pixels = Vec::with_capacity((w * h * 3) as usize);
    for _ in 0..(w * h) {
        pixels.extend_from_slice(&rgb);
    }
    RgbImage { width: w, height: h, pixels }
}

#[test]
fn crop_clamps_and_extracts() {
    let mut img = solid(4, 4, [0, 0, 0]);
    let idx = (2 * 4 + 2) * 3;
    img.pixels[idx] = 255;
    img.pixels[idx + 1] = 255;
    img.pixels[idx + 2] = 255;

    let c = crop_rgb(&img, 1, 1, 2, 2).unwrap();
    assert_eq!(c.width, 2);
    assert_eq!(c.height, 2);
    let cidx = (2 + 1) * 3;
    assert_eq!(&c.pixels[cidx..cidx + 3], &[255, 255, 255]);
}

#[test]
fn crop_outside_errors() {
    let img = solid(4, 4, [0, 0, 0]);
    assert!(crop_rgb(&img, 100, 100, 10, 10).is_err());
    assert_eq!(crop_rgb(&img, 4, 0, 1, 1).unwrap_err(), CaptureError::RegionOutside);
}

#[test]
fn crop_clips_what_sticks_out() {
    let img = pattern(5, 4);
    let c = crop_rgb(&img, -2, -1, 4, 3).unwrap();
    assert_eq!((c.width, c.height), (2, 2));
    let c = crop_rgb(&img, 3, 2, 100, 100).unwrap();
    assert_eq!((c.width, c.height), (2, 2));
    assert_eq!(&c.pixels[0..3], &img.pixels[(2 * 5 + 3) * 3..(2 * 5 + 3) * 3 + 3]);
    let c = crop_rgb(&img, 0, 0, 5, 4).unwrap();
    assert_eq!(c.pixels, img.pixels);
}

#[test]
fn crop_clamps_regions_of_any_size() {
    let img = RgbImage { width: 2, height: 1, pixels: vec![1, 2, 3, 4, 5, 6] };
    let c = crop_rgb(&img, 1, 0, i32::MAX, 1).unwrap();
    assert_eq!((c.width, c.height), (1, 1));
    assert_eq!(c.pixels, vec![4, 5, 6]);
    let c = crop_rgb(&img, 0, 0, i32::MAX, i32::MAX).unwrap();
    assert_eq!(c.pixels, img.pixels);
    assert!(crop_rgb(&img, i32::MAX, 0, i32::MAX, 1).is_err());
    assert!(crop_rgb(&img, i32::MIN, 0, i32::MIN, 1).is_err());
}

#[test]
fn target_dims_no_downscale_when_small() {
    assert_eq!(compute_target_dims(800, 600), (800, 600));
}

#[test]
fn target_dims_pixel_cap_1080p() {
    let (w, h) = compute_target_dims(1920, 1080);
    assert!((w * h) <= MAX_PIXELS + 2000);
    assert!(w <= MAX_LONG_EDGE);
    let ratio = w as f64 / h as f64;
    assert!((ratio - (1920.0 / 1080.0)).abs() < 0.02, "ratio {ratio}");
    assert_eq!((w, h), (1430, 804));
}

fn float_dims(w: u32, h: u32) -> (u32, u32) {
    let phys_w = (w.max(1)) as f64;
    let phys_h = (h.max(1)) as f64;
    let long_edge_scale = 1568f64 / phys_w.max(phys_h);
    let pixel_scale = (1_150_000f64 / (phys_w * phys_h)).sqrt();
    let scale = 1.0_f64.min(long_edge_scale).min(pixel_scale);
    let mut a = (phys_w * scale).round().max(1.0) as u32;
    let mut b = (phys_h * scale).round().max(1.0) as u32;
    while a * b > 1_150_000 {
        let at = (f64::from(a) - 0.5) / phys_w;
        let bt = (f64::from(b) - 0.5) / phys_h;
        if at >= bt {
            a -= 1;
        }
        if at <= bt {
            b -= 1;
        }
    }
    (a, b)
}

fn random(state: &mut u64) -> u64 {
    *state ^= *state << 13;
    *state ^= *state >> 7;
    *state ^= *state << 17;
    *state
}

#[test]
fn target_dims_agree_with_machine_doubles() {
    for (w, h) in [
        (0, 0),
        (0, 7),
        (1, 1),
        (1568, 1568),
        (1569, 1),
        (1, 1569),
        (3840, 2160),
        (2560, 1440),
        (1366, 768),
        (u32::MAX, u32::MAX),
        (u32::MAX, 1),
        (1, u32::MAX),
    ] {
        assert_eq!(compute_target_dims(w, h), float_dims(w, h), "{w}x{h}");
    }
    let mut s = 0x9e37_79b9_7f4a_7c15u64;
    for _ in 0..20_000 {
        let r = random(&mut s);
        let (w, h) = ((r as u32) >> (r >> 60), ((r >> 24) as u32) >> ((r >> 56) % 16));
        assert_eq!(compute_target_dims(w, h), float_dims(w, h), "{w}x{h}");
    }
}

#[test]
fn the_pixel_cap_is_kept_after_rounding() {
    assert_eq!(compute_target_dims(1600, 1200), (1238, 928));
    assert_eq!(compute_target_dims(1200, 1600), (928, 1238));
    assert_eq!(compute_target_dims(4000, 4000), (1072, 1072));
}

#[test]
fn no_larger_scale_fits_the_caps() {
    for (w, h) in [(1600u32, 1200u32), (1920, 1080), (1366, 1024), (2560, 1600), (5000, 5000)] {
        let (tw, th) = compute_target_dims(w, h);
        // the next size as the scale grows: the edge whose rounding comes first is longer
        let up = (u64::from(2 * tw + 1) * u64::from(h), u64::from(2 * th + 1) * u64::from(w));
        let (a, b) = match (up.0 <= up.1, up.1 <= up.0) {
            (true, true) => (tw + 1, th + 1),
            (true, false) => (tw + 1, th),
            _ => (tw, th + 1),
        };
        assert!(a * b > MAX_PIXELS || a > MAX_LONG_EDGE || b > MAX_LONG_EDGE, "{w}x{h}");
    }
}

#[test]
fn target_dims_keep_their_laws() {
    let mut s = 0x1234_5678_9abc_def1u64;
    for _ in 0..2_000 {
        let r = random(&mut s);
        let (w, h) = ((r as u32) % 9000 + 1, ((r >> 32) as u32) % 9000 + 1);
        let (tw, th) = compute_target_dims(w, h);
        assert!(tw >= 1 && tw <= w && th >= 1 && th <= h);
        assert!(tw <= MAX_LONG_EDGE && th <= MAX_LONG_EDGE);
        assert!(tw * th <= MAX_PIXELS);
        assert_eq!(compute_target_dims(h, w), (th, tw));
        let off = i64::from(tw) * i64::from(h) - i64::from(th) * i64::from(w);
        assert!(2 * off.abs() <= i64::from(w) + i64::from(h));
        if w <= MAX_LONG_EDGE && h <= MAX_LONG_EDGE && w * h <= MAX_PIXELS {
            assert_eq!((tw, th), (w, h));
        }
    }
}

#[test]
fn resize_half_averages() {
    let src = solid(2, 2, [100, 100, 100]);
    let out = resize_area_average(&src, 1, 1);
    assert_eq!(out.pixels, vec![100, 100, 100]);
}

#[test]
fn resize_half_mixed_averages() {
    let src = RgbImage { width: 2, height: 1, pixels: vec![0, 0, 0, 255, 255, 255] };
    let out = resize_area_average(&src, 1, 1);
    assert_eq!(out.pixels, vec![127, 127, 127]);
}

fn pattern(w: u32, h: u32) -> RgbImage {
    let mut pixels = Vec::new();
    let mut s = 77u64 + u64::from(w) * 1000 + u64::from(h);
    for _ in 0..(w * h * 3) {
        pixels.push(random(&mut s) as u8);
    }
    RgbImage { width: w, height: h, pixels }
}

fn float_resize(src: &RgbImage, dst_w: u32, dst_h: u32) -> Vec<u8> {
    let dst_w = dst_w.max(1);
    let dst_h = dst_h.max(1);
    let (sw, sh) = (src.width, src.height);
    let mut out = vec![0u8; (dst_w as usize) * (dst_h as usize) * 3];
    let x_ratio = sw as f64 / dst_w as f64;
    let y_ratio = sh as f64 / dst_h as f64;
    for dy in 0..dst_h {
        let sy0 = (dy as f64 * y_ratio).floor() as u32;
        let sy1 = (((dy + 1) as f64 * y_ratio).ceil() as u32).min(sh).max(sy0 + 1);
        for dx in 0..dst_w {
            let sx0 = (dx as f64 * x_ratio).floor() as u32;
            let sx1 = (((dx + 1) as f64 * x_ratio).ceil() as u32).min(sw).max(sx0 + 1);
            for c in 0..3usize {
                let mut sum = 0u64;
                let mut count = 0u64;
                for sy in sy0..sy1 {
                    for sx in sx0..sx1 {
                        sum += u64::from(src.pixels[((sy * sw + sx) as usize) * 3 + c]);
                        count += 1;
                    }
                }
                out[((dy * dst_w + dx) as usize) * 3 + c] = (sum / count) as u8;
            }
        }
    }
    out
}

#[test]
fn resize_agrees_with_machine_doubles() {
    for (w, h, tw, th) in [
        (7, 5, 3, 2),
        (10, 10, 3, 7),
        (31, 17, 30, 16),
        (49, 49, 7, 48),
        (3, 2, 5, 4),
        (1, 1, 4, 4),
        (64, 3, 6, 0),
        (100, 60, 99, 59),
    ] {
        let src = pattern(w, h);
        let out = resize_area_average(&src, tw, th);
        assert_eq!((out.width, out.height), (tw.max(1), th.max(1)));
        assert_eq!(out.pixels, float_resize(&src, tw, th), "{w}x{h} -> {tw}x{th}");
    }
}

#[test]
fn resize_to_the_same_size_changes_nothing() {
    let src = pattern(13, 11);
    assert_eq!(resize_area_average(&src, 13, 11).pixels, src.pixels);
}

#[test]
fn resize_stays_in_the_range_of_the_source() {
    let src = pattern(40, 30);
    let (lo, hi) = (*src.pixels.iter().min().unwrap(), *src.pixels.iter().max().unwrap());
    let out = resize_area_average(&src, 9, 8);
    assert!(out.pixels.iter().all(|p| *p >= lo && *p <= hi));
}

#[test]
fn base64_is_the_padded_standard_one() {
    for (bytes, text) in [
        (&b""[..], ""),
        (&b"f"[..], "Zg=="),
        (&b"fo"[..], "Zm8="),
        (&b"foo"[..], "Zm9v"),
        (&b"foobar"[..], "Zm9vYmFy"),
        (&[0xfb, 0xef, 0xff][..], "++//"),
    ] {
        let r = capture_from_jpeg(Some(bytes.to_vec()), 3, 4).unwrap();
        assert_eq!(r.base64, text);
        assert_eq!((r.width, r.height), (3, 4));
    }
    assert_eq!(
        capture_from_jpeg(None, 3, 4).unwrap_err(),
        CaptureError::JpegRejected { width: 3, height: 4 }
    );
}

fn unbase64(text: &str) -> Vec<u8> {
    let value = |c: u8| -> u32 {
        match c {
            b'A'..=b'Z' => u32::from(c - b'A'),
            b'a'..=b'z' => u32::from(c - b'a') + 26,
            b'0'..=b'9' => u32::from(c - b'0') + 52,
            b'+' => 62,
            b'/' => 63,
            _ => panic!("not base64"),
        }
    };
    let mut out = Vec::new();
    for group in text.as_bytes().chunks(4) {
        let pad = group.iter().filter(|c| **c == b'=').count();
        let mut n = 0u32;
        for c in group {
            n = n * 64 + if *c == b'=' { 0 } else { value(*c) };
        }
        let bytes = n.to_be_bytes();
        out.extend_from_slice(&bytes[1..4 - pad]);
    }
    out
}

/// The JPEG of the `image` crate at quality 75.
fn jpeg(rgb: &RgbImage) -> Vec<u8> {
    let mut file = Vec::new();
    image::codecs::jpeg::JpegEncoder::new_with_quality(&mut file, 75)
        .encode(&rgb.pixels, rgb.width, rgb.height, image::ExtendedColorType::Rgb8)
        .unwrap();
    file
}

#[test]
fn encoding_gives_a_jpeg_of_quality_75() {
    let src = pattern(20, 10);
    let r = encode_resized_jpeg_base64(&src, (20, 10)).unwrap();
    let file = unbase64(&r.base64);
    assert_eq!(&file[0..2], &[0xff, 0xd8]);
    assert_eq!(&file[file.len() - 2..], &[0xff, 0xd9]);
    assert_eq!(file, jpeg(&src));
    assert_ne!(file, src.pixels);
    assert_eq!((r.width, r.height), (20, 10));
}

#[test]
fn encoding_scales_first() {
    let src = pattern(20, 10);
    let r = encode_resized_jpeg_base64(&src, (5, 4)).unwrap();
    assert_eq!((r.width, r.height), (5, 4));
    assert_eq!(unbase64(&r.base64), jpeg(&resize_area_average(&src, 5, 4)));
}

#[test]
fn the_encoder_refuses_long_edges() {
    let long = solid(65_536, 1, [1, 2, 3]);
    assert_eq!(
        encode_resized_jpeg_base64(&long, (65_536, 1)).unwrap_err(),
        CaptureError::JpegRejected { width: 65_536, height: 1 }
    );
    let longest = solid(65_535, 1, [1, 2, 3]);
    assert!(encode_resized_jpeg_base64(&longest, (65_535, 1)).is_ok());
    let empty = RgbImage { width: 0, height: 0, pixels: vec![] };
    assert_eq!(
        encode_resized_jpeg_base64(&empty, (0, 0)).unwrap_err(),
        CaptureError::JpegRejected { width: 0, height: 0 }
    );
}

fn geometry(x: i32, y: i32, w: i32, h: i32) -> OutputGeometry {
    OutputGeometry {
        registry_name: 9,
        name: Some("DP-1".to_owned()),
        scale: 1,
        logical_x: Some(x),
        logical_y: Some(y),
        logical_width: Some(w),
        logical_height: Some(h),
        mode_width: None,
        mode_height: None,
        refresh_millihz: None,
    }
}

#[test]
fn a_screenshot_reports_where_the_output_lies() {
    let rgb = pattern(40, 20);
    let s = screenshot(&geometry(-5, 7, 20, 10), &rgb).unwrap();
    assert_eq!(unbase64(&s.base64), jpeg(&rgb));
    assert_eq!((s.width, s.height), (40, 20));
    assert_eq!((s.display_width, s.display_height), (20, 10));
    assert_eq!((s.origin_x, s.origin_y), (-5, 7));
    assert_eq!(s.display_id, "DP-1");
    let s = screenshot(&geometry(0, 0, -3, -4), &rgb).unwrap();
    assert_eq!((s.display_width, s.display_height), (0, 0));
}

#[test]
fn a_large_screenshot_is_scaled_down() {
    let rgb = solid(1600, 900, [9, 8, 7]);
    let s = screenshot(&geometry(0, 0, 1600, 900), &rgb).unwrap();
    assert_eq!((s.width, s.height), compute_target_dims(1600, 900));
    assert_eq!(
        unbase64(&s.base64),
        jpeg(&resize_area_average(&rgb, s.width, s.height))
    );
}

#[test]
fn zoom_crops_in_logical_pixels() {
    let rgb = pattern(60, 30);
    let r = zoom(&geometry(0, 0, 40, 20), &rgb, 10, 4, 8, 6).unwrap();
    assert_eq!((r.width, r.height), (12, 9));
    assert_eq!(unbase64(&r.base64), jpeg(&crop_rgb(&rgb, 15, 6, 12, 9).unwrap()));
}

#[test]
fn zoom_clamps_regions_of_any_size() {
    let rgb = pattern(50, 30);
    let r = zoom(&geometry(0, 0, 50, 30), &rgb, 10, 5, i32::MAX, i32::MAX).unwrap();
    assert_eq!(unbase64(&r.base64), jpeg(&crop_rgb(&rgb, 10, 5, 40, 25).unwrap()));
}

#[test]
fn zoom_on_everything_is_everything() {
    let rgb = pattern(50, 30);
    let r = zoom(&geometry(0, 0, 33, 19), &rgb, 0, 0, 33, 19).unwrap();
    assert_eq!(unbase64(&r.base64), jpeg(&rgb));
}

#[test]
fn zoom_refuses_empty_and_outside_regions() {
    let rgb = pattern(10, 10);
    let g = geometry(0, 0, 10, 10);
    assert_eq!(zoom(&g, &rgb, 0, 0, 0, 5).unwrap_err(), CaptureError::EmptyRegion);
    assert_eq!(zoom(&g, &rgb, 0, 0, 5, -1).unwrap_err(), CaptureError::EmptyRegion);
    assert_eq!(zoom(&g, &rgb, 10, 0, 5, 5).unwrap_err(), CaptureError::RegionOutside);
    let none = RgbImage { width: 0, height: 0, pixels: vec![] };
    assert_eq!(zoom(&g, &none, 0, 0, 5, 5).unwrap_err(), CaptureError::RegionOutside);
    assert_eq!(check_region(1, 1), Ok(()));
    assert_eq!(check_region(0, 1), Err(CaptureError::EmptyRegion));
}

#[test]
fn zoom_regions_agree_with_machine_doubles() {
    let mut s = 0xdead_beef_1234_5678u64;
    for _ in 0..20_000 {
        let r = random(&mut s);
        let q = random(&mut s);
        let (pw, ph) = ((r as u32) % 20_000, ((r >> 32) as u32) % 20_000);
        let (lw, lh) = ((q as i32) % 8_000, ((q >> 32) as i32) % 8_000);
        let t = random(&mut s);
        let (x, y) = ((t as i32) >> (t >> 59), ((t >> 32) as i32) >> (r >> 59));
        let (w, h) = ((q >> 3) as u32 % 0x8000_0000, (t >> 3) as u32 % 5000);
        let sx = pw as f64 / lw.max(1) as f64;
        let sy = ph as f64 / lh.max(1) as f64;
        let expected = (
            (x.max(0) as f64 * sx).round() as i32,
            (y.max(0) as f64 * sy).round() as i32,
            (w as f64 * sx).round() as i32,
            (h as f64 * sy).round() as i32,
        );
        assert_eq!(zoom_region(&geometry(0, 0, lw, lh), pw, ph, x, y, w, h), expected);
    }
}

#[test]
fn unscaled_regions_stay() {
    let g = geometry(3, 4, 1920, 1080);
    assert_eq!(zoom_region(&g, 1920, 1080, 17, 23, 101, 59), (17, 23, 101, 59));
}

fn buffer(width: u32) -> FrameEvent {
    FrameEvent::Buffer { format: Some(1), width, height: 2, stride: 4 * width }
}

#[test]
fn a_capture_goes_through() {
    let mut run = CaptureRun::new();
    run.state.event(buffer(3));
    let fmt = BufferFormat { format: PixelFormat::Xrgb8888, width: 3, height: 2, stride: 12 };
    assert_eq!(run.advance(), CaptureAction::Copy(fmt));
    assert_eq!(run.advance(), CaptureAction::Roundtrip);
    run.state.event(FrameEvent::Flags { flags: Some(1) });
    run.state.event(FrameEvent::Ready);
    assert_eq!(run.advance(), CaptureAction::Decode { fmt, y_invert: true });
    assert_eq!(run.phase, CapturePhase::Finished);
}

#[test]
fn a_capture_fails_as_it_should() {
    let mut run = CaptureRun::new();
    assert_eq!(run.advance(), CaptureAction::Fail(CaptureError::NoBufferFormat));

    let mut run = CaptureRun::new();
    run.state.event(buffer(3));
    run.advance();
    run.state.event(FrameEvent::Ready);
    run.state.event(FrameEvent::Failed);
    assert_eq!(run.advance(), CaptureAction::Fail(CaptureError::CopyFailed));

    let mut run = CaptureRun::new();
    run.state.event(buffer(3));
    run.advance();
    let mut rounds = 1;
    while run.advance() == CaptureAction::Roundtrip {
        rounds += 1;
    }
    assert_eq!(rounds, MAX_COPY_ROUNDS);
    assert_eq!(run.phase, CapturePhase::Finished);
}

#[test]
fn the_copy_unfinished_error_is_reported() {
    let mut run = CaptureRun::new();
    run.state.event(buffer(1));
    run.advance();
    let mut last = run.advance();
    while last == CaptureAction::Roundtrip {
        last = run.advance();
    }
    assert_eq!(last, CaptureAction::Fail(CaptureError::CopyUnfinished));
}

#[test]
fn unknown_frame_values_are_passed_over() {
    let mut state = CaptureState::new();
    let before = state;
    state.event(FrameEvent::Buffer { format: None, width: 1, height: 1, stride: 4 });
    state.event(FrameEvent::Flags { flags: None });
    state.event(FrameEvent::Other);
    assert_eq!(state, before);
}

fn entry(registry_name: u32) -> OutputEntry {
    OutputEntry {
        wl_output: registry_name + 100,
        registry_name,
        name: None,
        scale: 1,
        logical_x: None,
        logical_y: None,
        logical_width: None,
        logical_height: None,
        mode_width: None,
        mode_height: None,
        refresh_millihz: None,
    }
}

#[test]
fn outputs_are_found_again() {
    let entries = vec![entry(4), entry(7), entry(7)];
    assert_eq!(find_output(&entries, 7), Ok(1));
    assert_eq!(find_output(&entries, 5), Err(CaptureError::OutputVanished));
}

#[test]
fn shared_memory_is_laid_out() {
    let fmt = BufferFormat { format: PixelFormat::Xrgb8888, width: 3, height: 2, stride: 16 };
    let l = shm_layout(fmt);
    assert_eq!((l.size, l.pool_size, l.width, l.height, l.stride), (32, 32, 3, 2, 16));
    let fmt = BufferFormat { stride: 0x8000_0000, height: 1, ..fmt };
    let l = shm_layout(fmt);
    assert_eq!((l.pool_size, l.stride), (i32::MIN, i32::MIN));
}

#[test]
fn the_fallback_path_names_the_process() {
    assert_eq!(
        shm_fallback_path(Some("/run/user/7".to_owned()), 4321),
        "/run/user/7/wlroots-bridge-shm-4321"
    );
    assert_eq!(shm_fallback_path(None, 0), "/tmp/wlroots-bridge-shm-0");
}
