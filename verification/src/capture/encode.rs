//! From pixels to the text that callers receive: JPEG, then base64.

use super::dims;
use super::error::CaptureError;
use super::pixels::{Raster, RgbImage};
use super::resize;
use crate::output::ScreenshotCapture;
use base64::Engine;
use vstd::prelude::*;

verus! {

/// JPEG quality of every encoded image.
pub const JPEG_QUALITY: u8 = 75;

/// The character that stands for six bits in the standard base64 alphabet.
pub open spec fn sextet(n: int) -> char {
    if n < 26 {
        ('A' as int + n) as char
    } else if n < 52 {
        ('a' as int + n - 26) as char
    } else if n < 62 {
        ('0' as int + n - 52) as char
    } else if n == 62 {
        '+'
    } else {
        '/'
    }
}

/// Bytes as padded standard base64: four characters for every three bytes, the last
/// group filled up with `=`.
pub open spec fn base64_text(b: Seq<u8>) -> Seq<char>
    decreases b.len(),
{
    if b.len() == 0 {
        Seq::empty()
    } else if b.len() == 1 {
        seq![sextet(b[0] as int / 4), sextet(b[0] as int % 4 * 16), '=', '=']
    } else if b.len() == 2 {
        seq![
            sextet(b[0] as int / 4),
            sextet(b[0] as int % 4 * 16 + b[1] as int / 16),
            sextet(b[1] as int % 16 * 4),
            '=',
        ]
    } else {
        seq![
            sextet(b[0] as int / 4),
            sextet(b[0] as int % 4 * 16 + b[1] as int / 16),
            sextet(b[1] as int % 16 * 4 + b[2] as int / 64),
            sextet(b[2] as int % 64),
        ] + base64_text(b.skip(3))
    }
}

/// The base64 text of `len` bytes fits in memory.
pub open spec fn base64_fits(len: int) -> bool {
    (len + 2) / 3 * 4 <= isize::MAX
}

/// `base64::Engine::encode` of the `STANDARD` engine. Trusted: the text is the padded
/// standard base64 of the bytes. The call panics where the text would be longer than
/// memory can hold, so such inputs are left out.
#[verifier::external_body]
fn base64_encode(bytes: &[u8]) -> (r: String)
    requires
        base64_fits(bytes@.len() as int),
    ensures
        r@ == base64_text(bytes@),
{
    base64::engine::general_purpose::STANDARD.encode(bytes)
}

/// The error of the `image` crate.
#[verifier::external_type_specification]
#[verifier::external_body]
pub struct ExImageError(image::ImageError);

/// The JPEG file that `image::codecs::jpeg::JpegEncoder` writes for packed RGB pixels.
pub uninterp spec fn jpeg_file(pixels: Seq<u8>, width: u32, height: u32, quality: u8) -> Seq<u8>;

/// The sizes that a JPEG image can have.
pub open spec fn jpeg_size(width: int, height: int) -> bool {
    1 <= width <= 0xffff && 1 <= height <= 0xffff
}

/// `image::codecs::jpeg::JpegEncoder::new_with_quality` and its `encode` into a byte
/// vector. Trusted: an image is encoded exactly when both edges are between 1 and
/// 65535, and the file depends on nothing but the arguments. The call panics where
/// the number of bytes does not match the size, so such inputs are left out.
#[verifier::external_body]
fn jpeg_encode(pixels: &[u8], width: u32, height: u32, quality: u8) -> (r: Result<
    Vec<u8>,
    image::ImageError,
>)
    requires
        pixels@.len() == width * height * 3,
    ensures
        r is Ok <==> jpeg_size(width as int, height as int),
        r is Ok ==> r->Ok_0@ == jpeg_file(pixels@, width, height, quality),
{
    let mut jpeg: Vec<u8> = Vec::new();
    image::codecs::jpeg::JpegEncoder::new_with_quality(&mut jpeg, quality).encode(
        pixels,
        width,
        height,
        image::ExtendedColorType::Rgb8,
    )?;
    Ok(jpeg)
}

/// `r` reports a JPEG image, or why there is none.
pub open spec fn reports_jpeg(
    r: Result<ScreenshotCapture, CaptureError>,
    jpeg: Option<Seq<u8>>,
    width: u32,
    height: u32,
) -> bool {
    match jpeg {
        Some(file) => if base64_fits(file.len() as int) {
            &&& r is Ok
            &&& r->Ok_0.base64@ == base64_text(file)
            &&& r->Ok_0.width == width
            &&& r->Ok_0.height == height
        } else {
            r == Err::<ScreenshotCapture, CaptureError>(CaptureError::JpegTooLong)
        },
        None => r == Err::<ScreenshotCapture, CaptureError>(
            CaptureError::JpegRejected { width, height },
        ),
    }
}

/// Reports a JPEG image of the given size as base64 text; `None` stands for an image
/// that the encoder refused.
pub fn capture_from_jpeg(jpeg: Option<Vec<u8>>, width: u32, height: u32) -> (r: Result<
    ScreenshotCapture,
    CaptureError,
>)
    ensures
        reports_jpeg(
            r,
            match jpeg {
                Some(file) => Some(file@),
                None => None,
            },
            width,
            height,
        ),
{
    match jpeg {
        Some(file) => {
            let limit: usize = (isize::MAX as usize) / 4;
            let len: usize = file.len();
            let groups: usize = len / 3 + if len % 3 == 0 {
                0
            } else {
                1
            };
            if groups > limit {
                return Err(CaptureError::JpegTooLong);
            }
            Ok(ScreenshotCapture { base64: base64_encode(file.as_slice()), width, height })
        },
        None => Err(CaptureError::JpegRejected { width, height }),
    }
}

/// The image that is encoded: `src` itself where it has the target size, else `src`
/// scaled to it.
pub open spec fn fitted(src: Raster, target: (int, int)) -> Raster {
    if target == (src.width, src.height) {
        src
    } else {
        resize::resized(src, dims::edge(target.0), dims::edge(target.1))
    }
}

/// The JPEG file of an image, where it has one.
pub open spec fn jpeg_of(image: Raster) -> Option<Seq<u8>> {
    if jpeg_size(image.width, image.height) {
        Some(jpeg_file(image.bytes, image.width as u32, image.height as u32, JPEG_QUALITY))
    } else {
        None
    }
}

/// `r` reports the encoding of `src` at the target size.
pub open spec fn reports_image(
    r: Result<ScreenshotCapture, CaptureError>,
    src: Raster,
    target: (int, int),
) -> bool {
    let image = fitted(src, target);
    reports_jpeg(r, jpeg_of(image), image.width as u32, image.height as u32)
}

/// Scales an image to `target` where it has another size, and encodes it as JPEG in
/// base64.
pub fn encode_resized_jpeg_base64(rgb: &RgbImage, target: (u32, u32)) -> (r: Result<
    ScreenshotCapture,
    CaptureError,
>)
    requires
        rgb@.wf(),
        target != (rgb.width, rgb.height) ==> {
            &&& 1 <= rgb.width
            &&& 1 <= rgb.height
            &&& (rgb.height - 1) * rgb.width <= u32::MAX
            &&& dims::edge(target.0 as int) * dims::edge(target.1 as int) <= u32::MAX + 1
            &&& dims::edge(target.0 as int) * dims::edge(target.1 as int) * 3 <= isize::MAX
        },
    ensures
        reports_image(r, rgb@, (target.0 as int, target.1 as int)),
{
    let (tw, th): (u32, u32) = target;
    if tw == rgb.width && th == rgb.height {
        encode_jpeg_base64(rgb)
    } else {
        let scaled = resize::resize_area_average(rgb, tw, th);
        encode_jpeg_base64(&scaled)
    }
}

/// Encodes an image as JPEG in base64.
fn encode_jpeg_base64(rgb: &RgbImage) -> (r: Result<ScreenshotCapture, CaptureError>)
    requires
        rgb@.wf(),
    ensures
        reports_jpeg(r, jpeg_of(rgb@), rgb.width, rgb.height),
{
    let jpeg: Option<Vec<u8>> = match jpeg_encode(
        rgb.pixels.as_slice(),
        rgb.width,
        rgb.height,
        JPEG_QUALITY,
    ) {
        Ok(file) => Some(file),
        Err(_) => None,
    };
    capture_from_jpeg(jpeg, rgb.width, rgb.height)
}

/// What is reported of an image that has the target size: the base64 text of the JPEG file of
/// its own bytes, at its own width and height and at quality 75, and that size.
pub proof fn law_images_of_the_target_size_are_encoded_as_they_are(
    r: Result<ScreenshotCapture, CaptureError>,
    rgb: RgbImage,
)
    requires
        reports_image(r, rgb@, (rgb.width as int, rgb.height as int)),
        1 <= rgb.width <= 65535,
        1 <= rgb.height <= 65535,
    ensures
        ({
            let file = jpeg_file(rgb.pixels@, rgb.width, rgb.height, 75);
            if (file.len() + 2) / 3 * 4 <= isize::MAX {
                &&& r is Ok
                &&& r->Ok_0.base64@ == base64_text(file)
                &&& r->Ok_0.width == rgb.width
                &&& r->Ok_0.height == rgb.height
            } else {
                r == Err::<ScreenshotCapture, CaptureError>(CaptureError::JpegTooLong)
            }
        }),
{
}

/// What is reported of an image that has another size: the base64 text of the JPEG file of the
/// image scaled to the target, at the target's width and height and at quality 75, and that
/// size.
pub proof fn law_other_images_are_scaled_first(
    r: Result<ScreenshotCapture, CaptureError>,
    rgb: RgbImage,
    target: (u32, u32),
    scaled: RgbImage,
)
    requires
        reports_image(r, rgb@, (target.0 as int, target.1 as int)),
        target != (rgb.width, rgb.height),
        1 <= target.0 <= 65535,
        1 <= target.1 <= 65535,
        scaled@ == resize::resized(rgb@, target.0 as int, target.1 as int),
    ensures
        scaled.width == target.0,
        scaled.height == target.1,
        ({
            let file = jpeg_file(scaled.pixels@, target.0, target.1, 75);
            if (file.len() + 2) / 3 * 4 <= isize::MAX {
                &&& r is Ok
                &&& r->Ok_0.base64@ == base64_text(file)
                &&& r->Ok_0.width == target.0
                &&& r->Ok_0.height == target.1
            } else {
                r == Err::<ScreenshotCapture, CaptureError>(CaptureError::JpegTooLong)
            }
        }),
{
    resize::law_scaled_size(rgb@, target.0 as int, target.1 as int);
}

/// What is refused: an image with an edge that a JPEG cannot have, none or more than 65535
/// pixels, and the refusal names the image's own width and height.
pub proof fn law_refused_images_are_named(
    r: Result<ScreenshotCapture, CaptureError>,
    rgb: RgbImage,
)
    requires
        reports_image(r, rgb@, (rgb.width as int, rgb.height as int)),
        rgb.width < 1 || rgb.width > 65535 || rgb.height < 1 || rgb.height > 65535,
    ensures
        r == Err::<ScreenshotCapture, CaptureError>(
            CaptureError::JpegRejected { width: rgb.width, height: rgb.height },
        ),
{
}

/// What is reported keeps the caps: an image that is encoded at the size that the caps give it
/// is reported with edges of at most 1568 pixels and at most 1,150,000 pixels in all, not
/// larger than it was, and, unless an edge is down to a pixel, in its own proportions as near
/// as whole pixels allow. The text is that of the JPEG file of the image at the reported size,
/// scaled unless it has that size.
pub proof fn law_reported_sizes_keep_the_caps(
    r: Result<ScreenshotCapture, CaptureError>,
    src: Raster,
)
    requires
        reports_image(r, src, dims::target_dims(src.width, src.height)),
        1 <= src.width <= u32::MAX,
        1 <= src.height <= u32::MAX,
        r is Ok,
    ensures
        ({
            let (w, h) = (r->Ok_0.width, r->Ok_0.height);
            let bytes = if w == src.width && h == src.height {
                src.bytes
            } else {
                resize::resized(src, w as int, h as int).bytes
            };
            &&& 1 <= w <= 1568
            &&& 1 <= h <= 1568
            &&& w * h <= 1_150_000
            &&& w <= src.width
            &&& h <= src.height
            &&& src.width <= 1568 && src.height <= 1568 && src.width * src.height <= 1_150_000 ==> w
                == src.width && h == src.height
            &&& w >= 2 && h >= 2 ==> -(src.width + src.height) <= 2 * (w * src.height - h
                * src.width) <= src.width + src.height
            &&& r->Ok_0.base64@ == base64_text(jpeg_file(bytes, w, h, 75))
        }),
{
    let (w, h) = (src.width as u32, src.height as u32);
    let t = dims::target_dims(src.width, src.height);
    dims::law_never_enlarges(w, h);
    dims::law_long_edge_is_capped(w, h);
    dims::law_pixels_are_capped(w, h);
    if w <= 1568 && h <= 1568 && w * h <= 1_150_000 {
        dims::law_small_images_keep_their_size(w, h);
    }
    resize::law_scaled_size(src, t.0, t.1);
    if t.0 >= 2 && t.1 >= 2 {
        dims::law_shapes_are_kept(w, h);
    }
}

} // verus!
