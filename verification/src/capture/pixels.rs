//! Packed RGB images: decoding the compositor's buffer, and cropping.

use super::error::CaptureError;
use vstd::arithmetic::div_mod;
use vstd::prelude::*;

verus! {

/// A packed RGB image as a mathematical value.
#[verifier::ext_equal]
pub struct Raster {
    pub width: int,
    pub height: int,
    /// Row by row, three bytes (red, green, blue) per pixel.
    pub bytes: Seq<u8>,
}

impl Raster {
    /// The byte count matches the dimensions.
    pub open spec fn wf(self) -> bool {
        &&& 0 <= self.width
        &&& 0 <= self.height
        &&& self.bytes.len() == self.width * self.height * 3
    }

    /// Channel `c` (red, green, blue) at column `x` of row `y`.
    pub open spec fn at(self, x: int, y: int, c: int) -> u8 {
        self.bytes[(y * self.width + x) * 3 + c]
    }
}

/// The image of `w` by `h` pixels whose channel `c` at column `x` of row `y` is
/// `f(x, y, c)`.
pub open spec fn raster(w: int, h: int, f: spec_fn(int, int, int) -> u8) -> Raster {
    Raster {
        width: w,
        height: h,
        bytes: Seq::new((w * h * 3) as nat, |i: int| f((i / 3) % w, (i / 3) / w, i % 3)),
    }
}

/// A packed 8-bit-per-channel RGB image (row-major, no padding).
#[derive(Debug)]
pub struct RgbImage {
    pub width: u32,
    pub height: u32,
    /// `width * height * 3` bytes, R, G, B per pixel.
    pub pixels: Vec<u8>,
}

impl View for RgbImage {
    type V = Raster;

    open spec fn view(&self) -> Raster {
        Raster {
            width: self.width as int,
            height: self.height as int,
            bytes: self.pixels@,
        }
    }
}

/// The pixel layouts that a compositor's shared-memory buffer may have.
#[derive(Clone, Copy, Debug, PartialEq, Eq)]
pub enum PixelFormat {
    /// `0xAARRGGBB`, little-endian: bytes B, G, R, A.
    Argb8888,
    /// As `Argb8888`, the alpha byte unused.
    Xrgb8888,
    /// `0xAABBGGRR`, little-endian: bytes R, G, B, A.
    Abgr8888,
    /// As `Abgr8888`, the alpha byte unused.
    Xbgr8888,
    /// Any other format, by its `wl_shm` code.
    Other(u32),
}

impl PixelFormat {
    /// The format with the given `wl_shm` code.
    pub open spec fn spec_from_code(code: u32) -> PixelFormat {
        if code == 0 {
            PixelFormat::Argb8888
        } else if code == 1 {
            PixelFormat::Xrgb8888
        } else if code == 0x3432_4241 {
            PixelFormat::Abgr8888
        } else if code == 0x3432_4258 {
            PixelFormat::Xbgr8888
        } else {
            PixelFormat::Other(code)
        }
    }

    /// Reads a `wl_shm` format code.
    pub fn from_code(code: u32) -> (r: PixelFormat)
        ensures
            r == PixelFormat::spec_from_code(code),
    {
        if code == 0 {
            PixelFormat::Argb8888
        } else if code == 1 {
            PixelFormat::Xrgb8888
        } else if code == 0x3432_4241 {
            PixelFormat::Abgr8888
        } else if code == 0x3432_4258 {
            PixelFormat::Xbgr8888
        } else {
            PixelFormat::Other(code)
        }
    }

    /// Where channel `c` (red, green, blue) sits in the four bytes of a pixel.
    pub open spec fn channel_offset(self, c: int) -> int {
        match self {
            PixelFormat::Argb8888 | PixelFormat::Xrgb8888 => 2 - c,
            _ => c,
        }
    }
}

/// The buffer that the compositor will copy an output into.
#[derive(Clone, Copy, Debug, PartialEq, Eq)]
pub struct BufferFormat {
    pub format: PixelFormat,
    pub width: u32,
    pub height: u32,
    /// Bytes from one row to the next.
    pub stride: u32,
}

impl BufferFormat {
    /// The number of bytes that the buffer holds.
    pub open spec fn size(self) -> int {
        self.stride * self.height
    }

    /// The buffer row that image row `y` is read from.
    pub open spec fn source_row(self, y: int, y_invert: bool) -> int {
        if y_invert {
            self.height - 1 - y
        } else {
            y
        }
    }

    /// The image that a buffer with this description holds.
    pub open spec fn image(self, data: Seq<u8>, y_invert: bool) -> Raster {
        raster(
            self.width as int,
            self.height as int,
            |x: int, y: int, c: int|
                data[self.source_row(y, y_invert) * self.stride + x * 4 + self.format.channel_offset(
                    c,
                )],
        )
    }

    /// Why `len` bytes cannot be decoded as this buffer, if they cannot.
    pub open spec fn decode_error(self, len: int) -> Option<CaptureError> {
        if self.size() > usize::MAX {
            Some(CaptureError::SizeOverflow)
        } else if len < self.size() {
            Some(
                CaptureError::ShortBuffer {
                    len: len as usize,
                    needed: self.size() as usize,
                    width: self.width,
                    height: self.height,
                },
            )
        } else {
            match self.format {
                PixelFormat::Other(code) => Some(CaptureError::UnsupportedFormat(code)),
                _ => None,
            }
        }
    }

    /// Every row's pixels lie inside `len` bytes, and the image fits in memory.
    pub open spec fn readable(self, len: int) -> bool {
        &&& self.height == 0 || (self.height - 1) * self.stride + self.width * 4 <= len
        &&& self.width * self.height * 3 <= isize::MAX
    }
}

/// The column and row of the pixel with number `row * w + col`.
pub proof fn lemma_pixel_position(w: int, row: int, col: int)
    requires
        0 <= col < w,
    ensures
        (row * w + col) / w == row,
        (row * w + col) % w == col,
{
    div_mod::lemma_fundamental_div_mod_converse(row * w + col, w, row, col);
}

/// The pixel number of a position inside an image is below the number of pixels.
pub proof fn lemma_pixel_number(w: int, h: int, row: int, col: int)
    requires
        0 <= col < w,
        0 <= row < h,
    ensures
        0 <= row * w + col < w * h,
        row * w + w <= w * h,
{
    assert(0 <= row * w && row * w + w <= w * h) by (nonlinear_arith)
        requires
            0 <= row < h,
            0 < w,
    ;
}

/// What a raster holds at a position.
pub proof fn lemma_raster_at(
    w: int,
    h: int,
    f: spec_fn(int, int, int) -> u8,
    x: int,
    y: int,
    c: int,
)
    requires
        0 <= x < w,
        0 <= y < h,
        0 <= c < 3,
    ensures
        0 <= (y * w + x) * 3 + c < raster(w, h, f).bytes.len(),
        raster(w, h, f).bytes[(y * w + x) * 3 + c] == f(x, y, c),
        raster(w, h, f).at(x, y, c) == f(x, y, c),
{
    lemma_pixel_number(w, h, y, x);
    lemma_pixel_position(w, y, x);
    let p = y * w + x;
    assert((p * 3 + c) / 3 == p && (p * 3 + c) % 3 == c);
}

/// Converts a compositor's buffer to packed RGB.
///
/// Rows are read bottom-up when the frame is y-inverted. Fails when the size of
/// the buffer overflows, when `data` is shorter than that size, and when the
/// format is not one of the four that can be decoded, tried in this order.
pub fn decode_shm(data: &[u8], fmt: BufferFormat, y_invert: bool) -> (r: Result<
    RgbImage,
    CaptureError,
>)
    requires
        fmt.decode_error(data@.len() as int) is None ==> fmt.readable(data@.len() as int),
    ensures
        match fmt.decode_error(data@.len() as int) {
            Some(e) => r == Err::<RgbImage, CaptureError>(e),
            None => r is Ok && r->Ok_0@ == fmt.image(data@, y_invert) && r->Ok_0@.wf(),
        },
{
    let len: usize = data.len();
    let w: usize = fmt.width as usize;
    let h: usize = fmt.height as usize;
    let stride: usize = fmt.stride as usize;
    let needed: usize = match stride.checked_mul(h) {
        Some(n) => n,
        None => {
            return Err(CaptureError::SizeOverflow);
        },
    };
    if len < needed {
        return Err(
            CaptureError::ShortBuffer { len, needed, width: fmt.width, height: fmt.height },
        );
    }
    let (ro, go, bo): (usize, usize, usize) = match fmt.format {
        PixelFormat::Argb8888 | PixelFormat::Xrgb8888 => (2, 1, 0),
        PixelFormat::Abgr8888 | PixelFormat::Xbgr8888 => (0, 1, 2),
        PixelFormat::Other(code) => {
            return Err(CaptureError::UnsupportedFormat(code));
        },
    };
    let ghost image = fmt.image(data@, y_invert).bytes;
    let mut pixels: Vec<u8> = Vec::new();
    let mut row: usize = 0;
    while row < h
        invariant
            len == data@.len(),
            w == fmt.width,
            h == fmt.height,
            stride == fmt.stride,
            row <= h,
            fmt.readable(data@.len() as int),
            ro == fmt.format.channel_offset(0),
            go == fmt.format.channel_offset(1),
            bo == fmt.format.channel_offset(2),
            ro < 4,
            go < 4,
            bo < 4,
            image == fmt.image(data@, y_invert).bytes,
            pixels@.len() == row * w * 3,
            pixels@ == image.take(row * w * 3),
        decreases h - row,
    {
        let src_row: usize = if y_invert {
            h - 1 - row
        } else {
            row
        };
        proof {
            let (sr, last, st) = (src_row as int, h - 1, stride as int);
            assert(0 <= sr * st <= last * st) by (nonlinear_arith)
                requires
                    0 <= sr <= last,
                    0 <= st,
            ;
        }
        let start: usize = src_row * stride;
        let mut col: usize = 0;
        while col < w
            invariant
                len == data@.len(),
                w == fmt.width,
                h == fmt.height,
                row < h,
                col <= w,
                start == fmt.source_row(row as int, y_invert) * fmt.stride,
                start + w * 4 <= data@.len(),
                ro == fmt.format.channel_offset(0),
                go == fmt.format.channel_offset(1),
                bo == fmt.format.channel_offset(2),
                ro < 4,
                go < 4,
                bo < 4,
                image == fmt.image(data@, y_invert).bytes,
                pixels@.len() == (row * w + col) * 3,
                pixels@ == image.take((row * w + col) * 3),
            decreases w - col,
        {
            let s: usize = start + col * 4;
            let ghost p = row * w + col;
            pixels.push(data[s + ro]);
            pixels.push(data[s + go]);
            pixels.push(data[s + bo]);
            proof {
                lemma_pixel_number(w as int, h as int, row as int, col as int);
                lemma_pixel_position(w as int, row as int, col as int);
                let f = |x: int, y: int, c: int|
                    data@[fmt.source_row(y, y_invert) * fmt.stride + x * 4
                        + fmt.format.channel_offset(c)];
                assert(image == raster(w as int, h as int, f).bytes);
                lemma_raster_at(w as int, h as int, f, col as int, row as int, 0);
                lemma_raster_at(w as int, h as int, f, col as int, row as int, 1);
                lemma_raster_at(w as int, h as int, f, col as int, row as int, 2);
                assert(pixels@ =~= image.take((p + 1) * 3));
            }
            col = col + 1;
        }
        proof {
            assert((row + 1) * w == row * w + w) by (nonlinear_arith);
        }
        row = row + 1;
    }
    proof {
        assert(h * w == w * h) by (nonlinear_arith);
        assert(image.take(image.len() as int) =~= image);
    }
    Ok(RgbImage { width: fmt.width, height: fmt.height, pixels })
}

/// `max(n, 0)`.
pub open spec fn at_least_zero(n: int) -> int {
    if n < 0 {
        0
    } else {
        n
    }
}

/// The first column (or row) of a crop.
pub open spec fn crop_start(pos: int) -> int {
    at_least_zero(pos)
}

/// One past the last column (or row) of a crop from an edge of `limit` pixels.
pub open spec fn crop_end(pos: int, len: int, limit: int) -> int {
    if at_least_zero(pos + len) < limit {
        at_least_zero(pos + len)
    } else {
        limit
    }
}

impl Raster {
    /// The region and the image have a pixel in common.
    pub open spec fn meets(self, x: int, y: int, w: int, h: int) -> bool {
        &&& crop_start(x) < crop_end(x, w, self.width)
        &&& crop_start(y) < crop_end(y, h, self.height)
    }

    /// The part of the image that the region covers.
    pub open spec fn cropped(self, x: int, y: int, w: int, h: int) -> Raster {
        raster(
            crop_end(x, w, self.width) - crop_start(x),
            crop_end(y, h, self.height) - crop_start(y),
            |cx: int, cy: int, c: int| self.at(crop_start(x) + cx, crop_start(y) + cy, c),
        )
    }
}

/// Crops an image to `(x, y, w, h)`, clamped to the image bounds.
pub fn crop_rgb(src: &RgbImage, x: i32, y: i32, w: i32, h: i32) -> (r: Result<
    RgbImage,
    CaptureError,
>)
    requires
        src@.wf(),
    ensures
        if src@.meets(x as int, y as int, w as int, h as int) {
            r is Ok && r->Ok_0@ == src@.cropped(x as int, y as int, w as int, h as int)
                && r->Ok_0@.wf()
        } else {
            r == Err::<RgbImage, CaptureError>(CaptureError::RegionOutside)
        },
{
    let x0: u32 = clamp_to_zero(x);
    let y0: u32 = clamp_to_zero(y);
    let x1: u32 = clamped_end(x, w, src.width);
    let y1: u32 = clamped_end(y, h, src.height);
    if x1 <= x0 || y1 <= y0 {
        return Err(CaptureError::RegionOutside);
    }
    let cw: usize = (x1 - x0) as usize;
    let ch: usize = (y1 - y0) as usize;
    let sw: usize = src.width as usize;
    let ghost f = |cx: int, cy: int, c: int| src@.at(x0 + cx, y0 + cy, c);
    let ghost image = raster(cw as int, ch as int, f).bytes;
    let len: usize = src.pixels.len();
    let mut pixels: Vec<u8> = Vec::new();
    let mut row: usize = 0;
    while row < ch
        invariant
            src@.wf(),
            len == src.pixels@.len(),
            sw == src.width,
            x0 < x1 <= src.width,
            y0 < y1 <= src.height,
            cw == x1 - x0,
            ch == y1 - y0,
            row <= ch,
            f == (|cx: int, cy: int, c: int| src@.at(x0 + cx, y0 + cy, c)),
            image == raster(cw as int, ch as int, f).bytes,
            pixels@.len() == row * cw * 3,
            pixels@ == image.take(row * cw * 3),
        decreases ch - row,
    {
        let ghost sy = y0 + row;
        proof {
            lemma_pixel_number(sw as int, src.height as int, sy, x0 as int);
        }
        let start: usize = (y0 as usize + row) * sw + x0 as usize;
        let mut col: usize = 0;
        while col < cw
            invariant
                src@.wf(),
                len == src.pixels@.len(),
                sw == src.width,
                x0 < x1 <= src.width,
                y0 < y1 <= src.height,
                cw == x1 - x0,
                ch == y1 - y0,
                row < ch,
                col <= cw,
                sy == y0 + row,
                start == sy * sw + x0,
                (start + cw) * 3 <= len,
                f == (|cx: int, cy: int, c: int| src@.at(x0 + cx, y0 + cy, c)),
                image == raster(cw as int, ch as int, f).bytes,
                pixels@.len() == (row * cw + col) * 3,
                pixels@ == image.take((row * cw + col) * 3),
            decreases cw - col,
        {
            let s: usize = (start + col) * 3;
            let ghost p = row * cw + col;
            pixels.push(src.pixels[s]);
            pixels.push(src.pixels[s + 1]);
            pixels.push(src.pixels[s + 2]);
            proof {
                lemma_pixel_number(cw as int, ch as int, row as int, col as int);
                lemma_raster_at(cw as int, ch as int, f, col as int, row as int, 0);
                lemma_raster_at(cw as int, ch as int, f, col as int, row as int, 1);
                lemma_raster_at(cw as int, ch as int, f, col as int, row as int, 2);
                assert(pixels@ =~= image.take((p + 1) * 3));
            }
            col = col + 1;
        }
        proof {
            assert((row + 1) * cw == row * cw + cw) by (nonlinear_arith);
        }
        row = row + 1;
    }
    proof {
        assert(ch * cw == cw * ch) by (nonlinear_arith);
        assert(image.take(image.len() as int) =~= image);
        assert(image =~= src@.cropped(x as int, y as int, w as int, h as int).bytes);
    }
    Ok(RgbImage { width: x1 - x0, height: y1 - y0, pixels })
}

/// `max(n, 0)` as an unsigned number.
pub(crate) fn clamp_to_zero(n: i32) -> (r: u32)
    ensures
        r == at_least_zero(n as int),
{
    if n < 0 {
        0
    } else {
        n as u32
    }
}

/// One past the last column (or row) of a crop.
fn clamped_end(pos: i32, len: i32, limit: u32) -> (r: u32)
    ensures
        r == crop_end(pos as int, len as int, limit as int),
{
    let end: i64 = pos as i64 + len as i64;
    if end < 0 {
        0
    } else if end < limit as i64 {
        end as u32
    } else {
        limit
    }
}

/// A y-inverted frame is the same frame upside down.
pub proof fn law_y_invert_turns_upside_down(
    fmt: BufferFormat,
    data: Seq<u8>,
    x: int,
    y: int,
    c: int,
)
    requires
        0 <= x < fmt.width,
        0 <= y < fmt.height,
        0 <= c < 3,
    ensures
        fmt.image(data, true).at(x, y, c) == fmt.image(data, false).at(x, fmt.height - 1 - y, c),
{
    let (w, h) = (fmt.width as int, fmt.height as int);
    let up = |x: int, y: int, c: int|
        data[fmt.source_row(y, false) * fmt.stride + x * 4 + fmt.format.channel_offset(c)];
    let down = |x: int, y: int, c: int|
        data[fmt.source_row(y, true) * fmt.stride + x * 4 + fmt.format.channel_offset(c)];
    assert(fmt.image(data, false) == raster(w, h, up));
    assert(fmt.image(data, true) == raster(w, h, down));
    lemma_raster_at(w, h, up, x, h - 1 - y, c);
    lemma_raster_at(w, h, down, x, y, c);
}

/// The two channel orders mirror each other: what one decodes as red, the other
/// decodes as blue.
pub proof fn law_channel_orders_mirror(
    a: BufferFormat,
    b: BufferFormat,
    data: Seq<u8>,
    y_invert: bool,
    x: int,
    y: int,
    c: int,
)
    requires
        a.format == PixelFormat::Xrgb8888 || a.format == PixelFormat::Argb8888,
        b.format == PixelFormat::Xbgr8888 || b.format == PixelFormat::Abgr8888,
        (a.width, a.height, a.stride) == (b.width, b.height, b.stride),
        0 <= x < a.width,
        0 <= y < a.height,
        0 <= c < 3,
    ensures
        a.image(data, y_invert).at(x, y, c) == b.image(data, y_invert).at(x, y, 2 - c),
{
    let (w, h) = (a.width as int, a.height as int);
    let f = |x: int, y: int, c: int|
        data[a.source_row(y, y_invert) * a.stride + x * 4 + a.format.channel_offset(c)];
    let g = |x: int, y: int, c: int|
        data[b.source_row(y, y_invert) * b.stride + x * 4 + b.format.channel_offset(c)];
    assert(a.image(data, y_invert) == raster(w, h, f));
    assert(b.image(data, y_invert) == raster(w, h, g));
    lemma_raster_at(w, h, f, x, y, c);
    lemma_raster_at(w, h, g, x, y, 2 - c);
}

/// An image is the raster of its own pixels.
proof fn lemma_raster_of_itself(src: Raster)
    requires
        src.wf(),
    ensures
        raster(src.width, src.height, |x: int, y: int, c: int| src.at(x, y, c)) == src,
{
    let (w, h) = (src.width, src.height);
    let f = |x: int, y: int, c: int| src.at(x, y, c);
    let out = raster(w, h, f);
    assert forall|i: int| 0 <= i < out.bytes.len() implies out.bytes[i] == src.bytes[i] by {
        let p = i / 3;
        assert(0 < w && 0 <= p < w * h) by (nonlinear_arith)
            requires
                0 <= w,
                p == i / 3,
                0 <= i < w * h * 3,
        ;
        let (x, y) = (p % w, p / w);
        assert(p == y * w + x) by (nonlinear_arith)
            requires
                0 < w,
                x == p % w,
                y == p / w,
        ;
    }
    assert(out.bytes =~= src.bytes);
}

/// Cropping an image to all of it changes nothing.
pub proof fn law_whole_crop_is_identity(src: Raster)
    requires
        src.wf(),
    ensures
        src.cropped(0, 0, src.width, src.height) == src,
{
    let f = |x: int, y: int, c: int| src.at(x, y, c);
    let g = |cx: int, cy: int, c: int| src.at(crop_start(0) + cx, crop_start(0) + cy, c);
    assert(src.cropped(0, 0, src.width, src.height) == raster(src.width, src.height, g));
    assert(raster(src.width, src.height, g).bytes =~= raster(src.width, src.height, f).bytes);
    lemma_raster_of_itself(src);
}

/// A crop never reaches outside the image, and takes its pixels from where the
/// region starts.
pub proof fn law_crop_takes_pixels_in_place(
    src: Raster,
    x: int,
    y: int,
    w: int,
    h: int,
    cx: int,
    cy: int,
    c: int,
)
    requires
        src.wf(),
        src.meets(x, y, w, h),
        0 <= cx < src.cropped(x, y, w, h).width,
        0 <= cy < src.cropped(x, y, w, h).height,
        0 <= c < 3,
    ensures
        0 <= crop_start(x) + cx < src.width,
        0 <= crop_start(y) + cy < src.height,
        src.cropped(x, y, w, h).at(cx, cy, c) == src.at(crop_start(x) + cx, crop_start(y) + cy, c),
{
    let part = src.cropped(x, y, w, h);
    let f = |cx: int, cy: int, c: int| src.at(crop_start(x) + cx, crop_start(y) + cy, c);
    assert(part == raster(part.width, part.height, f));
    lemma_raster_at(part.width, part.height, f, cx, cy, c);
}

/// What a decoded image holds, byte by byte. Column `x` of row `y` is taken from the four
/// bytes at `4 * x` of the row's bytes in the buffer, so columns stay in their order, and the
/// row is row `y` of the buffer, or row `y` from its end for a y-inverted frame. Of the four
/// bytes red, green and blue are the third, second and first where the format is XRGB or
/// ARGB, and the first, second and third where it is XBGR or ABGR.
pub proof fn law_pixels_come_from_their_bytes(
    img: RgbImage,
    fmt: BufferFormat,
    data: Seq<u8>,
    y_invert: bool,
    x: int,
    y: int,
)
    requires
        img@ == fmt.image(data, y_invert),
        0 <= x < fmt.width,
        0 <= y < fmt.height,
    ensures
        img.width == fmt.width,
        img.height == fmt.height,
        img.pixels@.len() == fmt.width * fmt.height * 3,
        ({
            let d = (y * fmt.width + x) * 3;
            let s = if y_invert {
                (fmt.height - 1 - y) * fmt.stride + 4 * x
            } else {
                y * fmt.stride + 4 * x
            };
            match fmt.format {
                PixelFormat::Xrgb8888 | PixelFormat::Argb8888 => {
                    &&& img.pixels@[d] == data[s + 2]
                    &&& img.pixels@[d + 1] == data[s + 1]
                    &&& img.pixels@[d + 2] == data[s]
                },
                PixelFormat::Xbgr8888 | PixelFormat::Abgr8888 => {
                    &&& img.pixels@[d] == data[s]
                    &&& img.pixels@[d + 1] == data[s + 1]
                    &&& img.pixels@[d + 2] == data[s + 2]
                },
                PixelFormat::Other(_) => true,
            }
        }),
{
    let (w, h) = (fmt.width as int, fmt.height as int);
    let f = |x: int, y: int, c: int|
        data[fmt.source_row(y, y_invert) * fmt.stride + x * 4 + fmt.format.channel_offset(c)];
    assert(fmt.image(data, y_invert) == raster(w, h, f));
    lemma_raster_at(w, h, f, x, y, 0);
    lemma_raster_at(w, h, f, x, y, 1);
    lemma_raster_at(w, h, f, x, y, 2);
    lemma_pixel_number(w, h, y, x);
}

/// When a buffer is decoded and why it is not: it is refused where its size does not fit the
/// machine, where fewer bytes are there than the size, and where its format is none of the
/// four, in this order.
pub proof fn law_what_can_be_decoded(fmt: BufferFormat, len: usize, code: u32)
    ensures
        fmt.decode_error(len as int) is None <==> {
            &&& fmt.stride * fmt.height <= len
            &&& fmt.format == PixelFormat::Xrgb8888 || fmt.format == PixelFormat::Argb8888
                || fmt.format == PixelFormat::Xbgr8888 || fmt.format == PixelFormat::Abgr8888
        },
        fmt.decode_error(len as int) == Some(CaptureError::SizeOverflow) <==> fmt.stride
            * fmt.height > usize::MAX,
        len < fmt.stride * fmt.height <= usize::MAX ==> fmt.decode_error(len as int) == Some(
            CaptureError::ShortBuffer {
                len,
                needed: (fmt.stride * fmt.height) as usize,
                width: fmt.width,
                height: fmt.height,
            },
        ),
        fmt.decode_error(len as int) == Some(CaptureError::UnsupportedFormat(code)) <==> fmt.stride
            * fmt.height <= len && fmt.format == PixelFormat::Other(code),
{
}

/// A format code is that of the protocol: 0 is ARGB, 1 is XRGB, and the two others are the
/// four characters `AB24` and `XB24`.
pub proof fn law_format_codes(code: u32)
    ensures
        PixelFormat::spec_from_code(code) == PixelFormat::Argb8888 <==> code == 0,
        PixelFormat::spec_from_code(code) == PixelFormat::Xrgb8888 <==> code == 1,
        PixelFormat::spec_from_code(code) == PixelFormat::Abgr8888 <==> code == 'A' as int + 0x100
            * 'B' as int + 0x1_0000 * '2' as int + 0x100_0000 * '4' as int,
        PixelFormat::spec_from_code(code) == PixelFormat::Xbgr8888 <==> code == 'X' as int + 0x100
            * 'B' as int + 0x1_0000 * '2' as int + 0x100_0000 * '4' as int,
        PixelFormat::spec_from_code(code) matches PixelFormat::Other(other) ==> other == code,
{
}

/// What a crop holds, byte by byte: it starts at the region's corner, or at the image's where
/// the region starts before it; it ends where the region ends, or where the image does; and
/// every pixel is the image's pixel in the same place.
pub proof fn law_crop_byte_by_byte(
    src: RgbImage,
    part: RgbImage,
    x: i32,
    y: i32,
    w: i32,
    h: i32,
    left: int,
    top: int,
    cx: int,
    cy: int,
    c: int,
)
    requires
        src@.wf(),
        src@.meets(x as int, y as int, w as int, h as int),
        part@ == src@.cropped(x as int, y as int, w as int, h as int),
        left == (if x < 0 {
            0
        } else {
            x as int
        }),
        top == (if y < 0 {
            0
        } else {
            y as int
        }),
        0 <= cx < part.width,
        0 <= cy < part.height,
        0 <= c < 3,
    ensures
        part.width == (if x + w < src.width {
            x + w
        } else {
            src.width as int
        }) - left,
        part.height == (if y + h < src.height {
            y + h
        } else {
            src.height as int
        }) - top,
        left + cx < src.width,
        top + cy < src.height,
        part.pixels@[(cy * part.width + cx) * 3 + c] == src.pixels@[((top + cy) * src.width + left
            + cx) * 3 + c],
{
    law_crop_takes_pixels_in_place(
        src@,
        x as int,
        y as int,
        w as int,
        h as int,
        cx,
        cy,
        c,
    );
}

/// A crop is made exactly where the region and the image share a pixel.
pub proof fn law_crop_needs_a_common_pixel(src: RgbImage, x: i32, y: i32, w: i32, h: i32)
    ensures
        src@.meets(x as int, y as int, w as int, h as int) <==> exists|i: int, j: int|
            #![trigger src@.at(i, j, 0)]
            0 <= i < src.width && x <= i < x + w && 0 <= j < src.height && y <= j < y + h,
{
    let (xi, yi, wi, hi) = (x as int, y as int, w as int, h as int);
    if src@.meets(xi, yi, wi, hi) {
        let i = if x < 0 {
            0
        } else {
            xi
        };
        let j = if y < 0 {
            0
        } else {
            yi
        };
        let _ = src@.at(i, j, 0);
        assert(0 <= i < src.width && x <= i < x + w && 0 <= j < src.height && y <= j < y + h);
    }
}

} // verus!
