//! What can go wrong while capturing.

use vstd::prelude::*;

verus! {

/// Why a capture did not produce an image.
#[derive(Clone, Copy, Debug, PartialEq, Eq)]
pub enum CaptureError {
    /// The output is no longer announced by the compositor.
    OutputVanished,
    /// The compositor described no buffer for the frame.
    NoBufferFormat,
    /// The compositor reported that the copy failed.
    CopyFailed,
    /// The copy was neither reported ready nor failed in the time allowed.
    CopyUnfinished,
    /// `stride * height` does not fit the machine's address space.
    SizeOverflow,
    /// The buffer holds fewer bytes than its description asks for.
    ShortBuffer { len: usize, needed: usize, width: u32, height: u32 },
    /// The pixel format with this code is not one that can be decoded.
    UnsupportedFormat(u32),
    /// A region was asked for whose width or height is not positive.
    EmptyRegion,
    /// The region lies outside the captured output.
    RegionOutside,
    /// The JPEG encoder does not take an image of this size.
    JpegRejected { width: u32, height: u32 },
    /// The JPEG image is too long for its base64 text to be held in memory.
    JpegTooLong,
}

} // verus!
