//! Driving one screencopy frame to completion.
//!
//! The compositor first describes the buffer it will copy into, then, once it has
//! one, reports that the copy is ready or has failed. [`CaptureRun`] decides after
//! every roundtrip what to do next; the caller does it.

use super::error::CaptureError;
use super::pixels::{BufferFormat, PixelFormat};
use crate::conn::OutputEntry;
use crate::search;
use crate::text;
use vstd::prelude::*;
use vstd::string::*;

verus! {

/// How many roundtrips a copy may take.
pub const MAX_COPY_ROUNDS: u32 = 200;

/// An event of a screencopy frame. A format or a set of flags that is not known is
/// `None`.
#[derive(Clone, Copy, Debug, PartialEq, Eq)]
pub enum FrameEvent {
    Buffer { format: Option<u32>, width: u32, height: u32, stride: u32 },
    Flags { flags: Option<u32> },
    Ready,
    Failed,
    Other,
}

/// What the compositor has said of a frame so far.
#[derive(Clone, Copy, Debug, PartialEq, Eq)]
pub struct CaptureState {
    /// Buffer parameters from the frame's `buffer` event.
    pub format: Option<BufferFormat>,
    /// Whether the frame is y-inverted.
    pub y_invert: bool,
    /// Set when the copy is complete.
    pub ready: bool,
    /// Set when the copy has failed.
    pub failed: bool,
}

impl CaptureState {
    /// The state after an event. What is not known is passed over.
    pub open spec fn after(self, event: FrameEvent) -> CaptureState {
        match event {
            FrameEvent::Buffer { format: Some(code), width, height, stride } => CaptureState {
                format: Some(
                    BufferFormat {
                        format: PixelFormat::spec_from_code(code),
                        width,
                        height,
                        stride,
                    },
                ),
                ..self
            },
            FrameEvent::Flags { flags: Some(bits) } => CaptureState {
                y_invert: bits % 2 == 1,
                ..self
            },
            FrameEvent::Ready => CaptureState { ready: true, ..self },
            FrameEvent::Failed => CaptureState { failed: true, ..self },
            _ => self,
        }
    }

    /// Nothing heard yet.
    pub fn new() -> (r: CaptureState)
        ensures
            r == (CaptureState { format: None, y_invert: false, ready: false, failed: false }),
    {
        CaptureState { format: None, y_invert: false, ready: false, failed: false }
    }

    /// Takes in an event of the frame.
    pub fn event(&mut self, event: FrameEvent)
        ensures
            *final(self) == old(self).after(event),
    {
        match event {
            FrameEvent::Buffer { format, width, height, stride } => match format {
                Some(code) => {
                    self.format = Some(
                        BufferFormat {
                            format: PixelFormat::from_code(code),
                            width,
                            height,
                            stride,
                        },
                    );
                },
                None => {},
            },
            FrameEvent::Flags { flags } => match flags {
                Some(bits) => {
                    self.y_invert = bits % 2 == 1;
                },
                None => {},
            },
            FrameEvent::Ready => {
                self.ready = true;
            },
            FrameEvent::Failed => {
                self.failed = true;
            },
            FrameEvent::Other => {},
        }
    }
}

/// How far a capture has come.
#[derive(Clone, Copy, Debug, PartialEq, Eq)]
pub enum CapturePhase {
    /// The buffer's description has been asked for.
    AwaitingBuffer,
    /// The copy has been asked for, and this many roundtrips have passed since.
    Copying { fmt: BufferFormat, rounds: u32 },
    /// Nothing is left to do.
    Finished,
}

/// What the caller does next.
#[derive(Clone, Copy, Debug, PartialEq, Eq)]
pub enum CaptureAction {
    /// Allocate a buffer, ask for the copy and make a roundtrip.
    Copy(BufferFormat),
    /// Make another roundtrip.
    Roundtrip,
    /// Decode the buffer.
    Decode { fmt: BufferFormat, y_invert: bool },
    /// Give up.
    Fail(CaptureError),
}

/// One capture from the first roundtrip to the end.
#[derive(Clone, Copy, Debug, PartialEq, Eq)]
pub struct CaptureRun {
    pub state: CaptureState,
    pub phase: CapturePhase,
}

impl CaptureRun {
    /// A copy is given up before it has taken more than the allowed roundtrips.
    pub open spec fn wf(self) -> bool {
        match self.phase {
            CapturePhase::Copying { rounds, .. } => rounds < MAX_COPY_ROUNDS,
            _ => true,
        }
    }

    /// What follows a roundtrip: the action, and the phase after it.
    pub open spec fn decision(self) -> (CaptureAction, CapturePhase) {
        match self.phase {
            CapturePhase::AwaitingBuffer => match self.state.format {
                Some(fmt) => (
                    CaptureAction::Copy(fmt),
                    CapturePhase::Copying { fmt, rounds: 0 },
                ),
                None => (
                    CaptureAction::Fail(CaptureError::NoBufferFormat),
                    CapturePhase::Finished,
                ),
            },
            CapturePhase::Copying { fmt, rounds } => if self.state.failed {
                (CaptureAction::Fail(CaptureError::CopyFailed), CapturePhase::Finished)
            } else if self.state.ready {
                (
                    CaptureAction::Decode { fmt, y_invert: self.state.y_invert },
                    CapturePhase::Finished,
                )
            } else if rounds + 1 >= MAX_COPY_ROUNDS {
                (CaptureAction::Fail(CaptureError::CopyUnfinished), CapturePhase::Finished)
            } else {
                (
                    CaptureAction::Roundtrip,
                    CapturePhase::Copying { fmt, rounds: (rounds + 1) as u32 },
                )
            },
            CapturePhase::Finished => (
                CaptureAction::Fail(CaptureError::CopyUnfinished),
                CapturePhase::Finished,
            ),
        }
    }

    /// How many more roundtrips the capture may still ask for.
    pub open spec fn rounds_left(self) -> int {
        match self.phase {
            CapturePhase::AwaitingBuffer => MAX_COPY_ROUNDS as int,
            CapturePhase::Copying { rounds, .. } => MAX_COPY_ROUNDS - 1 - rounds,
            CapturePhase::Finished => 0,
        }
    }

    /// A capture whose frame has been requested.
    pub fn new() -> (r: CaptureRun)
        ensures
            r.wf(),
            r.phase == CapturePhase::AwaitingBuffer,
            r.state == (CaptureState { format: None, y_invert: false, ready: false, failed: false }),
    {
        CaptureRun { state: CaptureState::new(), phase: CapturePhase::AwaitingBuffer }
    }

    /// Decides what to do after a roundtrip.
    pub fn advance(&mut self) -> (r: CaptureAction)
        requires
            old(self).wf(),
            !(old(self).phase is Finished),
        ensures
            final(self).wf(),
            final(self).state == old(self).state,
            (r, final(self).phase) == old(self).decision(),
    {
        match self.phase {
            CapturePhase::AwaitingBuffer => match self.state.format {
                Some(fmt) => {
                    self.phase = CapturePhase::Copying { fmt, rounds: 0 };
                    CaptureAction::Copy(fmt)
                },
                None => {
                    self.phase = CapturePhase::Finished;
                    CaptureAction::Fail(CaptureError::NoBufferFormat)
                },
            },
            CapturePhase::Copying { fmt, rounds } => {
                if self.state.failed {
                    self.phase = CapturePhase::Finished;
                    CaptureAction::Fail(CaptureError::CopyFailed)
                } else if self.state.ready {
                    self.phase = CapturePhase::Finished;
                    CaptureAction::Decode { fmt, y_invert: self.state.y_invert }
                } else if rounds + 1 >= MAX_COPY_ROUNDS {
                    self.phase = CapturePhase::Finished;
                    CaptureAction::Fail(CaptureError::CopyUnfinished)
                } else {
                    self.phase = CapturePhase::Copying { fmt, rounds: rounds + 1 };
                    CaptureAction::Roundtrip
                }
            },
            CapturePhase::Finished => CaptureAction::Fail(CaptureError::CopyUnfinished),
        }
    }
}

/// A capture ends, whatever the compositor says: every decision either finishes it or
/// uses up one of the roundtrips that are left, and events give none back.
pub proof fn law_captures_end(run: CaptureRun, event: FrameEvent)
    requires
        run.wf(),
        !(run.phase is Finished),
    ensures
        0 <= run.rounds_left() <= MAX_COPY_ROUNDS,
        ({
            let next = CaptureRun { state: run.state.after(event), phase: run.decision().1 };
            next.phase is Finished || next.rounds_left() < run.rounds_left()
        }),
        run.decision().1 is Finished <==> run.decision().0 is Fail || run.decision().0 is Decode,
{
}

/// What is decoded is the buffer that was asked for, and never one that the compositor
/// reported failed.
pub proof fn law_decodes_what_was_copied(run: CaptureRun)
    requires
        run.decision().0 is Decode,
    ensures
        run.phase is Copying,
        run.decision().0->Decode_fmt == run.phase->Copying_fmt,
        run.state.ready,
        !run.state.failed,
{
}

/// The position of an output among those that are still announced.
pub fn find_output(entries: &[OutputEntry], registry_name: u32) -> (r: Result<usize, CaptureError>)
    ensures
        match search::find(entries@, |e: OutputEntry| e.registry_name == registry_name) {
            Some(i) => r is Ok && r->Ok_0 == i,
            None => r == Err::<usize, CaptureError>(CaptureError::OutputVanished),
        },
        r is Ok <==> exists|i: int|
            0 <= i < entries@.len() && (#[trigger] entries@[i]).registry_name == registry_name,
        r is Ok ==> entries@[r->Ok_0 as int].registry_name == registry_name && forall|i: int|
            0 <= i < r->Ok_0 ==> (#[trigger] entries@[i]).registry_name != registry_name,
{
    let ghost p = |e: OutputEntry| e.registry_name == registry_name;
    proof {
        search::lemma_find(entries@, p);
    }
    let n: usize = entries.len();
    let mut i: usize = 0;
    while i < n
        invariant
            n == entries@.len(),
            p == (|e: OutputEntry| e.registry_name == registry_name),
            forall|j: int| 0 <= j < i ==> (#[trigger] entries@[j]).registry_name != registry_name,
            i <= n,
            search::find(entries@, p) == search::find_from(entries@, p, i as int),
        decreases n - i,
    {
        if entries[i].registry_name == registry_name {
            return Ok(i);
        }
        i = i + 1;
    }
    Err(CaptureError::OutputVanished)
}

/// A number as a 32-bit signed integer keeps its low bits.
pub open spec fn wrapped_i32(n: int) -> int {
    if n % 0x1_0000_0000 < 0x8000_0000 {
        n % 0x1_0000_0000
    } else {
        n % 0x1_0000_0000 - 0x1_0000_0000
    }
}

fn wrap_i32(n: u64) -> (r: i32)
    ensures
        r == wrapped_i32(n as int),
{
    let low: u64 = n % 0x1_0000_0000;
    if low < 0x8000_0000 {
        low as i32
    } else {
        (low as i64 - 0x1_0000_0000) as i32
    }
}

/// The memory that a buffer needs, and the numbers that describe it in the protocol's
/// signed requests.
#[derive(Clone, Copy, Debug, PartialEq, Eq)]
pub struct ShmLayout {
    pub size: usize,
    pub pool_size: i32,
    pub width: i32,
    pub height: i32,
    pub stride: i32,
}

/// Lays out the shared memory for a buffer.
pub fn shm_layout(fmt: BufferFormat) -> (r: ShmLayout)
    requires
        fmt.size() <= usize::MAX,
    ensures
        r.size == fmt.size(),
        r.pool_size == wrapped_i32(fmt.size()),
        r.width == wrapped_i32(fmt.width as int),
        r.height == wrapped_i32(fmt.height as int),
        r.stride == wrapped_i32(fmt.stride as int),
{
    proof {
        let (a, b) = (fmt.stride as int, fmt.height as int);
        assert(a * b <= 0xffff_ffff * 0xffff_ffff) by (nonlinear_arith)
            requires
                0 <= a <= 0xffff_ffff,
                0 <= b <= 0xffff_ffff,
        ;
    }
    let size: u64 = fmt.stride as u64 * fmt.height as u64;
    ShmLayout {
        size: size as usize,
        pool_size: wrap_i32(size),
        width: wrap_i32(fmt.width as u64),
        height: wrap_i32(fmt.height as u64),
        stride: wrap_i32(fmt.stride as u64),
    }
}

/// Where shared memory is kept when there is no anonymous file for it: in the runtime
/// directory, or in `/tmp`.
pub fn shm_fallback_path(runtime_dir: Option<String>, pid: u32) -> (r: String)
    ensures
        r@ == (match runtime_dir {
            Some(d) => d@,
            None => "/tmp"@,
        }) + "/wlroots-bridge-shm-"@ + text::decimal(pid as nat),
{
    let mut path: String = match runtime_dir {
        Some(d) => d,
        None => "/tmp".to_owned(),
    };
    path.append("/wlroots-bridge-shm-");
    let number: String = text::decimal_string(pid as u64);
    path.append(number.as_str());
    path
}

/// What the events of a frame say: a buffer of a known format is remembered with its own
/// width, height and stride; flags say whether the frame is y-inverted by their lowest bit
/// and nothing else; ready and failed are remembered once heard; and every event leaves the
/// rest alone.
pub proof fn law_frame_events_are_remembered(
    state: CaptureState,
    code: u32,
    width: u32,
    height: u32,
    stride: u32,
    bits: u32,
)
    ensures
        ({
            let after = state.after(
                FrameEvent::Buffer { format: Some(code), width, height, stride },
            );
            &&& after.format is Some
            &&& after.format->0.format == PixelFormat::spec_from_code(code)
            &&& after.format->0.width == width
            &&& after.format->0.height == height
            &&& after.format->0.stride == stride
            &&& (after.y_invert, after.ready, after.failed) == (
                state.y_invert,
                state.ready,
                state.failed,
            )
        }),
        ({
            let after = state.after(FrameEvent::Flags { flags: Some(bits) });
            &&& after.y_invert <==> bits & 1 == 1
            &&& (after.format, after.ready, after.failed) == (
                state.format,
                state.ready,
                state.failed,
            )
        }),
        ({
            let after = state.after(FrameEvent::Ready);
            &&& after.ready
            &&& (after.format, after.y_invert, after.failed) == (
                state.format,
                state.y_invert,
                state.failed,
            )
        }),
        ({
            let after = state.after(FrameEvent::Failed);
            &&& after.failed
            &&& (after.format, after.y_invert, after.ready) == (
                state.format,
                state.y_invert,
                state.ready,
            )
        }),
        state.after(FrameEvent::Buffer { format: None, width, height, stride }) == state,
        state.after(FrameEvent::Flags { flags: None }) == state,
        state.after(FrameEvent::Other) == state,
{
    assert(bits & 1 == bits % 2) by (bit_vector);
}

/// What is done after a roundtrip, and exactly when. The copy is asked for into the buffer
/// that was described; a copy that failed is given up, also where it is said to be ready; a
/// ready one is decoded as the frame's flags say; and otherwise another roundtrip is made, 200
/// in all.
pub proof fn law_what_a_capture_does(run: CaptureRun, fmt: BufferFormat, rounds: u32)
    requires
        run.wf(),
    ensures
        run.phase == CapturePhase::AwaitingBuffer ==> {
            &&& run.state.format == Some(fmt) ==> run.decision() == (
                CaptureAction::Copy(fmt),
                CapturePhase::Copying { fmt, rounds: 0 },
            )
            &&& run.state.format is None ==> run.decision() == (
                CaptureAction::Fail(CaptureError::NoBufferFormat),
                CapturePhase::Finished,
            )
        },
        run.phase == (CapturePhase::Copying { fmt, rounds }) ==> {
            &&& run.state.failed <==> run.decision().0 == CaptureAction::Fail(
                CaptureError::CopyFailed,
            )
            &&& !run.state.failed && run.state.ready <==> run.decision().0 == (
            CaptureAction::Decode { fmt, y_invert: run.state.y_invert })
            &&& !run.state.failed && !run.state.ready && rounds < 199 <==> run.decision() == (
                CaptureAction::Roundtrip,
                CapturePhase::Copying { fmt, rounds: (rounds + 1) as u32 },
            )
            &&& !run.state.failed && !run.state.ready && rounds >= 199 <==> run.decision().0
                == CaptureAction::Fail(CaptureError::CopyUnfinished)
        },
{
}

/// Shared memory is laid out as the buffer was described: as many bytes as rows times the
/// bytes from one row to the next.
pub proof fn law_buffers_have_their_size(fmt: BufferFormat)
    ensures
        fmt.size() == fmt.stride * fmt.height,
        fmt.size() <= i32::MAX ==> wrapped_i32(fmt.size()) == fmt.stride * fmt.height,
        fmt.width <= i32::MAX ==> wrapped_i32(fmt.width as int) == fmt.width,
        fmt.height <= i32::MAX ==> wrapped_i32(fmt.height as int) == fmt.height,
        fmt.stride <= i32::MAX ==> wrapped_i32(fmt.stride as int) == fmt.stride,
{
    assert(fmt.stride * fmt.height >= 0) by (nonlinear_arith);
}

/// A number described in a signed request keeps its low 32 bits: the described number is a
/// 32-bit one, and differs from the described by a multiple of 2 to the 32.
pub proof fn law_requests_keep_the_low_bits(n: int)
    ensures
        i32::MIN <= wrapped_i32(n) <= i32::MAX,
        (n - wrapped_i32(n)) % 0x1_0000_0000 == 0,
{
}

} // verus!
