//! The commands, and which of them need a compositor.

use vstd::prelude::*;

verus! {

/// What the program is asked to do.
#[derive(Clone, Debug)]
pub enum Command {
    /// Report the Wayland environment and the advertised globals.
    Doctor,
    /// List the screens.
    Screens,
    /// List the windows.
    Windows,
    /// Report the position of the pointer.
    CursorPosition,
    /// Report the active application.
    FrontmostApp,
    /// Report the application at a point.
    AppUnderPoint { x: i32, y: i32 },
    /// Raise and focus a window.
    ActivateWindow { window: String },
    /// Capture a monitor.
    Screenshot { display: Option<String> },
    /// Capture a region of a monitor.
    Zoom { display: Option<String>, x: i32, y: i32, w: i32, h: i32 },
    /// Move the pointer.
    PointerMove { x: i32, y: i32 },
    /// Click at a point.
    PointerClick { modifiers: Vec<String>, x: i32, y: i32, button: String, count: u32 },
    /// Scroll at a point; the distances are the bits of doubles.
    PointerScroll { x: i32, y: i32, dx: u64, dy: u64 },
    /// Drag between two points with the left button.
    PointerDrag { from_x: i32, from_y: i32, to_x: i32, to_y: i32 },
    /// Press the left button and hold it.
    LeftMouseDown,
    /// Release the left button.
    LeftMouseUp,
    /// Send a key sequence.
    KeySequence { keys: String, repeat: Option<u32> },
    /// Type text.
    Type { text: String, delay_ms: u64 },
    /// Hold keys for a while.
    HoldKey { keys: Vec<String>, duration_ms: u64 },
    /// Begin a session.
    SessionStart { foreground: bool },
    /// End a session.
    SessionEnd,
}

/// How a command is answered.
#[derive(Clone, Copy, Debug, PartialEq, Eq)]
pub enum Disposition {
    /// The session is reported as started; there is nothing to start.
    SessionStarted,
    /// The session is reported as ended; there is nothing to end.
    SessionEnded,
    /// The command is refused: no protocol exposes the global pointer.
    NoCursorPosition,
    /// The answer needs a connection to the compositor.
    Connect,
}

impl Command {
    /// Decides how the command is answered. Only sessions and the position of the pointer
    /// are answered without a compositor, whether or not one is running.
    pub fn disposition(&self) -> (r: Disposition)
        ensures
            r == Disposition::SessionStarted <==> self is SessionStart,
            r == Disposition::SessionEnded <==> self is SessionEnd,
            r == Disposition::NoCursorPosition <==> self is CursorPosition,
    {
        match self {
            Command::SessionStart { .. } => Disposition::SessionStarted,
            Command::SessionEnd => Disposition::SessionEnded,
            Command::CursorPosition => Disposition::NoCursorPosition,
            _ => Disposition::Connect,
        }
    }
}

} // verus!
