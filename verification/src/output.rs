//! The results that the commands report.
//!
//! Field names are those of the JSON objects that callers read.

use vstd::prelude::*;

verus! {

/// A rectangle in the compositor's global logical pixels.
#[derive(Clone, Copy, Debug, PartialEq, Eq)]
pub struct Rect {
    pub x: i32,
    pub y: i32,
    pub width: i32,
    pub height: i32,
}

/// A scale factor as the two lengths it is the quotient of: `physical / logical`.
#[derive(Clone, Copy, Debug, PartialEq, Eq)]
pub struct ScaleRatio {
    pub physical: i32,
    pub logical: i32,
}

/// A single monitor.
#[derive(Clone, Debug)]
pub struct Screen {
    pub id: String,
    pub name: String,
    pub geometry: Rect,
    /// The output's scale factor: the integer scale, or the ratio of the physical
    /// to the logical width.
    pub scale: Option<ScaleRatio>,
    pub refresh_millihz: Option<u32>,
    pub is_active: bool,
    pub is_primary: bool,
}

/// A screenshot of a full monitor.
#[derive(Clone, Debug)]
pub struct ScreenshotResult {
    pub base64: String,
    pub width: u32,
    pub height: u32,
    pub display_width: u32,
    pub display_height: u32,
    pub display_id: String,
    pub origin_x: i32,
    pub origin_y: i32,
}

/// An encoded image and its size.
#[derive(Clone, Debug)]
pub struct ScreenshotCapture {
    pub base64: String,
    pub width: u32,
    pub height: u32,
}

/// A window.
///
/// The foreign-toplevel protocols do not expose geometry, so `geometry` is all
/// zeros and `exclude_from_capture` is false.
#[derive(Debug)]
pub struct WindowInfo {
    pub id: String,
    pub title: String,
    pub geometry: Rect,
    pub pid: Option<u32>,
    pub desktop_file_name: Option<String>,
    pub resource_class: Option<String>,
    pub resource_name: Option<String>,
    pub window_role: Option<String>,
    pub window_type: Option<String>,
    pub is_dock: Option<bool>,
    pub is_desktop: Option<bool>,
    pub is_visible: Option<bool>,
    pub is_minimized: Option<bool>,
    pub is_normal_window: Option<bool>,
    pub is_dialog: Option<bool>,
    pub transient: Option<bool>,
    pub transient_for: Option<Box<WindowAppRef>>,
    /// Name of the screen this window is on; matches a `Screen::id`.
    pub output: Option<String>,
    pub stacking_order: usize,
    pub is_active: bool,
    pub exclude_from_capture: bool,
    pub keep_above: Option<bool>,
}

/// A reference up a window's transient (parent) chain.
#[derive(Debug)]
pub struct WindowAppRef {
    pub id: String,
    pub desktop_file_name: Option<String>,
    pub resource_class: Option<String>,
    pub resource_name: Option<String>,
    pub transient: Option<bool>,
    pub transient_for: Option<Box<WindowAppRef>>,
}

/// The identity of an application.
#[derive(Clone, Debug)]
pub struct AppRef {
    pub bundle_id: String,
    pub display_name: String,
}

/// The result of a pointer action.
#[derive(Clone, Debug)]
pub struct PointerActionResult {
    pub action: String,
    pub x: i32,
    pub y: i32,
    pub raised: Option<AppRef>,
}

/// The result of a drag.
#[derive(Clone, Debug)]
pub struct DragActionResult {
    pub action: String,
    pub from_x: i32,
    pub from_y: i32,
    pub to_x: i32,
    pub to_y: i32,
}

/// The result of pressing or releasing the held left button.
#[derive(Clone, Debug)]
pub struct ButtonStateResult {
    pub action: String,
    pub button: String,
    pub is_held: bool,
}

/// The result of a key sequence or of holding keys.
#[derive(Clone, Debug)]
pub struct KeyboardActionResult {
    pub action: String,
    pub keys: Vec<String>,
    pub repeat: Option<u32>,
    pub duration_ms: Option<u64>,
}

/// The result of typing text.
#[derive(Clone, Debug)]
pub struct TypeActionResult {
    pub action: String,
    pub text: String,
    pub char_count: usize,
}

/// The diagnostics report.
#[derive(Clone, Debug)]
pub struct DoctorReport {
    pub wayland_display: String,
    pub compositor: String,
    pub globals: DoctorGlobals,
}

/// Presence and bound version of each global: `Some(v)` where it is advertised and bound at
/// version `v`, `None` where the compositor does not advertise it.
#[derive(Clone, Copy, Debug, PartialEq, Eq)]
pub struct DoctorGlobals {
    pub virtual_pointer: Option<u32>,
    pub virtual_keyboard: Option<u32>,
    pub screencopy: Option<u32>,
    pub foreign_toplevel_wlr: Option<u32>,
    pub foreign_toplevel_ext: Option<u32>,
    pub xdg_output: Option<u32>,
    pub wl_output_count: usize,
    pub wl_seat: Option<u32>,
    pub wl_shm: Option<u32>,
}

} // verus!
