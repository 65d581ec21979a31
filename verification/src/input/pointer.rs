//! Pointer actions: moving, clicking, scrolling and dragging a virtual pointer.
//!
//! Absolute motion is given in a space that spans all outputs, so one global logical
//! coordinate is right on every layout of monitors. Buttons have evdev codes. Positive
//! distances scroll down and to the right.

use super::script;
use super::script::{PointerStep, Script};
use super::wheel;
use crate::conn;
use crate::conn::{BoundGlobal, Conn, Globals, Interface, MissingGlobal, OutputEntry};
use crate::double::Double;
use crate::output::{DragActionResult, PointerActionResult, Screen};
use crate::rounding;
use crate::screens;
use crate::screens::OutputGeometry;
use crate::text;
use vstd::prelude::*;
use vstd::string::*;

verus! {

/// The evdev code of the left button.
pub const BTN_LEFT: u32 = 0x110;

/// The evdev code of the right button.
pub const BTN_RIGHT: u32 = 0x111;

/// The evdev code of the middle button.
pub const BTN_MIDDLE: u32 = 0x112;

/// The axis of vertical scrolling.
pub const AXIS_VERTICAL: u32 = 0;

/// The axis of horizontal scrolling.
pub const AXIS_HORIZONTAL: u32 = 1;

/// How far one wheel notch scrolls.
pub const SCROLL_STEP: i32 = 15;

/// How many motions a drag is made of.
pub const DRAG_STEPS: u32 = 20;

/// The pause after each motion of a drag.
pub const DRAG_STEP_MS: u64 = 8;

/// The pause between two clicks.
pub const CLICK_GAP_MS: u64 = 50;

/// Why a pointer action cannot be done.
#[derive(Debug)]
pub enum PointerError {
    /// No button has this name.
    UnsupportedButton(String),
    /// There is no output to derive a coordinate space from.
    NoOutputs,
    /// The compositor does not advertise what is needed.
    Missing(MissingGlobal),
}

/// A pointer button.
#[derive(Clone, Copy, Debug, PartialEq, Eq)]
pub enum Button {
    Left,
    Right,
    Middle,
}

impl Button {
    /// The name of the button on the command line.
    pub open spec fn spec_name(self) -> Seq<char> {
        match self {
            Button::Left => "left"@,
            Button::Right => "right"@,
            Button::Middle => "middle"@,
        }
    }

    /// Recognises the name of a button.
    pub fn parse(value: &str) -> (r: Result<Button, PointerError>)
        ensures
            match r {
                Ok(b) => value@ == b.spec_name(),
                Err(PointerError::UnsupportedButton(other)) => other@ == value@ && forall|b: Button|
                    value@ != #[trigger] b.spec_name(),
                Err(_) => false,
            },
    {
        if text::same_text(value, "left") {
            Ok(Button::Left)
        } else if text::same_text(value, "right") {
            Ok(Button::Right)
        } else if text::same_text(value, "middle") {
            Ok(Button::Middle)
        } else {
            Err(PointerError::UnsupportedButton(value.to_owned()))
        }
    }

    /// The evdev code of the button.
    pub open spec fn code(self) -> u32 {
        match self {
            Button::Left => BTN_LEFT,
            Button::Right => BTN_RIGHT,
            Button::Middle => BTN_MIDDLE,
        }
    }

    /// The evdev code of the button.
    pub fn evdev(self) -> (r: u32)
        ensures
            r == self.code(),
    {
        match self {
            Button::Left => BTN_LEFT,
            Button::Right => BTN_RIGHT,
            Button::Middle => BTN_MIDDLE,
        }
    }
}

/// The right edge of an output, or its bottom edge.
pub open spec fn edge(e: OutputEntry, horizontal: bool) -> int {
    let rect = screens::geometry_of(e).logical_rect();
    if horizontal {
        rect.x + rect.width
    } else {
        rect.y + rect.height
    }
}

/// The farthest edge of some outputs, at least one pixel.
pub open spec fn extent(entries: Seq<OutputEntry>, horizontal: bool) -> int
    decreases entries.len(),
{
    if entries.len() == 0 {
        1
    } else {
        let rest = extent(entries.drop_last(), horizontal);
        let last = edge(entries.last(), horizontal);
        if last > rest {
            last
        } else {
            rest
        }
    }
}

/// The size of the space that spans all outputs from (0, 0): their farthest right edge
/// and their farthest bottom edge.
pub fn logical_extents(entries: &[OutputEntry]) -> (r: Result<(u32, u32), PointerError>)
    ensures
        match r {
            Ok((w, h)) => entries@.len() > 0 && w == extent(entries@, true) && h == extent(
                entries@,
                false,
            ),
            Err(e) => entries@.len() == 0 && e == PointerError::NoOutputs,
        },
{
    let n: usize = entries.len();
    if n == 0 {
        return Err(PointerError::NoOutputs);
    }
    let mut max_x: i64 = 1;
    let mut max_y: i64 = 1;
    let mut i: usize = 0;
    while i < n
        invariant
            n == entries@.len(),
            i <= n,
            1 <= max_x <= u32::MAX,
            1 <= max_y <= u32::MAX,
            max_x == extent(entries@.take(i as int), true),
            max_y == extent(entries@.take(i as int), false),
        decreases n - i,
    {
        let s = screens::to_screen(&OutputGeometry::from_entry(&entries[i]), false);
        let x: i64 = s.geometry.x as i64 + s.geometry.width as i64;
        let y: i64 = s.geometry.y as i64 + s.geometry.height as i64;
        proof {
            assert(entries@.take(i + 1).drop_last() == entries@.take(i as int));
        }
        if x > max_x {
            max_x = x;
        }
        if y > max_y {
            max_y = y;
        }
        i = i + 1;
    }
    proof {
        assert(entries@.take(n as int) == entries@);
    }
    Ok((max_x as u32, max_y as u32))
}

/// The extents are where the outputs end: no output reaches beyond them, and unless they
/// are a single pixel some output reaches as far.
pub proof fn law_extent_covers_outputs(entries: Seq<OutputEntry>, horizontal: bool)
    ensures
        extent(entries, horizontal) >= 1,
        forall|i: int|
            0 <= i < entries.len() ==> edge(#[trigger] entries[i], horizontal) <= extent(
                entries,
                horizontal,
            ),
        extent(entries, horizontal) == 1 || exists|i: int|
            0 <= i < entries.len() && edge(#[trigger] entries[i], horizontal) == extent(
                entries,
                horizontal,
            ),
    decreases entries.len(),
{
    if entries.len() > 0 {
        let rest = entries.drop_last();
        law_extent_covers_outputs(rest, horizontal);
        assert forall|i: int| 0 <= i < entries.len() implies edge(#[trigger] entries[i], horizontal)
            <= extent(entries, horizontal) by {
            if i < rest.len() {
                assert(rest[i] == entries[i]);
            }
        }
        if edge(entries.last(), horizontal) > extent(rest, horizontal) {
            assert(entries[entries.len() - 1] == entries.last());
        } else if extent(rest, horizontal) != 1 {
            let i = choose|i: int|
                0 <= i < rest.len() && edge(#[trigger] rest[i], horizontal) == extent(
                    rest,
                    horizontal,
                );
            assert(entries[i] == rest[i]);
        }
    }
}

/// A virtual pointer: the manager to create it with, and the extents that its absolute
/// motion maps into.
#[derive(Clone, Copy, Debug, PartialEq, Eq)]
pub struct Pointer {
    pub manager: BoundGlobal,
    pub extent_w: u32,
    pub extent_h: u32,
}

/// A coordinate brought into a range.
pub open spec fn clamped(v: int, hi: int) -> int {
    if v < 0 {
        0
    } else if v > hi {
        hi
    } else {
        v
    }
}

fn clamp(v: i32, hi: u32) -> (r: u32)
    ensures
        r == clamped(v as int, hi as int),
{
    if v < 0 {
        0
    } else if v as u32 > hi {
        hi
    } else {
        v as u32
    }
}

impl Pointer {
    /// What creating a pointer comes to.
    pub open spec fn creation(globals: Globals, entries: Seq<OutputEntry>) -> Result<
        Pointer,
        PointerError,
    > {
        if entries.len() == 0 {
            Err(PointerError::NoOutputs)
        } else {
            match conn::binding(globals, Interface::VirtualPointer) {
                Ok(manager) => Ok(
                    Pointer {
                        manager,
                        extent_w: extent(entries, true) as u32,
                        extent_h: extent(entries, false) as u32,
                    },
                ),
                Err(m) => Err(PointerError::Missing(m)),
            }
        }
    }

    /// Prepares a pointer for the space of the given outputs.
    pub fn create(conn: &Conn, entries: &[OutputEntry]) -> (r: Result<Pointer, PointerError>)
        ensures
            r == Pointer::creation(conn.globals, entries@),
    {
        let (extent_w, extent_h): (u32, u32) = match logical_extents(entries) {
            Ok(e) => e,
            Err(e) => {
                return Err(e);
            },
        };
        match conn.bind_virtual_pointer_manager() {
            Ok(manager) => Ok(Pointer { manager, extent_w, extent_h }),
            Err(m) => Err(PointerError::Missing(m)),
        }
    }

    /// The extents are coordinates.
    pub open spec fn spec_addressable(self) -> bool {
        self.extent_w <= i32::MAX && self.extent_h <= i32::MAX
    }

    /// Whether the extents are coordinates.
    pub fn addressable(&self) -> (r: bool)
        ensures
            r == self.spec_addressable(),
    {
        self.extent_w <= 0x7fff_ffff && self.extent_h <= 0x7fff_ffff
    }

    /// A motion to a point, or to the nearest point of the space.
    pub open spec fn motion(self, x: int, y: int) -> PointerStep {
        PointerStep::Motion {
            x: clamped(x, self.extent_w as int) as u32,
            y: clamped(y, self.extent_h as int) as u32,
            extent_w: self.extent_w,
            extent_h: self.extent_h,
        }
    }

    /// A motion to a point, or to the nearest point of the space.
    pub fn motion_absolute(&self, x: i32, y: i32) -> (r: PointerStep)
        requires
            self.spec_addressable(),
        ensures
            r == self.motion(x as int, y as int),
    {
        PointerStep::Motion {
            x: clamp(x, self.extent_w),
            y: clamp(y, self.extent_h),
            extent_w: self.extent_w,
            extent_h: self.extent_h,
        }
    }

    /// Pressing or releasing a button.
    pub fn button(&self, evdev: u32, pressed: bool) -> (r: PointerStep)
        ensures
            r == (PointerStep::Button { code: evdev, pressed }),
    {
        PointerStep::Button { code: evdev, pressed }
    }

    /// Scrolling; along any axis but the horizontal one it is vertical.
    pub fn axis(&self, axis: u32, value: i32) -> (r: PointerStep)
        ensures
            r == (PointerStep::Axis { horizontal: axis == AXIS_HORIZONTAL, value }),
    {
        PointerStep::Axis { horizontal: axis == AXIS_HORIZONTAL, value }
    }

    /// The end of a group of events.
    pub fn frame(&self) -> (r: PointerStep)
        ensures
            r == PointerStep::Frame,
    {
        PointerStep::Frame
    }
}

/// The time of an event in milliseconds since the epoch, as far as 32 bits hold it; zero
/// where the clock stands before the epoch.
pub fn now_ms(since_epoch: Option<u128>) -> (r: u32)
    ensures
        r == (match since_epoch {
            Some(ms) => ms as int % 0x1_0000_0000,
            None => 0,
        }),
{
    match since_epoch {
        Some(ms) => (ms % 0x1_0000_0000) as u32,
        None => 0,
    }
}

/// A pointer, what to do with it, and what to report once it is done.
#[derive(Debug)]
pub struct PointerPlan {
    pub pointer: Pointer,
    pub script: Script,
    pub result: PointerActionResult,
}

impl PointerPlan {
    /// The plan does `steps` with the pointer and reports the action at a point.
    pub open spec fn does(
        self,
        pointer: Pointer,
        steps: Seq<PointerStep>,
        action: Seq<char>,
        x: i32,
        y: i32,
    ) -> bool {
        &&& self.pointer == pointer
        &&& self.script@ == steps
        &&& self.result.action@ == action
        &&& self.result.x == x
        &&& self.result.y == y
        &&& self.result.raised is None
    }
}

/// The steps of a move.
pub open spec fn move_steps(p: Pointer, x: int, y: int) -> Seq<PointerStep> {
    seq![p.motion(x, y), PointerStep::Frame, PointerStep::Roundtrip]
}

/// Moves the pointer.
pub fn move_pointer(conn: &Conn, entries: &[OutputEntry], x: i32, y: i32) -> (r: Result<
    PointerPlan,
    PointerError,
>)
    requires
        Pointer::creation(conn.globals, entries@) matches Ok(p) ==> p.spec_addressable(),
    ensures
        match Pointer::creation(conn.globals, entries@) {
            Ok(p) => r matches Ok(plan) && plan.does(
                p,
                move_steps(p, x as int, y as int),
                "move"@,
                x,
                y,
            ),
            Err(e) => r matches Err(e2) && e2 == e,
        },
{
    let p = match Pointer::create(conn, entries) {
        Ok(p) => p,
        Err(e) => {
            return Err(e);
        },
    };
    let mut script = Script::new();
    script.once(vec![p.motion_absolute(x, y), p.frame(), PointerStep::Roundtrip]);
    proof {
        assert(script@ == move_steps(p, x as int, y as int));
    }
    Ok(
        PointerPlan {
            pointer: p,
            script,
            result: PointerActionResult { action: "move".to_owned(), x, y, raised: None },
        },
    )
}

/// One press and release.
pub open spec fn one_click(code: u32) -> Seq<PointerStep> {
    seq![
        PointerStep::Button { code, pressed: true },
        PointerStep::Frame,
        PointerStep::Button { code, pressed: false },
        PointerStep::Frame,
    ]
}

/// A pause and another press and release.
pub open spec fn next_click(code: u32) -> Seq<PointerStep> {
    seq![PointerStep::Flush, PointerStep::Sleep { millis: CLICK_GAP_MS }] + one_click(code)
}

/// The steps of `count` clicks at a point; no count is one click.
pub open spec fn click_steps(p: Pointer, x: int, y: int, code: u32, count: u32) -> Seq<
    PointerStep,
> {
    let again = if count == 0 {
        0nat
    } else {
        (count - 1) as nat
    };
    seq![p.motion(x, y), PointerStep::Frame] + one_click(code) + script::repeated(
        next_click(code),
        again,
    ) + seq![PointerStep::Roundtrip]
}

/// What a click takes. Where `hold_modifiers` is set, the modifier keys are held from
/// before the pointer is created until the plan is done or has failed.
#[derive(Debug)]
pub struct ClickPlan {
    pub hold_modifiers: bool,
    pub pointer: Result<PointerPlan, PointerError>,
}

/// Clicks a button at a point, with modifier keys held.
pub fn click(
    conn: &Conn,
    entries: &[OutputEntry],
    x: i32,
    y: i32,
    button: Button,
    count: u32,
    modifiers: &[String],
) -> (r: ClickPlan)
    requires
        Pointer::creation(conn.globals, entries@) matches Ok(p) ==> p.spec_addressable(),
    ensures
        r.hold_modifiers == (modifiers@.len() > 0),
        match Pointer::creation(conn.globals, entries@) {
            Ok(p) => r.pointer matches Ok(plan) && plan.does(
                p,
                click_steps(p, x as int, y as int, button.code(), count),
                "click"@,
                x,
                y,
            ),
            Err(e) => r.pointer matches Err(e2) && e2 == e,
        },
{
    let hold_modifiers: bool = modifiers.len() > 0;
    let p = match Pointer::create(conn, entries) {
        Ok(p) => p,
        Err(e) => {
            return ClickPlan { hold_modifiers, pointer: Err(e) };
        },
    };
    let code: u32 = button.evdev();
    let again: u32 = if count == 0 {
        0
    } else {
        count - 1
    };
    let mut script = Script::new();
    script.once(
        vec![
            p.motion_absolute(x, y),
            p.frame(),
            p.button(code, true),
            p.frame(),
            p.button(code, false),
            p.frame(),
        ],
    );
    script.repeat(
        vec![
            PointerStep::Flush,
            PointerStep::Sleep { millis: CLICK_GAP_MS },
            p.button(code, true),
            p.frame(),
            p.button(code, false),
            p.frame(),
        ],
        again,
    );
    script.once(vec![PointerStep::Roundtrip]);
    proof {
        assert(seq![
            PointerStep::Flush,
            PointerStep::Sleep { millis: CLICK_GAP_MS },
            PointerStep::Button { code, pressed: true },
            PointerStep::Frame,
            PointerStep::Button { code, pressed: false },
            PointerStep::Frame,
        ] =~= next_click(code));
        assert(script@ =~= click_steps(p, x as int, y as int, code, count));
    }
    ClickPlan {
        hold_modifiers,
        pointer: Ok(
            PointerPlan {
                pointer: p,
                script,
                result: PointerActionResult { action: "click".to_owned(), x, y, raised: None },
            },
        ),
    }
}

/// One notch along an axis.
pub open spec fn one_notch(horizontal: bool, bits: u64) -> Seq<PointerStep> {
    seq![
        PointerStep::Axis {
            horizontal,
            value: if wheel::is_negative(bits) {
                (-SCROLL_STEP) as i32
            } else {
                SCROLL_STEP
            },
        },
        PointerStep::Frame,
    ]
}

/// The steps of a scroll at a point: the vertical notches, then the horizontal ones.
pub open spec fn scroll_steps(p: Pointer, x: int, y: int, dx: u64, dy: u64) -> Seq<PointerStep> {
    seq![p.motion(x, y), PointerStep::Frame] + script::repeated(
        one_notch(false, dy),
        wheel::notch_count(dy) as nat,
    ) + script::repeated(one_notch(true, dx), wheel::notch_count(dx) as nat)
        + seq![PointerStep::Roundtrip]
}

/// Scrolls at a point. The two distances are the bits of doubles.
pub fn scroll(conn: &Conn, entries: &[OutputEntry], x: i32, y: i32, dx: u64, dy: u64) -> (r: Result<
    PointerPlan,
    PointerError,
>)
    requires
        Pointer::creation(conn.globals, entries@) matches Ok(p) ==> p.spec_addressable(),
    ensures
        match Pointer::creation(conn.globals, entries@) {
            Ok(p) => r matches Ok(plan) && plan.does(
                p,
                scroll_steps(p, x as int, y as int, dx, dy),
                "scroll"@,
                x,
                y,
            ),
            Err(e) => r matches Err(e2) && e2 == e,
        },
{
    let p = match Pointer::create(conn, entries) {
        Ok(p) => p,
        Err(e) => {
            return Err(e);
        },
    };
    let mut script = Script::new();
    script.once(vec![p.motion_absolute(x, y), p.frame()]);
    let v_ticks: u32 = wheel::notches(dy);
    let v_value: i32 = if wheel::is_positive(dy) {
        SCROLL_STEP
    } else {
        -SCROLL_STEP
    };
    script.repeat(vec![p.axis(AXIS_VERTICAL, v_value), p.frame()], v_ticks);
    let h_ticks: u32 = wheel::notches(dx);
    let h_value: i32 = if wheel::is_positive(dx) {
        SCROLL_STEP
    } else {
        -SCROLL_STEP
    };
    script.repeat(vec![p.axis(AXIS_HORIZONTAL, h_value), p.frame()], h_ticks);
    script.once(vec![PointerStep::Roundtrip]);
    proof {
        let down = seq![
            PointerStep::Axis { horizontal: false, value: v_value },
            PointerStep::Frame,
        ];
        let right = seq![
            PointerStep::Axis { horizontal: true, value: h_value },
            PointerStep::Frame,
        ];
        assert(script@ =~= seq![p.motion(x as int, y as int), PointerStep::Frame]
            + script::repeated(down, v_ticks as nat) + script::repeated(right, h_ticks as nat)
            + seq![PointerStep::Roundtrip]);
        assert(script::repeated(down, v_ticks as nat) == script::repeated(
            one_notch(false, dy),
            v_ticks as nat,
        ));
        assert(script::repeated(right, h_ticks as nat) == script::repeated(
            one_notch(true, dx),
            h_ticks as nat,
        ));
    }
    Ok(
        PointerPlan {
            pointer: p,
            script,
            result: PointerActionResult { action: "scroll".to_owned(), x, y, raised: None },
        },
    )
}

/// How far along a distance `d` the motion number `step` of a drag has come, in double
/// precision: the distance times the fraction of the steps, rounded to the nearest
/// integer, halves away from zero.
pub open spec fn drag_offset(d: int, step: int) -> int {
    let fraction = rounding::rounded(step as real / 20 as real);
    if d >= 0 {
        rounding::round_half_up(rounding::rounded(d as real * fraction))
    } else {
        -rounding::round_half_up(rounding::rounded((-d) as real * fraction))
    }
}

proof fn lemma_fraction(step: int)
    requires
        0 <= step <= 20,
    ensures
        0 as real <= rounding::rounded(step as real / 20 as real) <= 1 as real,
        step == 20 ==> rounding::rounded(step as real / 20 as real) == 1 as real,
{
    rounding::lemma_rounded_int(0);
    rounding::lemma_rounded_int(1);
    rounding::lemma_rounded_monotone(0 as real, step as real / 20 as real);
    rounding::lemma_rounded_monotone(step as real / 20 as real, 1 as real);
}

proof fn lemma_whole_half_up(n: int)
    ensures
        rounding::round_half_up(n as real) == n,
{
}

proof fn lemma_half_up_monotone(a: real, b: real)
    requires
        a <= b,
    ensures
        rounding::round_half_up(a) <= rounding::round_half_up(b),
{
}

/// A drag never overshoots: every motion lies between the two ends.
pub proof fn law_drag_stays_between(d: int, step: int)
    requires
        -0x8000_0000 <= d < 0x8000_0000,
        0 <= step <= 20,
    ensures
        d >= 0 ==> 0 <= drag_offset(d, step) <= d,
        d <= 0 ==> d <= drag_offset(d, step) <= 0,
{
    let n = if d >= 0 {
        d
    } else {
        -d
    };
    let f = rounding::rounded(step as real / 20 as real);
    lemma_fraction(step);
    let v = n as real * f;
    assert(0 as real <= v <= n as real) by (nonlinear_arith)
        requires
            v == n as real * f,
            n as real >= 0 as real,
            0 as real <= f <= 1 as real,
    ;
    rounding::lemma_rounded_int(n);
    rounding::lemma_rounded_int(0);
    rounding::lemma_rounded_monotone(v, n as real);
    rounding::lemma_rounded_monotone(0 as real, v);
    lemma_half_up_monotone(rounding::rounded(v), n as real);
    lemma_half_up_monotone(0 as real, rounding::rounded(v));
    lemma_whole_half_up(n);
    lemma_whole_half_up(0);
}

/// The last motion of a drag is on its target.
pub proof fn law_drag_arrives(d: int)
    requires
        -0x8000_0000 <= d < 0x8000_0000,
    ensures
        drag_offset(d, 20) == d,
{
    let n = if d >= 0 {
        d
    } else {
        -d
    };
    let f = rounding::rounded(20 as real / 20 as real);
    lemma_fraction(20);
    rounding::lemma_rounded_int(n);
    lemma_whole_half_up(n);
    assert(n as real * f == n as real) by (nonlinear_arith)
        requires
            f == 1 as real,
    ;
}

/// A drag never turns back.
pub proof fn law_drag_goes_forward(d: int, a: int, b: int)
    requires
        -0x8000_0000 <= d < 0x8000_0000,
        0 <= a <= b <= 20,
    ensures
        d >= 0 ==> drag_offset(d, a) <= drag_offset(d, b),
        d <= 0 ==> drag_offset(d, a) >= drag_offset(d, b),
{
    let n = if d >= 0 {
        d
    } else {
        -d
    };
    law_drag_stays_between(d, a);
    law_drag_stays_between(d, b);
    let f = rounding::rounded(a as real / 20 as real);
    let g = rounding::rounded(b as real / 20 as real);
    rounding::lemma_rounded_monotone(a as real / 20 as real, b as real / 20 as real);
    let v = n as real * f;
    let w = n as real * g;
    assert(v <= w) by (nonlinear_arith)
        requires
            v == n as real * f,
            w == n as real * g,
            n as real >= 0 as real,
            f <= g,
    ;
    rounding::lemma_rounded_monotone(v, w);
    lemma_half_up_monotone(rounding::rounded(v), rounding::rounded(w));
}

/// Every motion of a drag goes to a pixel that is nearest to the exact point, half a pixel
/// off at most.
pub proof fn law_drag_is_straight(d: int, step: int)
    requires
        -0x8000_0000 <= d < 0x8000_0000,
        0 <= step <= 20,
    ensures
        -10 <= 20 * drag_offset(d, step) - d * step <= 10,
{
    let n = if d >= 0 {
        d
    } else {
        -d
    };
    let e = step as real / 20 as real;
    let f = rounding::rounded(e);
    let v = n as real * f;
    let u = n as real * e;
    rounding::lemma_rounded_error(e);
    let k = 0x20_0000_0000_0000 as real;
    let over = 0x20_0000_0000_0001 as real;
    let under = 0x1f_ffff_ffff_ffff as real;
    let nr = n as real;
    assert(v >= 0 as real) by (nonlinear_arith)
        requires
            v == nr * f,
            nr >= 0 as real,
            f >= 0 as real,
    ;
    assert(k * v <= over * u) by (nonlinear_arith)
        requires
            v == nr * f,
            u == nr * e,
            nr >= 0 as real,
            k * f <= over * e,
    ;
    assert(under * u <= k * v) by (nonlinear_arith)
        requires
            v == nr * f,
            u == nr * e,
            nr >= 0 as real,
            under * e <= k * f,
    ;
    assert(0 as real <= u <= nr) by (nonlinear_arith)
        requires
            u == nr * e,
            nr >= 0 as real,
            0 as real <= e <= 1 as real,
    ;
    rounding::lemma_rounded_error(v);
    let w = rounding::rounded(v);
    rounding::lemma_cast_mul(n, step);
    assert(20 as real * u == (n * step) as real) by (nonlinear_arith)
        requires
            u == nr * e,
            e == step as real / 20 as real,
            (n * step) as real == nr * step as real,
    ;
    let off = rounding::round_half_up(w);
    assert(off as real <= w + (1 as real) / (2 as real));
    assert(w + (1 as real) / (2 as real) < off as real + 1 as real);
    assert(40 as real * (w - u) < 1 as real);
    assert(40 as real * (u - w) < 1 as real);
    assert(-10 <= 20 * off - n * step <= 10);
    assert(d < 0 ==> n * step == -(d * step)) by (nonlinear_arith)
        requires
            d < 0 ==> n == -d,
    ;
}

/// Where the motion number `step` of a drag goes along one axis.
fn drag_coordinate(from: i32, to: i32, step: u32) -> (r: i32)
    requires
        i32::MIN <= to - from <= i32::MAX,
        1 <= step <= DRAG_STEPS,
    ensures
        r == from + drag_offset(to - from, step as int),
{
    proof {
        law_drag_stays_between(to - from, step as int);
        rounding::lemma_rounded_int(step as int);
        rounding::lemma_rounded_int(20);
        let n = if to >= from {
            to - from
        } else {
            from - to
        };
        rounding::lemma_rounded_int(n);
    }
    let fraction = Double::from_u64(step as u64).over(Double::from_u64(20));
    if to >= from {
        let d: u64 = (to as i64 - from as i64) as u64;
        let offset: u64 = Double::from_u64(d).times(fraction).round_to(0x8000_0000);
        (from as i64 + offset as i64) as i32
    } else {
        let d: u64 = (from as i64 - to as i64) as u64;
        let offset: u64 = Double::from_u64(d).times(fraction).round_to(0x8000_0000);
        (from as i64 - offset as i64) as i32
    }
}

/// Motions that each end a group of events and are followed by a pause.
pub open spec fn glide(p: Pointer, x: int, y: int) -> Seq<PointerStep> {
    seq![
        p.motion(x, y),
        PointerStep::Frame,
        PointerStep::Flush,
        PointerStep::Sleep { millis: DRAG_STEP_MS },
    ]
}

/// The first `steps` motions of a drag.
pub open spec fn glides(
    p: Pointer,
    from_x: int,
    from_y: int,
    to_x: int,
    to_y: int,
    steps: nat,
) -> Seq<PointerStep>
    decreases steps,
{
    if steps == 0 {
        Seq::empty()
    } else {
        glides(p, from_x, from_y, to_x, to_y, (steps - 1) as nat) + glide(
            p,
            from_x + drag_offset(to_x - from_x, steps as int),
            from_y + drag_offset(to_y - from_y, steps as int),
        )
    }
}

/// The steps of a drag: the left button is pressed at the start, the pointer moves to the
/// target in small steps, and the button is released there.
pub open spec fn drag_steps(p: Pointer, from_x: int, from_y: int, to_x: int, to_y: int) -> Seq<
    PointerStep,
> {
    seq![
        p.motion(from_x, from_y),
        PointerStep::Frame,
        PointerStep::Button { code: BTN_LEFT, pressed: true },
        PointerStep::Frame,
        PointerStep::Flush,
        PointerStep::Sleep { millis: DRAG_STEP_MS },
    ] + glides(p, from_x, from_y, to_x, to_y, DRAG_STEPS as nat) + glide(p, to_x, to_y) + seq![
        PointerStep::Button { code: BTN_LEFT, pressed: false },
        PointerStep::Frame,
        PointerStep::Roundtrip,
    ]
}

/// A pointer, how to drag with it, and what to report once it is done.
#[derive(Debug)]
pub struct DragPlan {
    pub pointer: Pointer,
    pub script: Script,
    pub result: DragActionResult,
}

/// Drags with the left button from one point to another.
pub fn drag(
    conn: &Conn,
    entries: &[OutputEntry],
    from_x: i32,
    from_y: i32,
    to_x: i32,
    to_y: i32,
) -> (r: Result<DragPlan, PointerError>)
    requires
        Pointer::creation(conn.globals, entries@) matches Ok(p) ==> {
            &&& p.spec_addressable()
            &&& i32::MIN <= to_x - from_x <= i32::MAX
            &&& i32::MIN <= to_y - from_y <= i32::MAX
        },
    ensures
        match Pointer::creation(conn.globals, entries@) {
            Ok(p) => {
                &&& r matches Ok(plan)
                &&& plan.pointer == p
                &&& plan.script@ == drag_steps(
                    p,
                    from_x as int,
                    from_y as int,
                    to_x as int,
                    to_y as int,
                )
                &&& plan.result.action@ == "drag"@
                &&& plan.result.from_x == from_x
                &&& plan.result.from_y == from_y
                &&& plan.result.to_x == to_x
                &&& plan.result.to_y == to_y
            },
            Err(e) => r matches Err(e2) && e2 == e,
        },
{
    let p = match Pointer::create(conn, entries) {
        Ok(p) => p,
        Err(e) => {
            return Err(e);
        },
    };
    let mut script = Script::new();
    script.once(
        vec![
            p.motion_absolute(from_x, from_y),
            p.frame(),
            p.button(BTN_LEFT, true),
            p.frame(),
            PointerStep::Flush,
            PointerStep::Sleep { millis: DRAG_STEP_MS },
        ],
    );
    let ghost head = script@;
    let ghost (fx, fy) = (from_x as int, from_y as int);
    let ghost (tx, ty) = (to_x as int, to_y as int);
    let mut step: u32 = 1;
    while step <= DRAG_STEPS
        invariant
            p.spec_addressable(),
            i32::MIN <= to_x - from_x <= i32::MAX,
            i32::MIN <= to_y - from_y <= i32::MAX,
            fx == from_x,
            fy == from_y,
            tx == to_x,
            ty == to_y,
            1 <= step <= DRAG_STEPS + 1,
            script@ == head + glides(p, fx, fy, tx, ty, (step - 1) as nat),
        decreases DRAG_STEPS + 1 - step,
    {
        let x: i32 = drag_coordinate(from_x, to_x, step);
        let y: i32 = drag_coordinate(from_y, to_y, step);
        script.once(
            vec![
                p.motion_absolute(x, y),
                p.frame(),
                PointerStep::Flush,
                PointerStep::Sleep { millis: DRAG_STEP_MS },
            ],
        );
        proof {
            assert(script@ =~= head + glides(p, fx, fy, tx, ty, step as nat));
        }
        step = step + 1;
    }
    script.once(
        vec![
            p.motion_absolute(to_x, to_y),
            p.frame(),
            PointerStep::Flush,
            PointerStep::Sleep { millis: DRAG_STEP_MS },
            p.button(BTN_LEFT, false),
            p.frame(),
            PointerStep::Roundtrip,
        ],
    );
    proof {
        assert(script@ =~= drag_steps(p, fx, fy, tx, ty));
    }
    Ok(
        DragPlan {
            pointer: p,
            script,
            result: DragActionResult { action: "drag".to_owned(), from_x, from_y, to_x, to_y },
        },
    )
}

/// The buttons have names of their own: every name is recognised as its button.
pub proof fn law_button_names_are_distinct(a: Button, b: Button)
    requires
        a.spec_name() == b.spec_name(),
    ensures
        a == b,
{
    reveal_strlit("left");
    reveal_strlit("right");
    reveal_strlit("middle");
    assert("left"@.len() == 4);
    assert("right"@.len() == 5);
    assert("middle"@.len() == 6);
}

/// Steps of a move leave every button alone.
proof fn lemma_moving(p: Pointer, x: int, y: int, code: u32, down: Option<bool>)
    ensures
        ({
            let steps = seq![p.motion(x, y), PointerStep::Frame];
            &&& script::button_after(steps, code, down) == down
            &&& script::presses(steps, code) == 0
            &&& script::scrolled(steps, true) == 0
            &&& script::scrolled(steps, false) == 0
        }),
{
    let steps = seq![p.motion(x, y), PointerStep::Frame];
    assert(steps.drop_last() =~= seq![p.motion(x, y)]);
    assert(steps.drop_last().drop_last() =~= Seq::empty());
    reveal_with_fuel(script::button_after, 3);
    reveal_with_fuel(script::presses, 3);
    reveal_with_fuel(script::scrolled, 3);
}

/// A roundtrip leaves every button alone.
proof fn lemma_roundtrip(code: u32, down: Option<bool>)
    ensures
        ({
            let steps = seq![PointerStep::Roundtrip];
            &&& script::button_after(steps, code, down) == down
            &&& script::presses(steps, code) == 0
            &&& script::scrolled(steps, true) == 0
            &&& script::scrolled(steps, false) == 0
        }),
{
    assert(seq![PointerStep::Roundtrip].drop_last() =~= Seq::empty());
    reveal_with_fuel(script::button_after, 2);
    reveal_with_fuel(script::presses, 2);
    reveal_with_fuel(script::scrolled, 2);
}

/// One click presses its button once and leaves it up.
proof fn lemma_one_click(button: u32, code: u32)
    ensures
        script::button_after(one_click(button), code, Some(false)) == Some(false),
        script::presses(one_click(button), code) == (if code == button {
            1nat
        } else {
            0
        }),
        script::scrolled(one_click(button), true) == 0,
        script::scrolled(one_click(button), false) == 0,
{
    let s4 = one_click(button);
    let s3 = s4.drop_last();
    let s2 = s3.drop_last();
    let s1 = s2.drop_last();
    assert(s1.drop_last() =~= Seq::empty());
    reveal_with_fuel(script::button_after, 5);
    reveal_with_fuel(script::presses, 5);
    reveal_with_fuel(script::scrolled, 5);
}

/// A pause leaves every button alone.
proof fn lemma_next_click(button: u32, code: u32)
    ensures
        script::button_after(next_click(button), code, Some(false)) == Some(false),
        script::presses(next_click(button), code) == (if code == button {
            1nat
        } else {
            0
        }),
        script::scrolled(next_click(button), true) == 0,
        script::scrolled(next_click(button), false) == 0,
{
    let pause = seq![PointerStep::Flush, PointerStep::Sleep { millis: CLICK_GAP_MS }];
    assert(pause.drop_last().drop_last() =~= Seq::empty());
    assert(script::button_after(pause, code, Some(false)) == Some(false) && script::presses(
        pause,
        code,
    ) == 0 && script::scrolled(pause, true) == 0 && script::scrolled(pause, false) == 0) by {
        reveal_with_fuel(script::button_after, 3);
        reveal_with_fuel(script::presses, 3);
        reveal_with_fuel(script::scrolled, 3);
    }
    lemma_one_click(button, code);
    script::lemma_joined(pause, one_click(button), code, Some(false));
}

/// Clicking presses the button as often as asked, at least once, and no other button.
/// Every press is released before the next one, and the end finds every button up.
#[verifier::spinoff_prover]
pub proof fn law_clicks_are_counted(p: Pointer, x: int, y: int, button: u32, count: u32, code: u32)
    ensures
        script::presses(click_steps(p, x, y, button, count), code) == (if code != button {
            0nat
        } else if count == 0 {
            1
        } else {
            count as nat
        }),
        script::button_after(click_steps(p, x, y, button, count), code, Some(false)) == Some(false),
{
    let again = if count == 0 {
        0nat
    } else {
        (count - 1) as nat
    };
    let a = seq![p.motion(x, y), PointerStep::Frame];
    let b = one_click(button);
    let c = script::repeated(next_click(button), again);
    let d = seq![PointerStep::Roundtrip];
    let up = Some(false);
    lemma_moving(p, x, y, code, up);
    lemma_one_click(button, code);
    lemma_next_click(button, code);
    script::lemma_repeated(next_click(button), again, code, up);
    lemma_roundtrip(code, up);
    script::lemma_joined(a, b, code, up);
    script::lemma_joined(a + b, c, code, up);
    script::lemma_joined(a + b + c, d, code, up);
    let n = script::presses(next_click(button), code);
    assert(n == 1 ==> again * n == again) by (nonlinear_arith);
    assert(n == 0 ==> again * n == 0) by (nonlinear_arith);
}

proof fn lemma_one_notch(horizontal: bool, bits: u64, code: u32, down: Option<bool>)
    ensures
        ({
            let steps = one_notch(horizontal, bits);
            &&& script::button_after(steps, code, down) == down
            &&& script::presses(steps, code) == 0
            &&& script::scrolled(steps, !horizontal) == 0
            &&& script::scrolled(steps, horizontal) == (if wheel::is_negative(bits) {
                -15int
            } else {
                15
            })
        }),
{
    let steps = one_notch(horizontal, bits);
    assert(steps.drop_last().drop_last() =~= Seq::empty());
    reveal_with_fuel(script::button_after, 3);
    reveal_with_fuel(script::presses, 3);
    reveal_with_fuel(script::scrolled, 3);
}

/// The way that a distance scrolls in all.
pub open spec fn wheel_travel(bits: u64) -> int {
    if wheel::is_negative(bits) {
        -SCROLL_STEP * wheel::notch_count(bits)
    } else {
        SCROLL_STEP * wheel::notch_count(bits)
    }
}

/// All notches along one axis: they go its way in all, leave the other axis alone and press
/// no button.
proof fn lemma_notches(horizontal: bool, bits: u64, code: u32)
    ensures
        ({
            let steps = script::repeated(
                one_notch(horizontal, bits),
                wheel::notch_count(bits) as nat,
            );
            &&& script::button_after(steps, code, Some(false)) == Some(false)
            &&& script::presses(steps, code) == 0
            &&& script::scrolled(steps, !horizontal) == 0
            &&& script::scrolled(steps, horizontal) == wheel_travel(bits)
        }),
{
    let up = Some(false);
    let n = wheel::notch_count(bits);
    let one = one_notch(horizontal, bits);
    let way = script::scrolled(one, horizontal);
    let aside = script::scrolled(one, !horizontal);
    let pressed = script::presses(one, code);
    wheel::lemma_notch_count(bits);
    lemma_one_notch(horizontal, bits, code, up);
    script::lemma_repeated(one, n as nat, code, up);
    assert(n * aside == 0) by (nonlinear_arith)
        requires
            aside == 0,
    ;
    assert(n * pressed == 0) by (nonlinear_arith)
        requires
            pressed == 0,
    ;
    assert(way == 15 ==> n * way == 15 * n) by (nonlinear_arith);
    assert(way == -15 ==> n * way == -15 * n) by (nonlinear_arith);
    assert(wheel_travel(bits) == n * way);
    let all = script::repeated(one, n as nat);
    assert(script::scrolled(all, true) == n * script::scrolled(one, true));
    assert(script::scrolled(all, false) == n * script::scrolled(one, false));
    assert(script::scrolled(all, horizontal) == n * way);
    assert(script::scrolled(all, !horizontal) == n * aside);
}

/// Scrolling goes 15 units along its axis for every notch, down and to the right where the
/// distance is positive, up and to the left where it is negative, and presses no button.
#[verifier::spinoff_prover]
pub proof fn law_scrolling_adds_up(p: Pointer, x: int, y: int, dx: u64, dy: u64, code: u32)
    ensures
        script::scrolled(scroll_steps(p, x, y, dx, dy), true) == wheel_travel(dx),
        script::scrolled(scroll_steps(p, x, y, dx, dy), false) == wheel_travel(dy),
        script::presses(scroll_steps(p, x, y, dx, dy), code) == 0,
        script::button_after(scroll_steps(p, x, y, dx, dy), code, Some(false)) == Some(false),
{
    let up = Some(false);
    let a = seq![p.motion(x, y), PointerStep::Frame];
    let b = script::repeated(one_notch(false, dy), wheel::notch_count(dy) as nat);
    let c = script::repeated(one_notch(true, dx), wheel::notch_count(dx) as nat);
    let d = seq![PointerStep::Roundtrip];
    lemma_moving(p, x, y, code, up);
    lemma_notches(false, dy, code);
    lemma_notches(true, dx, code);
    lemma_roundtrip(code, up);
    script::lemma_joined(a, b, code, up);
    script::lemma_joined(a + b, c, code, up);
    script::lemma_joined(a + b + c, d, code, up);
}

/// The motions of a drag leave every button alone and stay inside.
proof fn lemma_glides(
    p: Pointer,
    from_x: int,
    from_y: int,
    to_x: int,
    to_y: int,
    steps: nat,
    code: u32,
    down: Option<bool>,
)
    ensures
        ({
            let s = glides(p, from_x, from_y, to_x, to_y, steps);
            &&& script::button_after(s, code, down) == down
            &&& script::presses(s, code) == 0
            &&& script::stays_inside(s)
        }),
    decreases steps,
{
    if steps > 0 {
        let fewer = (steps - 1) as nat;
        let x = from_x + drag_offset(to_x - from_x, steps as int);
        let y = from_y + drag_offset(to_y - from_y, steps as int);
        lemma_glides(p, from_x, from_y, to_x, to_y, fewer, code, down);
        lemma_glide(p, x, y, code, down);
        script::lemma_joined(
            glides(p, from_x, from_y, to_x, to_y, fewer),
            glide(p, x, y),
            code,
            down,
        );
    }
}

proof fn lemma_glide(p: Pointer, x: int, y: int, code: u32, down: Option<bool>)
    ensures
        script::button_after(glide(p, x, y), code, down) == down,
        script::presses(glide(p, x, y), code) == 0,
        script::stays_inside(glide(p, x, y)),
{
    let s = glide(p, x, y);
    assert(s.drop_last().drop_last().drop_last().drop_last() =~= Seq::empty());
    reveal_with_fuel(script::button_after, 5);
    reveal_with_fuel(script::presses, 5);
}

/// A drag presses the left button once, holds it on the whole way, and releases it at the
/// end; it presses no other button.
#[verifier::spinoff_prover]
pub proof fn law_drag_holds_the_button(
    p: Pointer,
    from_x: int,
    from_y: int,
    to_x: int,
    to_y: int,
    code: u32,
)
    ensures
        ({
            let s = drag_steps(p, from_x, from_y, to_x, to_y);
            &&& script::button_after(s, code, Some(false)) == Some(false)
            &&& script::presses(s, code) == (if code == BTN_LEFT {
                1nat
            } else {
                0
            })
            &&& s[2] == (PointerStep::Button { code: BTN_LEFT, pressed: true })
            &&& s[s.len() - 3] == (PointerStep::Button { code: BTN_LEFT, pressed: false })
            &&& s.last() == PointerStep::Roundtrip
        }),
{
    let a = seq![
        p.motion(from_x, from_y),
        PointerStep::Frame,
        PointerStep::Button { code: BTN_LEFT, pressed: true },
        PointerStep::Frame,
        PointerStep::Flush,
        PointerStep::Sleep { millis: DRAG_STEP_MS },
    ];
    let b = glides(p, from_x, from_y, to_x, to_y, DRAG_STEPS as nat);
    let c = glide(p, to_x, to_y);
    let d = seq![
        PointerStep::Button { code: BTN_LEFT, pressed: false },
        PointerStep::Frame,
        PointerStep::Roundtrip,
    ];
    let up = Some(false);
    let held = Some(code == BTN_LEFT);
    assert(script::button_after(a, code, up) == held && script::presses(a, code) == (if code
        == BTN_LEFT {
        1nat
    } else {
        0
    })) by {
        assert(a.drop_last().drop_last().drop_last().drop_last().drop_last().drop_last()
            =~= Seq::empty());
        reveal_with_fuel(script::button_after, 7);
        reveal_with_fuel(script::presses, 7);
    }
    lemma_glides(p, from_x, from_y, to_x, to_y, DRAG_STEPS as nat, code, held);
    lemma_glide(p, to_x, to_y, code, held);
    assert(script::button_after(d, code, held) == up && script::presses(d, code) == 0) by {
        assert(d.drop_last().drop_last().drop_last() =~= Seq::empty());
        reveal_with_fuel(script::button_after, 4);
        reveal_with_fuel(script::presses, 4);
    }
    script::lemma_joined(a, b, code, up);
    script::lemma_joined(a + b, c, code, up);
    script::lemma_joined(a + b + c, d, code, up);
}

/// The pointer is never sent outside the space that spans all outputs, whatever point it
/// is asked to go to.
pub proof fn law_motion_stays_inside(p: Pointer, x: int, y: int, to_x: int, to_y: int)
    ensures
        script::stays_inside(move_steps(p, x, y)),
        forall|code: u32, count: u32|
            script::stays_inside(#[trigger] click_steps(p, x, y, code, count)),
        forall|dx: u64, dy: u64| script::stays_inside(#[trigger] scroll_steps(p, x, y, dx, dy)),
        script::stays_inside(drag_steps(p, x, y, to_x, to_y)),
{
    assert forall|code: u32, count: u32|
        script::stays_inside(#[trigger] click_steps(p, x, y, code, count)) by {
        let again = if count == 0 {
            0nat
        } else {
            (count - 1) as nat
        };
        script::lemma_repeated_inside(next_click(code), again);
    }
    assert forall|dx: u64, dy: u64|
        script::stays_inside(#[trigger] scroll_steps(p, x, y, dx, dy)) by {
        script::lemma_repeated_inside(one_notch(false, dy), wheel::notch_count(dy) as nat);
        script::lemma_repeated_inside(one_notch(true, dx), wheel::notch_count(dx) as nat);
    }
    lemma_glides(p, x, y, to_x, to_y, DRAG_STEPS as nat, 0, None);
}

/// A point of the space is moved to as it is.
pub proof fn law_points_inside_are_kept(p: Pointer, x: int, y: int)
    requires
        0 <= x <= p.extent_w,
        0 <= y <= p.extent_h,
    ensures
        p.motion(x, y) == (PointerStep::Motion {
            x: x as u32,
            y: y as u32,
            extent_w: p.extent_w,
            extent_h: p.extent_h,
        }),
{
}

/// How far two numbers are apart.
pub open spec fn apart(a: int, b: int) -> int {
    if a < b {
        b - a
    } else {
        a - b
    }
}

/// `p` is the coordinate from zero to `limit` that is nearest to `v`: `v` itself where it lies
/// there.
pub open spec fn is_nearest(p: u32, v: int, limit: u32) -> bool {
    p <= limit && forall|q: int| 0 <= q <= limit ==> apart(p as int, v) <= #[trigger] apart(q, v)
}

/// The step moves to the point of the pointer's space that is nearest to `(x, y)`, across to
/// `x` and down to `y`.
pub open spec fn goes_to(step: PointerStep, p: Pointer, x: int, y: int) -> bool {
    step matches PointerStep::Motion { x: px, y: py, extent_w, extent_h } && {
        &&& is_nearest(px, x, p.extent_w)
        &&& is_nearest(py, y, p.extent_h)
        &&& extent_w == p.extent_w
        &&& extent_h == p.extent_h
    }
}

/// The position is the point of the pointer's space that is nearest to `(x, y)`.
pub open spec fn is_at(position: Option<(u32, u32)>, p: Pointer, x: int, y: int) -> bool {
    match position {
        Some((px, py)) => is_nearest(px, x, p.extent_w) && is_nearest(py, y, p.extent_h),
        None => false,
    }
}

proof fn lemma_nearest(v: int, limit: u32)
    ensures
        is_nearest(clamped(v, limit as int) as u32, v, limit),
{
}

/// A motion goes to the nearest point of the space that spans all outputs, and names that
/// space by its two extents.
pub proof fn law_motions_go_to_the_nearest_point(p: Pointer, x: int, y: int)
    ensures
        goes_to(p.motion(x, y), p, x, y),
{
    lemma_nearest(x, p.extent_w);
    lemma_nearest(y, p.extent_h);
}

/// A move is one motion to the point, a frame and a roundtrip.
pub proof fn law_moves_go_to_the_point(p: Pointer, x: int, y: int)
    ensures
        ({
            let s = move_steps(p, x, y);
            &&& s.len() == 3
            &&& goes_to(s[0], p, x, y)
            &&& s[1] == PointerStep::Frame
            &&& s[2] == PointerStep::Roundtrip
        }),
{
    law_motions_go_to_the_nearest_point(p, x, y);
}

/// The pointer goes to the point first and nowhere else: every press, release and notch is
/// there.
pub open spec fn stays_at(s: Seq<PointerStep>, p: Pointer, x: int, y: int) -> bool {
    &&& s.len() >= 2
    &&& goes_to(s[0], p, x, y)
    &&& s[1] == PointerStep::Frame
    &&& s.last() == PointerStep::Roundtrip
    &&& forall|i: int| 0 < i < s.len() ==> !((#[trigger] s[i]) is Motion)
    &&& forall|i: int| 0 <= i < s.len() - 1 ==> !((#[trigger] s[i]) is Roundtrip)
}

/// The steps of the clicks after the first, one by one.
proof fn lemma_next_clicks(button: u32, again: nat, k: int)
    requires
        0 <= k < 6 * again,
    ensures
        ({
            let c = script::repeated(next_click(button), again);
            &&& c.len() == 6 * again
            &&& !(c[k] is Motion) && !(c[k] is Roundtrip)
            &&& c[k] == (PointerStep::Button { code: button, pressed: true }) <==> k % 6 == 2
            &&& c[k] == (PointerStep::Button { code: button, pressed: false }) <==> k % 6 == 4
            &&& c[k] == PointerStep::Frame <==> k % 6 == 3 || k % 6 == 5
        }),
{
    let next = next_click(button);
    let c = script::repeated(next, again);
    script::lemma_repeated_len(next, again);
    assert(next.len() == 6);
    assert(c.len() == again * 6) by (nonlinear_arith)
        requires
            c.len() == again * next.len(),
            next.len() == 6,
    ;
    script::lemma_repeated_at(next, again, k);
    assert(next[0] == PointerStep::Flush);
    assert(next[1] is Sleep);
    assert(next[2] == (PointerStep::Button { code: button, pressed: true }));
    assert(next[3] == PointerStep::Frame);
    assert(next[4] == (PointerStep::Button { code: button, pressed: false }));
    assert(next[5] == PointerStep::Frame);
}

/// Clicks are where they were asked for. Every press is followed by a frame, the release and
/// another frame.
#[verifier::spinoff_prover]
pub proof fn law_clicks_are_at_the_point(p: Pointer, x: int, y: int, button: u32, count: u32, i: int)
    ensures
        ({
            let s = click_steps(p, x, y, button, count);
            &&& stays_at(s, p, x, y)
            &&& 0 <= i < s.len() && s[i] == (PointerStep::Button { code: button, pressed: true })
                ==> {
                &&& i + 3 < s.len()
                &&& s[i + 1] == PointerStep::Frame
                &&& s[i + 2] == (PointerStep::Button { code: button, pressed: false })
                &&& s[i + 3] == PointerStep::Frame
            }
        }),
{
    let again = if count == 0 {
        0nat
    } else {
        (count - 1) as nat
    };
    law_motions_go_to_the_nearest_point(p, x, y);
    let c = script::repeated(next_click(button), again);
    let s = click_steps(p, x, y, button, count);
    if again > 0 {
        lemma_next_clicks(button, again, 0);
    } else {
        assert(c.len() == 0);
    }
    assert(s.len() == 7 + c.len());
    assert(s[0] == p.motion(x, y) && s[1] == PointerStep::Frame);
    assert(s[2] == (PointerStep::Button { code: button, pressed: true }));
    assert(s[3] == PointerStep::Frame);
    assert(s[4] == (PointerStep::Button { code: button, pressed: false }));
    assert(s[5] == PointerStep::Frame);
    assert(s[s.len() - 1] == PointerStep::Roundtrip);
    assert forall|k: int| 6 <= k < 6 + c.len() implies #[trigger] s[k] == c[k - 6] by {}
    assert forall|k: int| 0 < k < s.len() implies !((#[trigger] s[k]) is Motion) by {
        if 6 <= k < 6 + c.len() {
            lemma_next_clicks(button, again, k - 6);
        }
    }
    assert forall|k: int| 0 <= k < s.len() - 1 implies !((#[trigger] s[k]) is Roundtrip) by {
        if 6 <= k < 6 + c.len() {
            lemma_next_clicks(button, again, k - 6);
        }
    }
    if 6 <= i < 6 + c.len() && s[i] == (PointerStep::Button { code: button, pressed: true }) {
        lemma_next_clicks(button, again, i - 6);
        assert((i - 6) % 6 == 2);
        assert(i - 3 < c.len());
        lemma_next_clicks(button, again, i - 5);
        lemma_next_clicks(button, again, i - 4);
        lemma_next_clicks(button, again, i - 3);
    }
}

/// Between two clicks there is a pause of 50 milliseconds, and there is no other.
#[verifier::spinoff_prover]
pub proof fn law_clicks_pause_in_between(p: Pointer, x: int, y: int, button: u32, count: u32)
    ensures
        script::waited(click_steps(p, x, y, button, count)) == (if count == 0 {
            0
        } else {
            50 * (count - 1)
        }),
{
    let again = if count == 0 {
        0nat
    } else {
        (count - 1) as nat
    };
    let a = seq![p.motion(x, y), PointerStep::Frame];
    let b = one_click(button);
    let next = next_click(button);
    let c = script::repeated(next, again);
    let d = seq![PointerStep::Roundtrip];
    let pause = seq![PointerStep::Flush, PointerStep::Sleep { millis: CLICK_GAP_MS }];
    script::lemma_position_joined(a, b);
    script::lemma_position_joined(a + b, c);
    script::lemma_position_joined(a + b + c, d);
    script::lemma_repeated_wait(next, again);
    script::lemma_position_joined(pause, b);
    assert(script::waited(a) == 0 && script::waited(b) == 0 && script::waited(d) == 0
        && script::waited(pause) == 50) by {
        assert(a.drop_last().drop_last() =~= Seq::empty());
        assert(b.drop_last().drop_last().drop_last().drop_last() =~= Seq::empty());
        assert(d.drop_last() =~= Seq::empty());
        assert(pause.drop_last().drop_last() =~= Seq::empty());
        reveal_with_fuel(script::waited, 5);
    }
    assert(again * 50 == 50 * again);
}

/// Notches are where they were asked for, the vertical ones before the horizontal ones. Every
/// one of them scrolls by 15, down and to the right unless the distance is negative, and is
/// followed by a frame.
#[verifier::spinoff_prover]
pub proof fn law_notches_are_at_the_point(
    p: Pointer,
    x: int,
    y: int,
    dx: u64,
    dy: u64,
    i: int,
    j: int,
)
    ensures
        ({
            let s = scroll_steps(p, x, y, dx, dy);
            &&& stays_at(s, p, x, y)
            &&& s.len() == 3 + 2 * wheel::notch_count(dy) + 2 * wheel::notch_count(dx)
            &&& 0 <= i < s.len() ==> (s[i] matches PointerStep::Axis { horizontal, value } ==> {
                let bits = if horizontal {
                    dx
                } else {
                    dy
                };
                &&& i + 1 < s.len()
                &&& s[i + 1] == PointerStep::Frame
                &&& bits < 0x8000_0000_0000_0000 ==> value == 15
                &&& bits >= 0x8000_0000_0000_0000 ==> value == -15
            })
            &&& 0 <= i < j < s.len() ==> !(s[i] matches PointerStep::Axis { horizontal, .. }
                && horizontal && (s[j] matches PointerStep::Axis { horizontal: h, .. } && !h))
        }),
{
    law_motions_go_to_the_nearest_point(p, x, y);
    let (v, h) = (wheel::notch_count(dy), wheel::notch_count(dx));
    wheel::lemma_notch_count(dy);
    wheel::lemma_notch_count(dx);
    let (down, across) = (one_notch(false, dy), one_notch(true, dx));
    let b = script::repeated(down, v as nat);
    let c = script::repeated(across, h as nat);
    let s = scroll_steps(p, x, y, dx, dy);
    script::lemma_repeated_len(down, v as nat);
    script::lemma_repeated_len(across, h as nat);
    assert(b.len() == v * 2 && c.len() == h * 2) by (nonlinear_arith)
        requires
            b.len() == v * down.len(),
            c.len() == h * across.len(),
            down.len() == 2,
            across.len() == 2,
    ;
    assert forall|k: int| 0 <= k < b.len() implies #[trigger] b[k] == down[k % 2] by {
        script::lemma_repeated_at(down, v as nat, k);
    }
    assert forall|k: int| 0 <= k < c.len() implies #[trigger] c[k] == across[k % 2] by {
        script::lemma_repeated_at(across, h as nat, k);
    }
    assert forall|k: int| 2 <= k < s.len() - 1 implies #[trigger] s[k] == (if k < 2 + b.len() {
        b[k - 2]
    } else {
        c[k - 2 - b.len()]
    }) by {}
    assert forall|k: int| 0 < k < s.len() implies !((#[trigger] s[k]) is Motion) by {}
    assert forall|k: int| 0 <= k < s.len() - 1 implies !((#[trigger] s[k]) is Roundtrip) by {}
    if 0 <= i < s.len() && s[i] is Axis {
        assert(2 <= i < s.len() - 1);
        if i < 2 + b.len() {
            assert((i - 2) % 2 == 0);
            assert(s[i + 1] == b[i - 1]);
        } else {
            let k = i - 2 - b.len();
            assert(k % 2 == 0);
            assert(s[i + 1] == c[k + 1]);
        }
    }
}

/// A motion number `step` of a drag, and how it is made: to the point of the space nearest to
/// one that is at most half a pixel off the straight line from the start to the target, then a
/// frame, and a pause of 8 milliseconds.
pub open spec fn glides_along(
    s: Seq<PointerStep>,
    at: int,
    p: Pointer,
    from: (int, int),
    to: (int, int),
    step: int,
    by: (int, int),
) -> bool {
    &&& goes_to(s[at], p, from.0 + by.0, from.1 + by.1)
    &&& -10 <= 20 * by.0 - (to.0 - from.0) * step <= 10
    &&& -10 <= 20 * by.1 - (to.1 - from.1) * step <= 10
    &&& s[at + 1] == PointerStep::Frame
    &&& s[at + 2] == PointerStep::Flush
    &&& s[at + 3] == (PointerStep::Sleep { millis: 8 })
}

proof fn lemma_glides_at(p: Pointer, fx: int, fy: int, tx: int, ty: int, steps: nat, k: nat)
    requires
        1 <= k <= steps,
    ensures
        ({
            let g = glides(p, fx, fy, tx, ty, steps);
            let at = 4 * (k - 1);
            &&& g.len() == 4 * steps
            &&& g[at] == p.motion(
                fx + drag_offset(tx - fx, k as int),
                fy + drag_offset(ty - fy, k as int),
            )
            &&& g[at + 1] == PointerStep::Frame
            &&& g[at + 2] == PointerStep::Flush
            &&& g[at + 3] == (PointerStep::Sleep { millis: 8 })
        }),
    decreases steps,
{
    let fewer = (steps - 1) as nat;
    if k <= fewer {
        lemma_glides_at(p, fx, fy, tx, ty, fewer, k);
    } else if fewer > 0 {
        lemma_glides_at(p, fx, fy, tx, ty, fewer, 1);
    } else {
        assert(glides(p, fx, fy, tx, ty, 0).len() == 0);
    }
}

proof fn lemma_glides_have_no_buttons(
    p: Pointer,
    fx: int,
    fy: int,
    tx: int,
    ty: int,
    steps: nat,
)
    ensures
        forall|i: int|
            0 <= i < glides(p, fx, fy, tx, ty, steps).len() ==> !((
            #[trigger] glides(p, fx, fy, tx, ty, steps)[i]) is Button),
    decreases steps,
{
    if steps > 0 {
        lemma_glides_have_no_buttons(p, fx, fy, tx, ty, (steps - 1) as nat);
    }
}

/// A drag goes from its start to its target. The left button goes down where the pointer has
/// been brought to the start, and comes up where it has been brought to the target: at both
/// moments the last motion went to the nearest point of the space, across and down. There is
/// no other press or release in between. A frame follows the press, the release and both
/// motions, and the pointer rests for 8 milliseconds after the press and before the release.
#[verifier::spinoff_prover]
pub proof fn law_drags_go_from_start_to_target(
    p: Pointer,
    from_x: int,
    from_y: int,
    to_x: int,
    to_y: int,
    i: int,
)
    ensures
        ({
            let s = drag_steps(p, from_x, from_y, to_x, to_y);
            let up = s.len() - 3;
            let start = script::position_after(s.take(2));
            let target = script::position_after(s.take(up));
            &&& s.len() == 93
            &&& s[2] == (PointerStep::Button { code: 0x110, pressed: true })
            &&& s[up] == (PointerStep::Button { code: 0x110, pressed: false })
            &&& 0 <= i < s.len() && s[i] is Button ==> i == 2 || i == up
            &&& is_at(start, p, from_x, from_y)
            &&& is_at(target, p, to_x, to_y)
            &&& goes_to(s[0], p, from_x, from_y)
            &&& s[1] == PointerStep::Frame
            &&& s[3] == PointerStep::Frame
            &&& s[4] == PointerStep::Flush
            &&& s[5] == (PointerStep::Sleep { millis: 8 })
            &&& goes_to(s[up - 4], p, to_x, to_y)
            &&& s[up - 3] == PointerStep::Frame
            &&& s[up - 2] == PointerStep::Flush
            &&& s[up - 1] == (PointerStep::Sleep { millis: 8 })
            &&& s[up + 1] == PointerStep::Frame
            &&& s[up + 2] == PointerStep::Roundtrip
        }),
{
    let s = drag_steps(p, from_x, from_y, to_x, to_y);
    let g = glides(p, from_x, from_y, to_x, to_y, DRAG_STEPS as nat);
    let head = seq![
        p.motion(from_x, from_y),
        PointerStep::Frame,
        PointerStep::Button { code: BTN_LEFT, pressed: true },
        PointerStep::Frame,
        PointerStep::Flush,
        PointerStep::Sleep { millis: DRAG_STEP_MS },
    ];
    let last = glide(p, to_x, to_y);
    lemma_glides_at(p, from_x, from_y, to_x, to_y, DRAG_STEPS as nat, 1);
    lemma_glides_have_no_buttons(p, from_x, from_y, to_x, to_y, DRAG_STEPS as nat);
    law_motions_go_to_the_nearest_point(p, from_x, from_y);
    law_motions_go_to_the_nearest_point(p, to_x, to_y);
    if 0 <= i < s.len() && s[i] is Button {
        if 6 <= i < 86 {
            assert(s[i] == g[i - 6]);
        }
    }
    assert(s.take(2) =~= seq![p.motion(from_x, from_y), PointerStep::Frame]);
    assert(s.take(90) =~= (head + g) + last);
    script::lemma_position_joined(head + g, last);
    assert(script::position_after(last) is Some && script::position_after(last) == (match p.motion(
        to_x,
        to_y,
    ) {
        PointerStep::Motion { x, y, .. } => Some((x, y)),
        _ => None,
    })) by {
        assert(last.drop_last().drop_last().drop_last() =~= seq![p.motion(to_x, to_y)]);
        reveal_with_fuel(script::position_after, 5);
    }
    assert(s.take(2).drop_last() =~= seq![p.motion(from_x, from_y)]);
    reveal_with_fuel(script::position_after, 3);
}

/// On its way a drag keeps to the straight line: of its 20 motions each is at most half a
/// pixel off, along either axis, and takes the button along.
#[verifier::spinoff_prover]
pub proof fn law_drags_keep_to_the_line(
    p: Pointer,
    from_x: int,
    from_y: int,
    to_x: int,
    to_y: int,
    k: nat,
)
    requires
        1 <= k <= 20,
        i32::MIN <= to_x - from_x <= i32::MAX,
        i32::MIN <= to_y - from_y <= i32::MAX,
    ensures
        exists|by: (int, int)| #[trigger]
            glides_along(
                drag_steps(p, from_x, from_y, to_x, to_y),
                6 + 4 * (k - 1),
                p,
                (from_x, from_y),
                (to_x, to_y),
                k as int,
                by,
            ),
{
    let s = drag_steps(p, from_x, from_y, to_x, to_y);
    let g = glides(p, from_x, from_y, to_x, to_y, DRAG_STEPS as nat);
    let at = 6 + 4 * (k - 1);
    let by = (drag_offset(to_x - from_x, k as int), drag_offset(to_y - from_y, k as int));
    lemma_glides_at(p, from_x, from_y, to_x, to_y, DRAG_STEPS as nat, k);
    assert(s[at] == g[at - 6] && s[at + 1] == g[at - 5] && s[at + 2] == g[at - 4] && s[at + 3]
        == g[at - 3]);
    law_motions_go_to_the_nearest_point(p, from_x + by.0, from_y + by.1);
    law_drag_is_straight(to_x - from_x, k as int);
    law_drag_is_straight(to_y - from_y, k as int);
    assert(glides_along(s, at, p, (from_x, from_y), (to_x, to_y), k as int, by));
}

/// What creating a pointer comes to. Without outputs there is none, without the manager its
/// interface is named as missing, and otherwise the space ends where the farthest output does:
/// no output that said where it lies and how large it is reaches beyond it, across or down,
/// and unless an edge of the space is a single pixel, some output reaches it.
#[verifier::spinoff_prover]
pub proof fn law_the_space_spans_all_outputs(
    globals: Globals,
    entries: Seq<OutputEntry>,
    p: Pointer,
    i: int,
)
    requires
        0 <= i < entries.len(),
    ensures
        Pointer::creation(globals, entries) is Ok <==> globals.virtual_pointer is Some,
        globals.virtual_pointer is None ==> Pointer::creation(globals, entries) == Err::<
            Pointer,
            PointerError,
        >(PointerError::Missing(MissingGlobal(Interface::VirtualPointer))),
        Pointer::creation(globals, Seq::empty()) == Err::<Pointer, PointerError>(
            PointerError::NoOutputs,
        ),
        Pointer::creation(globals, entries) == Ok::<Pointer, PointerError>(p) ==> {
            &&& 1 <= p.extent_w
            &&& 1 <= p.extent_h
            &&& p.manager.name == globals.virtual_pointer->0.name
            &&& entries[i].logical_x is Some && entries[i].logical_width is Some
                && entries[i].logical_height is Some ==> entries[i].logical_x->0
                + entries[i].logical_width->0 <= p.extent_w
            &&& entries[i].logical_y is Some && entries[i].logical_width is Some
                && entries[i].logical_height is Some ==> entries[i].logical_y->0
                + entries[i].logical_height->0 <= p.extent_h
        },
        Pointer::creation(globals, entries) == Ok::<Pointer, PointerError>(p) && (forall|j: int|
            0 <= j < entries.len() ==> {
                let e = #[trigger] entries[j];
                e.logical_x is Some && e.logical_y is Some && e.logical_width is Some
                    && e.logical_height is Some
            }) ==> {
            &&& p.extent_w == 1 || exists|j: int|
                0 <= j < entries.len() && (#[trigger] entries[j]).logical_x->0
                    + entries[j].logical_width->0 == p.extent_w
            &&& p.extent_h == 1 || exists|j: int|
                0 <= j < entries.len() && (#[trigger] entries[j]).logical_y->0
                    + entries[j].logical_height->0 == p.extent_h
        },
{
    law_extent_covers_outputs(entries, true);
    law_extent_covers_outputs(entries, false);
    lemma_extent_fits(entries, true);
    lemma_extent_fits(entries, false);
    assert(edge(entries[i], true) <= extent(entries, true));
    assert(edge(entries[i], false) <= extent(entries, false));
    if extent(entries, true) != 1 {
        let j = choose|j: int|
            0 <= j < entries.len() && edge(#[trigger] entries[j], true) == extent(entries, true);
        let _ = entries[j].logical_x;
    }
    if extent(entries, false) != 1 {
        let j = choose|j: int|
            0 <= j < entries.len() && edge(#[trigger] entries[j], false) == extent(entries, false);
        let _ = entries[j].logical_y;
    }
}

proof fn lemma_extent_fits(entries: Seq<OutputEntry>, horizontal: bool)
    ensures
        1 <= extent(entries, horizontal) <= u32::MAX,
    decreases entries.len(),
{
    if entries.len() > 0 {
        lemma_extent_fits(entries.drop_last(), horizontal);
    }
}

/// The buttons by name and by evdev code.
pub proof fn law_what_buttons_are(b: Button)
    ensures
        b == Button::Left ==> b.spec_name() == "left"@ && b.code() == 0x110,
        b == Button::Right ==> b.spec_name() == "right"@ && b.code() == 0x111,
        b == Button::Middle ==> b.spec_name() == "middle"@ && b.code() == 0x112,
{
}

/// What an action reports: its name and the point it was asked for, as it was asked for.
pub proof fn law_actions_report_their_point(
    plan: PointerPlan,
    p: Pointer,
    steps: Seq<PointerStep>,
    action: Seq<char>,
    x: i32,
    y: i32,
)
    requires
        plan.does(p, steps, action, x, y),
    ensures
        plan.pointer == p,
        plan.script@ == steps,
        plan.result.action@ == action,
        plan.result.x == x,
        plan.result.y == y,
        plan.result.raised is None,
{
}

/// The space ends where the reported screens do: none reaches beyond it, across or down, and
/// unless an edge of the space is a single pixel, some screen reaches it.
pub proof fn law_the_space_ends_with_the_screens(
    globals: Globals,
    entries: Seq<OutputEntry>,
    list: Seq<Screen>,
    p: Pointer,
    i: int,
)
    requires
        screens::reports(list, entries),
        Pointer::creation(globals, entries) == Ok::<Pointer, PointerError>(p),
        0 <= i < list.len(),
    ensures
        list[i].geometry.x + list[i].geometry.width <= p.extent_w,
        list[i].geometry.y + list[i].geometry.height <= p.extent_h,
        p.extent_w == 1 || exists|j: int|
            0 <= j < list.len() && (#[trigger] list[j]).geometry.x + list[j].geometry.width
                == p.extent_w,
        p.extent_h == 1 || exists|j: int|
            0 <= j < list.len() && (#[trigger] list[j]).geometry.y + list[j].geometry.height
                == p.extent_h,
{
    law_extent_covers_outputs(entries, true);
    law_extent_covers_outputs(entries, false);
    lemma_extent_fits(entries, true);
    lemma_extent_fits(entries, false);
    assert forall|j: int| 0 <= j < list.len() implies (#[trigger] list[j]).geometry.x
        + list[j].geometry.width == edge(entries[j], true) && list[j].geometry.y
        + list[j].geometry.height == edge(entries[j], false) by {
        assert(screens::geometry_of(entries[j]).shown_as(
            &list[j],
            j == screens::primary_index(entries),
        ));
    }
    assert(edge(entries[i], true) <= extent(entries, true));
    assert(edge(entries[i], false) <= extent(entries, false));
    if extent(entries, true) != 1 {
        let j = choose|j: int|
            0 <= j < entries.len() && edge(#[trigger] entries[j], true) == extent(entries, true);
        let _ = list[j].geometry;
    }
    if extent(entries, false) != 1 {
        let j = choose|j: int|
            0 <= j < entries.len() && edge(#[trigger] entries[j], false) == extent(entries, false);
        let _ = list[j].geometry;
    }
}

/// A drag the other way mirrors the drag, step by step, and half of the way is half of the
/// distance, away from the start where the half is not whole.
pub proof fn law_drags_mirror(d: int, step: int)
    requires
        0 <= step <= 20,
        -0x8000_0000 < d < 0x8000_0000,
    ensures
        drag_offset(-d, step) == -drag_offset(d, step),
        d >= 0 ==> drag_offset(d, 10) == (d + 1) / 2,
        d <= 0 ==> drag_offset(d, 10) == -((1 - d) / 2),
{
    let n = if d >= 0 {
        d
    } else {
        -d
    };
    let half = 10 as real / 20 as real;
    rounding::lemma_exp2_places(-1);
    assert(rounding::exp2(-1) == half && 1 as real * rounding::exp2(-1) == half) by {
        rounding::lemma_exp2_step(-1);
        assert(rounding::exp2(0) == 1 as real) by {
            vstd::arithmetic::power2::lemma2_to64();
        }
    }
    rounding::lemma_rounded_exact(1, -1);
    assert(n as real * half == n as real * rounding::exp2(-1)) by (nonlinear_arith)
        requires
            half == rounding::exp2(-1),
    ;
    rounding::lemma_rounded_exact(n, -1);
    rounding::lemma_half_up_ratio(n, 2);
    let nr = n as real;
    assert(nr * half == nr / (2 as real)) by (nonlinear_arith)
        requires
            half == 10 as real / 20 as real,
    ;
    rounding::lemma_rounded_exact(0, 0);
    assert(rounding::rounded((0 as int) as real * rounding::rounded(step as real / 20 as real)) == 0 as real);
}

} // verus!
