//! What the compositor advertises, and which version of it to bind.
//!
//! The registry is swept once per command: every advertised global is recorded in
//! [`Globals`], and binding one is a decision about its registry name and version.

use crate::text;
use vstd::prelude::*;

verus! {

/// A discovered output and the metadata collected for it.
#[derive(Debug)]
pub struct OutputEntry {
    /// Protocol object id of the bound `wl_output`, by which its events are routed.
    pub wl_output: u32,
    pub registry_name: u32,
    /// Connector name from `wl_output.name` (such as `DP-1`), or the xdg-output name.
    pub name: Option<String>,
    /// Integer `wl_output` scale.
    pub scale: i32,
    /// Logical position from xdg-output (global compositor space).
    pub logical_x: Option<i32>,
    pub logical_y: Option<i32>,
    /// Logical size from xdg-output.
    pub logical_width: Option<i32>,
    pub logical_height: Option<i32>,
    /// Physical size of the current `wl_output` mode.
    pub mode_width: Option<i32>,
    pub mode_height: Option<i32>,
    /// Refresh rate in mHz of the current mode.
    pub refresh_millihz: Option<u32>,
}

/// A global of the registry: its name and a version of it.
#[derive(Clone, Copy, Debug, PartialEq, Eq)]
pub struct BoundGlobal {
    pub name: u32,
    pub version: u32,
}

/// Which globals the compositor advertises, and at what version.
#[derive(Clone, Debug)]
pub struct Globals {
    pub virtual_pointer: Option<BoundGlobal>,
    pub virtual_keyboard: Option<BoundGlobal>,
    pub screencopy: Option<BoundGlobal>,
    pub foreign_toplevel_wlr: Option<BoundGlobal>,
    pub foreign_toplevel_ext: Option<BoundGlobal>,
    pub xdg_output_manager: Option<BoundGlobal>,
    pub seat: Option<BoundGlobal>,
    pub shm: Option<BoundGlobal>,
    /// Every advertised `wl_output`, in the order of its announcement.
    pub outputs: Vec<BoundGlobal>,
}

/// The interfaces that the commands work with.
#[derive(Clone, Copy, Debug, PartialEq, Eq)]
pub enum Interface {
    VirtualPointer,
    VirtualKeyboard,
    Screencopy,
    ForeignToplevelWlr,
    ForeignToplevelExt,
    XdgOutputManager,
    Seat,
    Shm,
    Output,
}

impl Interface {
    /// The name under which the registry announces the interface.
    pub open spec fn spec_name(self) -> Seq<char> {
        match self {
            Interface::VirtualPointer => "zwlr_virtual_pointer_manager_v1"@,
            Interface::VirtualKeyboard => "zwp_virtual_keyboard_manager_v1"@,
            Interface::Screencopy => "zwlr_screencopy_manager_v1"@,
            Interface::ForeignToplevelWlr => "zwlr_foreign_toplevel_manager_v1"@,
            Interface::ForeignToplevelExt => "ext_foreign_toplevel_list_v1"@,
            Interface::XdgOutputManager => "zxdg_output_manager_v1"@,
            Interface::Seat => "wl_seat"@,
            Interface::Shm => "wl_shm"@,
            Interface::Output => "wl_output"@,
        }
    }

    /// The name under which the registry announces the interface.
    pub fn name(self) -> (r: &'static str)
        ensures
            r@ == self.spec_name(),
    {
        match self {
            Interface::VirtualPointer => "zwlr_virtual_pointer_manager_v1",
            Interface::VirtualKeyboard => "zwp_virtual_keyboard_manager_v1",
            Interface::Screencopy => "zwlr_screencopy_manager_v1",
            Interface::ForeignToplevelWlr => "zwlr_foreign_toplevel_manager_v1",
            Interface::ForeignToplevelExt => "ext_foreign_toplevel_list_v1",
            Interface::XdgOutputManager => "zxdg_output_manager_v1",
            Interface::Seat => "wl_seat",
            Interface::Shm => "wl_shm",
            Interface::Output => "wl_output",
        }
    }

    /// The newest version of the interface that this program speaks.
    pub open spec fn spec_newest(self) -> u32 {
        match self {
            Interface::VirtualPointer => 2,
            Interface::VirtualKeyboard => 1,
            Interface::Screencopy => 3,
            Interface::ForeignToplevelWlr => 3,
            Interface::ForeignToplevelExt => 1,
            Interface::XdgOutputManager => 3,
            Interface::Seat => 7,
            Interface::Shm => 1,
            Interface::Output => 4,
        }
    }

    /// The newest version of the interface that this program speaks.
    pub fn newest(self) -> (r: u32)
        ensures
            r == self.spec_newest(),
    {
        match self {
            Interface::VirtualPointer => 2,
            Interface::VirtualKeyboard => 1,
            Interface::Screencopy => 3,
            Interface::ForeignToplevelWlr => 3,
            Interface::ForeignToplevelExt => 1,
            Interface::XdgOutputManager => 3,
            Interface::Seat => 7,
            Interface::Shm => 1,
            Interface::Output => 4,
        }
    }

    /// The interface with an announced name, if it is one of them.
    pub open spec fn spec_from_name(name: Seq<char>) -> Option<Interface> {
        if name == Interface::VirtualPointer.spec_name() {
            Some(Interface::VirtualPointer)
        } else if name == Interface::VirtualKeyboard.spec_name() {
            Some(Interface::VirtualKeyboard)
        } else if name == Interface::Screencopy.spec_name() {
            Some(Interface::Screencopy)
        } else if name == Interface::ForeignToplevelWlr.spec_name() {
            Some(Interface::ForeignToplevelWlr)
        } else if name == Interface::ForeignToplevelExt.spec_name() {
            Some(Interface::ForeignToplevelExt)
        } else if name == Interface::XdgOutputManager.spec_name() {
            Some(Interface::XdgOutputManager)
        } else if name == Interface::Seat.spec_name() {
            Some(Interface::Seat)
        } else if name == Interface::Shm.spec_name() {
            Some(Interface::Shm)
        } else if name == Interface::Output.spec_name() {
            Some(Interface::Output)
        } else {
            None
        }
    }

    /// Recognises an announced name.
    pub fn from_name(name: &str) -> (r: Option<Interface>)
        ensures
            r == Interface::spec_from_name(name@),
    {
        if text::same_text(name, "zwlr_virtual_pointer_manager_v1") {
            Some(Interface::VirtualPointer)
        } else if text::same_text(name, "zwp_virtual_keyboard_manager_v1") {
            Some(Interface::VirtualKeyboard)
        } else if text::same_text(name, "zwlr_screencopy_manager_v1") {
            Some(Interface::Screencopy)
        } else if text::same_text(name, "zwlr_foreign_toplevel_manager_v1") {
            Some(Interface::ForeignToplevelWlr)
        } else if text::same_text(name, "ext_foreign_toplevel_list_v1") {
            Some(Interface::ForeignToplevelExt)
        } else if text::same_text(name, "zxdg_output_manager_v1") {
            Some(Interface::XdgOutputManager)
        } else if text::same_text(name, "wl_seat") {
            Some(Interface::Seat)
        } else if text::same_text(name, "wl_shm") {
            Some(Interface::Shm)
        } else if text::same_text(name, "wl_output") {
            Some(Interface::Output)
        } else {
            None
        }
    }
}

impl Globals {
    /// The recorded global of an interface that is advertised once.
    pub open spec fn get(self, i: Interface) -> Option<BoundGlobal> {
        match i {
            Interface::VirtualPointer => self.virtual_pointer,
            Interface::VirtualKeyboard => self.virtual_keyboard,
            Interface::Screencopy => self.screencopy,
            Interface::ForeignToplevelWlr => self.foreign_toplevel_wlr,
            Interface::ForeignToplevelExt => self.foreign_toplevel_ext,
            Interface::XdgOutputManager => self.xdg_output_manager,
            Interface::Seat => self.seat,
            Interface::Shm => self.shm,
            Interface::Output => None,
        }
    }

    /// The globals after one more announcement: the last one of an interface counts,
    /// outputs are listed in order, and other interfaces are passed over.
    pub open spec fn after(self, next: Globals, interface: Seq<char>, bound: BoundGlobal) -> bool {
        let announced = Interface::spec_from_name(interface);
        &&& forall|i: Interface| #[trigger]
            next.get(i) == if announced == Some(i) && i != Interface::Output {
                Some(bound)
            } else {
                self.get(i)
            }
        &&& next.outputs@ == if announced == Some(Interface::Output) {
            self.outputs@.push(bound)
        } else {
            self.outputs@
        }
    }
}

impl Default for Globals {
    /// Nothing advertised yet.
    fn default() -> (r: Globals)
        ensures
            forall|i: Interface| #[trigger] r.get(i) == None::<BoundGlobal>,
            r.outputs@.len() == 0,
    {
        Globals {
            virtual_pointer: None,
            virtual_keyboard: None,
            screencopy: None,
            foreign_toplevel_wlr: None,
            foreign_toplevel_ext: None,
            xdg_output_manager: None,
            seat: None,
            shm: None,
            outputs: Vec::new(),
        }
    }
}

/// State for the sweep of the registry: collects the advertised globals.
#[derive(Debug)]
pub struct RegistryState {
    pub globals: Globals,
}

impl Default for RegistryState {
    /// Nothing advertised yet.
    fn default() -> (r: RegistryState)
        ensures
            forall|i: Interface| #[trigger] r.globals.get(i) == None::<BoundGlobal>,
            r.globals.outputs@.len() == 0,
    {
        RegistryState { globals: Globals::default() }
    }
}

impl RegistryState {
    /// Records one announced global.
    pub fn event(&mut self, name: u32, interface: &str, version: u32)
        ensures
            old(self).globals.after(
                final(self).globals,
                interface@,
                BoundGlobal { name, version },
            ),
    {
        let bound = BoundGlobal { name, version };
        match Interface::from_name(interface) {
            Some(Interface::VirtualPointer) => {
                self.globals.virtual_pointer = Some(bound);
            },
            Some(Interface::VirtualKeyboard) => {
                self.globals.virtual_keyboard = Some(bound);
            },
            Some(Interface::Screencopy) => {
                self.globals.screencopy = Some(bound);
            },
            Some(Interface::ForeignToplevelWlr) => {
                self.globals.foreign_toplevel_wlr = Some(bound);
            },
            Some(Interface::ForeignToplevelExt) => {
                self.globals.foreign_toplevel_ext = Some(bound);
            },
            Some(Interface::XdgOutputManager) => {
                self.globals.xdg_output_manager = Some(bound);
            },
            Some(Interface::Seat) => {
                self.globals.seat = Some(bound);
            },
            Some(Interface::Shm) => {
                self.globals.shm = Some(bound);
            },
            Some(Interface::Output) => {
                self.globals.outputs.push(bound);
            },
            None => {},
        }
    }
}

/// An interface that a command needs and the compositor does not advertise.
#[derive(Clone, Copy, Debug, PartialEq, Eq)]
pub struct MissingGlobal(pub Interface);

/// The advertised globals of an open connection. Each `bind_` method decides which
/// registry name to bind and at which version: the advertised one, but none above
/// the newest that this program speaks.
#[derive(Debug)]
pub struct Conn {
    pub globals: Globals,
}

/// A global at the version that it is bound at.
pub open spec fn bound_at(global: BoundGlobal, cap: u32) -> BoundGlobal {
    BoundGlobal {
        name: global.name,
        version: if global.version < cap {
            global.version
        } else {
            cap
        },
    }
}

/// What binding an interface comes to.
pub open spec fn binding(globals: Globals, i: Interface) -> Result<BoundGlobal, MissingGlobal> {
    match globals.get(i) {
        Some(g) => Ok(bound_at(g, i.spec_newest())),
        None => Err(MissingGlobal(i)),
    }
}

impl Conn {
    /// The advertised outputs, most recently added last.
    pub fn output_names(&self) -> (r: &[BoundGlobal])
        ensures
            r@ == self.globals.outputs@,
    {
        self.globals.outputs.as_slice()
    }

    /// The version to bind a global at.
    pub fn bind(&self, global: BoundGlobal, cap: u32) -> (r: BoundGlobal)
        ensures
            r == bound_at(global, cap),
    {
        BoundGlobal {
            name: global.name,
            version: if global.version < cap {
                global.version
            } else {
                cap
            },
        }
    }

    /// Binds the recorded global of an interface, where there is one.
    fn bind_interface(&self, global: Option<BoundGlobal>, i: Interface) -> (r: Result<
        BoundGlobal,
        MissingGlobal,
    >)
        ensures
            r == (match global {
                Some(g) => Ok::<BoundGlobal, MissingGlobal>(bound_at(g, i.spec_newest())),
                None => Err(MissingGlobal(i)),
            }),
    {
        match global {
            Some(g) => Ok(self.bind(g, i.newest())),
            None => Err(MissingGlobal(i)),
        }
    }

    pub fn bind_virtual_pointer_manager(&self) -> (r: Result<BoundGlobal, MissingGlobal>)
        ensures
            r == binding(self.globals, Interface::VirtualPointer),
    {
        self.bind_interface(self.globals.virtual_pointer, Interface::VirtualPointer)
    }

    pub fn bind_virtual_keyboard_manager(&self) -> (r: Result<BoundGlobal, MissingGlobal>)
        ensures
            r == binding(self.globals, Interface::VirtualKeyboard),
    {
        self.bind_interface(self.globals.virtual_keyboard, Interface::VirtualKeyboard)
    }

    pub fn bind_screencopy_manager(&self) -> (r: Result<BoundGlobal, MissingGlobal>)
        ensures
            r == binding(self.globals, Interface::Screencopy),
    {
        self.bind_interface(self.globals.screencopy, Interface::Screencopy)
    }

    pub fn bind_foreign_toplevel_manager(&self) -> (r: Result<BoundGlobal, MissingGlobal>)
        ensures
            r == binding(self.globals, Interface::ForeignToplevelWlr),
    {
        self.bind_interface(self.globals.foreign_toplevel_wlr, Interface::ForeignToplevelWlr)
    }

    pub fn bind_foreign_toplevel_list(&self) -> (r: Result<BoundGlobal, MissingGlobal>)
        ensures
            r == binding(self.globals, Interface::ForeignToplevelExt),
    {
        self.bind_interface(self.globals.foreign_toplevel_ext, Interface::ForeignToplevelExt)
    }

    pub fn bind_xdg_output_manager(&self) -> (r: Result<BoundGlobal, MissingGlobal>)
        ensures
            r == binding(self.globals, Interface::XdgOutputManager),
    {
        self.bind_interface(self.globals.xdg_output_manager, Interface::XdgOutputManager)
    }

    pub fn bind_seat(&self) -> (r: Result<BoundGlobal, MissingGlobal>)
        ensures
            r == binding(self.globals, Interface::Seat),
    {
        self.bind_interface(self.globals.seat, Interface::Seat)
    }

    pub fn bind_shm(&self) -> (r: Result<BoundGlobal, MissingGlobal>)
        ensures
            r == binding(self.globals, Interface::Shm),
    {
        self.bind_interface(self.globals.shm, Interface::Shm)
    }

    pub fn bind_wl_output(&self, global: BoundGlobal) -> (r: BoundGlobal)
        ensures
            r == bound_at(global, Interface::Output.spec_newest()),
    {
        self.bind(global, Interface::Output.newest())
    }
}

/// The name of the running compositor, from which of the environment variables
/// `SWAYSOCK`, `HYPRLAND_INSTANCE_SIGNATURE` and `NIRI_SOCKET` are set.
pub fn detect_compositor(sway: bool, hyprland: bool, niri: bool) -> (r: String)
    ensures
        r@ == (if sway {
            "sway"@
        } else if hyprland {
            "hyprland"@
        } else if niri {
            "niri"@
        } else {
            "unknown"@
        }),
{
    if sway {
        "sway".to_owned()
    } else if hyprland {
        "hyprland".to_owned()
    } else if niri {
        "niri".to_owned()
    } else {
        "unknown".to_owned()
    }
}

/// No two interfaces share a name: an announced name is recognised as the interface
/// that it belongs to.
pub proof fn law_interface_names_are_distinct(i: Interface)
    ensures
        Interface::spec_from_name(i.spec_name()) == Some(i),
{
    reveal_strlit("zwlr_virtual_pointer_manager_v1");
    reveal_strlit("zwp_virtual_keyboard_manager_v1");
    reveal_strlit("zwlr_screencopy_manager_v1");
    reveal_strlit("zwlr_foreign_toplevel_manager_v1");
    reveal_strlit("ext_foreign_toplevel_list_v1");
    reveal_strlit("zxdg_output_manager_v1");
    reveal_strlit("wl_seat");
    reveal_strlit("wl_shm");
    reveal_strlit("wl_output");
    assert("zwlr_virtual_pointer_manager_v1"@.len() == 31);
    assert("zwp_virtual_keyboard_manager_v1"@.len() == 31);
    assert("zwlr_screencopy_manager_v1"@.len() == 26);
    assert("zwlr_foreign_toplevel_manager_v1"@.len() == 32);
    assert("ext_foreign_toplevel_list_v1"@.len() == 28);
    assert("zxdg_output_manager_v1"@.len() == 22);
    assert("wl_seat"@.len() == 7);
    assert("wl_shm"@.len() == 6);
    assert("wl_output"@.len() == 9);
    assert("zwlr_virtual_pointer_manager_v1"@[2] != "zwp_virtual_keyboard_manager_v1"@[2]);
}

/// Binding never asks for more than is advertised, nor for more than is spoken.
pub proof fn law_bound_version_is_capped(global: BoundGlobal, cap: u32)
    ensures
        bound_at(global, cap).version <= global.version,
        bound_at(global, cap).version <= cap,
        bound_at(global, cap).name == global.name,
{
}

/// Which announcement fills which global. The interface `wl_output` adds to the outputs, each
/// of the others replaces its own global and no other, and an unknown interface changes
/// nothing.
pub proof fn law_announcements_fill_their_global(
    globals: Globals,
    next: Globals,
    interface: Seq<char>,
    bound: BoundGlobal,
)
    requires
        globals.after(next, interface, bound),
    ensures
        next.virtual_pointer == (if interface == "zwlr_virtual_pointer_manager_v1"@ {
            Some(bound)
        } else {
            globals.virtual_pointer
        }),
        next.virtual_keyboard == (if interface == "zwp_virtual_keyboard_manager_v1"@ {
            Some(bound)
        } else {
            globals.virtual_keyboard
        }),
        next.screencopy == (if interface == "zwlr_screencopy_manager_v1"@ {
            Some(bound)
        } else {
            globals.screencopy
        }),
        next.foreign_toplevel_wlr == (if interface == "zwlr_foreign_toplevel_manager_v1"@ {
            Some(bound)
        } else {
            globals.foreign_toplevel_wlr
        }),
        next.foreign_toplevel_ext == (if interface == "ext_foreign_toplevel_list_v1"@ {
            Some(bound)
        } else {
            globals.foreign_toplevel_ext
        }),
        next.xdg_output_manager == (if interface == "zxdg_output_manager_v1"@ {
            Some(bound)
        } else {
            globals.xdg_output_manager
        }),
        next.seat == (if interface == "wl_seat"@ {
            Some(bound)
        } else {
            globals.seat
        }),
        next.shm == (if interface == "wl_shm"@ {
            Some(bound)
        } else {
            globals.shm
        }),
        next.outputs@ == (if interface == "wl_output"@ {
            globals.outputs@.push(bound)
        } else {
            globals.outputs@
        }),
{
    law_interface_names_are_distinct(Interface::VirtualPointer);
    law_interface_names_are_distinct(Interface::VirtualKeyboard);
    law_interface_names_are_distinct(Interface::Screencopy);
    law_interface_names_are_distinct(Interface::ForeignToplevelWlr);
    law_interface_names_are_distinct(Interface::ForeignToplevelExt);
    law_interface_names_are_distinct(Interface::XdgOutputManager);
    law_interface_names_are_distinct(Interface::Seat);
    law_interface_names_are_distinct(Interface::Shm);
    law_interface_names_are_distinct(Interface::Output);
    assert(next.get(Interface::VirtualPointer) == next.virtual_pointer);
    assert(next.get(Interface::VirtualKeyboard) == next.virtual_keyboard);
    assert(next.get(Interface::Screencopy) == next.screencopy);
    assert(next.get(Interface::ForeignToplevelWlr) == next.foreign_toplevel_wlr);
    assert(next.get(Interface::ForeignToplevelExt) == next.foreign_toplevel_ext);
    assert(next.get(Interface::XdgOutputManager) == next.xdg_output_manager);
    assert(next.get(Interface::Seat) == next.seat);
    assert(next.get(Interface::Shm) == next.shm);
}

/// The lower of two versions.
pub open spec fn lower(a: u32, b: u32) -> u32 {
    if a < b {
        a
    } else {
        b
    }
}

/// What binding comes to, global by global: the recorded name, at the recorded version or at
/// the newest that is spoken, whichever is lower; an error that names the interface where
/// nothing is recorded.
pub proof fn law_what_binding_comes_to(globals: Globals, i: Interface, g: BoundGlobal)
    ensures
        globals.virtual_pointer == Some(g) ==> binding(globals, Interface::VirtualPointer) == Ok::<
            BoundGlobal,
            MissingGlobal,
        >(BoundGlobal { name: g.name, version: lower(g.version, 2) }),
        globals.virtual_keyboard == Some(g) ==> binding(globals, Interface::VirtualKeyboard) == Ok::<
            BoundGlobal,
            MissingGlobal,
        >(BoundGlobal { name: g.name, version: lower(g.version, 1) }),
        globals.screencopy == Some(g) ==> binding(globals, Interface::Screencopy) == Ok::<
            BoundGlobal,
            MissingGlobal,
        >(BoundGlobal { name: g.name, version: lower(g.version, 3) }),
        globals.foreign_toplevel_wlr == Some(g) ==> binding(globals, Interface::ForeignToplevelWlr)
            == Ok::<BoundGlobal, MissingGlobal>(
            BoundGlobal { name: g.name, version: lower(g.version, 3) },
        ),
        globals.foreign_toplevel_ext == Some(g) ==> binding(globals, Interface::ForeignToplevelExt)
            == Ok::<BoundGlobal, MissingGlobal>(
            BoundGlobal { name: g.name, version: lower(g.version, 1) },
        ),
        globals.xdg_output_manager == Some(g) ==> binding(globals, Interface::XdgOutputManager)
            == Ok::<BoundGlobal, MissingGlobal>(
            BoundGlobal { name: g.name, version: lower(g.version, 3) },
        ),
        globals.seat == Some(g) ==> binding(globals, Interface::Seat) == Ok::<
            BoundGlobal,
            MissingGlobal,
        >(BoundGlobal { name: g.name, version: lower(g.version, 7) }),
        globals.shm == Some(g) ==> binding(globals, Interface::Shm) == Ok::<
            BoundGlobal,
            MissingGlobal,
        >(BoundGlobal { name: g.name, version: lower(g.version, 1) }),
        bound_at(g, Interface::Output.spec_newest()) == (BoundGlobal {
            name: g.name,
            version: lower(g.version, 4),
        }),
        binding(globals, i) is Err ==> binding(globals, i) == Err::<BoundGlobal, MissingGlobal>(
            MissingGlobal(i),
        ),
        binding(globals, Interface::VirtualPointer) is Err <==> globals.virtual_pointer is None,
        binding(globals, Interface::VirtualKeyboard) is Err <==> globals.virtual_keyboard is None,
        binding(globals, Interface::Screencopy) is Err <==> globals.screencopy is None,
        binding(globals, Interface::ForeignToplevelWlr) is Err
            <==> globals.foreign_toplevel_wlr is None,
        binding(globals, Interface::ForeignToplevelExt) is Err
            <==> globals.foreign_toplevel_ext is None,
        binding(globals, Interface::XdgOutputManager) is Err <==> globals.xdg_output_manager is None,
        binding(globals, Interface::Seat) is Err <==> globals.seat is None,
        binding(globals, Interface::Shm) is Err <==> globals.shm is None,
{
}

} // verus!
