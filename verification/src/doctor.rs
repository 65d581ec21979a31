//! Environment and compositor diagnostics: what is advertised, at the versions that it is
//! bound at.

use crate::conn;
use crate::conn::{BoundGlobal, Conn, Interface, MissingGlobal};
use crate::output::{DoctorGlobals, DoctorReport};
use vstd::prelude::*;

verus! {

/// The version that a binding is made at; `None` where there is nothing to bind.
pub open spec fn version_of_binding(b: Result<BoundGlobal, MissingGlobal>) -> Option<u32> {
    match b {
        Ok(g) => Some(g.version),
        Err(_) => None,
    }
}

fn version(b: Result<BoundGlobal, MissingGlobal>) -> (r: Option<u32>)
    ensures
        r == version_of_binding(b),
{
    match b {
        Ok(g) => Some(g.version),
        Err(_) => None,
    }
}

/// The report shows the globals of a connection.
pub open spec fn reports_globals(g: DoctorGlobals, conn: &Conn) -> bool {
    g == (DoctorGlobals {
        virtual_pointer: version_of_binding(
            conn::binding(conn.globals, Interface::VirtualPointer),
        ),
        virtual_keyboard: version_of_binding(
            conn::binding(conn.globals, Interface::VirtualKeyboard),
        ),
        screencopy: version_of_binding(conn::binding(conn.globals, Interface::Screencopy)),
        foreign_toplevel_wlr: version_of_binding(
            conn::binding(conn.globals, Interface::ForeignToplevelWlr),
        ),
        foreign_toplevel_ext: version_of_binding(
            conn::binding(conn.globals, Interface::ForeignToplevelExt),
        ),
        xdg_output: version_of_binding(conn::binding(conn.globals, Interface::XdgOutputManager)),
        wl_output_count: conn.globals.outputs.len(),
        wl_seat: version_of_binding(conn::binding(conn.globals, Interface::Seat)),
        wl_shm: version_of_binding(conn::binding(conn.globals, Interface::Shm)),
    })
}

/// Gathers the Wayland environment and the advertised globals, with the versions that they
/// are bound at, into a report.
/// `wayland_display` is the value of `WAYLAND_DISPLAY`; the three flags say which of
/// the compositors' own variables are set.
pub fn doctor(
    conn: &Conn,
    wayland_display: Option<String>,
    sway: bool,
    hyprland: bool,
    niri: bool,
) -> (r: DoctorReport)
    ensures
        r.wayland_display@ == (match wayland_display {
            Some(d) => d@,
            None => "<unset>"@,
        }),
        r.compositor@ == (if sway {
            "sway"@
        } else if hyprland {
            "hyprland"@
        } else if niri {
            "niri"@
        } else {
            "unknown"@
        }),
        reports_globals(r.globals, conn),
{
    DoctorReport {
        wayland_display: match wayland_display {
            Some(d) => d,
            None => "<unset>".to_owned(),
        },
        compositor: conn::detect_compositor(sway, hyprland, niri),
        globals: DoctorGlobals {
            virtual_pointer: version(conn.bind_virtual_pointer_manager()),
            virtual_keyboard: version(conn.bind_virtual_keyboard_manager()),
            screencopy: version(conn.bind_screencopy_manager()),
            foreign_toplevel_wlr: version(conn.bind_foreign_toplevel_manager()),
            foreign_toplevel_ext: version(conn.bind_foreign_toplevel_list()),
            xdg_output: version(conn.bind_xdg_output_manager()),
            wl_output_count: conn.globals.outputs.len(),
            wl_seat: version(conn.bind_seat()),
            wl_shm: version(conn.bind_shm()),
        },
    }
}

/// A field shows a global: nothing where it is not recorded, else the recorded version or the
/// newest that is spoken, whichever is lower.
pub open spec fn shows(field: Option<u32>, global: Option<BoundGlobal>, newest: u32) -> bool {
    match global {
        None => field is None,
        Some(g) => field == Some(conn::lower(g.version, newest)),
    }
}

/// The report shows every global in its own field, at the version it is bound at.
pub proof fn law_the_report_shows_every_global(g: DoctorGlobals, conn: &Conn)
    requires
        reports_globals(g, conn),
    ensures
        shows(g.virtual_pointer, conn.globals.virtual_pointer, 2),
        shows(g.virtual_keyboard, conn.globals.virtual_keyboard, 1),
        shows(g.screencopy, conn.globals.screencopy, 3),
        shows(g.foreign_toplevel_wlr, conn.globals.foreign_toplevel_wlr, 3),
        shows(g.foreign_toplevel_ext, conn.globals.foreign_toplevel_ext, 1),
        shows(g.xdg_output, conn.globals.xdg_output_manager, 3),
        shows(g.wl_seat, conn.globals.seat, 7),
        shows(g.wl_shm, conn.globals.shm, 1),
        g.wl_output_count == conn.globals.outputs@.len(),
{
}

} // verus!
