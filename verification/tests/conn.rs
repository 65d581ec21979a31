use wlroots_bridge::cli::{Command, Disposition};
use wlroots_bridge::conn::{
    detect_compositor, BoundGlobal, Conn, Interface, MissingGlobal, RegistryState,
};
use wlroots_bridge::doctor::doctor;

const NAMES: [&str; 9] = [
    "zwlr_virtual_pointer_manager_v1",
    "zwp_virtual_keyboard_manager_v1",
    "zwlr_screencopy_manager_v1",
    "zwlr_foreign_toplevel_manager_v1",
    "ext_foreign_toplevel_list_v1",
    "zxdg_output_manager_v1",
    "wl_seat",
    "wl_shm",
    "wl_output",
];

fn swept() -> Conn {
    let mut state = RegistryState::default();
    for (i, name) in NAMES.iter().enumerate() {
        state.event(i as u32 + 1, name, 9);
    }
    state.event(77, "wl_compositor", 6);
    state.event(20, "wl_output", 2);
    Conn { globals: state.globals }
}

fn bound(name: u32, version: u32) -> BoundGlobal {
    BoundGlobal { name, version }
}

#[test]
fn globals_are_bound_at_what_is_spoken() {
    let c = swept();
    assert_eq!(c.bind_virtual_pointer_manager(), Ok(bound(1, 2)));
    assert_eq!(c.bind_virtual_keyboard_manager(), Ok(bound(2, 1)));
    assert_eq!(c.bind_screencopy_manager(), Ok(bound(3, 3)));
    assert_eq!(c.bind_foreign_toplevel_manager(), Ok(bound(4, 3)));
    assert_eq!(c.bind_foreign_toplevel_list(), Ok(bound(5, 1)));
    assert_eq!(c.bind_xdg_output_manager(), Ok(bound(6, 3)));
    assert_eq!(c.bind_seat(), Ok(bound(7, 7)));
    assert_eq!(c.bind_shm(), Ok(bound(8, 1)));
    assert_eq!(c.output_names(), &[bound(9, 9), bound(20, 2)]);
    assert_eq!(c.bind_wl_output(c.output_names()[0]), bound(9, 4));
    assert_eq!(c.bind_wl_output(c.output_names()[1]), bound(20, 2));
    assert_eq!(c.bind(bound(3, 5), 5), bound(3, 5));
}

#[test]
fn missing_globals_are_named() {
    let c = Conn { globals: RegistryState::default().globals };
    assert_eq!(
        c.bind_virtual_pointer_manager(),
        Err(MissingGlobal(Interface::VirtualPointer))
    );
    assert_eq!(
        c.bind_virtual_keyboard_manager(),
        Err(MissingGlobal(Interface::VirtualKeyboard))
    );
    assert_eq!(c.bind_screencopy_manager(), Err(MissingGlobal(Interface::Screencopy)));
    assert_eq!(
        c.bind_foreign_toplevel_manager(),
        Err(MissingGlobal(Interface::ForeignToplevelWlr))
    );
    assert_eq!(
        c.bind_foreign_toplevel_list(),
        Err(MissingGlobal(Interface::ForeignToplevelExt))
    );
    assert_eq!(c.bind_xdg_output_manager(), Err(MissingGlobal(Interface::XdgOutputManager)));
    assert_eq!(c.bind_seat(), Err(MissingGlobal(Interface::Seat)));
    assert_eq!(c.bind_shm(), Err(MissingGlobal(Interface::Shm)));
    assert_eq!(c.output_names(), &[]);
}

#[test]
fn interfaces_are_known_by_their_names() {
    for name in NAMES {
        assert_eq!(Interface::from_name(name).unwrap().name(), name);
    }
    assert!(Interface::from_name("wl_compositor").is_none());
}

#[test]
fn a_later_announcement_replaces_an_earlier_one() {
    let mut state = RegistryState::default();
    state.event(1, "wl_seat", 3);
    state.event(2, "wl_seat", 5);
    let c = Conn { globals: state.globals };
    assert_eq!(c.bind_seat(), Ok(bound(2, 5)));
}

#[test]
fn compositors_are_told_apart() {
    assert_eq!(detect_compositor(true, true, true), "sway");
    assert_eq!(detect_compositor(false, true, true), "hyprland");
    assert_eq!(detect_compositor(false, false, true), "niri");
    assert_eq!(detect_compositor(false, false, false), "unknown");
}

#[test]
fn the_report_lists_bound_versions() {
    let r = doctor(&swept(), Some("wayland-1".to_owned()), false, false, true);
    assert_eq!(r.wayland_display, "wayland-1");
    assert_eq!(r.compositor, "niri");
    assert_eq!(r.globals.virtual_pointer, Some(2));
    assert_eq!(r.globals.virtual_keyboard, Some(1));
    assert_eq!(r.globals.screencopy, Some(3));
    assert_eq!(r.globals.foreign_toplevel_wlr, Some(3));
    assert_eq!(r.globals.foreign_toplevel_ext, Some(1));
    assert_eq!(r.globals.xdg_output, Some(3));
    assert_eq!(r.globals.wl_output_count, 2);
    assert_eq!(r.globals.wl_seat, Some(7));
    assert_eq!(r.globals.wl_shm, Some(1));
    let none = Conn { globals: RegistryState::default().globals };
    let r = doctor(&none, None, false, false, false);
    assert_eq!(r.wayland_display, "<unset>");
    assert_eq!(r.globals.wl_seat, None);
    assert_eq!(r.globals.wl_output_count, 0);
}

#[test]
fn sessions_need_no_compositor() {
    assert_eq!(
        Command::SessionStart { foreground: true }.disposition(),
        Disposition::SessionStarted
    );
    assert_eq!(Command::SessionEnd.disposition(), Disposition::SessionEnded);
    assert_eq!(Command::CursorPosition.disposition(), Disposition::NoCursorPosition);
    assert_eq!(Command::Doctor.disposition(), Disposition::Connect);
    assert_eq!(Command::PointerMove { x: 1, y: 2 }.disposition(), Disposition::Connect);
}

#[test]
fn the_report_shows_older_versions_as_they_are() {
    let mut state = RegistryState::default();
    state.event(1, "wl_seat", 5);
    state.event(2, "zwlr_screencopy_manager_v1", 1);
    let c = Conn { globals: state.globals };
    let r = doctor(&c, None, true, false, false);
    assert_eq!(r.globals.wl_seat, Some(5));
    assert_eq!(r.globals.screencopy, Some(1));
    assert_eq!(r.globals.virtual_pointer, None);
    assert_eq!(r.compositor, "sway");
}
