use wlroots_bridge::conn::{Conn, Interface, MissingGlobal, RegistryState};
use wlroots_bridge::wm::{
    activate_window, app_under_point, bind_for_activation, choose_protocol, collect_toplevels,
    frontmost_app, read_state, windows, ExtState, HandleEvent, ManagerEvent, Toplevel,
    ToplevelProtocol, WlrState, WmError,
};

fn tl(
    id: &str,
    app_id: Option<&str>,
    title: Option<&str>,
    activated: bool,
    minimized: bool,
) -> Toplevel {
    Toplevel {
        id: id.to_owned(),
        app_id: app_id.map(str::to_owned),
        title: title.map(str::to_owned),
        activated,
        minimized,
        order: 0,
    }
}

#[test]
fn window_info_maps_app_id_to_class_and_desktop() {
    let w = tl("5", Some("firefox"), Some("Mozilla Firefox"), true, false).to_window_info();
    assert_eq!(w.id, "5");
    assert_eq!(w.title, "Mozilla Firefox");
    assert_eq!(w.desktop_file_name.as_deref(), Some("firefox"));
    assert_eq!(w.resource_class.as_deref(), Some("firefox"));
    assert_eq!(w.resource_name, None);
    assert!(w.is_active);
    assert_eq!(w.is_minimized, Some(false));
    assert_eq!(w.is_visible, Some(true));
    assert_eq!(w.geometry.width, 0);
    assert_eq!(w.geometry.height, 0);
    assert!(!w.exclude_from_capture);
}

#[test]
fn minimized_window_is_not_visible() {
    let w = tl("7", Some("code"), Some("editor"), false, true).to_window_info();
    assert_eq!(w.is_minimized, Some(true));
    assert_eq!(w.is_visible, Some(false));
}

#[test]
fn bundle_id_strips_desktop_suffix() {
    let t = tl("1", Some("org.kde.kcalc.desktop"), Some("KCalc"), false, false);
    assert_eq!(t.bundle_id().as_deref(), Some("org.kde.kcalc"));
}

#[test]
fn bundle_id_falls_back_to_id() {
    let t = tl("42", None, None, false, false);
    assert_eq!(t.bundle_id().as_deref(), Some("42"));
}

#[test]
fn app_ref_uses_title_then_bundle() {
    let t = tl("1", Some("firefox"), Some("Home"), true, false);
    let r = t.to_app_ref().unwrap();
    assert_eq!(r.bundle_id, "firefox");
    assert_eq!(r.display_name, "Home");

    let t = tl("1", Some("firefox"), None, true, false);
    let r = t.to_app_ref().unwrap();
    assert_eq!(r.display_name, "firefox");
}

#[test]
fn blank_names_do_not_count() {
    let t = tl(" 8 ", Some(" \t"), Some("\u{3000}"), false, false);
    assert_eq!(t.bundle_id().as_deref(), Some("8"));
    assert_eq!(t.to_app_ref().unwrap().display_name, "8");
    let w = t.to_window_info();
    assert_eq!((w.desktop_file_name, w.resource_class), (None, None));
    assert_eq!(w.title, "\u{3000}");
    let t = tl(" ", None, None, false, false);
    assert_eq!(t.bundle_id(), None);
    assert!(t.to_app_ref().is_none());
    let t = tl("1", Some("a.desktop.desktop"), None, false, false);
    assert_eq!(t.bundle_id().as_deref(), Some("a"));
    let t = tl("1", Some(".desktop"), None, false, false);
    assert_eq!(t.bundle_id().as_deref(), Some(""));
}

#[test]
fn the_rest_of_a_window_is_fixed() {
    let mut t = tl("1", None, None, false, false);
    t.order = 6;
    let w = t.to_window_info();
    assert_eq!(w.stacking_order, 6);
    assert_eq!(w.title, "");
    assert_eq!((w.geometry.x, w.geometry.y), (0, 0));
    assert_eq!((w.pid, w.window_role, w.window_type, w.output), (None, None, None, None));
    assert_eq!((w.is_dock, w.is_desktop, w.is_dialog), (Some(false), Some(false), Some(false)));
    assert_eq!((w.is_normal_window, w.transient, w.keep_above), (Some(true), Some(false), Some(false)));
    assert!(w.transient_for.is_none());
}

fn state_of(words: &[u32]) -> HandleEvent {
    HandleEvent::State {
        bytes: words.iter().flat_map(|w| w.to_le_bytes()).collect(),
        little_endian: true,
    }
}

#[test]
fn state_arrays_are_read_in_either_order() {
    assert_eq!(read_state(&[2, 0, 0, 0], true), (true, false));
    assert_eq!(read_state(&[0, 0, 0, 1], false), (false, true));
    assert_eq!(read_state(&[0, 0, 0, 2, 0, 0, 0, 1], false), (true, true));
    assert_eq!(read_state(&[0, 0, 0, 2], true), (false, false));
    assert_eq!(read_state(&[0, 0, 0, 0, 2, 0, 0], true), (false, false));
    assert_eq!(read_state(&[], true), (false, false));
}

fn filled() -> WlrState {
    let mut s = WlrState::new();
    s.manager_event(ManagerEvent::Toplevel { handle: 30 });
    s.manager_event(ManagerEvent::Toplevel { handle: 31 });
    s.manager_event(ManagerEvent::Toplevel { handle: 30 });
    s.manager_event(ManagerEvent::Other);
    s.handle_event(31, HandleEvent::AppId { app_id: "foot".to_owned() });
    s.handle_event(31, HandleEvent::Title { title: "shell".to_owned() });
    s.handle_event(30, HandleEvent::AppId { app_id: "firefox".to_owned() });
    s.handle_event(32, HandleEvent::Other);
    s
}

#[test]
fn toplevels_join_once_in_order() {
    let s = filled();
    assert_eq!(s.list.handles, vec![30, 31, 32]);
    let ids: Vec<&str> = s.list.toplevels.iter().map(|t| t.id.as_str()).collect();
    assert_eq!(ids, vec!["30", "31", "32"]);
    let list = windows(&collect_toplevels(s.list));
    let order: Vec<usize> = list.iter().map(|w| w.stacking_order).collect();
    assert_eq!(order, vec![0, 1, 2]);
    assert_eq!(list[1].resource_class.as_deref(), Some("foot"));
}

#[test]
fn closed_toplevels_drop_out() {
    let mut s = filled();
    s.handle_event(30, HandleEvent::Closed);
    let open = collect_toplevels(s.list);
    let ids: Vec<&str> = open.iter().map(|t| t.id.as_str()).collect();
    assert_eq!(ids, vec!["31", "32"]);
    assert_eq!(open[0].order, 1);
}

#[test]
fn the_manager_can_finish() {
    let mut s = WlrState::new();
    assert!(!s.done);
    s.manager_event(ManagerEvent::Finished);
    assert!(s.done);
}

#[test]
fn the_activated_app_is_frontmost() {
    let mut s = filled();
    s.handle_event(31, state_of(&[0, 2]));
    s.handle_event(30, state_of(&[1]));
    assert!(s.list.toplevels[0].minimized);
    let open = collect_toplevels(s.list);
    let app = frontmost_app(&open).unwrap();
    assert_eq!((app.bundle_id.as_str(), app.display_name.as_str()), ("foot", "shell"));
}

#[test]
fn without_an_activated_one_the_first_is_frontmost() {
    let mut s = filled();
    s.handle_event(31, state_of(&[2]));
    s.handle_event(31, state_of(&[]));
    assert_eq!(frontmost_app(&collect_toplevels(s.list)).unwrap().bundle_id, "firefox");
    assert!(frontmost_app(&[]).is_none());
}

#[test]
fn nothing_is_under_a_point() {
    assert!(app_under_point(3, 4).is_none());
}

#[test]
fn the_ext_list_prefers_identifiers() {
    let mut s = ExtState::new();
    s.list_event(8);
    s.handle_event(8, HandleEvent::Identifier { identifier: String::new() });
    assert_eq!(s.list.toplevels[0].id, "8");
    s.handle_event(8, HandleEvent::Identifier { identifier: "abc".to_owned() });
    s.handle_event(8, HandleEvent::AppId { app_id: "foot".to_owned() });
    s.handle_event(8, HandleEvent::Title { title: "t".to_owned() });
    s.handle_event(8, state_of(&[2]));
    assert_eq!(s.list.toplevels[0].id, "abc");
    assert!(!s.list.toplevels[0].activated);
    s.handle_event(9, HandleEvent::Closed);
    let open = collect_toplevels(s.list);
    assert_eq!(open.len(), 1);
    assert_eq!(open[0].title.as_deref(), Some("t"));
}

#[test]
fn the_wlr_list_ignores_identifiers() {
    let mut s = filled();
    s.handle_event(30, HandleEvent::Identifier { identifier: "abc".to_owned() });
    assert_eq!(s.list.toplevels[0].id, "30");
}

fn conn(globals: &[&str]) -> Conn {
    let mut state = RegistryState::default();
    for (i, name) in globals.iter().enumerate() {
        state.event(i as u32 + 1, name, 8);
    }
    Conn { globals: state.globals }
}

#[test]
fn the_wlr_protocol_is_preferred() {
    let both = conn(&["ext_foreign_toplevel_list_v1", "zwlr_foreign_toplevel_manager_v1"]);
    match choose_protocol(&both) {
        Ok(ToplevelProtocol::Wlr(g)) => assert_eq!((g.name, g.version), (2, 3)),
        _ => panic!("wlr is there"),
    }
    match choose_protocol(&conn(&["ext_foreign_toplevel_list_v1"])) {
        Ok(ToplevelProtocol::Ext(g)) => assert_eq!((g.name, g.version), (1, 1)),
        _ => panic!("ext is there"),
    }
    assert!(matches!(choose_protocol(&conn(&[])), Err(WmError::NoProtocol)));
}

#[test]
fn activation_needs_the_wlr_protocol_and_a_seat() {
    let r = bind_for_activation(&conn(&["zwlr_foreign_toplevel_manager_v1", "wl_seat"])).unwrap();
    assert_eq!((r.manager.name, r.manager.version), (1, 3));
    assert_eq!((r.seat.name, r.seat.version), (2, 7));
    assert!(matches!(
        bind_for_activation(&conn(&["wl_seat", "ext_foreign_toplevel_list_v1"])),
        Err(WmError::ActivationUnsupported)
    ));
    assert!(matches!(
        bind_for_activation(&conn(&["zwlr_foreign_toplevel_manager_v1"])),
        Err(WmError::Missing(MissingGlobal(Interface::Seat)))
    ));
}

#[test]
fn windows_are_activated_by_id() {
    let s = filled();
    assert_eq!(activate_window(&s, "31").unwrap(), 1);
    match activate_window(&s, "99") {
        Err(WmError::WindowNotFound(id)) => assert_eq!(id, "99"),
        _ => panic!("99 is not there"),
    }
}

#[test]
fn reported_ids_activate_their_windows() {
    let mut s = filled();
    s.handle_event(31, HandleEvent::Closed);
    for (i, t) in s.list.toplevels.iter().enumerate() {
        if !t.id.is_empty() {
            assert_eq!(activate_window(&s, &t.to_window_info().id).unwrap(), i);
        }
    }
}

#[test]
fn the_ext_list_has_no_state() {
    let mut s = ExtState::new();
    for handle in 3..6 {
        s.list_event(handle);
        s.handle_event(handle, state_of(&[1, 2]));
    }
    let list = windows(&collect_toplevels(s.list));
    assert_eq!(list.len(), 3);
    for w in list {
        assert!(!w.is_active);
        assert_eq!((w.is_visible, w.is_minimized), (Some(true), Some(false)));
    }
}
