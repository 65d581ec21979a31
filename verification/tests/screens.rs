use wlroots_bridge::conn::{BoundGlobal, OutputEntry};
use wlroots_bridge::screens::{
    resolve_output, screens, to_screen, OutputEvent, OutputGeometry, ScreenState, ScreensError,
    XdgOutputEvent,
};

fn geom(name: &str, x: i32, y: i32, lw: i32, lh: i32, mw: i32, scale: i32) -> OutputGeometry {
    OutputGeometry {
        registry_name: 1,
        name: Some(name.to_owned()),
        scale,
        logical_x: Some(x),
        logical_y: Some(y),
        logical_width: Some(lw),
        logical_height: Some(lh),
        mode_width: Some(mw),
        mode_height: Some((mw as f64 * lh as f64 / lw as f64) as i32),
        refresh_millihz: Some(60_000),
    }
}

fn scale(s: &wlroots_bridge::output::Screen) -> f64 {
    let ratio = s.scale.unwrap();
    f64::from(ratio.physical) / f64::from(ratio.logical)
}

#[test]
fn logical_geometry_used_when_present() {
    let s = to_screen(&geom("DP-1", 1920, 0, 1920, 1080, 1920, 1), false);
    assert_eq!(s.geometry.x, 1920);
    assert_eq!(s.geometry.y, 0);
    assert_eq!(s.geometry.width, 1920);
    assert_eq!(s.geometry.height, 1080);
    assert_eq!(s.name, "DP-1");
}

#[test]
fn fractional_scale_derived_from_mode_vs_logical() {
    let s = to_screen(&geom("eDP-1", 0, 0, 2560, 1440, 3840, 2), true);
    assert!((scale(&s) - 1.5).abs() < 1e-9, "scale {:?}", s.scale);
    assert!(s.is_primary);
    assert!(s.is_active);
}

#[test]
fn integer_scale_when_no_logical_size() {
    let mut g = geom("HDMI-1", 0, 0, 1920, 1080, 1920, 2);
    g.logical_width = None;
    g.logical_height = None;
    let s = to_screen(&g, false);
    assert_eq!(s.geometry.width, 960);
    assert!((scale(&s) - 2.0).abs() < 1e-9);
}

#[test]
fn name_falls_back_to_registry_id() {
    let mut g = geom("x", 0, 0, 800, 600, 800, 1);
    g.name = None;
    g.registry_name = 42;
    let s = to_screen(&g, false);
    assert_eq!(s.name, "output-42");
    assert_eq!(s.id, "output-42");
}

#[test]
fn a_scale_below_one_counts_as_one() {
    let mut g = geom("x", 3, 4, 1, 1, -7, -2);
    g.logical_width = None;
    g.mode_height = Some(9);
    let s = to_screen(&g, false);
    assert_eq!((s.geometry.width, s.geometry.height), (-7, 9));
    assert_eq!(scale(&s), 1.0);
    g.scale = 2;
    let s = to_screen(&g, false);
    assert_eq!((s.geometry.width, s.geometry.height), (-3, 4));
    assert_eq!(s.refresh_millihz, Some(60_000));
}

fn outputs() -> ScreenState {
    ScreenState::new(
        &[BoundGlobal { name: 11, version: 4 }, BoundGlobal { name: 12, version: 4 }],
        &[501, 502],
    )
}

fn place(state: &mut ScreenState, index: usize, x: i32, y: i32) {
    state.xdg_event(index, XdgOutputEvent::LogicalPosition { x, y });
}

#[test]
fn events_fill_in_their_output() {
    let mut state = outputs();
    state.output_event(502, OutputEvent::Scale { factor: 2 });
    state.output_event(
        502,
        OutputEvent::Mode { flags: Some(3), width: 1920, height: 1080, refresh: -5 },
    );
    state.output_event(
        502,
        OutputEvent::Mode { flags: Some(2), width: 1, height: 1, refresh: 1 },
    );
    state.output_event(502, OutputEvent::Mode { flags: None, width: 1, height: 1, refresh: 1 });
    state.output_event(502, OutputEvent::Other);
    state.output_event(999, OutputEvent::Scale { factor: 7 });
    state.xdg_event(1, XdgOutputEvent::LogicalSize { width: 960, height: 540 });
    state.xdg_event(1, XdgOutputEvent::Name { name: "first".to_owned() });
    state.xdg_event(1, XdgOutputEvent::Name { name: "second".to_owned() });
    state.xdg_event(1, XdgOutputEvent::Other);
    state.xdg_event(5, XdgOutputEvent::LogicalSize { width: 1, height: 1 });
    let e = &state.entries[1];
    assert_eq!((e.wl_output, e.registry_name, e.scale), (502, 12, 2));
    assert_eq!((e.mode_width, e.mode_height), (Some(1920), Some(1080)));
    assert_eq!(e.refresh_millihz, Some(0));
    assert_eq!((e.logical_width, e.logical_height), (Some(960), Some(540)));
    assert_eq!(e.name.as_deref(), Some("first"));
    let other = &state.entries[0];
    assert_eq!((other.scale, other.name.as_deref(), other.mode_width), (1, None, None));
    state.output_event(502, OutputEvent::Name { name: "third".to_owned() });
    assert_eq!(state.entries[1].name.as_deref(), Some("third"));
}

#[test]
fn the_output_at_the_origin_is_primary() {
    let mut state = outputs();
    place(&mut state, 0, 1920, 0);
    place(&mut state, 1, 0, 0);
    let list = screens(&state.entries).unwrap();
    assert_eq!(list.iter().map(|s| s.is_primary).collect::<Vec<_>>(), vec![false, true]);
    assert_eq!(list[1].is_active, true);
    assert_eq!(resolve_output(&state.entries, None).unwrap().registry_name, 12);
}

#[test]
fn without_one_at_the_origin_the_first_is_primary() {
    let mut state = outputs();
    place(&mut state, 0, 5, 0);
    place(&mut state, 1, 0, 5);
    let list = screens(&state.entries).unwrap();
    assert_eq!(list.iter().filter(|s| s.is_primary).count(), 1);
    assert!(list[0].is_primary);
    assert_eq!(resolve_output(&state.entries, None).unwrap().registry_name, 11);
}

#[test]
fn displays_are_selected_by_name() {
    let mut state = outputs();
    state.output_event(501, OutputEvent::Name { name: "DP-1".to_owned() });
    state.output_event(502, OutputEvent::Name { name: "DP-2".to_owned() });
    let list = screens(&state.entries).unwrap();
    for (i, s) in list.iter().enumerate() {
        let e = resolve_output(&state.entries, Some(&s.id)).unwrap();
        assert_eq!(e.registry_name, state.entries[i].registry_name);
    }
    match resolve_output(&state.entries, Some("DP-3")) {
        Err(ScreensError::DisplayNotFound(name)) => assert_eq!(name, "DP-3"),
        _ => panic!("DP-3 is not there"),
    }
}

#[test]
fn unnamed_displays_are_selected_by_their_id() {
    let mut state = outputs();
    state.output_event(501, OutputEvent::Name { name: "DP-1".to_owned() });
    let list = screens(&state.entries).unwrap();
    assert_eq!(list[1].id, "output-12");
    assert_eq!(resolve_output(&state.entries, Some("output-12")).unwrap().wl_output, 502);
    assert!(matches!(
        resolve_output(&state.entries, Some("output-11")),
        Err(ScreensError::DisplayNotFound(_))
    ));
    state.output_event(501, OutputEvent::Name { name: "output-12".to_owned() });
    assert_eq!(resolve_output(&state.entries, Some("output-12")).unwrap().wl_output, 501);
}

#[test]
fn a_real_name_comes_before_a_made_up_one() {
    let mut state = outputs();
    state.output_event(502, OutputEvent::Name { name: "output-11".to_owned() });
    let list = screens(&state.entries).unwrap();
    assert_eq!((list[0].id.as_str(), list[1].id.as_str()), ("output-11", "output-11"));
    assert_eq!(resolve_output(&state.entries, Some("output-11")).unwrap().wl_output, 502);
}

#[test]
fn no_outputs_is_an_error() {
    let none: Vec<OutputEntry> = vec![];
    assert!(matches!(screens(&none), Err(ScreensError::NoOutputs)));
    assert!(matches!(resolve_output(&none, None), Err(ScreensError::NoOutputs)));
    assert!(matches!(resolve_output(&none, Some("DP-1")), Err(ScreensError::NoOutputs)));
}
