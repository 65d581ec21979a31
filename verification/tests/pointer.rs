use wlroots_bridge::conn::{Conn, Interface, MissingGlobal, OutputEntry, RegistryState};
use wlroots_bridge::input::holder::{
    down_result, holder_pidfile, left_mouse_down, left_mouse_up, pid_record, read_pid,
    recorded_pid, run_holder, up_result, HolderAction, HolderEvent, HolderPhase, HOLD_MS, POLL_MS,
    POLL_ROUNDS,
};
use wlroots_bridge::input::pointer::{
    click, drag, logical_extents, move_pointer, now_ms, scroll, Button, Pointer, PointerError,
    AXIS_HORIZONTAL, AXIS_VERTICAL, BTN_LEFT, BTN_MIDDLE, BTN_RIGHT, CLICK_GAP_MS, DRAG_STEPS,
    DRAG_STEP_MS, SCROLL_STEP,
};
use wlroots_bridge::input::script::{PointerStep, Script};
use wlroots_bridge::input::wheel::{is_positive, notches};

#[test]
fn button_parse_and_evdev() {
    assert!(matches!(Button::parse("left").unwrap(), Button::Left));
    assert!(matches!(Button::parse("right").unwrap(), Button::Right));
    assert!(matches!(Button::parse("middle").unwrap(), Button::Middle));
    assert!(Button::parse("wheel").is_err());
    assert_eq!(Button::Left.evdev(), BTN_LEFT);
    assert_eq!(Button::Right.evdev(), BTN_RIGHT);
    assert_eq!(Button::Middle.evdev(), BTN_MIDDLE);
}

#[test]
fn scroll_step_matches_convention() {
    assert_eq!(f64::from(SCROLL_STEP), 15.0);
}

#[test]
fn pidfile_respects_profile() {
    let dir = || Some("/run/user/1000".to_owned());
    let p = holder_pidfile(dir(), None);
    assert_eq!(p, "/run/user/1000/wlroots-bridge-lmb.pid");
    let p = holder_pidfile(dir(), Some("work".to_owned()));
    assert_eq!(p, "/run/user/1000/wlroots-bridge-lmb-work.pid");
    let p = holder_pidfile(dir(), Some(String::new()));
    assert_eq!(p, "/run/user/1000/wlroots-bridge-lmb.pid");
    assert_eq!(holder_pidfile(None, None), "/tmp/wlroots-bridge-lmb.pid");
}

#[test]
fn read_pid_rejects_garbage() {
    assert_eq!(read_pid(Some("not-a-number".to_owned()), true), None);
    assert_eq!(read_pid(Some("0".to_owned()), true), None);
    assert_eq!(read_pid(Some(pid_record(31_337)), true), Some(31_337));
    assert_eq!(read_pid(Some(pid_record(31_337)), false), None);
    assert_eq!(read_pid(None, true), None);
}

#[test]
fn records_are_read_as_numbers_above_one() {
    for (text, pid) in [
        ("  42\n", Some(42)),
        ("+7", Some(7)),
        ("2147483647", Some(i32::MAX)),
        ("2147483648", None),
        ("1", None),
        ("-5", None),
        ("", None),
        ("+", None),
        ("4 2", None),
        ("0x10", None),
    ] {
        assert_eq!(recorded_pid(text), pid, "{text:?}");
    }
    for pid in [2u32, 10, 999, 4_194_304, i32::MAX as u32] {
        assert_eq!(recorded_pid(&pid_record(pid)), Some(pid as i32));
    }
}

#[test]
fn an_unknown_button_is_named() {
    match Button::parse("wheel") {
        Err(PointerError::UnsupportedButton(name)) => assert_eq!(name, "wheel"),
        _ => panic!("wheel is no button"),
    }
    assert!(Button::parse("").is_err());
    assert!(Button::parse("Left").is_err());
}

#[test]
fn codes_are_those_of_evdev() {
    assert_eq!((BTN_LEFT, BTN_RIGHT, BTN_MIDDLE), (0x110, 0x111, 0x112));
}

fn output(x: i32, y: i32, w: i32, h: i32) -> OutputEntry {
    OutputEntry {
        wl_output: 1,
        registry_name: 1,
        name: None,
        scale: 1,
        logical_x: Some(x),
        logical_y: Some(y),
        logical_width: Some(w),
        logical_height: Some(h),
        mode_width: None,
        mode_height: None,
        refresh_millihz: None,
    }
}

fn conn() -> Conn {
    let mut state = RegistryState::default();
    state.event(5, "zwlr_virtual_pointer_manager_v1", 2);
    Conn { globals: state.globals }
}

fn bare() -> Conn {
    Conn { globals: RegistryState::default().globals }
}

fn unrolled(script: &Script) -> Vec<PointerStep> {
    let mut steps = Vec::new();
    for block in &script.blocks {
        for _ in 0..block.times {
            steps.extend_from_slice(&block.steps);
        }
    }
    steps
}

#[test]
fn extents_span_all_outputs() {
    let two = vec![output(1920, 0, 1280, 1024), output(0, 0, 1920, 1080)];
    assert_eq!(logical_extents(&two).unwrap(), (3200, 1080));
    let left = vec![output(-1920, -5, 1920, 5)];
    assert_eq!(logical_extents(&left).unwrap(), (1, 1));
    let far = vec![output(i32::MAX, i32::MAX, i32::MAX, i32::MAX)];
    assert_eq!(logical_extents(&far).unwrap(), (u32::MAX - 1, u32::MAX - 1));
    assert!(matches!(logical_extents(&[]), Err(PointerError::NoOutputs)));
}

#[test]
fn a_pointer_needs_outputs_and_its_manager() {
    let one = vec![output(0, 0, 800, 600)];
    let p = Pointer::create(&conn(), &one).unwrap();
    assert_eq!((p.manager.name, p.manager.version), (5, 2));
    assert_eq!((p.extent_w, p.extent_h), (800, 600));
    assert!(p.addressable());
    assert!(matches!(Pointer::create(&bare(), &[]), Err(PointerError::NoOutputs)));
    assert!(matches!(
        Pointer::create(&bare(), &one),
        Err(PointerError::Missing(MissingGlobal(Interface::VirtualPointer)))
    ));
    let far = vec![output(i32::MAX, 0, 1, 1)];
    assert!(!Pointer::create(&conn(), &far).unwrap().addressable());
}

fn motion(x: u32, y: u32) -> PointerStep {
    PointerStep::Motion { x, y, extent_w: 800, extent_h: 600 }
}

fn button(code: u32, pressed: bool) -> PointerStep {
    PointerStep::Button { code, pressed }
}

fn desk() -> Vec<OutputEntry> {
    vec![output(0, 0, 800, 600)]
}

#[test]
fn motion_is_clamped() {
    let p = Pointer::create(&conn(), &desk()).unwrap();
    assert_eq!(p.motion_absolute(3, 4), motion(3, 4));
    assert_eq!(p.motion_absolute(-3, 601), motion(0, 600));
    assert_eq!(p.motion_absolute(800, i32::MIN), motion(800, 0));
    assert_eq!(p.frame(), PointerStep::Frame);
    assert_eq!(
        p.axis(AXIS_HORIZONTAL, 3),
        PointerStep::Axis { horizontal: true, value: 3 }
    );
    assert_eq!(p.axis(AXIS_VERTICAL, 3), PointerStep::Axis { horizontal: false, value: 3 });
    assert_eq!(p.axis(7, 3), PointerStep::Axis { horizontal: false, value: 3 });
    assert_eq!(p.button(BTN_RIGHT, true), button(BTN_RIGHT, true));
}

#[test]
fn event_times_wrap() {
    assert_eq!(now_ms(None), 0);
    assert_eq!(now_ms(Some(0x1_0000_0007)), 7);
    assert_eq!(now_ms(Some(1_700_000_000_000)), 1_700_000_000_000u64 as u32);
}

#[test]
fn a_move_is_one_motion() {
    let plan = move_pointer(&conn(), &desk(), 30, 700).unwrap();
    assert_eq!(
        unrolled(&plan.script),
        vec![motion(30, 600), PointerStep::Frame, PointerStep::Roundtrip]
    );
    assert_eq!(plan.result.action, "move");
    assert_eq!((plan.result.x, plan.result.y), (30, 700));
    assert!(plan.result.raised.is_none());
    assert!(matches!(move_pointer(&conn(), &[], 0, 0), Err(PointerError::NoOutputs)));
    assert!(matches!(
        move_pointer(&bare(), &desk(), 0, 0),
        Err(PointerError::Missing(MissingGlobal(Interface::VirtualPointer)))
    ));
}

#[test]
fn clicks_press_and_release() {
    let plan = click(&conn(), &desk(), 1, 2, Button::Middle, 2, &[]);
    assert!(!plan.hold_modifiers);
    let plan = plan.pointer.unwrap();
    let one = [
        button(BTN_MIDDLE, true),
        PointerStep::Frame,
        button(BTN_MIDDLE, false),
        PointerStep::Frame,
    ];
    let mut expected = vec![motion(1, 2), PointerStep::Frame];
    expected.extend_from_slice(&one);
    expected.push(PointerStep::Flush);
    expected.push(PointerStep::Sleep { millis: CLICK_GAP_MS });
    expected.extend_from_slice(&one);
    expected.push(PointerStep::Roundtrip);
    assert_eq!(unrolled(&plan.script), expected);
    assert_eq!(plan.result.action, "click");
    assert_eq!(CLICK_GAP_MS, 50);
}

fn presses(steps: &[PointerStep], code: u32) -> usize {
    steps.iter().filter(|s| **s == button(code, true)).count()
}

#[test]
fn clicks_are_counted() {
    for (count, times) in [(0, 1), (1, 1), (3, 3), (17, 17)] {
        let plan = click(&conn(), &desk(), 0, 0, Button::Left, count, &["ctrl".to_owned()]);
        assert!(plan.hold_modifiers);
        let steps = unrolled(&plan.pointer.unwrap().script);
        assert_eq!(presses(&steps, BTN_LEFT), times);
        assert_eq!(presses(&steps, BTN_RIGHT), 0);
        assert_eq!(
            steps.iter().filter(|s| **s == button(BTN_LEFT, false)).count(),
            times
        );
    }
    let plan = click(&bare(), &desk(), 0, 0, Button::Left, 1, &[]);
    assert!(plan.pointer.is_err());
}

#[test]
fn notches_agree_with_machine_doubles() {
    let values = [
        0.0,
        -0.0,
        0.49999999999999994,
        0.5,
        -0.5,
        1.0,
        1.5,
        2.5,
        -2.5,
        3.4999,
        1e-310,
        f64::MIN_POSITIVE,
        f64::MAX,
        f64::MIN,
        f64::INFINITY,
        f64::NEG_INFINITY,
        f64::NAN,
        4294967294.5,
        4294967295.0,
        4294967295.5,
        4503599627370497.5,
        1e300,
    ];
    for v in values {
        assert_eq!(notches(v.to_bits()), v.round().abs() as u32, "{v}");
        assert_eq!(is_positive(v.to_bits()), v > 0.0, "{v}");
    }
    let mut s = 0x0123_4567_89ab_cdefu64;
    for i in 0..50_000u64 {
        s ^= s << 13;
        s ^= s >> 7;
        s ^= s << 17;
        let bits = if i % 2 == 0 {
            s
        } else {
            (s & 0x800f_ffff_ffff_ffff) | ((1000 + (i % 80)) << 52)
        };
        let v = f64::from_bits(bits);
        assert_eq!(notches(bits), v.round().abs() as u32, "{v}");
        assert_eq!(is_positive(bits), v > 0.0, "{v}");
    }
}

#[test]
fn scrolling_goes_by_notches() {
    let plan = scroll(&conn(), &desk(), 9, 8, (-1.2f64).to_bits(), 2.5f64.to_bits()).unwrap();
    let down = PointerStep::Axis { horizontal: false, value: 15 };
    let left = PointerStep::Axis { horizontal: true, value: -15 };
    let f = PointerStep::Frame;
    assert_eq!(
        unrolled(&plan.script),
        vec![motion(9, 8), f, down, f, down, f, down, f, left, f, PointerStep::Roundtrip]
    );
    assert_eq!(plan.result.action, "scroll");
    let still = scroll(&conn(), &desk(), 9, 8, 0.0f64.to_bits(), 0.4f64.to_bits()).unwrap();
    assert_eq!(unrolled(&still.script), vec![motion(9, 8), f, PointerStep::Roundtrip]);
    assert!(scroll(&bare(), &desk(), 0, 0, 0, 0).is_err());
}

#[test]
fn a_huge_scroll_is_planned_without_being_written_out() {
    let plan = scroll(&conn(), &desk(), 0, 0, 0, f64::INFINITY.to_bits()).unwrap();
    assert_eq!(plan.script.blocks[1].times, u32::MAX);
    assert_eq!(plan.script.blocks[2].times, 0);
}

fn float_path(from: i32, to: i32) -> Vec<i32> {
    (1..=20u32)
        .map(|step| {
            let t = f64::from(step) / 20f64;
            from + ((to - from) as f64 * t).round() as i32
        })
        .collect()
}

fn drag_path(from: i32, to: i32) -> Vec<i32> {
    let wide = vec![output(0, 0, i32::MAX, i32::MAX)];
    let plan = drag(&conn(), &wide, from, 0, to, 0).unwrap();
    let steps = unrolled(&plan.script);
    let xs: Vec<i32> = steps
        .iter()
        .filter_map(|s| match s {
            PointerStep::Motion { x, .. } => Some(*x as i32),
            _ => None,
        })
        .collect();
    assert_eq!(xs.len(), 22);
    assert_eq!((xs[0], xs[21]), (from, to));
    xs[1..21].to_vec()
}

#[test]
fn drags_agree_with_machine_doubles() {
    for (from, to) in [
        (0, 0),
        (0, 1),
        (1, 0),
        (0, 10),
        (10, 0),
        (3, 28),
        (1919, 0),
        (0, i32::MAX),
        (i32::MAX, 0),
        (123_456_789, 987_654_321),
    ] {
        assert_eq!(drag_path(from, to), float_path(from, to), "{from} -> {to}");
    }
    for to in 0..400 {
        assert_eq!(drag_path(200, to), float_path(200, to), "200 -> {to}");
    }
}

#[test]
fn drags_are_straight_and_arrive() {
    let path = drag_path(17, 1000);
    assert!(path.windows(2).all(|w| w[0] <= w[1]));
    assert!(path.iter().all(|x| *x >= 17 && *x <= 1000));
    assert_eq!(path[19], 1000);
    for (i, x) in path.iter().enumerate() {
        let exact = 17 * 20 + 983 * (i as i32 + 1);
        assert!((20 * x - exact).abs() <= 10);
    }
}

#[test]
fn a_drag_holds_the_left_button() {
    let plan = drag(&conn(), &desk(), 10, 20, 30, 20).unwrap();
    let steps = unrolled(&plan.script);
    let f = PointerStep::Frame;
    let pause = PointerStep::Sleep { millis: DRAG_STEP_MS };
    assert_eq!(
        &steps[0..10],
        &[
            motion(10, 20),
            f,
            button(BTN_LEFT, true),
            f,
            PointerStep::Flush,
            pause,
            motion(11, 20),
            f,
            PointerStep::Flush,
            pause,
        ]
    );
    let n = steps.len();
    assert_eq!(n, 6 + 4 * DRAG_STEPS as usize + 4 + 3);
    assert_eq!(
        &steps[n - 7..],
        &[
            motion(30, 20),
            f,
            PointerStep::Flush,
            pause,
            button(BTN_LEFT, false),
            f,
            PointerStep::Roundtrip,
        ]
    );
    assert_eq!(presses(&steps, BTN_LEFT), 1);
    assert_eq!(plan.result.action, "drag");
    let r = &plan.result;
    assert_eq!((r.from_x, r.from_y, r.to_x, r.to_y), (10, 20, 30, 20));
    assert!(drag(&bare(), &desk(), 0, 0, 1, 1).is_err());
}

#[test]
fn a_press_replaces_the_holder() {
    let (phase, action) = left_mouse_down(HolderPhase::Checking, HolderEvent::Pid(Some(77)));
    assert_eq!(action, HolderAction::Terminate { pid: 77 });
    let (phase, action) = left_mouse_down(phase, HolderEvent::Done);
    assert_eq!(action, HolderAction::RemoveRecord);
    let (phase, action) = left_mouse_down(phase, HolderEvent::Done);
    assert_eq!(action, HolderAction::Fork);
    assert_eq!(
        left_mouse_down(phase, HolderEvent::Forked(0)),
        (HolderPhase::Finished, HolderAction::Hold)
    );
    assert_eq!(
        left_mouse_down(phase, HolderEvent::Forked(-1)),
        (HolderPhase::Finished, HolderAction::Fail)
    );
    let (phase, action) = left_mouse_down(phase, HolderEvent::Forked(88));
    assert_eq!(action, HolderAction::ReadPid);
    assert_eq!(
        left_mouse_down(phase, HolderEvent::Pid(Some(88))),
        (HolderPhase::Finished, HolderAction::Report)
    );
    assert_eq!(
        left_mouse_down(HolderPhase::Checking, HolderEvent::Pid(None)),
        (HolderPhase::Forking, HolderAction::Fork)
    );
}

fn looks(
    step: fn(HolderPhase, HolderEvent) -> (HolderPhase, HolderAction),
    answer: Option<i32>,
    last: HolderAction,
) -> u32 {
    let mut phase = HolderPhase::Polling { rounds: 0 };
    let mut looks = 0;
    loop {
        looks += 1;
        let (next, action) = step(phase, HolderEvent::Pid(answer));
        assert_eq!(action, HolderAction::Sleep { millis: POLL_MS });
        let (next, action) = step(next, HolderEvent::Done);
        if action == last {
            return looks;
        }
        assert_eq!(action, HolderAction::ReadPid);
        phase = next;
    }
}

#[test]
fn waiting_for_the_holder_ends() {
    assert_eq!(looks(left_mouse_down, None, HolderAction::Report), POLL_ROUNDS);
    assert_eq!(looks(left_mouse_up, Some(9), HolderAction::RemoveRecord), POLL_ROUNDS);
    assert_eq!((POLL_ROUNDS, POLL_MS), (50, 10));
}

#[test]
fn a_release_ends_the_holder() {
    let (phase, action) = left_mouse_up(HolderPhase::Checking, HolderEvent::Pid(Some(77)));
    assert_eq!(action, HolderAction::Terminate { pid: 77 });
    let (phase, action) = left_mouse_up(phase, HolderEvent::Done);
    assert_eq!(action, HolderAction::ReadPid);
    let (phase, action) = left_mouse_up(phase, HolderEvent::Pid(None));
    assert_eq!(action, HolderAction::RemoveRecord);
    assert_eq!(
        left_mouse_up(phase, HolderEvent::Done),
        (HolderPhase::Finished, HolderAction::Report)
    );
}

#[test]
fn a_release_without_a_holder_is_done() {
    assert_eq!(
        left_mouse_up(HolderPhase::Checking, HolderEvent::Pid(None)),
        (HolderPhase::Finished, HolderAction::Report)
    );
}

#[test]
fn holding_is_reported() {
    let r = down_result();
    assert_eq!((r.action.as_str(), r.button.as_str(), r.is_held), ("left-mouse-down", "left", true));
    let r = up_result();
    assert_eq!((r.action.as_str(), r.button.as_str(), r.is_held), ("left-mouse-up", "left", false));
}

#[test]
fn a_holder_presses_waits_and_releases() {
    let plan = run_holder(&conn(), &desk()).unwrap();
    assert_eq!(
        unrolled(&plan.press),
        vec![button(BTN_LEFT, true), PointerStep::Frame, PointerStep::Roundtrip]
    );
    assert_eq!(
        unrolled(&plan.pause),
        vec![PointerStep::Flush, PointerStep::Sleep { millis: HOLD_MS }]
    );
    assert_eq!(
        unrolled(&plan.release),
        vec![button(BTN_LEFT, false), PointerStep::Frame, PointerStep::Roundtrip]
    );
    assert!(matches!(run_holder(&conn(), &[]), Err(PointerError::NoOutputs)));
}
