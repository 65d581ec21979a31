//! Holding the left button across commands.
//!
//! A virtual pointer's buttons are released when its client disconnects. So pressing the
//! button to hold it starts a process of its own, the holder, which keeps its connection
//! open and records its process id in a file; releasing the button terminates the holder.

use super::pointer::{Pointer, PointerError, BTN_LEFT};
use super::script;
use super::script::{PointerStep, Script};
use crate::conn::{Conn, OutputEntry};
use crate::output::ButtonStateResult;
use crate::text;
use vstd::prelude::*;
use vstd::string::*;

verus! {

/// How often the recorded process id is looked for.
pub const POLL_ROUNDS: u32 = 50;

/// The pause between two looks.
pub const POLL_MS: u64 = 10;

/// The pause between two looks at whether the holder is to end.
pub const HOLD_MS: u64 = 50;

/// The file that the holder's process id is recorded in: in the runtime directory, or in
/// `/tmp`, and apart for every profile that has a name.
pub fn holder_pidfile(runtime_dir: Option<String>, profile: Option<String>) -> (r: String)
    ensures
        r@ == (match runtime_dir {
            Some(d) => d@,
            None => "/tmp"@,
        }) + "/wlroots-bridge-lmb"@ + (match profile {
            Some(p) => if p@.len() == 0 {
                Seq::<char>::empty()
            } else {
                "-"@ + p@
            },
            None => Seq::<char>::empty(),
        }) + ".pid"@,
{
    let mut path: String = match runtime_dir {
        Some(d) => d,
        None => "/tmp".to_owned(),
    };
    path.append("/wlroots-bridge-lmb");
    match profile {
        Some(p) => {
            if p.as_str().unicode_len() > 0 {
                path.append("-");
                path.append(p.as_str());
            }
        },
        None => {},
    }
    path.append(".pid");
    path
}

/// The process id in a record: a number above one, white space around it aside.
pub open spec fn pid_in(record: Seq<char>) -> Option<int> {
    match text::integer_value(text::trimmed(record)) {
        Some(n) => if n > 1 {
            Some(n)
        } else {
            None
        },
        None => None,
    }
}

/// Reads the process id out of a record.
pub fn recorded_pid(record: &str) -> (r: Option<i32>)
    ensures
        match pid_in(record@) {
            Some(n) => r is Some && r->0 == n,
            None => r is None,
        },
{
    match text::parse_i32(text::trim(record)) {
        Some(n) => if n > 1 {
            Some(n)
        } else {
            None
        },
        None => None,
    }
}

/// The process id of the holder: the recorded one, where there is a readable record and
/// the process it names is `alive`.
pub fn read_pid(record: Option<String>, alive: bool) -> (r: Option<i32>)
    ensures
        match record {
            Some(s) => if alive && pid_in(s@) is Some {
                r is Some && Some(r->0 as int) == pid_in(s@)
            } else {
                r is None
            },
            None => r is None,
        },
{
    match record {
        Some(s) => if alive {
            recorded_pid(s.as_str())
        } else {
            None
        },
        None => None,
    }
}

/// The record of a process id.
pub fn pid_record(pid: u32) -> (r: String)
    ensures
        r@ == text::decimal(pid as nat),
{
    text::decimal_string(pid as u64)
}

/// A recorded process id reads back.
pub proof fn law_recorded_pid_reads_back(pid: u32)
    requires
        1 < pid <= i32::MAX,
    ensures
        pid_in(text::decimal(pid as nat)) == Some(pid as int),
{
    text::law_decimal_reads_back(pid as nat);
}

/// How far pressing or releasing the button has come.
#[derive(Clone, Copy, Debug, PartialEq, Eq)]
pub enum HolderPhase {
    /// A holder is being looked for.
    Checking,
    /// The holder has been told to end.
    Terminating,
    /// The record is being removed.
    Removing,
    /// A new process is being started.
    Forking,
    /// The record is being looked at, after this many looks.
    Polling { rounds: u32 },
    /// A pause after this many looks.
    Pausing { rounds: u32 },
    /// Nothing is left to do.
    Finished,
}

/// What has happened.
#[derive(Clone, Copy, Debug, PartialEq, Eq)]
pub enum HolderEvent {
    /// What was asked for is done.
    Done,
    /// The holder's process id, if there is a holder.
    Pid(Option<i32>),
    /// What forking returned: a negative number where it failed, zero in the new process.
    Forked(i32),
}

/// What to do next.
#[derive(Clone, Copy, Debug, PartialEq, Eq)]
pub enum HolderAction {
    /// Look for a holder.
    ReadPid,
    /// Tell a process to end. Failures are passed over.
    Terminate { pid: i32 },
    /// Remove the record. Failures are passed over.
    RemoveRecord,
    /// Start a new process.
    Fork,
    /// Wait.
    Sleep { millis: u64 },
    /// Be the holder.
    Hold,
    /// Report that the command is done.
    Report,
    /// Report that no process could be started.
    Fail,
}

impl HolderPhase {
    /// The event is an answer to what the phase asked for.
    pub open spec fn expects(self, event: HolderEvent) -> bool {
        match self {
            HolderPhase::Checking => event is Pid,
            HolderPhase::Terminating => event is Done,
            HolderPhase::Removing => event is Done,
            HolderPhase::Forking => event is Forked,
            HolderPhase::Polling { .. } => event is Pid,
            HolderPhase::Pausing { .. } => event is Done,
            HolderPhase::Finished => false,
        }
    }

    /// No more looks have been taken than are allowed.
    pub open spec fn wf(self) -> bool {
        match self {
            HolderPhase::Polling { rounds } => rounds < POLL_ROUNDS,
            HolderPhase::Pausing { rounds } => 1 <= rounds <= POLL_ROUNDS,
            _ => true,
        }
    }
}

/// Pressing the button: what follows an event. A holder that is still there is ended
/// first, then a new process is started. The new process is the holder; the old one waits
/// until the holder has recorded itself, but not for long, and reports.
pub open spec fn down_step(phase: HolderPhase, event: HolderEvent) -> (HolderPhase, HolderAction) {
    match (phase, event) {
        (HolderPhase::Checking, HolderEvent::Pid(Some(pid))) => (
            HolderPhase::Terminating,
            HolderAction::Terminate { pid },
        ),
        (HolderPhase::Checking, HolderEvent::Pid(None)) => (
            HolderPhase::Forking,
            HolderAction::Fork,
        ),
        (HolderPhase::Terminating, HolderEvent::Done) => (
            HolderPhase::Removing,
            HolderAction::RemoveRecord,
        ),
        (HolderPhase::Removing, HolderEvent::Done) => (HolderPhase::Forking, HolderAction::Fork),
        (HolderPhase::Forking, HolderEvent::Forked(n)) => if n < 0 {
            (HolderPhase::Finished, HolderAction::Fail)
        } else if n > 0 {
            (HolderPhase::Polling { rounds: 0 }, HolderAction::ReadPid)
        } else {
            (HolderPhase::Finished, HolderAction::Hold)
        },
        (HolderPhase::Polling { .. }, HolderEvent::Pid(Some(_))) => (
            HolderPhase::Finished,
            HolderAction::Report,
        ),
        (HolderPhase::Polling { rounds }, HolderEvent::Pid(None)) => (
            HolderPhase::Pausing { rounds: (rounds + 1) as u32 },
            HolderAction::Sleep { millis: POLL_MS },
        ),
        (HolderPhase::Pausing { rounds }, HolderEvent::Done) => if rounds < POLL_ROUNDS {
            (HolderPhase::Polling { rounds }, HolderAction::ReadPid)
        } else {
            (HolderPhase::Finished, HolderAction::Report)
        },
        _ => (HolderPhase::Finished, HolderAction::Report),
    }
}

/// Decides what to do next while the button is being pressed. It starts with looking for a
/// holder.
pub fn left_mouse_down(phase: HolderPhase, event: HolderEvent) -> (r: (HolderPhase, HolderAction))
    requires
        phase.wf(),
        phase.expects(event),
    ensures
        r == down_step(phase, event),
        r.0.wf(),
{
    match (phase, event) {
        (HolderPhase::Checking, HolderEvent::Pid(found)) => match found {
            Some(pid) => (HolderPhase::Terminating, HolderAction::Terminate { pid }),
            None => (HolderPhase::Forking, HolderAction::Fork),
        },
        (HolderPhase::Terminating, _) => (HolderPhase::Removing, HolderAction::RemoveRecord),
        (HolderPhase::Removing, _) => (HolderPhase::Forking, HolderAction::Fork),
        (HolderPhase::Forking, HolderEvent::Forked(n)) => {
            if n < 0 {
                (HolderPhase::Finished, HolderAction::Fail)
            } else if n > 0 {
                (HolderPhase::Polling { rounds: 0 }, HolderAction::ReadPid)
            } else {
                (HolderPhase::Finished, HolderAction::Hold)
            }
        },
        (HolderPhase::Polling { rounds }, HolderEvent::Pid(found)) => match found {
            Some(_) => (HolderPhase::Finished, HolderAction::Report),
            None => (
                HolderPhase::Pausing { rounds: rounds + 1 },
                HolderAction::Sleep { millis: POLL_MS },
            ),
        },
        (HolderPhase::Pausing { rounds }, _) => {
            if rounds < POLL_ROUNDS {
                (HolderPhase::Polling { rounds }, HolderAction::ReadPid)
            } else {
                (HolderPhase::Finished, HolderAction::Report)
            }
        },
        _ => (HolderPhase::Finished, HolderAction::Report),
    }
}

/// Releasing the button: what follows an event. A holder is told to end and given a moment
/// to do so, then its record is removed. Without a holder there is nothing to do, and that
/// is no failure.
pub open spec fn up_step(phase: HolderPhase, event: HolderEvent) -> (HolderPhase, HolderAction) {
    match (phase, event) {
        (HolderPhase::Checking, HolderEvent::Pid(Some(pid))) => (
            HolderPhase::Terminating,
            HolderAction::Terminate { pid },
        ),
        (HolderPhase::Terminating, HolderEvent::Done) => (
            HolderPhase::Polling { rounds: 0 },
            HolderAction::ReadPid,
        ),
        (HolderPhase::Polling { .. }, HolderEvent::Pid(None)) => (
            HolderPhase::Removing,
            HolderAction::RemoveRecord,
        ),
        (HolderPhase::Polling { rounds }, HolderEvent::Pid(Some(_))) => (
            HolderPhase::Pausing { rounds: (rounds + 1) as u32 },
            HolderAction::Sleep { millis: POLL_MS },
        ),
        (HolderPhase::Pausing { rounds }, HolderEvent::Done) => if rounds < POLL_ROUNDS {
            (HolderPhase::Polling { rounds }, HolderAction::ReadPid)
        } else {
            (HolderPhase::Removing, HolderAction::RemoveRecord)
        },
        _ => (HolderPhase::Finished, HolderAction::Report),
    }
}

/// Decides what to do next while the button is being released. It starts with looking for
/// a holder, and starts no process.
pub fn left_mouse_up(phase: HolderPhase, event: HolderEvent) -> (r: (HolderPhase, HolderAction))
    requires
        phase.wf(),
        !(phase is Forking),
        phase.expects(event),
    ensures
        r == up_step(phase, event),
        r.0.wf(),
        !(r.0 is Forking),
{
    match (phase, event) {
        (HolderPhase::Checking, HolderEvent::Pid(found)) => match found {
            Some(pid) => (HolderPhase::Terminating, HolderAction::Terminate { pid }),
            None => (HolderPhase::Finished, HolderAction::Report),
        },
        (HolderPhase::Terminating, _) => (
            HolderPhase::Polling { rounds: 0 },
            HolderAction::ReadPid,
        ),
        (HolderPhase::Polling { rounds }, HolderEvent::Pid(found)) => match found {
            Some(_) => (
                HolderPhase::Pausing { rounds: rounds + 1 },
                HolderAction::Sleep { millis: POLL_MS },
            ),
            None => (HolderPhase::Removing, HolderAction::RemoveRecord),
        },
        (HolderPhase::Pausing { rounds }, _) => {
            if rounds < POLL_ROUNDS {
                (HolderPhase::Polling { rounds }, HolderAction::ReadPid)
            } else {
                (HolderPhase::Removing, HolderAction::RemoveRecord)
            }
        },
        _ => (HolderPhase::Finished, HolderAction::Report),
    }
}

/// What pressing the button reports.
pub fn down_result() -> (r: ButtonStateResult)
    ensures
        r.action@ == "left-mouse-down"@,
        r.button@ == "left"@,
        r.is_held,
{
    ButtonStateResult {
        action: "left-mouse-down".to_owned(),
        button: "left".to_owned(),
        is_held: true,
    }
}

/// What releasing the button reports.
pub fn up_result() -> (r: ButtonStateResult)
    ensures
        r.action@ == "left-mouse-up"@,
        r.button@ == "left"@,
        !r.is_held,
{
    ButtonStateResult {
        action: "left-mouse-up".to_owned(),
        button: "left".to_owned(),
        is_held: false,
    }
}

/// How many more events the press may wait for.
pub open spec fn down_events_left(phase: HolderPhase) -> int {
    match phase {
        HolderPhase::Checking => 2 * POLL_ROUNDS + 4,
        HolderPhase::Terminating => 2 * POLL_ROUNDS + 3,
        HolderPhase::Removing => 2 * POLL_ROUNDS + 2,
        HolderPhase::Forking => 2 * POLL_ROUNDS + 1,
        HolderPhase::Polling { rounds } => 2 * (POLL_ROUNDS - rounds),
        HolderPhase::Pausing { rounds } => 2 * (POLL_ROUNDS - rounds) + 1,
        HolderPhase::Finished => 0,
    }
}

/// How many more events the release may wait for.
pub open spec fn up_events_left(phase: HolderPhase) -> int {
    match phase {
        HolderPhase::Checking => 2 * POLL_ROUNDS + 3,
        HolderPhase::Terminating => 2 * POLL_ROUNDS + 2,
        HolderPhase::Forking => 1,
        HolderPhase::Polling { rounds } => 2 * (POLL_ROUNDS - rounds) + 1,
        HolderPhase::Pausing { rounds } => 2 * (POLL_ROUNDS - rounds) + 2,
        HolderPhase::Removing => 1,
        HolderPhase::Finished => 0,
    }
}

/// Pressing and releasing both end, whatever happens: every event uses up one of those
/// that are left, and the last of them leaves nothing to do.
pub proof fn law_holding_ends(phase: HolderPhase, event: HolderEvent)
    requires
        phase.wf(),
        phase.expects(event),
    ensures
        down_events_left(phase) > down_events_left(down_step(phase, event).0) >= 0,
        down_events_left(phase) > 0,
        up_events_left(phase) > up_events_left(up_step(phase, event).0) >= 0,
        up_events_left(phase) > 0,
{
}

/// Releasing a button that nobody holds is done at once.
pub proof fn law_release_is_idempotent()
    ensures
        up_step(HolderPhase::Checking, HolderEvent::Pid(None)) == (
            HolderPhase::Finished,
            HolderAction::Report,
        ),
{
}

/// A press ends the holder that it finds before it starts another one.
pub proof fn law_press_replaces_the_holder(pid: i32)
    ensures
        down_step(HolderPhase::Checking, HolderEvent::Pid(Some(pid))) == (
            HolderPhase::Terminating,
            HolderAction::Terminate { pid },
        ),
        down_step(HolderPhase::Terminating, HolderEvent::Done) == (
            HolderPhase::Removing,
            HolderAction::RemoveRecord,
        ),
        down_step(HolderPhase::Removing, HolderEvent::Done) == (
            HolderPhase::Forking,
            HolderAction::Fork,
        ),
{
}

/// Only what is found to be a holder is told to end.
pub proof fn law_only_holders_are_ended(phase: HolderPhase, event: HolderEvent, pid: i32)
    requires
        down_step(phase, event).1 == (HolderAction::Terminate { pid }) || up_step(phase, event).1
            == (HolderAction::Terminate { pid }),
    ensures
        phase == HolderPhase::Checking,
        event == HolderEvent::Pid(Some(pid)),
{
}

/// What a holder does: press the button, then record itself, do the pause until it is told
/// to end, and release the button. A failure to release is passed over.
#[derive(Debug)]
pub struct HolderPlan {
    pub pointer: Pointer,
    pub press: Script,
    pub pause: Script,
    pub release: Script,
}

/// The steps that press the button and leave it down.
pub open spec fn press_steps() -> Seq<PointerStep> {
    seq![
        PointerStep::Button { code: BTN_LEFT, pressed: true },
        PointerStep::Frame,
        PointerStep::Roundtrip,
    ]
}

/// The steps that keep the connection alive.
pub open spec fn pause_steps() -> Seq<PointerStep> {
    seq![PointerStep::Flush, PointerStep::Sleep { millis: HOLD_MS }]
}

/// The steps that release the button.
pub open spec fn release_steps() -> Seq<PointerStep> {
    seq![
        PointerStep::Button { code: BTN_LEFT, pressed: false },
        PointerStep::Frame,
        PointerStep::Roundtrip,
    ]
}

/// Plans a holder. It presses the button where the pointer is.
pub fn run_holder(conn: &Conn, entries: &[OutputEntry]) -> (r: Result<HolderPlan, PointerError>)
    ensures
        match Pointer::creation(conn.globals, entries@) {
            Ok(p) => {
                &&& r matches Ok(plan)
                &&& plan.pointer == p
                &&& plan.press@ == press_steps()
                &&& plan.pause@ == pause_steps()
                &&& plan.release@ == release_steps()
            },
            Err(e) => r matches Err(e2) && e2 == e,
        },
{
    let p = match Pointer::create(conn, entries) {
        Ok(p) => p,
        Err(e) => {
            return Err(e);
        },
    };
    let mut press = Script::new();
    press.once(vec![p.button(BTN_LEFT, true), p.frame(), PointerStep::Roundtrip]);
    let mut pause = Script::new();
    pause.once(vec![PointerStep::Flush, PointerStep::Sleep { millis: HOLD_MS }]);
    let mut release = Script::new();
    release.once(vec![p.button(BTN_LEFT, false), p.frame(), PointerStep::Roundtrip]);
    proof {
        assert(press@ =~= press_steps());
        assert(pause@ =~= pause_steps());
        assert(release@ =~= release_steps());
    }
    Ok(HolderPlan { pointer: p, press, pause, release })
}

/// The button is down from the press on, through any number of pauses, until the release.
pub proof fn law_holder_holds(pauses: nat)
    ensures
        script::button_after(
            press_steps() + script::repeated(pause_steps(), pauses),
            BTN_LEFT,
            Some(false),
        ) == Some(true),
        script::button_after(
            press_steps() + script::repeated(pause_steps(), pauses) + release_steps(),
            BTN_LEFT,
            Some(false),
        ) == Some(false),
{
    let (a, b, c) = (
        press_steps(),
        script::repeated(pause_steps(), pauses),
        release_steps(),
    );
    let (up, down) = (Some(false), Some(true));
    assert(script::button_after(a, BTN_LEFT, up) == down) by {
        assert(a.drop_last().drop_last().drop_last() =~= Seq::empty());
        reveal_with_fuel(script::button_after, 4);
    }
    assert(script::button_after(pause_steps(), BTN_LEFT, down) == down) by {
        assert(pause_steps().drop_last().drop_last() =~= Seq::empty());
        reveal_with_fuel(script::button_after, 3);
    }
    assert(script::button_after(c, BTN_LEFT, down) == up) by {
        assert(c.drop_last().drop_last().drop_last() =~= Seq::empty());
        reveal_with_fuel(script::button_after, 4);
    }
    script::lemma_repeated(pause_steps(), pauses, BTN_LEFT, down);
    script::lemma_joined(a, b, BTN_LEFT, up);
    script::lemma_joined(a + b, c, BTN_LEFT, up);
}

/// When a press does what. A process is told to end exactly where it is found to hold the
/// button at first. A new process is started where none is, or once the record of the ended
/// one is gone. The new process holds the button. The old one fails where there is no new
/// one, reports once it has seen the record, and otherwise waits 10 milliseconds and looks
/// again, 50 times at most, before it reports all the same.
pub proof fn law_when_a_press_does_what(
    phase: HolderPhase,
    event: HolderEvent,
    pid: i32,
    rounds: u32,
)
    requires
        phase.wf(),
        phase.expects(event),
    ensures
        ({
            let (next, action) = down_step(phase, event);
            &&& action == (HolderAction::Terminate { pid }) <==> phase == HolderPhase::Checking
                && event == HolderEvent::Pid(Some(pid))
            &&& action == HolderAction::RemoveRecord <==> phase == HolderPhase::Terminating
            &&& action == HolderAction::Fork <==> (phase == HolderPhase::Checking && event
                == HolderEvent::Pid(None)) || phase == HolderPhase::Removing
            &&& action == HolderAction::Hold <==> event == HolderEvent::Forked(0)
            &&& action == HolderAction::Fail <==> event is Forked && event->Forked_0 < 0
            &&& action == HolderAction::Report <==> (phase is Polling && event is Pid
                && event->Pid_0 is Some) || phase == (HolderPhase::Pausing { rounds: 50 })
            &&& action == HolderAction::ReadPid <==> (event is Forked && event->Forked_0 > 0) || (
            phase is Pausing && phase->Pausing_rounds < 50)
            &&& action is Sleep <==> phase is Polling && event == HolderEvent::Pid(None)
            &&& action is Sleep ==> action->millis == 10
            &&& phase == (HolderPhase::Polling { rounds }) && action is Sleep ==> next == (
            HolderPhase::Pausing { rounds: (rounds + 1) as u32 })
            &&& phase == (HolderPhase::Pausing { rounds }) && action == HolderAction::ReadPid
                ==> next == (HolderPhase::Polling { rounds })
            &&& event is Forked && event->Forked_0 > 0 ==> next == (HolderPhase::Polling {
                rounds: 0,
            })
            &&& next == HolderPhase::Finished <==> action == HolderAction::Hold || action
                == HolderAction::Report || action == HolderAction::Fail
            &&& action is Terminate ==> next == HolderPhase::Terminating
            &&& action == HolderAction::RemoveRecord ==> next == HolderPhase::Removing
            &&& action == HolderAction::Fork ==> next == HolderPhase::Forking
        }),
{
}

/// When a release does what. A process is told to end exactly where it is found to hold the
/// button at first, and where none is found the release reports at once. Otherwise it looks
/// for the process, 50 times at most and 10 milliseconds apart, until it is gone, then removes
/// the record and reports. It starts no process and never fails.
pub proof fn law_when_a_release_does_what(
    phase: HolderPhase,
    event: HolderEvent,
    pid: i32,
    rounds: u32,
)
    requires
        phase.wf(),
        !(phase is Forking),
        phase.expects(event),
    ensures
        ({
            let (next, action) = up_step(phase, event);
            &&& action == (HolderAction::Terminate { pid }) <==> phase == HolderPhase::Checking
                && event == HolderEvent::Pid(Some(pid))
            &&& action == HolderAction::Report <==> (phase == HolderPhase::Checking && event
                == HolderEvent::Pid(None)) || phase == HolderPhase::Removing
            &&& action == HolderAction::RemoveRecord <==> (phase is Polling && event
                == HolderEvent::Pid(None)) || phase == (HolderPhase::Pausing { rounds: 50 })
            &&& action == HolderAction::ReadPid <==> phase == HolderPhase::Terminating || (
            phase is Pausing && phase->Pausing_rounds < 50)
            &&& action is Sleep <==> phase is Polling && event is Pid && event->Pid_0 is Some
            &&& action is Sleep ==> action->millis == 10
            &&& !(action is Fork || action is Hold || action is Fail)
            &&& phase == (HolderPhase::Polling { rounds }) && action is Sleep ==> next == (
            HolderPhase::Pausing { rounds: (rounds + 1) as u32 })
            &&& phase == (HolderPhase::Pausing { rounds }) && action == HolderAction::ReadPid
                ==> next == (HolderPhase::Polling { rounds })
            &&& phase == HolderPhase::Terminating ==> next == (HolderPhase::Polling { rounds: 0 })
            &&& next == HolderPhase::Finished <==> action == HolderAction::Report
            &&& action is Terminate ==> next == HolderPhase::Terminating
            &&& action == HolderAction::RemoveRecord ==> next == HolderPhase::Removing
        }),
{
}

/// What a record says: a number above one, also with white space around it, and nothing where
/// it is no number or too low.
pub proof fn law_what_records_say(n: int, record: Seq<char>)
    ensures
        pid_in(record) matches Some(pid) ==> 1 < pid <= i32::MAX,
        text::integer_value(text::trimmed(record)) == Some(n) && n > 1 ==> pid_in(record) == Some(n),
        text::integer_value(text::trimmed(record)) == Some(n) && n <= 1 ==> pid_in(record) is None,
        text::integer_value(text::trimmed(record)) is None ==> pid_in(record) is None,
{
}

/// What a holder does with its pointer: it presses the left button, keeps still in pauses of
/// 50 milliseconds, and releases the button. It moves nowhere.
pub proof fn law_holders_keep_still(i: int)
    ensures
        press_steps().len() == 3,
        press_steps()[0] == (PointerStep::Button { code: 0x110, pressed: true }),
        release_steps().len() == 3,
        release_steps()[0] == (PointerStep::Button { code: 0x110, pressed: false }),
        pause_steps().len() == 2,
        pause_steps()[1] == (PointerStep::Sleep { millis: 50 }),
        0 <= i < 3 ==> !(press_steps()[i] is Motion) && !(release_steps()[i] is Motion),
        0 < i < 3 ==> !(press_steps()[i] is Button) && !(release_steps()[i] is Button),
        0 <= i < 2 ==> !(pause_steps()[i] is Motion) && !(pause_steps()[i] is Button),
        press_steps()[1] == PointerStep::Frame && press_steps()[2] == PointerStep::Roundtrip,
        release_steps()[1] == PointerStep::Frame && release_steps()[2] == PointerStep::Roundtrip,
        pause_steps()[0] == PointerStep::Flush,
{
}

} // verus!
