//! Scripts: the requests of a virtual pointer in the order they are made.

use vstd::prelude::*;

verus! {

/// One thing to do with a virtual pointer, or with the connection it lives on.
#[derive(Clone, Copy, Debug, PartialEq, Eq)]
pub enum PointerStep {
    /// Move to a point of the space from (0, 0) to the two extents.
    Motion { x: u32, y: u32, extent_w: u32, extent_h: u32 },
    /// Press or release a button.
    Button { code: u32, pressed: bool },
    /// Scroll, downwards or to the right where `value` is positive.
    Axis { horizontal: bool, value: i32 },
    /// End a group of events.
    Frame,
    /// Send what is buffered. Failures are passed over.
    Flush,
    /// Wait.
    Sleep { millis: u64 },
    /// Wait until the compositor has processed everything. A failure ends the script.
    Roundtrip,
}

/// Steps that are done a number of times.
#[derive(Debug)]
pub struct Block {
    pub steps: Vec<PointerStep>,
    pub times: u32,
}

/// Steps to do, block by block.
#[derive(Debug)]
pub struct Script {
    pub blocks: Vec<Block>,
}

/// Steps done `times` times.
pub open spec fn repeated(steps: Seq<PointerStep>, times: nat) -> Seq<PointerStep>
    decreases times,
{
    if times == 0 {
        Seq::empty()
    } else {
        repeated(steps, (times - 1) as nat) + steps
    }
}

/// All steps of some blocks.
pub open spec fn unrolled(blocks: Seq<Block>) -> Seq<PointerStep>
    decreases blocks.len(),
{
    if blocks.len() == 0 {
        Seq::empty()
    } else {
        unrolled(blocks.drop_last()) + repeated(blocks.last().steps@, blocks.last().times as nat)
    }
}

impl View for Script {
    type V = Seq<PointerStep>;

    open spec fn view(&self) -> Seq<PointerStep> {
        unrolled(self.blocks@)
    }
}

impl Script {
    /// Nothing to do.
    pub fn new() -> (r: Script)
        ensures
            r@ == Seq::<PointerStep>::empty(),
    {
        Script { blocks: Vec::new() }
    }

    /// Adds steps that are done a number of times.
    pub fn repeat(&mut self, steps: Vec<PointerStep>, times: u32)
        ensures
            final(self)@ == old(self)@ + repeated(steps@, times as nat),
    {
        let ghost before = self.blocks@;
        self.blocks.push(Block { steps, times });
        proof {
            assert(self.blocks@.drop_last() == before);
        }
    }

    /// Adds steps that are done once.
    pub fn once(&mut self, steps: Vec<PointerStep>)
        ensures
            final(self)@ == old(self)@ + steps@,
    {
        proof {
            lemma_repeated_once(steps@);
        }
        self.repeat(steps, 1);
    }
}

proof fn lemma_repeated_once(steps: Seq<PointerStep>)
    ensures
        repeated(steps, 1) == steps,
{
    reveal_with_fuel(repeated, 2);
    assert(repeated(steps, 1) =~= steps);
}

/// Whether a button is down after some steps: `None` once it was pressed while down or
/// released while up.
pub open spec fn button_after(steps: Seq<PointerStep>, code: u32, down: Option<bool>) -> Option<
    bool,
>
    decreases steps.len(),
{
    if steps.len() == 0 {
        down
    } else {
        let before = button_after(steps.drop_last(), code, down);
        match steps.last() {
            PointerStep::Button { code: c, pressed } => if c != code {
                before
            } else if before == Some(!pressed) {
                Some(pressed)
            } else {
                None
            },
            _ => before,
        }
    }
}

/// How often a button is pressed.
pub open spec fn presses(steps: Seq<PointerStep>, code: u32) -> nat
    decreases steps.len(),
{
    if steps.len() == 0 {
        0
    } else {
        presses(steps.drop_last(), code) + (if steps.last() == (PointerStep::Button {
            code,
            pressed: true,
        }) {
            1nat
        } else {
            0
        })
    }
}

/// How far the steps scroll along an axis in all.
pub open spec fn scrolled(steps: Seq<PointerStep>, horizontal: bool) -> int
    decreases steps.len(),
{
    if steps.len() == 0 {
        0
    } else {
        scrolled(steps.drop_last(), horizontal) + match steps.last() {
            PointerStep::Axis { horizontal: h, value } => if h == horizontal {
                value as int
            } else {
                0
            },
            _ => 0,
        }
    }
}

/// Every motion stays within the extents it is given with.
pub open spec fn stays_inside(steps: Seq<PointerStep>) -> bool {
    forall|i: int|
        0 <= i < steps.len() ==> match #[trigger] steps[i] {
            PointerStep::Motion { x, y, extent_w, extent_h } => x <= extent_w && y <= extent_h,
            _ => true,
        }
}

/// What holds of steps one after the other.
pub proof fn lemma_joined(a: Seq<PointerStep>, b: Seq<PointerStep>, code: u32, down: Option<bool>)
    ensures
        button_after(a + b, code, down) == button_after(b, code, button_after(a, code, down)),
        presses(a + b, code) == presses(a, code) + presses(b, code),
        scrolled(a + b, true) == scrolled(a, true) + scrolled(b, true),
        scrolled(a + b, false) == scrolled(a, false) + scrolled(b, false),
    decreases b.len(),
{
    if b.len() == 0 {
        assert(a + b =~= a);
    } else {
        assert((a + b).drop_last() =~= a + b.drop_last());
        assert((a + b).last() == b.last());
        lemma_joined(a, b.drop_last(), code, down);
    }
}

/// What holds of repeated steps that end with the button as it was.
pub proof fn lemma_repeated(steps: Seq<PointerStep>, times: nat, code: u32, down: Option<bool>)
    requires
        button_after(steps, code, down) == down,
    ensures
        button_after(repeated(steps, times), code, down) == down,
        presses(repeated(steps, times), code) == times * presses(steps, code),
        scrolled(repeated(steps, times), true) == times * scrolled(steps, true),
        scrolled(repeated(steps, times), false) == times * scrolled(steps, false),
    decreases times,
{
    if times > 0 {
        let fewer = (times - 1) as nat;
        lemma_repeated(steps, fewer, code, down);
        lemma_joined(repeated(steps, fewer), steps, code, down);
        lemma_one_more(fewer as int, presses(steps, code) as int);
        lemma_one_more(fewer as int, scrolled(steps, true));
        lemma_one_more(fewer as int, scrolled(steps, false));
    } else {
        assert(0 * presses(steps, code) == 0) by (nonlinear_arith);
        assert(0 * scrolled(steps, true) == 0) by (nonlinear_arith);
        assert(0 * scrolled(steps, false) == 0) by (nonlinear_arith);
    }
}

proof fn lemma_one_more(n: int, k: int)
    by (nonlinear_arith)
    ensures
        (n + 1) * k == n * k + k,
{
}

/// Repeated steps stay inside where the steps do.
pub proof fn lemma_repeated_inside(steps: Seq<PointerStep>, times: nat)
    requires
        stays_inside(steps),
    ensures
        stays_inside(repeated(steps, times)),
    decreases times,
{
    if times > 0 {
        lemma_repeated_inside(steps, (times - 1) as nat);
    }
}

/// Where the pointer is after some steps: where the last motion took it, if there was one.
pub open spec fn position_after(steps: Seq<PointerStep>) -> Option<(u32, u32)>
    decreases steps.len(),
{
    if steps.len() == 0 {
        None
    } else {
        match steps.last() {
            PointerStep::Motion { x, y, .. } => Some((x, y)),
            _ => position_after(steps.drop_last()),
        }
    }
}

/// How long the steps wait in all.
pub open spec fn waited(steps: Seq<PointerStep>) -> int
    decreases steps.len(),
{
    if steps.len() == 0 {
        0
    } else {
        waited(steps.drop_last()) + match steps.last() {
            PointerStep::Sleep { millis } => millis as int,
            _ => 0,
        }
    }
}

/// The position after steps one after the other.
pub proof fn lemma_position_joined(a: Seq<PointerStep>, b: Seq<PointerStep>)
    ensures
        position_after(a + b) == (match position_after(b) {
            Some(p) => Some(p),
            None => position_after(a),
        }),
        waited(a + b) == waited(a) + waited(b),
    decreases b.len(),
{
    if b.len() == 0 {
        assert(a + b =~= a);
    } else {
        assert((a + b).drop_last() =~= a + b.drop_last());
        assert((a + b).last() == b.last());
        lemma_position_joined(a, b.drop_last());
    }
}

/// Repeated steps are the steps over and over.
pub proof fn lemma_repeated_at(steps: Seq<PointerStep>, times: nat, i: int)
    requires
        0 <= i < repeated(steps, times).len(),
    ensures
        steps.len() > 0,
        repeated(steps, times)[i] == steps[i % steps.len() as int],
    decreases times,
{
    lemma_repeated_len(steps, times);
    if times > 0 {
        let fewer = (times - 1) as nat;
        let n = steps.len() as int;
        lemma_repeated_len(steps, fewer);
        let head = repeated(steps, fewer);
        if i < head.len() {
            lemma_repeated_at(steps, fewer, i);
        } else {
            let rest = i - fewer * n;
            vstd::arithmetic::div_mod::lemma_fundamental_div_mod_converse(
                i,
                n,
                fewer as int,
                rest,
            );
        }
    }
}

/// How many steps repeated steps are.
pub proof fn lemma_repeated_len(steps: Seq<PointerStep>, times: nat)
    ensures
        repeated(steps, times).len() == times * steps.len(),
    decreases times,
{
    if times > 0 {
        lemma_repeated_len(steps, (times - 1) as nat);
        assert((times - 1) * steps.len() + steps.len() == times * steps.len()) by (nonlinear_arith);
    } else {
        assert(0 * steps.len() == 0) by (nonlinear_arith);
    }
}

/// How long repeated steps wait.
pub proof fn lemma_repeated_wait(steps: Seq<PointerStep>, times: nat)
    ensures
        waited(repeated(steps, times)) == times * waited(steps),
    decreases times,
{
    if times > 0 {
        let fewer = (times - 1) as nat;
        lemma_repeated_wait(steps, fewer);
        lemma_position_joined(repeated(steps, fewer), steps);
        lemma_one_more(fewer as int, waited(steps));
    } else {
        assert(0 * waited(steps) == 0) by (nonlinear_arith);
    }
}

/// What a script does: its blocks one after the other, each as often as it says.
pub proof fn law_scripts_go_block_by_block(script: Script, i: int)
    requires
        script.blocks@.len() > 0,
    ensures
        script@ == unrolled(script.blocks@.drop_last()) + repeated(
            script.blocks@.last().steps@,
            script.blocks@.last().times as nat,
        ),
        0 <= i < repeated(
            script.blocks@.last().steps@,
            script.blocks@.last().times as nat,
        ).len() ==> repeated(script.blocks@.last().steps@, script.blocks@.last().times as nat)[i]
            == script.blocks@.last().steps@[i % script.blocks@.last().steps@.len() as int],
        repeated(script.blocks@.last().steps@, script.blocks@.last().times as nat).len()
            == script.blocks@.last().times * script.blocks@.last().steps@.len(),
{
    let b = script.blocks@.last();
    lemma_repeated_len(b.steps@, b.times as nat);
    if 0 <= i < repeated(b.steps@, b.times as nat).len() {
        lemma_repeated_at(b.steps@, b.times as nat, i);
    }
}

} // verus!
