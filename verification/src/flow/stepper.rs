//! A stepper that runs one node of a flow at a time.
use std::collections::HashMap;

use vstd::prelude::*;

use crate::breakpoint::{hits, BreakpointSet, SpecBreakpoints};
use crate::context::{NodeContext, SpecContext};
use crate::error::EngineError;
use crate::event::{
    counted_up, counting, summary_text, zero_counts, CountingSink, Event, EventSink, SpecEvent, SpecReason,
    SuspendReason,
};
use crate::flow::{flow_id, Flow};
use crate::ids::{next_number, successor, CallFrameId, Iteration, NodeId, Path};
use crate::walk::DslNode;

verus! {

/// What one step of a flow leads to.
#[derive(Debug)]
pub enum FlowOutcome {
    /// The stepper advanced and can go on.
    Advanced,
    /// The stepper waits for the host.
    Suspended {
        /// Why.
        reason: SuspendReason,
        /// Where.
        at: NodeContext,
    },
    /// The flow is finished.
    Done,
}

/// The mathematical shape of a [`FlowOutcome`].
pub enum SpecFlowOutcome {
    Advanced,
    Suspended { reason: SpecReason, at: SpecContext },
    Done,
}

impl View for FlowOutcome {
    type V = SpecFlowOutcome;

    open spec fn view(&self) -> SpecFlowOutcome {
        match self {
            FlowOutcome::Advanced => SpecFlowOutcome::Advanced,
            FlowOutcome::Suspended { reason, at } => SpecFlowOutcome::Suspended {
                reason: reason@,
                at: at@,
            },
            FlowOutcome::Done => SpecFlowOutcome::Done,
        }
    }
}

#[allow(inconsistent_fields)]
#[derive(Debug, Clone, Copy)]
enum FrameState<'a> {
    Enter,
    SeqNext { children: &'a Vec<Flow>, index: usize },
    ParNext { children: &'a Vec<Flow>, index: usize },
    ScopePending { body: &'a Flow },
    ScopeDone,
    MaybePending { body: Option<&'a Flow> },
    MaybeDone,
    CallSuspending,
    CallDone,
}

/// How far the work on a node has come.
#[allow(inconsistent_fields)]
pub enum SpecFrameState {
    /// Not looked at yet.
    Enter,
    /// Before the child at `index` of a sequence.
    SeqNext { children: Seq<Flow>, index: nat },
    /// Before the child at `index` of a fan-out.
    ParNext { children: Seq<Flow>, index: nat },
    /// Before the body of a scope.
    ScopePending { body: Flow },
    /// After the body of a scope.
    ScopeDone,
    /// Before the body of an optional section.
    MaybePending { body: Option<Flow> },
    /// After the body of an optional section.
    MaybeDone,
    /// Waiting for the host's answer.
    CallSuspending,
    /// After the host's answer.
    CallDone,
}

impl<'a> View for FrameState<'a> {
    type V = SpecFrameState;

    closed spec fn view(&self) -> SpecFrameState {
        match self {
            FrameState::Enter => SpecFrameState::Enter,
            FrameState::SeqNext { children, index } => SpecFrameState::SeqNext {
                children: children@,
                index: *index as nat,
            },
            FrameState::ParNext { children, index } => SpecFrameState::ParNext {
                children: children@,
                index: *index as nat,
            },
            FrameState::ScopePending { body } => SpecFrameState::ScopePending { body: **body },
            FrameState::ScopeDone => SpecFrameState::ScopeDone,
            FrameState::MaybePending { body: Some(body) } => SpecFrameState::MaybePending {
                body: Some(**body),
            },
            FrameState::MaybePending { body: None } => SpecFrameState::MaybePending { body: None },
            FrameState::MaybeDone => SpecFrameState::MaybeDone,
            FrameState::CallSuspending => SpecFrameState::CallSuspending,
            FrameState::CallDone => SpecFrameState::CallDone,
        }
    }
}

#[derive(Debug)]
struct Frame<'a> {
    node: &'a Flow,
    path: Path,
    state: FrameState<'a>,
    frame_id: Option<CallFrameId>,
}

/// One node on the way from the root to where the stepper stands.
pub struct SpecFlowFrame {
    pub node: Flow,
    pub path: Seq<NodeId>,
    pub state: SpecFrameState,
    pub frame_id: Option<CallFrameId>,
}

impl<'a> View for Frame<'a> {
    type V = SpecFlowFrame;

    closed spec fn view(&self) -> SpecFlowFrame {
        SpecFlowFrame {
            node: *self.node,
            path: self.path@,
            state: self.state@,
            frame_id: self.frame_id,
        }
    }
}

/// Steps through a flow one node at a time.
#[derive(Debug)]
pub struct FlowStepper<'a> {
    stack: Vec<Frame<'a>>,
    events: CountingSink,
    next_frame: u64,
    suspend_pending: bool,
    results: HashMap<u64, String>,
    /// Set by a stop at a breakpoint, so that the next step goes past it.
    breakpoint_yielded: bool,
}

/// The mathematical shape of a [`FlowStepper`].
pub struct SpecStepper {
    pub stack: Seq<SpecFlowFrame>,
    pub events: CountingSink,
    pub next_frame: u64,
    pub suspend_pending: bool,
    pub results: Map<u64, Seq<char>>,
    pub breakpoint_yielded: bool,
}

/// The texts of a table of results.
pub open spec fn texts_by_id(m: Map<u64, String>) -> Map<u64, Seq<char>> {
    Map::new(|k: u64| m.dom().contains(k), |k: u64| m[k]@)
}

impl<'a> View for FlowStepper<'a> {
    type V = SpecStepper;

    closed spec fn view(&self) -> SpecStepper {
        SpecStepper {
            stack: Seq::new(self.stack@.len(), |i: int| self.stack@[i]@),
            events: self.events,
            next_frame: self.next_frame,
            suspend_pending: self.suspend_pending,
            results: texts_by_id(self.results@),
            breakpoint_yielded: self.breakpoint_yielded,
        }
    }
}

/// A frame for a node that has not been looked at.
pub open spec fn entering(node: Flow, path: Seq<NodeId>) -> SpecFlowFrame {
    SpecFlowFrame { node, path, state: SpecFrameState::Enter, frame_id: None }
}

/// A stepper at the root of a flow.
pub open spec fn at_root(root: Flow) -> SpecStepper {
    SpecStepper {
        stack: seq![entering(root, seq![flow_id(root)])],
        events: zero_counts(),
        next_frame: 1,
        suspend_pending: false,
        results: Map::empty(),
        breakpoint_yielded: false,
    }
}

/// Where the stepper stands.
pub open spec fn standing(s: SpecStepper) -> SpecContext {
    SpecContext {
        node: flow_id(s.stack.last().node),
        path: s.stack.last().path,
        frame: s.stack.last().frame_id,
        depth: s.stack.len() as u32,
        iteration: None,
    }
}

/// The reason given when a call waits for the host.
pub open spec fn await_effect() -> SpecReason {
    SpecReason::User { tag: "await_effect"@ }
}

/// The stepper after an event.
pub open spec fn noting(s: SpecStepper, e: SpecEvent) -> SpecStepper {
    SpecStepper { events: counting(s.events, e), ..s }
}

/// The stepper with its top frame in another state.
pub open spec fn turned(s: SpecStepper, state: SpecFrameState) -> SpecStepper {
    SpecStepper {
        stack: s.stack.drop_last().push((SpecFlowFrame { state, ..s.stack.last() })),
        ..s
    }
}

/// The stepper one level further down.
pub open spec fn descended(s: SpecStepper, child: Flow) -> SpecStepper {
    SpecStepper {
        stack: s.stack.push(entering(child, s.stack.last().path.push(flow_id(child)))),
        ..s
    }
}

/// The stepper when the work on the top node is over.
pub open spec fn left(s: SpecStepper) -> SpecStepper {
    let after = noting(s, SpecEvent::VisitPost { at: standing(s) });
    SpecStepper { stack: after.stack.drop_last(), ..after }
}

/// The stepper after it looked at the top node for the first time.
pub open spec fn entered(s: SpecStepper) -> SpecStepper {
    let seen = noting(s, SpecEvent::VisitPre { at: standing(s) });
    match s.stack.last().node {
        Flow::Sequence { children, .. } => turned(
            seen,
            SpecFrameState::SeqNext { children: children@, index: 0 },
        ),
        Flow::Par { children, .. } => {
            let call = CallFrameId(s.next_frame);
            let top = SpecFlowFrame {
                frame_id: Some(call),
                state: SpecFrameState::ParNext { children: children@, index: 0 },
                ..s.stack.last()
            };
            noting(
                SpecStepper {
                    next_frame: successor(s.next_frame),
                    stack: s.stack.drop_last().push(top),
                    ..seen
                },
                SpecEvent::FrameEnter {
                    at: SpecContext { frame: Some(call), ..standing(s) },
                },
            )
        },
        Flow::Scope { body, .. } => turned(seen, SpecFrameState::ScopePending { body: *body }),
        Flow::Maybe { body: Some(body), .. } => turned(
            seen,
            SpecFrameState::MaybePending { body: Some(*body) },
        ),
        Flow::Maybe { body: None, .. } => turned(seen, SpecFrameState::MaybePending { body: None }),
        Flow::Call { .. } => noting(
            SpecStepper { suspend_pending: true, ..turned(seen, SpecFrameState::CallSuspending) },
            SpecEvent::Suspend { at: standing(s), reason: await_effect() },
        ),
    }
}

/// The stepper before the child at `index` of the top node, which is then
/// next to be looked at.
pub open spec fn ticked(s: SpecStepper, index: nat) -> SpecStepper {
    noting(
        s,
        SpecEvent::IterationTick {
            at: SpecContext { iteration: Some(Iteration((index + 1) as u64)), ..standing(s) },
        },
    )
}

/// One step: the stepper after it, and its outcome.
pub open spec fn flow_stepped(s: SpecStepper) -> (SpecStepper, SpecFlowOutcome) {
    if s.stack.len() == 0 {
        (s, SpecFlowOutcome::Done)
    } else {
        match s.stack.last().state {
            SpecFrameState::Enter => (entered(s), SpecFlowOutcome::Advanced),
            SpecFrameState::SeqNext { children, index } => if index < children.len() {
                (
                    descended(
                        turned(
                            ticked(s, index),
                            SpecFrameState::SeqNext { children, index: index + 1 },
                        ),
                        children[index as int],
                    ),
                    SpecFlowOutcome::Advanced,
                )
            } else {
                (left(s), SpecFlowOutcome::Advanced)
            },
            SpecFrameState::ParNext { children, index } => if index < children.len() {
                (
                    descended(
                        turned(
                            ticked(s, index),
                            SpecFrameState::ParNext { children, index: index + 1 },
                        ),
                        children[index as int],
                    ),
                    SpecFlowOutcome::Advanced,
                )
            } else {
                (
                    left(noting(s, SpecEvent::FrameLeave { at: standing(s) })),
                    SpecFlowOutcome::Advanced,
                )
            },
            SpecFrameState::ScopePending { body } => (
                descended(turned(s, SpecFrameState::ScopeDone), body),
                SpecFlowOutcome::Advanced,
            ),
            SpecFrameState::MaybePending { body: Some(body) } => (
                descended(turned(s, SpecFrameState::MaybeDone), body),
                SpecFlowOutcome::Advanced,
            ),
            SpecFrameState::MaybePending { body: None } => (
                turned(s, SpecFrameState::MaybeDone),
                SpecFlowOutcome::Advanced,
            ),
            SpecFrameState::CallSuspending => if s.suspend_pending {
                (
                    SpecStepper { suspend_pending: false, ..s },
                    SpecFlowOutcome::Suspended { reason: await_effect(), at: standing(s) },
                )
            } else {
                (
                    turned(
                        noting(s, SpecEvent::Resume { at: standing(s) }),
                        SpecFrameState::CallDone,
                    ),
                    SpecFlowOutcome::Advanced,
                )
            },
            SpecFrameState::ScopeDone => (left(s), SpecFlowOutcome::Advanced),
            SpecFrameState::MaybeDone => (left(s), SpecFlowOutcome::Advanced),
            SpecFrameState::CallDone => (left(s), SpecFlowOutcome::Advanced),
        }
    }
}

/// Whether a step under breakpoints stops before it starts.
pub open spec fn stops(s: SpecStepper, bps: SpecBreakpoints) -> bool {
    &&& !s.breakpoint_yielded
    &&& bps.entries.len() > 0
    &&& s.stack.len() > 0
    &&& s.stack.last().state is Enter
    &&& hits(bps.entries, standing(s)).len() > 0
}

/// One step under breakpoints.
pub open spec fn flow_bp_stepped(s: SpecStepper, bps: SpecBreakpoints) -> (
    SpecStepper,
    SpecFlowOutcome,
) {
    if stops(s, bps) {
        (
            noting(
                SpecStepper { breakpoint_yielded: true, ..s },
                SpecEvent::Suspend { at: standing(s), reason: SpecReason::Breakpoint },
            ),
            SpecFlowOutcome::Suspended { reason: SpecReason::Breakpoint, at: standing(s) },
        )
    } else {
        flow_stepped(SpecStepper { breakpoint_yielded: false, ..s })
    }
}

/// How many steps a flow takes at most.
pub open spec fn steps_of(f: Flow) -> nat
    decreases f, 0nat,
{
    match f {
        Flow::Sequence { children, .. } => 2 + steps_from(children@, children@.len()),
        Flow::Par { children, .. } => 2 + steps_from(children@, children@.len()),
        Flow::Call { .. } => 3,
        Flow::Scope { body, .. } => 3 + steps_of(*body),
        Flow::Maybe { body: Some(body), .. } => 3 + steps_of(*body),
        Flow::Maybe { body: None, .. } => 3,
    }
}

/// How many steps the last `n` children of a list take at most.
pub open spec fn steps_from(fs: Seq<Flow>, n: nat) -> nat
    decreases fs, n,
{
    if n == 0 || n > fs.len() {
        0
    } else {
        1 + steps_of(fs[fs.len() - n]) + steps_from(fs, (n - 1) as nat)
    }
}

/// How many steps a frame still takes at most.
pub open spec fn frame_steps(f: SpecFlowFrame) -> nat {
    match f.state {
        SpecFrameState::Enter => steps_of(f.node),
        SpecFrameState::SeqNext { children, index } => 1 + steps_from(
            children,
            (if index < children.len() {
                children.len() - index
            } else {
                0
            }) as nat,
        ),
        SpecFrameState::ParNext { children, index } => 1 + steps_from(
            children,
            (if index < children.len() {
                children.len() - index
            } else {
                0
            }) as nat,
        ),
        SpecFrameState::ScopePending { body } => 2 + steps_of(body),
        SpecFrameState::MaybePending { body: Some(body) } => 2 + steps_of(body),
        SpecFrameState::MaybePending { body: None } => 2,
        SpecFrameState::CallSuspending => 2,
        SpecFrameState::ScopeDone => 1,
        SpecFrameState::MaybeDone => 1,
        SpecFrameState::CallDone => 1,
    }
}

/// How many steps a stack still takes at most.
pub open spec fn stack_steps(stack: Seq<SpecFlowFrame>) -> nat
    decreases stack.len(),
{
    if stack.len() == 0 {
        0
    } else {
        stack_steps(stack.drop_last()) + frame_steps(stack.last())
    }
}

/// Every step that advances leaves less to do; one that suspends leaves as
/// much. So a flow comes to an end.
pub proof fn law_advancing_leaves_less_to_do(s: SpecStepper)
    ensures
        ({
            let (after, outcome) = flow_stepped(s);
            match outcome {
                SpecFlowOutcome::Advanced => stack_steps(after.stack) < stack_steps(s.stack),
                SpecFlowOutcome::Suspended { .. } => after.stack == s.stack,
                SpecFlowOutcome::Done => after == s && s.stack.len() == 0,
            }
        }),
{
    if s.stack.len() > 0 {
        let (after, outcome) = flow_stepped(s);
        let below = s.stack.drop_last();
        let top = s.stack.last();
        assert(stack_steps(s.stack) == stack_steps(below) + frame_steps(top));
        if after.stack.len() == s.stack.len() {
            assert(after.stack.drop_last() =~= below || after.stack == s.stack);
        } else if after.stack.len() < s.stack.len() {
            assert(after.stack =~= below);
        } else {
            assert(after.stack.drop_last().drop_last() =~= below);
            assert(stack_steps(after.stack.drop_last()) == stack_steps(below) + frame_steps(
                after.stack.drop_last().last(),
            ));
        }
    }
}

/// A step under breakpoints that advances leaves less to do.
pub(crate) proof fn lemma_bp_advancing(s: SpecStepper, bps: SpecBreakpoints)
    ensures
        flow_bp_stepped(s, bps).1 is Advanced ==> stack_steps(flow_bp_stepped(s, bps).0.stack)
            < stack_steps(s.stack),
{
    law_advancing_leaves_less_to_do(SpecStepper { breakpoint_yielded: false, ..s });
}

/// The first outcome that is no plain advance, under breakpoints.
pub open spec fn flow_yielded(s: SpecStepper, bps: SpecBreakpoints) -> (
    SpecStepper,
    SpecFlowOutcome,
)
    decreases stack_steps(s.stack),
    via flow_yielded_ends
{
    let (after, outcome) = flow_bp_stepped(s, bps);
    if outcome is Advanced {
        flow_yielded(after, bps)
    } else {
        (after, outcome)
    }
}

#[via_fn]
proof fn flow_yielded_ends(s: SpecStepper, bps: SpecBreakpoints) {
    lemma_bp_advancing(s, bps);
}

/// How many frames of a stack have been looked at.
pub open spec fn open_visits(stack: Seq<SpecFlowFrame>) -> nat
    decreases stack.len(),
{
    if stack.len() == 0 {
        0
    } else {
        open_visits(stack.drop_last()) + (if stack.last().state is Enter {
            0nat
        } else {
            1nat
        })
    }
}

/// How many frames of a stack are fan-outs under way.
pub open spec fn open_fan_outs(stack: Seq<SpecFlowFrame>) -> nat
    decreases stack.len(),
{
    if stack.len() == 0 {
        0
    } else {
        open_fan_outs(stack.drop_last()) + (if stack.last().state is ParNext {
            1nat
        } else {
            0nat
        })
    }
}

/// Whether the counters, which start over at 2^32, say as many visits and
/// frames are open as the stack holds.
pub open spec fn balanced(s: SpecStepper) -> bool {
    &&& (s.events.visit_pre - s.events.visit_post - open_visits(s.stack)) % 0x1_0000_0000 == 0
    &&& (s.events.frame_enter - s.events.frame_leave - open_fan_outs(s.stack)) % 0x1_0000_0000 == 0
}

/// What a counter and the frames it counts may change by in one step.
proof fn lemma_shift(a: int, b: int)
    requires
        a % 0x1_0000_0000 == 0,
        b == a || b == a - 0x1_0000_0000 || b == a + 0x1_0000_0000,
    ensures
        b % 0x1_0000_0000 == 0,
{
}

/// Every visit and every frame that is opened is closed once: the counters
/// balance at the start, after every step under breakpoints, and so at the
/// end, where nothing is open.
pub proof fn law_visits_and_frames_balance(root: Flow, s: SpecStepper, bps: SpecBreakpoints)
    ensures
        balanced(at_root(root)),
        balanced(s) ==> balanced(flow_bp_stepped(s, bps).0),
        balanced(s) && s.stack.len() == 0 ==> s.events.visit_pre == s.events.visit_post
            && s.events.frame_enter == s.events.frame_leave,
{
    reveal_with_fuel(open_visits, 2);
    reveal_with_fuel(open_fan_outs, 2);
    assert(at_root(root).stack.drop_last() =~= Seq::empty());
    if balanced(s) && s.stack.len() > 0 {
        let after = flow_bp_stepped(s, bps).0;
        lemma_stack_change(s, bps);
        lemma_shift(
            s.events.visit_pre - s.events.visit_post - open_visits(s.stack),
            after.events.visit_pre - after.events.visit_post - open_visits(after.stack),
        );
        lemma_shift(
            s.events.frame_enter - s.events.frame_leave - open_fan_outs(s.stack),
            after.events.frame_enter - after.events.frame_leave - open_fan_outs(after.stack),
        );
    }
}

/// How the open visits and fan-outs change with the counters in one step.
proof fn lemma_stack_change(s: SpecStepper, bps: SpecBreakpoints)
    requires
        s.stack.len() > 0,
    ensures
        ({
            let after = flow_bp_stepped(s, bps).0;
            let visits = open_visits(after.stack) - open_visits(s.stack);
            let frames = open_fan_outs(after.stack) - open_fan_outs(s.stack);
            &&& visits == 0 ==> after.events.visit_pre == s.events.visit_pre
                && after.events.visit_post == s.events.visit_post
            &&& visits > 0 ==> visits == 1 && after.events.visit_pre == counted_up(
                s.events.visit_pre,
            ) && after.events.visit_post == s.events.visit_post
            &&& visits < 0 ==> visits == -1 && after.events.visit_post == counted_up(
                s.events.visit_post,
            ) && after.events.visit_pre == s.events.visit_pre
            &&& frames == 0 ==> after.events.frame_enter == s.events.frame_enter
                && after.events.frame_leave == s.events.frame_leave
            &&& frames > 0 ==> frames == 1 && after.events.frame_enter == counted_up(
                s.events.frame_enter,
            ) && after.events.frame_leave == s.events.frame_leave
            &&& frames < 0 ==> frames == -1 && after.events.frame_leave == counted_up(
                s.events.frame_leave,
            ) && after.events.frame_enter == s.events.frame_enter
        }),
{
    let after = flow_bp_stepped(s, bps).0;
    let below = s.stack.drop_last();
    if after.stack.len() == s.stack.len() {
        assert(after.stack.drop_last() =~= below || after.stack == s.stack);
    } else if after.stack.len() < s.stack.len() {
        assert(after.stack =~= below);
    } else {
        let middle = after.stack.drop_last();
        assert(middle.drop_last() =~= below);
        assert(open_visits(after.stack) == open_visits(middle));
        assert(open_fan_outs(after.stack) == open_fan_outs(middle));
    }
}

/// A stop at a breakpoint moves nothing but the counter, and the step after
/// it is the one that was held up.
pub proof fn law_breakpoints_hold_up_one_step(s: SpecStepper, bps: SpecBreakpoints)
    requires
        stops(s, bps),
    ensures
        ({
            let held = flow_bp_stepped(s, bps).0;
            &&& held.stack == s.stack
            &&& held.results == s.results
            &&& flow_bp_stepped(held, bps).0.stack == flow_stepped(s).0.stack
            &&& flow_bp_stepped(held, bps).1 == flow_stepped(s).1
        }),
{
}

impl<'a> FlowStepper<'a> {
    /// A fresh stepper at `root`.
    pub fn new(root: &'a Flow) -> (out: Self)
        ensures
            out@ == at_root(*root),
    {
        broadcast use vstd::std_specs::hash::group_hash_axioms;

        let path = Path::root().push(root.node_id());
        assert(path@ =~= seq![flow_id(*root)]);
        let first = Frame { node: root, path, state: FrameState::Enter, frame_id: None };
        let stack: Vec<Frame<'a>> = vec![first];
        let out = FlowStepper {
            stack,
            events: CountingSink::default(),
            next_frame: 1,
            suspend_pending: false,
            results: HashMap::new(),
            breakpoint_yielded: false,
        };
        assert(out@.stack =~= at_root(*root).stack);
        assert(out@.results =~= Map::empty());
        out
    }

    fn ctx(&self) -> (out: NodeContext)
        requires
            self@.stack.len() > 0,
        ensures
            out@ == standing(self@),
    {
        let depth: usize = self.stack.len();
        let frame = &self.stack[depth - 1];
        assert(self@.stack.last() == frame@);
        NodeContext {
            node: frame.node.node_id(),
            path: frame.path.clone(),
            frame: frame.frame_id,
            depth: short(depth),
            iteration: None,
        }
    }

    fn note(&mut self, event: Event)
        ensures
            final(self)@ == noting(old(self)@, event@),
    {
        self.events.emit(&event);
        assert(self@.stack =~= old(self)@.stack);
    }

    fn turn(&mut self, state: FrameState<'a>)
        requires
            old(self)@.stack.len() > 0,
        ensures
            final(self)@ == turned(old(self)@, state@),
    {
        let ghost before = self@;
        let top: usize = self.stack.len() - 1;
        assert(before.stack.last() == self.stack@[top as int]@);
        let frame = &mut self.stack[top];
        frame.state = state;
        assert(self@.stack =~= turned(before, state@).stack);
    }

    fn descend(&mut self, child: &'a Flow)
        requires
            old(self)@.stack.len() > 0,
        ensures
            final(self)@ == descended(old(self)@, *child),
    {
        let ghost before = self@;
        let top: usize = self.stack.len() - 1;
        assert(before.stack.last() == self.stack@[top as int]@);
        let path = self.stack[top].path.push(child.node_id());
        assert(path@ == before.stack.last().path.push(flow_id(*child)));
        self.stack.push(Frame { node: child, path, state: FrameState::Enter, frame_id: None });
        assert(self@.stack =~= descended(before, *child).stack);
    }

    fn leave(&mut self)
        requires
            old(self)@.stack.len() > 0,
        ensures
            final(self)@ == left(old(self)@),
    {
        let at = self.ctx();
        self.note(Event::VisitPost { at });
        let ghost before = self@;
        self.stack.pop();
        assert(self@.stack =~= before.stack.drop_last());
    }

    fn enter(&mut self)
        requires
            old(self)@.stack.len() > 0,
        ensures
            final(self)@ == entered(old(self)@),
    {
        let ghost before = self@;
        let at = self.ctx();
        self.note(Event::VisitPre { at: at.clone() });
        let top: usize = self.stack.len() - 1;
        assert(before.stack.last() == self@.stack.last());
        assert(self@.stack.last() == self.stack@[top as int]@);
        let node = self.stack[top].node;
        match node {
            Flow::Sequence { children, .. } => {
                self.turn(FrameState::SeqNext { children, index: 0 });
            },
            Flow::Par { children, .. } => {
                let call = CallFrameId(self.next_frame);
                self.next_frame = next_number(self.next_frame);
                let frame = &mut self.stack[top];
                frame.frame_id = Some(call);
                frame.state = FrameState::ParNext { children, index: 0 };
                assert(self@.stack =~= entered(before).stack);
                self.note(Event::FrameEnter { at: NodeContext { frame: Some(call), ..at } });
            },
            Flow::Scope { body, .. } => {
                self.turn(FrameState::ScopePending { body: &**body });
            },
            Flow::Maybe { body, .. } => {
                match body {
                    Some(body) => {
                        self.turn(FrameState::MaybePending { body: Some(&**body) });
                    },
                    None => {
                        self.turn(FrameState::MaybePending { body: None });
                    },
                }
            },
            Flow::Call { .. } => {
                self.turn(FrameState::CallSuspending);
                self.suspend_pending = true;
                assert(self@.stack =~= entered(before).stack);
                self.note(
                    Event::Suspend {
                        at,
                        reason: SuspendReason::User { tag: "await_effect".to_owned() },
                    },
                );
            },
        }
    }

    fn tick(&mut self, index: usize)
        requires
            old(self)@.stack.len() > 0,
            index < usize::MAX,
        ensures
            final(self)@ == ticked(old(self)@, index as nat),
    {
        let at = self.ctx();
        let round: u64 = (index + 1) as u64;
        self.note(
            Event::IterationTick { at: NodeContext { iteration: Some(Iteration(round)), ..at } },
        );
    }

    /// Runs one step.
    pub fn step(&mut self) -> (out: Result<FlowOutcome, EngineError>)
        ensures
            out matches Ok(outcome) && (final(self)@, outcome@) == flow_stepped(old(self)@),
    {
        let ghost before = self@;
        if self.stack.len() == 0 {
            return Ok(FlowOutcome::Done);
        }
        let top: usize = self.stack.len() - 1;
        assert(before.stack.last() == self.stack@[top as int]@);
        let state = self.stack[top].state;
        match state {
            FrameState::Enter => {
                self.enter();
            },
            FrameState::SeqNext { children, index } => {
                if index < children.len() {
                    self.tick(index);
                    self.turn(FrameState::SeqNext { children, index: index + 1 });
                    self.descend(&children[index]);
                } else {
                    self.leave();
                }
            },
            FrameState::ParNext { children, index } => {
                if index < children.len() {
                    self.tick(index);
                    self.turn(FrameState::ParNext { children, index: index + 1 });
                    self.descend(&children[index]);
                } else {
                    let at = self.ctx();
                    self.note(Event::FrameLeave { at });
                    self.leave();
                }
            },
            FrameState::ScopePending { body } => {
                self.turn(FrameState::ScopeDone);
                self.descend(body);
            },
            FrameState::MaybePending { body } => {
                self.turn(FrameState::MaybeDone);
                if let Some(body) = body {
                    self.descend(body);
                }
            },
            FrameState::CallSuspending => {
                let at = self.ctx();
                if self.suspend_pending {
                    self.suspend_pending = false;
                    assert(self@.stack =~= before.stack);
                    return Ok(
                        FlowOutcome::Suspended {
                            reason: SuspendReason::User { tag: "await_effect".to_owned() },
                            at,
                        },
                    );
                }
                self.note(Event::Resume { at });
                self.turn(FrameState::CallDone);
            },
            FrameState::ScopeDone | FrameState::MaybeDone | FrameState::CallDone => {
                self.leave();
            },
        }
        Ok(FlowOutcome::Advanced)
    }

    /// Runs one step, unless a breakpoint matches a node that is about to be
    /// looked at: then the stepper stays where it is and says so, and the next
    /// call goes past the breakpoint.
    pub fn step_with_breakpoints(&mut self, breakpoints: &BreakpointSet) -> (out: Result<
        FlowOutcome,
        EngineError,
    >)
        ensures
            out matches Ok(outcome) && (final(self)@, outcome@) == flow_bp_stepped(
                old(self)@,
                breakpoints@,
            ),
    {
        let ghost before = self@;
        if self.breakpoint_yielded {
            self.breakpoint_yielded = false;
            assert(self@.stack =~= before.stack);
            return self.step();
        }
        if breakpoints.is_empty() || self.stack.len() == 0 {
            return self.step();
        }
        let top: usize = self.stack.len() - 1;
        assert(before.stack.last() == self.stack@[top as int]@);
        let fresh: bool = match self.stack[top].state {
            FrameState::Enter => true,
            _ => false,
        };
        if fresh {
            let at = self.ctx();
            if breakpoints.matches(&at).len() > 0 {
                self.breakpoint_yielded = true;
                assert(self@.stack =~= before.stack);
                self.note(Event::Suspend { at: at.clone(), reason: SuspendReason::Breakpoint });
                return Ok(FlowOutcome::Suspended { reason: SuspendReason::Breakpoint, at });
            }
        }
        self.step()
    }

    /// Steps under breakpoints until the flow suspends or is finished.
    pub fn run_to_yield_with_breakpoints(&mut self, breakpoints: &BreakpointSet) -> (out: Result<
        FlowOutcome,
        EngineError,
    >)
        ensures
            out matches Ok(outcome) && (final(self)@, outcome@) == flow_yielded(
                old(self)@,
                breakpoints@,
            ),
    {
        let ghost before = self@;
        loop
            invariant
                before == old(self)@,
                flow_yielded(before, breakpoints@) == flow_yielded(self@, breakpoints@),
            decreases stack_steps(self@.stack),
        {
            proof {
                lemma_bp_advancing(self@, breakpoints@);
            }
            match self.step_with_breakpoints(breakpoints) {
                Ok(FlowOutcome::Advanced) => {},
                other => {
                    return other;
                },
            }
        }
    }

    /// The call that the stepper is paused on, if it is.
    pub fn suspended_call(&self) -> (out: Option<(NodeId, &str)>)
        ensures
            match out {
                Some((id, label)) => self@.stack.len() > 0 && self@.stack.last().state
                    is CallSuspending && (self@.stack.last().node matches Flow::Call {
                    id: own,
                    label: text,
                } && own == id && text@ == label@),
                None => !(self@.stack.len() > 0 && self@.stack.last().state is CallSuspending
                    && self@.stack.last().node is Call),
            },
    {
        if self.stack.len() == 0 {
            return None;
        }
        let top: usize = self.stack.len() - 1;
        assert(self@.stack.last() == self.stack@[top as int]@);
        match self.stack[top].state {
            FrameState::CallSuspending => {},
            _ => {
                return None;
            },
        }
        match self.stack[top].node {
            Flow::Call { id, label } => Some((*id, label.as_str())),
            _ => None,
        }
    }

    /// Records what the host produced for a call.
    pub fn record_result(&mut self, id: NodeId, result: String)
        ensures
            final(self)@ == (SpecStepper {
                results: old(self)@.results.insert(id.0, result@),
                ..old(self)@
            }),
    {
        broadcast use vstd::std_specs::hash::group_hash_axioms;

        let ghost before = self@;
        self.results.insert(id.0, result);
        assert(self@.results =~= before.results.insert(id.0, result@));
        assert(self@.stack =~= before.stack);
    }

    /// The results recorded so far.
    pub fn results(&self) -> (out: &HashMap<u64, String>)
        ensures
            texts_by_id(out@) == self@.results,
    {
        &self.results
    }

    /// Ends the stepper and hands out the results recorded.
    pub fn into_results(self) -> (out: HashMap<u64, String>)
        ensures
            texts_by_id(out@) == self@.results,
    {
        self.results
    }

    /// A one-line summary of the events so far.
    pub fn event_summary(&self) -> (out: String)
        ensures
            out@ == summary_text(self@.events),
    {
        self.events.summarise()
    }

    /// The event counters.
    pub fn events(&self) -> (out: CountingSink)
        ensures
            out == self@.events,
    {
        self.events
    }

    /// How deep the stepper stands: none when finished, one at the root.
    pub fn depth(&self) -> (out: usize)
        ensures
            out == self@.stack.len(),
    {
        self.stack.len()
    }

    /// The path to where the stepper stands, unless it is finished.
    pub fn current_path(&self) -> (out: Option<Path>)
        ensures
            match out {
                Some(path) => self@.stack.len() > 0 && path@ == self@.stack.last().path,
                None => self@.stack.len() == 0,
            },
    {
        if self.stack.len() == 0 {
            return None;
        }
        let top: usize = self.stack.len() - 1;
        assert(self@.stack.last() == self.stack@[top as int]@);
        Some(self.stack[top].path.clone())
    }
}

#[verifier::truncate]
fn short(n: usize) -> (out: u32)
    ensures
        out == n as u32,
{
    n as u32
}

} // verus!
