//! What running a flow amounts to.
use vstd::prelude::*;

use crate::breakpoint::{holds, lemma_hits, SpecBreakpoints};
use crate::context::SpecContext;
use crate::event::{counted_up, SpecReason};
use crate::flow::stepper::{
    at_root, flow_bp_stepped, flow_stepped, law_advancing_leaves_less_to_do, stack_steps,
    SpecFlowFrame, SpecFlowOutcome, SpecFrameState, SpecStepper,
};
use crate::flow::{flow_id, Flow};
use crate::walk::{child_levels, deeper, levels, Walk};

verus! {

/// The context of the node on top of a stack.
pub open spec fn top_context(s: SpecStepper) -> SpecContext {
    SpecContext {
        node: flow_id(s.stack[s.stack.len() - 1].node),
        path: s.stack[s.stack.len() - 1].path,
        frame: s.stack[s.stack.len() - 1].frame_id,
        depth: s.stack.len() as u32,
        iteration: None,
    }
}

/// Whether a registered condition holds in a context.
pub open spec fn some_holds(bps: SpecBreakpoints, at: SpecContext) -> bool {
    exists|i: int| 0 <= i < bps.entries.len() && holds((#[trigger] bps.entries[i]).1, at)
}

/// Before a node is entered, whatever its kind, a step under breakpoints stops
/// if a registered condition holds there: it says so, and nothing moves. If
/// none holds, if the node was entered already, or if the stop was just
/// reported, it is a plain step.
pub proof fn law_breakpoints_stop_before_every_kind_of_node(
    s: SpecStepper,
    bps: SpecBreakpoints,
)
    requires
        s.stack.len() > 0,
    ensures
        ({
            let (after, outcome) = flow_bp_stepped(s, bps);
            if !s.breakpoint_yielded && s.stack[s.stack.len() - 1].state is Enter && some_holds(
                bps,
                top_context(s),
            ) {
                &&& outcome == SpecFlowOutcome::Suspended {
                    reason: SpecReason::Breakpoint,
                    at: top_context(s),
                }
                &&& after.stack == s.stack
                &&& after.results == s.results
                &&& after.breakpoint_yielded
            } else {
                (after, outcome) == flow_stepped(SpecStepper { breakpoint_yielded: false, ..s })
            }
        }),
{
    let at = top_context(s);
    assert(at == crate::flow::stepper::standing(s));
    lemma_hits(bps.entries, at);
}

/// The nodes of a flow, each before its children.
pub open spec fn nodes_of(f: Flow) -> Seq<Flow>
    decreases f.height(), f.children_spec().len() + 1,
{
    seq![f] + nodes_below(f, f.children_spec().len())
}

/// The nodes below the first `k` children of a flow, those included.
pub open spec fn nodes_below(f: Flow, k: nat) -> Seq<Flow>
    decreases f.height(), k,
    via nodes_below_decreases
{
    if k == 0 || k > f.children_spec().len() {
        Seq::empty()
    } else {
        nodes_below(f, (k - 1) as nat) + nodes_of(f.children_spec()[k - 1])
    }
}

#[via_fn]
proof fn nodes_below_decreases(f: Flow, k: nat) {
    if 0 < k <= f.children_spec().len() {
        f.children_are_lower(k - 1);
    }
}

/// The nodes of the flows from position `i` on.
pub open spec fn nodes_from(fs: Seq<Flow>, i: int) -> Seq<Flow>
    decreases fs.len() - i,
{
    if i < 0 || i >= fs.len() {
        Seq::empty()
    } else {
        nodes_of(fs[i]) + nodes_from(fs, i + 1)
    }
}

/// The nodes that a frame has yet to enter.
pub open spec fn ahead_of(f: SpecFlowFrame) -> Seq<Flow> {
    match f.state {
        SpecFrameState::Enter => nodes_of(f.node),
        SpecFrameState::SeqNext { children, index } => nodes_from(children, index as int),
        SpecFrameState::ParNext { children, index } => nodes_from(children, index as int),
        SpecFrameState::ScopePending { body } => nodes_of(body),
        SpecFrameState::MaybePending { body: Some(body) } => nodes_of(body),
        _ => Seq::empty(),
    }
}

/// The nodes that a stack has yet to enter, those of the top first.
pub open spec fn ahead(stack: Seq<SpecFlowFrame>) -> Seq<Flow>
    decreases stack.len(),
{
    if stack.len() == 0 {
        Seq::empty()
    } else {
        ahead_of(stack.last()) + ahead(stack.drop_last())
    }
}

/// How much there is to do: steps, and a call to report.
pub open spec fn to_do(s: SpecStepper) -> nat {
    2 * stack_steps(s.stack) + if s.suspend_pending {
        1nat
    } else {
        0
    }
}

proof fn lemma_to_do(s: SpecStepper)
    requires
        s.stack.len() > 0,
    ensures
        to_do(flow_stepped(s).0) < to_do(s),
{
    law_advancing_leaves_less_to_do(s);
}

/// The nodes that a run enters, in turn.
pub open spec fn entered_in_turn(s: SpecStepper) -> Seq<Flow>
    decreases to_do(s),
    via entered_in_turn_ends
{
    if s.stack.len() == 0 {
        Seq::empty()
    } else {
        let rest = entered_in_turn(flow_stepped(s).0);
        if s.stack.last().state is Enter {
            seq![s.stack.last().node] + rest
        } else {
            rest
        }
    }
}

#[via_fn]
proof fn entered_in_turn_ends(s: SpecStepper) {
    if s.stack.len() > 0 {
        lemma_to_do(s);
    }
}

/// The calls that a run reports to the host, in turn.
pub open spec fn asked_in_turn(s: SpecStepper) -> Seq<Flow>
    decreases to_do(s),
    via asked_in_turn_ends
{
    if s.stack.len() == 0 {
        Seq::empty()
    } else {
        let (after, outcome) = flow_stepped(s);
        if outcome is Suspended {
            seq![s.stack.last().node] + asked_in_turn(after)
        } else {
            asked_in_turn(after)
        }
    }
}

#[via_fn]
proof fn asked_in_turn_ends(s: SpecStepper) {
    if s.stack.len() > 0 {
        lemma_to_do(s);
    }
}

/// The nodes of a sequence or fan-out are those of its children in order.
proof fn lemma_below_is_from(f: Flow, fs: Seq<Flow>, k: nat)
    requires
        fs == f.children_spec(),
        k <= fs.len(),
    ensures
        nodes_below(f, fs.len()) == nodes_below(f, k) + nodes_from(fs, k as int),
    decreases fs.len() - k,
{
    if k < fs.len() {
        f.children_are_lower(k as int);
        lemma_below_is_from(f, fs, k + 1);
        assert(nodes_below(f, k + 1) == nodes_below(f, k) + nodes_of(fs[k as int]));
        assert(nodes_below(f, k) + nodes_from(fs, k as int) =~= nodes_below(f, k + 1) + nodes_from(
            fs,
            k as int + 1,
        ));
    } else {
        assert(nodes_below(f, k) + nodes_from(fs, k as int) =~= nodes_below(f, k));
    }
}

/// The nodes of a flow are the flow itself and those of its parts.
proof fn lemma_nodes_of(f: Flow)
    ensures
        nodes_of(f) == seq![f] + match f {
            Flow::Sequence { children, .. } => nodes_from(children@, 0),
            Flow::Par { children, .. } => nodes_from(children@, 0),
            Flow::Call { .. } => Seq::empty(),
            Flow::Scope { body, .. } => nodes_of(*body),
            Flow::Maybe { body: Some(body), .. } => nodes_of(*body),
            Flow::Maybe { body: None, .. } => Seq::empty(),
        },
{
    let fs = f.children_spec();
    lemma_below_is_from(f, fs, 0);
    assert(nodes_below(f, 0) + nodes_from(fs, 0) =~= nodes_from(fs, 0));
    if fs.len() == 1 {
        assert(nodes_from(fs, 1) =~= Seq::empty());
        assert(nodes_from(fs, 0) =~= nodes_of(fs[0]));
    }
}

/// What one step does to what is ahead.
proof fn lemma_step_ahead(s: SpecStepper)
    requires
        s.stack.len() > 0,
    ensures
        ahead(s.stack) == (if s.stack.last().state is Enter {
            seq![s.stack.last().node]
        } else {
            Seq::empty()
        }) + ahead(flow_stepped(s).0.stack),
{
    let after = flow_stepped(s).0.stack;
    let top = s.stack.last();
    let below = s.stack.drop_last();
    lemma_nodes_of(top.node);
    if after.len() == s.stack.len() {
        assert(after.drop_last() =~= below || after == s.stack);
        if top.state is Enter {
            assert(ahead_of(top) =~= seq![top.node] + ahead_of(after.last()));
            assert(ahead(s.stack) =~= seq![top.node] + ahead(after));
        } else {
            assert(ahead(s.stack) =~= Seq::<Flow>::empty() + ahead(after));
        }
    } else if after.len() < s.stack.len() {
        assert(after =~= below);
        assert(ahead(s.stack) =~= Seq::<Flow>::empty() + ahead(after));
    } else {
        let middle = after.drop_last();
        assert(middle.drop_last() =~= below);
        assert(ahead(middle) == ahead_of(middle.last()) + ahead(below));
        assert(ahead_of(top) =~= ahead_of(after.last()) + ahead_of(middle.last()));
        assert(ahead(s.stack) =~= Seq::<Flow>::empty() + ahead(after));
    }
}

proof fn lemma_entered(s: SpecStepper)
    ensures
        entered_in_turn(s) == ahead(s.stack),
    decreases to_do(s),
{
    if s.stack.len() > 0 {
        lemma_to_do(s);
        lemma_step_ahead(s);
        lemma_entered(flow_stepped(s).0);
        assert(entered_in_turn(s) =~= ahead(s.stack));
    }
}

proof fn lemma_listed(f: Flow, d: usize)
    ensures
        nodes_of(f) == levels(f, d).map_values(|p: (Flow, usize)| p.0),
    decreases f.height(), f.children_spec().len() + 1,
{
    let k = f.children_spec().len();
    lemma_listed_below(f, deeper(d), k);
    assert(nodes_of(f) =~= levels(f, d).map_values(|p: (Flow, usize)| p.0));
}

proof fn lemma_listed_below(f: Flow, d: usize, k: nat)
    ensures
        nodes_below(f, k) == child_levels(f, d, k).map_values(|p: (Flow, usize)| p.0),
    decreases f.height(), k,
{
    if 0 < k <= f.children_spec().len() {
        f.children_are_lower(k - 1);
        lemma_listed_below(f, d, (k - 1) as nat);
        lemma_listed(f.children_spec()[k - 1], d);
        assert(nodes_below(f, k) =~= child_levels(f, d, k).map_values(
            |p: (Flow, usize)| p.0,
        ));
    } else {
        assert(nodes_below(f, k) =~= child_levels(f, d, k).map_values(
            |p: (Flow, usize)| p.0,
        ));
    }
}

/// A run enters every node of its flow once, each before its children and
/// these in order: the order in which the flow is listed.
pub proof fn law_a_run_enters_every_node_in_order(root: Flow)
    ensures
        entered_in_turn(at_root(root)) == levels(root, 0).map_values(|p: (Flow, usize)| p.0),
{
    lemma_entered(at_root(root));
    lemma_listed(root, 0);
    let stack = at_root(root).stack;
    assert(stack.drop_last() =~= Seq::empty());
    assert(ahead(stack.drop_last()) =~= Seq::empty());
    assert(ahead(stack) =~= nodes_of(root));
}

/// The calls among nodes.
pub open spec fn calls_among(fs: Seq<Flow>) -> Seq<Flow>
    decreases fs.len(),
{
    if fs.len() == 0 {
        Seq::empty()
    } else if fs.last() is Call {
        calls_among(fs.drop_last()).push(fs.last())
    } else {
        calls_among(fs.drop_last())
    }
}

proof fn lemma_calls_sum(a: Seq<Flow>, b: Seq<Flow>)
    ensures
        calls_among(a + b) == calls_among(a) + calls_among(b),
    decreases b.len(),
{
    if b.len() == 0 {
        assert(a + b =~= a);
        assert(calls_among(a) + calls_among(b) =~= calls_among(a));
    } else {
        assert((a + b).drop_last() =~= a + b.drop_last());
        lemma_calls_sum(a, b.drop_last());
        assert(calls_among(a + b) =~= calls_among(a) + calls_among(b));
    }
}

/// Whether a call is to be reported only where one is being entered.
pub open spec fn reports_in_order(s: SpecStepper) -> bool {
    &&& s.suspend_pending ==> s.stack.len() > 0 && s.stack.last().state is CallSuspending
    &&& forall|i: int|
        0 <= i < s.stack.len() && (#[trigger] s.stack[i]).state is CallSuspending ==> i
            == s.stack.len() - 1
    &&& forall|i: int|
        0 <= i < s.stack.len() && (#[trigger] s.stack[i]).state is CallDone ==> i == s.stack.len()
            - 1
}

proof fn lemma_step_reports(s: SpecStepper)
    requires
        s.stack.len() > 0,
        reports_in_order(s),
    ensures
        reports_in_order(flow_stepped(s).0),
{
    let after = flow_stepped(s).0;
    let below = s.stack.drop_last();
    assert forall|i: int| 0 <= i < below.len() implies !((#[trigger] below[i]).state
        is CallSuspending) && !(below[i].state is CallDone) by {
        assert(below[i] == s.stack[i]);
    }
    if after.stack.len() == s.stack.len() {
        assert(after.stack.drop_last() =~= below || after.stack == s.stack);
        assert forall|i: int| 0 <= i < after.stack.len() - 1 implies !((
        #[trigger] after.stack[i]).state is CallSuspending) && !(after.stack[i].state
            is CallDone) by {
            assert(after.stack[i] == after.stack.drop_last()[i]);
        }
    } else if after.stack.len() < s.stack.len() {
        assert(after.stack =~= below);
    } else {
        let middle = after.stack.drop_last();
        assert(middle.drop_last() =~= below);
        assert forall|i: int| 0 <= i < after.stack.len() implies !((#[trigger] after.stack[i]).state
            is CallSuspending) && !(after.stack[i].state is CallDone) by {
            if i < below.len() {
                assert(after.stack[i] == middle.drop_last()[i]);
            }
        }
    }
}

proof fn lemma_asked(s: SpecStepper)
    requires
        reports_in_order(s),
    ensures
        asked_in_turn(s) == (if s.suspend_pending {
            seq![s.stack.last().node]
        } else {
            Seq::empty()
        }) + calls_among(ahead(s.stack)),
    decreases to_do(s),
{
    if s.stack.len() > 0 {
        let (after, outcome) = flow_stepped(s);
        let top = s.stack.last();
        lemma_to_do(s);
        lemma_step_ahead(s);
        lemma_step_reports(s);
        lemma_asked(after);
        let now = if top.state is Enter {
            seq![top.node]
        } else {
            Seq::empty()
        };
        lemma_calls_sum(now, ahead(after.stack));
        reveal_with_fuel(calls_among, 2);
        assert(now.len() == 1 ==> now.drop_last() =~= Seq::empty());
        if top.state is Enter {
            assert(!s.suspend_pending);
            if top.node is Call {
                assert(calls_among(now) =~= seq![top.node]);
                assert(after.stack.last().node == top.node);
            } else {
                assert(calls_among(now) =~= Seq::empty());
                assert(!after.suspend_pending);
            }
            assert(asked_in_turn(s) =~= calls_among(ahead(s.stack)));
        } else {
            assert(calls_among(now) =~= Seq::empty());
            assert(asked_in_turn(s) =~= (if s.suspend_pending {
                seq![s.stack.last().node]
            } else {
                Seq::empty()
            }) + calls_among(ahead(s.stack)));
        }
    } else {
        assert(asked_in_turn(s) =~= Seq::<Flow>::empty() + calls_among(ahead(s.stack)));
    }
}

/// A run reports every call of its flow to the host once, and nothing else, in
/// the order in which the flow lists them.
pub proof fn law_a_run_asks_for_every_call_in_order(root: Flow)
    ensures
        asked_in_turn(at_root(root)) == calls_among(
            levels(root, 0).map_values(|p: (Flow, usize)| p.0),
        ),
{
    lemma_asked(at_root(root));
    lemma_listed(root, 0);
    let stack = at_root(root).stack;
    assert(stack.drop_last() =~= Seq::empty());
    assert(ahead(stack.drop_last()) =~= Seq::empty());
    assert(ahead(stack) =~= nodes_of(root));
    assert(asked_in_turn(at_root(root)) =~= calls_among(nodes_of(root)));
}

/// Whether the path of every frame is the identities from the root down to it.
pub open spec fn paths_lead_down(s: SpecStepper) -> bool {
    forall|i: int|
        0 <= i < s.stack.len() ==> (#[trigger] s.stack[i]).path.len() == i + 1 && forall|j: int|
            0 <= j <= i ==> s.stack[i].path[j] == flow_id(#[trigger] s.stack[j].node)
}

/// Wherever a run stands, the path it gives is the identities of the nodes from
/// the root down to there, and its depth is how many they are.
pub proof fn law_paths_lead_from_the_root(root: Flow, s: SpecStepper, bps: SpecBreakpoints)
    ensures
        paths_lead_down(at_root(root)),
        paths_lead_down(s) ==> paths_lead_down(flow_bp_stepped(s, bps).0),
        paths_lead_down(s) ==> (flow_bp_stepped(s, bps).1 matches SpecFlowOutcome::Suspended {
            at,
            ..
        } ==> at.node == flow_id(s.stack.last().node) && at.path == s.stack.last().path && at.depth
            == at.path.len() as u32),
{
    let after = flow_bp_stepped(s, bps).0;
    if paths_lead_down(s) && s.stack.len() > 0 {
        let below = s.stack.drop_last();
        assert forall|i: int| 0 <= i < after.stack.len() implies (
        #[trigger] after.stack[i]).path.len() == i + 1 && forall|j: int|
            0 <= j <= i ==> after.stack[i].path[j] == flow_id(#[trigger] after.stack[j].node) by {
            if i < s.stack.len() {
                assert(after.stack[i].path == s.stack[i].path);
                assert(s.stack[i].path.len() == i + 1);
                assert forall|j: int| 0 <= j <= i implies after.stack[i].path[j] == flow_id(
                    #[trigger] after.stack[j].node,
                ) by {
                    assert(after.stack[j].node == s.stack[j].node);
                    assert(s.stack[i].path[j] == flow_id(s.stack[j].node));
                }
            } else {
                let top = s.stack[s.stack.len() - 1];
                assert(after.stack[i].path == top.path.push(flow_id(after.stack[i].node)));
                assert(top.path.len() == i);
                assert forall|j: int| 0 <= j <= i implies after.stack[i].path[j] == flow_id(
                    #[trigger] after.stack[j].node,
                ) by {
                    if j < i {
                        assert(after.stack[j].node == s.stack[j].node);
                        assert(top.path[j] == flow_id(s.stack[j].node));
                    }
                }
            }
        }
        assert(s.stack[s.stack.len() - 1].path.len() == s.stack.len());
    }
}

/// What a step counts: a visit when it enters a node and when it leaves one, a
/// tick before each child of a sequence or fan-out, a frame around a fan-out,
/// and a suspension and a resumption for each call.
pub proof fn law_steps_are_counted(s: SpecStepper)
    requires
        s.stack.len() > 0,
    ensures
        ({
            let (after, outcome) = flow_stepped(s);
            let (old_, new_) = (s.events, after.events);
            let top = s.stack.last();
            let grows = after.stack.len() > s.stack.len();
            let shrinks = after.stack.len() < s.stack.len();
            &&& new_.visit_pre == if top.state is Enter {
                counted_up(old_.visit_pre)
            } else {
                old_.visit_pre
            }
            &&& new_.visit_post == if shrinks {
                counted_up(old_.visit_post)
            } else {
                old_.visit_post
            }
            &&& new_.iteration_tick == if grows && (top.state is SeqNext || top.state is ParNext) {
                counted_up(old_.iteration_tick)
            } else {
                old_.iteration_tick
            }
            &&& new_.frame_enter == if top.state is Enter && top.node is Par {
                counted_up(old_.frame_enter)
            } else {
                old_.frame_enter
            }
            &&& new_.frame_leave == if shrinks && top.state is ParNext {
                counted_up(old_.frame_leave)
            } else {
                old_.frame_leave
            }
            &&& new_.suspend == if top.state is Enter && top.node is Call {
                counted_up(old_.suspend)
            } else {
                old_.suspend
            }
            &&& new_.resume == if top.state is CallSuspending && !s.suspend_pending {
                counted_up(old_.resume)
            } else {
                old_.resume
            }
        }),
{
}

} // verus!
