//! Where frames start, and where breakpoints keep them from it.
use vstd::prelude::*;

use crate::breakpoint::{hits, SpecCondition};
use crate::context::SpecContext;
use crate::engine::advance::advanced;
use crate::engine::ast::{Ast, SpecKind};
use crate::engine::cancel::{cancel_others, cancel_world, cancel_worlds, caught, failed_up};
use crate::engine::fire::fired;
use crate::engine::live::{
    advances, catches, fails, fires, first_true, gap, gaps, has_gap, joins,
    lemma_first_true_range, moves, starting, SpecLive,
};
use crate::engine::spawn::{filled, started};
use crate::engine::step::{
    bp_stepped, next_move, next_start, ran, resumes, stops_at, SpecEngine, SpecMove, MOVE_LIMIT,
};
use crate::engine::world::{others, place, told, SpecWorld};
use crate::event::{SpecCall, SpecEvent, SpecReason};
use crate::frame::{CancelReason, SpecOutcome};
use crate::ids::{successor, BreakpointId, CallFrameId, NodeId};
use crate::join::{FailPolicy, ReducerRegistry};

verus! {

/// The contexts of the frames whose start is among the events, in order.
pub open spec fn entered(es: Seq<SpecEvent>) -> Seq<SpecContext>
    decreases es.len(),
{
    if es.len() == 0 {
        Seq::empty()
    } else {
        match es.last() {
            SpecEvent::VisitPre { at } => entered(es.drop_last()).push(at),
            _ => entered(es.drop_last()),
        }
    }
}

/// Whether a sink is attached that remembers what it is told.
pub open spec fn listens(w: SpecWorld) -> bool {
    w.heard matches Some(h) && h.keeps
}

/// The contexts of the frames whose start the attached sink was told, in
/// order.
pub open spec fn visited(w: SpecWorld) -> Seq<SpecContext> {
    match w.heard {
        Some(h) => entered(h.memory),
        None => Seq::empty(),
    }
}

/// Whether a change told the start of this frame and of no other, or of none.
pub open spec fn tells_start(
    w: SpecWorld,
    w1: SpecWorld,
    at: Option<(NodeId, Seq<NodeId>)>,
) -> bool {
    listens(w) ==> listens(w1) && visited(w1) == match at {
        Some(a) => visited(w).push(place(a.0, a.1, None)),
        None => visited(w),
    }
}

proof fn lemma_told(w: SpecWorld, e: SpecEvent)
    ensures
        !(e is VisitPre) ==> tells_start(w, told(w, e), None),
        e matches SpecEvent::VisitPre { at } ==> listens(w) ==> listens(told(w, e)) && visited(
            told(w, e),
        ) == visited(w).push(at),
{
    if listens(w) {
        let memory = w.heard->Some_0.memory;
        assert(memory.push(e).drop_last() =~= memory);
        assert(visited(told(w, e)) == entered(memory.push(e)));
    }
}

proof fn lemma_start_tells<A: Ast>(ast: A, node: NodeId, path: Seq<NodeId>, w: SpecWorld)
    ensures
        tells_start(w, started(ast, node, path, w).1, Some((node, path))),
{
    let w1 = told(w, SpecEvent::VisitPre { at: place(node, path, None) });
    lemma_told(w, SpecEvent::VisitPre { at: place(node, path, None) });
    if let SpecKind::Call { label, payload } = ast.kind_spec(node) {
        let call = SpecCall { label, payload };
        let frame = CallFrameId(w1.next_frame);
        let at = place(node, path, Some(frame));
        let numbered = SpecWorld {
            next_sid: successor(w1.next_sid),
            next_frame: successor(w1.next_frame),
            ..w1
        };
        let w2 = told(numbered, SpecEvent::FrameEnter { at });
        lemma_told(numbered, SpecEvent::FrameEnter { at });
        lemma_told(w2, SpecEvent::Suspend { at, reason: SpecReason::Call { spec: call } });
    }
}

proof fn lemma_fill_tells<A: Ast>(
    ast: A,
    t: SpecLive<A::Value, A::EffectError>,
    w: SpecWorld,
)
    requires
        has_gap(t),
    ensures
        tells_start(w, filled(ast, t, w).1, Some(gap(t))),
    decreases t,
{
    match t {
        SpecLive::Steps { current: Some(c), .. } => lemma_fill_tells(ast, *c, w),
        SpecLive::Fan { path, ids, kids, .. } => {
            let i = first_true(gaps(kids));
            lemma_first_true_range(gaps(kids));
            if 0 <= i < kids.len() {
                assert(gaps(kids)[i]);
                lemma_fill_tells(ast, kids[i], w);
            } else {
                let id = ids[kids.len() as int];
                lemma_start_tells(ast, id, path.push(id), w);
            }
        },
        SpecLive::Scope { path, body_id, body, .. } => {
            match body {
                Some(b) => lemma_fill_tells(ast, *b, w),
                None => lemma_start_tells(ast, body_id, path.push(body_id), w),
            }
        },
        _ => {},
    }
}

proof fn lemma_advance_tells<A: Ast>(
    ast: A,
    t: SpecLive<A::Value, A::EffectError>,
    w: SpecWorld,
)
    requires
        advances(t),
    ensures
        tells_start(w, advanced(ast, t, w).1, starting(t)),
    decreases t,
{
    match t {
        SpecLive::Steps { node, path, ids, next, current, last } => {
            let tick = SpecEvent::IterationTick { at: place(node, path, None) };
            lemma_told(w, tick);
            lemma_told(w, SpecEvent::VisitPost { at: place(node, path, None) });
            if 0 <= next < ids.len() {
                lemma_start_tells(ast, ids[next], path.push(ids[next]), told(w, tick));
            }
            if let Some(c) = current {
                if advances(*c) {
                    lemma_advance_tells(ast, *c, w);
                }
            }
        },
        SpecLive::Fan { kids, .. } => {
            let i = first_true(moves(kids));
            lemma_first_true_range(moves(kids));
            assert(moves(kids)[i]);
            lemma_advance_tells(ast, kids[i], w);
        },
        SpecLive::Scope { node, path, body: Some(b), .. } => {
            lemma_told(w, SpecEvent::VisitPost { at: place(node, path, None) });
            if advances(*b) {
                lemma_advance_tells(ast, *b, w);
            }
        },
        SpecLive::Empty { node, path, .. } => {
            lemma_told(w, SpecEvent::VisitPost { at: place(node, path, None) });
        },
        _ => {},
    }
}

proof fn lemma_cancel_tells<V, E>(t: SpecLive<V, E>, w: SpecWorld)
    ensures
        tells_start(w, cancel_world(t, w), None),
    decreases t, 0int,
{
    match t {
        SpecLive::Pending { node, path, sid, frame, .. } => {
            let struck = SpecWorld {
                newly: others(w.newly, sid),
                cancelled: w.cancelled.push(sid),
                ..w
            };
            let gone = SpecEvent::Cancel { id: sid };
            lemma_told(struck, gone);
            lemma_told(
                told(struck, gone),
                SpecEvent::FrameLeave { at: place(node, path, Some(frame)) },
            );
        },
        SpecLive::Steps { current: Some(c), .. } => lemma_cancel_tells(*c, w),
        SpecLive::Fan { kids, .. } => lemma_cancels_tell(kids, kids.len(), w),
        SpecLive::Scope { body: Some(b), .. } => lemma_cancel_tells(*b, w),
        _ => {},
    }
}

proof fn lemma_cancels_tell<V, E>(ts: Seq<SpecLive<V, E>>, n: nat, w: SpecWorld)
    ensures
        tells_start(w, cancel_worlds(ts, n, w), None),
    decreases ts, n,
{
    if 0 < n <= ts.len() {
        lemma_cancels_tell(ts, (n - 1) as nat, w);
        lemma_cancel_tells(ts[n - 1], cancel_worlds(ts, (n - 1) as nat, w));
    }
}

proof fn lemma_fire_tells<V, D, E>(
    registry: ReducerRegistry<V, D, E>,
    t: SpecLive<V, E>,
    w: SpecWorld,
)
    ensures
        fired(registry, t, w) matches Ok(p) ==> tells_start(w, p.1, None),
    decreases t,
{
    match t {
        SpecLive::Steps { current: Some(c), .. } => lemma_fire_tells(registry, *c, w),
        SpecLive::Fan { node, path, policy, ids, kids, order, .. } => {
            let i = first_true(fires(kids));
            if joins(policy, ids, kids, order) {
                lemma_cancels_tell(kids, kids.len(), w);
                lemma_told(
                    cancel_worlds(kids, kids.len(), w),
                    SpecEvent::VisitPost { at: place(node, path, None) },
                );
            } else if 0 <= i < kids.len() {
                lemma_fire_tells(registry, kids[i], w);
            }
        },
        SpecLive::Scope { body: Some(b), .. } => lemma_fire_tells(registry, *b, w),
        _ => {},
    }
}

proof fn lemma_cancel_others_tell<V, E>(
    ts: Seq<SpecLive<V, E>>,
    keep: int,
    reason: CancelReason,
    n: nat,
    w: SpecWorld,
)
    ensures
        tells_start(w, cancel_others(ts, keep, reason, n, w).1, None),
    decreases n,
{
    if 0 < n <= ts.len() {
        lemma_cancel_others_tell(ts, keep, reason, (n - 1) as nat, w);
        lemma_cancel_tells(ts[n - 1], cancel_others(ts, keep, reason, (n - 1) as nat, w).1);
    }
}

proof fn lemma_fail_tells<V, E>(t: SpecLive<V, E>, w: SpecWorld)
    ensures
        tells_start(w, failed_up(t, w).1, None),
    decreases t,
{
    match t {
        SpecLive::Steps { current: Some(c), .. } => lemma_fail_tells(*c, w),
        SpecLive::Fan { kids, .. } => {
            let i = first_true(fails(kids));
            if 0 <= i < kids.len() {
                let (k1, w1) = failed_up(kids[i], w);
                lemma_fail_tells(kids[i], w);
                lemma_cancel_others_tell(
                    kids.update(i, k1),
                    i,
                    CancelReason::SiblingFailed,
                    kids.len(),
                    w1,
                );
            }
        },
        SpecLive::Scope { body: Some(b), .. } => lemma_fail_tells(*b, w),
        _ => {},
    }
}

proof fn lemma_catch_tells<V, E>(t: SpecLive<V, E>, w: SpecWorld)
    ensures
        tells_start(w, caught(t, w).1, None),
    decreases t,
{
    match t {
        SpecLive::Steps { current: Some(c), .. } => lemma_catch_tells(*c, w),
        SpecLive::Fan { policy, kids, .. } => {
            let i = first_true(fails(kids));
            let j = first_true(catches(kids));
            if policy.fail == FailPolicy::CollectAll && 0 <= i < kids.len() {
                let (k1, w1) = failed_up(kids[i], w);
                lemma_fail_tells(kids[i], w);
                lemma_cancel_tells(k1, w1);
            } else if 0 <= j < kids.len() {
                lemma_catch_tells(kids[j], w);
            }
        },
        SpecLive::Scope { body: Some(b), .. } => lemma_catch_tells(*b, w),
        _ => {},
    }
}

/// A sequence that cannot advance starts nothing.
proof fn lemma_no_start<V, E>(t: SpecLive<V, E>)
    requires
        !advances(t),
    ensures
        starting(t) is None,
{
    if let SpecLive::Fan { kids, .. } = t {
        lemma_first_true_range(moves(kids));
    }
}

/// The next move starts a frame exactly where [`next_start`] says: a move tells
/// the start of that frame and of no other, and where there is none to start
/// it tells no start.
pub proof fn law_the_next_start_is_what_the_next_move_starts<A: Ast>(
    ast: A,
    registry: ReducerRegistry<A::Value, A::Delta, A::EffectError>,
    root: Option<SpecLive<A::Value, A::EffectError>>,
    w: SpecWorld,
)
    ensures
        match next_move(ast, registry, root, w) {
            SpecMove::Moved(_, w1) => tells_start(w, w1, next_start(ast, root)),
            SpecMove::Failed(_, w1, _) => next_start(ast, root) is None && tells_start(w, w1, None),
            SpecMove::Stuck => next_start(ast, root) is None,
            SpecMove::Broken(_) => next_start(ast, root) is None,
        },
{
    match root {
        None => lemma_start_tells(ast, ast.root_spec(), seq![ast.root_spec()], w),
        Some(t) => {
            lemma_fail_tells(t, w);
            lemma_catch_tells(t, w);
            if has_gap(t) {
                lemma_fill_tells(ast, t, w);
            }
            lemma_fire_tells(registry, t, w);
            if advances(t) {
                lemma_advance_tells(ast, t, w);
            } else {
                lemma_no_start(t);
            }
        },
    }
}

/// Whether every frame whose start was told on the way from one world to the
/// other met no breakpoint, but for a first one that was let through.
pub open spec fn starts_unmarked(
    before: SpecWorld,
    after: SpecWorld,
    entries: Seq<(BreakpointId, SpecCondition)>,
    through: Option<(NodeId, Seq<NodeId>)>,
) -> bool {
    &&& listens(after)
    &&& visited(before).len() <= visited(after).len()
    &&& visited(after).take(visited(before).len() as int) == visited(before)
    &&& forall|i: int|
        visited(before).len() <= i < visited(after).len() ==> hits(
            entries,
            #[trigger] visited(after)[i],
        ).len() == 0 || (i == visited(before).len() && (through matches Some(a) && visited(after)[i]
            == place(a.0, a.1, None)))
    &&& through matches Some(a) ==> visited(before).len() < visited(after).len() && visited(
        after,
    )[visited(before).len() as int] == place(a.0, a.1, None)
}

proof fn lemma_run_starts<A: Ast>(
    ast: A,
    registry: ReducerRegistry<A::Value, A::Delta, A::EffectError>,
    e: SpecEngine<A::Value, A::EffectError>,
    entries: Seq<(BreakpointId, SpecCondition)>,
    skip: bool,
    fuel: nat,
)
    requires
        listens(e.world),
        skip ==> next_start(ast, e.root) is Some,
    ensures
        starts_unmarked(
            e.world,
            ran(ast, registry, e, Some(entries), skip, fuel).0.world,
            entries,
            if skip {
                next_start(ast, e.root)
            } else {
                None
            },
        ),
    decreases fuel,
{
    let seen = visited(e.world);
    law_the_next_start_is_what_the_next_move_starts(ast, registry, e.root, e.world);
    if !skip && stops_at(ast, e.root, Some(entries)) is Some {
        let at = stops_at(ast, e.root, Some(entries))->0;
        let numbered = SpecWorld {
            next_sid: successor(e.world.next_sid),
            ..e.world
        };
        lemma_told(numbered, SpecEvent::Suspend { at, reason: SpecReason::Breakpoint });
        assert(seen.take(seen.len() as int) =~= seen);
    } else {
        assert(seen.take(seen.len() as int) =~= seen);
        match next_move(ast, registry, e.root, e.world) {
            SpecMove::Moved(t, w) => {
                let e1 = SpecEngine { root: Some(t), world: w, ..e };
                let mid = visited(w);
                assert(mid.take(seen.len() as int) =~= seen);
                if fuel > 0 && !(t is Value) {
                    lemma_run_starts(ast, registry, e1, entries, false, (fuel - 1) as nat);
                    let last = ran(ast, registry, e1, Some(entries), false, (fuel - 1) as nat).0;
                    let all = visited(last.world);
                    assert(all.take(seen.len() as int) =~= all.take(mid.len() as int).take(
                        seen.len() as int,
                    ));
                    assert forall|i: int| seen.len() <= i < all.len() implies hits(
                        entries,
                        #[trigger] all[i],
                    ).len() == 0 || (i == seen.len() && skip && all[i] == mid[i]) by {
                        if i < mid.len() {
                            assert(all.take(mid.len() as int)[i] == mid[i]);
                        }
                    }
                    if skip {
                        assert(all.take(mid.len() as int)[seen.len() as int]
                            == mid[seen.len() as int]);
                    }
                }
            },
            _ => {},
        }
    }
}

/// A step with breakpoints starts no frame that meets one, but for the frame
/// it stood at, which it starts before any other.
pub proof fn law_no_marked_frame_starts_without_a_stop<A: Ast>(
    ast: A,
    registry: ReducerRegistry<A::Value, A::Delta, A::EffectError>,
    e: SpecEngine<A::Value, A::EffectError>,
    entries: Seq<(BreakpointId, SpecCondition)>,
)
    requires
        listens(e.world),
    ensures
        starts_unmarked(
            e.world,
            bp_stepped(ast, registry, e, entries).0.world,
            entries,
            if !e.done && resumes(ast, e) {
                next_start(ast, e.root)
            } else {
                None
            },
        ),
{
    let from = SpecEngine { halt: None, ..e };
    let seen = visited(e.world);
    assert(seen.take(seen.len() as int) =~= seen);
    if !e.done && !(e.root matches Some(SpecLive::Value { .. })) {
        lemma_run_starts(ast, registry, from, entries, resumes(ast, e), MOVE_LIMIT as nat);
    }
}

/// A breakpoint stops the engine before the frame it matches has started: at
/// the stop, starting that frame is the next move.
pub proof fn law_breakpoints_stop_before_the_frame_starts<A: Ast>(
    ast: A,
    registry: ReducerRegistry<A::Value, A::Delta, A::EffectError>,
    e: SpecEngine<A::Value, A::EffectError>,
    entries: Seq<(BreakpointId, SpecCondition)>,
)
    ensures
        ({
            let (e1, out) = bp_stepped(ast, registry, e, entries);
            e1.halt matches Some(mark) ==> mark.reason == SpecReason::Breakpoint && stops_at(
                ast,
                e1.root,
                Some(entries),
            ) == Some(mark.at) && next_start(ast, e1.root) == Some(
                (mark.at.node, mark.at.path),
            ) && (out matches Ok(SpecOutcome::Blocked { newly_pending }) && newly_pending.last() == mark)
                && (next_move(ast, registry, e1.root, e1.world) matches SpecMove::Moved(_, w)
                && tells_start(e1.world, w, Some((mark.at.node, mark.at.path))))
        }),
{
    let from = SpecEngine { halt: None, ..e };
    if !e.done && !(e.root matches Some(SpecLive::Value { .. })) {
        lemma_halt_is_next(
            ast,
            registry,
            from,
            entries,
            resumes(ast, e),
            MOVE_LIMIT as nat,
        );
    }
    let e1 = bp_stepped(ast, registry, e, entries).0;
    law_the_next_start_is_what_the_next_move_starts(ast, registry, e1.root, e1.world);
}

proof fn lemma_halt_is_next<A: Ast>(
    ast: A,
    registry: ReducerRegistry<A::Value, A::Delta, A::EffectError>,
    e: SpecEngine<A::Value, A::EffectError>,
    entries: Seq<(BreakpointId, SpecCondition)>,
    skip: bool,
    fuel: nat,
)
    requires
        e.halt is None,
    ensures
        ({
            let (e1, out) = ran(ast, registry, e, Some(entries), skip, fuel);
            e1.halt matches Some(mark) ==> mark.reason == SpecReason::Breakpoint && stops_at(
                ast,
                e1.root,
                Some(entries),
            ) == Some(mark.at) && (out matches Ok(SpecOutcome::Blocked { newly_pending })
                && newly_pending.last() == mark)
        }),
    decreases fuel,
{
    if let SpecMove::Moved(t, w) = next_move(ast, registry, e.root, e.world) {
        if fuel > 0 && !(t is Value) {
            let e1 = SpecEngine { root: Some(t), world: w, ..e };
            lemma_halt_is_next(ast, registry, e1, entries, false, (fuel - 1) as nat);
        }
    }
}

} // verus!
