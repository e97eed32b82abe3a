//! Frames follow the tree: where they stand and what they announce.
use vstd::prelude::*;

use crate::breakpoint::SpecCondition;
use crate::context::SpecContext;
use crate::engine::advance::{advanced, produced};
use crate::engine::ast::{Ast, SpecKind};
use crate::engine::cancel::{cancel_others, cancelled, caught, dropped, failed_up};
use crate::engine::fire::fired;
use crate::engine::live::{
    advances, catches, failing, fails, fires, first_true, gaps, has_gap, joins, lemma_first_true,
    lemma_first_true_range, moves, node_of, waits, SpecLive,
};
use crate::engine::settle::{answered, settled};
use crate::engine::spawn::{filled, started};
use crate::engine::step::{
    active_path, fresh_engine, live_pending, next_move, ran, resolved, stepped, SpecEngine, SpecMove,
};
use crate::engine::world::SpecWorld;
use crate::event::{SpecCall, SpecEvent, SpecReason};
use crate::frame::CancelReason;
use crate::ids::{BreakpointId, CallFrameId, NodeId, SuspensionId};
use crate::join::ReducerRegistry;

verus! {

/// Whether a frame is that of a node of a tree, at a path from the root, and
/// everything below it is that of the node's children, at theirs.
pub open spec fn follows<A: Ast>(
    ast: A,
    t: SpecLive<A::Value, A::EffectError>,
    path: Seq<NodeId>,
) -> bool
    decreases t,
{
    path.len() > 0 && path.last() == node_of(t) && match t {
        SpecLive::Steps { node, path: own, ids, next, current, .. } => {
            &&& own == path
            &&& ast.kind_spec(node) == SpecKind::Sequence { children: ids }
            &&& match current {
                Some(c) => 1 <= next <= ids.len() && node_of(*c) == ids[next - 1] && follows(
                    ast,
                    *c,
                    path.push(ids[next - 1]),
                ),
                None => next == 0,
            }
        },
        SpecLive::Fan { node, path: own, policy, reducer, ids, kids, .. } => {
            &&& own == path
            &&& ast.kind_spec(node) == SpecKind::Par {
                children: ids,
                policy,
                reducer_id: reducer,
            }
            &&& kids.len() <= ids.len()
            &&& forall|i: int|
                0 <= i < kids.len() ==> node_of(#[trigger] kids[i]) == ids[i] && follows(
                    ast,
                    kids[i],
                    path.push(ids[i]),
                )
        },
        SpecLive::Scope { node, path: own, label, body_id, body } => {
            &&& own == path
            &&& ast.kind_spec(node) == SpecKind::Scope { label, body: body_id } || ast.kind_spec(
                node,
            ) == SpecKind::Maybe { body: Some(body_id) }
            &&& body matches Some(b) ==> node_of(*b) == body_id && follows(
                ast,
                *b,
                path.push(body_id),
            )
        },
        SpecLive::Empty { node, path: own, .. } => own == path && ast.kind_spec(node)
            == SpecKind::Maybe { body: None },
        SpecLive::Pending { node, path: own, call, .. } => own == path && ast.kind_spec(node)
            == SpecKind::Call { label: call.label, payload: call.payload },
        SpecLive::Failed { node, path: own, .. } => own == path && ast.kind_spec(node) is Call,
        SpecLive::Value { .. } => true,
        SpecLive::Cancelled { .. } => true,
    }
}

proof fn lemma_started_follows<A: Ast>(ast: A, id: NodeId, path: Seq<NodeId>, w: SpecWorld)
    requires
        path.len() > 0,
        path.last() == id,
    ensures
        follows(ast, started(ast, id, path, w).0, path),
        node_of(started(ast, id, path, w).0) == id,
{
}

proof fn lemma_one_kid<A: Ast>(
    ast: A,
    t: SpecLive<A::Value, A::EffectError>,
    u: SpecLive<A::Value, A::EffectError>,
    path: Seq<NodeId>,
    i: int,
)
    requires
        follows(ast, t, path),
        t matches SpecLive::Fan { node, path: own, policy, reducer, ids, kids, .. } && (
        u matches SpecLive::Fan {
            node: n,
            path: p,
            policy: pol,
            reducer: r,
            ids: is,
            kids: ks,
            ..
        } && n == node && p == own && pol == policy && r == reducer && is == ids && 0 <= i
            < kids.len() && ks.len() == kids.len() && node_of(ks[i]) == ids[i] && follows(
            ast,
            ks[i],
            path.push(ids[i]),
        ) && forall|j: int|
            0 <= j < kids.len() && j != i ==> (#[trigger] ks[j] == kids[j] || (node_of(ks[j])
                == node_of(kids[j]) && ks[j] is Cancelled))),
    ensures
        follows(ast, u, path),
{
    let kids = t->kids;
    let ks = u->kids;
    let ids = t->Fan_ids;
    assert forall|j: int| 0 <= j < ks.len() implies node_of(#[trigger] ks[j]) == ids[j] && follows(
        ast,
        ks[j],
        path.push(ids[j]),
    ) by {
        assert(node_of(kids[j]) == ids[j] && follows(ast, kids[j], path.push(ids[j])));
    }
}

proof fn lemma_filled_follows<A: Ast>(
    ast: A,
    t: SpecLive<A::Value, A::EffectError>,
    path: Seq<NodeId>,
    w: SpecWorld,
)
    requires
        follows(ast, t, path),
        has_gap(t),
    ensures
        follows(ast, filled(ast, t, w).0, path),
        node_of(filled(ast, t, w).0) == node_of(t),
    decreases t,
{
    match t {
        SpecLive::Steps { ids, next, current: Some(c), .. } => {
            lemma_filled_follows(ast, *c, path.push(ids[next - 1]), w);
        },
        SpecLive::Fan { node, ids, kids, .. } => {
            let i = first_true(gaps(kids));
            lemma_first_true_range(gaps(kids));
            if 0 <= i < kids.len() {
                assert(node_of(kids[i]) == ids[i] && follows(ast, kids[i], path.push(ids[i])));
                lemma_filled_follows(ast, kids[i], path.push(ids[i]), w);
                lemma_one_kid(ast, t, filled(ast, t, w).0, path, i);
            } else {
                let id = ids[kids.len() as int];
                lemma_started_follows(ast, id, path.push(id), w);
                let u = filled(ast, t, w).0;
                let ks = u->kids;
                assert forall|j: int| 0 <= j < ks.len() implies node_of(#[trigger] ks[j]) == ids[j]
                    && follows(ast, ks[j], path.push(ids[j])) by {
                    if j < kids.len() {
                        assert(ks[j] == kids[j]);
                    }
                }
            }
        },
        SpecLive::Scope { body_id, body: Some(b), .. } => {
            lemma_filled_follows(ast, *b, path.push(body_id), w);
        },
        SpecLive::Scope { body_id, body: None, .. } => {
            lemma_started_follows(ast, body_id, path.push(body_id), w);
        },
        _ => {},
    }
}

proof fn lemma_advanced_follows<A: Ast>(
    ast: A,
    t: SpecLive<A::Value, A::EffectError>,
    path: Seq<NodeId>,
    w: SpecWorld,
)
    requires
        follows(ast, t, path),
    ensures
        follows(ast, advanced(ast, t, w).0, path),
        node_of(advanced(ast, t, w).0) == node_of(t),
    decreases t,
{
    match t {
        SpecLive::Steps { node, ids, next, current, .. } => {
            if 0 <= next < ids.len() {
                let told_world = crate::engine::world::told(
                    w,
                    SpecEvent::IterationTick {
                        at: crate::engine::world::place(node, path, None),
                    },
                );
                lemma_started_follows(ast, ids[next], path.push(ids[next]), told_world);
            }
            if let Some(c) = current {
                if advances(*c) {
                    lemma_advanced_follows(ast, *c, path.push(ids[next - 1]), w);
                }
            }
        },
        SpecLive::Fan { ids, kids, .. } => {
            let i = first_true(moves(kids));
            if 0 <= i < kids.len() {
                assert(node_of(kids[i]) == ids[i] && follows(ast, kids[i], path.push(ids[i])));
                lemma_advanced_follows(ast, kids[i], path.push(ids[i]), w);
                lemma_one_kid(ast, t, advanced(ast, t, w).0, path, i);
            }
        },
        SpecLive::Scope { body_id, body: Some(b), .. } => {
            if advances(*b) {
                lemma_advanced_follows(ast, *b, path.push(body_id), w);
            }
        },
        _ => {},
    }
}

proof fn lemma_cancelled_others<V, E>(
    ts: Seq<SpecLive<V, E>>,
    keep: int,
    reason: CancelReason,
    n: nat,
    w: SpecWorld,
)
    requires
        n <= ts.len(),
    ensures
        cancel_others(ts, keep, reason, n, w).0.len() == ts.len(),
        forall|j: int|
            0 <= j < ts.len() ==> #[trigger] cancel_others(ts, keep, reason, n, w).0[j] == (if j
                < n && j != keep {
                cancelled(ts[j], reason)
            } else {
                ts[j]
            }),
    decreases n,
{
    if n > 0 {
        lemma_cancelled_others(ts, keep, reason, (n - 1) as nat, w);
    }
}

proof fn lemma_failed_follows<A: Ast>(
    ast: A,
    t: SpecLive<A::Value, A::EffectError>,
    path: Seq<NodeId>,
    w: SpecWorld,
)
    requires
        follows(ast, t, path),
    ensures
        follows(ast, failed_up(t, w).0, path),
        node_of(failed_up(t, w).0) == node_of(t),
    decreases t,
{
    match t {
        SpecLive::Steps { ids, next, current: Some(c), .. } => {
            lemma_failed_follows(ast, *c, path.push(ids[next - 1]), w);
        },
        SpecLive::Fan { ids, kids, .. } => {
            let i = first_true(fails(kids));
            if 0 <= i < kids.len() {
                assert(node_of(kids[i]) == ids[i] && follows(ast, kids[i], path.push(ids[i])));
                lemma_failed_follows(ast, kids[i], path.push(ids[i]), w);
                let (k1, w1) = failed_up(kids[i], w);
                lemma_cancelled_others(
                    kids.update(i, k1),
                    i,
                    CancelReason::SiblingFailed,
                    kids.len(),
                    w1,
                );
                lemma_one_kid(ast, t, failed_up(t, w).0, path, i);
            }
        },
        SpecLive::Scope { body_id, body: Some(b), .. } => {
            lemma_failed_follows(ast, *b, path.push(body_id), w);
        },
        _ => {},
    }
}

proof fn lemma_caught_follows<A: Ast>(
    ast: A,
    t: SpecLive<A::Value, A::EffectError>,
    path: Seq<NodeId>,
    w: SpecWorld,
)
    requires
        follows(ast, t, path),
    ensures
        follows(ast, caught(t, w).0, path),
        node_of(caught(t, w).0) == node_of(t),
    decreases t,
{
    match t {
        SpecLive::Steps { ids, next, current: Some(c), .. } => {
            lemma_caught_follows(ast, *c, path.push(ids[next - 1]), w);
        },
        SpecLive::Fan { policy, ids, kids, .. } => {
            let i = first_true(fails(kids));
            let j = first_true(catches(kids));
            if policy.fail == crate::join::FailPolicy::CollectAll && 0 <= i < kids.len() {
                assert(node_of(kids[i]) == ids[i]);
                lemma_one_kid(ast, t, caught(t, w).0, path, i);
            } else if 0 <= j < kids.len() {
                assert(node_of(kids[j]) == ids[j] && follows(ast, kids[j], path.push(ids[j])));
                lemma_caught_follows(ast, kids[j], path.push(ids[j]), w);
                lemma_one_kid(ast, t, caught(t, w).0, path, j);
            }
        },
        SpecLive::Scope { body_id, body: Some(b), .. } => {
            lemma_caught_follows(ast, *b, path.push(body_id), w);
        },
        _ => {},
    }
}

proof fn lemma_fired_follows<A: Ast>(
    ast: A,
    registry: ReducerRegistry<A::Value, A::Delta, A::EffectError>,
    t: SpecLive<A::Value, A::EffectError>,
    path: Seq<NodeId>,
    w: SpecWorld,
)
    requires
        follows(ast, t, path),
    ensures
        fired(registry, t, w) matches Ok(r) ==> follows(ast, r.0, path) && node_of(r.0)
            == node_of(t),
    decreases t,
{
    match t {
        SpecLive::Steps { ids, next, current: Some(c), .. } => {
            lemma_fired_follows(ast, registry, *c, path.push(ids[next - 1]), w);
        },
        SpecLive::Fan { policy, ids, kids, order, .. } => {
            let i = first_true(fires(kids));
            if !joins(policy, ids, kids, order) && 0 <= i < kids.len() {
                assert(node_of(kids[i]) == ids[i] && follows(ast, kids[i], path.push(ids[i])));
                lemma_fired_follows(ast, registry, kids[i], path.push(ids[i]), w);
                if fired(registry, t, w) is Ok {
                    lemma_one_kid(ast, t, fired(registry, t, w)->Ok_0.0, path, i);
                }
            }
        },
        SpecLive::Scope { body_id, body: Some(b), .. } => {
            lemma_fired_follows(ast, registry, *b, path.push(body_id), w);
        },
        _ => {},
    }
}

proof fn lemma_settled_follows<A: Ast>(
    ast: A,
    t: SpecLive<A::Value, A::EffectError>,
    path: Seq<NodeId>,
    id: SuspensionId,
    answer: Result<A::Value, A::EffectError>,
    w: SpecWorld,
)
    requires
        follows(ast, t, path),
    ensures
        follows(ast, settled(t, id, answer, w).0, path),
        node_of(settled(t, id, answer, w).0) == node_of(t),
    decreases t,
{
    match t {
        SpecLive::Steps { ids, next, current: Some(c), .. } => {
            lemma_settled_follows(ast, *c, path.push(ids[next - 1]), id, answer, w);
        },
        SpecLive::Fan { ids, kids, .. } => {
            let i = first_true(waits(kids, id));
            if 0 <= i < kids.len() {
                assert(node_of(kids[i]) == ids[i] && follows(ast, kids[i], path.push(ids[i])));
                lemma_settled_follows(ast, kids[i], path.push(ids[i]), id, answer, w);
                lemma_one_kid(ast, t, settled(t, id, answer, w).0, path, i);
            }
        },
        SpecLive::Scope { body_id, body: Some(b), .. } => {
            lemma_settled_follows(ast, *b, path.push(body_id), id, answer, w);
        },
        _ => {},
    }
}

/// Whether the frames of an engine follow its tree from the root on.
pub open spec fn on_track<A: Ast>(
    ast: A,
    e: SpecEngine<A::Value, A::EffectError>,
) -> bool {
    e.root matches Some(t) ==> follows(ast, t, seq![ast.root_spec()])
}

proof fn lemma_ran_on_track<A: Ast>(
    ast: A,
    registry: ReducerRegistry<A::Value, A::Delta, A::EffectError>,
    e: SpecEngine<A::Value, A::EffectError>,
    bps: Option<Seq<(BreakpointId, SpecCondition)>>,
    skip: bool,
    fuel: nat,
)
    requires
        on_track(ast, e),
    ensures
        on_track(ast, ran(ast, registry, e, bps, skip, fuel).0),
    decreases fuel,
{
    let root = seq![ast.root_spec()];
    match e.root {
        None => {
            lemma_started_follows(ast, ast.root_spec(), root, e.world);
        },
        Some(t) => {
            lemma_failed_follows(ast, t, root, e.world);
            lemma_caught_follows(ast, t, root, e.world);
            if has_gap(t) {
                lemma_filled_follows(ast, t, root, e.world);
            }
            lemma_fired_follows(ast, registry, t, root, e.world);
            lemma_advanced_follows(ast, t, root, e.world);
        },
    }
    if let SpecMove::Moved(t, w) = next_move(ast, registry, e.root, e.world) {
        let e1 = SpecEngine { root: Some(t), world: w, ..e };
        assert(on_track(ast, e1));
        if fuel > 0 {
            lemma_ran_on_track(ast, registry, e1, bps, false, (fuel - 1) as nat);
        }
    }
}

/// The frames of an engine follow its tree: before the first step there are
/// none, and stepping and answering keep every frame that of a node, at the
/// path that leads to it, with its children in the places of the node's.
pub proof fn law_frames_follow_the_tree<A: Ast>(
    ast: A,
    registry: ReducerRegistry<A::Value, A::Delta, A::EffectError>,
    e: SpecEngine<A::Value, A::EffectError>,
    bps: Option<Seq<(BreakpointId, SpecCondition)>>,
    skip: bool,
    id: SuspensionId,
    answer: Result<A::Value, A::EffectError>,
)
    ensures
        on_track(ast, fresh_engine::<A::Value, A::EffectError>()),
        on_track(ast, e) ==> on_track(ast, stepped(ast, registry, e, bps, skip).0),
        on_track(ast, e) && e.root is Some ==> on_track(ast, resolved(e, e.root->0, id, answer)),
{
    if on_track(ast, e) {
        lemma_ran_on_track(
            ast,
            registry,
            e,
            bps,
            skip,
            crate::engine::step::MOVE_LIMIT as nat,
        );
        if let Some(t) = e.root {
            lemma_settled_follows(ast, t, seq![ast.root_spec()], id, answer, e.world);
        }
    }
}

/// The context of a node at a path.
pub open spec fn seen_at(
    node: NodeId,
    path: Seq<NodeId>,
    frame: Option<CallFrameId>,
) -> SpecContext {
    SpecContext { node, path, frame, depth: path.len() as u32, iteration: None }
}

/// Whether a listener that keeps what it hears has heard some more events, in
/// order, and nothing else.
pub open spec fn heard_more(w: SpecWorld, w1: SpecWorld, es: Seq<SpecEvent>) -> bool {
    w.heard matches Some(h) ==> h.keeps ==> (w1.heard matches Some(h1) && h1.keeps && h1.memory
        == h.memory + es)
}

/// What is announced when a node starts: that it is visited, and of a call
/// that its frame is entered and that it waits.
pub proof fn law_starts_are_announced<A: Ast>(
    ast: A,
    node: NodeId,
    path: Seq<NodeId>,
    w: SpecWorld,
)
    ensures
        ast.kind_spec(node) matches SpecKind::Call { label, payload } ==> heard_more(
            w,
            started(ast, node, path, w).1,
            seq![
                SpecEvent::VisitPre { at: seen_at(node, path, None) },
                SpecEvent::FrameEnter {
                    at: seen_at(node, path, Some(CallFrameId(w.next_frame))),
                },
                SpecEvent::Suspend {
                    at: seen_at(node, path, Some(CallFrameId(w.next_frame))),
                    reason: SpecReason::Call { spec: SpecCall { label, payload } },
                },
            ],
        ),
        !(ast.kind_spec(node) is Call) ==> heard_more(
            w,
            started(ast, node, path, w).1,
            seq![SpecEvent::VisitPre { at: seen_at(node, path, None) }],
        ),
{
    if let Some(h) = w.heard {
        if h.keeps {
            let w1 = started(ast, node, path, w).1;
            let m = w1.heard->Some_0.memory;
            match ast.kind_spec(node) {
                SpecKind::Call { label, payload } => {
                    let at = seen_at(node, path, Some(CallFrameId(w.next_frame)));
                    assert(m =~= h.memory + seq![
                        SpecEvent::VisitPre { at: seen_at(node, path, None) },
                        SpecEvent::FrameEnter { at },
                        SpecEvent::Suspend {
                            at,
                            reason: SpecReason::Call { spec: SpecCall { label, payload } },
                        },
                    ]);
                },
                _ => {
                    assert(m =~= h.memory + seq![
                        SpecEvent::VisitPre { at: seen_at(node, path, None) },
                    ]);
                },
            }
        }
    }
}

/// What is announced when a node has its value, when a call is answered, and
/// when a waiting call is dropped.
pub proof fn law_ends_are_announced<V, E>(
    node: NodeId,
    path: Seq<NodeId>,
    frame: CallFrameId,
    sid: SuspensionId,
    value: V,
    error: E,
    w: SpecWorld,
)
    ensures
        heard_more(
            w,
            produced::<V, E>(node, path, value, w).1,
            seq![SpecEvent::VisitPost { at: seen_at(node, path, None) }],
        ),
        heard_more(
            w,
            answered::<V, E>(node, path, frame, Ok(value), w).1,
            seq![
                SpecEvent::Resume { at: seen_at(node, path, Some(frame)) },
                SpecEvent::FrameLeave { at: seen_at(node, path, Some(frame)) },
                SpecEvent::VisitPost { at: seen_at(node, path, Some(frame)) },
            ],
        ),
        heard_more(
            w,
            answered::<V, E>(node, path, frame, Err(error), w).1,
            seq![SpecEvent::FrameLeave { at: seen_at(node, path, Some(frame)) }],
        ),
        heard_more(
            w,
            dropped(node, path, sid, frame, w),
            seq![
                SpecEvent::Cancel { id: sid },
                SpecEvent::FrameLeave { at: seen_at(node, path, Some(frame)) },
            ],
        ),
        dropped(node, path, sid, frame, w).cancelled == w.cancelled.push(sid),
{
    if let Some(h) = w.heard {
        if h.keeps {
            let at = seen_at(node, path, Some(frame));
            assert(produced::<V, E>(node, path, value, w).1.heard->Some_0.memory =~= h.memory
                + seq![SpecEvent::VisitPost { at: seen_at(node, path, None) }]);
            assert(answered::<V, E>(node, path, frame, Ok(value), w).1.heard->Some_0.memory
                =~= h.memory + seq![
                SpecEvent::Resume { at },
                SpecEvent::FrameLeave { at },
                SpecEvent::VisitPost { at },
            ]);
            assert(answered::<V, E>(node, path, frame, Err(error), w).1.heard->Some_0.memory
                =~= h.memory + seq![SpecEvent::FrameLeave { at }]);
            assert(dropped(node, path, sid, frame, w).heard->Some_0.memory =~= h.memory + seq![
                SpecEvent::Cancel { id: sid },
                SpecEvent::FrameLeave { at },
            ]);
        }
    }
}

/// What a running child becomes when a sibling fails: values, failures and
/// what is cancelled already stay, everything else is cancelled for that
/// reason.
pub open spec fn gives_way<V, E>(before: SpecLive<V, E>, after: SpecLive<V, E>) -> bool {
    if before is Value || before is Failed || before is Cancelled {
        after == before
    } else {
        after == SpecLive::<V, E>::Cancelled {
            node: node_of(before),
            reason: CancelReason::SiblingFailed,
            failure: None,
        }
    }
}

/// A failure that travels up through a fan-out has all other children give
/// way; a fan-out that collects takes the failure of its first failing child
/// and leaves the others alone.
pub proof fn law_siblings_give_way_to_a_failure<V, E>(t: SpecLive<V, E>, w: SpecWorld, i: int)
    requires
        t matches SpecLive::Fan { kids, .. } && 0 <= i < kids.len() && failing(kids[i]) && forall|
            j: int,
        |
            0 <= j < i ==> !failing(#[trigger] kids[j]),
    ensures
        failed_up(t, w).0 matches SpecLive::Fan { kids: after, order, .. } && order == t->order
            && after.len() == t->kids.len() && (forall|j: int|
            0 <= j < after.len() && j != i ==> gives_way(t->kids[j], #[trigger] after[j]))
            && after[i] == failed_up(t->kids[i], w).0,
        t->policy.fail == crate::join::FailPolicy::CollectAll ==> (
        caught(t, w).0 matches SpecLive::Fan { kids: after, order, .. } && order == t->order
            && after.len() == t->kids.len() && (forall|j: int|
            0 <= j < after.len() && j != i ==> #[trigger] after[j] == t->kids[j]) && after[i]
            == SpecLive::<V, E>::Cancelled {
            node: node_of(t->kids[i]),
            reason: CancelReason::SiblingFailed,
            failure: Some(crate::engine::cancel::failure(t->kids[i])),
        }),
{
    let kids = t->kids;
    let bs = fails(kids);
    assert forall|j: int| 0 <= j < i implies !#[trigger] bs[j] by {
        assert(!failing(kids[j]));
    }
    lemma_first_true(bs, i);
    let (k1, w1) = failed_up(kids[i], w);
    lemma_cancelled_others(
        kids.update(i, k1),
        i,
        CancelReason::SiblingFailed,
        kids.len(),
        w1,
    );
}

/// An engine is at the first call that waits; where none does, before its
/// first step it is at the root, and once it is over it is nowhere.
pub proof fn law_an_engine_is_at_what_waits_or_comes_next<A: Ast>(
    ast: A,
    e: SpecEngine<A::Value, A::EffectError>,
)
    ensures
        live_pending(e).len() > 0 ==> active_path(ast, e) == Some(live_pending(e)[0].at.path),
        live_pending(e).len() == 0 && e.done ==> active_path(ast, e) is None,
        live_pending(e).len() == 0 && !e.done && e.root is None ==> active_path(ast, e) == Some(
            seq![ast.root_spec()],
        ),
{
}

} // verus!
