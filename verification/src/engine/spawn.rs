//! Starting frames.
use vstd::prelude::*;
use vstd::string::*;

use crate::engine::ast::{Ast, NodeKind, SpecKind};
use crate::engine::live::{
    first_gap, first_true, gaps, has_gap, lemma_first_true_range, lives_view, pending_of, Live,
    SpecLive,
};
use crate::engine::world::{place, place_at, told, SpecWorld, World};
use crate::event::{CallSpec, Event, Pending, SpecCall, SpecEvent, SpecReason, SuspendReason};
use crate::ids::{successor, CallFrameId, NodeId, Path, SuspensionId};

verus! {

/// The world after a call has started.
pub open spec fn called(
    node: NodeId,
    path: Seq<NodeId>,
    call: SpecCall,
    w: SpecWorld,
) -> SpecWorld {
    let sid = SuspensionId(w.next_sid);
    let frame = CallFrameId(w.next_frame);
    let at = place(node, path, Some(frame));
    let numbered = SpecWorld {
        next_sid: successor(w.next_sid),
        next_frame: successor(w.next_frame),
        ..w
    };
    let announced = told(
        told(numbered, SpecEvent::FrameEnter { at }),
        SpecEvent::Suspend { at, reason: SpecReason::Call { spec: call } },
    );
    SpecWorld {
        newly: announced.newly.push(pending_of(node, path, sid, call, frame)),
        ..announced
    }
}

/// The frame a node starts as, and the world after it.
pub open spec fn spawned<V, E>(
    kind: SpecKind,
    unit: V,
    node: NodeId,
    path: Seq<NodeId>,
    w: SpecWorld,
) -> (SpecLive<V, E>, SpecWorld) {
    let entered = told(w, SpecEvent::VisitPre { at: place(node, path, None) });
    match kind {
        SpecKind::Sequence { children } => (
            SpecLive::Steps { node, path, ids: children, next: 0, current: None, last: None },
            entered,
        ),
        SpecKind::Par { children, policy, reducer_id } => (
            SpecLive::Fan {
                node,
                path,
                policy,
                reducer: reducer_id,
                ids: children,
                kids: Seq::empty(),
                order: Seq::empty(),
            },
            entered,
        ),
        SpecKind::Scope { label, body } => (
            SpecLive::Scope { node, path, label, body_id: body, body: None },
            entered,
        ),
        SpecKind::Maybe { body: Some(body) } => (
            SpecLive::Scope { node, path, label: "<maybe>"@, body_id: body, body: None },
            entered,
        ),
        SpecKind::Maybe { body: None } => (SpecLive::Empty { node, path, value: unit }, entered),
        SpecKind::Call { label, payload } => {
            let call = SpecCall { label, payload };
            (
                SpecLive::Pending {
                    node,
                    path,
                    sid: SuspensionId(entered.next_sid),
                    call,
                    frame: CallFrameId(entered.next_frame),
                },
                called(node, path, call, entered),
            )
        },
    }
}

/// The frame a node of a tree starts as, and the world after it.
pub open spec fn started<A: Ast>(
    ast: A,
    node: NodeId,
    path: Seq<NodeId>,
    w: SpecWorld,
) -> (SpecLive<A::Value, A::EffectError>, SpecWorld) {
    spawned(ast.kind_spec(node), ast.unit_spec(), node, path, w)
}

/// The frames and the world once the next declared child or body has
/// started.
pub open spec fn filled<A: Ast>(
    ast: A,
    t: SpecLive<A::Value, A::EffectError>,
    w: SpecWorld,
) -> (SpecLive<A::Value, A::EffectError>, SpecWorld)
    decreases t,
{
    match t {
        SpecLive::Steps { node, path, ids, next, current: Some(c), last } => {
            let (c1, w1) = filled(ast, *c, w);
            (SpecLive::Steps { node, path, ids, next, current: Some(Box::new(c1)), last }, w1)
        },
        SpecLive::Fan { node, path, policy, reducer, ids, kids, order } => {
            let i = first_true(gaps(kids));
            if 0 <= i < kids.len() {
                let (k1, w1) = filled(ast, kids[i], w);
                (
                    SpecLive::Fan {
                        node,
                        path,
                        policy,
                        reducer,
                        ids,
                        kids: kids.update(i, k1),
                        order,
                    },
                    w1,
                )
            } else {
                let id = ids[kids.len() as int];
                let (k1, w1) = started(ast, id, path.push(id), w);
                (
                    SpecLive::Fan {
                        node,
                        path,
                        policy,
                        reducer,
                        ids,
                        kids: kids.push(k1),
                        order,
                    },
                    w1,
                )
            }
        },
        SpecLive::Scope { node, path, label, body_id, body: Some(b) } => {
            let (b1, w1) = filled(ast, *b, w);
            (SpecLive::Scope { node, path, label, body_id, body: Some(Box::new(b1)) }, w1)
        },
        SpecLive::Scope { node, path, label, body_id, body: None } => {
            let (b1, w1) = started(ast, body_id, path.push(body_id), w);
            (SpecLive::Scope { node, path, label, body_id, body: Some(Box::new(b1)) }, w1)
        },
        _ => (t, w),
    }
}

/// Starts the frame of a node. Children and bodies start later, one at a
/// time.
pub fn start<A: Ast>(ast: &A, node: NodeId, path: Path, w: &mut World) -> (out: Live<
    A::Value,
    A::EffectError,
>)
    ensures
        (out@, final(w)@) == started(*ast, node, path@, old(w)@),
{
    w.tell(&Event::VisitPre { at: place_at(node, &path, None) });
    match ast.node_kind(node) {
        NodeKind::Sequence { children } => Live::Steps {
            node,
            path,
            ids: children,
            next: 0,
            current: None,
            last: None,
        },
        NodeKind::Par { children, policy, reducer_id } => {
            let kids: Vec<Live<A::Value, A::EffectError>> = Vec::new();
            assert(lives_view(kids@) =~= Seq::empty());
            Live::Fan {
                node,
                path,
                policy,
                reducer: reducer_id,
                ids: children,
                kids,
                order: Vec::new(),
            }
        },
        NodeKind::Scope { label, body } => Live::Scope {
            node,
            path,
            label,
            body_id: body,
            body: None,
        },
        NodeKind::Maybe { body: Some(body) } => Live::Scope {
            node,
            path,
            label: "<maybe>".to_owned(),
            body_id: body,
            body: None,
        },
        NodeKind::Maybe { body: None } => Live::Empty { node, path, value: ast.unit_value() },
        NodeKind::Call { label, payload } => {
            let call = CallSpec { label, payload };
            let sid = w.fresh_sid();
            let frame = w.fresh_frame();
            let at = place_at(node, &path, Some(frame));
            w.tell(&Event::FrameEnter { at: at.clone() });
            w.tell(
                &Event::Suspend {
                    at: at.clone(),
                    reason: SuspendReason::Call { spec: call.clone() },
                },
            );
            w.report(
                Pending { id: sid, reason: SuspendReason::Call { spec: call.clone() }, at },
            );
            Live::Pending { node, path, sid, call, frame }
        },
    }
}

/// Starts the next declared child or body, depth first.
pub fn fill<A: Ast>(ast: &A, t: &mut Live<A::Value, A::EffectError>, w: &mut World)
    requires
        has_gap(old(t)@),
    ensures
        (final(t)@, final(w)@) == filled(*ast, old(t)@, old(w)@),
    decreases *old(t),
{
    match t {
        Live::Steps { current: Some(c), .. } => {
            fill(ast, &mut **c, w);
        },
        Live::Fan { path, ids, kids, .. } => {
            let ghost before = lives_view(kids@);
            proof {
                lemma_first_true_range(gaps(before));
            }
            let i: usize = first_gap(kids);
            if i < kids.len() {
                assert(before[i as int] == kids@[i as int]@);
                fill(ast, &mut kids[i], w);
                assert(lives_view(kids@) =~= before.update(i as int, kids@[i as int]@));
            } else {
                let id = ids[kids.len()];
                let k = start(ast, id, path.push(id), w);
                kids.push(k);
                assert(lives_view(kids@) =~= before.push(k@));
            }
        },
        Live::Scope { path, body_id, body, .. } => {
            match body {
                Some(b) => {
                    fill(ast, &mut **b, w);
                },
                None => {
                    let b = start(ast, *body_id, path.push(*body_id), w);
                    *body = Some(Box::new(b));
                },
            }
        },
        _ => {},
    }
}

} // verus!
