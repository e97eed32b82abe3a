//! Moving values up and sequences on.
use vstd::prelude::*;

use crate::engine::ast::Ast;
use crate::engine::live::{
    advances, first_advancing, first_true, lemma_first_true_range, live_view, lives_view, moves,
    order_after, Live, SpecLive,
};
use crate::engine::spawn::{start, started};
use crate::engine::world::{place, place_at, told, SpecWorld, World};
use crate::event::{Event, SpecEvent};
use crate::frame::CancelReason;
use crate::ids::{NodeId, Path};

verus! {

/// A node that produces its value, and the world after it.
pub open spec fn produced<V, E>(node: NodeId, path: Seq<NodeId>, value: V, w: SpecWorld) -> (
    SpecLive<V, E>,
    SpecWorld,
) {
    (
        SpecLive::Value { node, value },
        told(w, SpecEvent::VisitPost { at: place(node, path, None) }),
    )
}

/// A sequence with no running child: it starts the next one, or produces
/// the last value.
pub open spec fn stepped_on<A: Ast>(
    ast: A,
    node: NodeId,
    path: Seq<NodeId>,
    ids: Seq<NodeId>,
    next: int,
    last: Option<A::Value>,
    w: SpecWorld,
) -> (SpecLive<A::Value, A::EffectError>, SpecWorld) {
    if 0 <= next < ids.len() {
        let ticked = told(w, SpecEvent::IterationTick { at: place(node, path, None) });
        let (c, w1) = started(ast, ids[next], path.push(ids[next]), ticked);
        (
            SpecLive::Steps { node, path, ids, next: next + 1, current: Some(Box::new(c)), last },
            w1,
        )
    } else {
        let value = match last {
            Some(v) => v,
            None => ast.unit_spec(),
        };
        produced(node, path, value, w)
    }
}

/// The frames and the world after one move.
pub open spec fn advanced<A: Ast>(
    ast: A,
    t: SpecLive<A::Value, A::EffectError>,
    w: SpecWorld,
) -> (SpecLive<A::Value, A::EffectError>, SpecWorld)
    decreases t,
{
    match t {
        SpecLive::Steps { node, path, ids, next, current, last } => match current {
            None => stepped_on(ast, node, path, ids, next, last, w),
            Some(c) => if advances(*c) {
                let (c1, w1) = advanced(ast, *c, w);
                (SpecLive::Steps { node, path, ids, next, current: Some(Box::new(c1)), last }, w1)
            } else {
                match *c {
                    SpecLive::Value { value, .. } => stepped_on(
                        ast,
                        node,
                        path,
                        ids,
                        next,
                        Some(value),
                        w,
                    ),
                    _ => (t, w),
                }
            },
        },
        SpecLive::Fan { node, path, policy, reducer, ids, kids, order } => {
            let i = first_true(moves(kids));
            if 0 <= i < kids.len() {
                let (k1, w1) = advanced(ast, kids[i], w);
                (
                    SpecLive::Fan {
                        node,
                        path,
                        policy,
                        reducer,
                        ids,
                        kids: kids.update(i, k1),
                        order: order_after(order, k1, i),
                    },
                    w1,
                )
            } else {
                (t, w)
            }
        },
        SpecLive::Scope { node, path, label, body_id, body: Some(b) } => if advances(*b) {
            let (b1, w1) = advanced(ast, *b, w);
            (SpecLive::Scope { node, path, label, body_id, body: Some(Box::new(b1)) }, w1)
        } else {
            match *b {
                SpecLive::Value { value, .. } => produced(node, path, value, w),
                _ => (t, w),
            }
        },
        SpecLive::Empty { node, path, value } => produced(node, path, value, w),
        _ => (t, w),
    }
}

/// A node produces its value.
pub(crate) fn produce<V, E>(node: NodeId, path: &Path, value: V, w: &mut World) -> (out: Live<V, E>)
    ensures
        (out@, final(w)@) == produced::<V, E>(node, path@, value, old(w)@),
{
    w.tell(&Event::VisitPost { at: place_at(node, path, None) });
    Live::Value { node, value }
}

/// A sequence with no running child goes on.
fn step_on<A: Ast>(
    ast: &A,
    node: NodeId,
    path: Path,
    ids: Vec<NodeId>,
    next: usize,
    last: Option<A::Value>,
    w: &mut World,
) -> (out: Live<A::Value, A::EffectError>)
    ensures
        (out@, final(w)@) == stepped_on(*ast, node, path@, ids@, next as int, last, old(w)@),
{
    if next < ids.len() {
        w.tell(&Event::IterationTick { at: place_at(node, &path, None) });
        let id = ids[next];
        let c = start(ast, id, path.push(id), w);
        Live::Steps { node, path, ids, next: next + 1, current: Some(Box::new(c)), last }
    } else {
        let value = match last {
            Some(v) => v,
            None => ast.unit_value(),
        };
        produce(node, &path, value, w)
    }
}

/// A frame whose child or body cannot move makes its own move.
fn move_on<A: Ast>(ast: &A, t: Live<A::Value, A::EffectError>, w: &mut World) -> (out: Live<
    A::Value,
    A::EffectError,
>)
    requires
        advances(t@),
        t@ matches SpecLive::Steps { current: Some(c), .. } ==> !advances(*c),
        t@ matches SpecLive::Scope { body: Some(b), .. } ==> !advances(*b),
        !(t@ is Fan),
    ensures
        (out@, final(w)@) == advanced(*ast, t@, old(w)@),
{
    proof {
        reveal_with_fuel(live_view, 2);
    }
    match t {
        Live::Steps { node, path, ids, next, current, last } => match current {
            None => step_on(ast, node, path, ids, next, last, w),
            Some(c) => match *c {
                Live::Value { node: _, value } => step_on(
                    ast,
                    node,
                    path,
                    ids,
                    next,
                    Some(value),
                    w,
                ),
                other => Live::Steps {
                    node,
                    path,
                    ids,
                    next,
                    current: Some(Box::new(other)),
                    last,
                },
            },
        },
        Live::Scope { node, path, label, body_id, body } => match body {
            None => Live::Scope { node, path, label, body_id, body: None },
            Some(b) => match *b {
                Live::Value { node: _, value } => produce(node, &path, value, w),
                other => Live::Scope { node, path, label, body_id, body: Some(Box::new(other)) },
            },
        },
        Live::Empty { node, path, value } => produce(node, &path, value, w),
        other => other,
    }
}

/// Makes one move: the deepest possible one of the first child that has one.
pub fn advance<A: Ast>(ast: &A, t: &mut Live<A::Value, A::EffectError>, w: &mut World)
    requires
        advances(old(t)@),
    ensures
        (final(t)@, final(w)@) == advanced(*ast, old(t)@, old(w)@),
    decreases *old(t),
{
    let inner: bool = match t {
        Live::Steps { current: Some(c), .. } => c.advances(),
        Live::Fan { .. } => true,
        Live::Scope { body: Some(b), .. } => b.advances(),
        _ => false,
    };
    if inner {
        match t {
            Live::Steps { current: Some(c), .. } => {
                advance(ast, &mut **c, w);
            },
            Live::Fan { kids, order, .. } => {
                let ghost before = lives_view(kids@);
                proof {
                    lemma_first_true_range(moves(before));
                }
                let i: usize = first_advancing(kids);
                assert(before[i as int] == kids@[i as int]@);
                advance(ast, &mut kids[i], w);
                assert(lives_view(kids@) =~= before.update(i as int, kids@[i as int]@));
                if kids[i].is_value() {
                    order.push(i);
                }
            },
            Live::Scope { body: Some(b), .. } => {
                advance(ast, &mut **b, w);
            },
            _ => {},
        }
    } else {
        let mut whole = Live::Cancelled {
            node: t.node(),
            reason: CancelReason::SiblingFailed,
            failure: None,
        };
        std::mem::swap(t, &mut whole);
        *t = move_on(ast, whole, w);
    }
}

} // verus!
