//! The frame tree a debugger sees.
use std::sync::Arc;

use vstd::prelude::*;
use vstd::string::*;

use crate::engine::ast::{copy_error, copy_value, Ast};
use crate::engine::fire::{blank_deltas, no_deltas, slot};
use crate::engine::live::{collected, lives_view, Live, SpecLive};
use crate::frame::{
    env_deltas, trees_view, CancelReason, Env, EnvRef, Frame, FrameTree, ParFrame, SpecFrame,
    SpecFrameTree, SpecParFrame,
};
use crate::ids::NodeId;
use crate::join::{ChildIndex, ReducerRegistry};

verus! {

/// One slot for each of `n` declared children.
pub open spec fn open_slots<V, E>(kids: Seq<SpecLive<V, E>>, n: nat) -> Seq<Option<V>> {
    Seq::new(
        n,
        |i: int|
            if i < kids.len() {
                slot(kids[i])
            } else {
                None
            },
    )
}

/// The collected failure of each of `n` declared children.
pub open spec fn open_failures<V, E>(kids: Seq<SpecLive<V, E>>, n: nat) -> Seq<Option<E>> {
    Seq::new(
        n,
        |i: int|
            if i < kids.len() {
                collected(kids[i])
            } else {
                None
            },
    )
}

/// A bare node frame.
pub open spec fn bare_node<A: Ast>(node: NodeId) -> SpecFrame<
    A::Value,
    A::Cursor,
    A::Delta,
    A::EffectError,
> {
    SpecFrame::Node { node, env: seq![A::blank_delta()], cursor: A::blank_cursor() }
}

/// The frame a debugger sees in place of a live one.
pub open spec fn shown_frame<A: Ast>(
    registry: ReducerRegistry<A::Value, A::Delta, A::EffectError>,
    t: SpecLive<A::Value, A::EffectError>,
) -> SpecFrame<A::Value, A::Cursor, A::Delta, A::EffectError> {
    match t {
        SpecLive::Steps { node, .. } => bare_node::<A>(node),
        SpecLive::Fan { node, policy, reducer, ids, kids, order, .. } => match registry.resolved(
            reducer,
            policy.fail,
        ) {
            None => bare_node::<A>(node),
            Some(handle) => SpecFrame::Par(
                SpecParFrame {
                    policy,
                    slots: open_slots(kids, ids.len()),
                    failures: open_failures(kids, ids.len()),
                    deltas: no_deltas(ids.len()),
                    completion_order: order,
                    reducer_id: reducer,
                    reducer: handle,
                    joined: false,
                },
            ),
        },
        SpecLive::Scope { label, .. } => SpecFrame::Scope { label, env: seq![A::blank_delta()] },
        SpecLive::Empty { .. } => SpecFrame::Scope {
            label: "<maybe>"@,
            env: seq![A::blank_delta()],
        },
        SpecLive::Pending { sid, .. } => SpecFrame::PendingEffect { id: sid },
        SpecLive::Value { value, .. } => SpecFrame::Value(value),
        SpecLive::Failed { .. } => SpecFrame::Cancelled { reason: CancelReason::SiblingFailed },
        SpecLive::Cancelled { reason, .. } => SpecFrame::Cancelled { reason },
    }
}

/// The frame tree a debugger sees.
pub open spec fn shown<A: Ast>(
    registry: ReducerRegistry<A::Value, A::Delta, A::EffectError>,
    t: SpecLive<A::Value, A::EffectError>,
) -> SpecFrameTree<A::Value, A::Cursor, A::Delta, A::EffectError>
    decreases t,
{
    SpecFrameTree {
        root: shown_frame::<A>(registry, t),
        kids: match t {
            SpecLive::Steps { current: Some(c), .. } => seq![shown::<A>(registry, *c)],
            SpecLive::Fan { kids, .. } => all_shown::<A>(registry, kids),
            SpecLive::Scope { body: Some(b), .. } => seq![shown::<A>(registry, *b)],
            _ => Seq::empty(),
        },
    }
}

/// The frame trees a debugger sees.
pub open spec fn all_shown<A: Ast>(
    registry: ReducerRegistry<A::Value, A::Delta, A::EffectError>,
    ts: Seq<SpecLive<A::Value, A::EffectError>>,
) -> Seq<SpecFrameTree<A::Value, A::Cursor, A::Delta, A::EffectError>>
    decreases ts,
{
    Seq::new(
        ts.len(),
        |i: int|
            if 0 <= i < ts.len() {
                shown::<A>(registry, ts[i])
            } else {
                arbitrary()
            },
    )
}

/// A blank environment.
fn blank_env<A: Ast>() -> (out: EnvRef<A::Delta>)
    ensures
        env_deltas(*out.0) == seq![A::blank_delta()],
{
    let delta: A::Delta = Default::default();
    proof {
        A::default_delta_is_blank(delta);
    }
    EnvRef(Arc::new(Env { delta, parent: None }))
}

/// A bare node frame.
pub(crate) fn show_node<A: Ast>(node: NodeId) -> (out: Frame<
    A::Value,
    A::Cursor,
    A::Delta,
    A::EffectError,
>)
    ensures
        out@ == bare_node::<A>(node),
{
    let cursor: A::Cursor = Default::default();
    proof {
        A::default_cursor_is_blank(cursor);
    }
    Frame::Node { node, env: blank_env::<A>(), cursor }
}

fn show_slots<A: Ast>(kids: &Vec<Live<A::Value, A::EffectError>>, n: usize) -> (out: Vec<
    Option<A::Value>,
>)
    ensures
        out@ == open_slots(lives_view(kids@), n as nat),
{
    let mut out: Vec<Option<A::Value>> = Vec::new();
    for i in 0..n
        invariant
            out@.len() == i,
            forall|j: int|
                0 <= j < i ==> #[trigger] out@[j] == (if j < kids@.len() {
                    slot(kids@[j]@)
                } else {
                    None
                }),
    {
        let s = if i < kids.len() {
            match &kids[i] {
                Live::Value { value, .. } => Some(copy_value::<A>(value)),
                _ => None,
            }
        } else {
            None
        };
        out.push(s);
    }
    assert(out@ =~= open_slots(lives_view(kids@), n as nat));
    out
}

fn show_failures<A: Ast>(kids: &Vec<Live<A::Value, A::EffectError>>, n: usize) -> (out: Vec<
    Option<A::EffectError>,
>)
    ensures
        out@ == open_failures(lives_view(kids@), n as nat),
{
    let mut out: Vec<Option<A::EffectError>> = Vec::new();
    for i in 0..n
        invariant
            out@.len() == i,
            forall|j: int|
                0 <= j < i ==> #[trigger] out@[j] == (if j < kids@.len() {
                    collected(kids@[j]@)
                } else {
                    None
                }),
    {
        let s = if i < kids.len() {
            match &kids[i] {
                Live::Cancelled { failure: Some(e), .. } => Some(copy_error::<A>(e)),
                _ => None,
            }
        } else {
            None
        };
        out.push(s);
    }
    assert(out@ =~= open_failures(lives_view(kids@), n as nat));
    out
}

fn copy_order(order: &Vec<ChildIndex>) -> (out: Vec<ChildIndex>)
    ensures
        out@ == order@,
{
    let mut out: Vec<ChildIndex> = Vec::new();
    for i in 0..order.len()
        invariant
            out@ == order@.take(i as int),
    {
        out.push(order[i]);
        assert(out@ =~= order@.take(i + 1));
    }
    assert(order@.take(order@.len() as int) =~= order@);
    out
}

fn show_frame<A: Ast>(
    registry: &ReducerRegistry<A::Value, A::Delta, A::EffectError>,
    t: &Live<A::Value, A::EffectError>,
) -> (out: Frame<A::Value, A::Cursor, A::Delta, A::EffectError>)
    ensures
        out@ == shown_frame::<A>(*registry, t@),
{
    match t {
        Live::Steps { node, .. } => show_node::<A>(*node),
        Live::Fan { node, policy, reducer, ids, kids, order, .. } => match registry.resolve(
            reducer,
            policy.fail,
        ) {
            Err(_) => show_node::<A>(*node),
            Ok(handle) => Frame::Par(
                ParFrame {
                    policy: *policy,
                    slots: show_slots::<A>(kids, ids.len()),
                    failures: show_failures::<A>(kids, ids.len()),
                    deltas: blank_deltas::<A::Delta>(ids.len()),
                    completion_order: copy_order(order),
                    reducer_id: reducer.clone(),
                    reducer: handle,
                    joined: false,
                },
            ),
        },
        Live::Scope { label, .. } => Frame::Scope { label: label.clone(), env: blank_env::<A>() },
        Live::Empty { .. } => Frame::Scope { label: "<maybe>".to_owned(), env: blank_env::<A>() },
        Live::Pending { sid, .. } => Frame::PendingEffect { id: *sid },
        Live::Value { value, .. } => Frame::Value(copy_value::<A>(value)),
        Live::Failed { .. } => Frame::Cancelled { reason: CancelReason::SiblingFailed },
        Live::Cancelled { reason, .. } => Frame::Cancelled { reason: *reason },
    }
}

/// Shows a frame and what is below it.
pub fn show<A: Ast>(
    registry: &ReducerRegistry<A::Value, A::Delta, A::EffectError>,
    t: &Live<A::Value, A::EffectError>,
) -> (out: FrameTree<A::Value, A::Cursor, A::Delta, A::EffectError>)
    ensures
        out@ == shown::<A>(*registry, t@),
    decreases t,
{
    let root = show_frame::<A>(registry, t);
    let mut kids: Vec<FrameTree<A::Value, A::Cursor, A::Delta, A::EffectError>> = Vec::new();
    match t {
        Live::Steps { current: Some(c), .. } => {
            kids.push(show::<A>(registry, &**c));
        },
        Live::Fan { kids: below, .. } => {
            let n: usize = below.len();
            for i in 0..n
                invariant
                    n == below@.len(),
                    *t matches Live::Fan { kids: ks, .. } && ks == *below,
                    kids@.len() == i,
                    forall|j: int|
                        0 <= j < i ==> (#[trigger] kids@[j])@ == shown::<A>(
                            *registry,
                            below@[j]@,
                        ),
            {
                kids.push(show::<A>(registry, &below[i]));
            }
            assert(trees_view(kids@) =~= all_shown::<A>(*registry, lives_view(below@)));
        },
        Live::Scope { body: Some(b), .. } => {
            kids.push(show::<A>(registry, &**b));
        },
        _ => {},
    }
    assert(trees_view(kids@) =~= shown::<A>(*registry, t@).kids);
    FrameTree { root, kids }
}

} // verus!
