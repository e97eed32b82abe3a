//! Sinks only listen.
use vstd::prelude::*;

use crate::breakpoint::SpecCondition;
use crate::engine::advance::advanced;
use crate::engine::ast::Ast;
use crate::engine::cancel::{cancel_others, cancel_world, cancel_worlds, caught, failed_up};
use crate::engine::fire::fired;
use crate::engine::live::{
    advances, catches, fails, fires, first_true, gaps, joins, moves, waits, SpecLive,
};
use crate::engine::settle::settled;
use crate::engine::spawn::{filled, started};
use crate::engine::step::{
    next_move, ran, resolved, stepped, stops_at, SpecEngine, SpecMove, MOVE_LIMIT,
};
use crate::engine::world::{place, told, SpecWorld};
use crate::error::SpecEngineError;
use crate::event::SpecEvent;
use crate::frame::CancelReason;
use crate::ids::{BreakpointId, NodeId, SuspensionId};
use crate::join::{FailPolicy, ReducerRegistry};

verus! {

/// A world without its sink.
pub open spec fn unheard(w: SpecWorld) -> SpecWorld {
    SpecWorld { heard: None, ..w }
}

/// An engine without its sink.
pub open spec fn unobserved<V, E>(e: SpecEngine<V, E>) -> SpecEngine<V, E> {
    SpecEngine { world: unheard(e.world), ..e }
}

/// The same frames, in a world without its sink.
spec fn quiet<V, E>(p: (SpecLive<V, E>, SpecWorld)) -> (SpecLive<V, E>, SpecWorld) {
    (p.0, unheard(p.1))
}

proof fn lemma_start_quiet<A: Ast>(ast: A, node: NodeId, path: Seq<NodeId>, w: SpecWorld)
    ensures
        started(ast, node, path, unheard(w)) == quiet(started(ast, node, path, w)),
{
}

proof fn lemma_fill_quiet<A: Ast>(
    ast: A,
    t: SpecLive<A::Value, A::EffectError>,
    w: SpecWorld,
)
    ensures
        filled(ast, t, unheard(w)) == quiet(filled(ast, t, w)),
    decreases t,
{
    match t {
        SpecLive::Steps { current: Some(c), .. } => lemma_fill_quiet(ast, *c, w),
        SpecLive::Fan { path, ids, kids, .. } => {
            let i = first_true(gaps(kids));
            if 0 <= i < kids.len() {
                lemma_fill_quiet(ast, kids[i], w);
            } else {
                let id = ids[kids.len() as int];
                lemma_start_quiet(ast, id, path.push(id), w);
            }
        },
        SpecLive::Scope { path, body_id, body, .. } => {
            match body {
                Some(b) => lemma_fill_quiet(ast, *b, w),
                None => lemma_start_quiet(ast, body_id, path.push(body_id), w),
            }
        },
        _ => {},
    }
}

proof fn lemma_advance_quiet<A: Ast>(
    ast: A,
    t: SpecLive<A::Value, A::EffectError>,
    w: SpecWorld,
)
    ensures
        advanced(ast, t, unheard(w)) == quiet(advanced(ast, t, w)),
    decreases t,
{
    match t {
        SpecLive::Steps { node, path, ids, next, current, .. } => {
            if 0 <= next < ids.len() {
                let tick = SpecEvent::IterationTick { at: place(node, path, None) };
                assert(told(unheard(w), tick) == unheard(told(w, tick)));
                lemma_start_quiet(ast, ids[next], path.push(ids[next]), told(w, tick));
            }
            if let Some(c) = current {
                if advances(*c) {
                    lemma_advance_quiet(ast, *c, w);
                }
            }
        },
        SpecLive::Fan { kids, .. } => {
            let i = first_true(moves(kids));
            if 0 <= i < kids.len() {
                lemma_advance_quiet(ast, kids[i], w);
            }
        },
        SpecLive::Scope { body: Some(b), .. } => {
            if advances(*b) {
                lemma_advance_quiet(ast, *b, w);
            }
        },
        _ => {},
    }
}

proof fn lemma_cancel_quiet<V, E>(t: SpecLive<V, E>, w: SpecWorld)
    ensures
        cancel_world(t, unheard(w)) == unheard(cancel_world(t, w)),
    decreases t, 0int,
{
    match t {
        SpecLive::Steps { current: Some(c), .. } => lemma_cancel_quiet(*c, w),
        SpecLive::Fan { kids, .. } => lemma_cancels_quiet(kids, kids.len(), w),
        SpecLive::Scope { body: Some(b), .. } => lemma_cancel_quiet(*b, w),
        _ => {},
    }
}

proof fn lemma_cancels_quiet<V, E>(ts: Seq<SpecLive<V, E>>, n: nat, w: SpecWorld)
    ensures
        cancel_worlds(ts, n, unheard(w)) == unheard(cancel_worlds(ts, n, w)),
    decreases ts, n,
{
    if 0 < n <= ts.len() {
        lemma_cancels_quiet(ts, (n - 1) as nat, w);
        lemma_cancel_quiet(ts[n - 1], cancel_worlds(ts, (n - 1) as nat, w));
    }
}

proof fn lemma_fire_quiet<V, D, E>(
    registry: ReducerRegistry<V, D, E>,
    t: SpecLive<V, E>,
    w: SpecWorld,
)
    ensures
        match fired(registry, t, w) {
            Ok(p) => fired(registry, t, unheard(w)) == Ok::<
                (SpecLive<V, E>, SpecWorld),
                SpecEngineError,
            >(quiet(p)),
            Err(e) => fired(registry, t, unheard(w)) == Err::<
                (SpecLive<V, E>, SpecWorld),
                SpecEngineError,
            >(e),
        },
    decreases t,
{
    match t {
        SpecLive::Steps { current: Some(c), .. } => lemma_fire_quiet(registry, *c, w),
        SpecLive::Fan { policy, ids, kids, order, .. } => {
            let i = first_true(fires(kids));
            if joins(policy, ids, kids, order) {
                lemma_cancels_quiet(kids, kids.len(), w);
            } else if 0 <= i < kids.len() {
                lemma_fire_quiet(registry, kids[i], w);
            }
        },
        SpecLive::Scope { body: Some(b), .. } => lemma_fire_quiet(registry, *b, w),
        _ => {},
    }
}

proof fn lemma_cancel_others_quiet<V, E>(
    ts: Seq<SpecLive<V, E>>,
    keep: int,
    reason: CancelReason,
    n: nat,
    w: SpecWorld,
)
    ensures
        cancel_others(ts, keep, reason, n, unheard(w)).0 == cancel_others(
            ts,
            keep,
            reason,
            n,
            w,
        ).0,
        cancel_others(ts, keep, reason, n, unheard(w)).1 == unheard(
            cancel_others(ts, keep, reason, n, w).1,
        ),
    decreases n,
{
    if 0 < n <= ts.len() {
        lemma_cancel_others_quiet(ts, keep, reason, (n - 1) as nat, w);
        lemma_cancel_quiet(ts[n - 1], cancel_others(ts, keep, reason, (n - 1) as nat, w).1);
    }
}

proof fn lemma_fail_quiet<V, E>(t: SpecLive<V, E>, w: SpecWorld)
    ensures
        failed_up(t, unheard(w)) == quiet(failed_up(t, w)),
    decreases t,
{
    match t {
        SpecLive::Steps { current: Some(c), .. } => lemma_fail_quiet(*c, w),
        SpecLive::Fan { kids, .. } => {
            let i = first_true(fails(kids));
            if 0 <= i < kids.len() {
                let (k1, w1) = failed_up(kids[i], w);
                lemma_fail_quiet(kids[i], w);
                lemma_cancel_others_quiet(
                    kids.update(i, k1),
                    i,
                    CancelReason::SiblingFailed,
                    kids.len(),
                    w1,
                );
            }
        },
        SpecLive::Scope { body: Some(b), .. } => lemma_fail_quiet(*b, w),
        _ => {},
    }
}

proof fn lemma_catch_quiet<V, E>(t: SpecLive<V, E>, w: SpecWorld)
    ensures
        caught(t, unheard(w)) == quiet(caught(t, w)),
    decreases t,
{
    match t {
        SpecLive::Steps { current: Some(c), .. } => lemma_catch_quiet(*c, w),
        SpecLive::Fan { policy, kids, .. } => {
            let i = first_true(fails(kids));
            let j = first_true(catches(kids));
            if policy.fail == FailPolicy::CollectAll && 0 <= i < kids.len() {
                let (k1, w1) = failed_up(kids[i], w);
                lemma_fail_quiet(kids[i], w);
                lemma_cancel_quiet(k1, w1);
            } else if 0 <= j < kids.len() {
                lemma_catch_quiet(kids[j], w);
            }
        },
        SpecLive::Scope { body: Some(b), .. } => lemma_catch_quiet(*b, w),
        _ => {},
    }
}

proof fn lemma_settle_quiet<V, E>(
    t: SpecLive<V, E>,
    id: SuspensionId,
    answer: Result<V, E>,
    w: SpecWorld,
)
    ensures
        settled(t, id, answer, unheard(w)) == quiet(settled(t, id, answer, w)),
    decreases t,
{
    match t {
        SpecLive::Steps { current: Some(c), .. } => lemma_settle_quiet(*c, id, answer, w),
        SpecLive::Fan { kids, .. } => {
            let i = first_true(waits(kids, id));
            if 0 <= i < kids.len() {
                lemma_settle_quiet(kids[i], id, answer, w);
            }
        },
        SpecLive::Scope { body: Some(b), .. } => lemma_settle_quiet(*b, id, answer, w),
        _ => {},
    }
}

proof fn lemma_move_quiet<A: Ast>(
    ast: A,
    registry: ReducerRegistry<A::Value, A::Delta, A::EffectError>,
    root: Option<SpecLive<A::Value, A::EffectError>>,
    w: SpecWorld,
)
    ensures
        next_move(ast, registry, root, unheard(w)) == match next_move(ast, registry, root, w) {
            SpecMove::Moved(t, w1) => SpecMove::Moved(t, unheard(w1)),
            SpecMove::Stuck => SpecMove::Stuck,
            SpecMove::Failed(t, w1, e) => SpecMove::Failed(t, unheard(w1), e),
            SpecMove::Broken(e) => SpecMove::Broken(e),
        },
{
    match root {
        None => lemma_start_quiet(ast, ast.root_spec(), seq![ast.root_spec()], w),
        Some(t) => {
            lemma_fail_quiet(t, w);
            lemma_catch_quiet(t, w);
            lemma_fill_quiet(ast, t, w);
            lemma_fire_quiet(registry, t, w);
            lemma_advance_quiet(ast, t, w);
        },
    }
}

proof fn lemma_run_quiet<A: Ast>(
    ast: A,
    registry: ReducerRegistry<A::Value, A::Delta, A::EffectError>,
    e: SpecEngine<A::Value, A::EffectError>,
    bps: Option<Seq<(BreakpointId, SpecCondition)>>,
    skip: bool,
    fuel: nat,
)
    ensures
        ran(ast, registry, unobserved(e), bps, skip, fuel).0 == unobserved(
            ran(ast, registry, e, bps, skip, fuel).0,
        ),
        ran(ast, registry, unobserved(e), bps, skip, fuel).1 == ran(
            ast,
            registry,
            e,
            bps,
            skip,
            fuel,
        ).1,
    decreases fuel,
{
    if !skip && stops_at(ast, e.root, bps) is Some {
    } else {
        lemma_move_quiet(ast, registry, e.root, e.world);
        if let SpecMove::Moved(t, w) = next_move(ast, registry, e.root, e.world) {
            let e1 = SpecEngine { root: Some(t), world: w, ..e };
            assert(unobserved(e1) == SpecEngine {
                root: Some(t),
                world: unheard(w),
                ..unobserved(e)
            });
            if fuel > 0 && !(t is Value) {
                lemma_run_quiet(ast, registry, e1, bps, false, (fuel - 1) as nat);
            }
        }
    }
}

/// An attached sink changes nothing: an engine without it steps to the same
/// state and the same report, and takes answers alike. What holds of an engine
/// that is listened to therefore holds of one that is not.
pub proof fn law_sinks_only_listen<A: Ast>(
    ast: A,
    registry: ReducerRegistry<A::Value, A::Delta, A::EffectError>,
    e: SpecEngine<A::Value, A::EffectError>,
    bps: Option<Seq<(BreakpointId, SpecCondition)>>,
    skip: bool,
    id: SuspensionId,
    answer: Result<A::Value, A::EffectError>,
)
    ensures
        stepped(ast, registry, unobserved(e), bps, skip).0 == unobserved(
            stepped(ast, registry, e, bps, skip).0,
        ),
        stepped(ast, registry, unobserved(e), bps, skip).1 == stepped(
            ast,
            registry,
            e,
            bps,
            skip,
        ).1,
        e.root matches Some(t) ==> resolved(unobserved(e), t, id, answer) == unobserved(
            resolved(e, t, id, answer),
        ),
{
    lemma_run_quiet(ast, registry, e, bps, skip, MOVE_LIMIT as nat);
    if let Some(t) = e.root {
        lemma_settle_quiet(t, id, answer, e.world);
    }
}

} // verus!
