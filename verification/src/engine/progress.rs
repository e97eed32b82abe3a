//! Why an engine that cannot move waits for an answer.
use vstd::prelude::*;

use crate::breakpoint::SpecCondition;
use crate::engine::advance::advanced;
use crate::engine::ast::{Ast, SpecKind};
use crate::engine::cancel::{caught, failure};
use crate::engine::fire::fired;
use crate::engine::laws::{
    engine_sound, lemma_all_sound, lemma_move_sound, sound,
};
use crate::engine::live::{
    advances, all_suspensions, awaits, catches, catching, collected, failing, fails, fireable,
    fires, first_true, gaps, has_gap, joins, lemma_first_true_range, losses, moves, node_of,
    suspensions, waits, SpecLive,
};
use crate::engine::settle::{settled, taken};
use crate::engine::spawn::{filled, started};
use crate::engine::step::{
    fresh_engine, live_pending, next_move, ran, resolved, stepped, stops_at, SpecEngine, SpecMove,
    MOVE_LIMIT,
};
use crate::engine::validate::surveyed;
use crate::engine::world::{place, told, SpecWorld};
use crate::event::SpecEvent;
use crate::frame::{CancelReason, SpecOutcome};
use crate::ids::{BreakpointId, NodeId, SuspensionId};
use crate::join::{FailPolicy, ReducerRegistry};

verus! {

/// How many frames hold a value.
pub open spec fn wins<V, E>(ts: Seq<SpecLive<V, E>>) -> int
    decreases ts.len(),
{
    if ts.len() == 0 {
        0
    } else {
        wins(ts.drop_last()) + if ts.last() is Value {
            1int
        } else {
            0
        }
    }
}

/// Whether the frames agree with each other: a fan-out has counted every
/// value, only a fan-out that collects has cancelled children, each with the
/// failure it collects, and nothing else has a cancelled child.
pub open spec fn orderly<V, E>(t: SpecLive<V, E>) -> bool
    decreases t,
{
    match t {
        SpecLive::Steps { current: Some(c), .. } => orderly(*c) && !(*c is Cancelled),
        SpecLive::Fan { policy, ids, kids, order, .. } => kids.len() <= ids.len() && order.len()
            == wins(kids) && all_orderly(policy.fail, kids, kids.len()),
        SpecLive::Scope { body: Some(b), .. } => orderly(*b) && !(*b is Cancelled),
        _ => true,
    }
}

/// The same of the first `n` children of a fan-out.
pub open spec fn all_orderly<V, E>(fail: FailPolicy, ts: Seq<SpecLive<V, E>>, n: nat) -> bool
    decreases ts, n,
{
    if n == 0 || n > ts.len() {
        true
    } else {
        all_orderly(fail, ts, (n - 1) as nat) && orderly(ts[n - 1]) && placed(fail, ts[n - 1])
    }
}

/// Whether a frame may stand below a fan-out.
pub open spec fn placed<V, E>(fail: FailPolicy, t: SpecLive<V, E>) -> bool {
    t is Cancelled ==> fail == FailPolicy::CollectAll && collected(t) is Some
}

proof fn lemma_all_orderly<V, E>(fail: FailPolicy, ts: Seq<SpecLive<V, E>>, n: nat)
    requires
        n <= ts.len(),
    ensures
        all_orderly(fail, ts, n) <==> (forall|i: int|
            0 <= i < n ==> orderly(#[trigger] ts[i]) && placed(fail, ts[i])),
    decreases n,
{
    if n > 0 {
        lemma_all_orderly(fail, ts, (n - 1) as nat);
        if forall|i: int| 0 <= i < n ==> orderly(#[trigger] ts[i]) && placed(fail, ts[i]) {
            assert(orderly(ts[n - 1]) && placed(fail, ts[n - 1]));
        }
    }
}

proof fn lemma_wins_update<V, E>(ts: Seq<SpecLive<V, E>>, i: int, k: SpecLive<V, E>)
    requires
        0 <= i < ts.len(),
        !(ts[i] is Value),
    ensures
        wins(ts.update(i, k)) == wins(ts) + if k is Value {
            1int
        } else {
            0
        },
    decreases ts.len(),
{
    let after = ts.update(i, k);
    if i == ts.len() - 1 {
        assert(after.drop_last() =~= ts.drop_last());
    } else {
        assert(after.drop_last() =~= ts.drop_last().update(i, k));
        lemma_wins_update(ts.drop_last(), i, k);
    }
}

/// A child that held no value may be replaced.
proof fn lemma_orderly_update<V, E>(
    fail: FailPolicy,
    ts: Seq<SpecLive<V, E>>,
    i: int,
    k: SpecLive<V, E>,
)
    requires
        0 <= i < ts.len(),
        all_orderly(fail, ts, ts.len()),
        orderly(k),
        placed(fail, k),
        !(ts[i] is Value),
    ensures
        all_orderly(fail, ts.update(i, k), ts.len()),
        wins(ts.update(i, k)) == wins(ts) + if k is Value {
            1int
        } else {
            0
        },
{
    lemma_wins_update(ts, i, k);
    lemma_all_orderly(fail, ts, ts.len());
    lemma_all_orderly(fail, ts.update(i, k), ts.len());
}

proof fn lemma_start_orderly<A: Ast>(
    ast: A,
    id: NodeId,
    path: Seq<NodeId>,
    w: SpecWorld,
)
    ensures
        orderly(started(ast, id, path, w).0),
        !(started(ast, id, path, w).0 is Value),
        !(started(ast, id, path, w).0 is Cancelled),
{
    let none = Seq::<SpecLive<A::Value, A::EffectError>>::empty();
    if let SpecKind::Par { policy, .. } = ast.kind_spec(id) {
        assert(all_orderly(policy.fail, none, 0));
        assert(wins(none) == 0);
    }
}

proof fn lemma_fill_orderly<A: Ast>(
    ast: A,
    t: SpecLive<A::Value, A::EffectError>,
    w: SpecWorld,
)
    requires
        orderly(t),
        has_gap(t),
    ensures
        orderly(filled(ast, t, w).0),
        !(filled(ast, t, w).0 is Value),
        !(filled(ast, t, w).0 is Cancelled),
    decreases t,
{
    match t {
        SpecLive::Steps { current: Some(c), .. } => lemma_fill_orderly(ast, *c, w),
        SpecLive::Fan { path, policy, ids, kids, .. } => {
            let i = first_true(gaps(kids));
            lemma_first_true_range(gaps(kids));
            lemma_all_orderly(policy.fail, kids, kids.len());
            if 0 <= i < kids.len() {
                assert(gaps(kids)[i]);
                lemma_fill_orderly(ast, kids[i], w);
                lemma_orderly_update(policy.fail, kids, i, filled(ast, kids[i], w).0);
            } else {
                let id = ids[kids.len() as int];
                let k1 = started(ast, id, path.push(id), w).0;
                lemma_start_orderly(ast, id, path.push(id), w);
                lemma_all_orderly(policy.fail, kids.push(k1), (kids.len() + 1) as nat);
                assert(kids.push(k1).drop_last() =~= kids);
            }
        },
        SpecLive::Scope { path, body_id, body, .. } => {
            match body {
                Some(b) => lemma_fill_orderly(ast, *b, w),
                None => lemma_start_orderly(ast, body_id, path.push(body_id), w),
            }
        },
        _ => {},
    }
}

proof fn lemma_advance_orderly<A: Ast>(
    ast: A,
    t: SpecLive<A::Value, A::EffectError>,
    w: SpecWorld,
)
    requires
        orderly(t),
        advances(t),
    ensures
        orderly(advanced(ast, t, w).0),
        !(advanced(ast, t, w).0 is Cancelled),
    decreases t,
{
    match t {
        SpecLive::Steps { node, path, ids, next, current, .. } => {
            if 0 <= next < ids.len() {
                let ticked = told(w, SpecEvent::IterationTick { at: place(node, path, None) });
                lemma_start_orderly(ast, ids[next], path.push(ids[next]), ticked);
            }
            if let Some(c) = current {
                if advances(*c) {
                    lemma_advance_orderly(ast, *c, w);
                }
            }
        },
        SpecLive::Fan { policy, kids, .. } => {
            let i = first_true(moves(kids));
            lemma_first_true_range(moves(kids));
            lemma_all_orderly(policy.fail, kids, kids.len());
            assert(moves(kids)[i]);
            lemma_advance_orderly(ast, kids[i], w);
            lemma_orderly_update(policy.fail, kids, i, advanced(ast, kids[i], w).0);
        },
        SpecLive::Scope { body: Some(b), .. } => {
            if advances(*b) {
                lemma_advance_orderly(ast, *b, w);
            }
        },
        _ => {},
    }
}

proof fn lemma_fire_orderly<V, D, E>(
    registry: ReducerRegistry<V, D, E>,
    t: SpecLive<V, E>,
    w: SpecWorld,
)
    requires
        orderly(t),
        fireable(t),
    ensures
        fired(registry, t, w) matches Ok(p) ==> orderly(p.0) && !(p.0 is Cancelled),
    decreases t,
{
    match t {
        SpecLive::Steps { current: Some(c), .. } => lemma_fire_orderly(registry, *c, w),
        SpecLive::Fan { policy, ids, kids, order, .. } => {
            if !joins(policy, ids, kids, order) {
                let i = first_true(fires(kids));
                lemma_first_true_range(fires(kids));
                lemma_all_orderly(policy.fail, kids, kids.len());
                assert(fires(kids)[i]);
                lemma_fire_orderly(registry, kids[i], w);
                if let Ok(p) = fired(registry, kids[i], w) {
                    lemma_orderly_update(policy.fail, kids, i, p.0);
                }
            }
        },
        SpecLive::Scope { body: Some(b), .. } => lemma_fire_orderly(registry, *b, w),
        _ => {},
    }
}

proof fn lemma_catch_orderly<V, E>(t: SpecLive<V, E>, w: SpecWorld)
    requires
        orderly(t),
        catching(t),
    ensures
        orderly(caught(t, w).0),
        !(caught(t, w).0 is Cancelled),
        !(caught(t, w).0 is Value),
    decreases t,
{
    match t {
        SpecLive::Steps { current: Some(c), .. } => lemma_catch_orderly(*c, w),
        SpecLive::Fan { policy, kids, .. } => {
            let i = first_true(fails(kids));
            let j = first_true(catches(kids));
            lemma_first_true_range(fails(kids));
            lemma_first_true_range(catches(kids));
            lemma_all_orderly(policy.fail, kids, kids.len());
            if policy.fail == FailPolicy::CollectAll && i < kids.len() {
                assert(fails(kids)[i]);
                let k2 = SpecLive::Cancelled {
                    node: node_of(kids[i]),
                    reason: CancelReason::SiblingFailed,
                    failure: Some(failure(kids[i])),
                };
                lemma_orderly_update(policy.fail, kids, i, k2);
            } else {
                assert(catches(kids)[j]);
                lemma_catch_orderly(kids[j], w);
                lemma_orderly_update(policy.fail, kids, j, caught(kids[j], w).0);
            }
        },
        SpecLive::Scope { body: Some(b), .. } => lemma_catch_orderly(*b, w),
        _ => {},
    }
}

proof fn lemma_settle_orderly<V, E>(
    t: SpecLive<V, E>,
    id: SuspensionId,
    answer: Result<V, E>,
    w: SpecWorld,
)
    requires
        orderly(t),
        awaits(t, id),
    ensures
        orderly(settled(t, id, answer, w).0),
        !(settled(t, id, answer, w).0 is Cancelled),
    decreases t,
{
    match t {
        SpecLive::Steps { current: Some(c), .. } => lemma_settle_orderly(*c, id, answer, w),
        SpecLive::Fan { policy, kids, .. } => {
            let i = first_true(waits(kids, id));
            lemma_first_true_range(waits(kids, id));
            lemma_all_orderly(policy.fail, kids, kids.len());
            assert(waits(kids, id)[i]);
            lemma_settle_orderly(kids[i], id, answer, w);
            lemma_orderly_update(
                policy.fail,
                kids,
                i,
                taken(policy.fail, settled(kids[i], id, answer, w).0),
            );
        },
        SpecLive::Scope { body: Some(b), .. } => lemma_settle_orderly(*b, id, answer, w),
        _ => {},
    }
}

proof fn lemma_all_counted<V, E>(ts: Seq<SpecLive<V, E>>)
    requires
        forall|i: int|
            0 <= i < ts.len() ==> (#[trigger] ts[i] is Value || collected(ts[i]) is Some),
    ensures
        wins(ts) + losses(ts) == ts.len(),
        wins(ts) >= 0,
        losses(ts) >= 0,
    decreases ts.len(),
{
    if ts.len() > 0 {
        let front = ts.drop_last();
        assert forall|i: int| 0 <= i < front.len() implies (#[trigger] front[i] is Value
            || collected(front[i]) is Some) by {
            assert(front[i] == ts[i]);
        }
        lemma_all_counted(front);
        assert(ts.last() == ts[ts.len() - 1]);
    }
}

pub(crate) proof fn lemma_no_losses<V, E>(ts: Seq<SpecLive<V, E>>)
    requires
        forall|i: int| 0 <= i < ts.len() ==> collected(#[trigger] ts[i]) is None,
    ensures
        losses(ts) == 0,
    decreases ts.len(),
{
    if ts.len() > 0 {
        let front = ts.drop_last();
        assert forall|i: int| 0 <= i < front.len() implies collected(#[trigger] front[i]) is None by {
            assert(front[i] == ts[i]);
        }
        lemma_no_losses(front);
        assert(ts.last() == ts[ts.len() - 1]);
    }
}

proof fn lemma_one_waits<V, E>(ts: Seq<SpecLive<V, E>>, i: int, n: nat)
    requires
        0 <= i < n <= ts.len(),
        suspensions(ts[i]).len() > 0,
    ensures
        all_suspensions(ts, n).len() > 0,
    decreases n,
{
    if i < n - 1 {
        lemma_one_waits(ts, i, (n - 1) as nat);
    }
}

/// Frames that cannot move wait for an answer.
proof fn lemma_stuck_waits<A: Ast>(
    ast: A,
    registry: ReducerRegistry<A::Value, A::Delta, A::EffectError>,
    t: SpecLive<A::Value, A::EffectError>,
)
    requires
        sound(ast, registry, t),
        orderly(t),
        !(t is Value),
        !(t is Cancelled),
        !failing(t),
        !catching(t),
        !has_gap(t),
        !fireable(t),
        !advances(t),
    ensures
        suspensions(t).len() > 0,
    decreases t,
{
    match t {
        SpecLive::Steps { current: Some(c), .. } => lemma_stuck_waits(ast, registry, *c),
        SpecLive::Scope { body: Some(b), .. } => lemma_stuck_waits(ast, registry, *b),
        SpecLive::Fan { policy, ids, kids, order, .. } => {
            lemma_all_orderly(policy.fail, kids, kids.len());
            lemma_all_sound(ast, registry, kids, kids.len());
            lemma_first_true_range(fails(kids));
            lemma_first_true_range(catches(kids));
            lemma_first_true_range(gaps(kids));
            lemma_first_true_range(fires(kids));
            lemma_first_true_range(moves(kids));
            if exists|i: int|
                0 <= i < kids.len() && !(#[trigger] kids[i] is Value) && !(kids[i] is Cancelled) {
                let i = choose|i: int|
                    0 <= i < kids.len() && !(#[trigger] kids[i] is Value) && !(
                    kids[i] is Cancelled);
                assert(!fails(kids)[i]);
                assert(!catches(kids)[i]);
                assert(!gaps(kids)[i]);
                assert(!fires(kids)[i]);
                assert(!moves(kids)[i]);
                assert(orderly(kids[i]));
                assert(sound(ast, registry, kids[i]));
                lemma_stuck_waits(ast, registry, kids[i]);
                lemma_one_waits(kids, i, kids.len());
            } else {
                assert forall|i: int| 0 <= i < kids.len() implies (#[trigger] kids[i] is Value
                    || collected(kids[i]) is Some) by {
                    assert(placed(policy.fail, kids[i]));
                }
                lemma_all_counted(kids);
                if policy.fail == FailPolicy::FailFast {
                    assert forall|i: int| 0 <= i < kids.len() implies collected(
                        #[trigger] kids[i],
                    ) is None by {
                        assert(placed(policy.fail, kids[i]));
                    }
                    lemma_no_losses(kids);
                }
                assert(joins(policy, ids, kids, order));
            }
        },
        _ => {},
    }
}

/// Whether the frames of an engine that is not over agree with each other.
pub open spec fn engine_orderly<V, E>(e: SpecEngine<V, E>) -> bool {
    !e.done ==> match e.root {
        Some(t) => orderly(t) && !(t is Cancelled),
        None => true,
    }
}

proof fn lemma_run_orderly<A: Ast>(
    ast: A,
    registry: ReducerRegistry<A::Value, A::Delta, A::EffectError>,
    e: SpecEngine<A::Value, A::EffectError>,
    bps: Option<Seq<(BreakpointId, SpecCondition)>>,
    skip: bool,
    fuel: nat,
)
    requires
        !e.done,
        engine_orderly(e),
        !(e.root matches Some(t) && t is Value),
    ensures
        engine_orderly(ran(ast, registry, e, bps, skip, fuel).0),
    decreases fuel,
{
    if !skip && stops_at(ast, e.root, bps) is Some {
    } else {
        lemma_move_orderly(ast, registry, e.root, e.world);
        if let SpecMove::Moved(t, w) = next_move(ast, registry, e.root, e.world) {
            if fuel > 0 && !(t is Value) {
                let e1 = SpecEngine { root: Some(t), world: w, ..e };
                lemma_run_orderly(ast, registry, e1, bps, false, (fuel - 1) as nat);
            }
        }
    }
}

proof fn lemma_move_orderly<A: Ast>(
    ast: A,
    registry: ReducerRegistry<A::Value, A::Delta, A::EffectError>,
    root: Option<SpecLive<A::Value, A::EffectError>>,
    w: SpecWorld,
)
    requires
        root matches Some(t) ==> orderly(t),
    ensures
        next_move(ast, registry, root, w) matches SpecMove::Moved(t, _) ==> orderly(t) && !(
        t is Cancelled),
{
    match root {
        None => lemma_start_orderly(ast, ast.root_spec(), seq![ast.root_spec()], w),
        Some(t) => {
            if failing(t) {
            } else if catching(t) {
                lemma_catch_orderly(t, w);
            } else if has_gap(t) {
                lemma_fill_orderly(ast, t, w);
            } else if fireable(t) {
                lemma_fire_orderly(registry, t, w);
            } else if advances(t) {
                lemma_advance_orderly(ast, t, w);
            }
        },
    }
}

proof fn lemma_run_waits<A: Ast>(
    ast: A,
    registry: ReducerRegistry<A::Value, A::Delta, A::EffectError>,
    e: SpecEngine<A::Value, A::EffectError>,
    bps: Option<Seq<(BreakpointId, SpecCondition)>>,
    skip: bool,
    fuel: nat,
)
    requires
        surveyed(ast, registry, None),
        !e.done,
        engine_orderly(e),
        engine_sound(ast, registry, e),
        !(e.root matches Some(t) && t is Value),
    ensures
        ({
            let (e1, out) = ran(ast, registry, e, bps, skip, fuel);
            out matches Ok(SpecOutcome::Blocked { .. }) ==> live_pending(e1).len() > 0
        }),
    decreases fuel,
{
    if !skip && stops_at(ast, e.root, bps) is Some {
    } else {
        lemma_move_orderly(ast, registry, e.root, e.world);
        match next_move(ast, registry, e.root, e.world) {
            SpecMove::Moved(t, w) => {
                if fuel > 0 && !(t is Value) {
                    let e1 = SpecEngine { root: Some(t), world: w, ..e };
                    lemma_move_sound(ast, registry, e.root, e.world);
                    lemma_run_waits(ast, registry, e1, bps, false, (fuel - 1) as nat);
                }
            },
            SpecMove::Stuck => {
                if let Some(t) = e.root {
                    lemma_stuck_waits(ast, registry, t);
                }
            },
            _ => {},
        }
    }
}

/// An engine of a valid tree that reports to be blocked waits for an answer
/// or stands at a breakpoint: a value is never left uncounted and a failure
/// never dropped on the way. Stepping and answering keep what this rests on.
pub proof fn law_a_blocked_engine_waits_for_the_host<A: Ast>(
    ast: A,
    registry: ReducerRegistry<A::Value, A::Delta, A::EffectError>,
    e: SpecEngine<A::Value, A::EffectError>,
    bps: Option<Seq<(BreakpointId, SpecCondition)>>,
    skip: bool,
    id: SuspensionId,
    answer: Result<A::Value, A::EffectError>,
)
    requires
        surveyed(ast, registry, None),
    ensures
        engine_orderly(fresh_engine::<A::Value, A::EffectError>()),
        engine_orderly(e) ==> engine_orderly(stepped(ast, registry, e, bps, skip).0),
        engine_orderly(e) && e.root is Some && awaits(e.root->0, id) ==> engine_orderly(
            resolved(e, e.root->0, id, answer),
        ),
        engine_orderly(e) && engine_sound(ast, registry, e) && !e.done ==> ({
            let (e1, out) = stepped(ast, registry, e, bps, skip);
            out matches Ok(SpecOutcome::Blocked { .. }) ==> live_pending(e1).len() > 0
        }),
{
    if engine_orderly(e) && !e.done {
        if !(e.root matches Some(t) && t is Value) {
            lemma_run_orderly(ast, registry, e, bps, skip, MOVE_LIMIT as nat);
            if engine_sound(ast, registry, e) {
                lemma_run_waits(ast, registry, e, bps, skip, MOVE_LIMIT as nat);
            }
        }
        if let Some(t) = e.root {
            if awaits(t, id) {
                lemma_settle_orderly(t, id, answer, e.world);
            }
        }
    }
}

} // verus!
