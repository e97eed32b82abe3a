//! The numbers of suspensions over an interpretation.
use vstd::prelude::*;

use crate::breakpoint::SpecCondition;
use crate::engine::advance::{advanced, stepped_on};
use crate::engine::ast::Ast;
use crate::engine::cancel::{
    cancel_others, cancel_world, cancel_worlds, cancelled, caught, failed_up, failure,
};
use crate::engine::fire::fired;
use crate::engine::live::{
    advances, awaits, catches, fails, fires, first_true, gaps, joins, lemma_first_true_range,
    moves, node_of, waits, SpecLive,
};
use crate::engine::settle::{settled, taken};
use crate::engine::spawn::{filled, started};
use crate::engine::step::{
    next_move, ran, resolved, stepped, stops_at, SpecEngine, SpecMove, MOVE_LIMIT,
};
use crate::engine::world::{place, told, SpecWorld};
use crate::event::SpecEvent;
use crate::frame::CancelReason;
use crate::ids::{successor, BreakpointId, NodeId, SuspensionId};
use crate::join::{FailPolicy, ReducerRegistry};

verus! {

/// A suspension is live in a list of frames exactly when it is in one.
pub(crate) proof fn lemma_waits<V, E>(ts: Seq<SpecLive<V, E>>, id: SuspensionId)
    ensures
        first_true(waits(ts, id)) < ts.len() <==> (exists|i: int|
            0 <= i < ts.len() && awaits(#[trigger] ts[i], id)),
{
    let bs = waits(ts, id);
    lemma_first_true_range(bs);
    if first_true(bs) < ts.len() {
        assert(bs[first_true(bs)]);
        assert(awaits(ts[first_true(bs)], id));
    }
    if exists|i: int| 0 <= i < ts.len() && awaits(#[trigger] ts[i], id) {
        let i = choose|i: int| 0 <= i < ts.len() && awaits(#[trigger] ts[i], id);
        assert(bs[i]);
    }
}

/// Whether a change brought in no suspension but the next in number, and
/// counted it if it did.
pub open spec fn numbers_on<V, E>(
    before: SpecLive<V, E>,
    w: SpecWorld,
    after: SpecLive<V, E>,
    w1: SpecWorld,
    id: SuspensionId,
) -> bool {
    &&& w1.next_sid == w.next_sid || w1.next_sid == successor(w.next_sid)
    &&& awaits(after, id) && !awaits(before, id) ==> id.0 == w.next_sid && w1.next_sid == successor(
        w.next_sid,
    )
}

proof fn lemma_start_numbers<A: Ast>(
    ast: A,
    node: NodeId,
    path: Seq<NodeId>,
    w: SpecWorld,
    id: SuspensionId,
)
    ensures
        ({
            let (t1, w1) = started(ast, node, path, w);
            &&& w1.next_sid == w.next_sid || w1.next_sid == successor(w.next_sid)
            &&& awaits(t1, id) ==> id.0 == w.next_sid && w1.next_sid == successor(w.next_sid)
        }),
{
    let t1 = started(ast, node, path, w).0;
    if let SpecLive::Fan { kids, .. } = t1 {
        lemma_waits(kids, id);
    }
}

/// Replacing a frame brings in what the new frame brings in.
proof fn lemma_update_waits<V, E>(ts: Seq<SpecLive<V, E>>, i: int, k: SpecLive<V, E>, id: SuspensionId)
    requires
        0 <= i < ts.len(),
    ensures
        first_true(waits(ts.update(i, k), id)) < ts.len() ==> awaits(k, id) || first_true(
            waits(ts, id),
        ) < ts.len(),
        awaits(ts[i], id) ==> first_true(waits(ts, id)) < ts.len(),
{
    let us = ts.update(i, k);
    lemma_waits(ts, id);
    lemma_waits(us, id);
    if first_true(waits(us, id)) < us.len() {
        let j = choose|j: int| 0 <= j < us.len() && awaits(#[trigger] us[j], id);
        if j != i {
            assert(awaits(ts[j], id));
        }
    }
}

proof fn lemma_fill_numbers<A: Ast>(
    ast: A,
    t: SpecLive<A::Value, A::EffectError>,
    w: SpecWorld,
    id: SuspensionId,
)
    ensures
        numbers_on(t, w, filled(ast, t, w).0, filled(ast, t, w).1, id),
    decreases t,
{
    match t {
        SpecLive::Steps { current: Some(c), .. } => lemma_fill_numbers(ast, *c, w, id),
        SpecLive::Fan { path, ids, kids, .. } => {
            let i = first_true(gaps(kids));
            lemma_first_true_range(gaps(kids));
            if 0 <= i < kids.len() {
                lemma_fill_numbers(ast, kids[i], w, id);
                lemma_update_waits(kids, i, filled(ast, kids[i], w).0, id);
            } else {
                let next = ids[kids.len() as int];
                lemma_start_numbers(ast, next, path.push(next), w, id);
                let k1 = started(ast, next, path.push(next), w).0;
                let all = kids.push(k1);
                lemma_waits(kids, id);
                lemma_waits(all, id);
                if first_true(waits(all, id)) < all.len() {
                    let j = choose|j: int| 0 <= j < all.len() && awaits(#[trigger] all[j], id);
                    if j < kids.len() {
                        assert(awaits(kids[j], id));
                    }
                }
            }
        },
        SpecLive::Scope { path, body_id, body, .. } => {
            match body {
                Some(b) => lemma_fill_numbers(ast, *b, w, id),
                None => lemma_start_numbers(ast, body_id, path.push(body_id), w, id),
            }
        },
        _ => {},
    }
}

proof fn lemma_advance_numbers<A: Ast>(
    ast: A,
    t: SpecLive<A::Value, A::EffectError>,
    w: SpecWorld,
    id: SuspensionId,
)
    ensures
        numbers_on(t, w, advanced(ast, t, w).0, advanced(ast, t, w).1, id),
    decreases t,
{
    match t {
        SpecLive::Steps { node, path, ids, next, current, last } => {
            if 0 <= next < ids.len() {
                let ticked = told(w, SpecEvent::IterationTick { at: place(node, path, None) });
                lemma_start_numbers(ast, ids[next], path.push(ids[next]), ticked, id);
            }
            if let Some(c) = current {
                lemma_advance_numbers(ast, *c, w, id);
                if let SpecLive::Value { value, .. } = *c {
                    assert(!advances(*c));
                    let (t1, w1) = stepped_on(ast, node, path, ids, next, Some(value), w);
                    assert(advanced(ast, t, w) == (t1, w1));
                }
            } else {
                let (t1, w1) = stepped_on(ast, node, path, ids, next, last, w);
                assert(advanced(ast, t, w) == (t1, w1));
            }
        },
        SpecLive::Fan { kids, .. } => {
            let i = first_true(moves(kids));
            if 0 <= i < kids.len() {
                lemma_advance_numbers(ast, kids[i], w, id);
                lemma_update_waits(kids, i, advanced(ast, kids[i], w).0, id);
            }
        },
        SpecLive::Scope { body: Some(b), .. } => lemma_advance_numbers(ast, *b, w, id),
        _ => {},
    }
}

proof fn lemma_cancel_keeps_number<V, E>(t: SpecLive<V, E>, w: SpecWorld)
    ensures
        cancel_world(t, w).next_sid == w.next_sid,
    decreases t, 0int,
{
    match t {
        SpecLive::Steps { current: Some(c), .. } => lemma_cancel_keeps_number(*c, w),
        SpecLive::Fan { kids, .. } => lemma_cancels_keep_number(kids, kids.len(), w),
        SpecLive::Scope { body: Some(b), .. } => lemma_cancel_keeps_number(*b, w),
        _ => {},
    }
}

proof fn lemma_cancels_keep_number<V, E>(ts: Seq<SpecLive<V, E>>, n: nat, w: SpecWorld)
    ensures
        cancel_worlds(ts, n, w).next_sid == w.next_sid,
    decreases ts, n,
{
    if 0 < n <= ts.len() {
        lemma_cancels_keep_number(ts, (n - 1) as nat, w);
        lemma_cancel_keeps_number(ts[n - 1], cancel_worlds(ts, (n - 1) as nat, w));
    }
}

proof fn lemma_fire_numbers<A: Ast>(
    registry: ReducerRegistry<A::Value, A::Delta, A::EffectError>,
    t: SpecLive<A::Value, A::EffectError>,
    w: SpecWorld,
    id: SuspensionId,
)
    ensures
        fired(registry, t, w) matches Ok(p) ==> numbers_on(t, w, p.0, p.1, id),
    decreases t,
{
    match t {
        SpecLive::Steps { current: Some(c), .. } => lemma_fire_numbers::<A>(registry, *c, w, id),
        SpecLive::Fan { policy, ids, kids, order, .. } => {
            if joins(policy, ids, kids, order) {
                lemma_cancels_keep_number(kids, kids.len(), w);
            } else {
                let i = first_true(fires(kids));
                if 0 <= i < kids.len() {
                    lemma_fire_numbers::<A>(registry, kids[i], w, id);
                    if fired(registry, kids[i], w) is Ok {
                        lemma_update_waits(kids, i, fired(registry, kids[i], w)->Ok_0.0, id);
                    }
                }
            }
        },
        SpecLive::Scope { body: Some(b), .. } => lemma_fire_numbers::<A>(registry, *b, w, id),
        _ => {},
    }
}

proof fn lemma_cancel_others_numbers<V, E>(
    ts: Seq<SpecLive<V, E>>,
    keep: int,
    reason: CancelReason,
    m: nat,
    w: SpecWorld,
    id: SuspensionId,
)
    requires
        m <= ts.len(),
    ensures
        cancel_others(ts, keep, reason, m, w).0.len() == ts.len(),
        cancel_others(ts, keep, reason, m, w).1.next_sid == w.next_sid,
        forall|j: int|
            0 <= j < ts.len() && awaits(
                #[trigger] cancel_others(ts, keep, reason, m, w).0[j],
                id,
            ) ==> awaits(ts[j], id),
    decreases m,
{
    if m > 0 {
        lemma_cancel_others_numbers(ts, keep, reason, (m - 1) as nat, w, id);
        let (ts1, w1) = cancel_others(ts, keep, reason, (m - 1) as nat, w);
        let j = m - 1;
        if j != keep {
            lemma_cancel_keeps_number(ts[j], w1);
            assert(!awaits(cancelled(ts[j], reason), id));
        }
    }
}

proof fn lemma_fail_numbers<V, E>(t: SpecLive<V, E>, w: SpecWorld, id: SuspensionId)
    ensures
        failed_up(t, w).1.next_sid == w.next_sid,
        awaits(failed_up(t, w).0, id) ==> awaits(t, id),
    decreases t,
{
    match t {
        SpecLive::Steps { current: Some(c), .. } => lemma_fail_numbers(*c, w, id),
        SpecLive::Fan { kids, .. } => {
            let i = first_true(fails(kids));
            if 0 <= i < kids.len() {
                lemma_fail_numbers(kids[i], w, id);
                let (k1, w1) = failed_up(kids[i], w);
                let us = kids.update(i, k1);
                lemma_cancel_others_numbers(
                    us,
                    i,
                    CancelReason::SiblingFailed,
                    kids.len(),
                    w1,
                    id,
                );
                let vs = cancel_others(us, i, CancelReason::SiblingFailed, kids.len(), w1).0;
                lemma_waits(kids, id);
                lemma_waits(vs, id);
                if first_true(waits(vs, id)) < vs.len() {
                    let j = choose|j: int| 0 <= j < vs.len() && awaits(#[trigger] vs[j], id);
                    assert(awaits(us[j], id));
                    assert(awaits(kids[j], id));
                }
            }
        },
        SpecLive::Scope { body: Some(b), .. } => lemma_fail_numbers(*b, w, id),
        _ => {},
    }
}

proof fn lemma_catch_numbers<V, E>(t: SpecLive<V, E>, w: SpecWorld, id: SuspensionId)
    ensures
        caught(t, w).1.next_sid == w.next_sid,
        awaits(caught(t, w).0, id) ==> awaits(t, id),
    decreases t,
{
    match t {
        SpecLive::Steps { current: Some(c), .. } => lemma_catch_numbers(*c, w, id),
        SpecLive::Fan { policy, kids, .. } => {
            let i = first_true(fails(kids));
            let j = first_true(catches(kids));
            if policy.fail == FailPolicy::CollectAll && 0 <= i < kids.len() {
                lemma_fail_numbers(kids[i], w, id);
                let (k1, w1) = failed_up(kids[i], w);
                lemma_cancel_keeps_number(k1, w1);
                let k2 = SpecLive::Cancelled {
                    node: node_of(kids[i]),
                    reason: CancelReason::SiblingFailed,
                    failure: Some(failure(kids[i])),
                };
                assert(!awaits(k2, id));
                lemma_update_waits(kids, i, k2, id);
            } else if 0 <= j < kids.len() {
                lemma_catch_numbers(kids[j], w, id);
                lemma_update_waits(kids, j, caught(kids[j], w).0, id);
            }
        },
        SpecLive::Scope { body: Some(b), .. } => lemma_catch_numbers(*b, w, id),
        _ => {},
    }
}

proof fn lemma_settle_numbers<V, E>(
    t: SpecLive<V, E>,
    of: SuspensionId,
    answer: Result<V, E>,
    w: SpecWorld,
    id: SuspensionId,
)
    ensures
        settled(t, of, answer, w).1.next_sid == w.next_sid,
        awaits(settled(t, of, answer, w).0, id) ==> awaits(t, id),
    decreases t,
{
    match t {
        SpecLive::Steps { current: Some(c), .. } => lemma_settle_numbers(
            *c,
            of,
            answer,
            w,
            id,
        ),
        SpecLive::Fan { policy, kids, .. } => {
            let i = first_true(waits(kids, of));
            if 0 <= i < kids.len() {
                lemma_settle_numbers(kids[i], of, answer, w, id);
                let k0 = settled(kids[i], of, answer, w).0;
                assert(awaits(taken(policy.fail, k0), id) ==> awaits(k0, id));
                lemma_update_waits(kids, i, taken(policy.fail, k0), id);
            }
        },
        SpecLive::Scope { body: Some(b), .. } => lemma_settle_numbers(
            *b,
            of,
            answer,
            w,
            id,
        ),
        _ => {},
    }
}

/// Whether a suspension of an engine is live: a waiting call's, or that of
/// the breakpoint it stands at.
pub open spec fn live_in<V, E>(e: SpecEngine<V, E>, id: SuspensionId) -> bool {
    ||| e.root matches Some(t) && awaits(t, id)
    ||| e.halt matches Some(mark) && mark.id == id
}

/// Whether numbers are left for every suspension that a run may create.
pub open spec fn numbers_left<A: Ast>(
    ast: A,
    registry: ReducerRegistry<A::Value, A::Delta, A::EffectError>,
    e: SpecEngine<A::Value, A::EffectError>,
    bps: Option<Seq<(BreakpointId, SpecCondition)>>,
    skip: bool,
    fuel: nat,
) -> bool
    decreases fuel,
{
    e.world.next_sid < u64::MAX && (!skip && stops_at(ast, e.root, bps) is Some || match next_move(
        ast,
        registry,
        e.root,
        e.world,
    ) {
        SpecMove::Moved(t, w) => t is Value || fuel == 0 || numbers_left(
            ast,
            registry,
            SpecEngine { root: Some(t), world: w, ..e },
            bps,
            false,
            (fuel - 1) as nat,
        ),
        _ => true,
    })
}

proof fn lemma_run_numbers<A: Ast>(
    ast: A,
    registry: ReducerRegistry<A::Value, A::Delta, A::EffectError>,
    e: SpecEngine<A::Value, A::EffectError>,
    bps: Option<Seq<(BreakpointId, SpecCondition)>>,
    skip: bool,
    fuel: nat,
    id: SuspensionId,
)
    requires
        numbers_left(ast, registry, e, bps, skip, fuel),
    ensures
        ({
            let after = ran(ast, registry, e, bps, skip, fuel).0;
            &&& e.world.next_sid <= after.world.next_sid
            &&& live_in(after, id) && !live_in(e, id) ==> e.world.next_sid <= id.0
                < after.world.next_sid
        }),
    decreases fuel,
{
    if !skip && stops_at(ast, e.root, bps) is Some {
    } else {
        match e.root {
            None => {
                lemma_start_numbers(ast, ast.root_spec(), seq![ast.root_spec()], e.world, id);
            },
            Some(t) => {
                lemma_fail_numbers(t, e.world, id);
                lemma_catch_numbers(t, e.world, id);
                lemma_fill_numbers(ast, t, e.world, id);
                lemma_fire_numbers::<A>(registry, t, e.world, id);
                lemma_advance_numbers(ast, t, e.world, id);
            },
        }
        if let SpecMove::Moved(t, w) = next_move(ast, registry, e.root, e.world) {
            let e1 = SpecEngine { root: Some(t), world: w, ..e };
            assert(e.world.next_sid <= w.next_sid);
            assert(live_in(e1, id) && !live_in(e, id) ==> e.world.next_sid <= id.0 < w.next_sid);
            if fuel > 0 && !(t is Value) {
                lemma_run_numbers(ast, registry, e1, bps, false, (fuel - 1) as nat, id);
            }
        }
    }
}

/// The number of a suspension is never used again, not even after the
/// suspension was cancelled: whatever a step makes live carries a number that
/// was not handed out before, numbers only grow, and an answer makes nothing
/// live. This is said of engines that do not run out of numbers.
pub proof fn law_suspension_numbers_are_never_reused<A: Ast>(
    ast: A,
    registry: ReducerRegistry<A::Value, A::Delta, A::EffectError>,
    e: SpecEngine<A::Value, A::EffectError>,
    bps: Option<Seq<(BreakpointId, SpecCondition)>>,
    skip: bool,
    id: SuspensionId,
    of: SuspensionId,
    answer: Result<A::Value, A::EffectError>,
)
    requires
        numbers_left(ast, registry, e, bps, skip, MOVE_LIMIT as nat),
    ensures
        ({
            let after = stepped(ast, registry, e, bps, skip).0;
            &&& e.world.next_sid <= after.world.next_sid
            &&& live_in(after, id) && !live_in(e, id) ==> e.world.next_sid <= id.0
                < after.world.next_sid
        }),
        e.root matches Some(t) ==> ({
            let after = resolved(e, t, of, answer);
            &&& after.world.next_sid == e.world.next_sid
            &&& live_in(after, id) ==> live_in(e, id)
        }),
{
    lemma_run_numbers(ast, registry, e, bps, skip, MOVE_LIMIT as nat, id);
    if let Some(t) = e.root {
        lemma_settle_numbers(
            t,
            of,
            answer,
            e.world,
            id,
        );
    }
}

} // verus!
