//! What becomes of waiting calls.
use vstd::prelude::*;

use crate::breakpoint::SpecCondition;
use crate::engine::advance::{advanced, stepped_on};
use crate::engine::ast::Ast;
use crate::engine::cancel::{
    cancel_others, cancel_world, cancel_worlds, cancelled, caught, failed_up, failure,
};
use crate::engine::fire::fired;
use crate::engine::live::{
    advances, awaits, catches, fails, fires, first_true, gaps, joins, lemma_first_true_range,
    moves, node_of, waits, SpecLive,
};
use crate::engine::numbers::{lemma_waits, numbers_left};
use crate::engine::settle::{settled, taken};
use crate::engine::spawn::{filled, started};
use crate::engine::step::{
    next_move, ran, resolved, stepped, stops_at, SpecEngine, SpecMove, MOVE_LIMIT,
};
use crate::engine::world::{place, told, SpecWorld};
use crate::event::SpecEvent;
use crate::frame::CancelReason;
use crate::ids::{successor, BreakpointId, NodeId, SuspensionId};
use crate::join::{FailPolicy, ReducerRegistry};

verus! {

/// How many calls of a number wait in a frame.
pub open spec fn calls<V, E>(t: SpecLive<V, E>, id: SuspensionId) -> int
    decreases t, 0int,
{
    match t {
        SpecLive::Steps { current: Some(c), .. } => calls(*c, id),
        SpecLive::Fan { kids, .. } => all_calls(kids, kids.len(), id),
        SpecLive::Scope { body: Some(b), .. } => calls(*b, id),
        SpecLive::Pending { sid, .. } => if sid == id {
            1
        } else {
            0
        },
        _ => 0,
    }
}

/// How many calls of a number wait in the first `n` frames.
pub open spec fn all_calls<V, E>(ts: Seq<SpecLive<V, E>>, n: nat, id: SuspensionId) -> int
    decreases ts, n,
{
    if n == 0 || n > ts.len() {
        0
    } else {
        all_calls(ts, (n - 1) as nat, id) + calls(ts[n - 1], id)
    }
}

/// How many times a number is listed.
pub open spec fn times(ids: Seq<SuspensionId>, id: SuspensionId) -> int
    decreases ids.len(),
{
    if ids.len() == 0 {
        0
    } else {
        times(ids.drop_last(), id) + if ids.last() == id {
            1int
        } else {
            0
        }
    }
}

/// How many calls of a number wait or were cancelled and not collected yet.
pub open spec fn accounted<V, E>(t: SpecLive<V, E>, w: SpecWorld, id: SuspensionId) -> int {
    calls(t, id) + times(w.cancelled, id)
}

proof fn lemma_times(ids: Seq<SuspensionId>, id: SuspensionId)
    ensures
        times(ids, id) >= 0,
        times(ids, id) > 0 <==> ids.contains(id),
    decreases ids.len(),
{
    if ids.len() > 0 {
        let front = ids.drop_last();
        lemma_times(front, id);
        if ids.last() == id {
            assert(ids[ids.len() - 1] == id);
        }
        if front.contains(id) {
            let i = choose|i: int| 0 <= i < front.len() && front[i] == id;
            assert(ids[i] == id);
        }
        if ids.contains(id) && ids.last() != id {
            let i = choose|i: int| 0 <= i < ids.len() && ids[i] == id;
            assert(front[i] == id);
        }
    }
}

proof fn lemma_calls<V, E>(t: SpecLive<V, E>, id: SuspensionId)
    ensures
        calls(t, id) >= 0,
        calls(t, id) > 0 <==> awaits(t, id),
    decreases t, 0int,
{
    match t {
        SpecLive::Steps { current: Some(c), .. } => lemma_calls(*c, id),
        SpecLive::Fan { kids, .. } => {
            lemma_all_calls(kids, kids.len(), id);
            lemma_waits(kids, id);
        },
        SpecLive::Scope { body: Some(b), .. } => lemma_calls(*b, id),
        _ => {},
    }
}

proof fn lemma_all_calls<V, E>(ts: Seq<SpecLive<V, E>>, n: nat, id: SuspensionId)
    requires
        n <= ts.len(),
    ensures
        all_calls(ts, n, id) >= 0,
        all_calls(ts, n, id) > 0 <==> (exists|i: int| 0 <= i < n && awaits(#[trigger] ts[i], id)),
    decreases ts, n,
{
    if n > 0 {
        lemma_all_calls(ts, (n - 1) as nat, id);
        lemma_calls(ts[n - 1], id);
        if awaits(ts[n - 1], id) {
            assert(0 <= n - 1 < n && awaits(ts[n - 1], id));
        }
    }
}

proof fn lemma_same_calls<V, E>(
    ts: Seq<SpecLive<V, E>>,
    us: Seq<SpecLive<V, E>>,
    n: nat,
    id: SuspensionId,
)
    requires
        n <= ts.len(),
        n <= us.len(),
        forall|i: int| 0 <= i < n ==> ts[i] == us[i],
    ensures
        all_calls(ts, n, id) == all_calls(us, n, id),
    decreases n,
{
    if n > 0 {
        lemma_same_calls(ts, us, (n - 1) as nat, id);
    }
}

proof fn lemma_calls_update<V, E>(
    ts: Seq<SpecLive<V, E>>,
    i: int,
    k: SpecLive<V, E>,
    n: nat,
    id: SuspensionId,
)
    requires
        0 <= i < n <= ts.len(),
    ensures
        all_calls(ts.update(i, k), n, id) == all_calls(ts, n, id) - calls(ts[i], id) + calls(k, id),
    decreases n,
{
    let m = (n - 1) as nat;
    if i == m {
        lemma_same_calls(ts, ts.update(i, k), m, id);
    } else {
        lemma_calls_update(ts, i, k, m, id);
    }
}

/// Whether a change accounts for every call: it brought in none but the next
/// in number, and lost none.
pub open spec fn accounts<V, E>(
    t: SpecLive<V, E>,
    w: SpecWorld,
    t1: SpecLive<V, E>,
    w1: SpecWorld,
    id: SuspensionId,
) -> bool {
    &&& w1.next_sid == w.next_sid || w1.next_sid == successor(w.next_sid)
    &&& accounted(t1, w1, id) == accounted(t, w, id) || (accounted(t1, w1, id) == accounted(
        t,
        w,
        id,
    ) + 1 && id.0 == w.next_sid && w1.next_sid == successor(w.next_sid))
    &&& w.cancelled.is_prefix_of(w1.cancelled)
}

proof fn lemma_start_accounts<A: Ast>(
    ast: A,
    node: NodeId,
    path: Seq<NodeId>,
    w: SpecWorld,
    id: SuspensionId,
)
    ensures
        ({
            let (t1, w1) = started(ast, node, path, w);
            &&& w1.cancelled == w.cancelled
            &&& w1.next_sid == w.next_sid || w1.next_sid == successor(w.next_sid)
            &&& calls(t1, id) == 0 || (calls(t1, id) == 1 && id.0 == w.next_sid && w1.next_sid
                == successor(w.next_sid))
        }),
{
    assert(all_calls(Seq::<SpecLive<A::Value, A::EffectError>>::empty(), 0, id) == 0);
}

proof fn lemma_fill_accounts<A: Ast>(
    ast: A,
    t: SpecLive<A::Value, A::EffectError>,
    w: SpecWorld,
    id: SuspensionId,
)
    ensures
        accounts(t, w, filled(ast, t, w).0, filled(ast, t, w).1, id),
    decreases t,
{
    match t {
        SpecLive::Steps { current: Some(c), .. } => lemma_fill_accounts(ast, *c, w, id),
        SpecLive::Fan { path, ids, kids, .. } => {
            let i = first_true(gaps(kids));
            lemma_first_true_range(gaps(kids));
            if 0 <= i < kids.len() {
                lemma_fill_accounts(ast, kids[i], w, id);
                lemma_calls_update(kids, i, filled(ast, kids[i], w).0, kids.len(), id);
            } else {
                let next = ids[kids.len() as int];
                let k1 = started(ast, next, path.push(next), w).0;
                lemma_start_accounts(ast, next, path.push(next), w, id);
                lemma_same_calls(kids, kids.push(k1), kids.len(), id);
                assert(kids.push(k1)[kids.len() as int] == k1);
                assert(all_calls(kids.push(k1), (kids.len() + 1) as nat, id) == all_calls(
                    kids,
                    kids.len(),
                    id,
                ) + calls(k1, id));
            }
        },
        SpecLive::Scope { path, body_id, body, .. } => {
            match body {
                Some(b) => lemma_fill_accounts(ast, *b, w, id),
                None => lemma_start_accounts(ast, body_id, path.push(body_id), w, id),
            }
        },
        _ => {},
    }
}

proof fn lemma_advance_accounts<A: Ast>(
    ast: A,
    t: SpecLive<A::Value, A::EffectError>,
    w: SpecWorld,
    id: SuspensionId,
)
    ensures
        accounts(t, w, advanced(ast, t, w).0, advanced(ast, t, w).1, id),
    decreases t,
{
    match t {
        SpecLive::Steps { node, path, ids, next, current, last } => {
            if 0 <= next < ids.len() {
                let ticked = told(w, SpecEvent::IterationTick { at: place(node, path, None) });
                lemma_start_accounts(ast, ids[next], path.push(ids[next]), ticked, id);
            }
            if let Some(c) = current {
                if advances(*c) {
                    lemma_advance_accounts(ast, *c, w, id);
                } else if let SpecLive::Value { value, .. } = *c {
                    assert(calls(*c, id) == 0);
                    assert(advanced(ast, t, w) == stepped_on(
                        ast,
                        node,
                        path,
                        ids,
                        next,
                        Some(value),
                        w,
                    ));
                }
            } else {
                assert(advanced(ast, t, w) == stepped_on(ast, node, path, ids, next, last, w));
            }
        },
        SpecLive::Fan { kids, .. } => {
            let i = first_true(moves(kids));
            if 0 <= i < kids.len() {
                lemma_advance_accounts(ast, kids[i], w, id);
                lemma_calls_update(kids, i, advanced(ast, kids[i], w).0, kids.len(), id);
            }
        },
        SpecLive::Scope { body: Some(b), .. } => {
            if advances(*b) {
                lemma_advance_accounts(ast, *b, w, id);
            } else if *b is Value {
                assert(calls(*b, id) == 0);
            }
        },
        _ => {},
    }
}

proof fn lemma_cancel_accounts<V, E>(t: SpecLive<V, E>, w: SpecWorld, id: SuspensionId)
    ensures
        times(cancel_world(t, w).cancelled, id) == accounted(t, w, id),
        cancel_world(t, w).next_sid == w.next_sid,
        w.cancelled.is_prefix_of(cancel_world(t, w).cancelled),
    decreases t, 0int,
{
    match t {
        SpecLive::Steps { current: Some(c), .. } => lemma_cancel_accounts(*c, w, id),
        SpecLive::Fan { kids, .. } => lemma_cancels_account(kids, kids.len(), w, id),
        SpecLive::Scope { body: Some(b), .. } => lemma_cancel_accounts(*b, w, id),
        SpecLive::Pending { sid, .. } => {
            assert(w.cancelled.push(sid).drop_last() =~= w.cancelled);
        },
        _ => {},
    }
}

proof fn lemma_cancels_account<V, E>(
    ts: Seq<SpecLive<V, E>>,
    n: nat,
    w: SpecWorld,
    id: SuspensionId,
)
    requires
        n <= ts.len(),
    ensures
        times(cancel_worlds(ts, n, w).cancelled, id) == all_calls(ts, n, id) + times(
            w.cancelled,
            id,
        ),
        cancel_worlds(ts, n, w).next_sid == w.next_sid,
        w.cancelled.is_prefix_of(cancel_worlds(ts, n, w).cancelled),
    decreases ts, n,
{
    if n > 0 {
        lemma_cancels_account(ts, (n - 1) as nat, w, id);
        lemma_cancel_accounts(ts[n - 1], cancel_worlds(ts, (n - 1) as nat, w), id);
    }
}

proof fn lemma_fire_accounts<V, D, E>(
    registry: ReducerRegistry<V, D, E>,
    t: SpecLive<V, E>,
    w: SpecWorld,
    id: SuspensionId,
)
    ensures
        fired(registry, t, w) matches Ok(p) ==> accounts(t, w, p.0, p.1, id),
    decreases t,
{
    match t {
        SpecLive::Steps { current: Some(c), .. } => lemma_fire_accounts(registry, *c, w, id),
        SpecLive::Fan { policy, ids, kids, order, .. } => {
            let i = first_true(fires(kids));
            if joins(policy, ids, kids, order) {
                lemma_cancels_account(kids, kids.len(), w, id);
            } else if 0 <= i < kids.len() {
                lemma_fire_accounts(registry, kids[i], w, id);
                if let Ok(p) = fired(registry, kids[i], w) {
                    lemma_calls_update(kids, i, p.0, kids.len(), id);
                }
            }
        },
        SpecLive::Scope { body: Some(b), .. } => lemma_fire_accounts(registry, *b, w, id),
        _ => {},
    }
}

proof fn lemma_cancel_others_account<V, E>(
    ts: Seq<SpecLive<V, E>>,
    keep: int,
    reason: CancelReason,
    m: nat,
    w: SpecWorld,
    id: SuspensionId,
)
    requires
        m <= ts.len(),
    ensures
        ({
            let (us, w1) = cancel_others(ts, keep, reason, m, w);
            &&& us.len() == ts.len()
            &&& forall|j: int| m <= j < ts.len() ==> us[j] == ts[j]
            &&& w1.next_sid == w.next_sid
            &&& w.cancelled.is_prefix_of(w1.cancelled)
            &&& all_calls(us, ts.len(), id) + times(w1.cancelled, id) == all_calls(
                ts,
                ts.len(),
                id,
            ) + times(w.cancelled, id)
        }),
    decreases m,
{
    if m > 0 {
        lemma_cancel_others_account(ts, keep, reason, (m - 1) as nat, w, id);
        let (us, w1) = cancel_others(ts, keep, reason, (m - 1) as nat, w);
        let j = m - 1;
        if j != keep {
            lemma_cancel_accounts(ts[j], w1, id);
            lemma_calls_update(us, j, cancelled(ts[j], reason), ts.len(), id);
            assert(calls(cancelled(ts[j], reason), id) == 0);
        }
    }
}

proof fn lemma_fail_accounts<V, E>(t: SpecLive<V, E>, w: SpecWorld, id: SuspensionId)
    ensures
        accounted(failed_up(t, w).0, failed_up(t, w).1, id) == accounted(t, w, id),
        failed_up(t, w).1.next_sid == w.next_sid,
        w.cancelled.is_prefix_of(failed_up(t, w).1.cancelled),
    decreases t,
{
    match t {
        SpecLive::Steps { current: Some(c), .. } => lemma_fail_accounts(*c, w, id),
        SpecLive::Fan { kids, .. } => {
            let i = first_true(fails(kids));
            if 0 <= i < kids.len() {
                lemma_fail_accounts(kids[i], w, id);
                let (k1, w1) = failed_up(kids[i], w);
                lemma_calls_update(kids, i, k1, kids.len(), id);
                lemma_cancel_others_account(
                    kids.update(i, k1),
                    i,
                    CancelReason::SiblingFailed,
                    kids.len(),
                    w1,
                    id,
                );
            }
        },
        SpecLive::Scope { body: Some(b), .. } => lemma_fail_accounts(*b, w, id),
        _ => {},
    }
}

proof fn lemma_catch_accounts<V, E>(t: SpecLive<V, E>, w: SpecWorld, id: SuspensionId)
    ensures
        accounted(caught(t, w).0, caught(t, w).1, id) == accounted(t, w, id),
        caught(t, w).1.next_sid == w.next_sid,
        w.cancelled.is_prefix_of(caught(t, w).1.cancelled),
    decreases t,
{
    match t {
        SpecLive::Steps { current: Some(c), .. } => lemma_catch_accounts(*c, w, id),
        SpecLive::Fan { policy, kids, .. } => {
            let i = first_true(fails(kids));
            let j = first_true(catches(kids));
            if policy.fail == FailPolicy::CollectAll && 0 <= i < kids.len() {
                lemma_fail_accounts(kids[i], w, id);
                let (k1, w1) = failed_up(kids[i], w);
                lemma_cancel_accounts(k1, w1, id);
                let k2 = SpecLive::Cancelled {
                    node: node_of(kids[i]),
                    reason: CancelReason::SiblingFailed,
                    failure: Some(failure(kids[i])),
                };
                lemma_calls_update(kids, i, k2, kids.len(), id);
            } else if 0 <= j < kids.len() {
                lemma_catch_accounts(kids[j], w, id);
                lemma_calls_update(kids, j, caught(kids[j], w).0, kids.len(), id);
            }
        },
        SpecLive::Scope { body: Some(b), .. } => lemma_catch_accounts(*b, w, id),
        _ => {},
    }
}

proof fn lemma_settle_accounts<V, E>(
    t: SpecLive<V, E>,
    of: SuspensionId,
    answer: Result<V, E>,
    w: SpecWorld,
    id: SuspensionId,
)
    ensures
        settled(t, of, answer, w).1.cancelled == w.cancelled,
        calls(settled(t, of, answer, w).0, id) == calls(t, id) - if id == of && awaits(t, of) {
            1int
        } else {
            0
        },
    decreases t,
{
    match t {
        SpecLive::Steps { current: Some(c), .. } => lemma_settle_accounts(*c, of, answer, w, id),
        SpecLive::Fan { policy, kids, .. } => {
            let i = first_true(waits(kids, of));
            lemma_first_true_range(waits(kids, of));
            if 0 <= i < kids.len() {
                assert(waits(kids, of)[i]);
                lemma_settle_accounts(kids[i], of, answer, w, id);
                let k1 = taken(policy.fail, settled(kids[i], of, answer, w).0);
                lemma_calls_update(kids, i, k1, kids.len(), id);
            }
        },
        SpecLive::Scope { body: Some(b), .. } => lemma_settle_accounts(*b, of, answer, w, id),
        _ => {},
    }
}

/// How many calls of a number wait in an engine.
pub open spec fn waiting_calls<V, E>(e: SpecEngine<V, E>, id: SuspensionId) -> int {
    match e.root {
        Some(t) => calls(t, id),
        None => 0,
    }
}

/// How many calls of a number wait in an engine or were cancelled and not
/// collected yet.
pub open spec fn account<V, E>(e: SpecEngine<V, E>, id: SuspensionId) -> int {
    waiting_calls(e, id) + times(e.world.cancelled, id)
}

proof fn lemma_move_accounts<A: Ast>(
    ast: A,
    registry: ReducerRegistry<A::Value, A::Delta, A::EffectError>,
    e: SpecEngine<A::Value, A::EffectError>,
    id: SuspensionId,
)
    ensures
        match next_move(ast, registry, e.root, e.world) {
            SpecMove::Moved(t, w) => ({
                let e1 = SpecEngine { root: Some(t), world: w, ..e };
                &&& w.next_sid == e.world.next_sid || w.next_sid == successor(e.world.next_sid)
                &&& account(e1, id) == account(e, id) || (account(e1, id) == account(e, id) + 1
                    && id.0 == e.world.next_sid && w.next_sid == successor(e.world.next_sid))
                &&& e.world.cancelled.is_prefix_of(w.cancelled)
            }),
            SpecMove::Failed(t, w, _) => ({
                let e1 = SpecEngine { root: Some(t), world: w, ..e };
                &&& w.next_sid == e.world.next_sid
                &&& account(e1, id) == account(e, id)
                &&& e.world.cancelled.is_prefix_of(w.cancelled)
            }),
            _ => true,
        },
{
    match e.root {
        None => {
            lemma_start_accounts(ast, ast.root_spec(), seq![ast.root_spec()], e.world, id);
        },
        Some(t) => {
            lemma_fail_accounts(t, e.world, id);
            lemma_catch_accounts(t, e.world, id);
            lemma_fill_accounts(ast, t, e.world, id);
            lemma_fire_accounts(registry, t, e.world, id);
            lemma_advance_accounts(ast, t, e.world, id);
        },
    }
}

proof fn lemma_run_accounts<A: Ast>(
    ast: A,
    registry: ReducerRegistry<A::Value, A::Delta, A::EffectError>,
    e: SpecEngine<A::Value, A::EffectError>,
    bps: Option<Seq<(BreakpointId, SpecCondition)>>,
    skip: bool,
    fuel: nat,
    id: SuspensionId,
)
    ensures
        ({
            let after = ran(ast, registry, e, bps, skip, fuel).0;
            &&& account(after, id) >= account(e, id)
            &&& e.world.cancelled.is_prefix_of(after.world.cancelled)
            &&& numbers_left(ast, registry, e, bps, skip, fuel) ==> e.world.next_sid
                <= after.world.next_sid && (account(after, id) == account(e, id)
                || e.world.next_sid <= id.0 < after.world.next_sid)
        }),
    decreases fuel,
{
    if !skip && stops_at(ast, e.root, bps) is Some {
    } else {
        lemma_move_accounts(ast, registry, e, id);
        if let SpecMove::Moved(t, w) = next_move(ast, registry, e.root, e.world) {
            let e1 = SpecEngine { root: Some(t), world: w, ..e };
            if fuel > 0 && !(t is Value) {
                lemma_run_accounts(ast, registry, e1, bps, false, (fuel - 1) as nat, id);
            }
        }
    }
}

/// No waiting call is lost silently: after a step it waits as before, or it
/// is among the cancelled ones that the host can collect, which a step only
/// adds to.
pub proof fn law_no_waiting_call_is_lost<A: Ast>(
    ast: A,
    registry: ReducerRegistry<A::Value, A::Delta, A::EffectError>,
    e: SpecEngine<A::Value, A::EffectError>,
    bps: Option<Seq<(BreakpointId, SpecCondition)>>,
    skip: bool,
    id: SuspensionId,
)
    ensures
        ({
            let after = stepped(ast, registry, e, bps, skip).0;
            &&& (e.root matches Some(t) && awaits(t, id)) ==> (after.root matches Some(t1)
                && awaits(t1, id)) || after.world.cancelled.contains(id)
            &&& e.world.cancelled.is_prefix_of(after.world.cancelled)
        }),
{
    let after = stepped(ast, registry, e, bps, skip).0;
    lemma_run_accounts(ast, registry, e, bps, skip, MOVE_LIMIT as nat, id);
    lemma_times(e.world.cancelled, id);
    lemma_times(after.world.cancelled, id);
    if let Some(t) = e.root {
        lemma_calls(t, id);
    }
    if let Some(t) = after.root {
        lemma_calls(t, id);
    }
}

/// A number listed behind a prefix is listed more often than in it.
proof fn lemma_times_behind(a: Seq<SuspensionId>, b: Seq<SuspensionId>, i: int)
    requires
        a.is_prefix_of(b),
        a.len() <= i < b.len(),
    ensures
        times(b, b[i]) > times(a, b[i]),
    decreases b.len(),
{
    let front = b.drop_last();
    lemma_times_grow(a, front, b[i]);
    if i < b.len() - 1 {
        assert(front[i] == b[i]);
        lemma_times_behind(a, front, i);
    }
}

proof fn lemma_times_grow(a: Seq<SuspensionId>, b: Seq<SuspensionId>, id: SuspensionId)
    requires
        a.is_prefix_of(b),
    ensures
        times(b, id) >= times(a, id),
    decreases b.len(),
{
    if a.len() == b.len() {
        assert(a =~= b);
    } else {
        lemma_times_grow(a, b.drop_last(), id);
    }
}

/// A step reports nothing as cancelled but calls that waited before it and
/// calls that it started itself. Of the calls that waited before, each goes
/// on waiting or is reported, once and not both. This is said of engines that
/// do not run out of numbers.
pub proof fn law_only_waiting_calls_are_reported<A: Ast>(
    ast: A,
    registry: ReducerRegistry<A::Value, A::Delta, A::EffectError>,
    e: SpecEngine<A::Value, A::EffectError>,
    bps: Option<Seq<(BreakpointId, SpecCondition)>>,
    skip: bool,
    i: int,
    id: SuspensionId,
)
    requires
        numbers_left(ast, registry, e, bps, skip, MOVE_LIMIT as nat),
    ensures
        ({
            let after = stepped(ast, registry, e, bps, skip).0;
            let gone = after.world.cancelled;
            &&& e.world.cancelled.len() <= i < gone.len() ==> (e.root matches Some(t) && awaits(
                t,
                gone[i],
            )) || e.world.next_sid <= gone[i].0 < after.world.next_sid
            &&& id.0 < e.world.next_sid ==> waiting_calls(after, id) + times(gone, id)
                == waiting_calls(e, id) + times(e.world.cancelled, id)
        }),
{
    let after = stepped(ast, registry, e, bps, skip).0;
    let gone = after.world.cancelled;
    lemma_run_accounts(ast, registry, e, bps, skip, MOVE_LIMIT as nat, id);
    if e.world.cancelled.len() <= i < gone.len() {
        let one = gone[i];
        lemma_run_accounts(ast, registry, e, bps, skip, MOVE_LIMIT as nat, one);
        lemma_times_behind(e.world.cancelled, gone, i);
        if let Some(t) = e.root {
            lemma_calls(t, one);
        }
        if let Some(t) = after.root {
            lemma_calls(t, one);
        }
    }
}

/// An answer reports nothing as cancelled, and takes one call of its number
/// and no other.
pub proof fn law_an_answer_cancels_nothing<V, E>(
    e: SpecEngine<V, E>,
    t: SpecLive<V, E>,
    of: SuspensionId,
    answer: Result<V, E>,
    id: SuspensionId,
)
    requires
        e.root == Some(t),
        awaits(t, of),
    ensures
        resolved(e, t, of, answer).world.cancelled == e.world.cancelled,
        waiting_calls(resolved(e, t, of, answer), id) == waiting_calls(e, id) - if id == of {
            1int
        } else {
            0
        },
{
    lemma_settle_accounts(t, of, answer, e.world, id);
}

} // verus!
