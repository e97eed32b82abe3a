//! Who wins a fan-out, and what its reducer is given.
use vstd::prelude::*;

use crate::engine::advance::advanced;
use crate::engine::ast::{Ast, SpecKind};
use crate::engine::cancel::{caught, failure};
use crate::engine::fire::{fired, joined};
use crate::engine::live::{
    advances, awaits, catches, catching, collected, fails, fireable, fires, first_true, gaps,
    has_gap, joins, lemma_first_true_range, losses, moves, node_of, waits, SpecLive,
};
use crate::engine::progress::{lemma_no_losses, wins};
use crate::engine::settle::{settled, taken};
use crate::engine::spawn::{filled, started};
use crate::engine::step::{
    fresh_engine, next_move, ran, resolved, stepped, stops_at, SpecEngine, SpecMove, MOVE_LIMIT,
};
use crate::engine::world::{place, told, SpecWorld};
use crate::error::SpecEngineError;
use crate::event::SpecEvent;
use crate::frame::CancelReason;
use crate::ids::{BreakpointId, NodeId, SuspensionId};
use crate::join::{ChildIndex, FailPolicy, JoinPolicy, JoinShape, ReducerHandle, ReducerRegistry};

verus! {

/// Whether a completion order lists exactly the children that hold a value,
/// each once.
pub open spec fn lists_values<V, E>(
    kids: Seq<SpecLive<V, E>>,
    order: Seq<ChildIndex>,
) -> bool {
    &&& kids.len() <= usize::MAX
    &&& forall|i: int|
        0 <= i < order.len() ==> (#[trigger] order[i]) < kids.len() && kids[order[i] as int] is Value
    &&& forall|i: int, j: int|
        0 <= i < j < order.len() ==> #[trigger] order[i] != #[trigger] order[j]
    &&& forall|k: int|
        0 <= k < kids.len() && (#[trigger] kids[k]) is Value ==> order.contains(k as usize)
}

/// Whether every fan-out among the frames has listed its values.
pub open spec fn scored<V, E>(t: SpecLive<V, E>) -> bool
    decreases t,
{
    match t {
        SpecLive::Steps { current: Some(c), .. } => scored(*c),
        SpecLive::Fan { ids, kids, order, .. } => kids.len() <= ids.len() <= usize::MAX
            && lists_values(kids, order) && all_scored(kids, kids.len()),
        SpecLive::Scope { body: Some(b), .. } => scored(*b),
        _ => true,
    }
}

/// The same of the first `n` frames.
pub open spec fn all_scored<V, E>(ts: Seq<SpecLive<V, E>>, n: nat) -> bool
    decreases ts, n,
{
    if n == 0 || n > ts.len() {
        true
    } else {
        all_scored(ts, (n - 1) as nat) && scored(ts[n - 1])
    }
}

/// Whether no node of a tree declares more children than can be numbered.
pub open spec fn numbered<A: Ast>(ast: A) -> bool {
    forall|id: NodeId|
        (#[trigger] ast.kind_spec(id) matches SpecKind::Par { children, .. } ==> children.len()
            <= usize::MAX)
}

proof fn lemma_all_scored<V, E>(ts: Seq<SpecLive<V, E>>, n: nat)
    requires
        n <= ts.len(),
    ensures
        all_scored(ts, n) <==> (forall|i: int| 0 <= i < n ==> scored(#[trigger] ts[i])),
    decreases n,
{
    if n > 0 {
        lemma_all_scored(ts, (n - 1) as nat);
        if forall|i: int| 0 <= i < n ==> scored(#[trigger] ts[i]) {
            assert(scored(ts[n - 1]));
        }
    }
}

/// A child that held no value is replaced, and listed if it holds one now.
proof fn lemma_score_update<V, E>(
    ts: Seq<SpecLive<V, E>>,
    order: Seq<ChildIndex>,
    i: int,
    k: SpecLive<V, E>,
)
    requires
        0 <= i < ts.len(),
        lists_values(ts, order),
        all_scored(ts, ts.len()),
        scored(k),
        !(ts[i] is Value),
    ensures
        all_scored(ts.update(i, k), ts.len()),
        lists_values(ts.update(i, k), crate::engine::live::order_after(order, k, i)),
{
    let us = ts.update(i, k);
    let o = crate::engine::live::order_after(order, k, i);
    lemma_all_scored(ts, ts.len());
    lemma_all_scored(us, ts.len());
    assert forall|a: int| 0 <= a < o.len() implies (#[trigger] o[a]) < us.len() && us[o[a] as int] is Value by {
        if a < order.len() {
            assert(o[a] == order[a]);
            assert(ts[order[a] as int] is Value);
        }
    }
    assert forall|a: int, b: int| 0 <= a < b < o.len() implies #[trigger] o[a] != #[trigger] o[b] by {
        assert(o[a] == order[a]);
        assert(ts[order[a] as int] is Value);
        if b < order.len() {
            assert(o[b] == order[b]);
        }
    }
    assert forall|j: int| 0 <= j < us.len() && (#[trigger] us[j]) is Value implies o.contains(
        j as usize,
    ) by {
        if j == i {
            assert(o[order.len() as int] == i as usize);
        } else {
            assert(ts[j] is Value);
            let a = choose|a: int| 0 <= a < order.len() && order[a] == j as usize;
            assert(o[a] == j as usize);
        }
    }
}

proof fn lemma_start_scored<A: Ast>(ast: A, id: NodeId, path: Seq<NodeId>, w: SpecWorld)
    requires
        numbered(ast),
    ensures
        scored(started(ast, id, path, w).0),
        !(started(ast, id, path, w).0 is Value),
{
    let none = Seq::<SpecLive<A::Value, A::EffectError>>::empty();
    assert(all_scored(none, 0));
    if let SpecKind::Par { children, .. } = ast.kind_spec(id) {
        assert(children.len() <= usize::MAX);
    }
}

proof fn lemma_fill_scored<A: Ast>(
    ast: A,
    t: SpecLive<A::Value, A::EffectError>,
    w: SpecWorld,
)
    requires
        numbered(ast),
        scored(t),
        has_gap(t),
    ensures
        scored(filled(ast, t, w).0),
        !(filled(ast, t, w).0 is Value),
    decreases t,
{
    match t {
        SpecLive::Steps { current: Some(c), .. } => lemma_fill_scored(ast, *c, w),
        SpecLive::Fan { path, ids, kids, order, .. } => {
            let i = first_true(gaps(kids));
            lemma_first_true_range(gaps(kids));
            lemma_all_scored(kids, kids.len());
            if 0 <= i < kids.len() {
                assert(gaps(kids)[i]);
                lemma_fill_scored(ast, kids[i], w);
                lemma_score_update(kids, order, i, filled(ast, kids[i], w).0);
            } else {
                let id = ids[kids.len() as int];
                let k1 = started(ast, id, path.push(id), w).0;
                let us = kids.push(k1);
                lemma_start_scored(ast, id, path.push(id), w);
                lemma_all_scored(us, us.len());
                assert forall|a: int| 0 <= a < order.len() implies (#[trigger] order[a]) < us.len()
                    && us[order[a] as int] is Value by {
                    assert(kids[order[a] as int] is Value);
                }
                assert forall|j: int|
                    0 <= j < us.len() && (#[trigger] us[j]) is Value implies order.contains(
                    j as usize,
                ) by {
                    assert(kids[j] is Value);
                }
            }
        },
        SpecLive::Scope { path, body_id, body, .. } => {
            match body {
                Some(b) => lemma_fill_scored(ast, *b, w),
                None => lemma_start_scored(ast, body_id, path.push(body_id), w),
            }
        },
        _ => {},
    }
}

proof fn lemma_advance_scored<A: Ast>(
    ast: A,
    t: SpecLive<A::Value, A::EffectError>,
    w: SpecWorld,
)
    requires
        numbered(ast),
        scored(t),
        advances(t),
    ensures
        scored(advanced(ast, t, w).0),
    decreases t,
{
    match t {
        SpecLive::Steps { node, path, ids, next, current, .. } => {
            if 0 <= next < ids.len() {
                let ticked = told(w, SpecEvent::IterationTick { at: place(node, path, None) });
                lemma_start_scored(ast, ids[next], path.push(ids[next]), ticked);
            }
            if let Some(c) = current {
                if advances(*c) {
                    lemma_advance_scored(ast, *c, w);
                }
            }
        },
        SpecLive::Fan { kids, order, .. } => {
            let i = first_true(moves(kids));
            lemma_first_true_range(moves(kids));
            lemma_all_scored(kids, kids.len());
            assert(moves(kids)[i]);
            lemma_advance_scored(ast, kids[i], w);
            lemma_score_update(kids, order, i, advanced(ast, kids[i], w).0);
        },
        SpecLive::Scope { body: Some(b), .. } => {
            if advances(*b) {
                lemma_advance_scored(ast, *b, w);
            }
        },
        _ => {},
    }
}

proof fn lemma_fire_scored<V, D, E>(
    registry: ReducerRegistry<V, D, E>,
    t: SpecLive<V, E>,
    w: SpecWorld,
)
    requires
        scored(t),
        fireable(t),
    ensures
        fired(registry, t, w) matches Ok(p) ==> scored(p.0),
    decreases t,
{
    match t {
        SpecLive::Steps { current: Some(c), .. } => lemma_fire_scored(registry, *c, w),
        SpecLive::Fan { policy, ids, kids, order, .. } => {
            if !joins(policy, ids, kids, order) {
                let i = first_true(fires(kids));
                lemma_first_true_range(fires(kids));
                lemma_all_scored(kids, kids.len());
                assert(fires(kids)[i]);
                lemma_fire_scored(registry, kids[i], w);
                if let Ok(p) = fired(registry, kids[i], w) {
                    lemma_score_update(kids, order, i, p.0);
                }
            }
        },
        SpecLive::Scope { body: Some(b), .. } => lemma_fire_scored(registry, *b, w),
        _ => {},
    }
}

proof fn lemma_catch_scored<V, E>(t: SpecLive<V, E>, w: SpecWorld)
    requires
        scored(t),
        catching(t),
    ensures
        scored(caught(t, w).0),
        !(caught(t, w).0 is Value),
    decreases t,
{
    match t {
        SpecLive::Steps { current: Some(c), .. } => lemma_catch_scored(*c, w),
        SpecLive::Fan { policy, kids, order, .. } => {
            let i = first_true(fails(kids));
            let j = first_true(catches(kids));
            lemma_first_true_range(fails(kids));
            lemma_first_true_range(catches(kids));
            lemma_all_scored(kids, kids.len());
            if policy.fail == FailPolicy::CollectAll && i < kids.len() {
                assert(fails(kids)[i]);
                let k2 = SpecLive::Cancelled {
                    node: node_of(kids[i]),
                    reason: CancelReason::SiblingFailed,
                    failure: Some(failure(kids[i])),
                };
                lemma_score_update(kids, order, i, k2);
            } else {
                assert(catches(kids)[j]);
                lemma_catch_scored(kids[j], w);
                lemma_score_update(kids, order, j, caught(kids[j], w).0);
            }
        },
        SpecLive::Scope { body: Some(b), .. } => lemma_catch_scored(*b, w),
        _ => {},
    }
}

proof fn lemma_settle_scored<V, E>(
    t: SpecLive<V, E>,
    id: SuspensionId,
    answer: Result<V, E>,
    w: SpecWorld,
)
    requires
        scored(t),
        awaits(t, id),
    ensures
        scored(settled(t, id, answer, w).0),
    decreases t,
{
    match t {
        SpecLive::Steps { current: Some(c), .. } => lemma_settle_scored(*c, id, answer, w),
        SpecLive::Fan { policy, kids, order, .. } => {
            let i = first_true(waits(kids, id));
            lemma_first_true_range(waits(kids, id));
            lemma_all_scored(kids, kids.len());
            assert(waits(kids, id)[i]);
            lemma_settle_scored(kids[i], id, answer, w);
            lemma_score_update(
                kids,
                order,
                i,
                taken(policy.fail, settled(kids[i], id, answer, w).0),
            );
        },
        SpecLive::Scope { body: Some(b), .. } => lemma_settle_scored(*b, id, answer, w),
        _ => {},
    }
}

/// Whether every running fan-out of an engine that is not over has listed its
/// values.
pub open spec fn engine_scored<V, E>(e: SpecEngine<V, E>) -> bool {
    !e.done ==> (e.root matches Some(t) ==> scored(t))
}

proof fn lemma_run_scored<A: Ast>(
    ast: A,
    registry: ReducerRegistry<A::Value, A::Delta, A::EffectError>,
    e: SpecEngine<A::Value, A::EffectError>,
    bps: Option<Seq<(BreakpointId, crate::breakpoint::SpecCondition)>>,
    skip: bool,
    fuel: nat,
)
    requires
        numbered(ast),
        !e.done,
        engine_scored(e),
    ensures
        engine_scored(ran(ast, registry, e, bps, skip, fuel).0),
    decreases fuel,
{
    if !skip && stops_at(ast, e.root, bps) is Some {
    } else {
        match e.root {
            None => lemma_start_scored(ast, ast.root_spec(), seq![ast.root_spec()], e.world),
            Some(t) => {
                if crate::engine::live::failing(t) {
                } else if catching(t) {
                    lemma_catch_scored(t, e.world);
                } else if has_gap(t) {
                    lemma_fill_scored(ast, t, e.world);
                } else if fireable(t) {
                    lemma_fire_scored(registry, t, e.world);
                } else if advances(t) {
                    lemma_advance_scored(ast, t, e.world);
                }
            },
        }
        if let SpecMove::Moved(t, w) = next_move(ast, registry, e.root, e.world) {
            if fuel > 0 && !(t is Value) {
                let e1 = SpecEngine { root: Some(t), world: w, ..e };
                lemma_run_scored(ast, registry, e1, bps, false, (fuel - 1) as nat);
            }
        }
    }
}

/// In every state that an engine comes to, the completion order of each
/// running fan-out lists the children that hold a value, each once, and no
/// other.
pub proof fn law_completion_orders_list_the_values<A: Ast>(
    ast: A,
    registry: ReducerRegistry<A::Value, A::Delta, A::EffectError>,
    e: SpecEngine<A::Value, A::EffectError>,
    bps: Option<Seq<(BreakpointId, crate::breakpoint::SpecCondition)>>,
    skip: bool,
    id: SuspensionId,
    answer: Result<A::Value, A::EffectError>,
)
    requires
        numbered(ast),
    ensures
        engine_scored(fresh_engine::<A::Value, A::EffectError>()),
        engine_scored(e) ==> engine_scored(stepped(ast, registry, e, bps, skip).0),
        engine_scored(e) && e.root is Some && awaits(e.root->0, id) ==> engine_scored(
            resolved(e, e.root->0, id, answer),
        ),
{
    if engine_scored(e) && !e.done {
        lemma_run_scored(ast, registry, e, bps, skip, MOVE_LIMIT as nat);
        if let Some(t) = e.root {
            if awaits(t, id) {
                lemma_settle_scored(t, id, answer, e.world);
            }
        }
    }
}

/// The value a child holds.
pub open spec fn value_in<V, E>(t: SpecLive<V, E>) -> Option<V> {
    if t is Value {
        Some(t->Value_value)
    } else {
        None
    }
}

/// The value a child holds or the failure collected from it.
pub open spec fn result_in<V, E>(t: SpecLive<V, E>) -> Option<Result<V, E>> {
    if t is Value {
        Some(Ok(t->Value_value))
    } else if t is Cancelled && t->failure is Some {
        Some(Err(t->failure->0))
    } else {
        None
    }
}

/// Whether these are the winners of a fan-out: all children that completed, in
/// the order in which they did; of an `Any` the first of them alone; of a
/// `FirstK` the first `k`, or all where there are fewer.
pub open spec fn are_winners(
    won: Seq<ChildIndex>,
    shape: JoinShape,
    order: Seq<ChildIndex>,
) -> bool {
    &&& forall|i: int| 0 <= i < won.len() ==> i < order.len() && #[trigger] won[i] == order[i]
    &&& match shape {
        JoinShape::All => won.len() == order.len(),
        JoinShape::Any => won.len() == if order.len() > 0 {
            1nat
        } else {
            0
        },
        JoinShape::FirstK(k) => won.len() == if order.len() < k {
            order.len()
        } else {
            k as nat
        },
    }
}

/// A reducer is given one slot for each child, with the value of that child
/// where it has one and, where failures are collected, its failure; and the
/// winners, whose slots hold a value.
pub proof fn law_the_reducer_is_given_the_winners<V, D, E>(
    registry: ReducerRegistry<V, D, E>,
    policy: JoinPolicy,
    reducer: Seq<char>,
    kids: Seq<SpecLive<V, E>>,
    order: Seq<ChildIndex>,
    won: Seq<ChildIndex>,
)
    requires
        lists_values(kids, order),
        are_winners(won, policy.shape, order),
    ensures
        match registry.resolved(reducer, policy.fail) {
            Some(ReducerHandle::FailFast(r)) => joined(registry, policy, reducer, kids, order)
                == r.inner.reduction(
                Seq::new(kids.len(), |i: int| value_in(kids[i])),
                Seq::new(kids.len(), |i: int| None),
                won,
            ),
            Some(ReducerHandle::CollectAll(r)) => joined(registry, policy, reducer, kids, order)
                == r.inner.reduction(
                Seq::new(kids.len(), |i: int| result_in(kids[i])),
                Seq::new(kids.len(), |i: int| None),
                won,
            ),
            None => joined(registry, policy, reducer, kids, order) == Err::<
                (V, D),
                SpecEngineError,
            >(SpecEngineError::UnknownReducer { id: reducer }),
        },
        forall|i: int|
            0 <= i < won.len() ==> 0 <= (#[trigger] won[i]) < kids.len() && value_in(
                kids[won[i] as int],
            ) is Some,
        policy.shape == JoinShape::Any && order.len() > 0 ==> won == seq![order[0]],
        order.len() > 0 && policy.shape != JoinShape::FirstK(0) ==> won.len() > 0 && won[0]
            == order[0],
{
    assert(crate::engine::fire::winners(policy.shape, order) =~= won);
    assert(crate::engine::fire::slots(kids) =~= Seq::new(kids.len(), |i: int| value_in(kids[i])));
    assert(crate::engine::fire::results(kids) =~= Seq::new(
        kids.len(),
        |i: int| result_in(kids[i]),
    ));
    assert(crate::engine::fire::no_deltas::<D>(kids.len()) =~= Seq::new(
        kids.len(),
        |i: int| None,
    ));
    assert(won =~= order.take(won.len() as int));
    if policy.shape == JoinShape::Any && order.len() > 0 {
        assert(won =~= seq![order[0]]);
    }
    assert forall|i: int| 0 <= i < won.len() implies 0 <= (#[trigger] won[i]) < kids.len()
        && value_in(kids[won[i] as int]) is Some by {
        assert(won[i] == order[i]);
    }
}

/// A complete fan-out becomes the value that its reducer makes, whatever its
/// own children still were, or the step fails with what the reducer says.
pub proof fn law_a_complete_fan_out_becomes_what_its_reducer_makes<V, D, E>(
    registry: ReducerRegistry<V, D, E>,
    t: SpecLive<V, E>,
    w: SpecWorld,
)
    requires
        t matches SpecLive::Fan { policy, ids, kids, order, .. } && joins(policy, ids, kids, order),
    ensures
        t matches SpecLive::Fan { node, policy, reducer, kids, order, .. } && match joined(
            registry,
            policy,
            reducer,
            kids,
            order,
        ) {
            Ok(made) => fired(registry, t, w) matches Ok(p) && p.0 == SpecLive::<V, E>::Value {
                node,
                value: made.0,
            },
            Err(e) => fired(registry, t, w) == Err::<(SpecLive<V, E>, SpecWorld), SpecEngineError>(
                e,
            ),
        },
{
}

/// Whether a child is done: it holds a value, or its failure was collected.
pub open spec fn is_over<V, E>(t: SpecLive<V, E>) -> bool {
    t is Value || collected(t) is Some
}

proof fn lemma_counts<V, E>(ts: Seq<SpecLive<V, E>>)
    ensures
        0 <= wins(ts) <= ts.len(),
        0 <= losses(ts) <= ts.len(),
        wins(ts) + losses(ts) <= ts.len(),
        wins(ts) > 0 <==> exists|i: int| 0 <= i < ts.len() && (#[trigger] ts[i]) is Value,
        wins(ts) == ts.len() <==> forall|i: int|
            0 <= i < ts.len() ==> (#[trigger] ts[i]) is Value,
        losses(ts) == ts.len() <==> forall|i: int|
            0 <= i < ts.len() ==> collected(#[trigger] ts[i]) is Some,
        wins(ts) + losses(ts) == ts.len() <==> forall|i: int|
            0 <= i < ts.len() ==> is_over(#[trigger] ts[i]),
    decreases ts.len(),
{
    if ts.len() > 0 {
        let front = ts.drop_last();
        lemma_counts(front);
        assert forall|i: int| 0 <= i < front.len() implies #[trigger] front[i] == ts[i] by {}
        assert(ts.last() == ts[ts.len() - 1]);
        if exists|i: int| 0 <= i < ts.len() && (#[trigger] ts[i]) is Value {
            let i = choose|i: int| 0 <= i < ts.len() && (#[trigger] ts[i]) is Value;
            if i < front.len() {
                assert(front[i] is Value);
            }
        }
        if wins(front) > 0 {
            let i = choose|i: int| 0 <= i < front.len() && (#[trigger] front[i]) is Value;
            assert(ts[i] is Value);
        }
        if forall|i: int| 0 <= i < ts.len() ==> (#[trigger] ts[i]) is Value {
            assert(ts[ts.len() - 1] is Value);
            assert forall|i: int| 0 <= i < front.len() implies (#[trigger] front[i]) is Value by {
                assert(ts[i] is Value);
            }
        }
        if forall|i: int| 0 <= i < ts.len() ==> collected(#[trigger] ts[i]) is Some {
            assert(collected(ts[ts.len() - 1]) is Some);
            assert forall|i: int| 0 <= i < front.len() implies collected(
                #[trigger] front[i],
            ) is Some by {
                assert(collected(ts[i]) is Some);
            }
        }
        if forall|i: int| 0 <= i < ts.len() ==> is_over(#[trigger] ts[i]) {
            assert(is_over(ts[ts.len() - 1]));
            assert forall|i: int| 0 <= i < front.len() implies is_over(#[trigger] front[i]) by {
                assert(is_over(ts[i]));
            }
        }
        if wins(ts) == ts.len() {
            assert forall|i: int| 0 <= i < ts.len() implies (#[trigger] ts[i]) is Value by {
                if i < front.len() {
                    assert(front[i] is Value);
                }
            }
        }
        if losses(ts) == ts.len() {
            assert forall|i: int| 0 <= i < ts.len() implies collected(#[trigger] ts[i]) is Some by {
                if i < front.len() {
                    assert(collected(front[i]) is Some);
                }
            }
        }
        if wins(ts) + losses(ts) == ts.len() {
            assert forall|i: int| 0 <= i < ts.len() implies is_over(#[trigger] ts[i]) by {
                if i < front.len() {
                    assert(is_over(front[i]));
                }
            }
        }
    }
}

/// When a fan-out is complete, all of its children having started: an `All`
/// when every child is over, an `Any` when one has a value or, where failures
/// are collected, none is left that could have one, a `FirstK` when `k` have a
/// value or, where failures are collected, fewer than `k` can still have one.
/// Where failures are not collected only values count.
pub proof fn law_a_fan_out_joins_when_its_shape_is_met<V, E>(
    policy: JoinPolicy,
    ids: Seq<NodeId>,
    kids: Seq<SpecLive<V, E>>,
    order: Seq<ChildIndex>,
)
    requires
        order.len() == wins(kids),
        policy.fail == FailPolicy::FailFast ==> forall|i: int|
            0 <= i < kids.len() ==> collected(#[trigger] kids[i]) is None,
    ensures
        kids.len() != ids.len() ==> !joins(policy, ids, kids, order),
        kids.len() == ids.len() ==> (joins(policy, ids, kids, order) <==> match policy.shape {
            JoinShape::All => forall|i: int| 0 <= i < kids.len() ==> is_over(#[trigger] kids[i]),
            JoinShape::Any => (exists|i: int| 0 <= i < kids.len() && (#[trigger] kids[i]) is Value)
                || (policy.fail == FailPolicy::CollectAll && kids.len() > 0 && forall|i: int|
                0 <= i < kids.len() ==> collected(#[trigger] kids[i]) is Some),
            JoinShape::FirstK(k) => wins(kids) >= k || (policy.fail == FailPolicy::CollectAll
                && kids.len() - losses(kids) < k),
        }),
{
    lemma_counts(kids);
    if policy.fail == FailPolicy::FailFast {
        lemma_no_losses(kids);
    }
}

/// A sequence starts its children one after the other, in the order of their
/// declaration, and each only when the one before has a value. Behind the last
/// it has the value of the last; without children, the unit value.
pub proof fn law_a_sequence_runs_its_children_in_order<A: Ast>(
    ast: A,
    t: SpecLive<A::Value, A::EffectError>,
    w: SpecWorld,
)
    requires
        t is Steps,
    ensures
        t matches SpecLive::Steps { node, ids, next, current, last, .. } && match current {
            None => advances(t) && (if 0 <= next < ids.len() {
                advanced(ast, t, w).0 matches SpecLive::Steps {
                    next: n,
                    current: Some(c),
                    ids: same,
                    ..
                } && n == next + 1 && same == ids && node_of(*c) == ids[next]
            } else {
                advanced(ast, t, w).0 matches SpecLive::Value { node: n, value } && n == node
                    && value == match last {
                    Some(v) => v,
                    None => ast.unit_spec(),
                }
            }),
            Some(c) => match *c {
                SpecLive::Value { value: v, .. } => advances(t) && (if 0 <= next < ids.len() {
                    advanced(ast, t, w).0 matches SpecLive::Steps {
                        next: n,
                        current: Some(k),
                        last: Some(kept),
                        ids: same,
                        ..
                    } && n == next + 1 && same == ids && node_of(*k) == ids[next] && kept == v
                } else {
                    advanced(ast, t, w).0 matches SpecLive::Value { node: n, value } && n == node
                        && value == v
                }),
                _ => advanced(ast, t, w).0 matches SpecLive::Steps { next: n, ids: same, .. } && n
                    == next && same == ids,
            },
        },
{
}

/// A section has the value of its body.
pub proof fn law_a_section_has_the_value_of_its_body<A: Ast>(
    ast: A,
    t: SpecLive<A::Value, A::EffectError>,
    w: SpecWorld,
)
    requires
        t matches SpecLive::Scope { body: Some(b), .. } && *b is Value,
    ensures
        advances(t),
        t matches SpecLive::Scope { node, body: Some(b), .. } && (*b matches SpecLive::Value {
            value,
            ..
        } && advanced(ast, t, w).0 == SpecLive::<A::Value, A::EffectError>::Value { node, value }),
{
}

/// What a node starts as: a sequence before its first child, a fan-out and a
/// section without anything started, an absent body with the unit value, and a
/// call that waits, with its label and its payload as they are.
pub proof fn law_frames_start_as_their_nodes_say<A: Ast>(
    ast: A,
    id: NodeId,
    path: Seq<NodeId>,
    w: SpecWorld,
)
    ensures
        node_of(started(ast, id, path, w).0) == id,
        match ast.kind_spec(id) {
            SpecKind::Sequence { children } => started(ast, id, path, w).0 matches SpecLive::Steps {
                ids,
                next,
                current: None,
                last: None,
                ..
            } && ids == children && next == 0,
            SpecKind::Par { children, policy, reducer_id } => started(
                ast,
                id,
                path,
                w,
            ).0 matches SpecLive::Fan { ids, kids, order, policy: p, reducer, .. } && ids
                == children && kids.len() == 0 && order.len() == 0 && p == policy && reducer
                == reducer_id,
            SpecKind::Scope { body, label } => started(ast, id, path, w).0 matches SpecLive::Scope {
                body_id,
                body: None,
                label: l,
                ..
            } && body_id == body && l == label,
            SpecKind::Maybe { body: Some(body) } => started(
                ast,
                id,
                path,
                w,
            ).0 matches SpecLive::Scope { body_id, body: None, .. } && body_id == body,
            SpecKind::Maybe { body: None } => started(ast, id, path, w).0 matches SpecLive::Empty {
                value,
                ..
            } && value == ast.unit_spec(),
            SpecKind::Call { label, payload } => started(
                ast,
                id,
                path,
                w,
            ).0 matches SpecLive::Pending { sid, call, .. } && call.label == label && call.payload
                == payload && sid.0 == w.next_sid,
        },
{
}

/// An answered call holds the value it was answered with, and a failed one the
/// failure.
pub proof fn law_an_answer_is_what_the_call_becomes<V, E>(
    t: SpecLive<V, E>,
    id: SuspensionId,
    answer: Result<V, E>,
    w: SpecWorld,
)
    requires
        t matches SpecLive::Pending { sid, .. } && sid == id,
    ensures
        node_of(settled(t, id, answer, w).0) == node_of(t),
        match answer {
            Ok(v) => settled(t, id, answer, w).0 matches SpecLive::Value { value, .. } && value
                == v,
            Err(e) => settled(t, id, answer, w).0 matches SpecLive::Failed { error, .. } && error
                == e,
        },
{
}

/// Whether a failure stands somewhere in a frame.
pub open spec fn holds_failure<V, E>(t: SpecLive<V, E>, e: E) -> bool
    decreases t, 0nat,
{
    match t {
        SpecLive::Failed { error, .. } => error == e,
        SpecLive::Steps { current: Some(c), .. } => holds_failure(*c, e),
        SpecLive::Fan { kids, .. } => any_failure(kids, kids.len(), e),
        SpecLive::Scope { body: Some(b), .. } => holds_failure(*b, e),
        _ => false,
    }
}

/// The same of the first `n` frames.
pub open spec fn any_failure<V, E>(ts: Seq<SpecLive<V, E>>, n: nat, e: E) -> bool
    decreases ts, n,
{
    if n == 0 || n > ts.len() {
        false
    } else {
        any_failure(ts, (n - 1) as nat, e) || holds_failure(ts[n - 1], e)
    }
}

proof fn lemma_any_failure<V, E>(ts: Seq<SpecLive<V, E>>, i: int, n: nat, e: E)
    requires
        0 <= i < n <= ts.len(),
        holds_failure(ts[i], e),
    ensures
        any_failure(ts, n, e),
    decreases n,
{
    if i < n - 1 {
        lemma_any_failure(ts, i, (n - 1) as nat, e);
    }
}

/// The failure that travels up is that of a call that failed below.
pub proof fn law_the_travelling_failure_is_a_calls<V, E>(t: SpecLive<V, E>)
    requires
        crate::engine::live::failing(t),
    ensures
        holds_failure(t, failure(t)),
    decreases t,
{
    match t {
        SpecLive::Steps { current: Some(c), .. } => law_the_travelling_failure_is_a_calls(*c),
        SpecLive::Fan { kids, .. } => {
            let i = first_true(fails(kids));
            lemma_first_true_range(fails(kids));
            assert(fails(kids)[i]);
            law_the_travelling_failure_is_a_calls(kids[i]);
            lemma_any_failure(kids, i, kids.len(), failure(kids[i]));
        },
        SpecLive::Scope { body: Some(b), .. } => law_the_travelling_failure_is_a_calls(*b),
        _ => {},
    }
}

} // verus!
