//! Joining fan-outs.
use vstd::prelude::*;

use crate::engine::advance::{produce, produced};
use crate::engine::ast::{copy_error, copy_value, Ast};
use crate::engine::cancel::{cancel_worlds, drop_all_calls};
use crate::engine::live::{
    collected, fireable, fires, first_fireable, first_true, joins, joins_now,
    lemma_first_true_range, lives_view, order_after, Live, SpecLive,
};
use crate::engine::world::{SpecWorld, World};
use crate::error::{EngineError, SpecEngineError};
use crate::join::{
    ChildIndex, JoinPolicy, JoinShape, ReducerHandle, ReducerId, ReducerRegistry,
};

verus! {

/// The value a frame holds, if it is one.
pub open spec fn slot<V, E>(t: SpecLive<V, E>) -> Option<V> {
    match t {
        SpecLive::Value { value, .. } => Some(value),
        _ => None,
    }
}

/// The values of a list of frames.
pub open spec fn slots<V, E>(ts: Seq<SpecLive<V, E>>) -> Seq<Option<V>> {
    Seq::new(ts.len(), |i: int| slot(ts[i]))
}

/// The value or the collected failure of a frame.
pub open spec fn result<V, E>(t: SpecLive<V, E>) -> Option<Result<V, E>> {
    match slot(t) {
        Some(v) => Some(Ok(v)),
        None => match collected(t) {
            Some(e) => Some(Err(e)),
            None => None,
        },
    }
}

/// The values and collected failures of a list of frames.
pub open spec fn results<V, E>(ts: Seq<SpecLive<V, E>>) -> Seq<Option<Result<V, E>>> {
    Seq::new(ts.len(), |i: int| result(ts[i]))
}

/// `n` absent deltas.
pub open spec fn no_deltas<D>(n: nat) -> Seq<Option<D>> {
    Seq::new(n, |i: int| None)
}

/// The children whose values count, in completion order.
pub open spec fn winners(shape: JoinShape, order: Seq<ChildIndex>) -> Seq<ChildIndex> {
    match shape {
        JoinShape::All => order,
        JoinShape::Any => if order.len() == 0 {
            order
        } else {
            order.take(1)
        },
        JoinShape::FirstK(k) => if k <= order.len() {
            order.take(k as int)
        } else {
            order
        },
    }
}

/// What the reducer of a fan-out makes of its children.
pub open spec fn joined<V, D, E>(
    registry: ReducerRegistry<V, D, E>,
    policy: JoinPolicy,
    reducer: Seq<char>,
    kids: Seq<SpecLive<V, E>>,
    order: Seq<ChildIndex>,
) -> Result<(V, D), SpecEngineError> {
    match registry.resolved(reducer, policy.fail) {
        None => Err(SpecEngineError::UnknownReducer { id: reducer }),
        Some(ReducerHandle::FailFast(r)) => r.inner.reduction(
            slots(kids),
            no_deltas(kids.len()),
            winners(policy.shape, order),
        ),
        Some(ReducerHandle::CollectAll(r)) => r.inner.reduction(
            results(kids),
            no_deltas(kids.len()),
            winners(policy.shape, order),
        ),
    }
}

/// The frames and the world after the first complete fan-out has joined:
/// what still ran below it is cancelled, and it is a value now.
pub open spec fn fired<V, D, E>(
    registry: ReducerRegistry<V, D, E>,
    t: SpecLive<V, E>,
    w: SpecWorld,
) -> Result<(SpecLive<V, E>, SpecWorld), SpecEngineError>
    decreases t,
{
    match t {
        SpecLive::Steps { node, path, ids, next, current: Some(c), last } => match fired(
            registry,
            *c,
            w,
        ) {
            Ok((c1, w1)) => Ok(
                (
                    SpecLive::Steps {
                        node,
                        path,
                        ids,
                        next,
                        current: Some(Box::new(c1)),
                        last,
                    },
                    w1,
                ),
            ),
            Err(e) => Err(e),
        },
        SpecLive::Fan { node, path, policy, reducer, ids, kids, order } => if joins(
            policy,
            ids,
            kids,
            order,
        ) {
            match joined(registry, policy, reducer, kids, order) {
                Ok((value, _)) => Ok(
                    produced(node, path, value, cancel_worlds(kids, kids.len(), w)),
                ),
                Err(e) => Err(e),
            }
        } else {
            let i = first_true(fires(kids));
            if 0 <= i < kids.len() {
                match fired(registry, kids[i], w) {
                    Ok((k1, w1)) => Ok(
                        (
                            SpecLive::Fan {
                                node,
                                path,
                                policy,
                                reducer,
                                ids,
                                kids: kids.update(i, k1),
                                order: order_after(order, k1, i),
                            },
                            w1,
                        ),
                    ),
                    Err(e) => Err(e),
                }
            } else {
                Ok((t, w))
            }
        },
        SpecLive::Scope { node, path, label, body_id, body: Some(b) } => match fired(
            registry,
            *b,
            w,
        ) {
            Ok((b1, w1)) => Ok(
                (
                    SpecLive::Scope { node, path, label, body_id, body: Some(Box::new(b1)) },
                    w1,
                ),
            ),
            Err(e) => Err(e),
        },
        _ => Ok((t, w)),
    }
}

/// The values of a list of frames.
pub(crate) fn collect_slots<A: Ast>(kids: &Vec<Live<A::Value, A::EffectError>>) -> (out: Vec<
    Option<A::Value>,
>)
    ensures
        out@ == slots(lives_view(kids@)),
{
    let mut out: Vec<Option<A::Value>> = Vec::new();
    let n: usize = kids.len();
    for i in 0..n
        invariant
            n == kids@.len(),
            out@.len() == i,
            forall|j: int| 0 <= j < i ==> #[trigger] out@[j] == slot(kids@[j]@),
    {
        let s = match &kids[i] {
            Live::Value { value, .. } => Some(copy_value::<A>(value)),
            _ => None,
        };
        out.push(s);
    }
    assert(out@ =~= slots(lives_view(kids@)));
    out
}

/// The values and collected failures of a list of frames.
fn collect_results<A: Ast>(kids: &Vec<Live<A::Value, A::EffectError>>) -> (out: Vec<
    Option<Result<A::Value, A::EffectError>>,
>)
    ensures
        out@ == results(lives_view(kids@)),
{
    let mut out: Vec<Option<Result<A::Value, A::EffectError>>> = Vec::new();
    let n: usize = kids.len();
    for i in 0..n
        invariant
            n == kids@.len(),
            out@.len() == i,
            forall|j: int| 0 <= j < i ==> #[trigger] out@[j] == result(kids@[j]@),
    {
        let s = match &kids[i] {
            Live::Value { value, .. } => Some(Ok(copy_value::<A>(value))),
            Live::Cancelled { failure: Some(e), .. } => Some(Err(copy_error::<A>(e))),
            _ => None,
        };
        out.push(s);
    }
    assert(out@ =~= results(lives_view(kids@)));
    out
}

/// `n` absent deltas.
pub(crate) fn blank_deltas<D>(n: usize) -> (out: Vec<Option<D>>)
    ensures
        out@ == no_deltas::<D>(n as nat),
{
    let mut out: Vec<Option<D>> = Vec::new();
    for i in 0..n
        invariant
            out@.len() == i,
            forall|j: int| 0 <= j < i ==> #[trigger] out@[j] == None::<D>,
    {
        out.push(None);
    }
    assert(out@ =~= no_deltas::<D>(n as nat));
    out
}

/// The first `n` numbers of a list.
fn prefix(order: &Vec<ChildIndex>, n: usize) -> (out: Vec<ChildIndex>)
    requires
        n <= order@.len(),
    ensures
        out@ == order@.take(n as int),
{
    let mut out: Vec<ChildIndex> = Vec::new();
    for i in 0..n
        invariant
            n <= order@.len(),
            out@ == order@.take(i as int),
    {
        out.push(order[i]);
        assert(out@ =~= order@.take(i + 1));
    }
    out
}

/// The children whose values count.
fn select_winners(shape: JoinShape, order: &Vec<ChildIndex>) -> (out: Vec<ChildIndex>)
    ensures
        out@ == winners(shape, order@),
{
    let n: usize = match shape {
        JoinShape::All => order.len(),
        JoinShape::Any => if order.len() == 0 {
            0
        } else {
            1
        },
        JoinShape::FirstK(k) => if k <= order.len() {
            k
        } else {
            order.len()
        },
    };
    let out = prefix(order, n);
    assert(out@ =~= winners(shape, order@));
    out
}

/// Asks the reducer of a fan-out.
fn join_kids<A: Ast>(
    registry: &ReducerRegistry<A::Value, A::Delta, A::EffectError>,
    policy: &JoinPolicy,
    reducer: &ReducerId,
    kids: &Vec<Live<A::Value, A::EffectError>>,
    order: &Vec<ChildIndex>,
) -> (out: Result<(A::Value, A::Delta), EngineError>)
    ensures
        match out {
            Ok(p) => joined(*registry, *policy, reducer@, lives_view(kids@), order@) == Ok::<
                (A::Value, A::Delta),
                SpecEngineError,
            >(p),
            Err(e) => joined(*registry, *policy, reducer@, lives_view(kids@), order@) == Err::<
                (A::Value, A::Delta),
                SpecEngineError,
            >(e@),
        },
{
    let chosen = select_winners(policy.shape, order);
    let deltas = blank_deltas::<A::Delta>(kids.len());
    match registry.resolve(reducer, policy.fail) {
        Err(e) => Err(e),
        Ok(ReducerHandle::FailFast(r)) => r.inner.reduce(
            collect_slots::<A>(kids).as_slice(),
            deltas.as_slice(),
            chosen.as_slice(),
        ),
        Ok(ReducerHandle::CollectAll(r)) => r.inner.reduce(
            collect_results::<A>(kids).as_slice(),
            deltas.as_slice(),
            chosen.as_slice(),
        ),
    }
}

/// Joins the first complete fan-out.
pub fn fire<A: Ast>(
    registry: &ReducerRegistry<A::Value, A::Delta, A::EffectError>,
    t: &mut Live<A::Value, A::EffectError>,
    w: &mut World,
) -> (out: Result<(), EngineError>)
    requires
        fireable(old(t)@),
    ensures
        match out {
            Ok(()) => fired(*registry, old(t)@, old(w)@) == Ok::<_, SpecEngineError>(
                (final(t)@, final(w)@),
            ),
            Err(e) => fired(*registry, old(t)@, old(w)@) == Err::<
                (SpecLive<A::Value, A::EffectError>, SpecWorld),
                SpecEngineError,
            >(e@) && final(t)@ == old(t)@ && final(w)@ == old(w)@,
        },
    decreases *old(t),
{
    let own: bool = match t {
        Live::Fan { policy, ids, kids, order, .. } => joins_now(policy, ids, kids, order),
        _ => false,
    };
    if own {
        let value: Live<A::Value, A::EffectError> = match &*t {
            Live::Fan { node, path, policy, reducer, kids, order, .. } => match join_kids::<A>(
                registry,
                policy,
                reducer,
                kids,
                order,
            ) {
                Err(e) => {
                    return Err(e);
                },
                Ok((value, _)) => {
                    drop_all_calls(kids, w);
                    produce(*node, path, value, w)
                },
            },
            _ => {
                return Ok(());
            },
        };
        *t = value;
        return Ok(());
    }
    match t {
        Live::Steps { current: Some(c), .. } => fire::<A>(registry, &mut **c, w),
        Live::Fan { kids, order, .. } => {
            let ghost before = lives_view(kids@);
            proof {
                lemma_first_true_range(fires(before));
            }
            let i: usize = first_fireable(kids);
            assert(before[i as int] == kids@[i as int]@);
            let out = fire::<A>(registry, &mut kids[i], w);
            assert(lives_view(kids@) =~= before.update(i as int, kids@[i as int]@));
            match out {
                Ok(()) => {
                    if kids[i].is_value() {
                        order.push(i);
                    }
                    Ok(())
                },
                Err(e) => {
                    assert(lives_view(kids@) =~= before);
                    Err(e)
                },
            }
        },
        Live::Scope { body: Some(b), .. } => fire::<A>(registry, &mut **b, w),
        _ => Ok(()),
    }
}

} // verus!
