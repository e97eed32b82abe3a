//! Cancelling frames and sending failures up.
use vstd::prelude::*;

use crate::engine::ast::{copy_error, Ast};
use crate::engine::live::{
    catches, catching, failing, fails, first_catching, first_failing, first_true,
    lemma_first_true_range, lives_view, node_of, Live, SpecLive,
};
use crate::engine::world::{others, place, place_at, told, SpecWorld, World};
use crate::event::{Event, SpecEvent};
use crate::frame::CancelReason;
use crate::ids::{CallFrameId, NodeId, SuspensionId};
use crate::join::FailPolicy;

verus! {

/// The world after a waiting call has been dropped.
pub open spec fn dropped(
    node: NodeId,
    path: Seq<NodeId>,
    sid: SuspensionId,
    frame: CallFrameId,
    w: SpecWorld,
) -> SpecWorld {
    let struck = SpecWorld {
        newly: others(w.newly, sid),
        cancelled: w.cancelled.push(sid),
        ..w
    };
    told(
        told(struck, SpecEvent::Cancel { id: sid }),
        SpecEvent::FrameLeave { at: place(node, path, Some(frame)) },
    )
}

/// The world after every waiting call of a frame has been dropped.
pub open spec fn cancel_world<V, E>(t: SpecLive<V, E>, w: SpecWorld) -> SpecWorld
    decreases t, 0int,
{
    match t {
        SpecLive::Pending { node, path, sid, frame, .. } => dropped(node, path, sid, frame, w),
        SpecLive::Steps { current: Some(c), .. } => cancel_world(*c, w),
        SpecLive::Fan { kids, .. } => cancel_worlds(kids, kids.len(), w),
        SpecLive::Scope { body: Some(b), .. } => cancel_world(*b, w),
        _ => w,
    }
}

/// The world after the waiting calls of the first `n` frames have been
/// dropped.
pub open spec fn cancel_worlds<V, E>(ts: Seq<SpecLive<V, E>>, n: nat, w: SpecWorld) -> SpecWorld
    decreases ts, n,
{
    if n == 0 || n > ts.len() {
        w
    } else {
        cancel_world(ts[n - 1], cancel_worlds(ts, (n - 1) as nat, w))
    }
}

/// What a cancelled frame becomes. Values, failures and frames that are
/// already cancelled stay.
pub open spec fn cancelled<V, E>(t: SpecLive<V, E>, reason: CancelReason) -> SpecLive<V, E> {
    match t {
        SpecLive::Cancelled { .. } => t,
        SpecLive::Value { .. } => t,
        SpecLive::Failed { .. } => t,
        _ => SpecLive::Cancelled { node: node_of(t), reason, failure: None },
    }
}

/// The first `n` frames cancelled, but for the one at `keep`.
pub open spec fn cancel_others<V, E>(
    ts: Seq<SpecLive<V, E>>,
    keep: int,
    reason: CancelReason,
    n: nat,
    w: SpecWorld,
) -> (Seq<SpecLive<V, E>>, SpecWorld)
    decreases n,
{
    if n == 0 || n > ts.len() {
        (ts, w)
    } else {
        let (ts1, w1) = cancel_others(ts, keep, reason, (n - 1) as nat, w);
        let j = n - 1;
        if j == keep {
            (ts1, w1)
        } else {
            (ts1.update(j, cancelled(ts[j], reason)), cancel_world(ts[j], w1))
        }
    }
}

/// The failure that travels up.
pub open spec fn failure<V, E>(t: SpecLive<V, E>) -> E
    decreases t,
{
    match t {
        SpecLive::Failed { error, .. } => error,
        SpecLive::Steps { current: Some(c), .. } => failure(*c),
        SpecLive::Fan { kids, .. } => {
            let i = first_true(fails(kids));
            if 0 <= i < kids.len() {
                failure(kids[i])
            } else {
                arbitrary()
            }
        },
        SpecLive::Scope { body: Some(b), .. } => failure(*b),
        _ => arbitrary(),
    }
}

/// The frames and the world once a failure has travelled up: every fan-out
/// on its way has cancelled its other children, the innermost first.
pub open spec fn failed_up<V, E>(t: SpecLive<V, E>, w: SpecWorld) -> (SpecLive<V, E>, SpecWorld)
    decreases t,
{
    match t {
        SpecLive::Steps { node, path, ids, next, current: Some(c), last } => {
            let (c1, w1) = failed_up(*c, w);
            (SpecLive::Steps { node, path, ids, next, current: Some(Box::new(c1)), last }, w1)
        },
        SpecLive::Fan { node, path, policy, reducer, ids, kids, order } => {
            let i = first_true(fails(kids));
            if 0 <= i < kids.len() {
                let (k1, w1) = failed_up(kids[i], w);
                let (kids2, w2) = cancel_others(
                    kids.update(i, k1),
                    i,
                    CancelReason::SiblingFailed,
                    kids.len(),
                    w1,
                );
                (
                    SpecLive::Fan { node, path, policy, reducer, ids, kids: kids2, order },
                    w2,
                )
            } else {
                (t, w)
            }
        },
        SpecLive::Scope { node, path, label, body_id, body: Some(b) } => {
            let (b1, w1) = failed_up(*b, w);
            (SpecLive::Scope { node, path, label, body_id, body: Some(Box::new(b1)) }, w1)
        },
        _ => (t, w),
    }
}

/// The frames and the world once the first collecting fan-out has taken the
/// failure of a child: the failure travels up to that child, whose frames are
/// cancelled.
pub open spec fn caught<V, E>(t: SpecLive<V, E>, w: SpecWorld) -> (SpecLive<V, E>, SpecWorld)
    decreases t,
{
    match t {
        SpecLive::Steps { node, path, ids, next, current: Some(c), last } => {
            let (c1, w1) = caught(*c, w);
            (SpecLive::Steps { node, path, ids, next, current: Some(Box::new(c1)), last }, w1)
        },
        SpecLive::Fan { node, path, policy, reducer, ids, kids, order } => {
            let i = first_true(fails(kids));
            let j = first_true(catches(kids));
            if policy.fail == FailPolicy::CollectAll && 0 <= i < kids.len() {
                let (k1, w1) = failed_up(kids[i], w);
                let k2 = SpecLive::Cancelled {
                    node: node_of(kids[i]),
                    reason: CancelReason::SiblingFailed,
                    failure: Some(failure(kids[i])),
                };
                (
                    SpecLive::Fan {
                        node,
                        path,
                        policy,
                        reducer,
                        ids,
                        kids: kids.update(i, k2),
                        order,
                    },
                    cancel_world(k1, w1),
                )
            } else if 0 <= j < kids.len() {
                let (k1, w1) = caught(kids[j], w);
                (
                    SpecLive::Fan {
                        node,
                        path,
                        policy,
                        reducer,
                        ids,
                        kids: kids.update(j, k1),
                        order,
                    },
                    w1,
                )
            } else {
                (t, w)
            }
        },
        SpecLive::Scope { node, path, label, body_id, body: Some(b) } => {
            let (b1, w1) = caught(*b, w);
            (SpecLive::Scope { node, path, label, body_id, body: Some(Box::new(b1)) }, w1)
        },
        _ => (t, w),
    }
}

/// Drops every waiting call of a frame.
pub fn drop_calls<V, E>(t: &Live<V, E>, w: &mut World)
    ensures
        final(w)@ == cancel_world(t@, old(w)@),
    decreases t, 0int,
{
    match t {
        Live::Pending { node, path, sid, frame, .. } => {
            w.withdraw(*sid);
            w.cancelled.push(*sid);
            w.tell(&Event::Cancel { id: *sid });
            w.tell(&Event::FrameLeave { at: place_at(*node, path, Some(*frame)) });
        },
        Live::Steps { current: Some(c), .. } => drop_calls(&**c, w),
        Live::Fan { kids, .. } => drop_all_calls(kids, w),
        Live::Scope { body: Some(b), .. } => drop_calls(&**b, w),
        _ => {},
    }
}

/// Drops every waiting call of a list of frames.
pub fn drop_all_calls<V, E>(kids: &Vec<Live<V, E>>, w: &mut World)
    ensures
        final(w)@ == cancel_worlds(lives_view(kids@), kids@.len(), old(w)@),
    decreases kids, 1int,
{
    let ghost start = w@;
    let n: usize = kids.len();
    for i in 0..n
        invariant
            n == kids@.len(),
            w@ == cancel_worlds(lives_view(kids@), i as nat, start),
        decreases n - i,
    {
        assert(lives_view(kids@)[i as int] == kids@[i as int]@);
        drop_calls(&kids[i], w);
    }
}

/// Cancels a frame.
fn cancel<V, E>(t: &mut Live<V, E>, reason: CancelReason, w: &mut World)
    ensures
        final(t)@ == cancelled(old(t)@, reason),
        final(w)@ == cancel_world(old(t)@, old(w)@),
{
    drop_calls(t, w);
    let stays: bool = match t {
        Live::Cancelled { .. } => true,
        Live::Value { .. } => true,
        Live::Failed { .. } => true,
        _ => false,
    };
    if !stays {
        let node = t.node();
        *t = Live::Cancelled { node, reason, failure: None };
    }
}

/// Cancels every frame but the one at `keep`.
fn cancel_rest<V, E>(kids: &mut Vec<Live<V, E>>, keep: usize, reason: CancelReason, w: &mut World)
    ensures
        (lives_view(final(kids)@), final(w)@) == cancel_others(
            lives_view(old(kids)@),
            keep as int,
            reason,
            old(kids)@.len(),
            old(w)@,
        ),
{
    let ghost all = lives_view(kids@);
    let ghost start = w@;
    let n: usize = kids.len();
    for j in 0..n
        invariant
            n == kids@.len(),
            n == all.len(),
            (lives_view(kids@), w@) == cancel_others(all, keep as int, reason, j as nat, start),
            forall|i: int| j <= i < n ==> (#[trigger] kids@[i])@ == all[i],
    {
        let ghost before = kids@;
        if j != keep {
            cancel(&mut kids[j], reason, w);
            assert(lives_view(kids@) =~= lives_view(before).update(j as int, kids@[j as int]@));
        }
    }
}

/// The failure that travels up.
pub fn travelling_failure<A: Ast>(t: &Live<A::Value, A::EffectError>) -> (out: Option<
    A::EffectError,
>)
    ensures
        match out {
            Some(e) => failing(t@) && e == failure(t@),
            None => !failing(t@),
        },
    decreases t,
{
    match t {
        Live::Failed { error, .. } => Some(copy_error::<A>(error)),
        Live::Steps { current: Some(c), .. } => travelling_failure::<A>(&**c),
        Live::Fan { policy, kids, .. } => {
            proof {
                lemma_first_true_range(fails(lives_view(kids@)));
            }
            let i: usize = first_failing(kids);
            assert(lives_view(kids@).len() == kids@.len());
            if policy.fail == FailPolicy::FailFast && i < kids.len() {
                assert(lives_view(kids@)[i as int] == kids@[i as int]@);
                travelling_failure::<A>(&kids[i])
            } else {
                None
            }
        },
        Live::Scope { body: Some(b), .. } => travelling_failure::<A>(&**b),
        _ => None,
    }
}

/// Sends a failure up.
pub fn send_failure_up<V, E>(t: &mut Live<V, E>, w: &mut World)
    requires
        failing(old(t)@),
    ensures
        (final(t)@, final(w)@) == failed_up(old(t)@, old(w)@),
    decreases *old(t),
{
    match t {
        Live::Steps { current: Some(c), .. } => {
            send_failure_up(&mut **c, w);
        },
        Live::Fan { kids, .. } => {
            let ghost before = lives_view(kids@);
            proof {
                lemma_first_true_range(fails(before));
            }
            let i: usize = first_failing(kids);
            assert(before[i as int] == kids@[i as int]@);
            send_failure_up(&mut kids[i], w);
            assert(lives_view(kids@) =~= before.update(i as int, kids@[i as int]@));
            cancel_rest(kids, i, CancelReason::SiblingFailed, w);
        },
        Live::Scope { body: Some(b), .. } => {
            send_failure_up(&mut **b, w);
        },
        _ => {},
    }
}

/// Lets the first collecting fan-out take the failure of a child.
pub fn catch_failure<A: Ast>(t: &mut Live<A::Value, A::EffectError>, w: &mut World)
    requires
        catching(old(t)@),
    ensures
        (final(t)@, final(w)@) == caught(old(t)@, old(w)@),
    decreases *old(t),
{
    match t {
        Live::Steps { current: Some(c), .. } => {
            catch_failure::<A>(&mut **c, w);
        },
        Live::Fan { policy, kids, .. } => {
            let ghost before = lives_view(kids@);
            proof {
                lemma_first_true_range(fails(before));
                lemma_first_true_range(catches(before));
            }
            assert(before.len() == kids@.len());
            let i: usize = first_failing(kids);
            if policy.fail == FailPolicy::CollectAll && i < kids.len() {
                assert(before[i as int] == kids@[i as int]@);
                let node = kids[i].node();
                let taken = travelling_failure::<A>(&kids[i]);
                send_failure_up(&mut kids[i], w);
                drop_calls(&kids[i], w);
                let collected = Live::Cancelled {
                    node,
                    reason: CancelReason::SiblingFailed,
                    failure: taken,
                };
                kids.set(i, collected);
                assert(lives_view(kids@) =~= before.update(i as int, collected@));
            } else {
                let j: usize = first_catching(kids);
                assert(before[j as int] == kids@[j as int]@);
                catch_failure::<A>(&mut kids[j], w);
                assert(lives_view(kids@) =~= before.update(j as int, kids@[j as int]@));
            }
        },
        Live::Scope { body: Some(b), .. } => {
            catch_failure::<A>(&mut **b, w);
        },
        _ => {},
    }
}

} // verus!
