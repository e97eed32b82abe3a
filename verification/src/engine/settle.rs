//! Answering suspensions.
use vstd::prelude::*;

use crate::engine::live::{
    awaits, first_awaiting, first_true, lemma_first_true_range, lives_view, order_after, waits,
    Live, SpecLive,
};
use crate::engine::world::{place, place_at, told, SpecWorld, World};
use crate::event::{Event, SpecEvent};
use crate::frame::CancelReason;
use crate::ids::{CallFrameId, NodeId, Path, SuspensionId};
use crate::join::FailPolicy;

verus! {

/// An answered call, and the world after it.
pub open spec fn answered<V, E>(
    node: NodeId,
    path: Seq<NodeId>,
    frame: CallFrameId,
    answer: Result<V, E>,
    w: SpecWorld,
) -> (SpecLive<V, E>, SpecWorld) {
    let at = place(node, path, Some(frame));
    match answer {
        Ok(value) => (
            SpecLive::Value { node, value },
            told(
                told(told(w, SpecEvent::Resume { at }), SpecEvent::FrameLeave { at }),
                SpecEvent::VisitPost { at },
            ),
        ),
        Err(error) => (
            SpecLive::Failed { node, path, error },
            told(w, SpecEvent::FrameLeave { at }),
        ),
    }
}

/// What a fan-out makes of a child that was answered: one that collects takes
/// the failure of a child that is itself the call.
pub open spec fn taken<V, E>(fail: FailPolicy, k: SpecLive<V, E>) -> SpecLive<V, E> {
    match k {
        SpecLive::Failed { node, error, .. } => if fail == FailPolicy::CollectAll {
            SpecLive::Cancelled {
                node,
                reason: CancelReason::SiblingFailed,
                failure: Some(error),
            }
        } else {
            k
        },
        _ => k,
    }
}

/// The frames and the world after a suspension has been answered. A failed
/// call fails its frame, and the next step sends the failure up.
pub open spec fn settled<V, E>(
    t: SpecLive<V, E>,
    id: SuspensionId,
    answer: Result<V, E>,
    w: SpecWorld,
) -> (SpecLive<V, E>, SpecWorld)
    decreases t,
{
    match t {
        SpecLive::Steps { node, path, ids, next, current: Some(c), last } => {
            let (c1, w1) = settled(*c, id, answer, w);
            (SpecLive::Steps { node, path, ids, next, current: Some(Box::new(c1)), last }, w1)
        },
        SpecLive::Fan { node, path, policy, reducer, ids, kids, order } => {
            let i = first_true(waits(kids, id));
            if 0 <= i < kids.len() {
                let (k0, w1) = settled(kids[i], id, answer, w);
                let k1 = taken(policy.fail, k0);
                (
                    SpecLive::Fan {
                        node,
                        path,
                        policy,
                        reducer,
                        ids,
                        kids: kids.update(i, k1),
                        order: order_after(order, k1, i),
                    },
                    w1,
                )
            } else {
                (t, w)
            }
        },
        SpecLive::Scope { node, path, label, body_id, body: Some(b) } => {
            let (b1, w1) = settled(*b, id, answer, w);
            (SpecLive::Scope { node, path, label, body_id, body: Some(Box::new(b1)) }, w1)
        },
        SpecLive::Pending { node, path, sid, frame, .. } => if sid == id {
            answered(node, path, frame, answer, w)
        } else {
            (t, w)
        },
        _ => (t, w),
    }
}

/// Answers a waiting call.
fn answer_call<V, E>(
    node: NodeId,
    path: &Path,
    frame: CallFrameId,
    answer: Result<V, E>,
    w: &mut World,
) -> (out: Live<V, E>)
    ensures
        (out@, final(w)@) == answered(node, path@, frame, answer, old(w)@),
{
    let at = place_at(node, path, Some(frame));
    match answer {
        Ok(value) => {
            w.tell(&Event::Resume { at: at.clone() });
            w.tell(&Event::FrameLeave { at: at.clone() });
            w.tell(&Event::VisitPost { at });
            Live::Value { node, value }
        },
        Err(error) => {
            w.tell(&Event::FrameLeave { at });
            Live::Failed { node, path: path.clone(), error }
        },
    }
}

/// A collecting fan-out takes the failure of a child that is itself a call.
fn take_failure<V, E>(fail: FailPolicy, k: &mut Live<V, E>)
    ensures
        final(k)@ == taken(fail, old(k)@),
{
    let failed: bool = match k {
        Live::Failed { .. } => fail == FailPolicy::CollectAll,
        _ => false,
    };
    if failed {
        let mut whole = Live::Cancelled {
            node: k.node(),
            reason: CancelReason::SiblingFailed,
            failure: None,
        };
        std::mem::swap(&mut whole, k);
        if let Live::Failed { node, error, .. } = whole {
            *k = Live::Cancelled {
                node,
                reason: CancelReason::SiblingFailed,
                failure: Some(error),
            };
        }
    }
}

/// Answers a live suspension.
pub fn settle<V, E>(
    t: &mut Live<V, E>,
    id: SuspensionId,
    answer: Result<V, E>,
    w: &mut World,
)
    requires
        awaits(old(t)@, id),
    ensures
        (final(t)@, final(w)@) == settled(old(t)@, id, answer, old(w)@),
    decreases *old(t),
{
    let leaf: bool = match t {
        Live::Pending { .. } => true,
        _ => false,
    };
    if leaf {
        let after: Live<V, E> = match &*t {
            Live::Pending { node, path, frame, .. } => answer_call(
                *node,
                path,
                *frame,
                answer,
                w,
            ),
            _ => {
                return ;
            },
        };
        *t = after;
        return ;
    }
    match t {
        Live::Steps { current: Some(c), .. } => {
            settle(&mut **c, id, answer, w);
        },
        Live::Fan { policy, kids, order, .. } => {
            let ghost before = lives_view(kids@);
            proof {
                lemma_first_true_range(waits(before, id));
            }
            let i: usize = first_awaiting(kids, id);
            assert(before[i as int] == kids@[i as int]@);
            settle(&mut kids[i], id, answer, w);
            take_failure(policy.fail, &mut kids[i]);
            assert(lives_view(kids@) =~= before.update(i as int, kids@[i as int]@));
            if kids[i].is_value() {
                order.push(i);
            }
        },
        Live::Scope { body: Some(b), .. } => {
            settle(&mut **b, id, answer, w);
        },
        _ => {},
    }
}

} // verus!
