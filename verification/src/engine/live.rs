//! The live frames of an interpretation, and the questions the engine asks of
//! them.
use vstd::prelude::*;

use crate::event::{CallSpec, Pending, SpecCall, SpecPending, SpecReason, SuspendReason};
use crate::frame::CancelReason;
use crate::ids::{CallFrameId, NodeId, Path, SuspensionId};
use crate::join::{ChildIndex, FailPolicy, JoinPolicy, JoinShape, ReducerId};
use crate::engine::world::{place, place_at};

verus! {

/// A running, suspended or completed node.
pub enum Live<V, E> {
    /// Children in turn.
    Steps {
        /// The node.
        node: NodeId,
        /// Path to the node.
        path: Path,
        /// Declared children.
        ids: Vec<NodeId>,
        /// Which child starts next.
        next: usize,
        /// The running child.
        current: Option<Box<Live<V, E>>>,
        /// Value of the child before.
        last: Option<V>,
    },
    /// Children at once.
    Fan {
        /// The node.
        node: NodeId,
        /// Path to the node.
        path: Path,
        /// Success shape and failure handling.
        policy: JoinPolicy,
        /// Name of the reducer.
        reducer: ReducerId,
        /// Declared children.
        ids: Vec<NodeId>,
        /// Children that have started.
        kids: Vec<Live<V, E>>,
        /// Order in which children produced their values.
        order: Vec<ChildIndex>,
    },
    /// A labelled body.
    Scope {
        /// The node.
        node: NodeId,
        /// Path to the node.
        path: Path,
        /// The label.
        label: String,
        /// Declared body.
        body_id: NodeId,
        /// The body, once it has started.
        body: Option<Box<Live<V, E>>>,
    },
    /// An absent body.
    Empty {
        /// The node.
        node: NodeId,
        /// Path to the node.
        path: Path,
        /// What it will produce.
        value: V,
    },
    /// A call that waits for the host.
    Pending {
        /// The node.
        node: NodeId,
        /// Path to the node.
        path: Path,
        /// The suspension.
        sid: SuspensionId,
        /// The effect.
        call: CallSpec,
        /// The call frame.
        frame: CallFrameId,
    },
    /// A value that waits to be consumed.
    Value {
        /// The node.
        node: NodeId,
        /// The value.
        value: V,
    },
    /// A call that failed.
    Failed {
        /// The node.
        node: NodeId,
        /// Path to the node.
        path: Path,
        /// The failure.
        error: E,
    },
    /// A frame that will not go on.
    Cancelled {
        /// The node.
        node: NodeId,
        /// Why.
        reason: CancelReason,
        /// The failure that the fan-out above collects, if it is one.
        failure: Option<E>,
    },
}

/// The mathematical shape of a [`Live`].
pub enum SpecLive<V, E> {
    Steps {
        node: NodeId,
        path: Seq<NodeId>,
        ids: Seq<NodeId>,
        next: int,
        current: Option<Box<SpecLive<V, E>>>,
        last: Option<V>,
    },
    Fan {
        node: NodeId,
        path: Seq<NodeId>,
        policy: JoinPolicy,
        reducer: Seq<char>,
        ids: Seq<NodeId>,
        kids: Seq<SpecLive<V, E>>,
        order: Seq<ChildIndex>,
    },
    Scope {
        node: NodeId,
        path: Seq<NodeId>,
        label: Seq<char>,
        body_id: NodeId,
        body: Option<Box<SpecLive<V, E>>>,
    },
    Empty { node: NodeId, path: Seq<NodeId>, value: V },
    Pending {
        node: NodeId,
        path: Seq<NodeId>,
        sid: SuspensionId,
        call: SpecCall,
        frame: CallFrameId,
    },
    Value { node: NodeId, value: V },
    Failed { node: NodeId, path: Seq<NodeId>, error: E },
    Cancelled { node: NodeId, reason: CancelReason, failure: Option<E> },
}

/// The view of a frame.
pub open spec fn live_view<V, E>(t: Live<V, E>) -> SpecLive<V, E>
    decreases t,
{
    match t {
        Live::Steps { node, path, ids, next, current, last } => SpecLive::Steps {
            node,
            path: path@,
            ids: ids@,
            next: next as int,
            current: match current {
                Some(c) => Some(Box::new(live_view(*c))),
                None => None,
            },
            last,
        },
        Live::Fan { node, path, policy, reducer, ids, kids, order } => SpecLive::Fan {
            node,
            path: path@,
            policy,
            reducer: reducer@,
            ids: ids@,
            kids: lives_view(kids@),
            order: order@,
        },
        Live::Scope { node, path, label, body_id, body } => SpecLive::Scope {
            node,
            path: path@,
            label: label@,
            body_id,
            body: match body {
                Some(b) => Some(Box::new(live_view(*b))),
                None => None,
            },
        },
        Live::Empty { node, path, value } => SpecLive::Empty { node, path: path@, value },
        Live::Pending { node, path, sid, call, frame } => SpecLive::Pending {
            node,
            path: path@,
            sid,
            call: call@,
            frame,
        },
        Live::Value { node, value } => SpecLive::Value { node, value },
        Live::Failed { node, path, error } => SpecLive::Failed { node, path: path@, error },
        Live::Cancelled { node, reason, failure } => SpecLive::Cancelled { node, reason, failure },
    }
}

/// The views of a list of frames.
pub open spec fn lives_view<V, E>(ts: Seq<Live<V, E>>) -> Seq<SpecLive<V, E>>
    decreases ts,
{
    Seq::new(
        ts.len(),
        |i: int|
            if 0 <= i < ts.len() {
                live_view(ts[i])
            } else {
                arbitrary()
            },
    )
}

impl<V, E> View for Live<V, E> {
    type V = SpecLive<V, E>;

    open spec fn view(&self) -> SpecLive<V, E> {
        live_view(*self)
    }
}

/// The first position that holds `true`, or the length.
pub open spec fn first_true(bs: Seq<bool>) -> int
    decreases bs.len(),
{
    if bs.len() == 0 || bs[0] {
        0
    } else {
        1 + first_true(bs.drop_first())
    }
}

/// The first position is the one with nothing but `false` before it.
pub proof fn lemma_first_true(bs: Seq<bool>, i: int)
    requires
        0 <= i <= bs.len(),
        forall|j: int| 0 <= j < i ==> !#[trigger] bs[j],
        i < bs.len() ==> bs[i],
    ensures
        first_true(bs) == i,
    decreases bs.len(),
{
    if bs.len() > 0 && i > 0 {
        assert(!bs[0]);
        let rest = bs.drop_first();
        assert forall|j: int| 0 <= j < i - 1 implies !#[trigger] rest[j] by {
            assert(rest[j] == bs[j + 1]);
        }
        lemma_first_true(rest, i - 1);
    }
}

/// The first position lies in the sequence or is its length.
pub proof fn lemma_first_true_range(bs: Seq<bool>)
    ensures
        0 <= first_true(bs) <= bs.len(),
        first_true(bs) < bs.len() ==> bs[first_true(bs)],
        forall|j: int| 0 <= j < first_true(bs) ==> !#[trigger] bs[j],
    decreases bs.len(),
{
    if bs.len() > 0 && !bs[0] {
        let rest = bs.drop_first();
        lemma_first_true_range(rest);
        assert forall|j: int| 0 <= j < first_true(bs) implies !#[trigger] bs[j] by {
            if j > 0 {
                assert(rest[j - 1] == bs[j]);
            }
        }
    }
}

/// The node of a frame.
pub open spec fn node_of<V, E>(t: SpecLive<V, E>) -> NodeId {
    match t {
        SpecLive::Steps { node, .. } => node,
        SpecLive::Fan { node, .. } => node,
        SpecLive::Scope { node, .. } => node,
        SpecLive::Empty { node, .. } => node,
        SpecLive::Pending { node, .. } => node,
        SpecLive::Value { node, .. } => node,
        SpecLive::Failed { node, .. } => node,
        SpecLive::Cancelled { node, .. } => node,
    }
}

/// Whether a declared child or body has yet to start.
pub open spec fn has_gap<V, E>(t: SpecLive<V, E>) -> bool
    decreases t,
{
    match t {
        SpecLive::Steps { current: Some(c), .. } => has_gap(*c),
        SpecLive::Fan { ids, kids, .. } => kids.len() < ids.len() || first_true(gaps(kids))
            < kids.len(),
        SpecLive::Scope { body: Some(b), .. } => has_gap(*b),
        SpecLive::Scope { body: None, .. } => true,
        _ => false,
    }
}

/// Which frames have a gap.
pub open spec fn gaps<V, E>(ts: Seq<SpecLive<V, E>>) -> Seq<bool>
    decreases ts,
{
    Seq::new(ts.len(), |i: int| 0 <= i < ts.len() && has_gap(ts[i]))
}

/// Whether a failure has to travel up from here.
pub open spec fn failing<V, E>(t: SpecLive<V, E>) -> bool
    decreases t,
{
    match t {
        SpecLive::Failed { .. } => true,
        SpecLive::Steps { current: Some(c), .. } => failing(*c),
        SpecLive::Fan { policy, kids, .. } => policy.fail == FailPolicy::FailFast && first_true(
            fails(kids),
        ) < kids.len(),
        SpecLive::Scope { body: Some(b), .. } => failing(*b),
        _ => false,
    }
}

/// Which frames are failing.
pub open spec fn fails<V, E>(ts: Seq<SpecLive<V, E>>) -> Seq<bool>
    decreases ts,
{
    Seq::new(ts.len(), |i: int| 0 <= i < ts.len() && failing(ts[i]))
}

/// Whether a collecting fan-out has a child whose failure it has not taken
/// yet.
pub open spec fn catching<V, E>(t: SpecLive<V, E>) -> bool
    decreases t,
{
    match t {
        SpecLive::Steps { current: Some(c), .. } => catching(*c),
        SpecLive::Fan { policy, kids, .. } => (policy.fail == FailPolicy::CollectAll && first_true(
            fails(kids),
        ) < kids.len()) || first_true(catches(kids)) < kids.len(),
        SpecLive::Scope { body: Some(b), .. } => catching(*b),
        _ => false,
    }
}

/// In which frames a collecting fan-out has a failure to take.
pub open spec fn catches<V, E>(ts: Seq<SpecLive<V, E>>) -> Seq<bool>
    decreases ts,
{
    Seq::new(ts.len(), |i: int| 0 <= i < ts.len() && catching(ts[i]))
}

/// Whether a shape is complete, out of `n` children of which `won` have a
/// value and `lost` have a collected failure.
pub open spec fn shape_fires(policy: JoinPolicy, n: int, won: int, lost: int) -> bool {
    match (policy.shape, policy.fail) {
        (JoinShape::All, FailPolicy::FailFast) => won == n,
        (JoinShape::All, FailPolicy::CollectAll) => won + lost == n,
        (JoinShape::Any, FailPolicy::FailFast) => won >= 1,
        (JoinShape::Any, FailPolicy::CollectAll) => won >= 1 || (lost == n && n > 0),
        (JoinShape::FirstK(k), FailPolicy::FailFast) => won >= k,
        (JoinShape::FirstK(k), FailPolicy::CollectAll) => won >= k || n - lost < k,
    }
}

/// The failure that the fan-out above collects from a frame.
pub open spec fn collected<V, E>(t: SpecLive<V, E>) -> Option<E> {
    match t {
        SpecLive::Cancelled { failure, .. } => failure,
        _ => None,
    }
}

/// How many frames hold a collected failure.
pub open spec fn losses<V, E>(ts: Seq<SpecLive<V, E>>) -> int
    decreases ts.len(),
{
    if ts.len() == 0 {
        0
    } else {
        losses(ts.drop_last()) + if collected(ts.last()) is Some {
            1int
        } else {
            0
        }
    }
}

/// Whether a fan-out with these fields joins now.
pub open spec fn joins<V, E>(
    policy: JoinPolicy,
    ids: Seq<NodeId>,
    kids: Seq<SpecLive<V, E>>,
    order: Seq<ChildIndex>,
) -> bool {
    kids.len() == ids.len() && shape_fires(
        policy,
        ids.len() as int,
        order.len() as int,
        losses(kids),
    )
}

/// Whether some fan-out can join.
pub open spec fn fireable<V, E>(t: SpecLive<V, E>) -> bool
    decreases t,
{
    match t {
        SpecLive::Steps { current: Some(c), .. } => fireable(*c),
        SpecLive::Fan { policy, ids, kids, order, .. } => joins(policy, ids, kids, order)
            || first_true(fires(kids)) < kids.len(),
        SpecLive::Scope { body: Some(b), .. } => fireable(*b),
        _ => false,
    }
}

/// Which frames hold a fan-out that can join.
pub open spec fn fires<V, E>(ts: Seq<SpecLive<V, E>>) -> Seq<bool>
    decreases ts,
{
    Seq::new(ts.len(), |i: int| 0 <= i < ts.len() && fireable(ts[i]))
}

/// Whether a value can move up or a sequence can go on.
pub open spec fn advances<V, E>(t: SpecLive<V, E>) -> bool
    decreases t,
{
    match t {
        SpecLive::Steps { current: Some(c), .. } => advances(*c) || *c is Value,
        SpecLive::Steps { current: None, .. } => true,
        SpecLive::Fan { kids, .. } => first_true(moves(kids)) < kids.len(),
        SpecLive::Scope { body: Some(b), .. } => advances(*b) || *b is Value,
        SpecLive::Empty { .. } => true,
        _ => false,
    }
}

/// Which frames can advance.
pub open spec fn moves<V, E>(ts: Seq<SpecLive<V, E>>) -> Seq<bool>
    decreases ts,
{
    Seq::new(ts.len(), |i: int| 0 <= i < ts.len() && advances(ts[i]))
}

/// Whether a suspension is live here.
pub open spec fn awaits<V, E>(t: SpecLive<V, E>, id: SuspensionId) -> bool
    decreases t,
{
    match t {
        SpecLive::Steps { current: Some(c), .. } => awaits(*c, id),
        SpecLive::Fan { kids, .. } => first_true(waits(kids, id)) < kids.len(),
        SpecLive::Scope { body: Some(b), .. } => awaits(*b, id),
        SpecLive::Pending { sid, .. } => sid == id,
        _ => false,
    }
}

/// In which frames a suspension is live.
pub open spec fn waits<V, E>(ts: Seq<SpecLive<V, E>>, id: SuspensionId) -> Seq<bool>
    decreases ts,
{
    Seq::new(ts.len(), |i: int| 0 <= i < ts.len() && awaits(ts[i], id))
}

/// The suspension of a waiting call.
pub open spec fn pending_of(
    node: NodeId,
    path: Seq<NodeId>,
    sid: SuspensionId,
    call: SpecCall,
    frame: CallFrameId,
) -> SpecPending {
    SpecPending {
        id: sid,
        reason: SpecReason::Call { spec: call },
        at: place(node, path, Some(frame)),
    }
}

/// The live suspensions, depth first.
pub open spec fn suspensions<V, E>(t: SpecLive<V, E>) -> Seq<SpecPending>
    decreases t, 0int,
{
    match t {
        SpecLive::Steps { current: Some(c), .. } => suspensions(*c),
        SpecLive::Fan { kids, .. } => all_suspensions(kids, kids.len()),
        SpecLive::Scope { body: Some(b), .. } => suspensions(*b),
        SpecLive::Pending { node, path, sid, call, frame } => seq![
            pending_of(node, path, sid, call, frame),
        ],
        _ => Seq::empty(),
    }
}

/// The live suspensions of the first `n` frames.
pub open spec fn all_suspensions<V, E>(ts: Seq<SpecLive<V, E>>, n: nat) -> Seq<SpecPending>
    decreases ts, n,
{
    if n == 0 || n > ts.len() {
        Seq::empty()
    } else {
        all_suspensions(ts, (n - 1) as nat) + suspensions(ts[n - 1])
    }
}

/// Where the next declared child or body starts, depth first.
pub open spec fn gap<V, E>(t: SpecLive<V, E>) -> (NodeId, Seq<NodeId>)
    decreases t,
{
    match t {
        SpecLive::Steps { current: Some(c), .. } => gap(*c),
        SpecLive::Fan { path, ids, kids, .. } => {
            let i = first_true(gaps(kids));
            if 0 <= i < kids.len() {
                gap(kids[i])
            } else {
                (ids[kids.len() as int], path.push(ids[kids.len() as int]))
            }
        },
        SpecLive::Scope { body: Some(b), .. } => gap(*b),
        SpecLive::Scope { path, body_id, body: None, .. } => (body_id, path.push(body_id)),
        _ => arbitrary(),
    }
}

/// Where the sequence that is the first to advance starts its next child, if
/// that is how it advances.
pub open spec fn starting<V, E>(t: SpecLive<V, E>) -> Option<(NodeId, Seq<NodeId>)>
    decreases t,
{
    match t {
        SpecLive::Steps { path, ids, next, current, .. } => {
            let own = if 0 <= next < ids.len() {
                Some((ids[next], path.push(ids[next])))
            } else {
                None
            };
            match current {
                None => own,
                Some(c) => if advances(*c) {
                    starting(*c)
                } else if *c is Value {
                    own
                } else {
                    None
                },
            }
        },
        SpecLive::Fan { kids, .. } => {
            let i = first_true(moves(kids));
            if 0 <= i < kids.len() {
                starting(kids[i])
            } else {
                None
            }
        },
        SpecLive::Scope { body: Some(b), .. } => if advances(*b) {
            starting(*b)
        } else {
            None
        },
        _ => None,
    }
}

/// Where a sequence would start its next child, if one is about to.
pub open spec fn upcoming<V, E>(t: SpecLive<V, E>) -> Option<(NodeId, Seq<NodeId>)>
    decreases t, 0int,
{
    match t {
        SpecLive::Steps { path, ids, next, current, .. } => {
            let own = if 0 <= next < ids.len() {
                Some((ids[next], path.push(ids[next])))
            } else {
                None
            };
            match current {
                None => own,
                Some(c) => if *c is Value {
                    own
                } else {
                    upcoming(*c)
                },
            }
        },
        SpecLive::Fan { kids, .. } => first_upcoming(kids, kids.len()),
        SpecLive::Scope { body: Some(b), .. } => upcoming(*b),
        _ => None,
    }
}

/// The first upcoming child among the first `n` frames.
pub open spec fn first_upcoming<V, E>(ts: Seq<SpecLive<V, E>>, n: nat) -> Option<
    (NodeId, Seq<NodeId>),
>
    decreases ts, n,
{
    if n == 0 || n > ts.len() {
        None
    } else {
        match first_upcoming(ts, (n - 1) as nat) {
            Some(at) => Some(at),
            None => upcoming(ts[n - 1]),
        }
    }
}

/// The completion order once child `i` has become `kid`.
pub open spec fn order_after<V, E>(
    order: Seq<ChildIndex>,
    kid: SpecLive<V, E>,
    i: int,
) -> Seq<ChildIndex> {
    if kid is Value {
        order.push(i as usize)
    } else {
        order
    }
}

impl<V, E> Live<V, E> {
    /// The node of the frame.
    pub fn node(&self) -> (out: NodeId)
        ensures
            out == node_of(self@),
    {
        match self {
            Live::Steps { node, .. } => *node,
            Live::Fan { node, .. } => *node,
            Live::Scope { node, .. } => *node,
            Live::Empty { node, .. } => *node,
            Live::Pending { node, .. } => *node,
            Live::Value { node, .. } => *node,
            Live::Failed { node, .. } => *node,
            Live::Cancelled { node, .. } => *node,
        }
    }

    /// Whether the frame is a value.
    pub fn is_value(&self) -> (out: bool)
        ensures
            out == (self@ is Value),
    {
        match self {
            Live::Value { .. } => true,
            _ => false,
        }
    }

    /// Whether a declared child or body has yet to start.
    pub fn has_gap(&self) -> (out: bool)
        ensures
            out == has_gap(self@),
        decreases self,
    {
        match self {
            Live::Steps { current: Some(c), .. } => c.has_gap(),
            Live::Fan { ids, kids, .. } => {
                assert(lives_view(kids@).len() == kids@.len());
                kids.len() < ids.len() || first_gap(kids) < kids.len()
            },
            Live::Scope { body: Some(b), .. } => b.has_gap(),
            Live::Scope { body: None, .. } => true,
            _ => false,
        }
    }

    /// Whether a failure has to travel up from here.
    pub fn failing(&self) -> (out: bool)
        ensures
            out == failing(self@),
        decreases self,
    {
        match self {
            Live::Failed { .. } => true,
            Live::Steps { current: Some(c), .. } => c.failing(),
            Live::Fan { policy, kids, .. } => policy.fail == FailPolicy::FailFast && first_failing(
                kids,
            ) < kids.len(),
            Live::Scope { body: Some(b), .. } => b.failing(),
            _ => false,
        }
    }

    /// Whether a collecting fan-out has a failure to take.
    pub fn catching(&self) -> (out: bool)
        ensures
            out == catching(self@),
        decreases self,
    {
        match self {
            Live::Steps { current: Some(c), .. } => c.catching(),
            Live::Fan { policy, kids, .. } => (policy.fail == FailPolicy::CollectAll
                && first_failing(kids) < kids.len()) || first_catching(kids) < kids.len(),
            Live::Scope { body: Some(b), .. } => b.catching(),
            _ => false,
        }
    }

    /// Whether some fan-out can join.
    pub fn fireable(&self) -> (out: bool)
        ensures
            out == fireable(self@),
        decreases self,
    {
        match self {
            Live::Steps { current: Some(c), .. } => c.fireable(),
            Live::Fan { policy, ids, kids, order, .. } => joins_now(policy, ids, kids, order)
                || first_fireable(kids) < kids.len(),
            Live::Scope { body: Some(b), .. } => b.fireable(),
            _ => false,
        }
    }

    /// Whether a value can move up or a sequence can go on.
    pub fn advances(&self) -> (out: bool)
        ensures
            out == advances(self@),
        decreases self,
    {
        match self {
            Live::Steps { current: Some(c), .. } => c.advances() || c.is_value(),
            Live::Steps { current: None, .. } => true,
            Live::Fan { kids, .. } => first_advancing(kids) < kids.len(),
            Live::Scope { body: Some(b), .. } => b.advances() || b.is_value(),
            Live::Empty { .. } => true,
            _ => false,
        }
    }

    /// Whether a suspension is live here.
    pub fn awaits(&self, id: SuspensionId) -> (out: bool)
        ensures
            out == awaits(self@, id),
        decreases self,
    {
        match self {
            Live::Steps { current: Some(c), .. } => c.awaits(id),
            Live::Fan { kids, .. } => first_awaiting(kids, id) < kids.len(),
            Live::Scope { body: Some(b), .. } => b.awaits(id),
            Live::Pending { sid, .. } => sid.0 == id.0,
            _ => false,
        }
    }

    /// The live suspensions, depth first.
    pub fn suspensions(&self) -> (out: Vec<Pending>)
        ensures
            crate::event::pendings_view(out@) == suspensions(self@),
        decreases self,
    {
        let mut out: Vec<Pending> = Vec::new();
        assert(crate::event::pendings_view(out@) =~= Seq::empty());
        self.push_suspensions(&mut out);
        assert(crate::event::pendings_view(out@) =~= suspensions(self@));
        out
    }

    fn push_suspensions(&self, out: &mut Vec<Pending>)
        ensures
            crate::event::pendings_view(final(out)@) == crate::event::pendings_view(old(out)@)
                + suspensions(self@),
        decreases self,
    {
        match self {
            Live::Steps { current: Some(c), .. } => c.push_suspensions(out),
            Live::Fan { kids, .. } => {
                let ghost before = crate::event::pendings_view(out@);
                let n: usize = kids.len();
                for i in 0..n
                    invariant
                        n == kids@.len(),
                        *self matches Live::Fan { kids: ks, .. } && ks == *kids,
                        crate::event::pendings_view(out@) == before + all_suspensions(
                            lives_view(kids@),
                            i as nat,
                        ),
                {
                    let ghost mid = crate::event::pendings_view(out@);
                    kids[i].push_suspensions(out);
                    assert(lives_view(kids@)[i as int] == kids@[i as int]@);
                    assert(crate::event::pendings_view(out@) =~= before + all_suspensions(
                        lives_view(kids@),
                        (i + 1) as nat,
                    ));
                }
            },
            Live::Scope { body: Some(b), .. } => b.push_suspensions(out),
            Live::Pending { node, path, sid, call, frame } => {
                let ghost before = crate::event::pendings_view(out@);
                let p = Pending {
                    id: *sid,
                    reason: SuspendReason::Call { spec: call.clone() },
                    at: place_at(*node, path, Some(*frame)),
                };
                out.push(p);
                assert(crate::event::pendings_view(out@) =~= before + suspensions(self@));
            },
            _ => {
                assert(crate::event::pendings_view(out@) =~= crate::event::pendings_view(
                    old(out)@,
                ) + suspensions(self@));
            },
        }
    }

    /// Where the next declared child or body starts, depth first.
    pub fn gap(&self) -> (out: (NodeId, Path))
        requires
            has_gap(self@),
        ensures
            (out.0, out.1@) == gap(self@),
        decreases self,
    {
        match self {
            Live::Steps { current: Some(c), .. } => c.gap(),
            Live::Fan { node, path, ids, kids, .. } => {
                proof {
                    lemma_first_true_range(gaps(lives_view(kids@)));
                }
                let i: usize = first_gap(kids);
                if i < kids.len() {
                    assert(lives_view(kids@)[i as int] == kids@[i as int]@);
                    kids[i].gap()
                } else {
                    (ids[kids.len()], path.push(ids[kids.len()]))
                }
            },
            Live::Scope { body: Some(b), .. } => b.gap(),
            Live::Scope { path, body_id, body: None, .. } => (*body_id, path.push(*body_id)),
            _ => (self.node(), Path::root()),
        }
    }

    /// Where the sequence that is the first to advance starts its next child,
    /// if that is how it advances.
    pub fn starting(&self) -> (out: Option<(NodeId, Path)>)
        ensures
            match out {
                Some(at) => starting(self@) == Some((at.0, at.1@)),
                None => starting(self@) is None,
            },
        decreases self,
    {
        match self {
            Live::Steps { path, ids, next, current, .. } => {
                if let Some(c) = current {
                    if c.advances() {
                        return c.starting();
                    }
                    if !c.is_value() {
                        return None;
                    }
                }
                if *next < ids.len() {
                    Some((ids[*next], path.push(ids[*next])))
                } else {
                    None
                }
            },
            Live::Fan { kids, .. } => {
                proof {
                    lemma_first_true_range(moves(lives_view(kids@)));
                }
                assert(lives_view(kids@).len() == kids@.len());
                let i: usize = first_advancing(kids);
                if i < kids.len() {
                    assert(lives_view(kids@)[i as int] == kids@[i as int]@);
                    kids[i].starting()
                } else {
                    None
                }
            },
            Live::Scope { body: Some(b), .. } => if b.advances() {
                b.starting()
            } else {
                None
            },
            _ => None,
        }
    }

    /// Where a sequence would start its next child, if one is about to.
    pub fn upcoming(&self) -> (out: Option<(NodeId, Path)>)
        ensures
            match out {
                Some(at) => upcoming(self@) == Some((at.0, at.1@)),
                None => upcoming(self@) is None,
            },
        decreases self,
    {
        match self {
            Live::Steps { path, ids, next, current, .. } => {
                let descend: bool = match current {
                    Some(c) => !c.is_value(),
                    None => false,
                };
                if descend {
                    match current {
                        Some(c) => c.upcoming(),
                        None => None,
                    }
                } else if *next < ids.len() {
                    Some((ids[*next], path.push(ids[*next])))
                } else {
                    None
                }
            },
            Live::Fan { kids, .. } => {
                let n: usize = kids.len();
                for i in 0..n
                    invariant
                        n == kids@.len(),
                        *self matches Live::Fan { kids: ks, .. } && ks == *kids,
                        first_upcoming(lives_view(kids@), i as nat) is None,
                {
                    assert(lives_view(kids@)[i as int] == kids@[i as int]@);
                    let found = kids[i].upcoming();
                    if found.is_some() {
                        proof {
                            lemma_first_upcoming(
                                lives_view(kids@),
                                (i + 1) as nat,
                                lives_view(kids@).len(),
                            );
                        }
                        return found;
                    }
                }
                None
            },
            Live::Scope { body: Some(b), .. } => b.upcoming(),
            _ => None,
        }
    }
}

/// Looking at more frames does not change what was found first.
proof fn lemma_first_upcoming<V, E>(ts: Seq<SpecLive<V, E>>, m: nat, n: nat)
    requires
        m <= n <= ts.len(),
        first_upcoming(ts, m) is Some,
    ensures
        first_upcoming(ts, n) == first_upcoming(ts, m),
    decreases n,
{
    if m < n {
        lemma_first_upcoming(ts, m, (n - 1) as nat);
    }
}

/// The first frame with a gap.
pub fn first_gap<V, E>(kids: &Vec<Live<V, E>>) -> (out: usize)
    ensures
        out == first_true(gaps(lives_view(kids@))),
    decreases kids,
{
    let ghost all = gaps(lives_view(kids@));
    let n: usize = kids.len();
    for i in 0..n
        invariant
            n == kids@.len(),
            all == gaps(lives_view(kids@)),
            forall|j: int| 0 <= j < i ==> !#[trigger] all[j],
    {
        assert(lives_view(kids@)[i as int] == kids@[i as int]@);
        if kids[i].has_gap() {
            proof {
                lemma_first_true(all, i as int);
            }
            return i;
        }
    }
    proof {
        lemma_first_true(all, n as int);
    }
    n
}

/// The first failing frame.
pub fn first_failing<V, E>(kids: &Vec<Live<V, E>>) -> (out: usize)
    ensures
        out == first_true(fails(lives_view(kids@))),
    decreases kids,
{
    let ghost all = fails(lives_view(kids@));
    let n: usize = kids.len();
    for i in 0..n
        invariant
            n == kids@.len(),
            all == fails(lives_view(kids@)),
            forall|j: int| 0 <= j < i ==> !#[trigger] all[j],
    {
        assert(lives_view(kids@)[i as int] == kids@[i as int]@);
        if kids[i].failing() {
            proof {
                lemma_first_true(all, i as int);
            }
            return i;
        }
    }
    proof {
        lemma_first_true(all, n as int);
    }
    n
}

/// The first frame with a failure to take.
pub fn first_catching<V, E>(kids: &Vec<Live<V, E>>) -> (out: usize)
    ensures
        out == first_true(catches(lives_view(kids@))),
    decreases kids,
{
    let ghost all = catches(lives_view(kids@));
    let n: usize = kids.len();
    for i in 0..n
        invariant
            n == kids@.len(),
            all == catches(lives_view(kids@)),
            forall|j: int| 0 <= j < i ==> !#[trigger] all[j],
    {
        assert(lives_view(kids@)[i as int] == kids@[i as int]@);
        if kids[i].catching() {
            proof {
                lemma_first_true(all, i as int);
            }
            return i;
        }
    }
    proof {
        lemma_first_true(all, n as int);
    }
    n
}

/// The first frame with a fan-out that can join.
pub fn first_fireable<V, E>(kids: &Vec<Live<V, E>>) -> (out: usize)
    ensures
        out == first_true(fires(lives_view(kids@))),
    decreases kids,
{
    let ghost all = fires(lives_view(kids@));
    let n: usize = kids.len();
    for i in 0..n
        invariant
            n == kids@.len(),
            all == fires(lives_view(kids@)),
            forall|j: int| 0 <= j < i ==> !#[trigger] all[j],
    {
        assert(lives_view(kids@)[i as int] == kids@[i as int]@);
        if kids[i].fireable() {
            proof {
                lemma_first_true(all, i as int);
            }
            return i;
        }
    }
    proof {
        lemma_first_true(all, n as int);
    }
    n
}

/// The first frame that can advance.
pub fn first_advancing<V, E>(kids: &Vec<Live<V, E>>) -> (out: usize)
    ensures
        out == first_true(moves(lives_view(kids@))),
    decreases kids,
{
    let ghost all = moves(lives_view(kids@));
    let n: usize = kids.len();
    for i in 0..n
        invariant
            n == kids@.len(),
            all == moves(lives_view(kids@)),
            forall|j: int| 0 <= j < i ==> !#[trigger] all[j],
    {
        assert(lives_view(kids@)[i as int] == kids@[i as int]@);
        if kids[i].advances() {
            proof {
                lemma_first_true(all, i as int);
            }
            return i;
        }
    }
    proof {
        lemma_first_true(all, n as int);
    }
    n
}

/// The first frame in which a suspension is live.
pub fn first_awaiting<V, E>(kids: &Vec<Live<V, E>>, id: SuspensionId) -> (out: usize)
    ensures
        out == first_true(waits(lives_view(kids@), id)),
    decreases kids,
{
    let ghost all = waits(lives_view(kids@), id);
    let n: usize = kids.len();
    for i in 0..n
        invariant
            n == kids@.len(),
            all == waits(lives_view(kids@), id),
            forall|j: int| 0 <= j < i ==> !#[trigger] all[j],
    {
        assert(lives_view(kids@)[i as int] == kids@[i as int]@);
        if kids[i].awaits(id) {
            proof {
                lemma_first_true(all, i as int);
            }
            return i;
        }
    }
    proof {
        lemma_first_true(all, n as int);
    }
    n
}

/// How many frames hold a collected failure.
fn count_losses<V, E>(kids: &Vec<Live<V, E>>) -> (out: usize)
    ensures
        out == losses(lives_view(kids@)),
        out <= kids@.len(),
{
    let ghost all = lives_view(kids@);
    let mut out: usize = 0;
    let n: usize = kids.len();
    for i in 0..n
        invariant
            n == kids@.len(),
            all == lives_view(kids@),
            out <= i,
            out == losses(all.take(i as int)),
    {
        proof {
            assert(all.take(i + 1).drop_last() =~= all.take(i as int));
            assert(all.take(i + 1).last() == kids@[i as int]@);
        }
        match &kids[i] {
            Live::Cancelled { failure: Some(_), .. } => {
                out += 1;
            },
            _ => {},
        }
    }
    assert(all.take(n as int) =~= all);
    out
}

/// Whether a shape is complete.
pub fn shape_complete(policy: &JoinPolicy, n: usize, won: usize, lost: usize) -> (out: bool)
    requires
        lost <= n,
    ensures
        out == shape_fires(*policy, n as int, won as int, lost as int),
{
    match policy.shape {
        JoinShape::All => match policy.fail {
            FailPolicy::FailFast => won == n,
            FailPolicy::CollectAll => won == n - lost,
        },
        JoinShape::Any => match policy.fail {
            FailPolicy::FailFast => won >= 1,
            FailPolicy::CollectAll => won >= 1 || (lost == n && n > 0),
        },
        JoinShape::FirstK(k) => match policy.fail {
            FailPolicy::FailFast => won >= k,
            FailPolicy::CollectAll => won >= k || n - lost < k,
        },
    }
}

/// Whether a fan-out with these fields joins now.
pub fn joins_now<V, E>(
    policy: &JoinPolicy,
    ids: &Vec<NodeId>,
    kids: &Vec<Live<V, E>>,
    order: &Vec<ChildIndex>,
) -> (out: bool)
    ensures
        out == joins(*policy, ids@, lives_view(kids@), order@),
{
    if kids.len() == ids.len() {
        shape_complete(policy, ids.len(), order.len(), count_losses(kids))
    } else {
        false
    }
}

} // verus!
