//! The live frame tree a debugger reads, and what one step reports.
use std::sync::Arc;

use smallvec::SmallVec;
use vstd::prelude::*;

use crate::event::{pendings_view, Pending, SpecPending};
use crate::ids::{NodeId, SuspensionId};
use crate::join::{ChildIndex, JoinPolicy, ReducerHandle, ReducerId};

verus! {

/// Why a sub-tree was cancelled.
#[derive(Debug, Clone, Copy, PartialEq, Eq, Structural)]
pub enum CancelReason {
    /// The enclosing fan-out selected its winners.
    ParPolicyFired,
    /// A sibling failed.
    SiblingFailed,
}

/// Shared environment handle.
#[derive(Debug)]
#[verifier::reject_recursive_types(D)]
pub struct EnvRef<D>(pub Arc<Env<D>>);

/// The environment a frame holds.
#[derive(Debug)]
#[verifier::reject_recursive_types(D)]
pub struct Env<D> {
    /// The state delta or bindings snapshot.
    pub delta: D,
    /// Optional parent for lexical lookup.
    pub parent: Option<Arc<Env<D>>>,
}

impl<D> Clone for EnvRef<D> {
    fn clone(&self) -> (out: Self)
        ensures
            out == *self,
    {
        EnvRef(self.0.clone())
    }
}

/// The mathematical shape of an [`Env`]: the deltas, innermost first.
pub open spec fn env_deltas<D>(env: Env<D>) -> Seq<D>
    decreases env,
{
    match env.parent {
        None => seq![env.delta],
        Some(p) => seq![env.delta] + env_deltas(*p),
    }
}

/// One node in the live frame tree.
#[verifier::reject_recursive_types(V)]
#[verifier::reject_recursive_types(D)]
#[verifier::reject_recursive_types(EE)]
pub enum Frame<V, C, D, EE> {
    /// An interior node currently executing.
    Node {
        /// The node this frame interprets.
        node: NodeId,
        /// Shared environment snapshot.
        env: EnvRef<D>,
        /// Cursor, opaque to the engine.
        cursor: C,
    },
    /// A fan-out root. Its children are the kids of the enclosing tree.
    Par(ParFrame<V, D, EE>),
    /// A labelled section wrapper.
    Scope {
        /// Section label.
        label: String,
        /// Shared environment snapshot.
        env: EnvRef<D>,
    },
    /// A leaf blocked on an external effect.
    PendingEffect {
        /// The suspension it waits for.
        id: SuspensionId,
    },
    /// A leaf whose value waits to be consumed by its parent.
    Value(V),
    /// A cancelled sub-tree, kept so that it can be rendered.
    Cancelled {
        /// Why the sub-tree was cancelled.
        reason: CancelReason,
    },
}

/// Tree of frames. Under a fan-out, `kids[i]` is the `i`-th child.
#[verifier::reject_recursive_types(V)]
#[verifier::reject_recursive_types(C)]
#[verifier::reject_recursive_types(D)]
#[verifier::reject_recursive_types(EE)]
pub struct FrameTree<V, C, D, EE> {
    /// The frame at this node.
    pub root: Frame<V, C, D, EE>,
    /// Child sub-trees.
    pub kids: Vec<FrameTree<V, C, D, EE>>,
}

/// Fan-out metadata, indexed like the kids of the enclosing tree.
#[verifier::reject_recursive_types(V)]
#[verifier::reject_recursive_types(D)]
#[verifier::reject_recursive_types(EE)]
pub struct ParFrame<V, D, EE> {
    /// Success shape and failure policy.
    pub policy: JoinPolicy,
    /// The value of each child that completed successfully.
    pub slots: Vec<Option<V>>,
    /// The failure of each child whose failure was collected.
    pub failures: Vec<Option<EE>>,
    /// Accumulated delta of each child.
    pub deltas: Vec<Option<D>>,
    /// Order in which children completed successfully.
    pub completion_order: Vec<ChildIndex>,
    /// Registry key of the reducer.
    pub reducer_id: ReducerId,
    /// The resolved reducer.
    pub reducer: ReducerHandle<V, D, EE>,
    /// Whether the shape has fired.
    pub joined: bool,
}

/// The mathematical shape of a [`ParFrame`].
#[verifier::reject_recursive_types(V)]
#[verifier::reject_recursive_types(D)]
#[verifier::reject_recursive_types(EE)]
pub struct SpecParFrame<V, D, EE> {
    pub policy: JoinPolicy,
    pub slots: Seq<Option<V>>,
    pub failures: Seq<Option<EE>>,
    pub deltas: Seq<Option<D>>,
    pub completion_order: Seq<ChildIndex>,
    pub reducer_id: Seq<char>,
    pub reducer: ReducerHandle<V, D, EE>,
    pub joined: bool,
}

/// The mathematical shape of a [`Frame`].
#[verifier::reject_recursive_types(V)]
#[verifier::reject_recursive_types(D)]
#[verifier::reject_recursive_types(EE)]
pub enum SpecFrame<V, C, D, EE> {
    Node { node: NodeId, env: Seq<D>, cursor: C },
    Par(SpecParFrame<V, D, EE>),
    Scope { label: Seq<char>, env: Seq<D> },
    PendingEffect { id: SuspensionId },
    Value(V),
    Cancelled { reason: CancelReason },
}

/// The mathematical shape of a [`FrameTree`].
#[verifier::reject_recursive_types(V)]
#[verifier::reject_recursive_types(C)]
#[verifier::reject_recursive_types(D)]
#[verifier::reject_recursive_types(EE)]
pub struct SpecFrameTree<V, C, D, EE> {
    pub root: SpecFrame<V, C, D, EE>,
    pub kids: Seq<SpecFrameTree<V, C, D, EE>>,
}

impl<V, D, EE> View for ParFrame<V, D, EE> {
    type V = SpecParFrame<V, D, EE>;

    open spec fn view(&self) -> SpecParFrame<V, D, EE> {
        SpecParFrame {
            policy: self.policy,
            slots: self.slots@,
            failures: self.failures@,
            deltas: self.deltas@,
            completion_order: self.completion_order@,
            reducer_id: self.reducer_id@,
            reducer: self.reducer,
            joined: self.joined,
        }
    }
}

impl<V, C, D, EE> View for Frame<V, C, D, EE> {
    type V = SpecFrame<V, C, D, EE>;

    open spec fn view(&self) -> SpecFrame<V, C, D, EE> {
        match self {
            Frame::Node { node, env, cursor } => SpecFrame::Node {
                node: *node,
                env: env_deltas(*env.0),
                cursor: *cursor,
            },
            Frame::Par(par) => SpecFrame::Par(par@),
            Frame::Scope { label, env } => SpecFrame::Scope {
                label: label@,
                env: env_deltas(*env.0),
            },
            Frame::PendingEffect { id } => SpecFrame::PendingEffect { id: *id },
            Frame::Value(v) => SpecFrame::Value(*v),
            Frame::Cancelled { reason } => SpecFrame::Cancelled { reason: *reason },
        }
    }
}

/// The view of a frame tree.
pub open spec fn tree_view<V, C, D, EE>(t: FrameTree<V, C, D, EE>) -> SpecFrameTree<V, C, D, EE>
    decreases t,
{
    SpecFrameTree { root: t.root@, kids: trees_view(t.kids@) }
}

/// The views of a list of frame trees.
pub open spec fn trees_view<V, C, D, EE>(ts: Seq<FrameTree<V, C, D, EE>>) -> Seq<
    SpecFrameTree<V, C, D, EE>,
>
    decreases ts,
{
    Seq::new(
        ts.len(),
        |i: int|
            if 0 <= i < ts.len() {
                tree_view(ts[i])
            } else {
                arbitrary()
            },
    )
}

impl<V, C, D, EE> View for FrameTree<V, C, D, EE> {
    type V = SpecFrameTree<V, C, D, EE>;

    open spec fn view(&self) -> SpecFrameTree<V, C, D, EE> {
        tree_view(*self)
    }
}

/// A short list of suspensions.
#[verifier::external_body]
#[derive(Debug)]
pub struct PendingList {
    items: SmallVec<[Pending; 1]>,
}

/// What a list holds, oldest first.
pub uninterp spec fn listed(list: PendingList) -> Seq<Pending>;

impl View for PendingList {
    type V = Seq<SpecPending>;

    open spec fn view(&self) -> Seq<SpecPending> {
        pendings_view(listed(*self))
    }
}

impl PendingList {
    /// `SmallVec::from_vec`: a list of the same items in the same order.
    #[verifier::external_body]
    pub(crate) fn of(items: Vec<Pending>) -> (out: Self)
        ensures
            listed(out) == items@,
    {
        PendingList { items: SmallVec::from_vec(items) }
    }

    /// `SmallVec::as_slice`: the items in order.
    #[verifier::external_body]
    pub(crate) fn items<'a>(&'a self) -> (out: &'a [Pending])
        ensures
            out@ == listed(*self),
    {
        self.items.as_slice()
    }

    /// The suspensions, oldest first.
    pub fn as_slice<'a>(&'a self) -> (out: &'a [Pending])
        ensures
            pendings_view(out@) == self@,
    {
        self.items()
    }

    /// Number of suspensions.
    pub fn len(&self) -> (out: usize)
        ensures
            out == self@.len(),
    {
        self.items().len()
    }

    /// Whether there is none.
    pub fn is_empty(&self) -> (out: bool)
        ensures
            out == (self@.len() == 0),
    {
        self.items().len() == 0
    }

    /// The `i`-th suspension.
    pub fn get<'a>(&'a self, i: usize) -> (out: Option<&'a Pending>)
        ensures
            match out {
                Some(p) => i < self@.len() && p@ == self@[i as int],
                None => i >= self@.len(),
            },
    {
        let items = self.items();
        if i < items.len() {
            Some(&items[i])
        } else {
            None
        }
    }
}

impl Clone for PendingList {
    fn clone(&self) -> (out: Self)
        ensures
            out@ == self@,
    {
        let items = self.items();
        let mut copy: Vec<Pending> = Vec::new();
        for i in 0..items.len()
            invariant
                copy@.len() == i,
                forall|j: int| 0 <= j < i ==> (#[trigger] copy@[j])@ == items@[j]@,
        {
            copy.push(items[i].clone());
        }
        assert(pendings_view(copy@) =~= pendings_view(items@));
        PendingList::of(copy)
    }
}

/// Outcome of one call of a stepper.
#[derive(Debug)]
pub enum StepOutcome<V> {
    /// The engine advanced and can go on.
    Ready,
    /// The engine waits for the host.
    Blocked {
        /// Suspensions created by this call.
        newly_pending: PendingList,
    },
    /// The interpretation completed.
    Done(V),
}

/// The mathematical shape of a [`StepOutcome`].
pub enum SpecOutcome<V> {
    Ready,
    Blocked { newly_pending: Seq<SpecPending> },
    Done(V),
}

impl<V> View for StepOutcome<V> {
    type V = SpecOutcome<V>;

    open spec fn view(&self) -> SpecOutcome<V> {
        match self {
            StepOutcome::Ready => SpecOutcome::Ready,
            StepOutcome::Blocked { newly_pending } => SpecOutcome::Blocked {
                newly_pending: newly_pending@,
            },
            StepOutcome::Done(v) => SpecOutcome::Done(*v),
        }
    }
}

impl<V: Clone> Clone for StepOutcome<V> {
    fn clone(&self) -> (out: Self)
        ensures
            match (*self, out) {
                (StepOutcome::Done(v), StepOutcome::Done(w)) => call_ensures(V::clone, (&v,), w),
                (StepOutcome::Done(_), _) => false,
                _ => out@ == self@,
            },
    {
        match self {
            StepOutcome::Ready => StepOutcome::Ready,
            StepOutcome::Blocked { newly_pending } => StepOutcome::Blocked {
                newly_pending: newly_pending.clone(),
            },
            StepOutcome::Done(v) => StepOutcome::Done(v.clone()),
        }
    }
}

/// Something that can be driven one step at a time from the outside.
pub trait Stepper {
    /// Value produced on completion.
    type Value;

    /// Cursor stored in the frames.
    type Cursor;

    /// State delta merged by reducers.
    type Delta;

    /// Failure the host reports.
    type EffectError;

    /// Failure of a step.
    type Error;

    /// Advances as far as possible without the host.
    fn step(&mut self) -> Result<StepOutcome<Self::Value>, Self::Error>;

    /// Feeds a response back for one suspension. The host may answer in any
    /// order.
    fn resolve(
        &mut self,
        id: SuspensionId,
        result: Result<Self::Value, Self::EffectError>,
    ) -> Result<(), Self::Error>;

    /// Every live suspension, in depth-first order over the frame tree.
    fn pending(&self) -> Vec<Pending>;

    /// Drains the suspensions cancelled since the last call.
    fn take_cancellations(&mut self) -> Vec<SuspensionId>;

    /// The live frame tree.
    fn frame_tree(&self) -> FrameTree<Self::Value, Self::Cursor, Self::Delta, Self::EffectError>;

    /// Whether the root has produced a value.
    fn is_done(&self) -> bool;
}

} // verus!
