//! What a tree tells the engine.
use vstd::prelude::*;

use crate::error::{EngineError, SpecEngineError};
use crate::ids::NodeId;
use crate::join::{JoinPolicy, ReducerId};

verus! {

/// Failure of a step: the engine's own, or one that the host reported and
/// that no join collected.
#[derive(Debug)]
pub enum ExecError<EE> {
    /// A failure of the engine.
    Engine(EngineError),
    /// A failure of an effect.
    Effect(EE),
}

/// The mathematical shape of an [`ExecError`].
pub enum SpecExecError<EE> {
    Engine(SpecEngineError),
    Effect(EE),
}

impl<EE> View for ExecError<EE> {
    type V = SpecExecError<EE>;

    open spec fn view(&self) -> SpecExecError<EE> {
        match self {
            ExecError::Engine(e) => SpecExecError::Engine(e@),
            ExecError::Effect(e) => SpecExecError::Effect(*e),
        }
    }
}

impl<EE> vstd::std_specs::convert::FromSpecImpl<EE> for ExecError<EE> {
    open spec fn obeys_from_spec() -> bool {
        true
    }

    open spec fn from_spec(e: EE) -> ExecError<EE> {
        ExecError::Effect(e)
    }
}

impl<EE> From<EE> for ExecError<EE> {
    fn from(e: EE) -> (out: Self) {
        ExecError::Effect(e)
    }
}

/// A node's structural classification.
#[allow(inconsistent_fields)]
#[derive(Debug)]
pub enum NodeKind {
    /// Evaluate children left to right; the last value is the result.
    Sequence {
        /// Child nodes, in declaration order.
        children: Vec<NodeId>,
    },
    /// Evaluate children concurrently and fold their values.
    Par {
        /// Child nodes; each occupies one slot.
        children: Vec<NodeId>,
        /// Success shape and failure handling.
        policy: JoinPolicy,
        /// Name of the reducer.
        reducer_id: ReducerId,
    },
    /// Evaluate a body under a label.
    Scope {
        /// The label.
        label: String,
        /// The body.
        body: NodeId,
    },
    /// Evaluate a body if there is one.
    Maybe {
        /// The body when present.
        body: Option<NodeId>,
    },
    /// Suspend until the host answers.
    Call {
        /// Short human-readable label.
        label: String,
        /// Payload the host inspects when it executes the effect.
        payload: serde_json::Value,
    },
}

/// The mathematical shape of a [`NodeKind`].
#[allow(inconsistent_fields)]
pub enum SpecKind {
    Sequence { children: Seq<NodeId> },
    Par { children: Seq<NodeId>, policy: JoinPolicy, reducer_id: Seq<char> },
    Scope { label: Seq<char>, body: NodeId },
    Maybe { body: Option<NodeId> },
    Call { label: Seq<char>, payload: serde_json::Value },
}

impl View for NodeKind {
    type V = SpecKind;

    open spec fn view(&self) -> SpecKind {
        match self {
            NodeKind::Sequence { children } => SpecKind::Sequence { children: children@ },
            NodeKind::Par { children, policy, reducer_id } => SpecKind::Par {
                children: children@,
                policy: *policy,
                reducer_id: reducer_id@,
            },
            NodeKind::Scope { label, body } => SpecKind::Scope { label: label@, body: *body },
            NodeKind::Maybe { body } => SpecKind::Maybe { body: *body },
            NodeKind::Call { label, payload } => SpecKind::Call {
                label: label@,
                payload: *payload,
            },
        }
    }
}

impl Clone for NodeKind {
    fn clone(&self) -> (out: Self)
        ensures
            out@ == self@,
    {
        match self {
            NodeKind::Sequence { children } => NodeKind::Sequence {
                children: crate::ids::clone_nodes(children),
            },
            NodeKind::Par { children, policy, reducer_id } => NodeKind::Par {
                children: crate::ids::clone_nodes(children),
                policy: *policy,
                reducer_id: reducer_id.clone(),
            },
            NodeKind::Scope { label, body } => NodeKind::Scope {
                label: label.clone(),
                body: *body,
            },
            NodeKind::Maybe { body } => NodeKind::Maybe { body: *body },
            NodeKind::Call { label, payload } => NodeKind::Call {
                label: label.clone(),
                payload: payload.clone(),
            },
        }
    }
}

/// The contract of a tree with the engine: a read-only oracle that names its
/// root and classifies its nodes, always the same way.
pub trait Ast {
    /// Runtime value type.
    type Value: Clone;

    /// State delta of one child of a fan-out.
    type Delta: Clone + Default;

    /// Failure the host reports.
    type EffectError: Clone;

    /// Cursor shown in the frame tree.
    type Cursor: Clone + Default;

    /// The root node.
    spec fn root_spec(&self) -> NodeId;

    /// The classification of a node.
    spec fn kind_spec(&self, id: NodeId) -> SpecKind;

    /// The value of an empty branch.
    spec fn unit_spec(&self) -> Self::Value;

    /// The default delta.
    spec fn blank_delta() -> Self::Delta;

    /// The default cursor.
    spec fn blank_cursor() -> Self::Cursor;

    /// A cloned value is the value.
    proof fn value_clone_is_equal(a: Self::Value, b: Self::Value)
        requires
            call_ensures(<Self::Value as Clone>::clone, (&a,), b),
        ensures
            a == b,
    ;

    /// A cloned failure is the failure.
    proof fn error_clone_is_equal(a: Self::EffectError, b: Self::EffectError)
        requires
            call_ensures(<Self::EffectError as Clone>::clone, (&a,), b),
        ensures
            a == b,
    ;

    /// A default delta is the blank one.
    proof fn default_delta_is_blank(d: Self::Delta)
        requires
            call_ensures(<Self::Delta as Default>::default, (), d),
        ensures
            d == Self::blank_delta(),
    ;

    /// A default cursor is the blank one.
    proof fn default_cursor_is_blank(c: Self::Cursor)
        requires
            call_ensures(<Self::Cursor as Default>::default, (), c),
        ensures
            c == Self::blank_cursor(),
    ;

    /// Root node the interpretation starts at.
    fn root(&self) -> (out: NodeId)
        ensures
            out == self.root_spec(),
    ;

    /// Classifies a node.
    fn node_kind(&self, id: NodeId) -> (out: NodeKind)
        ensures
            out@ == self.kind_spec(id),
    ;

    /// Value of an empty branch: an empty sequence or an absent body.
    fn unit_value(&self) -> (out: Self::Value)
        ensures
            out == self.unit_spec(),
    ;
}

/// A copy of a value.
pub(crate) fn copy_value<A: Ast>(v: &A::Value) -> (out: A::Value)
    ensures
        out == *v,
{
    let out = v.clone();
    proof {
        A::value_clone_is_equal(*v, out);
    }
    out
}

/// A copy of a failure.
pub(crate) fn copy_error<A: Ast>(e: &A::EffectError) -> (out: A::EffectError)
    ensures
        out == *e,
{
    let out = e.clone();
    proof {
        A::error_clone_is_equal(*e, out);
    }
    out
}

} // verus!
