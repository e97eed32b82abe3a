use std::collections::HashMap;
use std::sync::Arc;

use dsl_kit::math::{Sequence};
use dsl_kit::error::SpecEngineError;
use dsl_kit::event::SpecEvent;
use dsl_kit::breakpoint::{BreakCondition, BreakpointSet};
use dsl_kit::engine::ast::{Ast, ExecError, NodeKind, SpecKind};
use dsl_kit::engine::drive::{drive, DriveOutcome, EffectResolver, SpecNote};
use dsl_kit::engine::step::Engine;
use dsl_kit::error::EngineError;
use dsl_kit::event::{BufferingSink, Event, EventSink, Pending, SuspendReason};
use dsl_kit::frame::{Frame, StepOutcome, Stepper};
use dsl_kit::ids::{NodeId, SuspensionId};
use dsl_kit::join::{
    ChildIndex, FailPolicy, JoinPolicy, JoinShape, Reducer, ReducerCollectAll, ReducerId,
    ReducerRegistry, Shared,
};

// ---- A minimal in-core test DSL --------------------------------

#[derive(Debug, Clone, PartialEq, Eq)]
enum V {
    Unit,
    S(String),
    List(Vec<V>),
}

#[derive(Debug, Clone)]
struct EE(String);

#[derive(Debug, Clone)]
enum N {
    Steps(Vec<N>),
    Par {
        children: Vec<N>,
        policy: JoinPolicy,
        reducer: &'static str,
    },
    Scope(String, Box<N>),
    Maybe(Option<Box<N>>),
    Call(String),
}

/// Assign NodeIds in a fixed DFS pre-order for reproducibility.
fn assign_ids(node: &N, next: &mut u64) -> (NodeId, Node) {
    let id = NodeId(*next);
    *next += 1;
    let cooked = match node {
        N::Steps(children) => {
            let cs = children
                .iter()
                .map(|c| assign_ids(c, next))
                .collect::<Vec<_>>();
            Node::Steps(id, cs)
        }
        N::Par {
            children,
            policy,
            reducer,
        } => {
            let cs = children
                .iter()
                .map(|c| assign_ids(c, next))
                .collect::<Vec<_>>();
            Node::Par(id, cs, *policy, ReducerId::from(*reducer))
        }
        N::Scope(label, body) => {
            let b = assign_ids(body, next);
            Node::Scope(id, label.clone(), Box::new(b))
        }
        N::Maybe(body) => {
            let b = body.as_ref().map(|b| Box::new(assign_ids(b, next)));
            Node::Maybe(id, b)
        }
        N::Call(label) => Node::Call(id, label.clone()),
    };
    (id, cooked)
}

enum Node {
    Steps(NodeId, Vec<(NodeId, Node)>),
    Par(NodeId, Vec<(NodeId, Node)>, JoinPolicy, ReducerId),
    Scope(NodeId, String, Box<(NodeId, Node)>),
    Maybe(NodeId, Option<Box<(NodeId, Node)>>),
    Call(NodeId, String),
}

struct TestAst {
    root_id: NodeId,
    by_id: HashMap<NodeId, NodeKind>,
}

impl TestAst {
    fn build(root: N) -> Self {
        let mut next = 1u64;
        let (root_id, cooked) = assign_ids(&root, &mut next);
        let mut by_id = HashMap::new();
        flatten(cooked, &mut by_id);
        Self { root_id, by_id }
    }
}

fn flatten(n: Node, out: &mut HashMap<NodeId, NodeKind>) {
    match n {
        Node::Steps(id, children) => {
            let child_ids: Vec<NodeId> = children.iter().map(|(cid, _)| *cid).collect();
            out.insert(
                id,
                NodeKind::Sequence {
                    children: child_ids,
                },
            );
            for (_, c) in children {
                flatten(c, out);
            }
        }
        Node::Par(id, children, policy, reducer_id) => {
            let child_ids: Vec<NodeId> = children.iter().map(|(cid, _)| *cid).collect();
            out.insert(
                id,
                NodeKind::Par {
                    children: child_ids,
                    policy,
                    reducer_id,
                },
            );
            for (_, c) in children {
                flatten(c, out);
            }
        }
        Node::Scope(id, label, body) => {
            let (bid, bn) = *body;
            out.insert(id, NodeKind::Scope { label, body: bid });
            flatten(bn, out);
        }
        Node::Maybe(id, body) => {
            let body_id = body.as_ref().map(|b| b.0);
            out.insert(id, NodeKind::Maybe { body: body_id });
            if let Some(b) = body {
                let (_, bn) = *b;
                flatten(bn, out);
            }
        }
        Node::Call(id, label) => {
            out.insert(
                id,
                NodeKind::Call {
                    label,
                    payload: serde_json::Value::Null,
                },
            );
        }
    }
}

impl Ast for TestAst {
    type Value = V;
    type Delta = ();
    type EffectError = EE;
    type Cursor = ();

    fn root_spec(&self) -> NodeId {
        unreachable!()
    }

    fn kind_spec(&self, _id: NodeId) -> SpecKind {
        unreachable!()
    }

    fn unit_spec(&self) -> V {
        unreachable!()
    }

    fn blank_delta() {}

    fn blank_cursor() {}

    fn value_clone_is_equal(_a: V, _b: V) {}

    fn error_clone_is_equal(_a: EE, _b: EE) {}

    fn default_delta_is_blank(_d: ()) {}

    fn default_cursor_is_blank(_c: ()) {}

    fn root(&self) -> NodeId {
        self.root_id
    }

    fn node_kind(&self, id: NodeId) -> NodeKind {
        self.by_id.get(&id).cloned().expect("unknown NodeId")
    }
    fn unit_value(&self) -> V {
        V::Unit
    }
}

// ---- Reducers --------------------------------------------------

struct AllOrdered;
impl Reducer<V, ()> for AllOrdered {
    fn reduction(
        &self,
        _slots: Sequence<Option<V>>,
        _deltas: Sequence<Option<()>>,
        _winners: Sequence<ChildIndex>,
    ) -> Result<(V, ()), SpecEngineError> {
        unreachable!()
    }

    fn reduce(
        &self,
        slots: &[Option<V>],
        _deltas: &[Option<()>],
        _winners: &[ChildIndex],
    ) -> Result<(V, ()), EngineError> {
        let vs: Vec<V> = slots.iter().map(|s| s.clone().unwrap_or(V::Unit)).collect();
        Ok((V::List(vs), ()))
    }
}

struct AnyFirstWinner;
impl Reducer<V, ()> for AnyFirstWinner {
    fn reduction(
        &self,
        _slots: Sequence<Option<V>>,
        _deltas: Sequence<Option<()>>,
        _winners: Sequence<ChildIndex>,
    ) -> Result<(V, ()), SpecEngineError> {
        unreachable!()
    }

    fn reduce(
        &self,
        slots: &[Option<V>],
        _deltas: &[Option<()>],
        winners: &[ChildIndex],
    ) -> Result<(V, ()), EngineError> {
        let w = winners.first().copied().unwrap_or(0);
        Ok((slots.get(w).cloned().flatten().unwrap_or(V::Unit), ()))
    }
}

struct FirstKOrdered;
impl Reducer<V, ()> for FirstKOrdered {
    fn reduction(
        &self,
        _slots: Sequence<Option<V>>,
        _deltas: Sequence<Option<()>>,
        _winners: Sequence<ChildIndex>,
    ) -> Result<(V, ()), SpecEngineError> {
        unreachable!()
    }

    fn reduce(
        &self,
        slots: &[Option<V>],
        _deltas: &[Option<()>],
        winners: &[ChildIndex],
    ) -> Result<(V, ()), EngineError> {
        let mut vs = Vec::new();
        for &i in winners {
            if let Some(v) = slots.get(i).cloned().flatten() {
                vs.push(v);
            }
        }
        Ok((V::List(vs), ()))
    }
}

struct CollectAllResults;
impl ReducerCollectAll<V, (), EE> for CollectAllResults {
    fn reduction(
        &self,
        _slots: Sequence<Option<Result<V, EE>>>,
        _deltas: Sequence<Option<()>>,
        _winners: Sequence<ChildIndex>,
    ) -> Result<(V, ()), SpecEngineError> {
        unreachable!()
    }

    fn reduce(
        &self,
        slots: &[Option<Result<V, EE>>],
        _deltas: &[Option<()>],
        _winners: &[ChildIndex],
    ) -> Result<(V, ()), EngineError> {
        let mut vs = Vec::new();
        for s in slots {
            match s {
                Some(Ok(v)) => vs.push(v.clone()),
                Some(Err(e)) => vs.push(V::S(format!("err:{}", e.0))),
                None => vs.push(V::Unit),
            }
        }
        Ok((V::List(vs), ()))
    }
}

fn default_registry() -> Arc<ReducerRegistry<V, (), EE>> {
    let mut r: ReducerRegistry<V, (), EE> = ReducerRegistry::new();
    let all_ordered: Arc<dyn Reducer<V, ()>> = Arc::new(AllOrdered);
    r.register_fail_fast(ReducerId::from("all_ordered"), Shared::new(all_ordered));
    let any_first: Arc<dyn Reducer<V, ()>> = Arc::new(AnyFirstWinner);
    r.register_fail_fast(ReducerId::from("any_first"), Shared::new(any_first));
    let first_k: Arc<dyn Reducer<V, ()>> = Arc::new(FirstKOrdered);
    r.register_fail_fast(ReducerId::from("first_k"), Shared::new(first_k));
    let collect_all: Arc<dyn ReducerCollectAll<V, (), EE>> = Arc::new(CollectAllResults);
    r.register_collect_all(ReducerId::from("collect_all"), Shared::new(collect_all));
    Arc::new(r)
}

fn build(root: N) -> Engine<TestAst> {
    Engine::new(TestAst::build(root), default_registry()).ok().expect("build")
}

fn all_ff() -> JoinPolicy {
    JoinPolicy {
        shape: JoinShape::All,
        fail: FailPolicy::FailFast,
    }
}
fn any_ff() -> JoinPolicy {
    JoinPolicy {
        shape: JoinShape::Any,
        fail: FailPolicy::FailFast,
    }
}
fn first_k_ff(k: usize) -> JoinPolicy {
    JoinPolicy {
        shape: JoinShape::FirstK(k),
        fail: FailPolicy::FailFast,
    }
}
fn all_ca() -> JoinPolicy {
    JoinPolicy {
        shape: JoinShape::All,
        fail: FailPolicy::CollectAll,
    }
}

// ---- Actual tests ---------------------------------------------

#[test]
fn seq_of_two_calls_completes_in_order() {
    let ast = N::Steps(vec![N::Call("a".into()), N::Call("b".into())]);
    let mut e = build(ast);
    // First step: enter Seq, spawn first Call, produce Pending.
    let out = e.step().unwrap();
    let sid1 = match out {
        StepOutcome::Blocked { newly_pending } => {
            assert_eq!(newly_pending.len(), 1);
            newly_pending.as_slice()[0].id
        }
        _ => panic!("expected Blocked"),
    };
    assert_eq!(e.pending().len(), 1);
    e.resolve(sid1, Ok(V::S("A".into()))).unwrap();
    let out = e.step().unwrap();
    let sid2 = match out {
        StepOutcome::Blocked { newly_pending } => {
            assert_eq!(newly_pending.len(), 1);
            newly_pending.as_slice()[0].id
        }
        _ => panic!("expected Blocked"),
    };
    e.resolve(sid2, Ok(V::S("B".into()))).unwrap();
    let out = e.step().unwrap();
    assert!(matches!(out, StepOutcome::Done(V::S(ref s)) if s == "B"));
}

#[test]
fn empty_seq_completes_with_unit() {
    let ast = N::Steps(vec![]);
    let mut e = build(ast);
    let out = e.step().unwrap();
    assert!(matches!(out, StepOutcome::Done(V::Unit)));
}

#[test]
fn scope_wraps_and_forwards_body_value() {
    let ast = N::Scope("s".into(), Box::new(N::Call("x".into())));
    let mut e = build(ast);
    let out = e.step().unwrap();
    let sid = match out {
        StepOutcome::Blocked { newly_pending } => newly_pending.as_slice()[0].id,
        _ => panic!(),
    };
    e.resolve(sid, Ok(V::S("hit".into()))).unwrap();
    let out = e.step().unwrap();
    assert!(matches!(out, StepOutcome::Done(V::S(ref s)) if s == "hit"));
}

#[test]
fn maybe_none_completes_with_unit_immediately() {
    let ast = N::Maybe(None);
    let mut e = build(ast);
    let out = e.step().unwrap();
    assert!(matches!(out, StepOutcome::Done(V::Unit)));
}

#[test]
fn maybe_some_evaluates_body() {
    let ast = N::Maybe(Some(Box::new(N::Call("m".into()))));
    let mut e = build(ast);
    let out = e.step().unwrap();
    let sid = match out {
        StepOutcome::Blocked { newly_pending } => newly_pending.as_slice()[0].id,
        _ => panic!(),
    };
    e.resolve(sid, Ok(V::S("m!".into()))).unwrap();
    let out = e.step().unwrap();
    assert!(matches!(out, StepOutcome::Done(V::S(ref s)) if s == "m!"));
}

#[test]
fn par_of_calls_all_ordered_fans_out() {
    let ast = N::Par {
        children: vec![
            N::Call("a".into()),
            N::Call("b".into()),
            N::Call("c".into()),
        ],
        policy: all_ff(),
        reducer: "all_ordered",
    };
    let mut e = build(ast);
    let out = e.step().unwrap();
    let sids: Vec<SuspensionId> = match out {
        StepOutcome::Blocked { newly_pending } => {
            assert_eq!(newly_pending.len(), 3, "3 concurrent pending on Par entry");
            newly_pending.as_slice().iter().map(|p| p.id).collect()
        }
        _ => panic!("expected Blocked"),
    };
    // Resolve out of order.
    e.resolve(sids[1], Ok(V::S("B".into()))).unwrap();
    e.resolve(sids[0], Ok(V::S("A".into()))).unwrap();
    e.resolve(sids[2], Ok(V::S("C".into()))).unwrap();
    let out = e.step().unwrap();
    assert!(matches!(&out, StepOutcome::Done(V::List(vs))
        if vs == &vec![V::S("A".into()), V::S("B".into()), V::S("C".into())]));
}

#[test]
fn par_any_first_winner_cancels_siblings() {
    let ast = N::Par {
        children: vec![N::Call("a".into()), N::Call("b".into())],
        policy: any_ff(),
        reducer: "any_first",
    };
    let mut e = build(ast);
    let out = e.step().unwrap();
    let sids: Vec<SuspensionId> = match out {
        StepOutcome::Blocked { newly_pending } => newly_pending.as_slice().iter().map(|p| p.id).collect(),
        _ => panic!(),
    };
    e.resolve(sids[0], Ok(V::S("win".into()))).unwrap();
    let out = e.step().unwrap();
    assert!(matches!(&out, StepOutcome::Done(V::S(s)) if s == "win"));
    let cancelled = e.take_cancellations();
    assert_eq!(cancelled.len(), 1, "sibling must be cancelled");
    assert_eq!(cancelled[0], sids[1]);
}

#[test]
fn par_first_k_two_of_three() {
    let ast = N::Par {
        children: vec![
            N::Call("a".into()),
            N::Call("b".into()),
            N::Call("c".into()),
        ],
        policy: first_k_ff(2),
        reducer: "first_k",
    };
    let mut e = build(ast);
    let out = e.step().unwrap();
    let sids: Vec<SuspensionId> = match out {
        StepOutcome::Blocked { newly_pending } => newly_pending.as_slice().iter().map(|p| p.id).collect(),
        _ => panic!(),
    };
    e.resolve(sids[2], Ok(V::S("C".into()))).unwrap();
    e.resolve(sids[0], Ok(V::S("A".into()))).unwrap();
    let out = e.step().unwrap();
    assert!(matches!(&out, StepOutcome::Done(V::List(vs))
        if vs == &vec![V::S("C".into()), V::S("A".into())]));
    let cancelled = e.take_cancellations();
    assert_eq!(cancelled, vec![sids[1]]);
}

#[test]
fn par_of_seq_fans_out_with_real_kids() {
    // Par { Seq(a1, a2), Seq(b1, b2) }
    let ast = N::Par {
        children: vec![
            N::Steps(vec![N::Call("a1".into()), N::Call("a2".into())]),
            N::Steps(vec![N::Call("b1".into()), N::Call("b2".into())]),
        ],
        policy: all_ff(),
        reducer: "all_ordered",
    };
    let mut e = build(ast);
    // Step: enter Par, spawn 2 Seq children, each Seq spawns its first Call.
    let out = e.step().unwrap();
    let first_wave: Vec<SuspensionId> = match out {
        StepOutcome::Blocked { newly_pending } => {
            assert_eq!(newly_pending.len(), 2, "one Call per Seq");
            newly_pending.as_slice().iter().map(|p| p.id).collect()
        }
        _ => panic!("expected Blocked with 2 pending"),
    };
    // Resolve both first-wave calls.
    for sid in &first_wave {
        e.resolve(*sid, Ok(V::S("1".into()))).unwrap();
    }
    // Step: each Seq spawns its second Call.
    let out = e.step().unwrap();
    let second_wave: Vec<SuspensionId> = match out {
        StepOutcome::Blocked { newly_pending } => {
            assert_eq!(newly_pending.len(), 2, "second wave");
            newly_pending.as_slice().iter().map(|p| p.id).collect()
        }
        _ => panic!("expected second-wave Blocked"),
    };
    for sid in &second_wave {
        e.resolve(*sid, Ok(V::S("2".into()))).unwrap();
    }
    let out = e.step().unwrap();
    // Both Seqs drain to "2" (last-value semantics); Par folds them.
    assert!(matches!(&out, StepOutcome::Done(V::List(vs))
        if vs == &vec![V::S("2".into()), V::S("2".into())]));
}

#[test]
fn nested_par_of_par() {
    // Par { Par { a, b }, Par { c, d } } with all_ordered
    let ast = N::Par {
        children: vec![
            N::Par {
                children: vec![N::Call("a".into()), N::Call("b".into())],
                policy: all_ff(),
                reducer: "all_ordered",
            },
            N::Par {
                children: vec![N::Call("c".into()), N::Call("d".into())],
                policy: all_ff(),
                reducer: "all_ordered",
            },
        ],
        policy: all_ff(),
        reducer: "all_ordered",
    };
    let mut e = build(ast);
    let out = e.step().unwrap();
    let sids: Vec<SuspensionId> = match out {
        StepOutcome::Blocked { newly_pending } => {
            assert_eq!(newly_pending.len(), 4, "4 leaves at once");
            newly_pending.as_slice().iter().map(|p| p.id).collect()
        }
        _ => panic!(),
    };
    for (i, sid) in sids.iter().enumerate() {
        e.resolve(*sid, Ok(V::S(format!("v{i}")))).unwrap();
    }
    let out = e.step().unwrap();
    assert!(matches!(&out, StepOutcome::Done(V::List(vs)) if vs.len() == 2));
}

#[test]
fn failfast_propagates_and_cancels_siblings() {
    let ast = N::Par {
        children: vec![
            N::Call("ok".into()),
            N::Call("bad".into()),
            N::Call("ok2".into()),
        ],
        policy: all_ff(),
        reducer: "all_ordered",
    };
    let mut e = build(ast);
    let out = e.step().unwrap();
    let sids: Vec<SuspensionId> = match out {
        StepOutcome::Blocked { newly_pending } => newly_pending.as_slice().iter().map(|p| p.id).collect(),
        _ => panic!(),
    };
    e.resolve(sids[1], Err(EE("boom".into()))).unwrap();
    let err = e.step().unwrap_err();
    assert!(matches!(err, ExecError::Effect(EE(ref s)) if s == "boom"));
    let cancelled = e.take_cancellations();
    assert_eq!(cancelled.len(), 2, "both siblings cancelled");
    assert!(cancelled.contains(&sids[0]));
    assert!(cancelled.contains(&sids[2]));
}

#[test]
fn collect_all_swallows_errors_and_reduces() {
    let ast = N::Par {
        children: vec![N::Call("ok".into()), N::Call("bad".into())],
        policy: all_ca(),
        reducer: "collect_all",
    };
    let mut e = build(ast);
    let out = e.step().unwrap();
    let sids: Vec<SuspensionId> = match out {
        StepOutcome::Blocked { newly_pending } => newly_pending.as_slice().iter().map(|p| p.id).collect(),
        _ => panic!(),
    };
    e.resolve(sids[0], Ok(V::S("A".into()))).unwrap();
    e.resolve(sids[1], Err(EE("nope".into()))).unwrap();
    let out = e.step().unwrap();
    assert!(matches!(&out, StepOutcome::Done(V::List(vs))
        if vs == &vec![V::S("A".into()), V::S("err:nope".into())]));
}

#[test]
fn empty_par_all_folds_immediately() {
    let ast = N::Par {
        children: vec![],
        policy: all_ff(),
        reducer: "all_ordered",
    };
    let mut e = build(ast);
    let out = e.step().unwrap();
    // The reducer identity: empty V::List.
    assert!(matches!(&out, StepOutcome::Done(V::List(vs)) if vs.is_empty()));
}

#[test]
fn any_with_zero_children_is_malformed() {
    let ast = N::Par {
        children: vec![],
        policy: any_ff(),
        reducer: "any_first",
    };
    let err = Engine::new(TestAst::build(ast), default_registry()).err().unwrap();
    assert!(matches!(err, EngineError::Malformed { .. }));
}

#[test]
fn first_k_with_k_greater_than_len_is_malformed() {
    let ast = N::Par {
        children: vec![N::Call("a".into())],
        policy: first_k_ff(2),
        reducer: "first_k",
    };
    let err = Engine::new(TestAst::build(ast), default_registry()).err().unwrap();
    assert!(matches!(err, EngineError::Malformed { .. }));
}

#[test]
fn first_k_zero_folds_immediately() {
    let ast = N::Par {
        children: vec![N::Call("a".into())],
        policy: first_k_ff(0),
        reducer: "first_k",
    };
    let mut e = build(ast);
    let out = e.step().unwrap();
    assert!(matches!(&out, StepOutcome::Done(V::List(vs)) if vs.is_empty()));
    // Also, the child should be cancelled since Par fired before it.
    let cancelled = e.take_cancellations();
    assert_eq!(cancelled.len(), 1);
}

#[test]
fn resolve_unknown_id_is_unknown_suspension() {
    let ast = N::Call("x".into());
    let mut e = build(ast);
    let _ = e.step().unwrap();
    let err = e.resolve(SuspensionId(9999), Ok(V::Unit)).unwrap_err();
    assert!(matches!(
        err,
        ExecError::Engine(EngineError::UnknownSuspension { .. })
    ));
}

#[test]
fn resolve_after_cancel_is_unknown_suspension() {
    let ast = N::Par {
        children: vec![N::Call("a".into()), N::Call("b".into())],
        policy: any_ff(),
        reducer: "any_first",
    };
    let mut e = build(ast);
    let sids: Vec<SuspensionId> = match e.step().unwrap() {
        StepOutcome::Blocked { newly_pending } => newly_pending.as_slice().iter().map(|p| p.id).collect(),
        _ => panic!(),
    };
    e.resolve(sids[0], Ok(V::S("win".into()))).unwrap();
    let _ = e.step().unwrap();
    // sids[1] was cancelled — late resolve is unknown.
    let err = e.resolve(sids[1], Ok(V::S("late".into()))).unwrap_err();
    assert!(matches!(
        err,
        ExecError::Engine(EngineError::UnknownSuspension { .. })
    ));
}

#[test]
fn take_cancellations_after_err_returns_ids() {
    let ast = N::Par {
        children: vec![N::Call("a".into()), N::Call("b".into())],
        policy: all_ff(),
        reducer: "all_ordered",
    };
    let mut e = build(ast);
    let sids: Vec<SuspensionId> = match e.step().unwrap() {
        StepOutcome::Blocked { newly_pending } => newly_pending.as_slice().iter().map(|p| p.id).collect(),
        _ => panic!(),
    };
    e.resolve(sids[0], Err(EE("x".into()))).unwrap();
    let _err = e.step().unwrap_err();
    let cancelled = e.take_cancellations();
    assert_eq!(cancelled, vec![sids[1]]);
}

#[test]
fn deep_seq_of_five_calls() {
    let ast = N::Steps((0..5).map(|i| N::Call(format!("c{i}"))).collect());
    let mut e = build(ast);
    for i in 0..5 {
        let sid = match e.step().unwrap() {
            StepOutcome::Blocked { newly_pending } => {
                assert_eq!(newly_pending.len(), 1, "step {i}");
                newly_pending.as_slice()[0].id
            }
            _ => panic!("step {i}"),
        };
        e.resolve(sid, Ok(V::S(format!("v{i}")))).unwrap();
    }
    let out = e.step().unwrap();
    assert!(matches!(&out, StepOutcome::Done(V::S(s)) if s == "v4"));
}

#[test]
fn scope_of_seq_of_par() {
    let ast = N::Scope(
        "outer".into(),
        Box::new(N::Steps(vec![
            N::Call("prep".into()),
            N::Par {
                children: vec![N::Call("a".into()), N::Call("b".into())],
                policy: all_ff(),
                reducer: "all_ordered",
            },
        ])),
    );
    let mut e = build(ast);
    // prep first.
    let sid = match e.step().unwrap() {
        StepOutcome::Blocked { newly_pending } => newly_pending.as_slice()[0].id,
        _ => panic!(),
    };
    e.resolve(sid, Ok(V::S("p".into()))).unwrap();
    // Par next.
    let sids: Vec<SuspensionId> = match e.step().unwrap() {
        StepOutcome::Blocked { newly_pending } => {
            assert_eq!(newly_pending.len(), 2);
            newly_pending.as_slice().iter().map(|p| p.id).collect()
        }
        _ => panic!(),
    };
    for sid in &sids {
        e.resolve(*sid, Ok(V::S("x".into()))).unwrap();
    }
    let out = e.step().unwrap();
    assert!(matches!(&out, StepOutcome::Done(V::List(_))));
}

#[test]
fn seq_wrapping_maybe_none() {
    let ast = N::Steps(vec![
        N::Call("a".into()),
        N::Maybe(None),
        N::Call("b".into()),
    ]);
    let mut e = build(ast);
    let sid1 = match e.step().unwrap() {
        StepOutcome::Blocked { newly_pending } => newly_pending.as_slice()[0].id,
        _ => panic!(),
    };
    e.resolve(sid1, Ok(V::S("A".into()))).unwrap();
    // Maybe(None) is immediate; then Call("b") suspends.
    let sid2 = match e.step().unwrap() {
        StepOutcome::Blocked { newly_pending } => {
            assert_eq!(newly_pending.len(), 1);
            newly_pending.as_slice()[0].id
        }
        _ => panic!(),
    };
    e.resolve(sid2, Ok(V::S("B".into()))).unwrap();
    let out = e.step().unwrap();
    assert!(matches!(&out, StepOutcome::Done(V::S(s)) if s == "B"));
}

#[test]
fn par_first_k_collect_all_becomes_impossible_folds_early() {
    // FirstK(2) with 3 children under CollectAll; 2 fail early —
    // shape completion (2 successes) still possible from 1 remaining
    // is FALSE, so Par folds via CollectAll reducer.
    let ast = N::Par {
        children: vec![
            N::Call("a".into()),
            N::Call("b".into()),
            N::Call("c".into()),
        ],
        policy: JoinPolicy {
            shape: JoinShape::FirstK(2),
            fail: FailPolicy::CollectAll,
        },
        reducer: "collect_all",
    };
    let mut e = build(ast);
    let sids: Vec<SuspensionId> = match e.step().unwrap() {
        StepOutcome::Blocked { newly_pending } => newly_pending.as_slice().iter().map(|p| p.id).collect(),
        _ => panic!(),
    };
    e.resolve(sids[0], Err(EE("f1".into()))).unwrap();
    e.resolve(sids[1], Err(EE("f2".into()))).unwrap();
    // Now: 0 successes, 2 failures, 1 remaining. Cannot reach k=2 successes.
    // Third child still pending — the fold happens when we step().
    // But third child hasn't failed yet; is it possible? 0 + 1 = 1 < 2 = impossible.
    let out = e.step().unwrap();
    // CollectAll reducer sees [Err, Err, None] and folds.
    assert!(matches!(&out, StepOutcome::Done(V::List(vs)) if vs.len() == 3));
}

#[test]
fn is_done_reports_completion() {
    let ast = N::Call("x".into());
    let mut e = build(ast);
    assert!(!e.is_done());
    let sid = match e.step().unwrap() {
        StepOutcome::Blocked { newly_pending } => newly_pending.as_slice()[0].id,
        _ => panic!(),
    };
    e.resolve(sid, Ok(V::S("done".into()))).unwrap();
    let _ = e.step().unwrap();
    assert!(e.is_done());
}

#[test]
fn frame_tree_root_reflects_par_shape() {
    let ast = N::Par {
        children: vec![N::Call("a".into()), N::Call("b".into())],
        policy: all_ff(),
        reducer: "all_ordered",
    };
    let mut e = build(ast);
    let _ = e.step().unwrap();
    let tree = e.frame_tree();
    assert!(matches!(tree.root, Frame::Par(_)));
    assert_eq!(tree.kids.len(), 2, "kids populated for Par children");
}

#[test]
fn frame_tree_kids_populated_for_par_of_seq() {
    let ast = N::Par {
        children: vec![
            N::Steps(vec![N::Call("a1".into()), N::Call("a2".into())]),
            N::Steps(vec![N::Call("b1".into()), N::Call("b2".into())]),
        ],
        policy: all_ff(),
        reducer: "all_ordered",
    };
    let mut e = build(ast);
    let _ = e.step().unwrap();
    let tree = e.frame_tree();
    assert!(matches!(tree.root, Frame::Par(_)));
    // Two Seq children projected as Frame::Node with their spawned
    // sub-Call as sole kid.
    assert_eq!(tree.kids.len(), 2);
    for kid in &tree.kids {
        assert!(matches!(kid.root, Frame::Node { .. }));
        assert_eq!(kid.kids.len(), 1, "Seq shows current child as sole kid");
        assert!(matches!(kid.kids[0].root, Frame::PendingEffect { .. }));
    }
}

#[test]
fn take_cancellations_drains_once() {
    let ast = N::Par {
        children: vec![N::Call("a".into()), N::Call("b".into())],
        policy: any_ff(),
        reducer: "any_first",
    };
    let mut e = build(ast);
    let sids: Vec<SuspensionId> = match e.step().unwrap() {
        StepOutcome::Blocked { newly_pending } => newly_pending.as_slice().iter().map(|p| p.id).collect(),
        _ => panic!(),
    };
    e.resolve(sids[0], Ok(V::S("w".into()))).unwrap();
    let _ = e.step().unwrap();
    let first = e.take_cancellations();
    assert!(!first.is_empty());
    let second = e.take_cancellations();
    assert!(second.is_empty(), "drain: subsequent take is empty");
}

#[test]
fn pending_excludes_cancelled() {
    let ast = N::Par {
        children: vec![N::Call("a".into()), N::Call("b".into())],
        policy: any_ff(),
        reducer: "any_first",
    };
    let mut e = build(ast);
    let sids: Vec<SuspensionId> = match e.step().unwrap() {
        StepOutcome::Blocked { newly_pending } => newly_pending.as_slice().iter().map(|p| p.id).collect(),
        _ => panic!(),
    };
    assert_eq!(e.pending().len(), 2);
    e.resolve(sids[0], Ok(V::S("w".into()))).unwrap();
    let _ = e.step().unwrap();
    assert_eq!(e.pending().len(), 0, "cancelled sid removed");
}

#[test]
fn unknown_reducer_id_rejected_at_build() {
    // Fresh registry with no reducer registered.
    let empty: Arc<ReducerRegistry<V, (), EE>> = Arc::new(ReducerRegistry::new());
    let ast = N::Par {
        children: vec![N::Call("a".into())],
        policy: all_ff(),
        reducer: "missing_reducer_id",
    };
    let err = Engine::new(TestAst::build(ast), empty).err().unwrap();
    assert!(matches!(err, EngineError::UnknownReducer { .. }));
}

#[test]
fn deep_nested_scope_and_maybe() {
    // Scope(Maybe(Scope(Call)))
    let ast = N::Scope(
        "outer".into(),
        Box::new(N::Maybe(Some(Box::new(N::Scope(
            "inner".into(),
            Box::new(N::Call("deep".into())),
        ))))),
    );
    let mut e = build(ast);
    let sid = match e.step().unwrap() {
        StepOutcome::Blocked { newly_pending } => newly_pending.as_slice()[0].id,
        _ => panic!(),
    };
    e.resolve(sid, Ok(V::S("v".into()))).unwrap();
    let out = e.step().unwrap();
    assert!(matches!(&out, StepOutcome::Done(V::S(s)) if s == "v"));
}

#[test]
fn seq_wrapping_par_of_seq_end_to_end() {
    let ast = N::Steps(vec![
        N::Call("head".into()),
        N::Par {
            children: vec![
                N::Steps(vec![N::Call("a1".into()), N::Call("a2".into())]),
                N::Steps(vec![N::Call("b1".into()), N::Call("b2".into())]),
            ],
            policy: all_ff(),
            reducer: "all_ordered",
        },
        N::Call("tail".into()),
    ]);
    let mut e = build(ast);
    // head
    let sid = match e.step().unwrap() {
        StepOutcome::Blocked { newly_pending } => newly_pending.as_slice()[0].id,
        _ => panic!(),
    };
    e.resolve(sid, Ok(V::S("h".into()))).unwrap();
    // par wave 1
    let w1: Vec<SuspensionId> = match e.step().unwrap() {
        StepOutcome::Blocked { newly_pending } => {
            assert_eq!(newly_pending.len(), 2);
            newly_pending.as_slice().iter().map(|p| p.id).collect()
        }
        _ => panic!(),
    };
    for s in &w1 {
        e.resolve(*s, Ok(V::S("1".into()))).unwrap();
    }
    // par wave 2
    let w2: Vec<SuspensionId> = match e.step().unwrap() {
        StepOutcome::Blocked { newly_pending } => {
            assert_eq!(newly_pending.len(), 2);
            newly_pending.as_slice().iter().map(|p| p.id).collect()
        }
        _ => panic!(),
    };
    for s in &w2 {
        e.resolve(*s, Ok(V::S("2".into()))).unwrap();
    }
    // tail
    let tsid = match e.step().unwrap() {
        StepOutcome::Blocked { newly_pending } => newly_pending.as_slice()[0].id,
        _ => panic!(),
    };
    e.resolve(tsid, Ok(V::S("t".into()))).unwrap();
    let out = e.step().unwrap();
    assert!(matches!(&out, StepOutcome::Done(V::S(s)) if s == "t"));
}

// ---- FrameEnter / FrameLeave events (F1-a) ---------------------

#[test]
fn frame_enter_leave_paired_on_ok_resolve() {
    // Seq wrapping a single Call: the Call is spawned lazily on the
    // first step, so nothing is counted before it.
    let ast = N::Steps(vec![N::Call("solo".into())]);
    let mut e = build(ast);
    assert_eq!(e.events().frame_enter, 0);
    assert_eq!(e.events().frame_leave, 0);
    let sid = match e.step().unwrap() {
        StepOutcome::Blocked { newly_pending } => newly_pending.as_slice()[0].id,
        _ => panic!("expected Blocked"),
    };
    assert_eq!(e.events().frame_enter, 1);
    assert_eq!(e.events().frame_leave, 0);
    e.resolve(sid, Ok(V::S("done".into()))).unwrap();
    assert_eq!(e.events().frame_enter, 1);
    assert_eq!(e.events().frame_leave, 1);
    let _ = e.step().unwrap();
    // Seq has no further child; counters should not spuriously advance.
    assert_eq!(e.events().frame_enter, 1);
    assert_eq!(e.events().frame_leave, 1);
}

#[test]
fn frame_enter_leave_counts_match_across_seq_of_two_calls() {
    // Two sequential Calls → two Enter, two Leave (paired).
    let ast = N::Steps(vec![N::Call("a".into()), N::Call("b".into())]);
    let mut e = build(ast);
    let sid1 = match e.step().unwrap() {
        StepOutcome::Blocked { newly_pending } => newly_pending.as_slice()[0].id,
        _ => panic!(),
    };
    assert_eq!(e.events().frame_enter, 1);
    assert_eq!(e.events().frame_leave, 0);
    e.resolve(sid1, Ok(V::S("A".into()))).unwrap();
    assert_eq!(e.events().frame_leave, 1);
    let sid2 = match e.step().unwrap() {
        StepOutcome::Blocked { newly_pending } => newly_pending.as_slice()[0].id,
        _ => panic!(),
    };
    assert_eq!(e.events().frame_enter, 2);
    e.resolve(sid2, Ok(V::S("B".into()))).unwrap();
    assert_eq!(e.events().frame_leave, 2);
    let _ = e.step().unwrap();
    assert_eq!(e.events().frame_enter, 2);
    assert_eq!(e.events().frame_leave, 2);
}

#[test]
fn frame_leave_fires_on_cancellation_via_par_failfast() {
    // Par of two Calls under FailFast: fail one → sibling gets cancelled.
    // Both Calls must contribute a FrameLeave (one from the failure,
    // one from the cancellation).
    let ast = N::Steps(vec![N::Par {
        children: vec![N::Call("l".into()), N::Call("r".into())],
        policy: JoinPolicy {
            shape: JoinShape::All,
            fail: FailPolicy::FailFast,
        },
        reducer: "all_ordered",
    }]);
    let mut e = build(ast);
    let sids: Vec<SuspensionId> = match e.step().unwrap() {
        StepOutcome::Blocked { newly_pending } => {
            assert_eq!(newly_pending.len(), 2);
            newly_pending.as_slice().iter().map(|p| p.id).collect()
        }
        _ => panic!(),
    };
    assert_eq!(e.events().frame_enter, 2);
    assert_eq!(e.events().frame_leave, 0);
    // Fail the first one; second one is drained via cancellation.
    e.resolve(sids[0], Err(EE("boom".into()))).unwrap();
    assert_eq!(e.events().frame_leave, 1);
    // Advance so cancel_subtree fires on the sibling.
    let _ = e.step();
    assert_eq!(e.events().frame_leave, 2);
    // Verify cancellation channel drained the sibling sid.
    let cancels = e.take_cancellations();
    assert_eq!(cancels, vec![sids[1]]);
}



struct SharedSink(std::sync::Arc<std::sync::Mutex<BufferingSink>>);

impl EventSink for SharedSink {
    fn keeps(&self) -> bool {
        unreachable!()
    }

    fn memory(&self) -> Sequence<SpecEvent> {
        unreachable!()
    }

    fn emit(&mut self, event: &Event) {
        self.0.lock().unwrap().emit(event);
    }
}

#[test]
fn attached_buffering_sink_records_walk_time_events_only() {
    // Construction emits nothing.
    let ast = N::Steps(vec![N::Call("hello".into())]);
    let mut e = build(ast);
    let buf = std::sync::Arc::new(std::sync::Mutex::new(BufferingSink::new()));
    let handle = std::sync::Arc::clone(&buf);
    let prev = e.attach_sink(Box::new(SharedSink(handle)));
    assert!(prev.is_none(), "no sink previously attached");
    // First step spawns the Call → emits VisitPre + FrameEnter + Suspend.
    let sid = match e.step().unwrap() {
        StepOutcome::Blocked { newly_pending } => newly_pending.as_slice()[0].id,
        _ => panic!("expected Blocked"),
    };
    let recorded = buf.lock().unwrap().drain();
    assert!(
        recorded
            .iter()
            .any(|e| matches!(e, Event::FrameEnter { .. })),
        "attached sink saw the walk-time FrameEnter"
    );
    assert!(
        recorded.iter().any(|e| matches!(e, Event::Suspend { .. })),
        "attached sink saw the walk-time Suspend"
    );
    assert!(
        recorded.iter().any(|e| matches!(e, Event::VisitPre { .. })),
        "attached sink saw the walk-time VisitPre for the Call child"
    );
    // Resolve → emits Resume + FrameLeave + VisitPost.
    e.resolve(sid, Ok(V::S("done".into()))).unwrap();
    let recorded = buf.lock().unwrap().drain();
    let kinds: Vec<&str> = recorded
        .iter()
        .map(|e| match e {
            Event::Resume { .. } => "resume",
            Event::FrameLeave { .. } => "frame_leave",
            Event::VisitPost { .. } => "visit_post",
            Event::VisitPre { .. } => "visit_pre",
            Event::FrameEnter { .. } => "frame_enter",
            Event::Suspend { .. } => "suspend",
            Event::IterationTick { .. } => "iter",
            Event::Cancel { .. } => "cancel",
        })
        .collect();
    assert!(kinds.contains(&"resume"), "resume observed: {:?}", kinds);
    assert!(
        kinds.contains(&"frame_leave"),
        "frame_leave observed: {:?}",
        kinds
    );
}

#[test]
fn detach_sink_returns_the_installed_sink_and_stops_forwarding() {
    let ast = N::Steps(vec![N::Call("x".into()), N::Call("y".into())]);
    let mut e = build(ast);
    let buf = std::sync::Arc::new(std::sync::Mutex::new(BufferingSink::new()));
    e.attach_sink(Box::new(SharedSink(std::sync::Arc::clone(&buf))));
    let sid = match e.step().unwrap() {
        StepOutcome::Blocked { newly_pending } => newly_pending.as_slice()[0].id,
        _ => panic!(),
    };
    let after_first_step = buf.lock().unwrap().len();
    assert!(
        after_first_step > 0,
        "sink accumulated events during first step"
    );
    // Detach: subsequent activity must not accrue in the buffer.
    let previous = e.detach_sink();
    assert!(previous.is_some(), "detach returned the installed sink");
    buf.lock().unwrap().clear();
    e.resolve(sid, Ok(V::S("X".into()))).unwrap();
    let after_resolve = buf.lock().unwrap().len();
    assert_eq!(
        after_resolve, 0,
        "no more events forwarded post-detach (found {after_resolve})"
    );
    // Counting sink still advances (built-in observability unaffected).
    assert!(e.events().frame_enter > 0);
    assert!(e.events().frame_leave > 0);
}

#[test]
fn attach_sink_replaces_previous_and_returns_it() {
    let ast = N::Call("root".into());
    let mut e = build(ast);
    let first = Box::new(BufferingSink::new());
    let second = Box::new(BufferingSink::new());
    assert!(e.attach_sink(first).is_none());
    let replaced = e.attach_sink(second);
    assert!(replaced.is_some(), "previous sink returned to caller");
}

#[test]
fn frame_enter_zero_immediately_after_new_when_root_is_call() {
    // Construction schedules the root on the spawn stack without
    // spawning it, so no event of any kind is emitted, even when the
    // root is a Call.
    let e = build(N::Call("root".into()));
    assert_eq!(e.events().visit_pre, 0);
    assert_eq!(e.events().frame_enter, 0);
    assert_eq!(e.events().frame_leave, 0);
    assert_eq!(e.events().suspend, 0);
    // The Call has not spawned yet, so nothing is pending either.
    assert!(e.pending().is_empty(), "no pending before the first step");
}



fn bp_at(node: u64) -> BreakpointSet {
    let mut bps = BreakpointSet::new();
    bps.add(BreakCondition::at_node(NodeId(node)));
    bps
}

/// Extract the sole Breakpoint-reason pending, if the outcome is a
/// breakpoint halt.
fn bp_halt(outcome: &StepOutcome<V>) -> Option<NodeId> {
    if let StepOutcome::Blocked { newly_pending } = outcome {
        newly_pending.as_slice().iter()
            .find(|p| matches!(p.reason, SuspendReason::Breakpoint))
            .map(|p| p.at.node)
    } else {
        None
    }
}

#[test]
fn breakpoint_on_root_halts_before_any_spawn() {
    // Root is node 1. The BP must fire before the root frame (or
    // anything else) enters the arena.
    let ast = N::Steps(vec![N::Call("a".into())]);
    let mut e = build(ast);
    let bps = bp_at(1);
    let out = e.step_with_breakpoints(&bps).unwrap();
    assert_eq!(bp_halt(&out), Some(NodeId(1)), "halted on root ctx");
    assert_eq!(e.events().visit_pre, 0, "nothing spawned at halt");
    // Frame tree faithfully shows the not-yet-started root.
    let tree = e.frame_tree();
    assert!(
        matches!(tree.root, Frame::Node { .. }),
        "bare root placeholder projected"
    );
    // Resume: the halted spawn proceeds and the run reaches the Call.
    let out = e.step_with_breakpoints(&bps).unwrap();
    match out {
        StepOutcome::Blocked { newly_pending } => {
            assert_eq!(newly_pending.len(), 1);
            assert!(matches!(
                newly_pending.as_slice()[0].reason,
                SuspendReason::Call { .. }
            ));
        }
        other => panic!("expected Blocked on the Call, got {other:?}"),
    }
}

#[test]
fn breakpoint_on_par_kid_halts_before_that_spawn() {
    // Seq(1) → Par(2) → Call a(3), Call b(4). BP on kid `b`: the
    // halt must land after `a` spawned (pending) but before `b`
    // enters the arena — the partially spawned state is the truth
    // the debugger sees.
    let ast = N::Steps(vec![N::Par {
        children: vec![N::Call("a".into()), N::Call("b".into())],
        policy: JoinPolicy {
            shape: JoinShape::All,
            fail: FailPolicy::FailFast,
        },
        reducer: "all_ordered",
    }]);
    let mut e = build(ast);
    let bps = bp_at(4);
    let out = e.step_with_breakpoints(&bps).unwrap();
    assert_eq!(bp_halt(&out), Some(NodeId(4)), "halted on kid b's ctx");
    assert_eq!(e.events().frame_enter, 1, "only kid a spawned so far");
    let live = e.pending();
    let calls: Vec<_> = live
        .iter()
        .filter(|p| matches!(p.reason, SuspendReason::Call { .. }))
        .collect();
    assert_eq!(calls.len(), 1, "kid a pending, kid b not yet spawned");
    assert_eq!(calls[0].at.node, NodeId(3));
    // Resume → b spawns; the Par is now fully fanned out.
    let out = e.step_with_breakpoints(&bps).unwrap();
    match out {
        StepOutcome::Blocked { newly_pending } => {
            assert_eq!(newly_pending.len(), 1, "b's Call joins the pending set");
            assert_eq!(newly_pending.as_slice()[0].at.node, NodeId(4));
        }
        other => panic!("expected Blocked, got {other:?}"),
    }
    assert_eq!(e.events().frame_enter, 2);
    // Par must not have fired while partially spawned; resolving
    // both kids completes it normally.
    let sids: Vec<SuspensionId> = e.pending().iter().map(|p| p.id).collect();
    for (i, sid) in sids.into_iter().enumerate() {
        e.resolve(sid, Ok(V::S(format!("v{i}")))).unwrap();
    }
    match e.step_with_breakpoints(&bps).unwrap() {
        StepOutcome::Done(V::List(vs)) => assert_eq!(vs.len(), 2),
        other => panic!("expected Done(List), got {other:?}"),
    }
}

#[test]
fn breakpoints_on_consecutive_par_kids_halt_twice() {
    // BP on both kids: continue from the first halt must re-arm and
    // halt again on the second kid.
    let ast = N::Steps(vec![N::Par {
        children: vec![N::Call("a".into()), N::Call("b".into())],
        policy: JoinPolicy {
            shape: JoinShape::All,
            fail: FailPolicy::FailFast,
        },
        reducer: "all_ordered",
    }]);
    let mut e = build(ast);
    let mut bps = BreakpointSet::new();
    bps.add(BreakCondition::at_node(NodeId(3)));
    bps.add(BreakCondition::at_node(NodeId(4)));
    let out = e.step_with_breakpoints(&bps).unwrap();
    assert_eq!(bp_halt(&out), Some(NodeId(3)), "first halt on kid a");
    let out = e.step_with_breakpoints(&bps).unwrap();
    assert_eq!(bp_halt(&out), Some(NodeId(4)), "second halt on kid b");
    let out = e.step_with_breakpoints(&bps).unwrap();
    match out {
        StepOutcome::Blocked { newly_pending } => {
            assert!(
                newly_pending.as_slice().iter()
                    .all(|p| matches!(p.reason, SuspendReason::Call { .. }))
            );
        }
        other => panic!("expected Blocked on Calls, got {other:?}"),
    }
}

#[test]
fn breakpoint_on_scope_body_halts_before_body_spawn() {
    // Seq(1) → Scope(2) → Call(3): a Scope body has a spawn site of
    // its own.
    let ast = N::Steps(vec![N::Scope("sect".into(), Box::new(N::Call("x".into())))]);
    let mut e = build(ast);
    let bps = bp_at(3);
    let out = e.step_with_breakpoints(&bps).unwrap();
    assert_eq!(bp_halt(&out), Some(NodeId(3)), "halted on scope body ctx");
    // Scope frame exists, body slot still empty.
    let tree = e.frame_tree();
    assert!(
        matches!(tree.kids[0].root, Frame::Scope { .. }),
        "scope projected while body pending"
    );
    assert_eq!(e.events().frame_enter, 0, "the Call did not spawn yet");
    // Resume runs through to the Call suspension.
    let out = e.step_with_breakpoints(&bps).unwrap();
    match out {
        StepOutcome::Blocked { newly_pending } => {
            assert!(matches!(
                newly_pending.as_slice()[0].reason,
                SuspendReason::Call { .. }
            ));
        }
        other => panic!("expected Blocked, got {other:?}"),
    }
}

#[test]
fn resolve_err_while_bp_halted_abandons_unspawned_spawns() {
    // Seq(1) → Par(2, FailFast) → Call a(3), Call b(4). Halt on b's
    // spawn site, then fail a's pending call *while halted*: the
    // failure must propagate on the next step and kid b — still an
    // unspawned entry on the spawn stack — must be abandoned, never
    // spawned and never reported as a cancellation (it has no sid).
    let ast = N::Steps(vec![N::Par {
        children: vec![N::Call("a".into()), N::Call("b".into())],
        policy: JoinPolicy {
            shape: JoinShape::All,
            fail: FailPolicy::FailFast,
        },
        reducer: "all_ordered",
    }]);
    let mut e = build(ast);
    let bps = bp_at(4);
    let out = e.step_with_breakpoints(&bps).unwrap();
    assert_eq!(bp_halt(&out), Some(NodeId(4)), "halted on kid b's ctx");
    assert_eq!(e.events().frame_enter, 1, "only kid a spawned so far");
    let a_sid = e
        .pending()
        .iter()
        .find(|p| matches!(p.reason, SuspendReason::Call { .. }))
        .map(|p| p.id)
        .expect("kid a pending while halted");
    e.resolve(a_sid, Err(EE("boom".into()))).unwrap();
    // Resume: failure propagation runs before any spawn drains.
    let err = e.step_with_breakpoints(&bps).unwrap_err();
    assert!(matches!(err, ExecError::Effect(EE(ref s)) if s == "boom"));
    assert_eq!(e.events().frame_enter, 1, "kid b never spawned");
    assert!(
        e.take_cancellations().is_empty(),
        "abandoned spawn is not a cancellation (no sid was ever issued)"
    );
    assert!(
        e.pending().is_empty(),
        "synthetic BP and a's call both gone"
    );
    // Terminal: further stepping stays blocked with nothing new.
    match e.step_with_breakpoints(&bps).unwrap() {
        StepOutcome::Blocked { newly_pending } => assert!(newly_pending.is_empty()),
        other => panic!("expected terminal Blocked, got {other:?}"),
    }
}



/// Echoes each Call's label back as its value and records
/// cancellation notifications.
struct EchoResolver {
    resolved: Vec<String>,
    cancelled: Vec<SuspensionId>,
}

impl EchoResolver {
    fn new() -> Self {
        Self {
            resolved: Vec::new(),
            cancelled: Vec::new(),
        }
    }

    fn answer(&mut self, pending: &Pending) -> Result<V, EE> {
        let label = match &pending.reason {
            SuspendReason::Call { spec } => spec.label.clone(),
            other => panic!("resolver saw non-Call reason {other:?}"),
        };
        self.resolved.push(label.clone());
        Ok(V::S(format!("r:{label}")))
    }
}

impl EffectResolver<TestAst> for EchoResolver {
    fn notes(&self) -> Sequence<SpecNote<V, EE>> {
        unreachable!()
    }

    fn resolve(&mut self, pending: &Pending) -> Result<V, EE> {
        self.answer(pending)
    }

    fn cancelled(&mut self, sid: SuspensionId) {
        self.cancelled.push(sid);
    }
}

#[test]
fn drive_runs_seq_of_calls_to_done() {
    let ast = N::Steps(vec![N::Call("a".into()), N::Call("b".into())]);
    let mut e = build(ast);
    let mut r = EchoResolver::new();
    let out = drive(&mut e, &mut r, &BreakpointSet::new()).unwrap();
    match out {
        DriveOutcome::Done(V::S(s)) => assert_eq!(s, "r:b", "last value propagates"),
        other => panic!("expected Done, got {other:?}"),
    }
    assert_eq!(r.resolved, vec!["a".to_string(), "b".to_string()]);
    assert!(r.cancelled.is_empty());
}

#[test]
fn drive_any_join_skips_losers_and_reports_cancellation() {
    // The first kid resolves, the join fires, and the loser is
    // cancelled, never handed to the resolver.
    let ast = N::Par {
        children: vec![N::Call("a".into()), N::Call("b".into())],
        policy: any_ff(),
        reducer: "any_first",
    };
    let mut e = build(ast);
    let mut r = EchoResolver::new();
    let out = drive(&mut e, &mut r, &BreakpointSet::new()).unwrap();
    assert!(matches!(out, DriveOutcome::Done(V::S(ref s)) if s == "r:a"));
    assert_eq!(r.resolved, vec!["a".to_string()], "loser never resolved");
    assert_eq!(r.cancelled.len(), 1, "loser reported through cancelled()");
}

#[test]
fn drive_breaks_on_breakpoint_and_resumes() {
    // BP on the second Call (node 3): first drive run resolves `a`,
    // halts before `b` spawns, and returns Break; the second run
    // resumes to Done.
    let ast = N::Steps(vec![N::Call("a".into()), N::Call("b".into())]);
    let mut e = build(ast);
    let mut r = EchoResolver::new();
    let bps = bp_at(3);
    let out = drive(&mut e, &mut r, &bps).unwrap();
    match out {
        DriveOutcome::Break { at } => {
            assert!(
                at.iter()
                    .any(|p| matches!(p.reason, SuspendReason::Breakpoint))
            );
        }
        other => panic!("expected Break, got {other:?}"),
    }
    assert_eq!(r.resolved, vec!["a".to_string()], "halted before b");
    let out = drive(&mut e, &mut r, &bps).unwrap();
    assert!(matches!(out, DriveOutcome::Done(V::S(ref s)) if s == "r:b"));
    assert_eq!(r.resolved, vec!["a".to_string(), "b".to_string()]);
}

#[test]
fn malformed_par_behind_seq_fails_at_build() {
    // A malformed Par behind a Seq child fails at construction.
    let ast = N::Steps(vec![
        N::Call("first".into()),
        N::Par {
            children: vec![],
            policy: JoinPolicy {
                shape: JoinShape::Any,
                fail: FailPolicy::FailFast,
            },
            reducer: "all_ordered",
        },
    ]);
    let ast = TestAst::build(ast);
    let err = Engine::new(ast, default_registry()).err().unwrap();
    assert!(matches!(err, EngineError::Malformed { .. }), "got {err:?}");
}

#[test]
fn suspension_numbers_are_never_reused() {
    let fan = N::Par {
        children: vec![N::Call("a".into()), N::Call("b".into())],
        policy: JoinPolicy { shape: JoinShape::Any, fail: FailPolicy::FailFast },
        reducer: "any_first",
    };
    let mut e = build(N::Steps(vec![fan, N::Call("c".into())]));
    e.step().unwrap();
    let first: Vec<SuspensionId> = e.pending().iter().map(|p| p.id).collect();
    assert_eq!(first.len(), 2);
    e.resolve(first[0], Ok(V::S("A".into()))).unwrap();
    e.step().unwrap();
    assert_eq!(e.take_cancellations(), vec![first[1]]);
    let second = e.pending()[0].id;
    assert!(second.0 > first[0].0 && second.0 > first[1].0);
    assert!(e.resolve(first[1], Ok(V::Unit)).is_err());
}

fn waiting(e: &Engine<TestAst>, label: &str) -> SuspensionId {
    e.pending()
        .iter()
        .find(|p| matches!(&p.reason, SuspendReason::Call { spec } if spec.label == label))
        .expect("the call waits")
        .id
}

#[test]
fn a_failure_below_a_child_is_collected_as_the_childs() {
    let mut e = build(N::Par {
        children: vec![N::Steps(vec![N::Call("x".into())])],
        policy: all_ca(),
        reducer: "collect_all",
    });
    e.step().unwrap();
    let sid = waiting(&e, "x");
    e.resolve(sid, Err(EE("nope".into()))).unwrap();
    let out = e.step().unwrap();
    assert!(matches!(&out, StepOutcome::Done(V::List(vs)) if vs == &vec![V::S("err:nope".into())]));
    assert!(e.take_cancellations().is_empty());
}

#[test]
fn a_failing_child_loses_its_other_calls_and_its_siblings_go_on() {
    let inner = N::Par {
        children: vec![N::Call("x".into()), N::Call("y".into())],
        policy: all_ff(),
        reducer: "all_ordered",
    };
    let mut e = build(N::Par {
        children: vec![N::Scope("s".into(), Box::new(inner)), N::Call("z".into())],
        policy: all_ca(),
        reducer: "collect_all",
    });
    e.step().unwrap();
    let (x, y, z) = (waiting(&e, "x"), waiting(&e, "y"), waiting(&e, "z"));
    e.resolve(x, Err(EE("bad".into()))).unwrap();
    match e.step().unwrap() {
        StepOutcome::Blocked { newly_pending } => assert!(newly_pending.is_empty()),
        other => panic!("expected Blocked, got {other:?}"),
    }
    assert_eq!(e.take_cancellations(), vec![y]);
    let left: Vec<SuspensionId> = e.pending().iter().map(|p| p.id).collect();
    assert_eq!(left, vec![z]);
    assert!(e.resolve(y, Ok(V::Unit)).is_err());
    e.resolve(z, Ok(V::S("Z".into()))).unwrap();
    let out = e.step().unwrap();
    assert!(matches!(&out, StepOutcome::Done(V::List(vs))
        if vs == &vec![V::S("err:bad".into()), V::S("Z".into())]));
}

#[test]
fn a_failing_fan_out_inside_a_collecting_one_is_a_failed_child() {
    let inner = N::Par {
        children: vec![N::Call("x".into()), N::Call("y".into())],
        policy: all_ff(),
        reducer: "all_ordered",
    };
    let mut e = build(N::Par {
        children: vec![inner],
        policy: all_ca(),
        reducer: "collect_all",
    });
    e.step().unwrap();
    let (x, y) = (waiting(&e, "x"), waiting(&e, "y"));
    e.resolve(y, Err(EE("late".into()))).unwrap();
    let out = e.step().unwrap();
    assert!(matches!(&out, StepOutcome::Done(V::List(vs)) if vs == &vec![V::S("err:late".into())]));
    assert_eq!(e.take_cancellations(), vec![x]);
}

#[test]
fn a_failure_stops_at_the_nearest_collecting_fan_out() {
    let inner = N::Par {
        children: vec![N::Steps(vec![N::Call("x".into()), N::Call("never".into())])],
        policy: all_ca(),
        reducer: "collect_all",
    };
    let mut e = build(N::Par {
        children: vec![N::Steps(vec![inner, N::Call("next".into())])],
        policy: all_ff(),
        reducer: "all_ordered",
    });
    e.step().unwrap();
    let x = waiting(&e, "x");
    e.resolve(x, Err(EE("nope".into()))).unwrap();
    e.step().unwrap();
    let next = waiting(&e, "next");
    e.resolve(next, Ok(V::S("N".into()))).unwrap();
    let out = e.step().unwrap();
    assert!(matches!(&out, StepOutcome::Done(V::List(vs)) if vs == &vec![V::S("N".into())]));
}

#[test]
fn frame_tree_cache_is_reused_and_invalidated() {
    let mut e = build(N::Steps(vec![N::Call("x".into()), N::Call("y".into())]));
    let sid = match e.step().unwrap() {
        StepOutcome::Blocked { newly_pending } => newly_pending.as_slice()[0].id,
        _ => panic!(),
    };
    let waits = |e: &Engine<TestAst>| {
        e.frame_tree()
            .kids
            .iter()
            .any(|k| matches!(k.root, Frame::PendingEffect { id } if id == sid))
    };
    assert!(waits(&e), "pre-resolve tree must contain Pending frame");
    assert!(waits(&e), "a second read shows the same");
    e.resolve(sid, Ok(V::S("X".into()))).unwrap();
    assert!(!waits(&e), "post-resolve tree must not still describe the resolved Pending");
    let after = e.frame_tree();
    assert!(after.kids.iter().any(|k| matches!(&k.root, Frame::Value(V::S(s)) if s == "X")));
    assert!(!waits(&e), "a second read shows the same");
}

/// Fails the call labelled `a`.
struct FailingResolver {
    asked: Vec<SuspensionId>,
    cancelled: Vec<SuspensionId>,
}

impl EffectResolver<TestAst> for FailingResolver {
    fn notes(&self) -> Sequence<SpecNote<V, EE>> {
        unreachable!()
    }

    fn resolve(&mut self, pending: &Pending) -> Result<V, EE> {
        self.asked.push(pending.id);
        match &pending.reason {
            SuspendReason::Call { spec } if spec.label == "a" => Err(EE("boom".into())),
            _ => Ok(V::Unit),
        }
    }

    fn cancelled(&mut self, sid: SuspensionId) {
        self.cancelled.push(sid);
    }
}

#[test]
fn drive_tells_what_a_failure_cancelled() {
    let fan = || N::Par {
        children: vec![N::Call("a".into()), N::Call("b".into())],
        policy: all_ff(),
        reducer: "all_ordered",
    };
    let mut probe = build(fan());
    probe.step().unwrap();
    let (a, b) = (waiting(&probe, "a"), waiting(&probe, "b"));

    let mut e = build(fan());
    let mut r = FailingResolver { asked: Vec::new(), cancelled: Vec::new() };
    let err = drive(&mut e, &mut r, &BreakpointSet::new()).unwrap_err();
    assert!(matches!(err, ExecError::Effect(EE(ref s)) if s == "boom"));
    assert_eq!(r.asked, vec![a]);
    assert_eq!(r.cancelled, vec![b]);
    assert!(e.take_cancellations().is_empty());
}

fn bps_at(nodes: &[u64]) -> BreakpointSet {
    let mut out = BreakpointSet::new();
    for node in nodes {
        out.add(BreakCondition::Node(NodeId(*node)));
    }
    out
}

#[test]
fn answering_another_call_while_halted_lets_no_marked_frame_through() {
    // 1 Par [2 Steps [3 a, 4 d], 5 Steps [6 b, 7 c]]
    let steps = |x: &str, y: &str| N::Steps(vec![N::Call(x.into()), N::Call(y.into())]);
    let mut e = build(N::Par {
        children: vec![steps("a", "d"), steps("b", "c")],
        policy: all_ff(),
        reducer: "all_ordered",
    });
    let bps = bps_at(&[7, 4]);
    assert_eq!(bp_halt(&e.step_with_breakpoints(&bps).unwrap()), None);
    e.resolve(waiting(&e, "b"), Ok(V::S("B".into()))).unwrap();
    assert_eq!(bp_halt(&e.step_with_breakpoints(&bps).unwrap()), Some(NodeId(7)));
    let started = e.events().visit_pre;
    e.resolve(waiting(&e, "a"), Ok(V::S("A".into()))).unwrap();
    assert_eq!(bp_halt(&e.step_with_breakpoints(&bps).unwrap()), Some(NodeId(4)));
    assert_eq!(e.events().visit_pre, started, "nothing started without a stop");
    assert_eq!(bp_halt(&e.step_with_breakpoints(&bps).unwrap()), Some(NodeId(7)));
    assert_eq!(e.events().visit_pre, started + 1);
    assert_eq!(bp_halt(&e.step_with_breakpoints(&bps).unwrap()), None);
    assert_eq!(e.events().visit_pre, started + 2);
    e.resolve(waiting(&e, "c"), Ok(V::S("C".into()))).unwrap();
    e.resolve(waiting(&e, "d"), Ok(V::S("D".into()))).unwrap();
    let out = e.step_with_breakpoints(&bps).unwrap();
    assert!(matches!(&out, StepOutcome::Done(V::List(vs))
        if vs == &vec![V::S("D".into()), V::S("C".into())]));
}

#[test]
fn no_breakpoint_is_reported_before_a_frame_that_cannot_start() {
    // 1 Par [2 a, 3 Steps [4 b, 5 c]]
    let fan = |policy: JoinPolicy, reducer: &'static str| {
        let steps = N::Steps(vec![N::Call("b".into()), N::Call("c".into())]);
        build(N::Par { children: vec![N::Call("a".into()), steps], policy, reducer })
    };
    let bps = bps_at(&[5]);

    let mut e = fan(all_ff(), "all_ordered");
    e.step_with_breakpoints(&bps).unwrap();
    e.resolve(waiting(&e, "b"), Ok(V::Unit)).unwrap();
    e.resolve(waiting(&e, "a"), Err(EE("boom".into()))).unwrap();
    let err = e.step_with_breakpoints(&bps).unwrap_err();
    assert!(matches!(err, ExecError::Effect(EE(ref s)) if s == "boom"));

    let mut e = fan(any_ff(), "any_first");
    e.step_with_breakpoints(&bps).unwrap();
    e.resolve(waiting(&e, "b"), Ok(V::Unit)).unwrap();
    e.resolve(waiting(&e, "a"), Ok(V::S("A".into()))).unwrap();
    let out = e.step_with_breakpoints(&bps).unwrap();
    assert!(matches!(&out, StepOutcome::Done(V::S(s)) if s == "A"));
}

#[test]
fn a_call_that_starts_and_is_cancelled_in_one_step_is_reported() {
    let mut e = build(N::Par {
        children: vec![N::Maybe(None), N::Call("a".into())],
        policy: any_ff(),
        reducer: "any_first",
    });
    assert!(matches!(e.step().unwrap(), StepOutcome::Done(V::Unit)));
    assert_eq!(e.take_cancellations(), vec![SuspensionId(1)]);
    assert!(e.pending().is_empty());
    assert!(e.resolve(SuspensionId(1), Ok(V::Unit)).is_err());
}

#[test]
fn a_sink_changes_nothing() {
    let fan = || {
        build(N::Par {
            children: vec![N::Call("a".into()), N::Call("b".into())],
            policy: any_ff(),
            reducer: "any_first",
        })
    };
    let (mut heard, mut quiet) = (fan(), fan());
    assert!(heard.attach_sink(Box::new(BufferingSink::new())).is_none());
    for e in [&mut heard, &mut quiet] {
        e.step().unwrap();
        let a = waiting(e, "a");
        e.resolve(a, Ok(V::S("A".into()))).unwrap();
        assert!(matches!(e.step().unwrap(), StepOutcome::Done(V::S(s)) if s == "A"));
    }
    assert_eq!(heard.take_cancellations(), quiet.take_cancellations());
    assert_eq!(heard.event_summary(), quiet.event_summary());
}
