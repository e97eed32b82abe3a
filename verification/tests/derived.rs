use dsl_kit::breakpoint::{BreakCondition, BreakpointSet};
use dsl_kit::derived::{DerivedAst, DslExec, DslSemantics, LoopDecision};
use dsl_kit::engine::ast::{Ast, NodeKind, SpecKind};
use dsl_kit::engine::drive::{
    drive, next_call, DriveOutcome, EffectResolver, NextCall, SpecNote,
};
use dsl_kit::engine::step::Engine;
use dsl_kit::event::{Pending, SuspendReason};
use dsl_kit::frame::{Frame, StepOutcome, Stepper};
use dsl_kit::ids::{NodeId, SuspensionId};
use dsl_kit::join::ReducerRegistry;
use dsl_kit::math::{Integer, Natural, Sequence};
use dsl_kit::walk::{walk, walk_until, DslNode, Phase, Visitor, Walk};

#[derive(Debug)]
enum Script {
    Block { id: NodeId, steps: Vec<Script> },
    Ask { id: NodeId, label: String, payload: u64 },
    Number { id: NodeId, value: i64 },
}

impl DslNode for Script {
    fn id_spec(&self) -> NodeId {
        self.node_id()
    }

    fn variant_spec(&self) -> Sequence<char> {
        unreachable!()
    }

    fn node_id(&self) -> NodeId {
        match self {
            Script::Block { id, .. } | Script::Ask { id, .. } | Script::Number { id, .. } => *id,
        }
    }

    fn variant_name(&self) -> &'static str {
        match self {
            Script::Block { .. } => "Block",
            Script::Ask { .. } => "Ask",
            Script::Number { .. } => "Number",
        }
    }
}

impl Walk for Script {
    fn children_spec(&self) -> Sequence<Self> {
        unreachable!()
    }

    fn height(&self) -> Natural {
        unreachable!()
    }

    fn children_are_lower(&self, _i: Integer) {}

    fn children<'a>(&'a self) -> Vec<&'a Self> {
        match self {
            Script::Block { steps, .. } => steps.iter().collect(),
            _ => vec![],
        }
    }
}

impl DslExec for Script {
    type LitValue = i64;

    fn exec_kind_spec(&self) -> SpecKind {
        unreachable!()
    }

    fn exec_literal_spec(&self) -> Option<i64> {
        unreachable!()
    }

    fn exec_kind(&self) -> NodeKind {
        match self {
            Script::Block { steps, .. } => {
                NodeKind::Sequence { children: steps.iter().map(|s| s.node_id()).collect() }
            }
            Script::Ask { label, payload, .. } => NodeKind::Call {
                label: label.clone(),
                payload: serde_json::Value::from(*payload),
            },
            Script::Number { .. } => NodeKind::Maybe { body: None },
        }
    }

    fn exec_literal(&self) -> Option<i64> {
        match self {
            Script::Number { value, .. } => Some(*value),
            _ => None,
        }
    }
}

struct Integers;

impl DslSemantics for Integers {
    type Value = i64;
    type Delta = ();
    type EffectError = String;
    type Cursor = ();

    fn unit_spec(&self) -> i64 {
        unreachable!()
    }

    fn blank_delta() {}

    fn blank_cursor() {}

    fn value_clone_is_equal(_a: i64, _b: i64) {}

    fn error_clone_is_equal(_a: String, _b: String) {}

    fn default_delta_is_blank(_d: ()) {}

    fn default_cursor_is_blank(_c: ()) {}

    fn unit_value(&self) -> i64 {
        -1
    }

    fn truthy(&self, value: &i64) -> Option<bool> {
        Some(*value != 0)
    }
}

fn ask(id: u64, label: &str) -> Script {
    Script::Ask { id: NodeId(id), label: label.to_string(), payload: id * 100 }
}

fn script() -> Script {
    Script::Block {
        id: NodeId(1),
        steps: vec![ask(2, "a"), Script::Number { id: NodeId(3), value: 9 }, ask(4, "b")],
    }
}

#[test]
fn a_tree_answers_by_identity() {
    let root = script();
    let ast = DerivedAst::new(&root, Integers);
    assert_eq!(ast.root(), NodeId(1));
    assert!(matches!(ast.node_kind(NodeId(2)), NodeKind::Call { .. }));
    assert!(matches!(ast.node_kind(NodeId(77)), NodeKind::Maybe { body: None }));
    assert_eq!(ast.unit_value(), -1);
    assert_eq!(ast.literal_payload(NodeId(3)), Some(9));
    assert_eq!(ast.literal(NodeId(3)), Some(9));
    assert_eq!(ast.literal(NodeId(2)), None);
    assert_eq!(ast.literal_payload(NodeId(77)), None);
    assert_eq!(ast.truthy(&0), Some(false));
    assert_eq!(ast.continue_loop(NodeId(1), &0, 0), LoopDecision::Break);
    assert!(ast.bind_delta("x", &1).is_none());
    assert!(ast.lookup(&(), "x").is_none());
}

fn engine<'a>(root: &'a Script) -> Engine<DerivedAst<'a, Script, Integers>> {
    let registry = ReducerRegistry::new();
    match Engine::new(DerivedAst::new(root, Integers), std::sync::Arc::new(registry)) {
        Ok(e) => e,
        Err(_) => panic!("the script validates"),
    }
}

struct Payloads {
    seen: Vec<(String, u64)>,
}

impl<'a> EffectResolver<DerivedAst<'a, Script, Integers>> for Payloads {
    fn notes(&self) -> Sequence<SpecNote<i64, String>> {
        unreachable!()
    }

    fn cancelled(&mut self, _sid: SuspensionId) {}

    fn resolve(&mut self, pending: &Pending) -> Result<i64, String> {
        match &pending.reason {
            SuspendReason::Call { spec } => {
                let given = spec.payload.as_u64().expect("a number was sent");
                self.seen.push((spec.label.clone(), given));
                Ok(given as i64 + 1)
            }
            _ => Err("only calls are resolved".to_string()),
        }
    }
}

#[test]
fn payloads_reach_the_host_unchanged() {
    let root = script();
    let mut e = engine(&root);
    let mut host = Payloads { seen: vec![] };
    match drive(&mut e, &mut host, &BreakpointSet::new()) {
        Ok(DriveOutcome::Done(v)) => assert_eq!(v, 401),
        _ => panic!("the script runs to the end"),
    }
    assert_eq!(host.seen, vec![("a".to_string(), 200), ("b".to_string(), 400)]);
}

#[test]
fn the_next_action_is_the_first_call_unless_something_else_waits() {
    let root = script();
    let mut e = engine(&root);
    assert!(matches!(e.step(), Ok(StepOutcome::Blocked { .. })));
    match next_call(&e) {
        Ok(NextCall::Resolve(p)) => assert_eq!(p.at.node, NodeId(2)),
        _ => panic!("a call waits"),
    }
    let mut halted = engine(&root);
    let mut stops = BreakpointSet::new();
    stops.add(BreakCondition::at_node(NodeId(1)));
    assert!(halted.step_with_breakpoints(&stops).is_ok());
    match next_call(&halted) {
        Ok(NextCall::Break(at)) => {
            assert_eq!(at.len(), 1);
            assert!(matches!(at[0].reason, SuspendReason::Breakpoint));
        }
        _ => panic!("a breakpoint waits"),
    }
    assert!(next_call(&engine(&root)).is_err());
}

#[test]
fn the_frame_tree_follows_every_answer() {
    let root = script();
    let mut e = engine(&root);
    assert!(e.step().is_ok());
    let sid: SuspensionId = e.pending()[0].id;
    let before = e.frame_tree();
    assert!(matches!(before.kids[0].root, Frame::PendingEffect { id } if id == sid));
    assert!(e.resolve(sid, Ok(5)).is_ok());
    let after = e.frame_tree();
    assert!(matches!(after.kids[0].root, Frame::Value(5)));
    assert!(e.resolve(sid, Ok(5)).is_err());
    assert!(e.pending().is_empty());
}

struct Trace(Vec<(u64, Phase)>);

impl Visitor<Script> for Trace {
    fn visited(&self) -> Sequence<(Script, Phase)> {
        unreachable!()
    }

    fn visit(&mut self, node: &Script, phase: Phase) {
        self.0.push((node.node_id().0, phase));
    }
}

#[test]
fn a_walk_visits_before_and_after_children() {
    let mut trace = Trace(vec![]);
    walk(&script(), &mut trace);
    let ids: Vec<u64> = trace.0.iter().map(|(id, _)| *id).collect();
    assert_eq!(ids, vec![1, 2, 2, 3, 3, 4, 4, 1]);
    assert_eq!(trace.0[0].1, Phase::Pre);
    assert_eq!(trace.0[7].1, Phase::Post);
}

#[test]
fn a_walk_stops_at_the_first_answer() {
    let found = walk_until(&script(), &|n: &Script, p: Phase| match (n, p) {
        (Script::Ask { label, .. }, Phase::Post) => Some(label.clone()),
        _ => None,
    });
    assert_eq!(found.as_deref(), Some("a"));
    let nothing: Option<u8> = walk_until(&script(), &|_: &Script, _: Phase| None);
    assert!(nothing.is_none());
}

#[test]
fn a_blocked_engine_stays_blocked_until_it_is_answered() {
    let root = script();
    let mut e = engine(&root);
    assert!(matches!(e.step(), Ok(StepOutcome::Blocked { newly_pending }) if newly_pending.len() == 1));
    for _ in 0..3 {
        assert!(
            matches!(e.step(), Ok(StepOutcome::Blocked { newly_pending }) if newly_pending.is_empty())
        );
        assert_eq!(e.pending().len(), 1);
    }
    let first = e.pending()[0].id;
    assert!(e.resolve(first, Ok(1)).is_ok());
    assert!(matches!(e.step(), Ok(StepOutcome::Blocked { newly_pending }) if newly_pending.len() == 1));
    let second = e.pending()[0].id;
    assert!(e.resolve(second, Ok(2)).is_ok());
    assert!(matches!(e.step(), Ok(StepOutcome::Done(2))));
    assert!(e.is_done());
    assert!(matches!(e.step(), Ok(StepOutcome::Done(2))));
    assert!(e.resolve(second, Ok(3)).is_err());
}

#[test]
fn every_node_of_a_tree_is_found() {
    let root = Script::Block {
        id: NodeId(10),
        steps: vec![script(), Script::Number { id: NodeId(11), value: 4 }],
    };
    let ast = DerivedAst::new(&root, Integers);
    let mut seen = Trace(Vec::new());
    walk(&root, &mut seen);
    let mut found: Vec<(u64, usize, Option<i64>)> = Vec::new();
    for (id, phase) in seen.0 {
        if phase == Phase::Pre {
            let shape: usize = match ast.node_kind(NodeId(id)) {
                NodeKind::Sequence { children } => children.len(),
                NodeKind::Call { .. } => 100,
                _ => 200,
            };
            found.push((id, shape, ast.literal(NodeId(id))));
        }
    }
    assert_eq!(
        found,
        vec![
            (10, 2, None),
            (1, 3, None),
            (2, 100, None),
            (3, 200, Some(9)),
            (4, 100, None),
            (11, 200, Some(4)),
        ]
    );
}
