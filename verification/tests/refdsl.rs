use std::sync::Arc;

use dsl_kit::context::NodeContext;
use dsl_kit::derived::DslSemantics;
use dsl_kit::error::EngineError;
use dsl_kit::event::{CallSpec, Pending, SuspendReason};
use dsl_kit::frame::StepOutcome;
use dsl_kit::ids::{CallFrameId, IdGen, Iteration, NodeId, Path, SuspensionId};
use dsl_kit::join::{Op, OpId, Shared};
use dsl_kit::lint::{Linter, MaxDepth, UniqueNodeIds};
use dsl_kit::refdsl::host::{
    answer_from, answer_value, outstanding_calls, step_outcome_to_host, HostLocation, HostOutcome,
    RefHost,
};
use dsl_kit::refdsl::ops::{ops, BinOp};
use dsl_kit::refdsl::run::{default_resolution, evaluate};
use dsl_kit::refdsl::{count_nodes, demo_program, pretty, Binding, Ref, RefSemantics};
use dsl_kit::walk::DslNode;

#[test]
fn default_program_completes_to_sixteen() {
    let mut host = RefHost::new_with_default_program();
    let out = host.step_to_done().unwrap();
    assert!(matches!(out, HostOutcome::Done), "got {out:?}");
    let root = host.root_node_id();
    let final_value = host
        .results()
        .iter()
        .find(|(id, _)| *id == root)
        .map(|(_, s)| s.clone())
        .expect("final value present");
    assert_eq!(final_value, "16");
}

#[test]
fn a_host_shows_answers_in_the_order_of_their_nodes() {
    let mut host = RefHost::new_with_default_program();
    assert_eq!(host.dsl_name(), "ref");
    assert_eq!(host.root_summary(), "Let \"x\"");
    assert_eq!(host.ast_size(), 10);
    assert!(host.results().is_empty());
    host.step_to_done().unwrap();
    let expected = vec![
        (2, "y = 5".to_string()),
        (3, "z = 2".to_string()),
        (9, "16".to_string()),
    ];
    assert_eq!(host.results(), expected);
    host.step_to_done().unwrap();
    assert_eq!(host.results(), expected);
    host.reset();
    assert!(host.results().is_empty());
    host.load(Ref::Lit { id: NodeId(4), value: -7 });
    host.step_to_done().unwrap();
    assert_eq!(host.results(), vec![(4, "-7".to_string())]);
    assert_eq!(host.ast_pretty(), "n4 Lit -7\n");
}

#[test]
fn the_demo_reads_as_a_listing() {
    let mut ids = IdGen::new();
    let demo = demo_program(&mut ids);
    assert_eq!(ids.node(), NodeId(10));
    assert_eq!(count_nodes(&demo), 10);
    assert_eq!(demo.variant_name(), "Let");
    assert_eq!(
        pretty(&demo),
        "n9 Let \"x\"\n  n0 Lit 3\n  n8 If\n    n4 Var \"x\"\n    n5 Mul\n      n6 Add\n        \
         n1 Var \"x\"\n        n2 Var \"y\"\n      n3 Var \"z\"\n    n7 Lit 0\n"
    );
}

fn lit(value: i64) -> Box<Ref> {
    Box::new(Ref::Lit { id: NodeId(0), value })
}

fn name(text: &str) -> Box<Ref> {
    Box::new(Ref::Var { id: NodeId(1), name: text.to_string() })
}

fn run(program: &Ref) -> (i64, Vec<(u64, String)>) {
    let mut chain: Vec<Binding> = Vec::new();
    let mut log = Vec::new();
    let value = evaluate(program, &mut chain, &mut log);
    assert!(chain.is_empty());
    (value, log)
}

#[test]
fn arithmetic_wraps_around() {
    let sum = Ref::Add { id: NodeId(9), lhs: lit(i64::MAX), rhs: lit(1) };
    assert_eq!(run(&sum).0, i64::MIN);
    let product = Ref::Mul { id: NodeId(9), lhs: lit(i64::MIN), rhs: lit(-1) };
    assert_eq!(run(&product).0, i64::MIN);
}

#[test]
fn inner_bindings_hide_outer_ones() {
    let inner = Ref::Let { id: NodeId(8), name: "a".into(), value: lit(2), body: name("a") };
    let outer = Ref::Let { id: NodeId(9), name: "a".into(), value: lit(1), body: Box::new(inner) };
    assert_eq!(run(&outer), (2, vec![]));
}

#[test]
fn a_zero_condition_takes_the_other_branch() {
    let choice = Ref::If {
        id: NodeId(9),
        cond: lit(0),
        then_branch: name("never"),
        else_branch: name("q"),
    };
    assert_eq!(run(&choice), (1, vec![(1, "q = 1".to_string())]));
}

#[test]
fn default_answers_are_fixed() {
    assert_eq!(default_resolution("x"), 3);
    assert_eq!(default_resolution("y"), 5);
    assert_eq!(default_resolution("z"), 2);
    assert_eq!(default_resolution("w"), 1);
}

#[test]
fn judgments_are_those_of_integers() {
    let sem = RefSemantics;
    assert_eq!(sem.unit_value(), 0);
    assert_eq!(sem.truthy(&0), Some(false));
    assert_eq!(sem.truthy(&-1), Some(true));
    let level = sem.bind_delta("n", &4).expect("integers bind");
    assert_eq!(sem.lookup(&level, "n"), Some(4));
    assert_eq!(sem.lookup(&level, "m"), None);
    assert_eq!(sem.lookup(&Binding::default(), "n"), None);
}

#[test]
fn operators_take_two_arguments() {
    let table = ops(
        Shared::new(Arc::new(BinOp::Add)),
        Shared::new(Arc::new(BinOp::Mul)),
    );
    let add = table.resolve(&OpId::new("add")).unwrap();
    assert_eq!(add.inner.apply(NodeId(1), &[2, 5]).unwrap(), 7);
    let mul = table.resolve(&OpId::new("mul")).unwrap();
    assert_eq!(mul.inner.apply(NodeId(1), &[2, 5]).unwrap(), 10);
    match mul.inner.apply(NodeId(6), &[1, 2, 3]) {
        Err(EngineError::EvalFailed { at, source }) => {
            assert_eq!(at.node, NodeId(6));
            assert_eq!(source, "op \"mul\" expects 2 args, got 3");
        }
        other => panic!("{other:?}"),
    }
    assert!(table.resolve(&OpId::new("sub")).is_err());
}

#[test]
fn answers_are_integers() {
    assert_eq!(answer_value(Some("  -12\n")), Ok(-12));
    assert_eq!(answer_value(Some("+7")), Ok(7));
    assert_eq!(answer_value(Some("\u{3000}9223372036854775807")), Ok(i64::MAX));
    assert!(answer_value(Some("9223372036854775808")).is_err());
    assert!(answer_value(Some("1_000")).is_err());
    assert!(answer_value(Some("-")).is_err());
    assert_eq!(
        answer_value(None).unwrap_err(),
        "resolve requires `result` as an integer literal (no default provided)"
    );
    let said = answer_value(Some("a dozen")).unwrap_err();
    assert!(said.starts_with("invalid integer literal \"a dozen\": "), "{said}");
    assert_eq!(answer_from("7", Ok(7)), Ok(7));
    assert_eq!(
        answer_from("x", Err("no digits".to_string())).unwrap_err(),
        "invalid integer literal \"x\": no digits"
    );
}

fn pending(id: u64, node: u64, reason: SuspendReason) -> Pending {
    Pending {
        id: SuspensionId(id),
        at: NodeContext {
            node: NodeId(node),
            path: Path(vec![NodeId(1), NodeId(node)]),
            frame: Some(CallFrameId(8)),
            depth: 2,
            iteration: Some(Iteration(3)),
        },
        reason,
    }
}

fn call(label: &str) -> SuspendReason {
    SuspendReason::Call {
        spec: CallSpec { label: label.to_string(), payload: serde_json::Value::Null },
    }
}

#[test]
fn a_host_reports_where_it_stands() {
    let at = pending(1, 5, call("x")).at;
    let place = HostLocation::of(&at);
    assert_eq!((place.node, place.path, place.depth), (5, vec![1, 5], 2));
    assert_eq!((place.frame, place.iteration), (Some(8), Some(3)));
    assert!(matches!(step_outcome_to_host(&StepOutcome::Done(1), &vec![]), HostOutcome::Done));
    assert!(matches!(step_outcome_to_host(&StepOutcome::Ready, &vec![]), HostOutcome::Advanced));
}

#[test]
fn only_calls_are_outstanding() {
    let all = vec![
        pending(1, 4, call("y")),
        pending(2, 5, SuspendReason::Breakpoint),
        pending(3, 6, call("z")),
    ];
    assert_eq!(
        outstanding_calls(&all),
        vec![
            (SuspensionId(1), 4, "y".to_string()),
            (SuspensionId(3), 6, "z".to_string()),
        ]
    );
}

#[test]
fn a_run_that_asks_too_much_is_given_up() {
    let ask = |id: u64| Box::new(Ref::Var { id: NodeId(id), name: "w".to_string() });
    let mut sum = ask(0);
    for id in 1..4097 {
        sum = Box::new(Ref::Add { id: NodeId(10_000 + id), lhs: sum, rhs: ask(id) });
    }
    let mut host = RefHost::with_program(*sum);
    assert_eq!(
        host.step_to_done().unwrap_err(),
        "dsl-kit-cli reference host exceeded to_done safety limit"
    );
    assert_eq!(host.results().len(), 4097);
    assert!(matches!(host.step_to_done(), Ok(HostOutcome::Done)));
    let rows = host.results();
    assert_eq!(rows.len(), 4098);
    assert_eq!(rows[4097], (14_096, "4097".to_string()));
}

#[test]
fn a_host_lints_its_program_with_the_default_rules() {
    let mut host = RefHost::new_with_default_program();
    assert!(host.lint().is_empty());
    assert_eq!(host.schema().name, "Ref");
    let lit = |id: u64| Box::new(Ref::Lit { id: NodeId(id), value: 1 });
    host.load(Ref::Add { id: NodeId(1), lhs: lit(2), rhs: lit(2) });
    let found = host.lint();
    assert_eq!(found.len(), 1);
    assert_eq!(found[0].rule, UniqueNodeIds::NAME);
    assert_eq!(found[0].node, NodeId(2));
    let deep = || {
        let mut tree = lit(0);
        for id in 1..100 {
            tree = Box::new(Ref::Mul { id: NodeId(id), lhs: tree, rhs: lit(1_000 + id) });
        }
        *tree
    };
    host.load(deep());
    let found = host.lint();
    assert!(!found.is_empty());
    assert!(found.iter().all(|d| d.rule == MaxDepth::NAME));
    assert_eq!(found, Linter::<Ref>::with_defaults().lint(&deep()));
}
