use dsl_kit::breakpoint::{BreakCondition, BreakpointSet};
use dsl_kit::error::EngineError;
use dsl_kit::event::SuspendReason;
use dsl_kit::flow::stepper::{FlowOutcome, FlowStepper};
use dsl_kit::flow::{canned_response, check_unique_ids, pretty, research_pipeline, Flow};
use dsl_kit::ids::{IdGen, NodeId};
use dsl_kit::walk::{find_by_id, DslNode, Walk};

fn pipeline() -> Flow {
    let mut ids = IdGen::new();
    research_pipeline(&mut ids)
}

#[test]
fn the_pipeline_reads_as_a_listing() {
    assert_eq!(
        pretty(&pipeline()),
        "n0 Seq\n  n1 Call \"fetch_query\"\n  n2 Scope \"web_research\"\n    n3 Par\n      \
         n4 Call \"search_arxiv\"\n      n5 Call \"search_github\"\n      n6 Call \"search_web\"\n  \
         n7 Call \"synthesise\"\n  n8 Maybe\n    n9 Call \"citation_check\"\n  \
         n10 Call \"write_report\"\n"
    );
}

#[test]
fn summaries_quote_their_labels() {
    let call = Flow::Call { id: NodeId(1), label: "say \"hi\"".to_string() };
    assert_eq!(call.summary(), "Call \"say \\\"hi\\\"\"");
    assert_eq!(call.variant_name(), "Call");
    assert!(call.children().is_empty());
}

#[test]
fn repeated_identities_are_refused() {
    assert!(check_unique_ids(&pipeline()).is_ok());
    let twice = Flow::Sequence {
        id: NodeId(1),
        children: vec![
            Flow::Call { id: NodeId(2), label: "a".to_string() },
            Flow::Maybe { id: NodeId(2), body: None },
            Flow::Call { id: NodeId(1), label: "b".to_string() },
        ],
    };
    match check_unique_ids(&twice) {
        Err(EngineError::Malformed { at, detail }) => {
            assert_eq!(at.node, NodeId(2));
            assert_eq!(at.path.0, vec![NodeId(2)]);
            assert_eq!(detail, "node id n2 appears more than once");
        }
        other => panic!("{other:?}"),
    }
}

#[test]
fn every_known_call_has_an_answer() {
    assert_eq!(canned_response("search_web"), "web: rust blog posts, docs.rs entries");
    assert_eq!(canned_response("write_report"), "report: 380 words, 3 citations, ready");
    assert_eq!(canned_response("sing"), "<no handler for sing>");
}

#[test]
fn a_flow_runs_call_by_call() {
    let flow = pipeline();
    let mut stepper = FlowStepper::new(&flow);
    assert_eq!(stepper.depth(), 1);
    let none = BreakpointSet::new();
    let mut asked = Vec::new();
    loop {
        match stepper.run_to_yield_with_breakpoints(&none).unwrap() {
            FlowOutcome::Suspended { reason, at } => {
                assert!(matches!(reason, SuspendReason::User { .. }));
                let (id, label) = stepper.suspended_call().map(|(i, l)| (i, l.to_string())).unwrap();
                assert_eq!(at.node, id);
                assert_eq!(stepper.current_path().unwrap().tip(), Some(id));
                let answer = canned_response(&label);
                asked.push(label);
                stepper.record_result(id, answer);
            }
            FlowOutcome::Done => break,
            FlowOutcome::Advanced => panic!("a run never ends on a plain advance"),
        }
    }
    assert_eq!(
        asked,
        vec![
            "fetch_query",
            "search_arxiv",
            "search_github",
            "search_web",
            "synthesise",
            "citation_check",
            "write_report",
        ]
    );
    assert_eq!(stepper.depth(), 0);
    assert!(stepper.current_path().is_none());
    assert!(stepper.suspended_call().is_none());
    assert_eq!(
        stepper.event_summary(),
        "pre=11 post=11 frame_enter=1 frame_leave=1 iter=8 suspend=7 resume=7"
    );
    let counts = stepper.events();
    assert_eq!(counts.visit_pre, counts.visit_post);
    assert_eq!(stepper.results().len(), 7);
    let results = stepper.into_results();
    assert_eq!(results[&9], "citations: 3 sources cross-verified");
}

#[test]
fn a_finished_flow_stays_finished() {
    let flow = Flow::Maybe { id: NodeId(1), body: None };
    let mut stepper = FlowStepper::new(&flow);
    for _ in 0..3 {
        assert!(matches!(stepper.step(), Ok(FlowOutcome::Advanced)));
    }
    assert!(matches!(stepper.step(), Ok(FlowOutcome::Done)));
    assert!(matches!(stepper.step(), Ok(FlowOutcome::Done)));
}

#[test]
fn a_breakpoint_holds_up_one_step() {
    let flow = pipeline();
    let mut stepper = FlowStepper::new(&flow);
    let mut stops = BreakpointSet::new();
    stops.add(BreakCondition::at_node(NodeId(1)));
    match stepper.run_to_yield_with_breakpoints(&stops).unwrap() {
        FlowOutcome::Suspended { reason, at } => {
            assert!(matches!(reason, SuspendReason::Breakpoint));
            assert_eq!(at.node, NodeId(1));
            assert_eq!(at.depth, 2);
        }
        other => panic!("{other:?}"),
    }
    assert!(stepper.suspended_call().is_none());
    assert_eq!(stepper.events().visit_pre, 1);
    match stepper.run_to_yield_with_breakpoints(&stops).unwrap() {
        FlowOutcome::Suspended { reason, .. } => {
            assert!(matches!(reason, SuspendReason::User { .. }));
        }
        other => panic!("{other:?}"),
    }
    assert_eq!(stepper.suspended_call(), Some((NodeId(1), "fetch_query")));
    assert_eq!(stepper.events().suspend, 2);
}

#[test]
fn nodes_are_found_by_identity() {
    let flow = pipeline();
    assert_eq!(find_by_id(&flow, NodeId(8)).map(|n| n.variant_name()), Some("Maybe"));
    assert!(find_by_id(&flow, NodeId(99)).is_none());
}
