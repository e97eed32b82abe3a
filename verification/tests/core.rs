use std::sync::Arc;

use dsl_kit::math::{Sequence};
use dsl_kit::error::SpecEngineError;
use dsl_kit::suggest::SpecSuggestion;
use dsl_kit::breakpoint::{BreakCondition, BreakpointSet};
use dsl_kit::context::NodeContext;
use dsl_kit::error::{engine_error_catalog, EngineError};
use dsl_kit::event::{
    BufferingSink, CallSpec, CountingSink, Event, EventSink, NullSink, SuspendReason,
};
use dsl_kit::fuzzy::{reaches, Algorithm, FuzzySuggester, SuggestOptions};
use dsl_kit::ids::{CallFrameId, IdGen, Iteration, NodeId, Path, SuspensionId};
use dsl_kit::join::{
    ChildIndex, FailPolicy, OpId, OpRegistry, Reducer, ReducerCollectAll, ReducerHandle,
    ReducerId, ReducerRegistry, Shared,
};
use dsl_kit::suggest::{
    noop_handle, Applicability, FixSuggestion, NoopSuggester, PatchPart, Suggester,
    SuggesterHandle, Suggestion,
};

#[test]
fn path_push_extends_depth() {
    let mut ids = IdGen::new();
    let a = ids.node();
    let b = ids.node();

    let root = Path::root();
    assert_eq!(root.depth(), 0);

    let one = root.push(a);
    assert_eq!(one.depth(), 1);

    let two = one.push(b);
    assert_eq!(two.depth(), 2);
    assert_eq!(two.tip(), Some(b));
}

#[test]
fn id_generator_yields_distinct_ids() {
    let mut ids = IdGen::new();
    let a = ids.node();
    let b = ids.node();
    assert_ne!(a, b);
}

#[test]
fn null_sink_accepts_events() {
    let mut sink = NullSink;
    let event = Event::VisitPre { at: NodeContext::at(NodeId(0), Path::root()) };
    sink.emit(&event);
}

fn ctx_at(node: NodeId, path: Path, depth: u32) -> NodeContext {
    NodeContext { node, path, frame: None, depth, iteration: None }
}

#[test]
fn breakpoint_node_matches_exact_id() {
    let cond = BreakCondition::at_node(NodeId(7));
    assert!(cond.matches(&ctx_at(NodeId(7), Path::root().push(NodeId(7)), 1)));
    assert!(!cond.matches(&ctx_at(NodeId(8), Path::root().push(NodeId(8)), 1)));
}

#[test]
fn breakpoint_set_add_matches_remove() {
    let mut set = BreakpointSet::new();
    let hit = set.add(BreakCondition::at_node(NodeId(4)));
    let miss = set.add(BreakCondition::at_node(NodeId(99)));

    let ctx = ctx_at(NodeId(4), Path::root().push(NodeId(4)), 1);
    assert_eq!(set.matches(&ctx), vec![hit]);

    assert!(set.remove(hit));
    assert!(set.matches(&ctx).is_empty());
    assert_eq!(set.len(), 1);
    assert!(set.iter().iter().any(|(id, _)| *id == miss));
    assert!(!set.remove(hit));
    assert!(!set.is_empty());
}

#[test]
fn break_conditions_combine() {
    let at = NodeContext {
        node: NodeId(3),
        path: Path(vec![NodeId(1), NodeId(2), NodeId(3)]),
        frame: Some(CallFrameId(5)),
        depth: 2,
        iteration: Some(Iteration(4)),
    };
    let here = || BreakCondition::at_node(NodeId(3));
    let elsewhere = || BreakCondition::at_node(NodeId(9));
    assert!(BreakCondition::under_path(Path(vec![NodeId(1), NodeId(2)])).matches(&at));
    assert!(!BreakCondition::under_path(Path(vec![NodeId(2)])).matches(&at));
    assert!(!BreakCondition::at_path(Path(vec![NodeId(1), NodeId(2)])).matches(&at));
    assert!(BreakCondition::at_path(Path(vec![NodeId(1), NodeId(2), NodeId(3)])).matches(&at));
    assert!(BreakCondition::at_depth_at_least(2).matches(&at));
    assert!(!BreakCondition::at_depth_at_least(3).matches(&at));
    assert!(BreakCondition::at_depth_at_most(2).matches(&at));
    assert!(!BreakCondition::at_depth_at_most(1).matches(&at));
    assert!(BreakCondition::at_depth(2).matches(&at));
    assert!(BreakCondition::at_iteration(4).matches(&at));
    assert!(!BreakCondition::at_iteration(5).matches(&at));
    assert!(BreakCondition::in_call_frame(CallFrameId(5)).matches(&at));
    assert!(!BreakCondition::in_call_frame(CallFrameId(6)).matches(&at));
    assert!(!here().and(elsewhere()).matches(&at));
    assert!(here().or(elsewhere()).matches(&at));
    assert!(!(!here()).matches(&at));
    assert!((!elsewhere()).matches(&at));
    assert!(here().and(here()).and(!elsewhere()).matches(&at));
    assert!(elsewhere().or(elsewhere()).or(here()).matches(&at));
}

fn at_one() -> NodeContext {
    NodeContext::at(NodeId(1), Path::root().push(NodeId(1)))
}

#[test]
fn engine_error_carries_stable_code() {
    let err = EngineError::Aborted { at: at_one(), reason: "user requested".to_string() };
    assert_eq!(err.code(), "dsl_kit::eval::aborted");
}

#[test]
fn engine_error_catalog_covers_every_variant() {
    let entries = engine_error_catalog();
    let codes: Vec<&str> = entries.iter().map(|e| e.code.as_str()).collect();
    assert!(codes.contains(&"dsl_kit::eval::aborted"));
    assert!(codes.contains(&"dsl_kit::eval::failed"));
    assert!(codes.contains(&"dsl_kit::ast::malformed"));
    assert!(codes.contains(&"dsl_kit::stepper::protocol"));
    assert!(codes.contains(&"dsl_kit::stepper::unknown_suspension"));
    assert!(codes.contains(&"dsl_kit::reducer::unknown"));
    for entry in &entries {
        assert!(!entry.help.is_empty(), "help empty for {}", entry.code);
    }
}

#[test]
fn engine_errors_read_as_sentences() {
    let failed = EngineError::EvalFailed { at: at_one(), source: "boom".to_string() };
    assert_eq!(failed.code(), "dsl_kit::eval::failed");
    let op = EngineError::UnknownOp { id: OpId::new("a\"b") };
    assert_eq!(op.code(), "dsl_kit::op::unknown");
    assert!(op.to_text().contains("\"a\\\"b\""), "{}", op.to_text());
    let lost = EngineError::UnknownSuspension { id: SuspensionId(7) };
    assert!(lost.to_text().contains('7'), "{}", lost.to_text());
    let malformed = EngineError::Malformed { at: at_one(), detail: "no body".to_string() };
    assert!(malformed.to_text().contains("no body"));
    assert_eq!(malformed.code(), "dsl_kit::ast::malformed");
}

#[test]
fn reducer_id_from_str_and_string() {
    let a: ReducerId = "foo".into();
    let b: ReducerId = String::from("foo").into();
    assert_eq!(a, b);
}

struct FirstNonNone;

impl Reducer<i64, ()> for FirstNonNone {
    fn reduction(
        &self,
        _slots: Sequence<Option<i64>>,
        _deltas: Sequence<Option<()>>,
        _winners: Sequence<ChildIndex>,
    ) -> Result<(i64, ()), SpecEngineError> {
        unreachable!()
    }

    fn reduce(
        &self,
        slots: &[Option<i64>],
        _deltas: &[Option<()>],
        _winners: &[ChildIndex],
    ) -> Result<(i64, ()), EngineError> {
        let v = slots.iter().find_map(|s| *s).unwrap_or(0);
        Ok((v, ()))
    }
}

struct CountOk;

impl ReducerCollectAll<i64, (), std::io::Error> for CountOk {
    fn reduction(
        &self,
        _slots: Sequence<Option<Result<i64, std::io::Error>>>,
        _deltas: Sequence<Option<()>>,
        _winners: Sequence<ChildIndex>,
    ) -> Result<(i64, ()), SpecEngineError> {
        unreachable!()
    }

    fn reduce(
        &self,
        slots: &[Option<Result<i64, std::io::Error>>],
        _deltas: &[Option<()>],
        _winners: &[ChildIndex],
    ) -> Result<(i64, ()), EngineError> {
        let count = slots.iter().filter(|s| matches!(s, Some(Ok(_)))).count();
        Ok((count as i64, ()))
    }
}

#[test]
fn reducer_registry_resolves_fail_fast_and_collect_all_independently() {
    let mut reg: ReducerRegistry<i64, (), std::io::Error> = ReducerRegistry::new();
    reg.register_fail_fast("first".into(), Shared::new(Arc::new(FirstNonNone)));
    reg.register_collect_all("count_ok".into(), Shared::new(Arc::new(CountOk)));

    let ff = reg.resolve(&"first".into(), FailPolicy::FailFast).unwrap();
    assert!(matches!(ff, ReducerHandle::FailFast(_)));
    let ca = reg.resolve(&"count_ok".into(), FailPolicy::CollectAll).unwrap();
    assert!(matches!(ca, ReducerHandle::CollectAll(_)));

    let miss = reg.resolve(&"nope".into(), FailPolicy::FailFast);
    assert!(matches!(miss, Err(EngineError::UnknownReducer { .. })));
}

#[test]
fn an_unknown_operator_is_named() {
    let reg: OpRegistry<i64> = OpRegistry::new();
    match reg.resolve(&OpId::new("sum")) {
        Err(EngineError::UnknownOp { id }) => assert_eq!(id.to_text(), "sum"),
        _ => panic!("resolved an operator that was never registered"),
    }
}

#[test]
fn noop_returns_empty() {
    let s = NoopSuggester;
    assert!(s.suggest("foo", &vec!["food", "for"]).is_empty());
    assert_eq!(s.enrich_unknown("foo", &vec!["food", "for"]), None);
}

struct FixedSuggester;

impl Suggester for FixedSuggester {
    fn may_suggest(
        &self,
        _query: Sequence<char>,
        _candidates: Sequence<Sequence<char>>,
        _out: Sequence<SpecSuggestion>,
    ) -> bool {
        unreachable!()
    }

    fn suggest<'a>(&self, _q: &str, cands: &Vec<&'a str>) -> Vec<Suggestion<'a>> {
        cands
            .iter()
            .enumerate()
            .map(|(i, c)| Suggestion { candidate: c, score: (1.0 - (i as f64 * 0.1)).to_bits() })
            .collect()
    }
}

#[test]
fn enrich_default_formats_top_three() {
    let s = FixedSuggester;
    let hint = s.enrich_unknown("q", &vec!["a", "b", "c", "d", "e"]);
    assert_eq!(hint.as_deref(), Some("did you mean: a, b, c"));
}

#[test]
fn noop_handle_is_shared() {
    let h: SuggesterHandle = noop_handle();
    assert!(h.inner.suggest("x", &vec!["y"]).is_empty());
}

#[test]
fn fix_suggestion_builds_multipart() {
    let s = FixSuggestion::new(
        "replace `Alph` with `Alpha`",
        PatchPart::node(NodeId(1), "Alpha"),
        Applicability::MaybeIncorrect,
    )
    .with_part(PatchPart::field(NodeId(2), "label", "Beta"));
    assert_eq!(s.patch.len(), 2);
    assert_eq!(s.applicability, Applicability::MaybeIncorrect);
    assert_eq!(s.patch[0].node, NodeId(1));
    assert_eq!(s.patch[0].path, None);
    assert_eq!(s.patch[1].path.as_deref(), Some("label"));
    assert_eq!(s.patch[1].replacement, "Beta");
}

#[test]
fn add_deriv_suggests_add_derive() {
    let s = FuzzySuggester::default();
    let out = s.suggest("AddDeriv", &vec!["AddDerive", "AddImport", "Remove"]);
    assert!(!out.is_empty(), "expected at least one suggestion");
    assert_eq!(out[0].candidate, "AddDerive");
    assert!(f64::from_bits(out[0].score) >= 0.7);
}

#[test]
fn taget_suggests_target_via_damerau() {
    let s = FuzzySuggester::default().with_algorithm(Algorithm::DamerauLevenshtein);
    let out = s.suggest("taget", &vec!["target", "tangent", "budget"]);
    assert_eq!(out[0].candidate, "target");
}

#[test]
fn threshold_filters_far_candidates() {
    let s = FuzzySuggester::default().with_threshold(0.9f64.to_bits());
    let out = s.suggest("foo", &vec!["zzzz", "yyyy"]);
    assert!(out.is_empty());
}

#[test]
fn max_results_caps_output() {
    let s = FuzzySuggester::default().with_threshold(0.0f64.to_bits()).with_max_results(2);
    let out = s.suggest("aa", &vec!["ab", "ac", "ad", "ae"]);
    assert_eq!(out.len(), 2);
}

#[test]
fn enrich_unknown_uses_default_formatter() {
    let s = FuzzySuggester::default();
    let hint = s.enrich_unknown("AddDeriv", &vec!["AddDerive", "AddImport", "Remove"]);
    assert_eq!(hint.as_deref(), Some("did you mean: AddDerive"));
}

#[test]
fn empty_query_and_empty_candidates_yield_none() {
    let s = FuzzySuggester::default();
    assert!(s.suggest("", &vec![]).is_empty());
    assert_eq!(s.enrich_unknown("x", &vec![]), None);
}

#[test]
fn each_measure_scores_as_documented() {
    let by = |algorithm| FuzzySuggester::default().with_algorithm(algorithm);
    let jaro = f64::from_bits(by(Algorithm::JaroWinkler).score("kitten", "kitten"));
    assert_eq!(jaro, 1.0);
    let lev = f64::from_bits(by(Algorithm::Levenshtein).score("kitten", "sitting"));
    assert!((lev - (1.0 - 3.0 / 7.0)).abs() < 1e-9, "{lev}");
    let dam = f64::from_bits(by(Algorithm::DamerauLevenshtein).score("ab", "ba"));
    assert!((dam - 0.5).abs() < 1e-9, "{dam}");
    let apart = f64::from_bits(by(Algorithm::JaroWinkler).score("abc", "xyz"));
    assert_eq!(apart, 0.0);
}

#[test]
fn the_best_candidates_come_first() {
    let opts = SuggestOptions {
        algorithm: Algorithm::Levenshtein,
        threshold: 0.0f64.to_bits(),
        max_results: 10,
    };
    let s = FuzzySuggester::new(opts);
    let out = s.suggest("abcd", &vec!["wxyz", "abcx", "abcd", "abxx"]);
    let names: Vec<&str> = out.iter().map(|x| x.candidate).collect();
    assert_eq!(names, vec!["abcd", "abcx", "abxx", "wxyz"]);
}

#[test]
fn ids_paths_and_contexts_read_alike() {
    assert_eq!(NodeId(12).to_text(), "n12");
    let path = Path(vec![NodeId(1), NodeId(20)]);
    assert!(path.to_text().contains("n1"));
    assert!(path.to_text().contains("n20"));
    assert_eq!(Path::root().tip(), None);
    let at = NodeContext::at(NodeId(20), path);
    assert!(at.to_text().contains("n20"));
}

#[test]
fn sinks_remember_or_count() {
    let at = || NodeContext::at(NodeId(2), Path::root().push(NodeId(2)));
    let call = SuspendReason::Call {
        spec: CallSpec { label: "ask".to_string(), payload: serde_json::Value::Bool(true) },
    };
    let events = vec![
        Event::VisitPre { at: at() },
        Event::FrameEnter { at: at() },
        Event::IterationTick { at: at() },
        Event::Suspend { at: at(), reason: call.clone() },
        Event::Resume { at: at() },
        Event::FrameLeave { at: at() },
        Event::VisitPost { at: at() },
        Event::Cancel { id: SuspensionId(3) },
    ];
    let mut counts = CountingSink::default();
    let mut log = BufferingSink::with_capacity(2);
    assert!(log.is_empty());
    for e in &events {
        counts.emit(e);
        log.emit(e);
    }
    assert_eq!(
        counts.summarise(),
        "pre=1 post=1 frame_enter=1 frame_leave=1 iter=1 suspend=1 resume=1"
    );
    assert_eq!(log.len(), 8);
    assert!(matches!(log.snapshot()[7], Event::Cancel { id: SuspensionId(3) }));
    assert_eq!(log.drain().len(), 8);
    assert!(log.is_empty());
    log.emit(&events[0]);
    log.clear();
    assert!(log.is_empty());
    match call {
        SuspendReason::Call { spec } => {
            assert_eq!(spec.clone().payload, serde_json::Value::Bool(true));
        }
        _ => panic!("a call stays a call"),
    }
    assert_eq!(SuspendReason::Breakpoint.to_text(), "breakpoint");
}

#[test]
fn thresholds_compare_as_numbers() {
    let names = ["zzzz", "foo", "fop"];
    let listed = |threshold: f64| -> Vec<&str> {
        let s = FuzzySuggester::default().with_threshold(threshold.to_bits());
        s.suggest("foo", &names.to_vec()).iter().map(|s| s.candidate).collect()
    };
    let all = vec!["foo", "fop", "zzzz"];
    assert_eq!(listed(0.0), all);
    assert_eq!(listed(-0.0), all);
    assert_eq!(listed(-1.0), all);
    assert_eq!(listed(f64::NEG_INFINITY), all);
    assert_eq!(listed(1.0), vec!["foo"]);
    assert!(listed(1.5).is_empty());
    assert!(listed(f64::INFINITY).is_empty());
    assert!(listed(f64::NAN).is_empty());
    assert!(listed(-f64::NAN).is_empty());
    let numbers = [-1.5, -0.0, 0.0, 0.3, 1.0, f64::INFINITY, f64::NEG_INFINITY, f64::NAN];
    for a in numbers {
        for b in numbers {
            assert_eq!(reaches(a.to_bits(), b.to_bits()), a >= b, "{a} {b}");
        }
    }
}

#[test]
fn copies_are_equal() {
    let condition = BreakCondition::Any(vec![
        BreakCondition::Not(Box::new(BreakCondition::Node(NodeId(3)))),
        BreakCondition::All(vec![BreakCondition::DepthEquals(2), BreakCondition::Never]),
    ]);
    assert_eq!(condition.clone(), condition);
    let entry = engine_error_catalog().remove(0);
    assert_eq!(entry.clone(), entry);
}
