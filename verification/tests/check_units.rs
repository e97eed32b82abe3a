use dsl_kit::math::{Sequence};
use dsl_kit::suggest::SpecSuggestion;
use dsl_kit::check::codes;
use dsl_kit::check::hint::{first_disagreement, Vocabulary};
use dsl_kit::check::ir::{
    atom, ctor, fact, field_ref, var, CheckProgram, Fact, MessageTemplate, Rule, SeqMode,
    SeqSlotDecl, Term,
};
use dsl_kit::check::message::{child_path, location_label, render_template, MsgCtx};
use dsl_kit::check::solver::{check_semantics, ground_field_refs};
use dsl_kit::check::tree::{ParseTree, RawValue, Span};
use dsl_kit::check::unify::{apply, may_unify_fact, unify, unify_fact, Bindings};
use dsl_kit::check::validate::reachable_summary;
use dsl_kit::suggest::{Suggester, Suggestion};

struct PrefixSuggester;

impl Suggester for PrefixSuggester {
    fn may_suggest(
        &self,
        _query: Sequence<char>,
        _candidates: Sequence<Sequence<char>>,
        _out: Sequence<SpecSuggestion>,
    ) -> bool {
        unreachable!()
    }

    fn suggest<'a>(&self, query: &str, candidates: &Vec<&'a str>) -> Vec<Suggestion<'a>> {
        let head: String = query.chars().take(3).collect();
        candidates
            .iter()
            .filter(|c| c.starts_with(&head))
            .map(|c| Suggestion {
                candidate: c,
                score: 0.9f64.to_bits(),
            })
            .collect()
    }
}

fn services() -> CheckProgram {
    CheckProgram::builder()
        .seq_slot(SeqSlotDecl::fold(
            "Plan",
            "steps",
            fact("state", vec![atom("Raw")]),
        ))
        .rule(
            Rule::on("Service")
                .requires_state(fact("state", vec![atom("Ready")]))
                .transitions_to(fact("state", vec![ctor("ServiceRunning", vec![field_ref("name")])]))
                .message(codes::CHECK_STATE_MISMATCH, "unused"),
        )
        .rule(
            Rule::on("Probe")
                .requires_state(fact("state", vec![ctor("ServiceRunning", vec![var("target")])]))
                .message(codes::CHECK_STATE_MISMATCH, "unused"),
        )
        .build()
}

#[test]
fn the_program_supplies_its_ground_names_only() {
    let vocab = Vocabulary::of_program(&services());
    assert_eq!(
        vocab.atoms,
        ["Raw", "Ready"].map(String::from).into_iter().collect::<Vec<_>>()
    );
    assert_eq!(
        vocab.ctors,
        ["ServiceRunning"].map(String::from).into_iter().collect::<Vec<_>>()
    );
}

#[test]
fn the_document_supplies_the_handle_the_program_cannot_know() {
    let vocab = Vocabulary::of_program(&services());
    let hint = vocab.did_you_mean(
        &fact("state", vec![ctor("ServiceRunning", vec![atom("comfy")])]),
        &fact("state", vec![ctor("ServiceRunning", vec![atom("comfyui")])]),
        &PrefixSuggester,
    );
    assert_eq!(hint.as_deref(), Some("did you mean: comfyui"));
}

#[test]
fn a_constructor_name_is_matched_against_constructor_names() {
    let vocab = Vocabulary::of_program(&services());
    let hint = vocab.did_you_mean(
        &fact("state", vec![ctor("ServiceRunnin", vec![atom("x")])]),
        &fact("state", vec![ctor("Stopped", vec![atom("x")])]),
        &PrefixSuggester,
    );
    assert_eq!(hint.as_deref(), Some("did you mean: ServiceRunning"));
}

#[test]
fn structural_disagreements_get_no_spelling_advice() {
    let vocab = Vocabulary::of_program(&services());
    assert!(
        vocab
            .did_you_mean(
                &fact("state", vec![atom("Ready")]),
                &fact("type", vec![atom("Read")]),
                &PrefixSuggester
            )
            .is_none()
    );
    assert!(
        vocab
            .did_you_mean(
                &fact("state", vec![atom("Ready")]),
                &fact("state", vec![atom("Read"), atom("Read")]),
                &PrefixSuggester
            )
            .is_none()
    );
    assert!(
        vocab
            .did_you_mean(
                &fact("state", vec![atom("ServiceRunning")]),
                &fact("state", vec![ctor("ServiceRunning", vec![atom("x")])]),
                &PrefixSuggester
            )
            .is_none()
    );
}

#[test]
fn nothing_close_yields_no_hint() {
    let vocab = Vocabulary::of_program(&services());
    assert!(
        vocab
            .did_you_mean(
                &fact("state", vec![atom("Zzz")]),
                &fact("state", vec![atom("Raw")]),
                &PrefixSuggester
            )
            .is_none()
    );
}

#[test]
fn a_matching_pair_is_not_reported_as_a_disagreement() {
    assert!(
        first_disagreement(
            &fact("state", vec![ctor("ServiceRunning", vec![atom("a")])]),
            &fact("state", vec![ctor("ServiceRunning", vec![atom("a")])]),
        )
        .is_none()
    );
    assert!(
        first_disagreement(&fact("state", vec![var("x")]), &fact("state", vec![atom("Raw")])).is_none()
    );
    assert!(may_unify_fact(
        &fact("state", vec![var("x")]),
        &fact("state", vec![atom("Raw")])
    ));
}

#[test]
fn terms_render_readably() {
    assert_eq!(atom("Int").to_text(), "Int");
    assert_eq!(var("a").to_text(), "$a");
    assert_eq!(field_ref("name").to_text(), "@name");
    assert_eq!(
        ctor("ServiceRunning", vec![atom("comfyui")]).to_text(),
        "ServiceRunning(comfyui)"
    );
    assert_eq!(fact("type", vec![atom("Bool")]).to_text(), "type(Bool)");
    assert_eq!(fact("ready", vec![]).to_text(), "ready");
}

#[test]
fn builder_and_literal_agree() {
    let built = CheckProgram::builder()
        .rule(
            Rule::on("Lit")
                .concludes(fact("type", vec![atom("Int")]))
                .message(codes::CHECK_TYPE_MISMATCH, "unused"),
        )
        .fold_slot("Plan", "steps", fact("state", vec![atom("Raw")]))
        .build();

    let literal = CheckProgram {
        rules: vec![Rule {
            variant: "Lit".into(),
            premises: vec![],
            conclusion: Some(Fact::new("type", vec![atom("Int")])),
            state_after: None,
            message: MessageTemplate::new(codes::CHECK_TYPE_MISMATCH, "unused"),
        }],
        seq_slots: vec![SeqSlotDecl {
            variant: "Plan".into(),
            slot: "steps".into(),
            initial: Fact::new("state", vec![atom("Raw")]),
            mode: SeqMode::Fold,
        }],
    };

    assert_eq!(built, literal);
    assert_eq!(built.rules_for("Lit").len(), 1);
    assert_eq!(built.rules_for("Nope").len(), 0);
    assert!(built.seq_slot("Plan", "steps").is_some());
    assert!(built.seq_slot("Plan", "other").is_none());
}

fn binds(pairs: &[(&str, Term)]) -> Bindings {
    let mut out = Bindings::new();
    for (k, v) in pairs {
        out.insert((*k).to_string(), v.clone());
    }
    out
}

#[test]
fn unify_binds_variables_and_rejects_mismatches() {
    let mut b = Bindings::new();
    assert!(unify_fact(
        &fact("type", vec![var("a")]),
        &fact("type", vec![atom("Int")]),
        &mut b
    ));
    assert_eq!(b.get("a"), Some(&atom("Int")));

    assert!(!unify_fact(
        &fact("type", vec![var("a")]),
        &fact("type", vec![atom("Bool")]),
        &mut b
    ));

    let mut b = Bindings::new();
    assert!(!unify_fact(
        &fact("type", vec![atom("Int")]),
        &fact("state", vec![atom("Int")]),
        &mut b
    ));
    assert!(!unify_fact(
        &fact("type", vec![atom("Int")]),
        &fact("type", vec![atom("Int"), atom("Int")]),
        &mut b
    ));
}

#[test]
fn unify_walks_into_constructors() {
    let mut b = Bindings::new();
    assert!(unify(
        &ctor("Running", vec![var("n")]),
        &ctor("Running", vec![atom("comfyui")]),
        &mut b
    ));
    assert_eq!(b.get("n"), Some(&atom("comfyui")));
    assert!(!unify(
        &ctor("Running", vec![atom("a")]),
        &ctor("Stopped", vec![atom("a")]),
        &mut Bindings::new()
    ));
}

#[test]
fn field_refs_are_unknown_until_grounded() {
    assert!(unify(
        &Term::FieldRef("name".into()),
        &atom("comfyui"),
        &mut Bindings::new()
    ));

    let mut node = ParseTree::new("Service");
    node.fields = vec![("name".into(), RawValue::Text("comfyui".into()))];
    let grounded = ground_field_refs(&Term::FieldRef("name".into()), &node);
    assert_eq!(grounded, atom("comfyui"));
    assert!(!unify(&grounded, &atom("other"), &mut Bindings::new()));
}

#[test]
fn template_holes_expand() {
    let b = binds(&[("a", atom("Int"))]);
    let ctx = MsgCtx {
        slot: Some("cond"),
        expected: "type(Bool)",
        found: "type(Int)",
        provenance: "cond[0] (bytes 3..8)",
        bindings: &b,
    };
    assert_eq!(
        render_template(
            "{slot}: want {expected}, got {found} from {provenance}; $a = {$a}, $z = {$z}",
            &ctx
        ),
        "cond: want type(Bool), got type(Int) from cond[0] (bytes 3..8); $a = Int, $z = ?"
    );
    assert_eq!(render_template("{nope} {oops", &ctx), "{nope} {oops");
}

#[test]
fn paths_and_labels_read_like_the_document() {
    assert_eq!(child_path("", "steps", "3"), "steps[3]");
    assert_eq!(child_path("steps[3]", "argv", "0"), "steps[3].argv[0]");
    assert_eq!(location_label("", None), "(root)");
    assert_eq!(
        location_label("steps[1]", Some(Span::new(4, 9))),
        "steps[1] (bytes 4..9)"
    );
}

fn state(name: &str) -> Fact {
    fact("state", vec![atom(name)])
}

#[test]
fn producers_cover_both_seeds_and_transitions() {
    let program = CheckProgram::builder()
        .seq_slot(SeqSlotDecl::fold("Plan", "steps", state("Raw")))
        .rule(
            Rule::on("Fetch")
                .transitions_to(state("Fetched"))
                .message(codes::CHECK_STATE_MISMATCH, "unused"),
        )
        .build();

    let producers = program.state_producers();
    assert_eq!(producers.len(), 2);
    assert!(
        producers
            .iter()
            .any(|f| may_unify_fact(&state("Raw"), f))
    );
    assert!(
        producers
            .iter()
            .any(|f| may_unify_fact(&state("Fetched"), f))
    );
    assert!(
        !producers
            .iter()
            .any(|f| may_unify_fact(&state("Built"), f))
    );
}

#[test]
fn the_summary_lists_only_the_matching_predicate() {
    let type_int = fact("type", vec![atom("Int")]);
    let (raw, built) = (state("Raw"), state("Built"));
    let producers = vec![&raw, &built, &type_int];
    assert_eq!(
        reachable_summary(&producers, "state"),
        " (reachable: state(Built), state(Raw))"
    );
    assert_eq!(reachable_summary(&producers, "cap"), "");
}

#[test]
fn equalities_and_inequalities_are_premises() {
    let same = Rule::on("Pair")
        .eq(field_ref("left"), field_ref("right"))
        .message(codes::CHECK_PREMISE_FAILED, "{expected} is not {found}");
    let apart = Rule::on("Edge")
        .neq(field_ref("from"), field_ref("to"))
        .message(codes::CHECK_PREMISE_FAILED, "a loop at {expected}");
    let program = CheckProgram::builder().rule(same).rule(apart).build();
    let node = |variant: &str, a: (&str, &str), b: (&str, &str)| {
        let mut tree = ParseTree::new(variant);
        tree.fields = vec![
            (a.0.to_string(), RawValue::Text(a.1.to_string())),
            (b.0.to_string(), RawValue::Text(b.1.to_string())),
        ];
        tree
    };
    let found = |tree: &ParseTree| check_semantics(tree, &program).len();
    assert_eq!(found(&node("Pair", ("left", "a"), ("right", "a"))), 0);
    assert_eq!(found(&node("Pair", ("left", "a"), ("right", "b"))), 1);
    assert_eq!(found(&node("Edge", ("from", "a"), ("to", "b"))), 0);
    assert_eq!(found(&node("Edge", ("from", "a"), ("to", "a"))), 1);
    assert_eq!(found(&ParseTree::new("Edge")), 0);
}

#[test]
fn json_payloads_ground_to_their_contents() {
    let mut node = ParseTree::new("Service");
    node.fields = vec![
        ("name".to_string(), RawValue::Json("\"com\\u0066y\"".to_string())),
        ("port".to_string(), RawValue::Json("8188".to_string())),
    ];
    assert_eq!(ground_field_refs(&field_ref("name"), &node), atom("comfy"));
    assert_eq!(ground_field_refs(&field_ref("port"), &node), atom("8188"));
    assert_eq!(ground_field_refs(&field_ref("host"), &node), field_ref("host"));
    assert_eq!(
        ground_field_refs(&ctor("At", vec![field_ref("port"), var("x")]), &node),
        ctor("At", vec![atom("8188"), var("x")])
    );
}

#[test]
fn the_first_rule_that_holds_decides() {
    let kind = |name: &str| fact("kind", vec![atom(name)]);
    let program = CheckProgram::builder()
        .rule(Rule::on("Leaf").concludes(kind("leaf")).message(codes::CHECK_TYPE_MISMATCH, ""))
        .rule(
            Rule::on("Box")
                .child("item", kind("box"))
                .concludes(kind("nested"))
                .message(codes::CHECK_TYPE_MISMATCH, "not nested"),
        )
        .rule(
            Rule::on("Box")
                .child("item", kind("leaf"))
                .concludes(kind("simple"))
                .message(codes::CHECK_TYPE_MISMATCH, "not simple"),
        )
        .rule(Rule::on("Box").concludes(kind("any")).message(codes::CHECK_TYPE_MISMATCH, ""))
        .rule(
            Rule::on("Shelf")
                .child("box", kind("simple"))
                .message(codes::CHECK_TYPE_MISMATCH, "found {found}"),
        )
        .build();
    let holding = |variant: &str, slot: &str, child: ParseTree| {
        let mut tree = ParseTree::new(variant);
        tree.children = vec![(slot.to_string(), vec![child])];
        tree
    };
    let simple = holding("Box", "item", ParseTree::new("Leaf"));
    assert!(check_semantics(&holding("Shelf", "box", simple), &program).is_empty());
    let nested = holding("Box", "item", holding("Box", "item", ParseTree::new("Leaf")));
    let found = check_semantics(&holding("Shelf", "box", nested), &program);
    assert_eq!(found.len(), 1);
    assert_eq!(found[0].message, "found kind(any) [at (root)]");
}

#[test]
fn the_failure_that_got_furthest_is_reported() {
    let is = |name: &str| fact("is", vec![atom(name)]);
    let program = CheckProgram::builder()
        .rule(Rule::on("A").concludes(is("a")).message(codes::CHECK_TYPE_MISMATCH, ""))
        .rule(
            Rule::on("Pair")
                .child("left", is("b"))
                .child("right", is("a"))
                .message(codes::CHECK_TYPE_MISMATCH, "at once"),
        )
        .rule(
            Rule::on("Pair")
                .child("left", is("a"))
                .child("right", is("b"))
                .message(codes::CHECK_TYPE_MISMATCH, "further on"),
        )
        .rule(
            Rule::on("Pair")
                .child("right", is("a"))
                .child("left", is("b"))
                .message(codes::CHECK_TYPE_MISMATCH, "as far, but later"),
        )
        .build();
    let mut pair = ParseTree::new("Pair");
    pair.children = vec![
        ("left".to_string(), vec![ParseTree::new("A")]),
        ("right".to_string(), vec![ParseTree::new("A")]),
    ];
    let found = check_semantics(&pair, &program);
    assert_eq!(found.len(), 1);
    assert_eq!(found[0].message, "further on [at (root)]");
}

#[test]
fn variables_of_two_rules_are_not_confused() {
    let s = |t: Term| fact("state", vec![t]);
    let w = |t: Term| ctor("W", vec![t]);
    let program = CheckProgram::builder()
        .fold_slot("Plan", "steps", s(atom("Raw")))
        .rule(
            Rule::on("Wrap")
                .requires_state(s(var("x")))
                .transitions_to(s(w(var("x"))))
                .message(codes::CHECK_STATE_MISMATCH, "m"),
        )
        .rule(
            Rule::on("Open")
                .requires_state(s(w(w(var("x")))))
                .message(codes::CHECK_STATE_MISMATCH, "m"),
        )
        .build();
    assert!(program.validate().is_empty());
    let mut plan = ParseTree::new("Plan");
    plan.children = vec![(
        "steps".to_string(),
        vec![ParseTree::new("Wrap"), ParseTree::new("Wrap"), ParseTree::new("Open")],
    )];
    assert!(check_semantics(&plan, &program).is_empty());
    assert!(may_unify_fact(&s(w(var("x"))), &s(var("x"))));
    assert!(!may_unify_fact(&s(w(var("x"))), &s(ctor("V", vec![var("x")]))));
}

#[test]
fn bindings_never_run_in_a_ring() {
    let mut b = binds(&[("x", ctor("f", vec![var("y")]))]);
    assert!(!unify(&var("y"), &ctor("f", vec![var("x")]), &mut b));
    assert!(b.get("y").is_none());
    assert!(!unify(&var("y"), &ctor("f", vec![var("y")]), &mut Bindings::new()));
    let mut b = Bindings::new();
    assert!(unify(&var("y"), &var("y"), &mut b));
    assert!(b.get("y").is_none());
}

#[test]
fn a_long_chain_of_variables_is_followed_to_its_end() {
    let name = |i: usize| format!("v{i}");
    let mut b = Bindings::new();
    for i in 0..100 {
        assert!(unify(&var(&name(i)), &var(&name(i + 1)), &mut b));
    }
    assert!(unify(&var("v0"), &atom("A"), &mut b));
    assert_eq!(b.get("v0"), Some(&var("v1")));
    assert_eq!(b.get("v64"), Some(&var("v65")));
    assert_eq!(b.get("v100"), Some(&atom("A")));
    assert!(!unify(&var("v1"), &atom("B"), &mut b));
    assert!(unify(&var("v50"), &atom("A"), &mut b));
}

#[test]
fn terms_that_unify_are_equal_under_the_bindings() {
    let mut b = Bindings::new();
    let left = ctor("f", vec![var("x"), ctor("g", vec![var("y")])]);
    let right = ctor("f", vec![ctor("h", vec![var("y")]), ctor("g", vec![atom("A")])]);
    assert!(unify(&left, &right, &mut b));
    let both = ctor("f", vec![ctor("h", vec![atom("A")]), ctor("g", vec![atom("A")])]);
    assert_eq!(apply(&left, &b), both);
    assert_eq!(apply(&right, &b), both);
}

#[test]
fn a_slot_declared_for_all_is_an_undeclared_one() {
    let rules = || {
        CheckProgram::builder()
            .fold_slot("Plan", "steps", state("Raw"))
            .rule(
                Rule::on("Need")
                    .requires_state(state("Done"))
                    .transitions_to(state("Done"))
                    .message(codes::CHECK_STATE_MISMATCH, "found {found}"),
            )
    };
    let plain = rules().build();
    let declared = rules().seq_slot(SeqSlotDecl::all("Group", "items", state("Done"))).build();
    let folded = rules().seq_slot(SeqSlotDecl::fold("Group", "items", state("Done"))).build();
    let mut group = ParseTree::new("Group");
    group.children =
        vec![("items".to_string(), vec![ParseTree::new("Need"), ParseTree::new("Need")])];
    let mut plan = ParseTree::new("Plan");
    plan.children = vec![("steps".to_string(), vec![group])];
    let texts = |p: &CheckProgram| -> Vec<String> {
        check_semantics(&plan, p).into_iter().map(|d| d.message).collect()
    };
    assert_eq!(
        texts(&plain),
        [
            "found state(Raw) [at steps[0].items[0]]",
            "found state(Raw) [at steps[0].items[1]]",
        ]
    );
    assert_eq!(texts(&declared), texts(&plain));
    assert!(texts(&folded).is_empty());
}
