use dsl_kit::check::codes;
use dsl_kit::check::ir::{atom, ctor, fact, field_ref, CheckProgram, Rule, SeqSlotDecl};
use dsl_kit::check::solver::{check_semantics, check_semantics_with};
use dsl_kit::check::tree::{ParseTree, RawValue};
use dsl_kit::fuzzy::FuzzySuggester;

fn deployment() -> CheckProgram {
    CheckProgram::builder()
        .seq_slot(SeqSlotDecl::fold(
            "Plan",
            "steps",
            fact("state", vec![atom("Raw")]),
        ))
        .rule(
            Rule::on("Provision")
                .requires_state(fact("state", vec![atom("Raw")]))
                .transitions_to(fact("state", vec![ctor("Env", vec![field_ref("env")])]))
                .message(codes::CHECK_STATE_MISMATCH, "`provision` starts a plan"),
        )
        .rule(
            Rule::on("Deploy")
                .requires_state(fact("state", vec![ctor("Env", vec![field_ref("target")])]))
                .message(
                    codes::CHECK_STATE_MISMATCH,
                    "`deploy` targets {expected}, but the plan is at {found} (from {provenance})",
                ),
        )
        .build()
}

fn step(variant: &str, field: &str, value: &str) -> ParseTree {
    let mut tree = ParseTree::new(variant);
    tree.fields = vec![(field.to_string(), RawValue::Text(value.to_string()))];
    tree
}

fn plan(steps: Vec<ParseTree>) -> ParseTree {
    let mut tree = ParseTree::new("Plan");
    tree.children = vec![("steps".into(), steps)];
    tree
}

#[test]
fn the_handle_the_document_produced_is_offered_back() {
    let doc = plan(vec![
        step("Provision", "env", "staging"),
        step("Deploy", "target", "stagin"),
    ]);

    let diags = check_semantics_with(&doc, &deployment(), &FuzzySuggester::default());
    assert_eq!(diags.len(), 1, "diags = {diags:?}");
    assert!(
        diags[0].message.starts_with(
            "`deploy` targets state(Env(stagin)), but the plan is at state(Env(staging))"
        ),
        "message = {}",
        diags[0].message
    );
    assert!(
        diags[0].message.contains("did you mean: staging"),
        "message = {}",
        diags[0].message
    );
}

#[test]
fn the_plain_entry_point_adds_nothing() {
    let doc = plan(vec![
        step("Provision", "env", "staging"),
        step("Deploy", "target", "stagin"),
    ]);

    let diags = check_semantics(&doc, &deployment());
    assert_eq!(diags.len(), 1, "diags = {diags:?}");
    assert!(
        !diags[0].message.contains("did you mean"),
        "message = {}",
        diags[0].message
    );
}

#[test]
fn a_misspelt_rule_atom_is_matched_against_the_program() {
    let program = CheckProgram::builder()
        .rule(
            Rule::on("IntLit")
                .concludes(fact("type", vec![atom("Int")]))
                .message(codes::CHECK_TYPE_MISMATCH, "integer literal"),
        )
        .rule(
            Rule::on("BoolLit")
                .concludes(fact("type", vec![atom("Bool")]))
                .message(codes::CHECK_TYPE_MISMATCH, "boolean literal"),
        )
        .rule(
            Rule::on("Neg")
                .child("arg", fact("type", vec![atom("Intt")]))
                .concludes(fact("type", vec![atom("Int")]))
                .message(
                    codes::CHECK_TYPE_MISMATCH,
                    "`neg` wants {expected}, got {found}",
                ),
        )
        .build();

    let mut tree = ParseTree::new("Neg");
    tree.children = vec![("arg".into(), vec![ParseTree::new("IntLit")])];

    let diags = check_semantics_with(&tree, &program, &FuzzySuggester::default());
    assert_eq!(diags.len(), 1, "diags = {diags:?}");
    assert!(
        diags[0]
            .message
            .starts_with("`neg` wants type(Intt), got type(Int)"),
        "message = {}",
        diags[0].message
    );
    assert!(
        diags[0].message.contains("did you mean: Int"),
        "message = {}",
        diags[0].message
    );
}

#[test]
fn an_ordinary_type_disagreement_gets_no_spelling_advice() {
    let program = CheckProgram::builder()
        .rule(
            Rule::on("BoolLit")
                .concludes(fact("type", vec![atom("Bool")]))
                .message(codes::CHECK_TYPE_MISMATCH, "boolean literal"),
        )
        .rule(
            Rule::on("Neg")
                .child("arg", fact("type", vec![atom("Int")]))
                .concludes(fact("type", vec![atom("Int")]))
                .message(
                    codes::CHECK_TYPE_MISMATCH,
                    "`neg` wants {expected}, got {found}",
                ),
        )
        .build();

    let mut tree = ParseTree::new("Neg");
    tree.children = vec![("arg".into(), vec![ParseTree::new("BoolLit")])];

    let diags = check_semantics_with(&tree, &program, &FuzzySuggester::default());
    assert_eq!(diags.len(), 1, "diags = {diags:?}");
    assert!(
        !diags[0].message.contains("did you mean"),
        "message = {}",
        diags[0].message
    );
}
