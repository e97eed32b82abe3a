use dsl_kit::check::codes;
use dsl_kit::check::ir::{atom, fact, CheckProgram, Fact, Rule, SeqSlotDecl};
use dsl_kit::check::solver::check_semantics;
use dsl_kit::check::tree::ParseTree;

fn state(name: &str) -> Fact {
    fact("state", vec![atom(name)])
}

fn provisioning() -> CheckProgram {
    CheckProgram::builder()
        .seq_slot(SeqSlotDecl::fold("Plan", "steps", state("Raw")))
        .rule(
            Rule::on("Fetch")
                .requires_state(state("Raw"))
                .transitions_to(state("Fetched"))
                .message(
                    codes::CHECK_STATE_MISMATCH,
                    "`fetch` needs {expected} but the plan is at {found} (set by {provenance})",
                ),
        )
        .rule(
            Rule::on("Build")
                .requires_state(state("Fetched"))
                .transitions_to(state("Built"))
                .message(
                    codes::CHECK_STATE_MISMATCH,
                    "`build` needs {expected} but the plan is at {found} (set by {provenance})",
                ),
        )
        .rule(
            Rule::on("Deploy")
                .requires_state(state("Built"))
                .transitions_to(state("Deployed"))
                .message(
                    codes::CHECK_STATE_MISMATCH,
                    "`deploy` needs {expected} but the plan is at {found} (set by {provenance})",
                ),
        )
        .build()
}

fn plan(steps: &[&str]) -> ParseTree {
    let mut tree = ParseTree::new("Plan");
    tree.children = vec![(
        "steps".into(),
        steps.iter().map(|s| ParseTree::new(*s)).collect(),
    )];
    tree
}

#[test]
fn state_trace_the_intended_order_passes() {
    assert!(check_semantics(&plan(&["Fetch", "Build", "Deploy"]), &provisioning()).is_empty());
}

#[test]
fn a_swapped_pair_is_reported_once() {
    let diags = check_semantics(&plan(&["Fetch", "Deploy", "Build"]), &provisioning());

    assert_eq!(diags.len(), 1, "diags = {diags:?}");
    assert_eq!(diags[0].code, codes::CHECK_STATE_MISMATCH);
    assert!(
        diags[0]
            .message
            .starts_with("`deploy` needs state(Built) but the plan is at state(Fetched)"),
        "message = {}",
        diags[0].message
    );
    assert!(
        diags[0].message.contains("(set by steps[0])"),
        "message = {}",
        diags[0].message
    );
    assert!(
        diags[0].message.ends_with("[at steps[1]]"),
        "message = {}",
        diags[0].message
    );
}

#[test]
fn the_seed_state_names_itself() {
    let diags = check_semantics(&plan(&["Build"]), &provisioning());

    assert_eq!(diags.len(), 1, "diags = {diags:?}");
    assert!(
        diags[0]
            .message
            .starts_with("`build` needs state(Fetched) but the plan is at state(Raw)"),
        "message = {}",
        diags[0].message
    );
    assert!(
        diags[0].message.contains("(set by <initial>)"),
        "message = {}",
        diags[0].message
    );
}

#[test]
fn a_failed_step_does_not_move_the_state() {
    let diags = check_semantics(&plan(&["Build", "Deploy"]), &provisioning());

    assert_eq!(diags.len(), 2, "diags = {diags:?}");
    assert!(diags[0].message.starts_with("`build` needs state(Fetched)"));
    assert!(
        diags[1]
            .message
            .starts_with("`deploy` needs state(Built) but the plan is at state(Raw)"),
        "message = {}",
        diags[1].message
    );
}

#[test]
fn a_step_outside_a_declared_fold_has_no_state_to_violate() {
    let mut tree = ParseTree::new("Unfolded");
    tree.children = vec![("steps".into(), vec![ParseTree::new("Deploy")])];
    assert!(check_semantics(&tree, &provisioning()).is_empty());
}

#[test]
fn each_declared_fold_starts_over() {
    let mut outer = ParseTree::new("Workspace");
    outer.children = vec![(
        "plans".into(),
        vec![
            plan(&["Fetch", "Build"]),
            plan(&["Deploy"]),
            plan(&["Fetch", "Build", "Deploy"]),
        ],
    )];

    let diags = check_semantics(&outer, &provisioning());
    assert_eq!(diags.len(), 1, "diags = {diags:?}");
    assert!(
        diags[0].message.ends_with("[at plans[1].steps[0]]"),
        "message = {}",
        diags[0].message
    );
}
