use dsl_kit::check::codes;
use dsl_kit::check::ir::{atom, fact, CheckProgram, Fact, Rule, SeqSlotDecl};
use dsl_kit::check::solver::check_semantics;
use dsl_kit::check::tree::{Location, ParseTree, Span};

fn state(name: &str) -> Fact {
    fact("state", vec![atom(name)])
}

fn plan(steps: Vec<ParseTree>) -> ParseTree {
    let mut tree = ParseTree::new("Plan");
    tree.children = vec![("steps".into(), steps)];
    tree
}

fn provisioning() -> CheckProgram {
    CheckProgram::builder()
        .seq_slot(SeqSlotDecl::fold("Plan", "steps", state("Raw")))
        .rule(
            Rule::on("Fetch")
                .requires_state(state("Raw"))
                .transitions_to(state("Fetched"))
                .message(codes::CHECK_STATE_MISMATCH, "`fetch` needs {expected}"),
        )
        .rule(
            Rule::on("Build")
                .requires_state(state("Fetched"))
                .transitions_to(state("Built"))
                .message(codes::CHECK_STATE_MISMATCH, "`build` needs {expected}"),
        )
        .rule(
            Rule::on("Deploy")
                .requires_state(state("Built"))
                .transitions_to(state("Deployed"))
                .message(
                    codes::CHECK_STATE_MISMATCH,
                    "`deploy` needs {expected}, found {found}",
                ),
        )
        .build()
}

#[test]
fn the_text_front_end_anchors_on_a_span() {
    let source = "Plan(steps: [Fetch(), Deploy(), Build()])";
    let step = |name: &str| {
        let text = format!("{name}()");
        let start = source.find(&text).expect("the step is in the source");
        let mut tree = ParseTree::new(name);
        tree.span = Some(Span::new(start, start + text.len()));
        tree
    };
    let mut tree = plan(vec![step("Fetch"), step("Deploy"), step("Build")]);
    tree.span = Some(Span::new(0, source.len()));

    let diags = check_semantics(&tree, &provisioning());
    assert_eq!(diags.len(), 1, "diags = {diags:?}");
    assert_eq!(diags[0].code, codes::CHECK_STATE_MISMATCH);

    let Location::Span(span) = diags[0].location else {
        panic!("expected a span location, got {:?}", diags[0].location);
    };
    assert_eq!(source[span.start..span.end].trim(), "Deploy()");
    assert!(
        diags[0].message.ends_with(&format!(
            "[at steps[1] (bytes {}..{})]",
            span.start, span.end
        )),
        "message = {}",
        diags[0].message
    );
}

#[test]
fn the_serde_front_end_anchors_on_the_path_trail() {
    let tree = plan(vec![
        ParseTree::new("Fetch"),
        ParseTree::new("Deploy"),
        ParseTree::new("Build"),
    ]);
    assert!(tree.span.is_none());

    let diags = check_semantics(&tree, &provisioning());
    assert_eq!(diags.len(), 1, "diags = {diags:?}");
    assert_eq!(diags[0].location, Location::Nowhere);
    assert!(
        diags[0]
            .message
            .ends_with("`deploy` needs state(Built), found state(Fetched) [at steps[1]]"),
        "message = {}",
        diags[0].message
    );
}
