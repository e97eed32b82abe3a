use dsl_kit::check::codes;
use dsl_kit::check::ir::{atom, fact, var, CheckProgram, Rule};
use dsl_kit::check::solver::check_semantics;
use dsl_kit::check::tree::{Location, ParseTree};

fn type_system() -> CheckProgram {
    CheckProgram::builder()
        .rule(
            Rule::on("IntLit")
                .concludes(fact("type", vec![atom("Int")]))
                .message(codes::CHECK_TYPE_MISMATCH, "integer literal"),
        )
        .rule(
            Rule::on("BoolLit")
                .concludes(fact("type", vec![atom("Bool")]))
                .message(codes::CHECK_TYPE_MISMATCH, "boolean literal"),
        )
        .rule(
            Rule::on("Add")
                .child("lhs", fact("type", vec![atom("Int")]))
                .child("rhs", fact("type", vec![atom("Int")]))
                .concludes(fact("type", vec![atom("Int")]))
                .message(
                    codes::CHECK_TYPE_MISMATCH,
                    "`add` operand {slot} must be {expected}, found {found} (from {provenance})",
                ),
        )
        .rule(
            Rule::on("If")
                .child("cond", fact("type", vec![atom("Bool")]))
                .child("then_branch", fact("type", vec![var("a")]))
                .child("else_branch", fact("type", vec![var("a")]))
                .concludes(fact("type", vec![var("a")]))
                .message(
                    codes::CHECK_TYPE_MISMATCH,
                    "`if` {slot} must be {expected}, found {found} (from {provenance})",
                ),
        )
        .build()
}

fn leaf(variant: &str) -> ParseTree {
    ParseTree::new(variant)
}

fn node(variant: &str, slots: Vec<(&str, ParseTree)>) -> ParseTree {
    let mut tree = ParseTree::new(variant);
    tree.children = slots
        .into_iter()
        .map(|(name, child)| (name.to_string(), vec![child]))
        .collect();
    tree
}

fn if_node(cond: ParseTree, then_branch: ParseTree, else_branch: ParseTree) -> ParseTree {
    node(
        "If",
        vec![
            ("cond", cond),
            ("then_branch", then_branch),
            ("else_branch", else_branch),
        ],
    )
}

#[test]
fn well_typed_document_is_silent() {
    let program = type_system();

    let plain = if_node(leaf("BoolLit"), leaf("IntLit"), leaf("IntLit"));
    assert!(check_semantics(&plain, &program).is_empty());

    let nested = node(
        "Add",
        vec![
            (
                "lhs",
                if_node(leaf("BoolLit"), leaf("IntLit"), leaf("IntLit")),
            ),
            ("rhs", leaf("IntLit")),
        ],
    );
    assert!(check_semantics(&nested, &program).is_empty());
}

#[test]
fn condition_must_be_bool() {
    let program = type_system();
    let tree = node(
        "Add",
        vec![
            ("lhs", leaf("IntLit")),
            (
                "rhs",
                if_node(leaf("IntLit"), leaf("IntLit"), leaf("IntLit")),
            ),
        ],
    );

    let diags = check_semantics(&tree, &program);
    assert_eq!(diags.len(), 1, "diags = {diags:?}");
    assert_eq!(diags[0].code, codes::CHECK_TYPE_MISMATCH);
    assert!(
        diags[0]
            .message
            .starts_with("`if` cond must be type(Bool), found type(Int)"),
        "message = {}",
        diags[0].message
    );
    assert!(
        diags[0].message.contains("(from rhs[0].cond[0])"),
        "message = {}",
        diags[0].message
    );
    assert!(
        diags[0].message.ends_with("[at rhs[0]]"),
        "message = {}",
        diags[0].message
    );
    assert_eq!(diags[0].location, Location::Nowhere);
}

#[test]
fn branches_must_agree() {
    let program = type_system();
    let tree = if_node(leaf("BoolLit"), leaf("IntLit"), leaf("BoolLit"));

    let diags = check_semantics(&tree, &program);
    assert_eq!(diags.len(), 1, "diags = {diags:?}");
    assert_eq!(diags[0].code, codes::CHECK_TYPE_MISMATCH);
    assert!(
        diags[0]
            .message
            .starts_with("`if` else_branch must be type(Int), found type(Bool)"),
        "message = {}",
        diags[0].message
    );
    assert!(
        diags[0].message.contains("(from else_branch[0])"),
        "message = {}",
        diags[0].message
    );
}

#[test]
fn add_operands_must_be_int() {
    let program = type_system();
    let tree = node(
        "Add",
        vec![("lhs", leaf("IntLit")), ("rhs", leaf("BoolLit"))],
    );

    let diags = check_semantics(&tree, &program);
    assert_eq!(diags.len(), 1, "diags = {diags:?}");
    assert_eq!(diags[0].code, codes::CHECK_TYPE_MISMATCH);
    assert!(
        diags[0]
            .message
            .starts_with("`add` operand rhs must be type(Int), found type(Bool)"),
        "message = {}",
        diags[0].message
    );
    assert!(
        diags[0].message.ends_with("[at (root)]"),
        "message = {}",
        diags[0].message
    );
}

#[test]
fn un_annotated_variants_stay_out_of_the_way() {
    let program = type_system();
    let tree = node(
        "Add",
        vec![("lhs", leaf("IntLit")), ("rhs", leaf("Unknown"))],
    );
    assert!(check_semantics(&tree, &program).is_empty());
}

#[test]
fn a_failed_node_does_not_cascade() {
    let program = type_system();
    let tree = node(
        "Add",
        vec![
            ("lhs", leaf("IntLit")),
            (
                "rhs",
                if_node(leaf("BoolLit"), leaf("IntLit"), leaf("BoolLit")),
            ),
        ],
    );

    let diags = check_semantics(&tree, &program);
    assert_eq!(diags.len(), 1, "diags = {diags:?}");
    assert!(
        diags[0].message.starts_with("`if` else_branch"),
        "message = {}",
        diags[0].message
    );
}

#[test]
fn a_well_typed_branch_of_the_wrong_type_is_still_reported() {
    let program = type_system();
    let tree = node(
        "Add",
        vec![
            (
                "lhs",
                if_node(leaf("BoolLit"), leaf("BoolLit"), leaf("BoolLit")),
            ),
            ("rhs", leaf("IntLit")),
        ],
    );

    let diags = check_semantics(&tree, &program);
    assert_eq!(diags.len(), 1, "diags = {diags:?}");
    assert!(
        diags[0]
            .message
            .starts_with("`add` operand lhs must be type(Int), found type(Bool)"),
        "message = {}",
        diags[0].message
    );
    assert!(
        diags[0].message.contains("(from lhs[0])"),
        "message = {}",
        diags[0].message
    );
}
