use dsl_kit::check::codes;
use dsl_kit::check::ir::{atom, ctor, fact, field_ref, var, CheckProgram, Premise, SeqMode};
use dsl_kit::check::solver::{check_semantics, check_semantics_with};
use dsl_kit::check::tree::{ParseTree, RawValue};
use dsl_kit::derive::check::{
    derive_dsl_check, dsl_check_attrs, dsl_check_fold_attr, validate_check_attrs,
    CheckPremiseDecl, DslCheckAttrs,
};
use dsl_kit::derive::decl::{
    ArgList, AttrDecl, FieldDecl, FieldsDecl, InputDecl, MetaDecl, MetaValue, PathDecl, TypeDecl,
    VariantDecl,
};
use dsl_kit::derive::construct::{derive_dsl_build, BuildRoute};
use dsl_kit::derive::dump::{derive_dsl_dump, DumpRoute};
use dsl_kit::derive::exec::{derive_dsl_exec, ExecKind, PayloadPlan};
use dsl_kit::derive::fact::{parse_check_fact, CheckFactDecl, CheckTermDecl};
use dsl_kit::derive::node::derive_dsl_node;
use dsl_kit::derive::schema::derive_dsl_schema;
use dsl_kit::derive::shape::{
    detect_recursion, detect_scalar_map, normalize_type_str, payload_shape, PayloadShape,
    Recursion,
};
use dsl_kit::fuzzy::FuzzySuggester;
use dsl_kit::refdsl::Ref;
use dsl_kit::schema::{ChildValueShape, DslSchema, Multiplicity, ScalarKind};
use quote::ToTokens;

fn type_decl(ty: &syn::Type) -> TypeDecl {
    let text = ty.to_token_stream().to_string();
    let syn::Type::Path(path) = ty else {
        return TypeDecl::Opaque { text };
    };
    let Some(last) = path.path.segments.last() else {
        return TypeDecl::Opaque { text };
    };
    let args = match &last.arguments {
        syn::PathArguments::None => ArgList::Absent,
        syn::PathArguments::AngleBracketed(list) => ArgList::Angle(
            list.args
                .iter()
                .map(|arg| match arg {
                    syn::GenericArgument::Type(ty) => Some(type_decl(ty)),
                    _ => None,
                })
                .collect(),
        ),
        syn::PathArguments::Parenthesized(_) => ArgList::Paren,
    };
    TypeDecl::Named { name: last.ident.to_string(), args, text }
}

fn meta_decl(meta: syn::meta::ParseNestedMeta<'_>) -> syn::Result<MetaDecl> {
    let key = meta.path.get_ident().map(|name| name.to_string());
    let value = if meta.input.peek(syn::token::Paren) {
        let mut inner = Vec::new();
        meta.parse_nested_meta(|entry| {
            inner.push(meta_decl(entry)?);
            Ok(())
        })?;
        MetaValue::List(inner)
    } else if meta.input.peek(syn::token::Eq) {
        match meta.value()?.parse::<syn::Expr>()? {
            syn::Expr::Lit(syn::ExprLit { lit: syn::Lit::Str(text), .. }) => {
                MetaValue::Text(text.value())
            }
            syn::Expr::Path(path) => MetaValue::Path(PathDecl {
                segments: path.path.segments.iter().map(|s| s.ident.to_string()).collect(),
                text: path.to_token_stream().to_string(),
            }),
            _ => MetaValue::Other,
        }
    } else {
        MetaValue::Flag
    };
    Ok(MetaDecl { key, value })
}

fn attr_decls(attrs: &[syn::Attribute]) -> Vec<AttrDecl> {
    attrs
        .iter()
        .map(|attr| {
            let mut metas = Vec::new();
            let listed = matches!(&attr.meta, syn::Meta::List(_));
            if listed {
                attr.parse_nested_meta(|entry| {
                    metas.push(meta_decl(entry)?);
                    Ok(())
                })
                .expect("annotation parses");
            }
            AttrDecl {
                name: attr.path().to_token_stream().to_string(),
                metas: if listed { Some(metas) } else { None },
            }
        })
        .collect()
}

fn field_decl(f: &syn::Field) -> FieldDecl {
    FieldDecl {
        name: f.ident.as_ref().map(|name| name.to_string()).unwrap_or_default(),
        ty: type_decl(&f.ty),
        attrs: attr_decls(&f.attrs),
    }
}

fn variant_decl(v: &syn::Variant) -> VariantDecl {
    VariantDecl {
        name: v.ident.to_string(),
        fields: match &v.fields {
            syn::Fields::Named(fs) => FieldsDecl::Named(fs.named.iter().map(field_decl).collect()),
            syn::Fields::Unnamed(fs) => {
                FieldsDecl::Unnamed(fs.unnamed.iter().map(field_decl).collect())
            }
            syn::Fields::Unit => FieldsDecl::Unit,
        },
        attrs: attr_decls(&v.attrs),
    }
}

fn input(src: &str) -> InputDecl {
    let item: syn::DeriveInput = syn::parse_str(src).expect("declaration parses");
    InputDecl {
        name: item.ident.to_string(),
        attrs: attr_decls(&item.attrs),
        variants: match &item.data {
            syn::Data::Enum(e) => Some(e.variants.iter().map(variant_decl).collect()),
            _ => None,
        },
    }
}

fn variant(src: &str) -> VariantDecl {
    variant_decl(&syn::parse_str::<syn::Variant>(src).expect("test variant parses"))
}

fn field(src: &str) -> FieldDecl {
    let FieldsDecl::Named(named) = variant(&format!("Wrapper {{ {src} }}")).fields else {
        panic!("test field is named");
    };
    named.into_iter().next().expect("one field")
}

fn slug(text: &str) -> &'static str {
    for code in [
        codes::CHECK_STATE_MISMATCH,
        codes::CHECK_TYPE_MISMATCH,
        codes::CHECK_PREMISE_FAILED,
    ] {
        if code == text {
            return code;
        }
    }
    panic!("no static text for {text}");
}

fn check_program(src: &str) -> CheckProgram {
    let plan = derive_dsl_check(&input(src)).expect("the rules compile");
    let slugs = plan.rules.iter().map(|r| slug(&r.code)).collect();
    plan.program(&slugs).expect("every slug has its text")
}

fn state_premise(attrs: &DslCheckAttrs) -> Option<&CheckFactDecl> {
    attrs.premises.iter().find_map(|p| match p {
        CheckPremiseDecl::State(fact) => Some(fact),
        CheckPremiseDecl::Child { .. } => None,
    })
}

fn child_premises(attrs: &DslCheckAttrs) -> Vec<(String, &CheckFactDecl)> {
    attrs
        .premises
        .iter()
        .filter_map(|p| match p {
            CheckPremiseDecl::Child { slot, expect } => Some((slot.to_string(), expect)),
            CheckPremiseDecl::State(_) => None,
        })
        .collect()
}

#[test]
fn dsl_check_reads_the_stage_one_vocabulary() {
    let v = variant(
        "#[dsl_check(requires = \"state(SystemReady)\", produces = \"state(PythonEnv)\", \
         message = \"nope\", code = \"my::code\")] \
         PythonInstall { id: NodeId, version: String }",
    );
    let attrs = dsl_check_attrs(&v).expect("annotation parses");

    assert!(attrs.seen);
    let requires = state_premise(&attrs).expect("requires parsed");
    assert_eq!(requires.pred, "state");
    assert_eq!(requires.args, [CheckTermDecl::Atom("SystemReady".into())]);
    let produces = attrs.produces.as_ref().expect("produces parsed");
    assert_eq!(produces.pred, "state");
    assert_eq!(produces.args, [CheckTermDecl::Atom("PythonEnv".into())]);
    assert_eq!(attrs.message.as_deref(), Some("nope"));
    assert_eq!(
        attrs.code.as_deref(),
        Some("my::code")
    );
    validate_check_attrs(&v, &attrs, "Phase").expect("shape agrees");
}

#[test]
fn a_variant_without_the_attribute_contributes_nothing() {
    let attrs = dsl_check_attrs(&variant("Plain { id: NodeId }")).expect("no annotation");
    assert!(!attrs.seen);
    assert!(attrs.premises.is_empty());
    assert!(attrs.produces.is_none());
    assert!(attrs.concludes.is_none());
}

#[test]
fn an_unknown_dsl_check_key_is_a_compile_error() {
    let v = variant("#[dsl_check(prodcues = \"state(Ready)\")] SystemPkg { id: NodeId }");
    let err = dsl_check_attrs(&v).expect_err("unknown key rejected");
    assert!(
        err.to_text()
            .contains("unsupported #[dsl_check(...)] key"),
        "message = {err:?}"
    );
}

#[test]
fn a_bare_dsl_check_needs_a_judgement() {
    let v = variant("#[dsl_check(message = \"hi\")] SystemPkg { id: NodeId }");
    let err = dsl_check_attrs(&v).expect_err("no judgement rejected");
    assert!(
        err.to_text().contains("at least one of `requires`"),
        "message = {err:?}"
    );
}

#[test]
fn a_duplicate_key_is_rejected() {
    let v = variant(
        "#[dsl_check(requires = \"state(A)\", requires = \"state(B)\")] X { id: NodeId }",
    );
    let err = dsl_check_attrs(&v).expect_err("duplicate rejected");
    assert!(err.to_text().contains("duplicate `requires`"), "{err:?}");
}

#[test]
fn variables_and_nested_constructors_parse() {
    let v = variant(
        "#[dsl_check(produces = \"state(ServiceRunning(Named($name, v1)))\")] \
         X { id: NodeId, name: String }",
    );
    let attrs = dsl_check_attrs(&v).expect("annotation parses");
    let produces = attrs.produces.as_ref().expect("produces parsed");
    assert_eq!(
        produces.args,
        [CheckTermDecl::Ctor(
            "ServiceRunning".into(),
            vec![CheckTermDecl::Ctor(
                "Named".into(),
                vec![
                    CheckTermDecl::Var("name".into()),
                    CheckTermDecl::Atom("v1".into()),
                ],
            )],
        )]
    );
    assert_eq!(attrs.mentioned_vars(), ["name"]);
}

#[test]
fn bind_wires_a_variable_to_a_payload_field() {
    let v = variant(
        "#[dsl_check(requires = \"state(ServiceRunning($target))\", \
         bind(target = \"target\"))] \
         Readiness { id: NodeId, target: String, port: u16 }",
    );
    let attrs = dsl_check_attrs(&v).expect("annotation parses");
    assert_eq!(attrs.binds.len(), 1);
    assert_eq!(attrs.binds[0].var, "target");
    assert_eq!(attrs.binds[0].field, "target");
    validate_check_attrs(&v, &attrs, "Phase").expect("shape agrees");
}

#[test]
fn bind_must_name_a_payload_field_a_judgement_uses() {
    let v = variant(
        "#[dsl_check(requires = \"state(Running($n))\", bind(n = \"nmae\"))] \
         X { id: NodeId, name: String }",
    );
    let attrs = dsl_check_attrs(&v).expect("annotation parses");
    let err = validate_check_attrs(&v, &attrs, "Phase").expect_err("typo rejected");
    assert!(err.to_text().contains("does not declare"), "{err:?}");

    let v = variant(
        "#[dsl_check(requires = \"state(Running($n))\", bind(n = \"steps\"))] \
         X { id: NodeId, steps: Vec<Phase> }",
    );
    let attrs = dsl_check_attrs(&v).expect("annotation parses");
    let err = validate_check_attrs(&v, &attrs, "Phase").expect_err("child slot rejected");
    assert!(
        err.to_text().contains("child slot, not a payload"),
        "{err:?}"
    );

    let v = variant(
        "#[dsl_check(requires = \"state(Ready)\", bind(n = \"name\"))] \
         X { id: NodeId, name: String }",
    );
    let attrs = dsl_check_attrs(&v).expect("annotation parses");
    let err = validate_check_attrs(&v, &attrs, "Phase").expect_err("unused bind rejected");
    assert!(err.to_text().contains("no judgement"), "{err:?}");
}

#[test]
fn requires_with_slots_becomes_child_premises() {
    let v = variant(
        "#[dsl_check(requires(cond = \"type(Bool)\", then_branch = \"type($a)\"), \
         concludes = \"type($a)\")] \
         If { id: NodeId, cond: Box<Phase>, then_branch: Box<Phase> }",
    );
    let attrs = dsl_check_attrs(&v).expect("annotation parses");
    assert!(state_premise(&attrs).is_none());
    let children = child_premises(&attrs);
    assert_eq!(children.len(), 2);
    assert_eq!(children[0].0, "cond");
    assert_eq!(children[0].1.args, [CheckTermDecl::Atom("Bool".into())]);
    assert_eq!(children[1].0, "then_branch");
    assert_eq!(children[1].1.args, [CheckTermDecl::Var("a".into())]);
    let concludes = attrs.concludes.as_ref().expect("concludes parsed");
    assert_eq!(concludes.pred, "type");
    validate_check_attrs(&v, &attrs, "Phase").expect("shape agrees");
}

#[test]
fn a_child_premise_must_name_a_child_slot() {
    let v = variant(
        "#[dsl_check(requires(conde = \"type(Bool)\"))] If { id: NodeId, cond: Box<Phase> }",
    );
    let attrs = dsl_check_attrs(&v).expect("annotation parses");
    let err = validate_check_attrs(&v, &attrs, "Phase").expect_err("typo rejected");
    assert!(err.to_text().contains("does not declare"), "{err:?}");

    let v = variant(
        "#[dsl_check(requires(version = \"type(Bool)\"))] X { id: NodeId, version: String }",
    );
    let attrs = dsl_check_attrs(&v).expect("annotation parses");
    let err = validate_check_attrs(&v, &attrs, "Phase").expect_err("payload rejected");
    assert!(
        err.to_text().contains("payload field, not a child slot"),
        "{err:?}"
    );
}

#[test]
fn a_fold_seed_cannot_carry_a_variable() {
    let f = field("#[dsl_check(fold(initial = \"state($x)\"))] steps: Vec<Phase>");
    let err = dsl_check_fold_attr(&f).expect_err("`$var` seed rejected");
    assert!(
        err.to_text()
            .contains("cannot appear in a fold's initial"),
        "{err:?}"
    );
}

#[test]
fn a_malformed_fact_is_rejected() {
    let v = variant("#[dsl_check(requires = \"state(Ready\")] X { id: NodeId }");
    let err = dsl_check_attrs(&v).expect_err("unbalanced parens rejected");
    assert!(err.to_text().contains("unbalanced parentheses"), "{err:?}");

    let v = variant("#[dsl_check(requires = \"1state(Ready)\")] X { id: NodeId }");
    let err = dsl_check_attrs(&v).expect_err("bad predicate rejected");
    assert!(err.to_text().contains("invalid predicate name"), "{err:?}");

    let v = variant("#[dsl_check(requires = \"state(not an atom)\")] X { id: NodeId }");
    let err = dsl_check_attrs(&v).expect_err("bad atom rejected");
    assert!(err.to_text().contains("invalid argument"), "{err:?}");
}

#[test]
fn fold_declares_the_initial_state() {
    let f = field("#[dsl_check(fold(initial = \"state(Raw)\"))] steps: Vec<Phase>");
    let initial = dsl_check_fold_attr(&f)
        .expect("annotation parses")
        .expect("initial present");
    assert_eq!(initial.pred, "state");
    assert_eq!(initial.args, [CheckTermDecl::Atom("Raw".into())]);

    let plain = field("steps: Vec<Phase>");
    assert!(
        dsl_check_fold_attr(&plain)
            .expect("no annotation")
            .is_none()
    );
}

#[test]
fn an_unknown_fold_key_is_a_compile_error() {
    let f = field("#[dsl_check(fold(start = \"state(Raw)\"))] steps: Vec<Phase>");
    let err = dsl_check_fold_attr(&f).expect_err("unknown inner key rejected");
    assert!(
        err.to_text().contains("unsupported `fold(...)` key"),
        "{err:?}"
    );

    let f = field("#[dsl_check(requires = \"state(Raw)\")] steps: Vec<Phase>");
    let err = dsl_check_fold_attr(&f).expect_err("variant key on a field rejected");
    assert!(
        err.to_text().contains("on a child slot"),
        "message = {err:?}"
    );
}

#[test]
fn normalize_collapses_token_stream_whitespace() {
    assert_eq!(normalize_type_str("Option < String >"), "Option<String>");
    assert_eq!(normalize_type_str("Vec < String >"), "Vec<String>");
    assert_eq!(
        normalize_type_str("HashMap < String , u32 >"),
        "HashMap<String, u32>"
    );
    assert_eq!(
        normalize_type_str("Option < Vec < String > >"),
        "Option<Vec<String>>"
    );
    assert_eq!(
        normalize_type_str("std :: string :: String"),
        "std::string::String"
    );
    assert_eq!(normalize_type_str("& str"), "&str");
    assert_eq!(normalize_type_str("& 'a str"), "&'a str");
    assert_eq!(normalize_type_str("String"), "String");
}

const PHASE: &str = r##"
enum Phase {
    Plan {
        id: NodeId,
        #[dsl_check(fold(initial = "state(Raw)"))]
        steps: Vec<Phase>,
    },
    #[dsl_check(requires = "state(Raw)", produces = "state(SystemReady)")]
    SystemPkg { id: NodeId, packages: Vec<String> },
    #[dsl_check(requires = "state(SystemReady)", produces = "state(PythonEnv)")]
    PythonInstall { id: NodeId, version: String },
    #[dsl_check(
        requires = "state(PythonEnv)",
        produces = "state(ComfyUIInstalled)",
        message = "`comfyui` needs {expected}; the plan is at {found}, set by {provenance}"
    )]
    ComfyUIInstall { id: NodeId, source: String },
    #[dsl_check(requires = "state(ComfyUIInstalled)")]
    Readiness { id: NodeId, port: u16 },
}
"##;

fn phase_plan(steps: &[&str]) -> ParseTree {
    let mut tree = ParseTree::new("Plan");
    tree.children = vec![(
        "steps".into(),
        steps.iter().map(|s| ParseTree::new(*s)).collect(),
    )];
    tree
}

#[test]
fn the_attributes_compile_into_rules_and_a_fold_declaration() {
    let program = check_program(PHASE);

    assert_eq!(program.rules.len(), 4, "rules = {:?}", program.rules);
    assert_eq!(program.rules_for("Plan").len(), 0);
    assert_eq!(program.rules_for("PythonInstall").len(), 1);

    let rule = program.rules_for("PythonInstall")[0];
    assert_eq!(
        rule.premises,
        vec![Premise::State {
            expect: fact("state", vec![atom("SystemReady")])
        }]
    );
    assert_eq!(rule.state_after, Some(fact("state", vec![atom("PythonEnv")])));
    assert_eq!(rule.conclusion, None);
    assert_eq!(rule.message.code, codes::CHECK_STATE_MISMATCH);

    assert_eq!(program.seq_slots.len(), 1);
    let decl = program
        .seq_slot("Plan", "steps")
        .expect("the fold declaration");
    assert_eq!(decl.mode, SeqMode::Fold);
    assert_eq!(decl.initial, fact("state", vec![atom("Raw")]));
}

#[test]
fn derive_check_the_intended_order_passes() {
    let doc = phase_plan(&["SystemPkg", "PythonInstall", "ComfyUIInstall", "Readiness"]);
    let diags = check_semantics(&doc, &check_program(PHASE));
    assert!(diags.is_empty(), "diags = {diags:?}");
}

#[test]
fn derive_check_a_step_out_of_order_is_reported_where_it_stands() {
    let diags = check_semantics(
        &phase_plan(&["PythonInstall", "SystemPkg"]),
        &check_program(PHASE),
    );

    assert_eq!(diags.len(), 1, "diags = {diags:?}");
    assert_eq!(diags[0].code, codes::CHECK_STATE_MISMATCH);
    assert!(
        diags[0]
            .message
            .starts_with("`PythonInstall` requires state(SystemReady), found state(Raw)"),
        "message = {}",
        diags[0].message
    );
    assert!(
        diags[0].message.contains("(from <initial>)"),
        "message = {}",
        diags[0].message
    );
    assert!(
        diags[0].message.ends_with("[at steps[0]]"),
        "message = {}",
        diags[0].message
    );
}

#[test]
fn a_missing_prerequisite_is_reported_once() {
    let diags = check_semantics(&phase_plan(&["SystemPkg", "Readiness"]), &check_program(PHASE));

    assert_eq!(diags.len(), 1, "diags = {diags:?}");
    assert!(
        diags[0]
            .message
            .starts_with("`Readiness` requires state(ComfyUIInstalled), found state(SystemReady)"),
        "message = {}",
        diags[0].message
    );
}

#[test]
fn a_declared_message_replaces_the_default_wording() {
    let diags = check_semantics(&phase_plan(&["ComfyUIInstall"]), &check_program(PHASE));

    assert_eq!(diags.len(), 1, "diags = {diags:?}");
    assert!(
        diags[0]
            .message
            .starts_with("`comfyui` needs state(PythonEnv); the plan is at state(Raw)"),
        "message = {}",
        diags[0].message
    );
}

#[test]
fn the_derived_program_passes_its_own_validation() {
    let diags = check_program(PHASE).validate();
    assert!(diags.is_empty(), "diags = {diags:?}");
}

const STAGE1: &str = r##"
enum Stage1 {
    #[dsl_check(produces = "state(SystemReady)")]
    SystemPkg { id: NodeId, packages: Vec<String> },
    #[dsl_check(requires = "state(SystemReady)", produces = "state(PythonEnv)")]
    PythonInstall { id: NodeId, version: String },
    #[dsl_check(
        requires = "state(ComfyUIInstalled)",
        produces = "state(ServiceRunning($name))",
        bind(name = "name")
    )]
    ComfyUIService { id: NodeId, name: String },
    #[dsl_check(requires = "state(ServiceRunning($target))", bind(target = "target"))]
    Readiness {
        id: NodeId,
        target: String,
        port: u16,
    },
}
"##;

#[test]
fn the_sketch_compiles_into_field_wired_terms() {
    let program = check_program(STAGE1);
    assert_eq!(program.rules.len(), 4, "rules = {:?}", program.rules);

    let service = program.rules_for("ComfyUIService")[0];
    assert_eq!(
        service.state_after,
        Some(fact("state", vec![ctor("ServiceRunning", vec![field_ref("name")])]))
    );
    assert_eq!(
        service.premises,
        vec![Premise::State {
            expect: fact("state", vec![atom("ComfyUIInstalled")])
        }]
    );

    let readiness = program.rules_for("Readiness")[0];
    assert_eq!(
        readiness.premises,
        vec![Premise::State {
            expect: fact("state", vec![ctor("ServiceRunning", vec![field_ref("target")])])
        }]
    );
    assert_eq!(readiness.state_after, None);
}

#[test]
fn the_sketch_names_its_own_gap_at_load_time() {
    let diags = check_program(STAGE1).validate();
    assert_eq!(diags.len(), 1, "diags = {diags:?}");
    assert_eq!(diags[0].code, codes::CHECK_PROGRAM_UNDEFINED_STATE);
    assert!(
        diags[0].message.contains("state(ComfyUIInstalled)"),
        "message = {}",
        diags[0].message
    );
}

const PROVISION: &str = r##"
enum Provision {
    Plan {
        id: NodeId,
        #[dsl_check(fold(initial = "state(Raw)"))]
        steps: Vec<Provision>,
    },
    #[dsl_check(requires = "state(Raw)", produces = "state(SystemReady)")]
    SystemPkg { id: NodeId, packages: Vec<String> },
    #[dsl_check(requires = "state(SystemReady)", produces = "state(PythonEnv)")]
    PythonInstall { id: NodeId, version: String },
    #[dsl_check(requires = "state(PythonEnv)", produces = "state(ComfyUIInstalled)")]
    ComfyUIInstall { id: NodeId, source: String },
    #[dsl_check(
        requires = "state(ComfyUIInstalled)",
        produces = "state(ServiceRunning($name))",
        bind(name = "name")
    )]
    ComfyUIService { id: NodeId, name: String },
    #[dsl_check(requires = "state(ServiceRunning($target))", bind(target = "target"))]
    Readiness {
        id: NodeId,
        target: String,
        port: u16,
    },
}
"##;

fn step(variant: &str, field: &str, value: &str) -> ParseTree {
    let mut tree = ParseTree::new(variant);
    tree.fields = vec![(field.to_string(), RawValue::Text(value.to_string()))];
    tree
}

fn plan(steps: Vec<ParseTree>) -> ParseTree {
    let mut tree = ParseTree::new("Plan");
    tree.children = vec![("steps".into(), steps)];
    tree
}

fn plan_up_to_readiness(target: &str) -> ParseTree {
    plan(vec![
        step("SystemPkg", "packages", "build-essential"),
        step("PythonInstall", "version", "3.12"),
        step("ComfyUIInstall", "source", "git"),
        step("ComfyUIService", "name", "comfyui"),
        step("Readiness", "target", target),
    ])
}

#[test]
fn the_completed_program_passes_its_own_validation() {
    let diags = check_program(PROVISION).validate();
    assert!(diags.is_empty(), "diags = {diags:?}");
}

#[test]
fn a_matching_handle_passes() {
    let diags = check_semantics(
        &plan_up_to_readiness("comfyui"),
        &check_program(PROVISION),
    );
    assert!(diags.is_empty(), "diags = {diags:?}");
}

#[test]
fn derive_stage_one_a_step_out_of_order_is_reported_where_it_stands() {
    let doc = plan(vec![
        step("PythonInstall", "version", "3.12"),
        step("SystemPkg", "packages", "build-essential"),
    ]);

    let diags = check_semantics(&doc, &check_program(PROVISION));
    assert_eq!(diags.len(), 1, "diags = {diags:?}");
    assert_eq!(diags[0].code, codes::CHECK_STATE_MISMATCH);
    assert!(
        diags[0]
            .message
            .starts_with("`PythonInstall` requires state(SystemReady), found state(Raw)"),
        "message = {}",
        diags[0].message
    );
    assert!(
        diags[0].message.ends_with("[at steps[0]]"),
        "message = {}",
        diags[0].message
    );
}

#[test]
fn a_mistyped_handle_is_told_which_one_exists() {
    let program = check_program(PROVISION);
    let doc = plan_up_to_readiness("comfy");

    let diags = check_semantics_with(&doc, &program, &FuzzySuggester::default());
    assert_eq!(diags.len(), 1, "diags = {diags:?}");
    assert_eq!(diags[0].code, codes::CHECK_STATE_MISMATCH);
    assert!(
        diags[0].message.starts_with(
            "`Readiness` requires state(ServiceRunning(comfy)), \
             found state(ServiceRunning(comfyui)) (from steps[3])"
        ),
        "message = {}",
        diags[0].message
    );
    assert!(
        diags[0].message.contains("did you mean: comfyui"),
        "message = {}",
        diags[0].message
    );
    assert!(
        diags[0].message.ends_with("[at steps[4]]"),
        "message = {}",
        diags[0].message
    );

    let plain = check_semantics(&doc, &program);
    assert_eq!(plain.len(), 1);
    assert!(
        !plain[0].message.contains("did you mean"),
        "message = {}",
        plain[0].message
    );
    assert_eq!(
        plain[0].message,
        diags[0].message.replace(" (did you mean: comfyui)", "")
    );
}

const EXPR: &str = r##"
enum Expr {
    #[dsl_check(concludes = "type(Int)")]
    IntLit { id: NodeId, value: i64 },
    #[dsl_check(concludes = "type(Bool)")]
    BoolLit { id: NodeId, value: bool },
    #[dsl_check(
        requires(lhs = "type(Int)", rhs = "type(Int)"),
        concludes = "type(Int)",
        message = "`add` operand {slot} must be {expected}, found {found} (from {provenance})"
    )]
    Add {
        id: NodeId,
        lhs: Box<Expr>,
        rhs: Box<Expr>,
    },
    #[dsl_check(
        requires(
            cond = "type(Bool)",
            then_branch = "type($a)",
            else_branch = "type($a)"
        ),
        concludes = "type($a)",
        message = "`if` {slot} must be {expected}, found {found}"
    )]
    If {
        id: NodeId,
        cond: Box<Expr>,
        then_branch: Box<Expr>,
        else_branch: Box<Expr>,
    },
}
"##;

fn node(variant: &str, slots: Vec<(&str, ParseTree)>) -> ParseTree {
    let mut tree = ParseTree::new(variant);
    tree.children = slots
        .into_iter()
        .map(|(name, child)| (name.to_string(), vec![child]))
        .collect();
    tree
}

#[test]
fn child_slots_and_conclusions_compile_into_a_typing_judgement() {
    let program = check_program(EXPR);
    let add = program.rules_for("Add")[0];
    assert_eq!(
        add.premises,
        vec![
            Premise::Child {
                slot: "lhs".into(),
                expect: fact("type", vec![atom("Int")]),
            },
            Premise::Child {
                slot: "rhs".into(),
                expect: fact("type", vec![atom("Int")]),
            },
        ]
    );
    assert_eq!(add.conclusion, Some(fact("type", vec![atom("Int")])));
    assert_eq!(add.state_after, None);
    assert_eq!(add.message.code, codes::CHECK_TYPE_MISMATCH);

    let branch = program.rules_for("If")[0];
    assert_eq!(branch.conclusion, Some(fact("type", vec![var("a")])));
    assert!(program.validate().is_empty());
}

#[test]
fn a_type_mismatch_is_reported_through_the_derived_rules() {
    let program = check_program(EXPR);
    let tree = node(
        "Add",
        vec![
            ("lhs", ParseTree::new("IntLit")),
            ("rhs", ParseTree::new("BoolLit")),
        ],
    );

    let diags = check_semantics(&tree, &program);
    assert_eq!(diags.len(), 1, "diags = {diags:?}");
    assert_eq!(diags[0].code, codes::CHECK_TYPE_MISMATCH);
    assert!(
        diags[0]
            .message
            .starts_with("`add` operand rhs must be type(Int), found type(Bool)"),
        "message = {}",
        diags[0].message
    );
}

#[test]
fn branches_must_agree_with_each_other() {
    let program = check_program(EXPR);
    let tree = node(
        "If",
        vec![
            ("cond", ParseTree::new("BoolLit")),
            ("then_branch", ParseTree::new("IntLit")),
            ("else_branch", ParseTree::new("BoolLit")),
        ],
    );

    let diags = check_semantics(&tree, &program);
    assert_eq!(diags.len(), 1, "diags = {diags:?}");
    assert!(
        diags[0]
            .message
            .starts_with("`if` else_branch must be type(Int), found type(Bool)"),
        "message = {}",
        diags[0].message
    );
}

#[test]
fn a_well_typed_document_is_silent() {
    let program = check_program(EXPR);
    let tree = node(
        "Add",
        vec![
            (
                "lhs",
                node(
                    "If",
                    vec![
                        ("cond", ParseTree::new("BoolLit")),
                        ("then_branch", ParseTree::new("IntLit")),
                        ("else_branch", ParseTree::new("IntLit")),
                    ],
                ),
            ),
            ("rhs", ParseTree::new("IntLit")),
        ],
    );
    assert!(check_semantics(&tree, &program).is_empty());
}

fn ty(src: &str) -> TypeDecl {
    type_decl(&syn::parse_str::<syn::Type>(src).expect("test type parses"))
}

#[test]
fn recursion_is_read_off_the_type() {
    for (src, expected) in [
        ("Tree", Some(Recursion::Direct)),
        ("Box<Tree>", Some(Recursion::Boxed)),
        ("Option<Tree>", Some(Recursion::Optional)),
        ("Option<Box<Tree>>", Some(Recursion::OptionalBoxed)),
        ("Vec<Tree>", Some(Recursion::Many)),
        ("std::vec::Vec<Box<Tree>>", Some(Recursion::ManyBoxed)),
        ("BTreeMap<String, Tree>", Some(Recursion::Keyed)),
        ("BTreeMap<String, Box<Tree>>", Some(Recursion::KeyedBoxed)),
        ("BTreeMap<u8, Tree>", None),
        ("Vec<Option<Tree>>", None),
        ("Option<Vec<Tree>>", None),
        ("String", None),
        ("(Tree, Tree)", None),
    ] {
        assert_eq!(detect_recursion(&ty(src), "Tree"), expected, "{src}");
    }
}

#[test]
fn payload_shapes_are_read_off_the_type() {
    let map = ty("BTreeMap<String, i64>");
    assert_eq!(detect_scalar_map(&map, "Tree").map(|t| t.text()), Some("i64"));
    assert!(detect_scalar_map(&ty("BTreeMap<String, Tree>"), "Tree").is_none());
    assert!(detect_scalar_map(&ty("BTreeMap<i64, String>"), "Tree").is_none());
    let optional = ty("Option<u8>");
    let (shape, inner) = payload_shape(&optional, "Tree");
    assert_eq!(shape, PayloadShape::OptionInner);
    assert_eq!(inner.map(|t| t.text()), Some("u8"));
    let listed = ty("Vec<u8>");
    assert_eq!(payload_shape(&listed, "Tree").0, PayloadShape::VecInner);
    assert_eq!(payload_shape(&ty("u8"), "Tree").0, PayloadShape::Bare);
}

const TREE: &str = r##"
enum Tree {
    Leaf { id: NodeId, text: String, weight: Option<u32>, tags: Vec<String> },
    Pair { id: NodeId, left: Box<Tree>, right: Option<Box<Tree>> },
    List { id: NodeId, #[dsl_schema(non_empty)] items: Vec<Tree> },
    Table { id: NodeId, rows: BTreeMap<String, Tree>, env: BTreeMap<String, i64> },
    Wrap {
        id: NodeId,
        #[dsl_schema(scalar(string = Leaf::text))]
        body: Box<Tree>,
        #[dsl_build(with = parse_flag)]
        #[dsl_dump(with = print_flag)]
        flag: bool,
    },
}
"##;

#[test]
fn every_node_kind_lists_its_children() {
    let plan = derive_dsl_node(&input(TREE)).expect("the enum is well formed");
    let shape: Vec<(String, Vec<(String, Recursion)>)> = plan
        .arms
        .into_iter()
        .map(|arm| (arm.variant, arm.children.into_iter().map(|c| (c.field, c.kind)).collect()))
        .collect();
    assert_eq!(shape.len(), 5);
    assert_eq!(shape[0], ("Leaf".to_string(), vec![]));
    assert_eq!(
        shape[1].1,
        vec![
            ("left".to_string(), Recursion::Boxed),
            ("right".to_string(), Recursion::OptionalBoxed),
        ]
    );
    assert_eq!(shape[2].1, vec![("items".to_string(), Recursion::Many)]);
    assert_eq!(shape[3].1, vec![("rows".to_string(), Recursion::Keyed)]);
}

#[test]
fn building_and_dumping_route_fields_alike() {
    let build = derive_dsl_build(&input(TREE)).expect("the enum can be built");
    let dump = derive_dsl_dump(&input(TREE)).expect("the enum can be dumped");
    assert_eq!(build.arms.len(), dump.arms.len());
    let leaf = &build.arms[0].fields;
    assert_eq!(leaf[0].field, "text");
    assert!(matches!(&leaf[0].route, BuildRoute::Plain { ty } if ty == "String"));
    assert!(matches!(&leaf[1].route, BuildRoute::Optional { inner, .. } if inner == "u32"));
    assert!(matches!(&leaf[2].route, BuildRoute::Listed { inner, .. } if inner == "String"));
    assert!(matches!(dump.arms[0].fields[0].route, DumpRoute::Plain));
    assert!(matches!(dump.arms[0].fields[1].route, DumpRoute::Optional));
    assert!(matches!(build.arms[1].fields[0].route, BuildRoute::Child(Recursion::Boxed)));
    assert!(matches!(dump.arms[1].fields[1].route, DumpRoute::Child(Recursion::OptionalBoxed)));
    assert!(matches!(&build.arms[3].fields[1].route, BuildRoute::ScalarMap { value } if value == "i64"));
    assert!(matches!(dump.arms[3].fields[1].route, DumpRoute::ScalarMap));
    assert!(
        matches!(&build.arms[4].fields[1].route, BuildRoute::With { path, .. } if path == "parse_flag")
    );
    assert!(
        matches!(&dump.arms[4].fields[1].route, DumpRoute::With { path } if path == "print_flag")
    );
}

#[test]
fn the_schema_says_what_each_field_holds() {
    let schema = derive_dsl_schema(&input(TREE)).expect("the schema is consistent");
    assert_eq!(schema.name, "Tree");
    let leaf = &schema.variants[0];
    assert_eq!(leaf.fields.len(), 3);
    assert_eq!(leaf.fields[1].ty, "Option<u32>");
    assert!(leaf.fields[1].optional);
    assert!(!leaf.fields[0].optional);
    let pair = &schema.variants[1];
    assert_eq!(pair.children[0].multiplicity, Multiplicity::One);
    assert_eq!(pair.children[1].multiplicity, Multiplicity::Optional);
    let list = &schema.variants[2];
    assert_eq!(list.children[0].multiplicity, Multiplicity::Many);
    assert!(list.children[0].non_empty);
    let table = &schema.variants[3];
    assert_eq!(table.children[0].multiplicity, Multiplicity::Keyed);
    assert_eq!(table.children[0].value_shape, ChildValueShape::Recursive);
    let wrap = &schema.variants[4];
    assert_eq!(wrap.children[0].scalar_shorthands[0].kind, ScalarKind::Str);
    assert_eq!(wrap.children[0].scalar_shorthands[0].variant, "Leaf");
    assert_eq!(wrap.children[0].scalar_shorthands[0].field, "text");
}

fn refusal<T: std::fmt::Debug>(
    out: Result<T, dsl_kit::derive::decl::DeriveError>,
    expected: &str,
) {
    let err = out.expect_err("the declaration is refused");
    assert!(err.to_text().contains(expected), "message = {}", err.to_text());
}

#[test]
fn declarations_that_make_no_sense_are_refused() {
    refusal(derive_dsl_node(&input("struct S { id: NodeId }")), "enum");
    refusal(derive_dsl_node(&input("enum E { A { x: u8 } }")), "`id: NodeId` field");
    refusal(derive_dsl_node(&input("enum E { A(NodeId) }")), "named");
    refusal(
        derive_dsl_build(&input(
            "enum E { A { id: NodeId, #[dsl_build(with = f)] kid: Box<E> } }",
        )),
        "applies to payload fields only",
    );
    refusal(
        derive_dsl_dump(&input("enum E { A { id: NodeId, #[dsl_build(with = f)] n: u8 } }")),
        "cannot be inverted mechanically",
    );
    refusal(
        derive_dsl_schema(&input(
            "enum E { A { id: NodeId, #[dsl_schema(non_empty)] kid: Box<E> } }",
        )),
        "collection slots only",
    );
    refusal(
        derive_dsl_schema(&input(
            "enum E { A { id: NodeId, #[dsl_schema(scalar(int = B::n))] kids: Vec<E> } }",
        )),
        "child slots only",
    );
    refusal(
        derive_dsl_schema(&input(
            "enum E { A { id: NodeId, #[dsl_schema(scalar(float = A::n))] kid: Box<E> } }",
        )),
        "unsupported scalar kind",
    );
    refusal(
        derive_dsl_check(&input(
            "enum E { A { id: NodeId, #[dsl_check(fold(initial = \"state(Raw)\"))] kid: Box<E> } }",
        )),
        "`Many` child slots only",
    );
    refusal(
        derive_dsl_check(&input("#[dsl_check(requires = \"a\")] enum E { A { id: NodeId } }")),
        "not on the enum itself",
    );
}

const PROGRAM: &str = r##"
enum Program {
    #[dsl_exec(value)]
    Lit { id: NodeId, value: i64 },
    #[dsl_exec(read(name))]
    Var { id: NodeId, name: String },
    #[dsl_exec(apply = "add")]
    Add { id: NodeId, lhs: Box<Program>, rhs: Box<Program> },
    #[dsl_exec(bind(name))]
    Let { id: NodeId, name: String, value: Box<Program>, body: Box<Program> },
    #[dsl_exec(branch)]
    If { id: NodeId, cond: Box<Program>, yes: Box<Program>, no: Option<Box<Program>> },
    #[dsl_exec(repeat)]
    Loop { id: NodeId, body: Box<Program> },
    #[dsl_exec(seq)]
    Block { id: NodeId, steps: Vec<Program> },
    #[dsl_exec(scope(label))]
    Scope { id: NodeId, label: String, body: Box<Program> },
    #[dsl_exec(maybe)]
    Maybe { id: NodeId, body: Option<Box<Program>> },
    #[dsl_exec(call(label, payload))]
    Ask { id: NodeId, label: String, question: String, retries: u8 },
    #[dsl_exec(call(label))]
    Tick { id: NodeId, label: String },
    #[dsl_exec(call(label, payload = body))]
    Send { id: NodeId, label: String, body: String, note: String },
    #[dsl_exec(call(label, payload(a, c)))]
    Pick { id: NodeId, label: String, a: u8, b: u8, c: u8 },
}
"##;

#[test]
fn every_execution_form_is_planned() {
    let plan = derive_dsl_exec(&input(PROGRAM)).expect("every variant is annotated");
    assert_eq!(plan.literal.as_deref(), Some("i64"));
    let kinds: Vec<&ExecKind> = plan.arms.iter().map(|a| &a.kind).collect();
    assert!(matches!(kinds[0], ExecKind::Value { field } if field == "value"));
    assert!(matches!(kinds[1], ExecKind::Read { name_field } if name_field == "name"));
    assert!(
        matches!(kinds[2], ExecKind::Apply { op, children } if op == "add" && children.len() == 2)
    );
    assert!(
        matches!(kinds[3], ExecKind::Bind { name_field, value, body }
            if name_field == "name" && value.field == "value" && body.field == "body")
    );
    assert!(
        matches!(kinds[4], ExecKind::Branch { cond, then_branch, else_branch: Some(no) }
            if cond.field == "cond" && then_branch.field == "yes" && no.field == "no")
    );
    assert!(matches!(kinds[5], ExecKind::Repeat { body } if body.field == "body"));
    assert!(matches!(kinds[6], ExecKind::Sequence { children } if children[0].field == "steps"));
    assert!(
        matches!(kinds[7], ExecKind::Scope { label_field, body }
            if label_field == "label" && body.field == "body")
    );
    assert!(matches!(kinds[8], ExecKind::Maybe { body } if body.kind == Recursion::OptionalBoxed));
    assert!(
        matches!(kinds[9], ExecKind::Call { payload: PayloadPlan::Object(fields), .. }
            if fields == &vec!["question".to_string(), "retries".to_string()])
    );
    assert!(matches!(kinds[10], ExecKind::Call { payload: PayloadPlan::Null, .. }));
    assert!(
        matches!(kinds[11], ExecKind::Call { payload: PayloadPlan::Single(field), .. }
            if field == "body")
    );
    assert!(
        matches!(kinds[12], ExecKind::Call { payload: PayloadPlan::Object(fields), .. }
            if fields == &vec!["a".to_string(), "c".to_string()])
    );
}

#[test]
fn execution_forms_are_held_to_their_shape() {
    let plan = |src: &str| derive_dsl_exec(&input(src));
    refusal(plan("enum E { A { id: NodeId } }"), "annotation on every variant");
    refusal(plan("enum E { #[dsl_exec(leap)] A { id: NodeId } }"), "unknown #[dsl_exec(...)] form");
    refusal(
        plan("enum E { #[dsl_exec(value)] A { id: NodeId, a: u8, b: u8 } }"),
        "exactly one payload field",
    );
    refusal(
        plan(
            "enum E { #[dsl_exec(value)] A { id: NodeId, a: u8 }, \
             #[dsl_exec(value)] B { id: NodeId, b: u16 } }",
        ),
        "must share one type",
    );
    refusal(
        plan("enum E { #[dsl_exec(bind(n))] A { id: NodeId, n: String, v: Box<E> } }"),
        "exactly two child fields",
    );
    refusal(
        plan("enum E { #[dsl_exec(maybe)] A { id: NodeId, v: Box<E> } }"),
        "must be `Option<Self>`",
    );
    refusal(
        plan("enum E { #[dsl_exec(repeat)] A { id: NodeId } }"),
        "exactly one child field",
    );
    refusal(
        plan("enum E { #[dsl_exec(call(l))] A { id: NodeId, l: String, kid: Box<E> } }"),
        "must have no child fields",
    );
    refusal(
        plan("enum E { #[dsl_exec(branch)] A { id: NodeId, c: Vec<E>, t: Box<E> } }"),
        "must be `Self` or `Box<Self>`",
    );
}

#[test]
fn facts_without_arguments_parse() {
    let ready = parse_check_fact(" ready ").expect("a bare predicate is a fact");
    assert_eq!(ready.pred, "ready");
    assert!(ready.args.is_empty());
    let pair = parse_check_fact("edge( a , $b )").expect("blanks do not matter");
    assert_eq!(
        pair.args,
        [CheckTermDecl::Atom("a".to_string()), CheckTermDecl::Var("b".to_string())]
    );
}

#[test]
fn a_program_needs_a_text_for_every_slug() {
    let plan = derive_dsl_check(&input(PHASE)).expect("the rules compile");
    assert!(plan.program(&vec![]).is_none());
    assert!(plan.program(&vec!["another::slug"; plan.rules.len()]).is_none());
}

#[test]
fn an_annotation_may_have_no_entries() {
    let out = derive_dsl_schema(&input("enum E { A { id: NodeId, #[dsl_schema()] kids: Vec<E> } }"));
    assert!(!out.expect("nothing is asked").variants[0].children[0].non_empty);
    let plain = field("#[dsl_check()] steps: Vec<Phase>");
    assert!(dsl_check_fold_attr(&plain).expect("nothing is asked").is_none());
    refusal(
        dsl_check_attrs(&variant("#[dsl_check()] X { id: NodeId }")),
        "at least one of `requires`",
    );
    refusal(
        derive_dsl_exec(&input("enum E { #[dsl_exec()] A { id: NodeId } }")),
        "requires a form",
    );
    refusal(
        derive_dsl_build(&input("enum E { A { id: NodeId, #[dsl_build()] n: u8 } }")),
        "requires `with = <path>`",
    );
    refusal(
        derive_dsl_schema(&input("enum E { A { id: NodeId, #[dsl_schema] kids: Vec<E> } }")),
        "expected attribute arguments in parentheses",
    );
}

#[test]
fn a_variable_is_mentioned_once() {
    let v = variant(
        "#[dsl_check(requires = \"pair($a, $b, $a)\", produces = \"pair($b, $c, $a)\")] \
         X { id: NodeId }",
    );
    let attrs = dsl_check_attrs(&v).expect("annotation parses");
    assert_eq!(attrs.mentioned_vars(), ["a", "b", "c"]);
}

#[test]
fn tidying_twice_is_tidying_once() {
    let texts = [
        "Option < Vec < String > >",
        "  & 'a\tstr ",
        ": : x",
        ":: ::",
        "a <b",
        "( u8 , ( ) )",
        "\u{2003}",
    ];
    let tidied = ["Option<Vec<String>>", "&'a str", ": : x", "::::", "a <b", "(u8,())", ""];
    for (text, want) in texts.iter().zip(tidied) {
        let once = normalize_type_str(text);
        assert_eq!(once, want);
        assert_eq!(normalize_type_str(&once), once);
        let solid = |s: &str| s.split_whitespace().collect::<String>();
        assert_eq!(solid(&once), solid(text));
    }
}

const REF: &str = r##"
enum Ref {
    #[dsl_exec(value)]
    Lit { id: NodeId, value: i64 },
    #[dsl_exec(read(name))]
    Var { id: NodeId, name: String },
    #[dsl_exec(apply = "add")]
    Add { id: NodeId, lhs: Box<Ref>, rhs: Box<Ref> },
    #[dsl_exec(apply = "mul")]
    Mul { id: NodeId, lhs: Box<Ref>, rhs: Box<Ref> },
    #[dsl_exec(bind(name))]
    Let { id: NodeId, name: String, value: Box<Ref>, body: Box<Ref> },
    #[dsl_exec(branch)]
    If { id: NodeId, cond: Box<Ref>, then_branch: Box<Ref>, else_branch: Box<Ref> },
}
"##;

#[test]
fn the_reference_language_has_the_derived_shape() {
    let derived = derive_dsl_schema(&input(REF)).expect("the schema is consistent");
    assert_eq!(derived, Ref::schema());
    assert_eq!(derived.variants.len(), 6);
    assert_eq!(derived.variants[4].fields[0].ty, "String");
    assert_eq!(derived.variants[5].children[2].name, "else_branch");
}
