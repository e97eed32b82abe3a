use dsl_kit::math::{Integer, Natural, Sequence};
use dsl_kit::schema::SpecSchema;
use dsl_kit::suggest::SpecSuggestion;
use dsl_kit::ids::NodeId;
use dsl_kit::lint::{
    lint_catalog, lint_decl, lint_decls, DeadVariants, LabelSource, LintContext, Linter, MaxDepth,
    MaxFanOut, NoEmptyChildSlots, NoRedundantWrap, RuleHandle, Severity, TypoHint,
    TypoLabelExtractor, UniqueNodeIds,
};
use dsl_kit::schema::{
    ChildSchema, ChildValueShape, DslSchema, Multiplicity, NodeSchema, VariantSchema,
};
use dsl_kit::suggest::{Applicability, Suggester, SuggesterHandle, Suggestion};
use dsl_kit::walk::{DslNode, Walk};

fn declared_non_empty(name: &str, multiplicity: Multiplicity) -> ChildSchema {
    ChildSchema {
        name: name.to_string(),
        multiplicity,
        value_shape: ChildValueShape::Recursive,
        scalar_shorthands: vec![],
        non_empty: true,
    }
}

struct OneLabel(&'static str);

impl TypoLabelExtractor<TwoVar> for OneLabel {
    fn labels_spec(&self, _ast: TwoVar) -> Sequence<(NodeId, Sequence<char>)> {
        unreachable!()
    }

    fn labels(&self, _ast: &TwoVar) -> Vec<(NodeId, String)> {
        vec![(NodeId(1), self.0.to_string())]
    }
}

fn label(text: &'static str) -> LabelSource<TwoVar> {
    LabelSource { inner: Box::new(OneLabel(text)) }
}

#[derive(Debug)]
enum Tiny {
    Node { id: NodeId, kids: Vec<Tiny> },
}

impl DslNode for Tiny {
    fn id_spec(&self) -> NodeId {
        self.node_id()
    }

    fn variant_spec(&self) -> Sequence<char> {
        unreachable!()
    }

    fn node_id(&self) -> NodeId {
        match self {
            Tiny::Node { id, .. } => *id,
        }
    }

    fn variant_name(&self) -> &'static str {
        match self {
            Tiny::Node { .. } => "Node",
        }
    }
}

impl Walk for Tiny {
    fn children_spec(&self) -> Sequence<Self> {
        unreachable!()
    }

    fn height(&self) -> Natural {
        unreachable!()
    }

    fn children_are_lower(&self, _i: Integer) {}

    fn children<'a>(&'a self) -> Vec<&'a Self> {
        match self {
            Tiny::Node { kids, .. } => kids.iter().collect(),
        }
    }
}

impl DslSchema for Tiny {
    fn schema_spec() -> SpecSchema {
        unreachable!()
    }

    fn schema() -> NodeSchema {
        NodeSchema {
            name: "Tiny".into(),
            variants: vec![VariantSchema {
                name: "Node".into(),
                fields: vec![],
                children: vec![ChildSchema {
                    name: "kids".into(),
                    multiplicity: Multiplicity::Many,
                    value_shape: ChildValueShape::Recursive,
                    scalar_shorthands: vec![],
                    non_empty: false,
                }],
            }],
        }
    }
}

fn leaf(n: u64) -> Tiny {
    Tiny::Node {
        id: NodeId(n),
        kids: vec![],
    }
}

fn node(n: u64, kids: Vec<Tiny>) -> Tiny {
    Tiny::Node {
        id: NodeId(n),
        kids,
    }
}

#[derive(Debug)]
enum Decl {
    Node { id: NodeId, kids: Vec<Decl> },
}

impl DslNode for Decl {
    fn id_spec(&self) -> NodeId {
        self.node_id()
    }

    fn variant_spec(&self) -> Sequence<char> {
        unreachable!()
    }

    fn node_id(&self) -> NodeId {
        match self {
            Decl::Node { id, .. } => *id,
        }
    }

    fn variant_name(&self) -> &'static str {
        match self {
            Decl::Node { .. } => "Node",
        }
    }
}

impl Walk for Decl {
    fn children_spec(&self) -> Sequence<Self> {
        unreachable!()
    }

    fn height(&self) -> Natural {
        unreachable!()
    }

    fn children_are_lower(&self, _i: Integer) {}

    fn children<'a>(&'a self) -> Vec<&'a Self> {
        match self {
            Decl::Node { kids, .. } => kids.iter().collect(),
        }
    }
}

impl DslSchema for Decl {
    fn schema_spec() -> SpecSchema {
        unreachable!()
    }

    fn schema() -> NodeSchema {
        NodeSchema {
            name: "Decl".into(),
            variants: vec![VariantSchema {
                name: "Node".into(),
                fields: vec![],
                children: vec![
                    declared_non_empty("kids", Multiplicity::Many),
                ],
            }],
        }
    }
}

fn dleaf(n: u64) -> Decl {
    Decl::Node {
        id: NodeId(n),
        kids: vec![],
    }
}

fn dnode(n: u64, kids: Vec<Decl>) -> Decl {
    Decl::Node {
        id: NodeId(n),
        kids,
    }
}

#[test]
fn unique_node_ids_passes_on_distinct_ids() {
    let ast = node(1, vec![leaf(2), leaf(3)]);
    let diags = Linter::<Tiny>::new().with_rule(UniqueNodeIds::boxed()).lint(&ast);
    assert!(diags.is_empty(), "expected no diagnostics, got {diags:?}");
}

#[test]
fn unique_node_ids_fires_on_duplicate() {
    let dup = NodeId(42);
    let ast = Tiny::Node {
        id: dup,
        kids: vec![Tiny::Node {
            id: dup,
            kids: vec![],
        }],
    };
    let diags = Linter::<Tiny>::new().with_rule(UniqueNodeIds::boxed()).lint(&ast);
    assert_eq!(diags.len(), 1);
    assert_eq!(diags[0].rule, UniqueNodeIds::NAME);
    assert_eq!(diags[0].severity, Severity::Error);
    assert_eq!(diags[0].node, dup);
    assert!(diags[0].message.contains("appears more than once"));
}

#[test]
fn max_depth_passes_within_limit() {
    let ast = node(1, vec![leaf(2)]);
    let diags = Linter::<Tiny>::new().with_rule(MaxDepth::boxed(4)).lint(&ast);
    assert!(diags.is_empty(), "expected no diagnostics, got {diags:?}");
}

#[test]
fn max_depth_fires_when_exceeded() {
    let ast = node(
        1,
        vec![node(2, vec![node(3, vec![node(4, vec![leaf(5)])])])],
    );
    let diags = Linter::<Tiny>::new().with_rule(MaxDepth::boxed(2)).lint(&ast);
    assert_eq!(diags.len(), 2, "diags = {diags:?}");
    assert!(diags.iter().all(|d| d.rule == MaxDepth::NAME));
    assert!(diags.iter().all(|d| d.severity == Severity::Error));
    assert_eq!(diags[0].node, NodeId(4));
    assert_eq!(diags[1].node, NodeId(5));
}

#[test]
fn max_fan_out_passes_within_limit() {
    let ast = node(1, (2..6).map(leaf).collect());
    let diags = Linter::<Tiny>::new()
        .with_rule(MaxFanOut::boxed(8))
        .lint(&ast);
    assert!(diags.is_empty(), "expected no diagnostics, got {diags:?}");
}

#[test]
fn max_fan_out_fires_at_warn_severity_when_exceeded() {
    let ast = node(1, (2..7).map(leaf).collect());
    let diags = Linter::<Tiny>::new()
        .with_rule(MaxFanOut::boxed(3))
        .lint(&ast);
    assert_eq!(diags.len(), 1, "diags = {diags:?}");
    assert_eq!(diags[0].rule, MaxFanOut::NAME);
    assert_eq!(diags[0].severity, Severity::Warn);
    assert_eq!(diags[0].node, NodeId(1));
    assert!(diags[0].message.contains("5 direct children"));
}

#[test]
fn linter_runs_multiple_rules_in_registration_order() {
    let dup = NodeId(9);
    let ast = Tiny::Node {
        id: dup,
        kids: vec![Tiny::Node {
            id: NodeId(10),
            kids: vec![Tiny::Node {
                id: dup,
                kids: vec![],
            }],
        }],
    };
    let diags = Linter::<Tiny>::new()
        .with_rule(UniqueNodeIds::boxed())
        .with_rule(MaxDepth::boxed(0))
        .lint(&ast);
    assert!(diags.iter().any(|d| d.rule == UniqueNodeIds::NAME));
    assert!(diags.iter().any(|d| d.rule == MaxDepth::NAME));
    let first_unique = diags.iter().position(|d| d.rule == UniqueNodeIds::NAME);
    let first_depth = diags.iter().position(|d| d.rule == MaxDepth::NAME);
    assert!(first_unique < first_depth);
}

#[test]
fn rule_count_reflects_registrations() {
    let l: Linter<Tiny> = Linter::new()
        .with_rule(UniqueNodeIds::boxed())
        .with_rule(MaxDepth::boxed(8));
    assert_eq!(l.rule_count(), 2);
}

#[test]
fn tiny_variant_name_returns_literal_ident() {
    let ast = leaf(1);
    assert_eq!(ast.variant_name(), "Node");
}

#[test]
fn no_empty_child_slots_silent_without_declaration() {
    let ast = leaf(1);
    let diags = Linter::<Tiny>::new()
        .with_rule(NoEmptyChildSlots::boxed())
        .lint(&ast);
    assert!(diags.is_empty(), "expected no diagnostics, got {diags:?}");
}

#[test]
fn no_empty_child_slots_fires_on_declared_violation() {
    let ast = dleaf(1);
    let diags = Linter::<Decl>::new()
        .with_rule(NoEmptyChildSlots::boxed())
        .lint(&ast);
    assert_eq!(diags.len(), 1);
    assert_eq!(diags[0].rule, NoEmptyChildSlots::NAME);
    assert_eq!(diags[0].severity, Severity::Error);
    assert_eq!(diags[0].node, NodeId(1));
    assert!(diags[0].message.contains("`kids`"));
}

#[test]
fn no_empty_child_slots_passes_when_children_present() {
    let ast = dnode(1, vec![dleaf(2)]);
    let diags = Linter::<Decl>::new()
        .with_rule(NoEmptyChildSlots::boxed())
        .lint(&ast);
    assert_eq!(diags.len(), 1);
    assert_eq!(diags[0].node, NodeId(2));
}

struct Keyed;
impl DslNode for Keyed {
    fn id_spec(&self) -> NodeId {
        self.node_id()
    }

    fn variant_spec(&self) -> Sequence<char> {
        unreachable!()
    }

    fn node_id(&self) -> NodeId {
        NodeId(7)
    }
    fn variant_name(&self) -> &'static str {
        "Env"
    }
}
impl Walk for Keyed {
    fn children_spec(&self) -> Sequence<Self> {
        unreachable!()
    }

    fn height(&self) -> Natural {
        unreachable!()
    }

    fn children_are_lower(&self, _i: Integer) {}

    fn children<'a>(&'a self) -> Vec<&'a Self> {
        Vec::new()
    }
}
impl DslSchema for Keyed {
    fn schema_spec() -> SpecSchema {
        unreachable!()
    }

    fn schema() -> NodeSchema {
        NodeSchema {
            name: "Cfg".into(),
            variants: vec![VariantSchema {
                name: "Env".into(),
                fields: vec![],
                children: vec![
                    declared_non_empty("entries", Multiplicity::Keyed),
                ],
            }],
        }
    }
}

#[test]
fn no_empty_child_slots_covers_keyed_slots() {
    let diags = Linter::<Keyed>::new()
        .with_rule(NoEmptyChildSlots::boxed())
        .lint(&Keyed);
    assert_eq!(diags.len(), 1, "diags = {diags:?}");
    assert_eq!(diags[0].rule, NoEmptyChildSlots::NAME);
    assert_eq!(diags[0].severity, Severity::Error);
    assert_eq!(diags[0].node, NodeId(7));
}

#[test]
fn no_redundant_wrap_fires_on_parent_wrapping_single_same_variant_child() {
    let ast = node(1, vec![node(2, vec![leaf(3)])]);
    let diags = Linter::<Tiny>::new().with_rule(NoRedundantWrap::boxed()).lint(&ast);
    assert_eq!(diags.len(), 2, "diags = {diags:?}");
    assert!(diags.iter().all(|d| d.rule == NoRedundantWrap::NAME));
    assert!(diags.iter().all(|d| d.severity == Severity::Warn));
}

#[test]
fn no_redundant_wrap_passes_on_multi_child_parent() {
    let ast = node(1, vec![leaf(2), leaf(3)]);
    let diags = Linter::<Tiny>::new().with_rule(NoRedundantWrap::boxed()).lint(&ast);
    assert!(diags.is_empty(), "expected no diagnostics, got {diags:?}");
}

#[test]
fn dead_variants_reports_schema_variants_not_in_ast() {
    let ast = leaf(1);
    let diags = Linter::<Tiny>::new().with_rule(DeadVariants::boxed()).lint(&ast);
    assert!(diags.is_empty(), "diags = {diags:?}");
}

#[derive(Debug)]
enum TwoVar {
    Alpha {
        id: NodeId,
    },
    #[allow(dead_code)]
    Beta {
        id: NodeId,
    },
}

impl DslNode for TwoVar {
    fn id_spec(&self) -> NodeId {
        self.node_id()
    }

    fn variant_spec(&self) -> Sequence<char> {
        unreachable!()
    }

    fn node_id(&self) -> NodeId {
        match self {
            TwoVar::Alpha { id } | TwoVar::Beta { id } => *id,
        }
    }
    fn variant_name(&self) -> &'static str {
        match self {
            TwoVar::Alpha { .. } => "Alpha",
            TwoVar::Beta { .. } => "Beta",
        }
    }
}

impl Walk for TwoVar {
    fn children_spec(&self) -> Sequence<Self> {
        unreachable!()
    }

    fn height(&self) -> Natural {
        unreachable!()
    }

    fn children_are_lower(&self, _i: Integer) {}

    fn children<'a>(&'a self) -> Vec<&'a Self> {
        Vec::new()
    }
}

impl DslSchema for TwoVar {
    fn schema_spec() -> SpecSchema {
        unreachable!()
    }

    fn schema() -> NodeSchema {
        NodeSchema {
            name: "TwoVar".into(),
            variants: vec![
                VariantSchema {
                    name: "Alpha".into(),
                    fields: vec![],
                    children: vec![],
                },
                VariantSchema {
                    name: "Beta".into(),
                    fields: vec![],
                    children: vec![],
                },
            ],
        }
    }
}

#[test]
fn dead_variants_fires_info_on_unused_variant() {
    let ast = TwoVar::Alpha { id: NodeId(1) };
    let diags = Linter::<TwoVar>::new().with_rule(DeadVariants::boxed()).lint(&ast);
    assert_eq!(diags.len(), 1);
    assert_eq!(diags[0].rule, DeadVariants::NAME);
    assert_eq!(diags[0].severity, Severity::Info);
    assert_eq!(diags[0].node, NodeId(1));
    assert!(diags[0].message.contains("Beta"));
}

struct FixedSuggester(&'static str);
impl Suggester for FixedSuggester {
    fn may_suggest(
        &self,
        _query: Sequence<char>,
        _candidates: Sequence<Sequence<char>>,
        _out: Sequence<SpecSuggestion>,
    ) -> bool {
        unreachable!()
    }

    fn suggest<'a>(&self, _q: &str, cands: &Vec<&'a str>) -> Vec<Suggestion<'a>> {
        cands
            .iter()
            .find(|c| **c == self.0)
            .map(|c| Suggestion {
                candidate: c,
                score: 1.0f64.to_bits(),
            })
            .into_iter()
            .collect()
    }
}

#[test]
fn typo_hint_dormant_without_suggester() {
    let ast = TwoVar::Alpha { id: NodeId(1) };
    let rule = TypoHint::new(label("Alph"));
    let diags = Linter::<TwoVar>::new().with_rule(RuleHandle { inner: Box::new(rule) }).lint(&ast);
    assert!(diags.is_empty(), "expected zero diagnostics, got {diags:?}");
}

#[test]
fn typo_hint_fires_with_suggester_on_near_miss() {
    let ast = TwoVar::Alpha { id: NodeId(1) };
    let rule = TypoHint::new(label("Alph"))
        .with_suggester(SuggesterHandle { inner: Box::new(FixedSuggester("Alpha")) });
    let diags = Linter::<TwoVar>::new().with_rule(RuleHandle { inner: Box::new(rule) }).lint(&ast);
    assert_eq!(diags.len(), 1);
    assert_eq!(diags[0].rule, TypoHint::<TwoVar>::NAME);
    assert_eq!(diags[0].severity, Severity::Info);
    assert_eq!(diags[0].node, NodeId(1));
    assert!(
        diags[0].message.contains("Alph")
            && diags[0].message.contains("did you mean")
            && diags[0].message.contains("Alpha"),
        "unexpected message: {}",
        diags[0].message
    );
}

#[test]
fn typo_hint_attaches_maybe_incorrect_fix_suggestion() {
    let ast = TwoVar::Alpha { id: NodeId(1) };
    let rule = TypoHint::new(label("Alph"))
        .with_suggester(SuggesterHandle { inner: Box::new(FixedSuggester("Alpha")) });
    let diags = Linter::<TwoVar>::new().with_rule(RuleHandle { inner: Box::new(rule) }).lint(&ast);
    assert_eq!(diags.len(), 1);
    let suggestion = diags[0]
        .suggestion
        .as_ref()
        .expect("TypoHint must attach a FixSuggestion on a near-miss");
    assert_eq!(suggestion.applicability, Applicability::MaybeIncorrect);
    assert_eq!(suggestion.patch.len(), 1);
    assert_eq!(suggestion.patch[0].node, NodeId(1));
    assert_eq!(suggestion.patch[0].path, None);
    assert_eq!(suggestion.patch[0].replacement, "Alpha");
    assert!(
        suggestion.message.contains("Alph") && suggestion.message.contains("Alpha"),
        "unexpected suggestion message: {}",
        suggestion.message
    );
}

#[test]
fn lint_decls_cover_all_builtin_rules() {
    let rule_names = [
        UniqueNodeIds::NAME,
        MaxDepth::NAME,
        MaxFanOut::NAME,
        NoEmptyChildSlots::NAME,
        NoRedundantWrap::NAME,
        DeadVariants::NAME,
        TypoHint::<Tiny>::NAME,
    ];

    for name in rule_names {
        let decl = lint_decl(name)
            .unwrap_or_else(|| panic!("no declaration registered for rule `{name}`"));
        assert_eq!(decl.name, name);
        assert_eq!(lint_decl(decl.code).map(|d| d.name), Some(name));
    }

    for decl in lint_decls() {
        assert!(
            rule_names.contains(&decl.name),
            "lint_decls entry `{}` does not match any built-in rule NAME",
            decl.name
        );
        assert!(
            decl.code.starts_with("dsl_kit::lint::"),
            "lint code `{}` must live in the dsl_kit::lint:: namespace",
            decl.code
        );
    }

    assert_eq!(lint_decls().len(), rule_names.len());
}

#[test]
fn lint_catalog_folds_category_and_severity() {
    let catalog = lint_catalog();
    assert_eq!(catalog.len(), lint_decls().len());
    let typo = catalog
        .iter()
        .find(|e| e.code == "dsl_kit::lint::typo_hint")
        .expect("typo_hint lint code in catalog");
    assert!(typo.help.contains("category=Suspicious"));
    assert!(typo.help.contains("default severity=Info"));
}

#[test]
fn report_leaves_suggestion_none_by_default() {
    let ast = dleaf(1);
    let diags = Linter::<Decl>::new()
        .with_rule(NoEmptyChildSlots::boxed())
        .lint(&ast);
    assert_eq!(diags.len(), 1);
    assert!(diags[0].suggestion.is_none());
}

#[test]
fn typo_hint_skips_exact_match() {
    let ast = TwoVar::Alpha { id: NodeId(1) };
    let rule = TypoHint::new(label("Alpha"))
        .with_suggester(SuggesterHandle { inner: Box::new(FixedSuggester("Alpha")) });
    let diags = Linter::<TwoVar>::new().with_rule(RuleHandle { inner: Box::new(rule) }).lint(&ast);
    assert!(diags.is_empty(), "expected zero diagnostics, got {diags:?}");
}

#[test]
fn with_defaults_includes_no_redundant_wrap_but_not_dead_variants() {
    let ast = node(1, vec![node(2, vec![leaf(3)])]);
    let diags = Linter::<Tiny>::with_defaults().lint(&ast);
    assert!(
        diags.iter().any(|d| d.rule == NoRedundantWrap::NAME),
        "expected no-redundant-wrap in defaults, diags = {diags:?}"
    );
    assert!(
        !diags.iter().any(|d| d.rule == DeadVariants::NAME),
        "dead-variants should be opt-in only, diags = {diags:?}"
    );
}

#[test]
fn a_context_keeps_what_it_is_told_in_order() {
    let mut ctx = LintContext::new();
    ctx.report("a", Severity::Warn, NodeId(1), "first");
    ctx.report("b", Severity::Info, NodeId(2), "second");
    assert_eq!(ctx.diagnostics().len(), 2);
    let all = ctx.into_diagnostics();
    assert_eq!(all[0].message, "first");
    assert_eq!(all[1].rule, "b");
}

#[test]
fn a_slot_can_hold_what_a_default_limit_allows() {
    let wide = node(0, (1..34).map(leaf).collect());
    let diags = Linter::<Tiny>::with_defaults().lint(&wide);
    assert_eq!(diags.len(), 1, "diags = {diags:?}");
    assert_eq!(diags[0].rule, MaxFanOut::NAME);
    assert!(diags[0].message.contains("33 direct children"));
    assert_eq!(MaxFanOut::DEFAULT_LIMIT, 32);
    assert_eq!(MaxDepth::DEFAULT_LIMIT, 64);
}

#[test]
fn findings_are_as_declared() {
    let dup = node(1, vec![node(2, vec![leaf(1)])]);
    let mut found = Linter::<Tiny>::new()
        .with_rule(UniqueNodeIds::boxed())
        .with_rule(MaxDepth::boxed(0))
        .with_rule(MaxFanOut::boxed(0))
        .with_rule(NoRedundantWrap::boxed())
        .lint(&dup);
    found.extend(Linter::<Decl>::new().with_rule(NoEmptyChildSlots::boxed()).lint(&dleaf(1)));
    let alpha = TwoVar::Alpha { id: NodeId(1) };
    found.extend(Linter::<TwoVar>::new().with_rule(DeadVariants::boxed()).lint(&alpha));
    let mut names: Vec<&str> = found.iter().map(|d| d.rule).collect();
    names.sort();
    names.dedup();
    assert_eq!(names.len(), 6);
    for d in &found {
        let decl = lint_decl(d.rule).expect("every rule is declared");
        assert_eq!(decl.default_severity, d.severity, "{}", d.rule);
    }
    assert!(lint_decl("no-such-rule").is_none());
}

#[test]
fn one_more_rule_appends_its_findings() {
    let ast = node(1, vec![node(2, vec![leaf(2)]), leaf(3)]);
    let old = || Linter::<Tiny>::new().with_rule(UniqueNodeIds::boxed());
    let both = old().with_rule(MaxDepth::boxed(1));
    assert_eq!(both.rule_count(), old().rule_count() + 1);
    let mut parts = old().lint(&ast);
    assert_eq!(parts.len(), 1);
    parts.extend(Linter::<Tiny>::new().with_rule(MaxDepth::boxed(1)).lint(&ast));
    assert_eq!(parts.len(), 2);
    assert_eq!(both.lint(&ast), parts);
}
