//! Lint rules over trees of nodes.
use std::collections::HashSet;

use vstd::prelude::*;
use vstd::string::*;

use crate::error::{ErrorCatalogEntry, SpecCatalogEntry};
use crate::ids::{tagged, NodeId};
use crate::schema::{
    slots_view, variant_schemas_view, DslSchema, NodeSchema, SpecChildSchema, SpecVariantSchema,
    VariantSchema,
};
use crate::suggest::{
    is_silent, noop_handle, says, suggestions_view, Applicability, FixSuggestion, PatchPart,
    SpecFix, SpecPatchPart, SpecSuggestion, Suggester, SuggesterHandle,
};
use crate::text::{
    cat3, cat5, decimal, insert_name, insert_text, join, join_spec, opt_text, push_decimal,
    same_text, strings_view, strs_view,
};
use crate::walk::{all_levels, levels, levels_view, Walk};

pub mod laws;
pub mod listing;

verus! {

/// Severity of a [`Diagnostic`].
#[derive(Debug, Clone, Copy, PartialEq, Eq, Structural)]
pub enum Severity {
    /// Almost certainly to be fixed.
    Error,
    /// Suspicious but not necessarily wrong.
    Warn,
    /// An observation.
    Info,
}

/// One lint result.
#[derive(Debug, PartialEq, Eq)]
pub struct Diagnostic {
    /// Name of the rule.
    pub rule: &'static str,
    /// Severity.
    pub severity: Severity,
    /// Node it is attached to.
    pub node: NodeId,
    /// Human-readable message.
    pub message: String,
    /// A fix, if the rule has one.
    pub suggestion: Option<FixSuggestion>,
}

/// The mathematical shape of a [`Diagnostic`].
pub struct SpecLint {
    pub rule: Seq<char>,
    pub severity: Severity,
    pub node: NodeId,
    pub message: Seq<char>,
    pub suggestion: Option<SpecFix>,
}

impl View for Diagnostic {
    type V = SpecLint;

    open spec fn view(&self) -> SpecLint {
        SpecLint {
            rule: self.rule@,
            severity: self.severity,
            node: self.node,
            message: self.message@,
            suggestion: match self.suggestion {
                Some(s) => Some(s@),
                None => None,
            },
        }
    }
}

impl Clone for Diagnostic {
    fn clone(&self) -> (out: Self)
        ensures
            out@ == self@,
    {
        Diagnostic {
            rule: self.rule,
            severity: self.severity,
            node: self.node,
            message: self.message.clone(),
            suggestion: match &self.suggestion {
                Some(s) => Some(s.clone()),
                None => None,
            },
        }
    }
}

/// The views of a list of diagnostics.
pub open spec fn lints_view(ds: Seq<Diagnostic>) -> Seq<SpecLint> {
    Seq::new(ds.len(), |i: int| ds[i]@)
}

/// A diagnostic without a fix.
pub open spec fn plain(rule: Seq<char>, severity: Severity, node: NodeId, message: Seq<char>) -> SpecLint {
    SpecLint { rule, severity, node, message, suggestion: None }
}

/// Collects what rules find.
#[derive(Debug)]
pub struct LintContext {
    diagnostics: Vec<Diagnostic>,
}

impl View for LintContext {
    type V = Seq<SpecLint>;

    closed spec fn view(&self) -> Seq<SpecLint> {
        lints_view(self.diagnostics@)
    }
}

impl Default for LintContext {
    fn default() -> (out: Self)
        ensures
            out@ == Seq::<SpecLint>::empty(),
    {
        LintContext::new()
    }
}

impl LintContext {
    /// An empty context.
    pub fn new() -> (out: Self)
        ensures
            out@ == Seq::<SpecLint>::empty(),
    {
        let out = LintContext { diagnostics: Vec::new() };
        assert(out@ =~= Seq::empty());
        out
    }

    /// Records a diagnostic.
    pub fn emit(&mut self, diag: Diagnostic)
        ensures
            final(self)@ == old(self)@.push(diag@),
    {
        self.diagnostics.push(diag);
        assert(self@ =~= old(self)@.push(diag@));
    }

    /// Records a diagnostic without a fix.
    pub fn report(&mut self, rule: &'static str, severity: Severity, node: NodeId, message: &str)
        ensures
            final(self)@ == old(self)@.push(plain(rule@, severity, node, message@)),
    {
        self.emit(
            Diagnostic { rule, severity, node, message: message.to_owned(), suggestion: None },
        );
    }

    /// Records a diagnostic with a fix.
    pub fn report_with_suggestion(
        &mut self,
        rule: &'static str,
        severity: Severity,
        node: NodeId,
        message: &str,
        suggestion: FixSuggestion,
    )
        ensures
            final(self)@ == old(self)@.push(
                (SpecLint {
                    rule: rule@,
                    severity,
                    node,
                    message: message@,
                    suggestion: Some(suggestion@),
                }),
            ),
    {
        self.emit(
            Diagnostic {
                rule,
                severity,
                node,
                message: message.to_owned(),
                suggestion: Some(suggestion),
            },
        );
    }

    /// The diagnostics so far.
    pub fn diagnostics<'a>(&'a self) -> (out: &'a [Diagnostic])
        ensures
            lints_view(out@) == self@,
    {
        self.diagnostics.as_slice()
    }

    /// The diagnostics.
    pub fn into_diagnostics(self) -> (out: Vec<Diagnostic>)
        ensures
            lints_view(out@) == self@,
    {
        self.diagnostics
    }
}

/// A lint rule. It keeps no state between trees.
pub trait Rule<A: Walk> {
    /// What the rule may find in a tree.
    spec fn may_find(&self, ast: A, found: Seq<SpecLint>) -> bool;

    /// The rule's name.
    spec fn rule_name(&self) -> Seq<char>;

    /// Stable name attached to everything it finds.
    fn name(&self) -> (out: &'static str)
        ensures
            out@ == self.rule_name(),
    ;

    /// Appends what the rule finds.
    fn check(&self, ast: &A, ctx: &mut LintContext)
        ensures
            exists|found: Seq<SpecLint>|
                #[trigger] self.may_find(*ast, found) && final(ctx)@ == old(ctx)@ + found,
    ;
}

/// An owned rule of any kind.
#[verifier::reject_recursive_types(A)]
pub struct RuleHandle<A: Walk> {
    /// The rule itself.
    pub inner: Box<dyn Rule<A>>,
}

/// Runs rules over a tree.
#[verifier::reject_recursive_types(A)]
pub struct Linter<A: Walk> {
    rules: Vec<RuleHandle<A>>,
}

/// All parts in a row.
pub open spec fn joined(parts: Seq<Seq<SpecLint>>) -> Seq<SpecLint>
    decreases parts.len(),
{
    if parts.len() == 0 {
        Seq::empty()
    } else {
        joined(parts.drop_last()) + parts.last()
    }
}

/// Whether the rules of a linter may find these parts in a tree, one for each
/// rule.
pub open spec fn may_find_parts<A: Walk>(
    linter: Linter<A>,
    ast: A,
    parts: Seq<Seq<SpecLint>>,
) -> bool {
    parts.len() == linter.count() && forall|i: int|
        0 <= i < parts.len() ==> linter.may_find(i, ast, #[trigger] parts[i])
}

/// What a linter may find in a tree: what its rules may find, in the order
/// they were registered.
pub open spec fn may_lint<A: Walk>(linter: Linter<A>, ast: A, found: Seq<SpecLint>) -> bool {
    exists|parts: Seq<Seq<SpecLint>>| #[trigger]
        may_find_parts(linter, ast, parts) && found == joined(parts)
}

/// Whether a linter has the rules of another and then one more.
pub open spec fn adds_rule<A: Walk>(
    before: Linter<A>,
    rule: RuleHandle<A>,
    after: Linter<A>,
) -> bool {
    &&& after.count() == before.count() + 1
    &&& forall|i: int, ast: A, found: Seq<SpecLint>|
        0 <= i < before.count() ==> #[trigger] after.may_find(i, ast, found) == before.may_find(
            i,
            ast,
            found,
        )
    &&& forall|ast: A, found: Seq<SpecLint>| #[trigger]
        after.may_find(before.count() as int, ast, found) == rule.inner.may_find(ast, found)
}

/// A linter with one more rule finds what it found before, and then what a
/// linter with that rule alone finds.
pub proof fn law_one_more_rule_appends_its_findings<A: Walk>(
    before: Linter<A>,
    rule: RuleHandle<A>,
    after: Linter<A>,
    none: Linter<A>,
    alone: Linter<A>,
    ast: A,
    found: Seq<SpecLint>,
)
    requires
        adds_rule(before, rule, after),
        none.count() == 0,
        adds_rule(none, rule, alone),
    ensures
        after.count() == before.count() + 1,
        may_lint(after, ast, found) <==> (exists|first: Seq<SpecLint>, second: Seq<SpecLint>|
            #![trigger may_lint(before, ast, first), may_lint(alone, ast, second)]
            may_lint(before, ast, first) && may_lint(alone, ast, second) && found == first + second),
{
    reveal_with_fuel(joined, 2);
    let n = before.count() as int;
    if may_lint(after, ast, found) {
        let parts = choose|parts: Seq<Seq<SpecLint>>| #[trigger]
            may_find_parts(after, ast, parts) && found == joined(parts);
        let front = parts.drop_last();
        let last = seq![parts.last()];
        assert(after.may_find(n, ast, parts[n]));
        assert(may_find_parts(before, ast, front)) by {
            assert forall|i: int| 0 <= i < front.len() implies before.may_find(
                i,
                ast,
                #[trigger] front[i],
            ) by {
                assert(after.may_find(i, ast, parts[i]));
            }
        }
        assert(may_find_parts(alone, ast, last)) by {
            assert(alone.may_find(0, ast, last[0]));
        }
        assert(last.drop_last() =~= Seq::empty());
        assert(joined(last) =~= parts.last());
        assert(may_lint(before, ast, joined(front)));
        assert(may_lint(alone, ast, joined(last)));
        assert(found =~= joined(front) + joined(last));
    }
    if exists|first: Seq<SpecLint>, second: Seq<SpecLint>|
        #![trigger may_lint(before, ast, first), may_lint(alone, ast, second)]
        may_lint(before, ast, first) && may_lint(alone, ast, second) && found == first + second {
        let (first, second) = choose|first: Seq<SpecLint>, second: Seq<SpecLint>|
            #![trigger may_lint(before, ast, first), may_lint(alone, ast, second)]
            may_lint(before, ast, first) && may_lint(alone, ast, second) && found == first + second;
        let front = choose|parts: Seq<Seq<SpecLint>>| #[trigger]
            may_find_parts(before, ast, parts) && first == joined(parts);
        let last = choose|parts: Seq<Seq<SpecLint>>| #[trigger]
            may_find_parts(alone, ast, parts) && second == joined(parts);
        assert(alone.may_find(0, ast, last[0]));
        assert(last.drop_last() =~= Seq::empty());
        assert(joined(last) =~= last[0]);
        let parts = front.push(last[0]);
        assert(parts.drop_last() =~= front);
        assert(may_find_parts(after, ast, parts)) by {
            assert forall|i: int| 0 <= i < parts.len() implies after.may_find(
                i,
                ast,
                #[trigger] parts[i],
            ) by {
                if i < n {
                    assert(before.may_find(i, ast, front[i]));
                } else {
                    assert(after.may_find(n, ast, last[0]));
                }
            }
        }
        assert(joined(parts) == first + second);
    }
}

impl<A: Walk> Default for Linter<A> {
    fn default() -> (out: Self)
        ensures
            out.count() == 0,
    {
        Linter { rules: Vec::new() }
    }
}

impl<A: Walk> Linter<A> {
    /// How many rules there are.
    pub closed spec fn count(&self) -> nat {
        self.rules@.len()
    }

    /// What the `i`-th rule may find.
    pub closed spec fn may_find(&self, i: int, ast: A, found: Seq<SpecLint>) -> bool {
        self.rules@[i].inner.may_find(ast, found)
    }

    /// A linter without rules.
    pub fn new() -> (out: Self)
        ensures
            out.count() == 0,
    {
        Linter { rules: Vec::new() }
    }

    /// The linter with one more rule.
    #[must_use]
    pub fn with_rule(self, rule: RuleHandle<A>) -> (out: Self)
        ensures
            adds_rule(self, rule, out),
    {
        let mut out = self;
        out.rules.push(rule);
        out
    }

    /// Runs every rule, in the order they were registered.
    pub fn lint(&self, ast: &A) -> (out: Vec<Diagnostic>)
        ensures
            may_lint(*self, *ast, lints_view(out@)),
    {
        let mut ctx = LintContext::new();
        let ghost mut parts: Seq<Seq<SpecLint>> = Seq::empty();
        let n: usize = self.rules.len();
        for i in 0..n
            invariant
                n == self.rules@.len(),
                parts.len() == i,
                forall|j: int| 0 <= j < i ==> self.may_find(j, *ast, #[trigger] parts[j]),
                ctx@ == joined(parts),
        {
            let ghost before = ctx@;
            self.rules[i].inner.check(ast, &mut ctx);
            proof {
                let found = choose|found: Seq<SpecLint>| #[trigger]
                    self.rules@[i as int].inner.may_find(*ast, found) && ctx@ == before + found;
                assert(self.may_find(i as int, *ast, found));
                let longer = parts.push(found);
                assert(longer.drop_last() =~= parts);
                assert forall|j: int| 0 <= j < i + 1 implies self.may_find(
                    j,
                    *ast,
                    #[trigger] longer[j],
                ) by {
                    if j < i {
                        assert(longer[j] == parts[j]);
                    }
                }
                parts = longer;
            }
        }
        assert(may_find_parts(*self, *ast, parts));
        ctx.into_diagnostics()
    }

    /// Number of rules.
    pub fn rule_count(&self) -> (out: usize)
        ensures
            out == self.count(),
    {
        self.rules.len()
    }
}

/// What a rule flags among the first `n` positions, in order.
pub open spec fn gathered(n: nat, flag: spec_fn(int) -> Option<SpecLint>) -> Seq<SpecLint>
    decreases n,
{
    if n == 0 {
        Seq::empty()
    } else {
        let before = gathered((n - 1) as nat, flag);
        match flag(n - 1) {
            Some(d) => before.push(d),
            None => before,
        }
    }
}

/// Flags identities that appear more than once.
#[derive(Debug, Clone, Copy)]
pub struct UniqueNodeIds;

impl Default for UniqueNodeIds {
    fn default() -> (out: Self)
        ensures
            out == UniqueNodeIds,
    {
        UniqueNodeIds
    }
}

impl UniqueNodeIds {
    /// Rule name.
    pub const NAME: &'static str = "unique-node-ids";

    /// The rule, ready to be registered.
    pub fn boxed<A: Walk>() -> (out: RuleHandle<A>)
        ensures
            forall|ast: A, found: Seq<SpecLint>| #[trigger]
                out.inner.may_find(ast, found) == (found == repeated_ids(ast)),
    {
        RuleHandle { inner: Box::new(UniqueNodeIds) }
    }
}

/// Whether the identity at a position appears before it.
pub open spec fn seen_before<A: Walk>(ls: Seq<(A, usize)>, i: int) -> bool {
    exists|j: int| 0 <= j < i && (#[trigger] ls[j]).0.id_spec() == ls[i].0.id_spec()
}

/// Flags the identity at a position if it appears before it.
pub open spec fn repeat_flag<A: Walk>(ls: Seq<(A, usize)>) -> spec_fn(int) -> Option<SpecLint> {
    |i: int|
        if seen_before(ls, i) {
            Some(
                plain(
                    UniqueNodeIds::NAME@,
                    Severity::Error,
                    ls[i].0.id_spec(),
                    "node id "@ + tagged("n"@, ls[i].0.id_spec().0) + " appears more than once"@,
                ),
            )
        } else {
            None
        }
}

/// Every repetition of an identity in a tree.
pub open spec fn repeated_ids<A: Walk>(ast: A) -> Seq<SpecLint> {
    gathered(levels(ast, 0).len(), repeat_flag(levels(ast, 0)))
}

impl<A: Walk> Rule<A> for UniqueNodeIds {
    open spec fn may_find(&self, ast: A, found: Seq<SpecLint>) -> bool {
        found == repeated_ids(ast)
    }

    open spec fn rule_name(&self) -> Seq<char> {
        UniqueNodeIds::NAME@
    }

    fn name(&self) -> (out: &'static str) {
        UniqueNodeIds::NAME
    }

    fn check(&self, ast: &A, ctx: &mut LintContext) {
        broadcast use vstd::std_specs::hash::group_hash_axioms;

        let nodes = all_levels(ast);
        let ghost ls = levels_view(nodes@);
        let ghost before = ctx@;
        let mut seen: HashSet<u64> = HashSet::new();
        let n: usize = nodes.len();
        assert(ctx@ =~= before + gathered(0, repeat_flag(ls)));
        for i in 0..n
            invariant
                n == nodes@.len(),
                ls == levels_view(nodes@),
                ctx@ == before + gathered(i as nat, repeat_flag(ls)),
                forall|x: u64|
                    #[trigger] seen@.contains(x) <==> exists|j: int|
                        0 <= j < i && (#[trigger] ls[j]).0.id_spec().0 == x,
        {
            let node = nodes[i].0;
            assert(ls[i as int].0 == *node);
            let id = node.node_id();
            let ghost old_seen = seen@;
            let fresh: bool = seen.insert(id.0);
            proof {
                assert(fresh == !seen_before(ls, i as int)) by {
                    if seen_before(ls, i as int) {
                        let j = choose|j: int|
                            0 <= j < i && (#[trigger] ls[j]).0.id_spec() == ls[i as int].0.id_spec();
                        assert(ls[j].0.id_spec().0 == id.0);
                        assert(old_seen.contains(id.0));
                    }
                    if old_seen.contains(id.0) {
                        let j = choose|j: int|
                            0 <= j < i && (#[trigger] ls[j]).0.id_spec().0 == id.0;
                        assert(ls[j].0.id_spec() == ls[i as int].0.id_spec());
                    }
                }
                assert forall|x: u64| #[trigger] seen@.contains(x) <==> exists|j: int|
                    0 <= j < i + 1 && (#[trigger] ls[j]).0.id_spec().0 == x by {
                    if x == id.0 {
                        assert(ls[i as int].0.id_spec().0 == x);
                    }
                    if seen@.contains(x) && x != id.0 {
                        assert(old_seen.contains(x));
                        let j = choose|j: int|
                            0 <= j < i && (#[trigger] ls[j]).0.id_spec().0 == x;
                        assert(0 <= j < i + 1);
                    }
                    if exists|j: int| 0 <= j < i + 1 && (#[trigger] ls[j]).0.id_spec().0 == x {
                        let j = choose|j: int|
                            0 <= j < i + 1 && (#[trigger] ls[j]).0.id_spec().0 == x;
                        if j < i {
                            assert(old_seen.contains(x));
                        }
                    }
                }
            }
            if !fresh {
                let message = cat3("node id ", id.to_text().as_str(), " appears more than once");
                let ghost mid = ctx@;
                ctx.report(UniqueNodeIds::NAME, Severity::Error, id, message.as_str());
                assert(ctx@ =~= before + gathered((i + 1) as nat, repeat_flag(ls)));
            }
        }
        assert(self.may_find(*ast, gathered(ls.len(), repeat_flag(ls))));
    }
}

/// Flags nodes that stand too deep. The root stands at depth zero.
#[derive(Debug, Clone, Copy)]
pub struct MaxDepth {
    /// Greatest allowed depth.
    pub limit: usize,
}

impl MaxDepth {
    /// Rule name.
    pub const NAME: &'static str = "max-depth";

    /// Limit among the built-in rules.
    pub const DEFAULT_LIMIT: usize = 64;

    /// The rule with a limit.
    pub fn new(limit: usize) -> (out: Self)
        ensures
            out.limit == limit,
    {
        MaxDepth { limit }
    }

    /// The rule, ready to be registered.
    pub fn boxed<A: Walk>(limit: usize) -> (out: RuleHandle<A>)
        ensures
            forall|ast: A, found: Seq<SpecLint>| #[trigger]
                out.inner.may_find(ast, found) == (found == too_deep(ast, limit)),
    {
        RuleHandle { inner: Box::new(MaxDepth { limit }) }
    }
}

/// Flags the node at a position if it stands too deep.
pub open spec fn depth_flag<A: Walk>(ls: Seq<(A, usize)>, limit: usize) -> spec_fn(int) -> Option<
    SpecLint,
> {
    |i: int|
        if ls[i].1 > limit {
            Some(
                plain(
                    MaxDepth::NAME@,
                    Severity::Error,
                    ls[i].0.id_spec(),
                    "node depth "@ + decimal(ls[i].1 as nat) + " exceeds limit "@ + decimal(
                        limit as nat,
                    ),
                ),
            )
        } else {
            None
        }
}

/// Every node of a tree that stands too deep.
pub open spec fn too_deep<A: Walk>(ast: A, limit: usize) -> Seq<SpecLint> {
    gathered(levels(ast, 0).len(), depth_flag(levels(ast, 0), limit))
}

impl<A: Walk> Rule<A> for MaxDepth {
    open spec fn may_find(&self, ast: A, found: Seq<SpecLint>) -> bool {
        found == too_deep(ast, self.limit)
    }

    open spec fn rule_name(&self) -> Seq<char> {
        MaxDepth::NAME@
    }

    fn name(&self) -> (out: &'static str) {
        MaxDepth::NAME
    }

    fn check(&self, ast: &A, ctx: &mut LintContext) {
        let nodes = all_levels(ast);
        let ghost ls = levels_view(nodes@);
        let ghost before = ctx@;
        let ghost flag = depth_flag(ls, self.limit);
        let n: usize = nodes.len();
        assert(ctx@ =~= before + gathered(0, flag));
        for i in 0..n
            invariant
                n == nodes@.len(),
                ls == levels_view(nodes@),
                flag == depth_flag(ls, self.limit),
                ctx@ == before + gathered(i as nat, flag),
        {
            let (node, depth) = nodes[i];
            assert(ls[i as int] == (*node, depth));
            if depth > self.limit {
                let mut message = "node depth ".to_owned();
                push_decimal(&mut message, depth as u64);
                message.append(" exceeds limit ");
                push_decimal(&mut message, self.limit as u64);
                ctx.report(MaxDepth::NAME, Severity::Error, node.node_id(), message.as_str());
                assert(ctx@ =~= before + gathered((i + 1) as nat, flag));
            }
        }
        assert(self.may_find(*ast, gathered(ls.len(), flag)));
    }
}

/// Flags nodes with too many direct children.
#[derive(Debug, Clone, Copy)]
pub struct MaxFanOut {
    /// Greatest allowed number of direct children.
    pub limit: usize,
}

impl MaxFanOut {
    /// Rule name.
    pub const NAME: &'static str = "max-fan-out";

    /// Limit among the built-in rules.
    pub const DEFAULT_LIMIT: usize = 32;

    /// The rule with a limit.
    pub fn new(limit: usize) -> (out: Self)
        ensures
            out.limit == limit,
    {
        MaxFanOut { limit }
    }

    /// The rule, ready to be registered.
    pub fn boxed<A: Walk>(limit: usize) -> (out: RuleHandle<A>)
        ensures
            forall|ast: A, found: Seq<SpecLint>| #[trigger]
                out.inner.may_find(ast, found) == (found == too_wide(ast, limit)),
    {
        RuleHandle { inner: Box::new(MaxFanOut { limit }) }
    }
}

/// Flags the node at a position if it has too many children.
pub open spec fn width_flag<A: Walk>(ls: Seq<(A, usize)>, limit: usize) -> spec_fn(int) -> Option<
    SpecLint,
> {
    |i: int|
        if ls[i].0.children_spec().len() > limit {
            Some(
                plain(
                    MaxFanOut::NAME@,
                    Severity::Warn,
                    ls[i].0.id_spec(),
                    "node has "@ + decimal(ls[i].0.children_spec().len())
                        + " direct children, above limit "@ + decimal(limit as nat),
                ),
            )
        } else {
            None
        }
}

/// Every node of a tree with too many children.
pub open spec fn too_wide<A: Walk>(ast: A, limit: usize) -> Seq<SpecLint> {
    gathered(levels(ast, 0).len(), width_flag(levels(ast, 0), limit))
}

impl<A: Walk> Rule<A> for MaxFanOut {
    open spec fn may_find(&self, ast: A, found: Seq<SpecLint>) -> bool {
        found == too_wide(ast, self.limit)
    }

    open spec fn rule_name(&self) -> Seq<char> {
        MaxFanOut::NAME@
    }

    fn name(&self) -> (out: &'static str) {
        MaxFanOut::NAME
    }

    fn check(&self, ast: &A, ctx: &mut LintContext) {
        let nodes = all_levels(ast);
        let ghost ls = levels_view(nodes@);
        let ghost before = ctx@;
        let ghost flag = width_flag(ls, self.limit);
        let n: usize = nodes.len();
        assert(ctx@ =~= before + gathered(0, flag));
        for i in 0..n
            invariant
                n == nodes@.len(),
                ls == levels_view(nodes@),
                flag == width_flag(ls, self.limit),
                ctx@ == before + gathered(i as nat, flag),
        {
            let node = nodes[i].0;
            assert(ls[i as int].0 == *node);
            let count: usize = node.children().len();
            if count > self.limit {
                let mut message = "node has ".to_owned();
                push_decimal(&mut message, count as u64);
                message.append(" direct children, above limit ");
                push_decimal(&mut message, self.limit as u64);
                ctx.report(MaxFanOut::NAME, Severity::Warn, node.node_id(), message.as_str());
                assert(ctx@ =~= before + gathered((i + 1) as nat, flag));
            }
        }
        assert(self.may_find(*ast, gathered(ls.len(), flag)));
    }
}

/// Flags nodes built without children although a slot of their variant is
/// declared not to be empty.
#[derive(Debug, Clone, Copy)]
pub struct NoEmptyChildSlots;

impl Default for NoEmptyChildSlots {
    fn default() -> (out: Self)
        ensures
            out == NoEmptyChildSlots,
    {
        NoEmptyChildSlots
    }
}

impl NoEmptyChildSlots {
    /// Rule name.
    pub const NAME: &'static str = "no-empty-child-slots";

    /// The rule, ready to be registered.
    pub fn boxed<A: Walk + DslSchema>() -> (out: RuleHandle<A>)
        ensures
            forall|ast: A, found: Seq<SpecLint>| #[trigger]
                out.inner.may_find(ast, found) == (found == empty_slots(ast)),
    {
        RuleHandle { inner: Box::new(NoEmptyChildSlots) }
    }
}

/// The quoted names of the slots among the first `n` that must not be empty.
pub open spec fn needed_slots(cs: Seq<SpecChildSchema>, n: nat) -> Seq<Seq<char>>
    decreases n,
{
    if n == 0 || n > cs.len() {
        Seq::empty()
    } else {
        let before = needed_slots(cs, (n - 1) as nat);
        if cs[n - 1].non_empty {
            before.push("`"@ + cs[n - 1].name + "`"@)
        } else {
            before
        }
    }
}

/// The quoted names of the slots that a variant declares not to be empty:
/// those of the last of the first `n` variants with that name and such a
/// slot.
pub open spec fn declared_slots(vs: Seq<SpecVariantSchema>, name: Seq<char>, n: nat) -> Option<
    Seq<Seq<char>>,
>
    decreases n,
{
    if n == 0 || n > vs.len() {
        None
    } else {
        let v = vs[n - 1];
        let slots = needed_slots(v.children, v.children.len());
        if v.name == name && slots.len() > 0 {
            Some(slots)
        } else {
            declared_slots(vs, name, (n - 1) as nat)
        }
    }
}

/// Flags the node at a position if it misses declared children.
pub open spec fn empty_flag<A: Walk>(ls: Seq<(A, usize)>, vs: Seq<SpecVariantSchema>) -> spec_fn(
    int,
) -> Option<SpecLint> {
    |i: int|
        match declared_slots(vs, ls[i].0.variant_spec(), vs.len()) {
            None => None,
            Some(slots) => if ls[i].0.children_spec().len() == 0 {
                Some(
                    plain(
                        NoEmptyChildSlots::NAME@,
                        Severity::Error,
                        ls[i].0.id_spec(),
                        ls[i].0.variant_spec() + " declares non-empty slot(s) "@ + join_spec(
                            slots,
                            ", "@,
                        ) + " but was built with no children"@,
                    ),
                )
            } else {
                None
            },
        }
}

/// Every node of a tree that misses declared children.
pub open spec fn empty_slots<A: Walk + DslSchema>(ast: A) -> Seq<SpecLint> {
    gathered(levels(ast, 0).len(), empty_flag(levels(ast, 0), A::schema_spec().variants))
}

fn list_needed(v: &VariantSchema) -> (out: Vec<String>)
    ensures
        strings_view(out@) == needed_slots(v@.children, v@.children.len()),
{
    let ghost all = slots_view(v.children@);
    let mut out: Vec<String> = Vec::new();
    assert(strings_view(out@) =~= needed_slots(all, 0));
    let n: usize = v.children.len();
    for i in 0..n
        invariant
            n == v.children@.len(),
            all == slots_view(v.children@),
            strings_view(out@) == needed_slots(all, i as nat),
    {
        assert(all[i as int] == v.children@[i as int]@);
        if v.children[i].non_empty {
            let ghost before = strings_view(out@);
            let quoted = cat3("`", v.children[i].name.as_str(), "`");
            out.push(quoted);
            assert(strings_view(out@) =~= before.push(quoted@));
        }
    }
    out
}

fn find_declared(schema: &NodeSchema, name: &str) -> (out: Option<Vec<String>>)
    ensures
        match out {
            Some(slots) => declared_slots(schema@.variants, name@, schema@.variants.len()) == Some(
                strings_view(slots@),
            ),
            None => declared_slots(schema@.variants, name@, schema@.variants.len()) is None,
        },
{
    let ghost all = variant_schemas_view(schema.variants@);
    let mut n: usize = schema.variants.len();
    while n > 0
        invariant
            n <= schema.variants@.len(),
            all == variant_schemas_view(schema.variants@),
            declared_slots(all, name@, all.len()) == declared_slots(all, name@, n as nat),
        decreases n,
    {
        let v = &schema.variants[n - 1];
        assert(all[n - 1] == v@);
        if same_text(v.name.as_str(), name) {
            let slots = list_needed(v);
            assert(strings_view(slots@).len() == slots@.len());
            if slots.len() > 0 {
                return Some(slots);
            }
        }
        n -= 1;
    }
    None
}

impl<A: Walk + DslSchema> Rule<A> for NoEmptyChildSlots {
    open spec fn may_find(&self, ast: A, found: Seq<SpecLint>) -> bool {
        found == empty_slots(ast)
    }

    open spec fn rule_name(&self) -> Seq<char> {
        NoEmptyChildSlots::NAME@
    }

    fn name(&self) -> (out: &'static str) {
        NoEmptyChildSlots::NAME
    }

    fn check(&self, ast: &A, ctx: &mut LintContext) {
        let schema = A::schema();
        let nodes = all_levels(ast);
        let ghost ls = levels_view(nodes@);
        let ghost before = ctx@;
        let ghost flag = empty_flag(ls, A::schema_spec().variants);
        let n: usize = nodes.len();
        assert(ctx@ =~= before + gathered(0, flag));
        for i in 0..n
            invariant
                n == nodes@.len(),
                ls == levels_view(nodes@),
                schema@ == A::schema_spec(),
                flag == empty_flag(ls, A::schema_spec().variants),
                ctx@ == before + gathered(i as nat, flag),
        {
            let node = nodes[i].0;
            assert(ls[i as int].0 == *node);
            let name = node.variant_name();
            if let Some(slots) = find_declared(&schema, name) {
                if node.children().len() == 0 {
                    let message = cat5(
                        name,
                        " declares non-empty slot(s) ",
                        join(&slots, ", ").as_str(),
                        " but was built with no children",
                        "",
                    );
                    proof {
                        reveal_strlit("");
                        assert(message@ =~= name@ + " declares non-empty slot(s) "@ + join_spec(
                            strings_view(slots@),
                            ", "@,
                        ) + " but was built with no children"@);
                    }
                    ctx.report(
                        NoEmptyChildSlots::NAME,
                        Severity::Error,
                        node.node_id(),
                        message.as_str(),
                    );
                    assert(ctx@ =~= before + gathered((i + 1) as nat, flag));
                }
            }
        }
        assert(self.may_find(*ast, gathered(ls.len(), flag)));
    }
}

/// Flags nodes that wrap a single child of their own variant.
#[derive(Debug, Clone, Copy)]
pub struct NoRedundantWrap;

impl Default for NoRedundantWrap {
    fn default() -> (out: Self)
        ensures
            out == NoRedundantWrap,
    {
        NoRedundantWrap
    }
}

impl NoRedundantWrap {
    /// Rule name.
    pub const NAME: &'static str = "no-redundant-wrap";

    /// The rule, ready to be registered.
    pub fn boxed<A: Walk>() -> (out: RuleHandle<A>)
        ensures
            forall|ast: A, found: Seq<SpecLint>| #[trigger]
                out.inner.may_find(ast, found) == (found == redundant_wraps(ast)),
    {
        RuleHandle { inner: Box::new(NoRedundantWrap) }
    }
}

/// Flags the node at a position if it wraps its like.
pub open spec fn wrap_flag<A: Walk>(ls: Seq<(A, usize)>) -> spec_fn(int) -> Option<SpecLint> {
    |i: int|
        if ls[i].0.children_spec().len() == 1 && ls[i].0.children_spec()[0].variant_spec()
            == ls[i].0.variant_spec() {
            Some(
                plain(
                    NoRedundantWrap::NAME@,
                    Severity::Warn,
                    ls[i].0.id_spec(),
                    ls[i].0.variant_spec() + " wraps a single "@ + ls[i].0.variant_spec()
                        + "; the outer wrap can be inlined"@,
                ),
            )
        } else {
            None
        }
}

/// Every node of a tree that wraps its like.
pub open spec fn redundant_wraps<A: Walk>(ast: A) -> Seq<SpecLint> {
    gathered(levels(ast, 0).len(), wrap_flag(levels(ast, 0)))
}

impl<A: Walk> Rule<A> for NoRedundantWrap {
    open spec fn may_find(&self, ast: A, found: Seq<SpecLint>) -> bool {
        found == redundant_wraps(ast)
    }

    open spec fn rule_name(&self) -> Seq<char> {
        NoRedundantWrap::NAME@
    }

    fn name(&self) -> (out: &'static str) {
        NoRedundantWrap::NAME
    }

    fn check(&self, ast: &A, ctx: &mut LintContext) {
        let nodes = all_levels(ast);
        let ghost ls = levels_view(nodes@);
        let ghost before = ctx@;
        let ghost flag = wrap_flag(ls);
        let n: usize = nodes.len();
        assert(ctx@ =~= before + gathered(0, flag));
        for i in 0..n
            invariant
                n == nodes@.len(),
                ls == levels_view(nodes@),
                flag == wrap_flag(ls),
                ctx@ == before + gathered(i as nat, flag),
        {
            let node = nodes[i].0;
            assert(ls[i as int].0 == *node);
            let kids = node.children();
            if kids.len() == 1 {
                assert(*kids@[0] == node.children_spec()[0]);
                let parent = node.variant_name();
                let child = kids[0].variant_name();
                if same_text(parent, child) {
                    let message = cat5(
                        parent,
                        " wraps a single ",
                        child,
                        "; the outer wrap can be inlined",
                        "",
                    );
                    proof {
                        reveal_strlit("");
                        assert(message@ =~= parent@ + " wraps a single "@ + parent@
                            + "; the outer wrap can be inlined"@);
                    }
                    ctx.report(
                        NoRedundantWrap::NAME,
                        Severity::Warn,
                        node.node_id(),
                        message.as_str(),
                    );
                    assert(ctx@ =~= before + gathered((i + 1) as nat, flag));
                }
            }
        }
        assert(self.may_find(*ast, gathered(ls.len(), flag)));
    }
}

/// Reports variants that a tree does not use.
#[derive(Debug, Clone, Copy)]
pub struct DeadVariants;

impl Default for DeadVariants {
    fn default() -> (out: Self)
        ensures
            out == DeadVariants,
    {
        DeadVariants
    }
}

impl DeadVariants {
    /// Rule name.
    pub const NAME: &'static str = "dead-variants";

    /// The rule, ready to be registered.
    pub fn boxed<A: Walk + DslSchema>() -> (out: RuleHandle<A>)
        ensures
            forall|ast: A, found: Seq<SpecLint>| #[trigger]
                out.inner.may_find(ast, found) == (found == unused_variants(ast)),
    {
        RuleHandle { inner: Box::new(DeadVariants) }
    }
}

/// Whether some node has this variant name.
pub open spec fn uses<A: Walk>(ls: Seq<(A, usize)>, name: Seq<char>) -> bool {
    exists|i: int| 0 <= i < ls.len() && (#[trigger] ls[i]).0.variant_spec() == name
}

/// The unused names among the first `n` variants, each once, in order of
/// their text.
pub open spec fn dead_names<A: Walk>(
    ls: Seq<(A, usize)>,
    vs: Seq<SpecVariantSchema>,
    n: nat,
) -> Seq<Seq<char>>
    decreases n,
{
    if n == 0 || n > vs.len() {
        Seq::empty()
    } else {
        let before = dead_names(ls, vs, (n - 1) as nat);
        if uses(ls, vs[n - 1].name) {
            before
        } else {
            insert_name(before, vs[n - 1].name)
        }
    }
}

/// The report about an unused variant.
pub open spec fn dead_report(root: NodeId, name: Seq<char>) -> SpecLint {
    plain(
        DeadVariants::NAME@,
        Severity::Info,
        root,
        "schema variant "@ + name + " is not present in the AST"@,
    )
}

/// The reports about unused variants, at the root.
pub open spec fn unused_variants<A: Walk + DslSchema>(ast: A) -> Seq<SpecLint> {
    let names = dead_names(
        levels(ast, 0),
        A::schema_spec().variants,
        A::schema_spec().variants.len(),
    );
    Seq::new(names.len(), |i: int| dead_report(ast.id_spec(), names[i]))
}

fn is_used<'a, A: Walk>(nodes: &Vec<(&'a A, usize)>, name: &str) -> (out: bool)
    ensures
        out == uses(levels_view(nodes@), name@),
{
    let ghost ls = levels_view(nodes@);
    let n: usize = nodes.len();
    for i in 0..n
        invariant
            n == nodes@.len(),
            ls == levels_view(nodes@),
            forall|j: int| 0 <= j < i ==> (#[trigger] ls[j]).0.variant_spec() != name@,
    {
        assert(ls[i as int].0 == *nodes@[i as int].0);
        if same_text(nodes[i].0.variant_name(), name) {
            return true;
        }
    }
    false
}

impl<A: Walk + DslSchema> Rule<A> for DeadVariants {
    open spec fn may_find(&self, ast: A, found: Seq<SpecLint>) -> bool {
        found == unused_variants(ast)
    }

    open spec fn rule_name(&self) -> Seq<char> {
        DeadVariants::NAME@
    }

    fn name(&self) -> (out: &'static str) {
        DeadVariants::NAME
    }

    fn check(&self, ast: &A, ctx: &mut LintContext) {
        let schema = A::schema();
        let nodes = all_levels(ast);
        let ghost ls = levels_view(nodes@);
        let ghost vs = variant_schemas_view(schema.variants@);
        let ghost before = ctx@;
        let mut dead: Vec<String> = Vec::new();
        assert(strings_view(dead@) =~= dead_names(ls, vs, 0));
        let n: usize = schema.variants.len();
        for i in 0..n
            invariant
                n == schema.variants@.len(),
                ls == levels_view(nodes@),
                vs == variant_schemas_view(schema.variants@),
                strings_view(dead@) == dead_names(ls, vs, i as nat),
        {
            assert(vs[i as int] == schema.variants@[i as int]@);
            if !is_used(&nodes, schema.variants[i].name.as_str()) {
                insert_text(&mut dead, schema.variants[i].name.as_str());
            }
        }
        let ghost names = strings_view(dead@);
        let ghost all = Seq::new(names.len(), |i: int| dead_report(ast.id_spec(), names[i]));
        let root = ast.node_id();
        let m: usize = dead.len();
        assert(ctx@ =~= before + all.take(0));
        for i in 0..m
            invariant
                m == dead@.len(),
                names == strings_view(dead@),
                root == ast.id_spec(),
                all == Seq::new(names.len(), |i: int| dead_report(ast.id_spec(), names[i])),
                ctx@ == before + all.take(i as int),
        {
            assert(names[i as int] == dead@[i as int]@);
            let message = cat3(
                "schema variant ",
                dead[i].as_str(),
                " is not present in the AST",
            );
            ctx.report(DeadVariants::NAME, Severity::Info, root, message.as_str());
            assert(ctx@ =~= before + all.take(i + 1));
        }
        assert(all.take(all.len() as int) =~= all);
        assert(all =~= unused_variants(*ast));
        assert(self.may_find(*ast, all));
    }
}

/// Whether a linter has the default rules.
pub open spec fn has_defaults<A: Walk + DslSchema>(linter: Linter<A>) -> bool {
    &&& linter.count() == 5
    &&& forall|ast: A, found: Seq<SpecLint>| #[trigger]
        linter.may_find(0, ast, found) == (found == repeated_ids(ast))
    &&& forall|ast: A, found: Seq<SpecLint>| #[trigger]
        linter.may_find(1, ast, found) == (found == too_deep(ast, MaxDepth::DEFAULT_LIMIT))
    &&& forall|ast: A, found: Seq<SpecLint>| #[trigger]
        linter.may_find(2, ast, found) == (found == too_wide(ast, MaxFanOut::DEFAULT_LIMIT))
    &&& forall|ast: A, found: Seq<SpecLint>| #[trigger]
        linter.may_find(3, ast, found) == (found == empty_slots(ast))
    &&& forall|ast: A, found: Seq<SpecLint>| #[trigger]
        linter.may_find(4, ast, found) == (found == redundant_wraps(ast))
}

/// What the default rules find in a tree, rule by rule.
pub open spec fn default_findings<A: Walk + DslSchema>(ast: A) -> Seq<SpecLint> {
    repeated_ids(ast) + too_deep(ast, MaxDepth::DEFAULT_LIMIT) + too_wide(
        ast,
        MaxFanOut::DEFAULT_LIMIT,
    ) + empty_slots(ast) + redundant_wraps(ast)
}

/// A linter with the default rules has one answer for every tree.
pub proof fn law_default_rules_have_one_answer<A: Walk + DslSchema>(
    linter: Linter<A>,
    ast: A,
    found: Seq<SpecLint>,
)
    requires
        has_defaults(linter),
    ensures
        may_lint(linter, ast, found) <==> found == default_findings(ast),
{
    let parts = seq![
        repeated_ids(ast),
        too_deep(ast, MaxDepth::DEFAULT_LIMIT),
        too_wide(ast, MaxFanOut::DEFAULT_LIMIT),
        empty_slots(ast),
        redundant_wraps(ast),
    ];
    reveal_with_fuel(joined, 6);
    let last4 = parts.drop_last();
    let last3 = last4.drop_last();
    let last2 = last3.drop_last();
    let last1 = last2.drop_last();
    assert(last1.drop_last() =~= Seq::empty());
    assert(joined(parts) =~= default_findings(ast));
    assert forall|i: int| 0 <= i < parts.len() implies linter.may_find(
        i,
        ast,
        #[trigger] parts[i],
    ) by {
        if i == 0 {
        } else if i == 1 {
        } else if i == 2 {
        } else if i == 3 {
        } else {
            assert(i == 4);
        }
    }
    assert(may_find_parts(linter, ast, parts));
    if may_lint(linter, ast, found) {
        let given = choose|given: Seq<Seq<SpecLint>>| #[trigger]
            may_find_parts(linter, ast, given) && found == joined(given);
        assert(linter.may_find(0, ast, given[0]));
        assert(linter.may_find(1, ast, given[1]));
        assert(linter.may_find(2, ast, given[2]));
        assert(linter.may_find(3, ast, given[3]));
        assert(linter.may_find(4, ast, given[4]));
        assert(given =~= parts);
    }
}

impl<A: Walk + DslSchema> Linter<A> {
    /// The built-in rules but for [`DeadVariants`] and [`TypoHint`]: correct
    /// programs routinely use only some variants.
    pub fn with_defaults() -> (out: Self)
        ensures
            has_defaults(out),
    {
        let one: Linter<A> = Linter::new().with_rule(UniqueNodeIds::boxed());
        let two: Linter<A> = one.with_rule(MaxDepth::boxed(MaxDepth::DEFAULT_LIMIT));
        let three: Linter<A> = two.with_rule(MaxFanOut::boxed(MaxFanOut::DEFAULT_LIMIT));
        let four: Linter<A> = three.with_rule(NoEmptyChildSlots::boxed());
        four.with_rule(NoRedundantWrap::boxed())
    }
}

/// The labels a typo rule looks at.
pub trait TypoLabelExtractor<A> {
    /// The labels of a tree and where they stand.
    spec fn labels_spec(&self, ast: A) -> Seq<(NodeId, Seq<char>)>;

    /// Lists the labels of a tree and where they stand.
    fn labels(&self, ast: &A) -> (out: Vec<(NodeId, String)>)
        ensures
            labels_view(out@) == self.labels_spec(*ast),
    ;
}

/// The views of a list of labels.
pub open spec fn labels_view(ls: Seq<(NodeId, String)>) -> Seq<(NodeId, Seq<char>)> {
    Seq::new(ls.len(), |i: int| (ls[i].0, ls[i].1@))
}

/// An owned label extractor of any kind.
#[verifier::reject_recursive_types(A)]
pub struct LabelSource<A> {
    /// The extractor itself.
    pub inner: Box<dyn TypoLabelExtractor<A>>,
}

/// Flags labels that look like a mistyped variant name. Without a suggester
/// it finds nothing.
#[verifier::reject_recursive_types(A)]
pub struct TypoHint<A: Walk> {
    suggester: SuggesterHandle,
    extractor: LabelSource<A>,
}

/// The names of variants.
pub open spec fn variant_names(vs: Seq<SpecVariantSchema>) -> Seq<Seq<char>> {
    Seq::new(vs.len(), |i: int| vs[i].name)
}

/// The fix that replaces a label.
pub open spec fn typo_fix(node: NodeId, label: Seq<char>, replacement: Seq<char>) -> SpecFix {
    SpecFix {
        message: "replace `"@ + label + "` with `"@ + replacement + "`"@,
        patch: seq![SpecPatchPart { node, path: None, replacement }],
        applicability: Applicability::MaybeIncorrect,
    }
}

/// The report about a label, with the closest name as a fix.
pub open spec fn typo_report(
    node: NodeId,
    label: Seq<char>,
    hint: Seq<char>,
    ss: Seq<SpecSuggestion>,
) -> SpecLint {
    SpecLint {
        rule: "typo-hint"@,
        severity: Severity::Info,
        node,
        message: "`"@ + label + "` looks like a schema variant name; "@ + hint,
        suggestion: if ss.len() > 0 {
            Some(typo_fix(node, label, ss[0].candidate))
        } else {
            None
        },
    }
}

/// What is found about an unknown label with this hint and these
/// suggestions.
pub open spec fn typo_found(
    node: NodeId,
    label: Seq<char>,
    hint: Option<Seq<char>>,
    ss: Seq<SpecSuggestion>,
) -> Seq<SpecLint> {
    match hint {
        None => Seq::empty(),
        Some(h) => seq![typo_report(node, label, h, ss)],
    }
}

/// Reports an unknown label with this hint and these suggestions.
pub fn report_typo(
    node: NodeId,
    label: &str,
    hint: &str,
    closest: Option<&str>,
    ctx: &mut LintContext,
)
    ensures
        forall|ss: Seq<SpecSuggestion>|
            (match closest {
                Some(c) => ss.len() > 0 && ss[0].candidate == c@,
                None => ss.len() == 0,
            }) ==> final(ctx)@ == old(ctx)@.push(#[trigger] typo_report(node, label@, hint@, ss)),
{
    let message = cat5("`", label, "` looks like a schema variant name; ", hint, "");
    proof {
        reveal_strlit("");
        assert(message@ =~= "`"@ + label@ + "` looks like a schema variant name; "@ + hint@);
    }
    match closest {
        Some(replacement) => {
            let text = cat5("replace `", label, "` with `", replacement, "`");
            let fix = FixSuggestion::new(
                text.as_str(),
                PatchPart::node(node, replacement),
                Applicability::MaybeIncorrect,
            );
            ctx.report_with_suggestion(
                "typo-hint",
                Severity::Info,
                node,
                message.as_str(),
                fix,
            );
        },
        None => {
            ctx.report("typo-hint", Severity::Info, node, message.as_str());
        },
    }
}

impl<A: Walk> TypoHint<A> {
    /// Rule name.
    pub const NAME: &'static str = "typo-hint";

    /// Whether the suggester never has anything to suggest.
    pub closed spec fn dormant(&self) -> bool {
        is_silent(&*self.suggester.inner)
    }

    /// What the suggester may suggest.
    pub closed spec fn may_suggest(
        &self,
        label: Seq<char>,
        names: Seq<Seq<char>>,
        ss: Seq<SpecSuggestion>,
    ) -> bool {
        self.suggester.inner.may_suggest(label, names, ss)
    }

    /// What the suggester says about an unknown label.
    pub closed spec fn may_say(
        &self,
        label: Seq<char>,
        names: Seq<Seq<char>>,
        hint: Option<Seq<char>>,
    ) -> bool {
        says(&*self.suggester.inner, label, names, hint)
    }

    /// The labels of a tree.
    pub closed spec fn labels_of(&self, ast: A) -> Seq<(NodeId, Seq<char>)> {
        self.extractor.inner.labels_spec(ast)
    }

    /// What the suggester says about an unknown label: nothing just where it
    /// has nothing to suggest, and its own words elsewhere.
    pub open spec fn may_enrich(
        &self,
        label: Seq<char>,
        names: Seq<Seq<char>>,
        hint: Option<Seq<char>>,
    ) -> bool {
        &&& exists|hs: Seq<SpecSuggestion>| #[trigger]
            self.may_suggest(label, names, hs) && (hs.len() == 0 <==> hint is None)
        &&& self.may_say(label, names, hint)
    }

    /// What may be found about one label.
    pub open spec fn may_find_label(
        &self,
        names: Seq<Seq<char>>,
        node: NodeId,
        label: Seq<char>,
        found: Seq<SpecLint>,
    ) -> bool {
        if names.contains(label) {
            found.len() == 0
        } else {
            exists|hint: Option<Seq<char>>, ss: Seq<SpecSuggestion>|
                #![trigger self.may_enrich(label, names, hint), self.may_suggest(label, names, ss)]
                self.may_enrich(label, names, hint) && self.may_suggest(label, names, ss) && found
                    == typo_found(node, label, hint, ss)
        }
    }

    /// A rule over the labels of an extractor, without a suggester yet.
    pub fn new(extractor: LabelSource<A>) -> (out: Self)
        ensures
            out.dormant(),
            forall|ast: A| #[trigger] out.labels_of(ast) == extractor.inner.labels_spec(ast),
    {
        TypoHint { suggester: noop_handle(), extractor }
    }

    /// The rule with a suggester.
    pub fn with_suggester(self, suggester: SuggesterHandle) -> (out: Self)
        ensures
            forall|ast: A| #[trigger] out.labels_of(ast) == self.labels_of(ast),
            forall|label: Seq<char>, names: Seq<Seq<char>>, ss: Seq<SpecSuggestion>| #[trigger]
                out.may_suggest(label, names, ss) == suggester.inner.may_suggest(label, names, ss),
            forall|label: Seq<char>, names: Seq<Seq<char>>, hint: Option<Seq<char>>| #[trigger]
                out.may_say(label, names, hint) == says(&*suggester.inner, label, names, hint),
    {
        let mut out = self;
        out.suggester = suggester;
        out
    }
}

fn names_of<'a>(schema: &'a NodeSchema) -> (out: Vec<&'a str>)
    ensures
        strs_view(out@) == variant_names(schema@.variants),
{
    let ghost vs = variant_schemas_view(schema.variants@);
    let mut out: Vec<&'a str> = Vec::new();
    let n: usize = schema.variants.len();
    for i in 0..n
        invariant
            n == schema.variants@.len(),
            vs == variant_schemas_view(schema.variants@),
            out@.len() == i,
            forall|j: int| 0 <= j < i ==> (#[trigger] out@[j])@ == vs[j].name,
    {
        assert(vs[i as int] == schema.variants@[i as int]@);
        out.push(schema.variants[i].name.as_str());
    }
    assert(strs_view(out@) =~= variant_names(vs));
    out
}

fn is_name(names: &Vec<&str>, label: &str) -> (out: bool)
    ensures
        out == strs_view(names@).contains(label@),
{
    let ghost all = strs_view(names@);
    let n: usize = names.len();
    for i in 0..n
        invariant
            n == names@.len(),
            all == strs_view(names@),
            forall|j: int| 0 <= j < i ==> #[trigger] all[j] != label@,
    {
        assert(all[i as int] == names@[i as int]@);
        if same_text(names[i], label) {
            return true;
        }
    }
    assert(!all.contains(label@));
    false
}

impl<A: Walk + DslSchema> TypoHint<A> {
    /// Looks at one label.
    fn check_label(&self, names: &Vec<&str>, node: NodeId, label: &str, ctx: &mut LintContext)
        ensures
            exists|found: Seq<SpecLint>| #[trigger]
                self.may_find_label(strs_view(names@), node, label@, found) && final(ctx)@ == old(
                    ctx,
                )@ + found,
    {
        let ghost before = ctx@;
        let ghost all = strs_view(names@);
        if is_name(names, label) {
            assert(self.may_find_label(all, node, label@, Seq::empty()));
            assert(ctx@ =~= before + Seq::<SpecLint>::empty());
            return ;
        }
        let said = self.suggester.inner.enrich_unknown(label, names);
        assert(says(&*self.suggester.inner, label@, all, opt_text(said)));
        match said {
            None => {
                proof {
                    let hs = choose|hs: Seq<SpecSuggestion>| #[trigger]
                        self.suggester.inner.may_suggest(label@, all, hs) && hs.len() == 0;
                    assert(self.may_suggest(label@, all, hs));
                    assert(says(&*self.suggester.inner, label@, all, None));
                    assert(self.may_enrich(label@, all, None));
                    assert(self.may_find_label(
                        all,
                        node,
                        label@,
                        typo_found(node, label@, None, hs),
                    ));
                    assert(ctx@ =~= before + Seq::<SpecLint>::empty());
                }
            },
            Some(hint) => {
                proof {
                    let hs = choose|hs: Seq<SpecSuggestion>| #[trigger]
                        self.suggester.inner.may_suggest(label@, all, hs) && hs.len() > 0;
                    assert(self.may_suggest(label@, all, hs));
                    assert(says(&*self.suggester.inner, label@, all, Some(hint@)));
                    assert(self.may_enrich(label@, all, Some(hint@)));
                }
                let ss = self.suggester.inner.suggest(label, names);
                let ghost view = suggestions_view(ss@);
                assert(self.may_suggest(label@, all, view));
                let closest: Option<&str> = if ss.len() > 0 {
                    assert(view[0] == ss@[0]@);
                    Some(ss[0].candidate)
                } else {
                    None
                };
                report_typo(node, label, hint.as_str(), closest, ctx);
                proof {
                    let found = typo_found(node, label@, Some(hint@), view);
                    assert(found =~= seq![typo_report(node, label@, hint@, view)]);
                    assert(ctx@ =~= before + found);
                    assert(self.may_find_label(all, node, label@, found));
                }
            },
        }
    }
}

/// Whether the labels of a tree may yield these parts, one for each.
pub open spec fn may_find_labels<A: Walk + DslSchema>(
    rule: TypoHint<A>,
    ast: A,
    parts: Seq<Seq<SpecLint>>,
) -> bool {
    let labels = rule.labels_of(ast);
    parts.len() == labels.len() && forall|i: int|
        0 <= i < parts.len() ==> rule.may_find_label(
            variant_names(A::schema_spec().variants),
            labels[i].0,
            labels[i].1,
            #[trigger] parts[i],
        )
}

impl<A: Walk + DslSchema> Rule<A> for TypoHint<A> {
    open spec fn may_find(&self, ast: A, found: Seq<SpecLint>) -> bool {
        exists|parts: Seq<Seq<SpecLint>>| #[trigger]
            may_find_labels(*self, ast, parts) && found == joined(parts)
    }

    open spec fn rule_name(&self) -> Seq<char> {
        TypoHint::<A>::NAME@
    }

    fn name(&self) -> (out: &'static str) {
        TypoHint::<A>::NAME
    }

    fn check(&self, ast: &A, ctx: &mut LintContext) {
        let schema = A::schema();
        let names = names_of(&schema);
        let labels = self.extractor.inner.labels(ast);
        let ghost before = ctx@;
        let ghost all = labels_view(labels@);
        let ghost mut parts: Seq<Seq<SpecLint>> = Seq::empty();
        let n: usize = labels.len();
        assert(ctx@ =~= before + joined(parts));
        for i in 0..n
            invariant
                n == labels@.len(),
                all == labels_view(labels@),
                all == self.labels_of(*ast),
                strs_view(names@) == variant_names(A::schema_spec().variants),
                parts.len() == i,
                forall|j: int|
                    0 <= j < i ==> self.may_find_label(
                        variant_names(A::schema_spec().variants),
                        all[j].0,
                        all[j].1,
                        #[trigger] parts[j],
                    ),
                ctx@ == before + joined(parts),
        {
            let ghost mid = ctx@;
            assert(all[i as int] == (labels@[i as int].0, labels@[i as int].1@));
            self.check_label(&names, labels[i].0, labels[i].1.as_str(), ctx);
            proof {
                let found = choose|found: Seq<SpecLint>| #[trigger]
                    self.may_find_label(
                        strs_view(names@),
                        labels@[i as int].0,
                        labels@[i as int].1@,
                        found,
                    ) && ctx@ == mid + found;
                let longer = parts.push(found);
                assert(longer.drop_last() =~= parts);
                assert(ctx@ =~= before + joined(longer));
                assert forall|j: int| 0 <= j < i + 1 implies self.may_find_label(
                    variant_names(A::schema_spec().variants),
                    all[j].0,
                    all[j].1,
                    #[trigger] longer[j],
                ) by {
                    if j < i {
                        assert(longer[j] == parts[j]);
                    }
                }
                parts = longer;
            }
        }
        assert(may_find_labels(*self, *ast, parts));
        assert(self.may_find(*ast, joined(parts)));
    }
}

/// What kind of finding a rule makes.
#[derive(Debug, Clone, Copy, PartialEq, Eq, Structural)]
pub enum LintCategory {
    /// The tree is wrong.
    Correctness,
    /// Probably a mistake, but not provably.
    Suspicious,
    /// A matter of taste.
    Style,
    /// Hard to maintain.
    Complexity,
    /// Breaks a limit the caller set.
    Contract,
}

/// What a rule is, apart from how it works.
#[derive(Debug, Clone, Copy, PartialEq, Eq)]
pub struct LintDecl {
    /// Rule name.
    pub name: &'static str,
    /// Stable code.
    pub code: &'static str,
    /// Category.
    pub category: LintCategory,
    /// Severity it reports at.
    pub default_severity: Severity,
    /// One-line description.
    pub desc: &'static str,
}

/// The mathematical shape of a [`LintDecl`].
pub struct SpecLintDecl {
    pub name: Seq<char>,
    pub code: Seq<char>,
    pub category: LintCategory,
    pub default_severity: Severity,
    pub desc: Seq<char>,
}

impl View for LintDecl {
    type V = SpecLintDecl;

    open spec fn view(&self) -> SpecLintDecl {
        SpecLintDecl {
            name: self.name@,
            code: self.code@,
            category: self.category,
            default_severity: self.default_severity,
            desc: self.desc@,
        }
    }
}

/// The views of a list of declarations.
pub open spec fn lint_decls_view(ds: Seq<LintDecl>) -> Seq<SpecLintDecl> {
    Seq::new(ds.len(), |i: int| ds[i]@)
}

/// The built-in rules.
pub open spec fn lint_table() -> Seq<SpecLintDecl> {
    seq![
        SpecLintDecl {
            name: UniqueNodeIds::NAME@,
            code: "dsl_kit::lint::unique_node_ids"@,
            category: LintCategory::Correctness,
            default_severity: Severity::Error,
            desc: "flags AST nodes that reuse a NodeId, which breaks breakpoint targeting and path resolution"@,
        },
        SpecLintDecl {
            name: MaxDepth::NAME@,
            code: "dsl_kit::lint::max_depth"@,
            category: LintCategory::Contract,
            default_severity: Severity::Error,
            desc: "flags nodes nested deeper than a configured depth ceiling"@,
        },
        SpecLintDecl {
            name: MaxFanOut::NAME@,
            code: "dsl_kit::lint::max_fan_out"@,
            category: LintCategory::Complexity,
            default_severity: Severity::Warn,
            desc: "flags nodes whose direct-child count exceeds a configured fan-out limit"@,
        },
        SpecLintDecl {
            name: NoEmptyChildSlots::NAME@,
            code: "dsl_kit::lint::no_empty_child_slots"@,
            category: LintCategory::Correctness,
            default_severity: Severity::Error,
            desc: "flags a variant with a declared non-empty collection slot (ChildSchema::non_empty) that was built with no children"@,
        },
        SpecLintDecl {
            name: NoRedundantWrap::NAME@,
            code: "dsl_kit::lint::no_redundant_wrap"@,
            category: LintCategory::Complexity,
            default_severity: Severity::Warn,
            desc: "flags a variant that wraps a single child of the same variant, adding no structure"@,
        },
        SpecLintDecl {
            name: DeadVariants::NAME@,
            code: "dsl_kit::lint::dead_variants"@,
            category: LintCategory::Suspicious,
            default_severity: Severity::Info,
            desc: "reports schema variants that never appear in the AST (opt-in dead-code review)"@,
        },
        SpecLintDecl {
            name: "typo-hint"@,
            code: "dsl_kit::lint::typo_hint"@,
            category: LintCategory::Suspicious,
            default_severity: Severity::Info,
            desc: "flags labels that look like a mistyped schema variant name (opt-in, suggester-driven)"@,
        },
    ]
}

/// The declarations of the built-in rules.
pub fn lint_decls() -> (out: Vec<LintDecl>)
    ensures
        lint_decls_view(out@) == lint_table(),
{
    let mut out: Vec<LintDecl> = Vec::new();
    out.push(
        LintDecl {
            name: UniqueNodeIds::NAME,
            code: "dsl_kit::lint::unique_node_ids",
            category: LintCategory::Correctness,
            default_severity: Severity::Error,
            desc: "flags AST nodes that reuse a NodeId, which breaks breakpoint targeting and path resolution",
        },
    );
    out.push(
        LintDecl {
            name: MaxDepth::NAME,
            code: "dsl_kit::lint::max_depth",
            category: LintCategory::Contract,
            default_severity: Severity::Error,
            desc: "flags nodes nested deeper than a configured depth ceiling",
        },
    );
    out.push(
        LintDecl {
            name: MaxFanOut::NAME,
            code: "dsl_kit::lint::max_fan_out",
            category: LintCategory::Complexity,
            default_severity: Severity::Warn,
            desc: "flags nodes whose direct-child count exceeds a configured fan-out limit",
        },
    );
    out.push(
        LintDecl {
            name: NoEmptyChildSlots::NAME,
            code: "dsl_kit::lint::no_empty_child_slots",
            category: LintCategory::Correctness,
            default_severity: Severity::Error,
            desc: "flags a variant with a declared non-empty collection slot (ChildSchema::non_empty) that was built with no children",
        },
    );
    out.push(
        LintDecl {
            name: NoRedundantWrap::NAME,
            code: "dsl_kit::lint::no_redundant_wrap",
            category: LintCategory::Complexity,
            default_severity: Severity::Warn,
            desc: "flags a variant that wraps a single child of the same variant, adding no structure",
        },
    );
    out.push(
        LintDecl {
            name: DeadVariants::NAME,
            code: "dsl_kit::lint::dead_variants",
            category: LintCategory::Suspicious,
            default_severity: Severity::Info,
            desc: "reports schema variants that never appear in the AST (opt-in dead-code review)",
        },
    );
    out.push(
        LintDecl {
            name: "typo-hint",
            code: "dsl_kit::lint::typo_hint",
            category: LintCategory::Suspicious,
            default_severity: Severity::Info,
            desc: "flags labels that look like a mistyped schema variant name (opt-in, suggester-driven)",
        },
    );
    assert(lint_decls_view(out@) =~= lint_table());
    out
}

/// The first declaration with this name or code, from position `i` on.
pub open spec fn found_decl(ds: Seq<SpecLintDecl>, text: Seq<char>, i: int) -> Option<SpecLintDecl>
    decreases ds.len() - i,
{
    if i < 0 || i >= ds.len() {
        None
    } else if ds[i].name == text || ds[i].code == text {
        Some(ds[i])
    } else {
        found_decl(ds, text, i + 1)
    }
}

/// Looks a declaration up by name or code.
pub fn lint_decl(name_or_code: &str) -> (out: Option<LintDecl>)
    ensures
        match out {
            Some(d) => found_decl(lint_table(), name_or_code@, 0) == Some(d@),
            None => found_decl(lint_table(), name_or_code@, 0) is None,
        },
{
    let decls = lint_decls();
    let ghost all = lint_decls_view(decls@);
    let n: usize = decls.len();
    for i in 0..n
        invariant
            n == decls@.len(),
            all == lint_decls_view(decls@),
            all == lint_table(),
            found_decl(all, name_or_code@, 0) == found_decl(all, name_or_code@, i as int),
    {
        assert(all[i as int] == decls@[i as int]@);
        if same_text(decls[i].name, name_or_code) || same_text(decls[i].code, name_or_code) {
            return Some(decls[i]);
        }
    }
    None
}

/// The name of a category.
pub open spec fn category_text(c: LintCategory) -> Seq<char> {
    match c {
        LintCategory::Correctness => "Correctness"@,
        LintCategory::Suspicious => "Suspicious"@,
        LintCategory::Style => "Style"@,
        LintCategory::Complexity => "Complexity"@,
        LintCategory::Contract => "Contract"@,
    }
}

/// The name of a severity.
pub open spec fn severity_text(s: Severity) -> Seq<char> {
    match s {
        Severity::Error => "Error"@,
        Severity::Warn => "Warn"@,
        Severity::Info => "Info"@,
    }
}

impl LintCategory {
    /// The name of the category.
    pub fn to_text(&self) -> (out: &'static str)
        ensures
            out@ == category_text(*self),
    {
        match self {
            LintCategory::Correctness => "Correctness",
            LintCategory::Suspicious => "Suspicious",
            LintCategory::Style => "Style",
            LintCategory::Complexity => "Complexity",
            LintCategory::Contract => "Contract",
        }
    }
}

impl Severity {
    /// The name of the severity.
    pub fn to_text(&self) -> (out: &'static str)
        ensures
            out@ == severity_text(*self),
    {
        match self {
            Severity::Error => "Error",
            Severity::Warn => "Warn",
            Severity::Info => "Info",
        }
    }
}

/// The catalogue entry of a rule.
pub open spec fn lint_entry(d: SpecLintDecl) -> SpecCatalogEntry {
    SpecCatalogEntry {
        code: d.code,
        help: d.desc + " [lint: category="@ + category_text(d.category) + ", default severity="@
            + severity_text(d.default_severity) + "]"@,
    }
}

/// The built-in rules as catalogue entries.
pub fn lint_catalog() -> (out: Vec<ErrorCatalogEntry>)
    ensures
        out@.len() == lint_table().len(),
        forall|i: int| 0 <= i < out@.len() ==> (#[trigger] out@[i])@ == lint_entry(lint_table()[i]),
{
    let decls = lint_decls();
    let ghost all = lint_decls_view(decls@);
    let mut out: Vec<ErrorCatalogEntry> = Vec::new();
    let n: usize = decls.len();
    for i in 0..n
        invariant
            n == decls@.len(),
            all == lint_decls_view(decls@),
            out@.len() == i,
            forall|j: int| 0 <= j < i ==> (#[trigger] out@[j])@ == lint_entry(all[j]),
    {
        let d = &decls[i];
        assert(all[i as int] == d@);
        let mut help = cat5(
            d.desc,
            " [lint: category=",
            d.category.to_text(),
            ", default severity=",
            d.default_severity.to_text(),
        );
        help.append("]");
        out.push(ErrorCatalogEntry { code: d.code.to_owned(), help });
    }
    out
}

/// A tree in which no identity appears twice.
pub open spec fn distinct_ids<A: Walk>(ls: Seq<(A, usize)>, n: nat) -> bool {
    forall|i: int, j: int|
        0 <= i < j < n ==> (#[trigger] ls[i]).0.id_spec() != (#[trigger] ls[j]).0.id_spec()
}

proof fn lemma_no_repeat<A: Walk>(ls: Seq<(A, usize)>, n: nat)
    requires
        n <= ls.len(),
    ensures
        gathered(n, repeat_flag(ls)).len() == 0 <==> distinct_ids(ls, n),
    decreases n,
{
    if n > 0 {
        lemma_no_repeat(ls, (n - 1) as nat);
        let flag = repeat_flag(ls);
        assert(flag(n - 1) is None <==> !seen_before(ls, n - 1));
        if distinct_ids(ls, n) {
            if seen_before(ls, n - 1) {
                let j = choose|j: int|
                    0 <= j < n - 1 && (#[trigger] ls[j]).0.id_spec() == ls[n - 1].0.id_spec();
                assert(ls[j].0.id_spec() != ls[n - 1].0.id_spec());
            }
            assert(distinct_ids(ls, (n - 1) as nat));
        }
        if gathered(n, flag).len() == 0 {
            assert forall|i: int, j: int| 0 <= i < j < n implies (#[trigger] ls[i]).0.id_spec() != (
            #[trigger] ls[j]).0.id_spec() by {
                if j == n - 1 {
                    if ls[i].0.id_spec() == ls[j].0.id_spec() {
                        assert(seen_before(ls, n - 1));
                    }
                }
            }
        }
    }
}

/// The identity rule is silent exactly on trees in which every identity is
/// unique.
pub proof fn law_silent_iff_identities_are_unique<A: Walk>(ast: A)
    ensures
        repeated_ids(ast).len() == 0 <==> distinct_ids(levels(ast, 0), levels(ast, 0).len()),
{
    lemma_no_repeat(levels(ast, 0), levels(ast, 0).len());
}

/// Without a suggester the typo rule finds nothing.
pub proof fn law_dormant_typo_rule_is_silent<A: Walk + DslSchema>(
    rule: TypoHint<A>,
    ast: A,
    found: Seq<SpecLint>,
)
    requires
        rule.dormant(),
        rule.may_find(ast, found),
    ensures
        found.len() == 0,
{
    let parts = choose|parts: Seq<Seq<SpecLint>>| #[trigger]
        may_find_labels(rule, ast, parts) && found == joined(parts);
    let labels = rule.labels_of(ast);
    let names = variant_names(A::schema_spec().variants);
    assert forall|i: int| 0 <= i < parts.len() implies (#[trigger] parts[i]).len() == 0 by {
        assert(rule.may_find_label(names, labels[i].0, labels[i].1, parts[i]));
        if !names.contains(labels[i].1) {
            let (hint, ss) = choose|hint: Option<Seq<char>>, ss: Seq<SpecSuggestion>|
                #![trigger rule.may_enrich(labels[i].1, names, hint), rule.may_suggest(labels[i].1, names, ss)]
                rule.may_enrich(labels[i].1, names, hint) && rule.may_suggest(
                    labels[i].1,
                    names,
                    ss,
                ) && parts[i] == typo_found(labels[i].0, labels[i].1, hint, ss);
            let hs = choose|hs: Seq<SpecSuggestion>| #[trigger]
                rule.may_suggest(labels[i].1, names, hs) && (hs.len() == 0 ==> hint is None);
            assert(rule.suggester.inner.may_suggest(labels[i].1, names, hs));
        }
    }
    lemma_joined_empty(parts);
}

proof fn lemma_joined_empty(parts: Seq<Seq<SpecLint>>)
    requires
        forall|i: int| 0 <= i < parts.len() ==> (#[trigger] parts[i]).len() == 0,
    ensures
        joined(parts).len() == 0,
    decreases parts.len(),
{
    if parts.len() > 0 {
        lemma_joined_empty(parts.drop_last());
        assert(parts.last() == parts[parts.len() - 1]);
    }
}

/// Whether all findings carry the name and the severity that a rule declares.
pub open spec fn as_declared(found: Seq<SpecLint>, d: SpecLintDecl) -> bool {
    forall|i: int|
        0 <= i < found.len() ==> (#[trigger] found[i]).rule == d.name && found[i].severity
            == d.default_severity
}

proof fn lemma_gathered_as_declared(
    n: nat,
    flag: spec_fn(int) -> Option<SpecLint>,
    d: SpecLintDecl,
)
    requires
        forall|i: int|
            0 <= i < n ==> (#[trigger] flag(i) matches Some(l) ==> l.rule == d.name && l.severity
                == d.default_severity),
    ensures
        as_declared(gathered(n, flag), d),
    decreases n,
{
    if n > 0 {
        lemma_gathered_as_declared((n - 1) as nat, flag, d);
        assert(flag(n - 1) matches Some(l) ==> l.rule == d.name && l.severity
            == d.default_severity);
    }
}

proof fn lemma_joined_as_declared(parts: Seq<Seq<SpecLint>>, d: SpecLintDecl)
    requires
        forall|i: int| 0 <= i < parts.len() ==> as_declared(#[trigger] parts[i], d),
    ensures
        as_declared(joined(parts), d),
    decreases parts.len(),
{
    if parts.len() > 0 {
        let front = parts.drop_last();
        assert forall|i: int| 0 <= i < front.len() implies as_declared(#[trigger] front[i], d) by {
            assert(front[i] == parts[i]);
        }
        lemma_joined_as_declared(front, d);
        assert(as_declared(parts[parts.len() - 1], d));
    }
}

/// Every built-in rule reports under the name and at the severity that its
/// declaration gives.
pub proof fn law_findings_are_as_declared<A: Walk + DslSchema>(
    ast: A,
    limit: usize,
    rule: TypoHint<A>,
    found: Seq<SpecLint>,
)
    ensures
        as_declared(repeated_ids(ast), lint_table()[0]),
        as_declared(too_deep(ast, limit), lint_table()[1]),
        as_declared(too_wide(ast, limit), lint_table()[2]),
        as_declared(empty_slots(ast), lint_table()[3]),
        as_declared(redundant_wraps(ast), lint_table()[4]),
        as_declared(unused_variants(ast), lint_table()[5]),
        rule.may_find(ast, found) ==> as_declared(found, lint_table()[6]),
{
    let ls = levels(ast, 0);
    let vs = A::schema_spec().variants;
    lemma_gathered_as_declared(ls.len(), repeat_flag(ls), lint_table()[0]);
    lemma_gathered_as_declared(ls.len(), depth_flag(ls, limit), lint_table()[1]);
    lemma_gathered_as_declared(ls.len(), width_flag(ls, limit), lint_table()[2]);
    lemma_gathered_as_declared(ls.len(), empty_flag(ls, vs), lint_table()[3]);
    lemma_gathered_as_declared(ls.len(), wrap_flag(ls), lint_table()[4]);
    if rule.may_find(ast, found) {
        let parts = choose|parts: Seq<Seq<SpecLint>>| #[trigger]
            may_find_labels(rule, ast, parts) && found == joined(parts);
        let names = variant_names(vs);
        assert forall|i: int| 0 <= i < parts.len() implies as_declared(
            #[trigger] parts[i],
            lint_table()[6],
        ) by {
            let label = rule.labels_of(ast)[i];
            assert(rule.may_find_label(names, label.0, label.1, parts[i]));
        }
        lemma_joined_as_declared(parts, lint_table()[6]);
    }
}

} // verus!
