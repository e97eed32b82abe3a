//! Planning the judgement rules of a language.
use vstd::prelude::*;
use vstd::string::*;

use crate::check::codes::{CHECK_STATE_MISMATCH, CHECK_TYPE_MISMATCH};
use crate::check::ir::{
    clone_opt_fact, clone_premises, opt_fact_view, premises_view, rules_view, slots_view,
    CheckProgram, Fact, MessageTemplate, Premise, Rule, SeqMode, SeqSlotDecl, SpecFact,
    SpecMessage, SpecPremise, SpecProgram, SpecRule, SpecSeqSlot, SpecTerm, Term, terms_view,
};
use crate::derive::decl::{
    attrs_view, fields_view, fold_from, metas_view, planned, variants_view, AttrDecl, DeriveError,
    FieldDecl, FieldsDecl, InputDecl, MetaDecl, MetaValue, SpecAttr, SpecField, SpecFields,
    SpecInput, SpecMeta, SpecVariant, VariantDecl,
};
use crate::derive::fact::{
    fact_vars, parse_check_fact, parse_check_fact_ground, parsed_fact, parsed_ground_fact,
    term_decls_view, CheckFactDecl, CheckTermDecl, SpecFactDecl, SpecTermDecl,
};
use crate::derive::meta::{entries_of, enum_variants, enums_only, keyed, list_of, text_of};
use crate::derive::schema::{field_named, get_field};
use crate::derive::shape::{detect_recursion, recursion, Recursion};
use crate::text::{cat3, cat5, cat7, same_text, strings_view};

verus! {

/// A variable that reads a payload field.
#[derive(Debug)]
pub struct CheckBind {
    /// The variable, without its sigil.
    pub var: String,
    /// The payload field.
    pub field: String,
}

/// The mathematical shape of a [`CheckBind`].
pub struct SpecBind {
    pub var: Seq<char>,
    pub field: Seq<char>,
}

impl View for CheckBind {
    type V = SpecBind;

    open spec fn view(&self) -> SpecBind {
        SpecBind { var: self.var@, field: self.field@ }
    }
}

/// The views of a list of bindings.
pub open spec fn binds_view(bs: Seq<CheckBind>) -> Seq<SpecBind> {
    Seq::new(bs.len(), |i: int| bs[i]@)
}

/// A premise of a variant's rule.
#[derive(Debug)]
pub enum CheckPremiseDecl {
    /// The running state must match.
    State(CheckFactDecl),
    /// The conclusion of every child in a slot must match.
    Child {
        /// The slot.
        slot: String,
        /// What must match.
        expect: CheckFactDecl,
    },
}

/// The mathematical shape of a [`CheckPremiseDecl`].
pub enum SpecPremiseDecl {
    State(SpecFactDecl),
    Child { slot: Seq<char>, expect: SpecFactDecl },
}

impl View for CheckPremiseDecl {
    type V = SpecPremiseDecl;

    open spec fn view(&self) -> SpecPremiseDecl {
        match self {
            CheckPremiseDecl::State(f) => SpecPremiseDecl::State(f@),
            CheckPremiseDecl::Child { slot, expect } => SpecPremiseDecl::Child {
                slot: slot@,
                expect: expect@,
            },
        }
    }
}

/// The views of a list of premises.
pub open spec fn premise_decls_view(ps: Seq<CheckPremiseDecl>) -> Seq<SpecPremiseDecl> {
    Seq::new(ps.len(), |i: int| ps[i]@)
}

/// What the annotations of a variant say.
#[derive(Debug)]
pub struct DslCheckAttrs {
    /// Premises in declaration order.
    pub premises: Vec<CheckPremiseDecl>,
    /// State the variant leaves behind.
    pub produces: Option<CheckFactDecl>,
    /// What the variant concludes.
    pub concludes: Option<CheckFactDecl>,
    /// Variables that read payload fields.
    pub binds: Vec<CheckBind>,
    /// Own wording.
    pub message: Option<String>,
    /// Own slug.
    pub code: Option<String>,
    /// Whether there is an annotation at all.
    pub seen: bool,
}

/// The mathematical shape of a [`DslCheckAttrs`].
pub struct SpecCheckAttrs {
    pub premises: Seq<SpecPremiseDecl>,
    pub produces: Option<SpecFactDecl>,
    pub concludes: Option<SpecFactDecl>,
    pub binds: Seq<SpecBind>,
    pub message: Option<Seq<char>>,
    pub code: Option<Seq<char>>,
    pub seen: bool,
}

/// The view of an optional judgement.
pub open spec fn decl_opt(f: Option<CheckFactDecl>) -> Option<SpecFactDecl> {
    match f {
        Some(f) => Some(f@),
        None => None,
    }
}

impl View for DslCheckAttrs {
    type V = SpecCheckAttrs;

    open spec fn view(&self) -> SpecCheckAttrs {
        SpecCheckAttrs {
            premises: premise_decls_view(self.premises@),
            produces: decl_opt(self.produces),
            concludes: decl_opt(self.concludes),
            binds: binds_view(self.binds@),
            message: crate::text::opt_text(self.message),
            code: crate::text::opt_text(self.code),
            seen: self.seen,
        }
    }
}

/// No annotation at all.
pub open spec fn no_attrs() -> SpecCheckAttrs {
    SpecCheckAttrs {
        premises: Seq::empty(),
        produces: None,
        concludes: None,
        binds: Seq::empty(),
        message: None,
        code: None,
        seen: false,
    }
}

/// Whether there is a premise on the running state.
pub open spec fn has_state(ps: Seq<SpecPremiseDecl>) -> bool {
    exists|i: int| 0 <= i < ps.len() && #[trigger] ps[i] is State
}

/// Whether there is a premise on some child slot.
pub open spec fn has_child(ps: Seq<SpecPremiseDecl>) -> bool {
    exists|i: int| 0 <= i < ps.len() && #[trigger] ps[i] is Child
}

/// Whether there is a premise on this child slot.
pub open spec fn has_slot(ps: Seq<SpecPremiseDecl>, slot: Seq<char>) -> bool {
    exists|i: int|
        0 <= i < ps.len() && (#[trigger] ps[i] matches SpecPremiseDecl::Child { slot: s, .. } && s
            == slot)
}

/// Whether a variable is bound.
pub open spec fn is_bound(bs: Seq<SpecBind>, var: Seq<char>) -> bool {
    exists|i: int| 0 <= i < bs.len() && (#[trigger] bs[i]).var == var
}

/// The judgement behind an entry's key.
pub open spec fn judgement(m: SpecMeta) -> Result<SpecFactDecl, Seq<char>> {
    match text_of(m) {
        Err(e) => Err(e),
        Ok(t) => parsed_fact(t),
    }
}

/// Whether an entry has an equals sign.
pub open spec fn has_value(m: SpecMeta) -> bool {
    !(m.value is Flag) && !(m.value is List)
}

/// One `slot = "judgement"` entry.
pub open spec fn slot_premise() -> spec_fn(SpecCheckAttrs, SpecMeta) -> Result<
    SpecCheckAttrs,
    Seq<char>,
> {
    |s: SpecCheckAttrs, m: SpecMeta|
        match m.key {
            None => Err(
                "expected a child slot name, as in `requires(cond = \"type(Bool)\")`"@,
            ),
            Some(slot) => if has_slot(s.premises, slot) {
                Err("duplicate child slot `"@ + slot + "` in `requires(...)`"@)
            } else {
                match judgement(m) {
                    Err(e) => Err(e),
                    Ok(expect) => Ok(
                        SpecCheckAttrs {
                            premises: s.premises.push(SpecPremiseDecl::Child { slot, expect }),
                            ..s
                        },
                    ),
                }
            },
        }
}

/// One `var = "field"` entry.
pub open spec fn bind_entry() -> spec_fn(SpecCheckAttrs, SpecMeta) -> Result<
    SpecCheckAttrs,
    Seq<char>,
> {
    |s: SpecCheckAttrs, m: SpecMeta|
        match m.key {
            None => Err("expected a rule variable name, as in `bind(name = \"name\")`"@),
            Some(var) => if is_bound(s.binds, var) {
                Err("duplicate `bind("@ + var + " = …)`"@)
            } else {
                match text_of(m) {
                    Err(e) => Err(e),
                    Ok(field) => Ok(
                        SpecCheckAttrs { binds: s.binds.push(SpecBind { var, field }), ..s },
                    ),
                }
            },
        }
}

/// A `requires` entry: on the running state, or on child slots.
pub open spec fn requires_entry(s: SpecCheckAttrs, m: SpecMeta) -> Result<
    SpecCheckAttrs,
    Seq<char>,
> {
    if has_value(m) {
        if has_state(s.premises) {
            Err("duplicate `requires` on this variant"@)
        } else {
            match judgement(m) {
                Err(e) => Err(e),
                Ok(f) => Ok(
                    SpecCheckAttrs { premises: s.premises.push(SpecPremiseDecl::State(f)), ..s },
                ),
            }
        }
    } else {
        match list_of(m) {
            Err(e) => Err(e),
            Ok(ms) => fold_from(ms, 0, s, slot_premise()),
        }
    }
}

/// The refusal of an unknown key on a variant.
pub open spec fn unknown_key() -> Seq<char> {
    "unsupported #[dsl_check(...)] key; expected `requires = \"pred(term)\"`, `requires(slot = \"pred(term)\")`, `produces = \"pred(term)\"`, `concludes = \"pred(term)\"`, `bind(var = \"field\")`, `message = \"…\"`, or `code = \"…\"`"@
}

/// One entry of a variant's annotation.
pub open spec fn check_entry() -> spec_fn(SpecCheckAttrs, SpecMeta) -> Result<
    SpecCheckAttrs,
    Seq<char>,
> {
    |s: SpecCheckAttrs, m: SpecMeta|
        if keyed(m, "requires"@) {
            requires_entry(s, m)
        } else if keyed(m, "produces"@) {
            if s.produces is Some {
                Err("duplicate `produces` on this variant"@)
            } else {
                match judgement(m) {
                    Err(e) => Err(e),
                    Ok(f) => Ok(SpecCheckAttrs { produces: Some(f), ..s }),
                }
            }
        } else if keyed(m, "concludes"@) {
            if s.concludes is Some {
                Err("duplicate `concludes` on this variant"@)
            } else {
                match judgement(m) {
                    Err(e) => Err(e),
                    Ok(f) => Ok(SpecCheckAttrs { concludes: Some(f), ..s }),
                }
            }
        } else if keyed(m, "bind"@) {
            match list_of(m) {
                Err(e) => Err(e),
                Ok(ms) => fold_from(ms, 0, s, bind_entry()),
            }
        } else if keyed(m, "message"@) {
            match text_of(m) {
                Err(e) => Err(e),
                Ok(t) => Ok(SpecCheckAttrs { message: Some(t), ..s }),
            }
        } else if keyed(m, "code"@) {
            match text_of(m) {
                Err(e) => Err(e),
                Ok(t) => Ok(SpecCheckAttrs { code: Some(t), ..s }),
            }
        } else {
            Err(unknown_key())
        }
}

/// One annotation of a variant.
pub open spec fn check_attribute() -> spec_fn(SpecCheckAttrs, SpecAttr) -> Result<
    SpecCheckAttrs,
    Seq<char>,
> {
    |s: SpecCheckAttrs, a: SpecAttr|
        if a.name != "dsl_check"@ {
            Ok(s)
        } else {
            match entries_of(a) {
                Err(e) => Err(e),
                Ok(ms) => fold_from(ms, 0, SpecCheckAttrs { seen: true, ..s }, check_entry()),
            }
        }
}

/// What the annotations of a variant say.
pub open spec fn check_attrs(attrs: Seq<SpecAttr>) -> Result<SpecCheckAttrs, Seq<char>> {
    match fold_from(attrs, 0, no_attrs(), check_attribute()) {
        Err(e) => Err(e),
        Ok(s) => if s.seen && s.premises.len() == 0 && s.produces is None && s.concludes is None {
            Err(
                "#[dsl_check(...)] needs at least one of `requires` / `produces` / `concludes` — a rule with neither a premise nor a conclusion says nothing"@,
            )
        } else {
            Ok(s)
        },
    }
}

/// The judgement of a premise.
pub open spec fn premise_fact(p: SpecPremiseDecl) -> SpecFactDecl {
    match p {
        SpecPremiseDecl::State(f) => f,
        SpecPremiseDecl::Child { expect, .. } => expect,
    }
}

/// The variables of the first `n` premises, in order.
pub open spec fn premise_vars(ps: Seq<SpecPremiseDecl>, n: nat) -> Seq<Seq<char>>
    decreases n,
{
    if n == 0 || n > ps.len() {
        Seq::empty()
    } else {
        premise_vars(ps, (n - 1) as nat) + fact_vars(premise_fact(ps[n - 1]))
    }
}

/// The variables of an optional judgement.
pub open spec fn opt_vars(f: Option<SpecFactDecl>) -> Seq<Seq<char>> {
    match f {
        Some(f) => fact_vars(f),
        None => Seq::empty(),
    }
}

/// The first `n` names, each once, in the order of their first mention.
pub open spec fn distinct(names: Seq<Seq<char>>, n: nat) -> Seq<Seq<char>>
    decreases n,
{
    if n == 0 || n > names.len() {
        Seq::empty()
    } else {
        let before = distinct(names, (n - 1) as nat);
        if before.contains(names[n - 1]) {
            before
        } else {
            before.push(names[n - 1])
        }
    }
}

/// The variables a variant's judgements name, each once, in order.
pub open spec fn mentioned(s: SpecCheckAttrs) -> Seq<Seq<char>> {
    let all = premise_vars(s.premises, s.premises.len()) + opt_vars(s.produces) + opt_vars(
        s.concludes,
    );
    distinct(all, all.len())
}

/// What is wrong with a binding, if anything.
pub open spec fn bind_fault(
    b: SpecBind,
    variant: Seq<char>,
    fields: Seq<SpecField>,
    node: Seq<char>,
) -> Option<Seq<char>> {
    match field_named(fields, b.field, 0) {
        None => Some(
            "`bind("@ + b.var + " = \""@ + b.field + "\")` names a field variant `"@ + variant
                + "` does not declare"@,
        ),
        Some(f) => if recursion(f.ty, node) is Some {
            Some(
                "`bind("@ + b.var + " = \""@ + b.field
                    + "\")` names a child slot, not a payload field — a `$var` reads a scalar value, and a child's judgement reaches the rule through `requires("@
                    + b.field + " = \"…\")` instead"@,
            )
        } else {
            None
        },
    }
}

/// What is wrong with a premise, if anything.
pub open spec fn premise_fault(
    p: SpecPremiseDecl,
    variant: Seq<char>,
    fields: Seq<SpecField>,
    node: Seq<char>,
) -> Option<Seq<char>> {
    match p {
        SpecPremiseDecl::State(_) => None,
        SpecPremiseDecl::Child { slot, .. } => match field_named(fields, slot, 0) {
            None => Some(
                "`requires("@ + slot + " = …)` names a slot variant `"@ + variant
                    + "` does not declare"@,
            ),
            Some(f) => if recursion(f.ty, node) is None {
                Some(
                    "`requires("@ + slot
                        + " = …)` names a payload field, not a child slot — only a child node carries a conclusion to match against"@,
                )
            } else {
                None
            },
        },
    }
}

/// The first fault among bindings from position `i` on.
pub open spec fn binds_fault(
    bs: Seq<SpecBind>,
    variant: Seq<char>,
    fields: Seq<SpecField>,
    node: Seq<char>,
    i: int,
) -> Option<Seq<char>>
    decreases bs.len() - i,
{
    if i < 0 || i >= bs.len() {
        None
    } else {
        match bind_fault(bs[i], variant, fields, node) {
            Some(e) => Some(e),
            None => binds_fault(bs, variant, fields, node, i + 1),
        }
    }
}

/// The first fault among premises from position `i` on.
pub open spec fn premises_fault(
    ps: Seq<SpecPremiseDecl>,
    variant: Seq<char>,
    fields: Seq<SpecField>,
    node: Seq<char>,
    i: int,
) -> Option<Seq<char>>
    decreases ps.len() - i,
{
    if i < 0 || i >= ps.len() {
        None
    } else {
        match premise_fault(ps[i], variant, fields, node) {
            Some(e) => Some(e),
            None => premises_fault(ps, variant, fields, node, i + 1),
        }
    }
}

/// The first binding from position `i` on that no judgement uses.
pub open spec fn unused_bind(bs: Seq<SpecBind>, vars: Seq<Seq<char>>, i: int) -> Option<Seq<char>>
    decreases bs.len() - i,
{
    if i < 0 || i >= bs.len() {
        None
    } else if !vars.contains(bs[i].var) {
        Some(
            "`bind("@ + bs[i].var + " = \""@ + bs[i].field + "\")` binds `$"@ + bs[i].var
                + "`, which no judgement on this variant mentions"@,
        )
    } else {
        unused_bind(bs, vars, i + 1)
    }
}

/// What is wrong between a variant's annotations and its shape, if anything.
pub open spec fn attrs_fault(v: SpecVariant, s: SpecCheckAttrs, node: Seq<char>) -> Option<
    Seq<char>,
> {
    if s.binds.len() == 0 && !has_child(s.premises) {
        None
    } else {
        match v.fields {
            SpecFields::Named(fs) => match binds_fault(s.binds, v.name, fs, node, 0) {
                Some(e) => Some(e),
                None => match premises_fault(s.premises, v.name, fs, node, 0) {
                    Some(e) => Some(e),
                    None => unused_bind(s.binds, mentioned(s), 0),
                },
            },
            _ => Some(
                "`bind(...)` and `requires(slot = …)` name fields, so they apply to named-field variants only"@,
            ),
        }
    }
}

/// One entry of a fold's list.
pub open spec fn fold_inner() -> spec_fn(Option<SpecFactDecl>, SpecMeta) -> Result<
    Option<SpecFactDecl>,
    Seq<char>,
> {
    |s: Option<SpecFactDecl>, m: SpecMeta|
        if !keyed(m, "initial"@) {
            Err("unsupported `fold(...)` key; expected `initial = \"state(Atom)\"`"@)
        } else {
            match text_of(m) {
                Err(e) => Err(e),
                Ok(t) => match parsed_ground_fact(t) {
                    Err(e) => Err(e),
                    Ok(f) => Ok(Some(f)),
                },
            }
        }
}

/// One entry of a slot's annotation.
pub open spec fn fold_entry() -> spec_fn(Option<SpecFactDecl>, SpecMeta) -> Result<
    Option<SpecFactDecl>,
    Seq<char>,
> {
    |s: Option<SpecFactDecl>, m: SpecMeta|
        if !keyed(m, "fold"@) {
            Err(
                "unsupported #[dsl_check(...)] key on a child slot; expected `fold(initial = \"state(Atom)\")` (`requires` / `produces` belong on the variant)"@,
            )
        } else {
            match list_of(m) {
                Err(e) => Err(e),
                Ok(ms) => fold_from(ms, 0, s, fold_inner()),
            }
        }
}

/// One annotation of a slot.
pub open spec fn fold_attribute() -> spec_fn(Option<SpecFactDecl>, SpecAttr) -> Result<
    Option<SpecFactDecl>,
    Seq<char>,
> {
    |s: Option<SpecFactDecl>, a: SpecAttr|
        if a.name != "dsl_check"@ {
            Ok(s)
        } else {
            match entries_of(a) {
                Err(e) => Err(e),
                Ok(ms) => fold_from(ms, 0, s, fold_entry()),
            }
        }
}

/// The seed of a slot that is a fold.
pub open spec fn fold_seed(attrs: Seq<SpecAttr>) -> Result<Option<SpecFactDecl>, Seq<char>> {
    fold_from(attrs, 0, None, fold_attribute())
}

/// The field a variable reads, from position `i` on.
pub open spec fn bound_field(bs: Seq<SpecBind>, var: Seq<char>, i: int) -> Option<Seq<char>>
    decreases bs.len() - i,
{
    if i < 0 || i >= bs.len() {
        None
    } else if bs[i].var == var {
        Some(bs[i].field)
    } else {
        bound_field(bs, var, i + 1)
    }
}

/// The term a declaration stands for: a bound variable reads its field.
pub open spec fn wired(t: SpecTermDecl, bs: Seq<SpecBind>) -> SpecTerm
    decreases t,
{
    match t {
        SpecTermDecl::Atom(n) => SpecTerm::Atom(n),
        SpecTermDecl::Var(n) => match bound_field(bs, n, 0) {
            Some(f) => SpecTerm::FieldRef(f),
            None => SpecTerm::Var(n),
        },
        SpecTermDecl::Ctor(n, args) => SpecTerm::Ctor(n, all_wired(args, bs)),
    }
}

/// The terms that declarations stand for.
pub open spec fn all_wired(ts: Seq<SpecTermDecl>, bs: Seq<SpecBind>) -> Seq<SpecTerm>
    decreases ts,
{
    Seq::new(
        ts.len(),
        |i: int|
            if 0 <= i < ts.len() {
                wired(ts[i], bs)
            } else {
                arbitrary()
            },
    )
}

/// The fact a declaration stands for.
pub open spec fn wired_fact(f: SpecFactDecl, bs: Seq<SpecBind>) -> SpecFact {
    SpecFact { pred: f.pred, args: all_wired(f.args, bs) }
}

/// The optional fact a declaration stands for.
pub open spec fn wired_opt(f: Option<SpecFactDecl>, bs: Seq<SpecBind>) -> Option<SpecFact> {
    match f {
        Some(f) => Some(wired_fact(f, bs)),
        None => None,
    }
}

/// The premise a declaration stands for.
pub open spec fn wired_premise(p: SpecPremiseDecl, bs: Seq<SpecBind>) -> SpecPremise {
    match p {
        SpecPremiseDecl::State(f) => SpecPremise::State { expect: wired_fact(f, bs) },
        SpecPremiseDecl::Child { slot, expect } => SpecPremise::Child {
            slot,
            expect: wired_fact(expect, bs),
        },
    }
}

/// The premises that declarations stand for.
pub open spec fn wired_premises(ps: Seq<SpecPremiseDecl>, bs: Seq<SpecBind>) -> Seq<SpecPremise> {
    Seq::new(ps.len(), |i: int| wired_premise(ps[i], bs))
}

/// The wording of a rule: its own, or the usual one.
pub open spec fn wording(variant: Seq<char>, message: Option<Seq<char>>) -> Seq<char> {
    match message {
        Some(m) => m,
        None => "`"@ + variant + "` requires {expected}, found {found} (from {provenance})"@,
    }
}

/// The slug of a rule: its own, or one for what the rule talks about.
pub open spec fn slug(s: SpecCheckAttrs) -> Seq<char> {
    match s.code {
        Some(c) => c,
        None => if has_state(s.premises) || s.produces is Some {
            CHECK_STATE_MISMATCH@
        } else {
            CHECK_TYPE_MISMATCH@
        },
    }
}

/// The rule of an annotated variant.
pub open spec fn planned_rule(variant: Seq<char>, s: SpecCheckAttrs) -> SpecRule {
    SpecRule {
        variant,
        premises: wired_premises(s.premises, s.binds),
        conclusion: wired_opt(s.concludes, s.binds),
        state_after: wired_opt(s.produces, s.binds),
        message: SpecMessage { code: slug(s), template: wording(variant, s.message) },
    }
}

/// One more field that may be a fold.
pub open spec fn fold_field(variant: Seq<char>, node: Seq<char>) -> spec_fn(
    Seq<SpecSeqSlot>,
    SpecField,
) -> Result<Seq<SpecSeqSlot>, Seq<char>> {
    |done: Seq<SpecSeqSlot>, f: SpecField|
        match fold_seed(f.attrs) {
            Err(e) => Err(e),
            Ok(None) => Ok(done),
            Ok(Some(seed)) => if recursion(f.ty, node) == Some(Recursion::Many) || recursion(
                f.ty,
                node,
            ) == Some(Recursion::ManyBoxed) {
                Ok(
                    done.push(
                        SpecSeqSlot {
                            variant,
                            slot: f.name,
                            initial: wired_fact(seed, Seq::empty()),
                            mode: SeqMode::Fold,
                        },
                    ),
                )
            } else {
                Err(
                    "#[dsl_check(fold(...))] applies to `Many` child slots only (`Vec<Self>` / `Vec<Box<Self>>`) — a fold threads its state through an ordered sequence, and every other slot is unordered"@,
                )
            },
        }
}

/// Whether some annotation has this name.
pub open spec fn has_attr(attrs: Seq<SpecAttr>, name: Seq<char>) -> bool {
    exists|i: int| 0 <= i < attrs.len() && (#[trigger] attrs[i]).name == name
}

/// Whether some field carries an annotation of this name.
pub open spec fn some_annotated(fields: Seq<SpecField>, name: Seq<char>) -> bool {
    exists|i: int| 0 <= i < fields.len() && has_attr((#[trigger] fields[i]).attrs, name)
}

/// The folds of a variant after those already found.
pub open spec fn variant_folds(
    v: SpecVariant,
    node: Seq<char>,
    done: Seq<SpecSeqSlot>,
) -> Result<Seq<SpecSeqSlot>, Seq<char>> {
    match v.fields {
        SpecFields::Named(fs) => fold_from(fs, 0, done, fold_field(v.name, node)),
        SpecFields::Unnamed(fs) => if some_annotated(fs, "dsl_check"@) {
            Err("#[dsl_check(...)] applies to named fields only"@)
        } else {
            Ok(done)
        },
        SpecFields::Unit => Ok(done),
    }
}

/// One more variant of an enum.
pub open spec fn check_variant(node: Seq<char>) -> spec_fn(SpecProgram, SpecVariant) -> Result<
    SpecProgram,
    Seq<char>,
> {
    |p: SpecProgram, v: SpecVariant|
        match check_attrs(v.attrs) {
            Err(e) => Err(e),
            Ok(s) => match attrs_fault(v, s, node) {
                Some(e) => Err(e),
                None => match variant_folds(v, node, p.seq_slots) {
                    Err(e) => Err(e),
                    Ok(seq_slots) => Ok(
                        SpecProgram {
                            rules: if s.seen {
                                p.rules.push(planned_rule(v.name, s))
                            } else {
                                p.rules
                            },
                            seq_slots,
                        },
                    ),
                },
            },
        }
}

/// The judgement rules of a language, unless they are refused.
pub open spec fn check_plan(input: SpecInput) -> Result<SpecProgram, Seq<char>> {
    if has_attr(input.attrs, "dsl_check"@) {
        Err(
            "#[dsl_check(...)] belongs on a variant (`requires` / `produces`) or on a `Vec<Self>` child slot (`fold(initial = \"…\")`), not on the enum itself"@,
        )
    } else {
        match input.variants {
            None => Err(enums_only("DslCheck"@)),
            Some(vs) => fold_from(
                vs,
                0,
                SpecProgram { rules: Seq::empty(), seq_slots: Seq::empty() },
                check_variant(input.name),
            ),
        }
    }
}

/// The view of a judgement or of why there is none.
fn read_judgement(m: &MetaDecl) -> (out: Result<CheckFactDecl, DeriveError>)
    ensures
        planned(out) == judgement(m@),
{
    match m.text() {
        Ok(t) => parse_check_fact(t),
        Err(e) => Err(e),
    }
}

fn slot_taken(ps: &Vec<CheckPremiseDecl>, slot: &str) -> (out: bool)
    ensures
        out == has_slot(premise_decls_view(ps@), slot@),
{
    let ghost all = premise_decls_view(ps@);
    let n: usize = ps.len();
    for i in 0..n
        invariant
            n == ps@.len(),
            all == premise_decls_view(ps@),
            forall|j: int|
                0 <= j < i ==> !(#[trigger] all[j] matches SpecPremiseDecl::Child { slot: s, .. }
                    && s == slot@),
    {
        assert(all[i as int] == ps@[i as int]@);
        if let CheckPremiseDecl::Child { slot: s, expect: _ } = &ps[i] {
            if same_text(s.as_str(), slot) {
                return true;
            }
        }
    }
    false
}

fn var_taken(bs: &Vec<CheckBind>, var: &str) -> (out: bool)
    ensures
        out == is_bound(binds_view(bs@), var@),
{
    let ghost all = binds_view(bs@);
    let n: usize = bs.len();
    for i in 0..n
        invariant
            n == bs@.len(),
            all == binds_view(bs@),
            forall|j: int| 0 <= j < i ==> (#[trigger] all[j]).var != var@,
    {
        assert(all[i as int] == bs@[i as int]@);
        if same_text(bs[i].var.as_str(), var) {
            return true;
        }
    }
    false
}

fn has_child_premise(ps: &Vec<CheckPremiseDecl>) -> (out: bool)
    ensures
        out == has_child(premise_decls_view(ps@)),
{
    let ghost all = premise_decls_view(ps@);
    let n: usize = ps.len();
    for i in 0..n
        invariant
            n == ps@.len(),
            all == premise_decls_view(ps@),
            forall|j: int| 0 <= j < i ==> !(#[trigger] all[j] is Child),
    {
        assert(all[i as int] == ps@[i as int]@);
        if let CheckPremiseDecl::Child { .. } = &ps[i] {
            return true;
        }
    }
    false
}

fn holds_text(texts: &Vec<String>, text: &str) -> (out: bool)
    ensures
        out == strings_view(texts@).contains(text@),
{
    let ghost all = strings_view(texts@);
    let n: usize = texts.len();
    for i in 0..n
        invariant
            n == texts@.len(),
            all == strings_view(texts@),
            forall|j: int| 0 <= j < i ==> #[trigger] all[j] != text@,
    {
        assert(all[i as int] == texts@[i as int]@);
        if same_text(texts[i].as_str(), text) {
            return true;
        }
    }
    assert(!all.contains(text@));
    false
}

impl DslCheckAttrs {
    /// No annotation at all.
    fn none() -> (out: Self)
        ensures
            out@ == no_attrs(),
    {
        let out = DslCheckAttrs {
            premises: Vec::new(),
            produces: None,
            concludes: None,
            binds: Vec::new(),
            message: None,
            code: None,
            seen: false,
        };
        assert(premise_decls_view(out.premises@) =~= Seq::empty());
        assert(binds_view(out.binds@) =~= Seq::empty());
        out
    }

    /// Whether there is a premise on the running state.
    pub fn has_state_premise(&self) -> (out: bool)
        ensures
            out == has_state(self@.premises),
    {
        let ghost all = premise_decls_view(self.premises@);
        let n: usize = self.premises.len();
        for i in 0..n
            invariant
                n == self.premises@.len(),
                all == premise_decls_view(self.premises@),
                forall|j: int| 0 <= j < i ==> !(#[trigger] all[j] is State),
        {
            assert(all[i as int] == self.premises@[i as int]@);
            if let CheckPremiseDecl::State(_) = &self.premises[i] {
                return true;
            }
        }
        false
    }

    /// The variables the judgements name, each once, in order.
    pub fn mentioned_vars(&self) -> (out: Vec<String>)
        ensures
            strings_view(out@) == mentioned(self@),
    {
        let ghost ps = premise_decls_view(self.premises@);
        let mut all: Vec<String> = Vec::new();
        assert(strings_view(all@) =~= premise_vars(ps, 0));
        let n: usize = self.premises.len();
        for i in 0..n
            invariant
                n == self.premises@.len(),
                ps == premise_decls_view(self.premises@),
                strings_view(all@) == premise_vars(ps, i as nat),
        {
            assert(ps[i as int] == self.premises@[i as int]@);
            match &self.premises[i] {
                CheckPremiseDecl::State(f) => f.collect_vars(&mut all),
                CheckPremiseDecl::Child { slot: _, expect } => expect.collect_vars(&mut all),
            }
        }
        let ghost first = strings_view(all@);
        if let Some(f) = &self.produces {
            f.collect_vars(&mut all);
        }
        assert(strings_view(all@) =~= first + opt_vars(self@.produces));
        let ghost second = strings_view(all@);
        if let Some(f) = &self.concludes {
            f.collect_vars(&mut all);
        }
        assert(strings_view(all@) =~= second + opt_vars(self@.concludes));
        let ghost whole = strings_view(all@);
        let mut out: Vec<String> = Vec::new();
        assert(strings_view(out@) =~= distinct(whole, 0));
        let m: usize = all.len();
        for i in 0..m
            invariant
                m == all@.len(),
                whole == strings_view(all@),
                strings_view(out@) == distinct(whole, i as nat),
        {
            assert(whole[i as int] == all@[i as int]@);
            if !holds_text(&out, all[i].as_str()) {
                let ghost before = strings_view(out@);
                out.push(all[i].clone());
                assert(strings_view(out@) =~= before.push(all@[i as int]@));
            }
        }
        out
    }
}

fn read_slot_premises(metas: &Vec<MetaDecl>, from: DslCheckAttrs) -> (out: Result<
    DslCheckAttrs,
    DeriveError,
>)
    ensures
        planned(out) == fold_from(metas_view(metas@), 0, from@, slot_premise()),
{
    let ghost all = metas_view(metas@);
    let ghost start = from@;
    let mut attrs = from;
    let n: usize = metas.len();
    for i in 0..n
        invariant
            n == metas@.len(),
            all == metas_view(metas@),
            start == from@,
            fold_from(all, 0, start, slot_premise()) == fold_from(
                all,
                i as int,
                attrs@,
                slot_premise(),
            ),
    {
        let m = &metas[i];
        assert(all[i as int] == m@);
        match &m.key {
            None => {
                return Err(
                    DeriveError::new(
                        "expected a child slot name, as in `requires(cond = \"type(Bool)\")`",
                    ),
                );
            },
            Some(slot) => {
                if slot_taken(&attrs.premises, slot.as_str()) {
                    return Err(
                        DeriveError {
                            message: cat3(
                                "duplicate child slot `",
                                slot.as_str(),
                                "` in `requires(...)`",
                            ),
                        },
                    );
                }
                let expect = match read_judgement(m) {
                    Ok(f) => f,
                    Err(e) => {
                        return Err(e);
                    },
                };
                let ghost before = premise_decls_view(attrs.premises@);
                let p = CheckPremiseDecl::Child { slot: slot.clone(), expect };
                attrs.premises.push(p);
                assert(premise_decls_view(attrs.premises@) =~= before.push(p@));
            },
        }
    }
    Ok(attrs)
}

fn read_binds(metas: &Vec<MetaDecl>, from: DslCheckAttrs) -> (out: Result<
    DslCheckAttrs,
    DeriveError,
>)
    ensures
        planned(out) == fold_from(metas_view(metas@), 0, from@, bind_entry()),
{
    let ghost all = metas_view(metas@);
    let ghost start = from@;
    let mut attrs = from;
    let n: usize = metas.len();
    for i in 0..n
        invariant
            n == metas@.len(),
            all == metas_view(metas@),
            start == from@,
            fold_from(all, 0, start, bind_entry()) == fold_from(
                all,
                i as int,
                attrs@,
                bind_entry(),
            ),
    {
        let m = &metas[i];
        assert(all[i as int] == m@);
        match &m.key {
            None => {
                return Err(
                    DeriveError::new(
                        "expected a rule variable name, as in `bind(name = \"name\")`",
                    ),
                );
            },
            Some(var) => {
                if var_taken(&attrs.binds, var.as_str()) {
                    return Err(
                        DeriveError { message: cat3("duplicate `bind(", var.as_str(), " = …)`") },
                    );
                }
                let field = match m.text() {
                    Ok(t) => t.to_owned(),
                    Err(e) => {
                        return Err(e);
                    },
                };
                let ghost before = binds_view(attrs.binds@);
                let b = CheckBind { var: var.clone(), field };
                attrs.binds.push(b);
                assert(binds_view(attrs.binds@) =~= before.push(b@));
            },
        }
    }
    Ok(attrs)
}

fn read_requires(m: &MetaDecl, from: DslCheckAttrs) -> (out: Result<DslCheckAttrs, DeriveError>)
    ensures
        planned(out) == requires_entry(from@, m@),
{
    let mut attrs = from;
    let valued: bool = match &m.value {
        MetaValue::Flag => false,
        MetaValue::List(_) => false,
        _ => true,
    };
    if valued {
        if attrs.has_state_premise() {
            return Err(DeriveError::new("duplicate `requires` on this variant"));
        }
        match read_judgement(m) {
            Ok(f) => {
                let ghost before = premise_decls_view(attrs.premises@);
                let p = CheckPremiseDecl::State(f);
                attrs.premises.push(p);
                assert(premise_decls_view(attrs.premises@) =~= before.push(p@));
                Ok(attrs)
            },
            Err(e) => Err(e),
        }
    } else {
        match m.list() {
            Ok(list) => read_slot_premises(list, attrs),
            Err(e) => Err(e),
        }
    }
}

fn read_check_entries(metas: &Vec<MetaDecl>, from: DslCheckAttrs) -> (out: Result<
    DslCheckAttrs,
    DeriveError,
>)
    ensures
        planned(out) == fold_from(metas_view(metas@), 0, from@, check_entry()),
{
    let ghost all = metas_view(metas@);
    let ghost start = from@;
    let mut attrs = from;
    let n: usize = metas.len();
    for i in 0..n
        invariant
            n == metas@.len(),
            all == metas_view(metas@),
            start == from@,
            fold_from(all, 0, start, check_entry()) == fold_from(
                all,
                i as int,
                attrs@,
                check_entry(),
            ),
    {
        let m = &metas[i];
        assert(all[i as int] == m@);
        if m.keyed("requires") {
            attrs = match read_requires(m, attrs) {
                Ok(a) => a,
                Err(e) => {
                    return Err(e);
                },
            };
        } else if m.keyed("produces") {
            if attrs.produces.is_some() {
                return Err(DeriveError::new("duplicate `produces` on this variant"));
            }
            match read_judgement(m) {
                Ok(f) => {
                    attrs.produces = Some(f);
                },
                Err(e) => {
                    return Err(e);
                },
            }
        } else if m.keyed("concludes") {
            if attrs.concludes.is_some() {
                return Err(DeriveError::new("duplicate `concludes` on this variant"));
            }
            match read_judgement(m) {
                Ok(f) => {
                    attrs.concludes = Some(f);
                },
                Err(e) => {
                    return Err(e);
                },
            }
        } else if m.keyed("bind") {
            let list = match m.list() {
                Ok(l) => l,
                Err(e) => {
                    return Err(e);
                },
            };
            attrs = match read_binds(list, attrs) {
                Ok(a) => a,
                Err(e) => {
                    return Err(e);
                },
            };
        } else if m.keyed("message") {
            match m.text() {
                Ok(t) => {
                    attrs.message = Some(t.to_owned());
                },
                Err(e) => {
                    return Err(e);
                },
            }
        } else if m.keyed("code") {
            match m.text() {
                Ok(t) => {
                    attrs.code = Some(t.to_owned());
                },
                Err(e) => {
                    return Err(e);
                },
            }
        } else {
            return Err(
                DeriveError::new(
                    "unsupported #[dsl_check(...)] key; expected `requires = \"pred(term)\"`, `requires(slot = \"pred(term)\")`, `produces = \"pred(term)\"`, `concludes = \"pred(term)\"`, `bind(var = \"field\")`, `message = \"…\"`, or `code = \"…\"`",
                ),
            );
        }
    }
    Ok(attrs)
}

/// Reads what the annotations of a variant say.
pub fn dsl_check_attrs(variant: &VariantDecl) -> (out: Result<DslCheckAttrs, DeriveError>)
    ensures
        planned(out) == check_attrs(variant@.attrs),
{
    let ghost all = attrs_view(variant.attrs@);
    let mut attrs = DslCheckAttrs::none();
    let n: usize = variant.attrs.len();
    for i in 0..n
        invariant
            n == variant.attrs@.len(),
            all == attrs_view(variant.attrs@),
            fold_from(all, 0, no_attrs(), check_attribute()) == fold_from(
                all,
                i as int,
                attrs@,
                check_attribute(),
            ),
    {
        let attr = &variant.attrs[i];
        assert(all[i as int] == attr@);
        if same_text(attr.name.as_str(), "dsl_check") {
            let metas = match attr.entries() {
                Ok(ms) => ms,
                Err(e) => {
                    return Err(e);
                },
            };
            attrs.seen = true;
            attrs = match read_check_entries(metas, attrs) {
                Ok(a) => a,
                Err(e) => {
                    return Err(e);
                },
            };
        }
    }
    assert(attrs@.premises.len() == attrs.premises@.len());
    if attrs.seen && attrs.premises.len() == 0 && attrs.produces.is_none()
        && attrs.concludes.is_none() {
        return Err(
            DeriveError::new(
                "#[dsl_check(...)] needs at least one of `requires` / `produces` / `concludes` — a rule with neither a premise nor a conclusion says nothing",
            ),
        );
    }
    Ok(attrs)
}

fn check_bind(b: &CheckBind, variant: &str, fields: &Vec<FieldDecl>, enum_name: &str) -> (out:
    Result<(), DeriveError>)
    ensures
        match out {
            Ok(()) => bind_fault(b@, variant@, fields_view(fields@), enum_name@) is None,
            Err(e) => bind_fault(b@, variant@, fields_view(fields@), enum_name@) == Some(e@),
        },
{
    match get_field(fields, b.field.as_str()) {
        None => Err(
            DeriveError {
                message: cat7(
                    "`bind(",
                    b.var.as_str(),
                    " = \"",
                    b.field.as_str(),
                    "\")` names a field variant `",
                    variant,
                    "` does not declare",
                ),
            },
        ),
        Some(f) => if detect_recursion(&f.ty, enum_name).is_some() {
            Err(
                DeriveError {
                    message: cat7(
                        "`bind(",
                        b.var.as_str(),
                        " = \"",
                        b.field.as_str(),
                        "\")` names a child slot, not a payload field — a `$var` reads a scalar value, and a child's judgement reaches the rule through `requires(",
                        b.field.as_str(),
                        " = \"…\")` instead",
                    ),
                },
            )
        } else {
            Ok(())
        },
    }
}

fn check_premise(
    p: &CheckPremiseDecl,
    variant: &str,
    fields: &Vec<FieldDecl>,
    enum_name: &str,
) -> (out: Result<(), DeriveError>)
    ensures
        match out {
            Ok(()) => premise_fault(p@, variant@, fields_view(fields@), enum_name@) is None,
            Err(e) => premise_fault(p@, variant@, fields_view(fields@), enum_name@) == Some(e@),
        },
{
    match p {
        CheckPremiseDecl::State(_) => Ok(()),
        CheckPremiseDecl::Child { slot, expect: _ } => match get_field(fields, slot.as_str()) {
            None => Err(
                DeriveError {
                    message: cat5(
                        "`requires(",
                        slot.as_str(),
                        " = …)` names a slot variant `",
                        variant,
                        "` does not declare",
                    ),
                },
            ),
            Some(f) => if detect_recursion(&f.ty, enum_name).is_none() {
                Err(
                    DeriveError {
                        message: cat3(
                            "`requires(",
                            slot.as_str(),
                            " = …)` names a payload field, not a child slot — only a child node carries a conclusion to match against",
                        ),
                    },
                )
            } else {
                Ok(())
            },
        },
    }
}

fn has_var(vars: &Vec<String>, var: &str) -> (out: bool)
    ensures
        out == strings_view(vars@).contains(var@),
{
    let ghost all = strings_view(vars@);
    let n: usize = vars.len();
    for i in 0..n
        invariant
            n == vars@.len(),
            all == strings_view(vars@),
            forall|j: int| 0 <= j < i ==> #[trigger] all[j] != var@,
    {
        assert(all[i as int] == vars@[i as int]@);
        if same_text(vars[i].as_str(), var) {
            return true;
        }
    }
    assert(!all.contains(var@));
    false
}

/// Checks a variant's annotations against its shape: bindings name payload
/// fields that some judgement uses, child premises name child slots.
pub fn validate_check_attrs(
    variant: &VariantDecl,
    attrs: &DslCheckAttrs,
    enum_name: &str,
) -> (out: Result<(), DeriveError>)
    ensures
        match out {
            Ok(()) => attrs_fault(variant@, attrs@, enum_name@) is None,
            Err(e) => attrs_fault(variant@, attrs@, enum_name@) == Some(e@),
        },
{
    let ghost bs = binds_view(attrs.binds@);
    let ghost ps = premise_decls_view(attrs.premises@);
    assert(bs.len() == attrs.binds@.len());
    if attrs.binds.len() == 0 && !has_child_premise(&attrs.premises) {
        return Ok(());
    }
    let fields = match &variant.fields {
        FieldsDecl::Named(fs) => fs,
        _ => {
            return Err(
                DeriveError::new(
                    "`bind(...)` and `requires(slot = …)` name fields, so they apply to named-field variants only",
                ),
            );
        },
    };
    let ghost fs = fields_view(fields@);
    let n: usize = attrs.binds.len();
    for i in 0..n
        invariant
            n == attrs.binds@.len(),
            bs == binds_view(attrs.binds@),
            ps == premise_decls_view(attrs.premises@),
            fs == fields_view(fields@),
            variant@.fields == SpecFields::Named(fs),
            attrs@.binds == bs,
            bs.len() > 0 || has_child(ps),
            binds_fault(bs, variant.name@, fs, enum_name@, 0) == binds_fault(
                bs,
                variant.name@,
                fs,
                enum_name@,
                i as int,
            ),
    {
        assert(bs[i as int] == attrs.binds@[i as int]@);
        if let Err(e) = check_bind(&attrs.binds[i], variant.name.as_str(), fields, enum_name) {
            return Err(e);
        }
    }
    let m: usize = attrs.premises.len();
    for i in 0..m
        invariant
            m == attrs.premises@.len(),
            bs == binds_view(attrs.binds@),
            ps == premise_decls_view(attrs.premises@),
            fs == fields_view(fields@),
            variant@.fields == SpecFields::Named(fs),
            bs.len() > 0 || has_child(ps),
            binds_fault(bs, variant.name@, fs, enum_name@, 0) is None,
            premises_fault(ps, variant.name@, fs, enum_name@, 0) == premises_fault(
                ps,
                variant.name@,
                fs,
                enum_name@,
                i as int,
            ),
    {
        assert(ps[i as int] == attrs.premises@[i as int]@);
        if let Err(e) = check_premise(
            &attrs.premises[i],
            variant.name.as_str(),
            fields,
            enum_name,
        ) {
            return Err(e);
        }
    }
    let vars = attrs.mentioned_vars();
    for i in 0..n
        invariant
            n == attrs.binds@.len(),
            bs == binds_view(attrs.binds@),
            ps == premise_decls_view(attrs.premises@),
            fs == fields_view(fields@),
            variant@.fields == SpecFields::Named(fs),
            bs.len() > 0 || has_child(ps),
            binds_fault(bs, variant.name@, fs, enum_name@, 0) is None,
            premises_fault(ps, variant.name@, fs, enum_name@, 0) is None,
            strings_view(vars@) == mentioned(attrs@),
            unused_bind(bs, mentioned(attrs@), 0) == unused_bind(bs, mentioned(attrs@), i as int),
    {
        assert(bs[i as int] == attrs.binds@[i as int]@);
        let b = &attrs.binds[i];
        if !has_var(&vars, b.var.as_str()) {
            return Err(
                DeriveError {
                    message: cat7(
                        "`bind(",
                        b.var.as_str(),
                        " = \"",
                        b.field.as_str(),
                        "\")` binds `$",
                        b.var.as_str(),
                        "`, which no judgement on this variant mentions",
                    ),
                },
            );
        }
    }
    Ok(())
}

fn read_fold_inner(metas: &Vec<MetaDecl>, from: Option<CheckFactDecl>) -> (out: Result<
    Option<CheckFactDecl>,
    DeriveError,
>)
    ensures
        match out {
            Ok(f) => fold_from(metas_view(metas@), 0, decl_opt(from), fold_inner()) == Ok::<
                Option<SpecFactDecl>,
                Seq<char>,
            >(decl_opt(f)),
            Err(e) => fold_from(metas_view(metas@), 0, decl_opt(from), fold_inner()) == Err::<
                Option<SpecFactDecl>,
                Seq<char>,
            >(e@),
        },
{
    let ghost all = metas_view(metas@);
    let ghost start = decl_opt(from);
    let mut seed = from;
    let n: usize = metas.len();
    for i in 0..n
        invariant
            n == metas@.len(),
            all == metas_view(metas@),
            start == decl_opt(from),
            fold_from(all, 0, start, fold_inner()) == fold_from(
                all,
                i as int,
                decl_opt(seed),
                fold_inner(),
            ),
    {
        let m = &metas[i];
        assert(all[i as int] == m@);
        if !m.keyed("initial") {
            return Err(
                DeriveError::new(
                    "unsupported `fold(...)` key; expected `initial = \"state(Atom)\"`",
                ),
            );
        }
        let text = match m.text() {
            Ok(t) => t,
            Err(e) => {
                return Err(e);
            },
        };
        match parse_check_fact_ground(text) {
            Ok(f) => {
                seed = Some(f);
            },
            Err(e) => {
                return Err(e);
            },
        }
    }
    Ok(seed)
}

fn read_fold_entries(metas: &Vec<MetaDecl>, from: Option<CheckFactDecl>) -> (out: Result<
    Option<CheckFactDecl>,
    DeriveError,
>)
    ensures
        match out {
            Ok(f) => fold_from(metas_view(metas@), 0, decl_opt(from), fold_entry()) == Ok::<
                Option<SpecFactDecl>,
                Seq<char>,
            >(decl_opt(f)),
            Err(e) => fold_from(metas_view(metas@), 0, decl_opt(from), fold_entry()) == Err::<
                Option<SpecFactDecl>,
                Seq<char>,
            >(e@),
        },
{
    let ghost all = metas_view(metas@);
    let ghost start = decl_opt(from);
    let mut seed = from;
    let n: usize = metas.len();
    for i in 0..n
        invariant
            n == metas@.len(),
            all == metas_view(metas@),
            start == decl_opt(from),
            fold_from(all, 0, start, fold_entry()) == fold_from(
                all,
                i as int,
                decl_opt(seed),
                fold_entry(),
            ),
    {
        let m = &metas[i];
        assert(all[i as int] == m@);
        if !m.keyed("fold") {
            return Err(
                DeriveError::new(
                    "unsupported #[dsl_check(...)] key on a child slot; expected `fold(initial = \"state(Atom)\")` (`requires` / `produces` belong on the variant)",
                ),
            );
        }
        let list = match m.list() {
            Ok(l) => l,
            Err(e) => {
                return Err(e);
            },
        };
        seed = match read_fold_inner(list, seed) {
            Ok(f) => f,
            Err(e) => {
                return Err(e);
            },
        };
    }
    Ok(seed)
}

/// Reads the seed of a slot that is a fold.
pub fn dsl_check_fold_attr(f: &FieldDecl) -> (out: Result<Option<CheckFactDecl>, DeriveError>)
    ensures
        match out {
            Ok(seed) => fold_seed(f@.attrs) == Ok::<Option<SpecFactDecl>, Seq<char>>(
                decl_opt(seed),
            ),
            Err(e) => fold_seed(f@.attrs) == Err::<Option<SpecFactDecl>, Seq<char>>(e@),
        },
{
    let ghost all = attrs_view(f.attrs@);
    let mut seed: Option<CheckFactDecl> = None;
    let n: usize = f.attrs.len();
    for i in 0..n
        invariant
            n == f.attrs@.len(),
            all == attrs_view(f.attrs@),
            fold_seed(all) == fold_from(all, i as int, decl_opt(seed), fold_attribute()),
    {
        let attr = &f.attrs[i];
        assert(all[i as int] == attr@);
        if same_text(attr.name.as_str(), "dsl_check") {
            let metas = match attr.entries() {
                Ok(ms) => ms,
                Err(e) => {
                    return Err(e);
                },
            };
            seed = match read_fold_entries(metas, seed) {
                Ok(s) => s,
                Err(e) => {
                    return Err(e);
                },
            };
        }
    }
    Ok(seed)
}

fn find_bind<'a>(bs: &'a Vec<CheckBind>, var: &str) -> (out: Option<&'a str>)
    ensures
        match out {
            Some(f) => bound_field(binds_view(bs@), var@, 0) == Some(f@),
            None => bound_field(binds_view(bs@), var@, 0) is None,
        },
{
    let ghost all = binds_view(bs@);
    let n: usize = bs.len();
    for i in 0..n
        invariant
            n == bs@.len(),
            all == binds_view(bs@),
            bound_field(all, var@, 0) == bound_field(all, var@, i as int),
    {
        assert(all[i as int] == bs@[i as int]@);
        if same_text(bs[i].var.as_str(), var) {
            return Some(bs[i].field.as_str());
        }
    }
    None
}

/// The term a declaration stands for.
pub fn emit_check_term(t: &CheckTermDecl, binds: &Vec<CheckBind>) -> (out: Term)
    ensures
        out@ == wired(t@, binds_view(binds@)),
    decreases t, 0nat,
{
    match t {
        CheckTermDecl::Atom(n) => Term::Atom(n.clone()),
        CheckTermDecl::Var(n) => match find_bind(binds, n.as_str()) {
            Some(f) => Term::FieldRef(f.to_owned()),
            None => Term::Var(n.clone()),
        },
        CheckTermDecl::Ctor(n, args) => {
            let out = emit_terms(args, binds);
            let term = Term::Ctor(n.clone(), out);
            assert(term@->Ctor_1 =~= terms_view(out@));
            term
        },
    }
}

fn emit_terms(ts: &Vec<CheckTermDecl>, binds: &Vec<CheckBind>) -> (out: Vec<Term>)
    ensures
        terms_view(out@) == all_wired(term_decls_view(ts@), binds_view(binds@)),
    decreases ts, 1nat,
{
    let ghost all = term_decls_view(ts@);
    let mut out: Vec<Term> = Vec::new();
    let n: usize = ts.len();
    for i in 0..n
        invariant
            n == ts@.len(),
            all == term_decls_view(ts@),
            out@.len() == i,
            forall|j: int|
                0 <= j < i ==> (#[trigger] out@[j])@ == wired(all[j], binds_view(binds@)),
        decreases n - i,
    {
        assert(all[i as int] == ts@[i as int]@);
        out.push(emit_check_term(&ts[i], binds));
    }
    assert(terms_view(out@) =~= all_wired(all, binds_view(binds@)));
    out
}

/// The fact a declaration stands for.
pub fn emit_check_fact(f: &CheckFactDecl, binds: &Vec<CheckBind>) -> (out: Fact)
    ensures
        out@ == wired_fact(f@, binds_view(binds@)),
{
    Fact { pred: f.pred.clone(), args: emit_terms(&f.args, binds) }
}

fn emit_opt(f: &Option<CheckFactDecl>, binds: &Vec<CheckBind>) -> (out: Option<Fact>)
    ensures
        opt_fact_view(out) == wired_opt(decl_opt(*f), binds_view(binds@)),
{
    match f {
        Some(f) => Some(emit_check_fact(f, binds)),
        None => None,
    }
}

fn emit_premises(ps: &Vec<CheckPremiseDecl>, binds: &Vec<CheckBind>) -> (out: Vec<Premise>)
    ensures
        premises_view(out@) == wired_premises(premise_decls_view(ps@), binds_view(binds@)),
{
    let ghost all = premise_decls_view(ps@);
    let mut out: Vec<Premise> = Vec::new();
    let n: usize = ps.len();
    for i in 0..n
        invariant
            n == ps@.len(),
            all == premise_decls_view(ps@),
            out@.len() == i,
            forall|j: int|
                0 <= j < i ==> (#[trigger] out@[j])@ == wired_premise(all[j], binds_view(binds@)),
    {
        assert(all[i as int] == ps@[i as int]@);
        let p = match &ps[i] {
            CheckPremiseDecl::State(f) => Premise::State { expect: emit_check_fact(f, binds) },
            CheckPremiseDecl::Child { slot, expect } => Premise::Child {
                slot: slot.clone(),
                expect: emit_check_fact(expect, binds),
            },
        };
        out.push(p);
    }
    assert(premises_view(out@) =~= wired_premises(all, binds_view(binds@)));
    out
}

/// A planned rule. Its slug is text until the plan becomes a program.
#[derive(Debug)]
pub struct RulePlan {
    /// The variant.
    pub variant: String,
    /// Premises in declaration order.
    pub premises: Vec<Premise>,
    /// What the variant concludes.
    pub conclusion: Option<Fact>,
    /// State it leaves behind.
    pub state_after: Option<Fact>,
    /// Slug.
    pub code: String,
    /// Wording.
    pub template: String,
}

impl View for RulePlan {
    type V = SpecRule;

    open spec fn view(&self) -> SpecRule {
        SpecRule {
            variant: self.variant@,
            premises: premises_view(self.premises@),
            conclusion: opt_fact_view(self.conclusion),
            state_after: opt_fact_view(self.state_after),
            message: SpecMessage { code: self.code@, template: self.template@ },
        }
    }
}

/// The views of a list of planned rules.
pub open spec fn rule_plans_view(rs: Seq<RulePlan>) -> Seq<SpecRule> {
    Seq::new(rs.len(), |i: int| rs[i]@)
}

/// The judgement rules of a language.
#[derive(Debug)]
pub struct CheckPlan {
    /// Rules in declaration order.
    pub rules: Vec<RulePlan>,
    /// Slots that are folds.
    pub seq_slots: Vec<SeqSlotDecl>,
}

impl View for CheckPlan {
    type V = SpecProgram;

    open spec fn view(&self) -> SpecProgram {
        SpecProgram { rules: rule_plans_view(self.rules@), seq_slots: slots_view(self.seq_slots@) }
    }
}

impl CheckPlan {
    /// The program of the plan, given a static text for the slug of each
    /// rule. Without a fitting text for every rule there is none.
    pub fn program(&self, codes: &Vec<&'static str>) -> (out: Option<CheckProgram>)
        ensures
            match out {
                Some(p) => p@ == self@,
                None => exists|i: int|
                    0 <= i < self@.rules.len() && (i >= codes@.len() || codes@[i]@ != (
                    #[trigger] self@.rules[i]).message.code),
            },
    {
        let ghost all = rule_plans_view(self.rules@);
        let mut rules: Vec<Rule> = Vec::new();
        let n: usize = self.rules.len();
        for i in 0..n
            invariant
                n == self.rules@.len(),
                all == rule_plans_view(self.rules@),
                rules@.len() == i,
                forall|j: int| 0 <= j < i ==> (#[trigger] rules@[j])@ == all[j],
        {
            let r = &self.rules[i];
            assert(all[i as int] == r@);
            if i >= codes.len() || !same_text(codes[i], r.code.as_str()) {
                assert(self@.rules[i as int] == r@);
                return None;
            }
            rules.push(
                Rule {
                    variant: r.variant.clone(),
                    premises: clone_premises(&r.premises),
                    conclusion: clone_opt_fact(&r.conclusion),
                    state_after: clone_opt_fact(&r.state_after),
                    message: MessageTemplate { code: codes[i], template: r.template.clone() },
                },
            );
        }
        assert(rules_view(rules@) =~= all);
        let mut seq_slots: Vec<SeqSlotDecl> = Vec::new();
        let m: usize = self.seq_slots.len();
        for i in 0..m
            invariant
                m == self.seq_slots@.len(),
                seq_slots@.len() == i,
                forall|j: int|
                    0 <= j < i ==> (#[trigger] seq_slots@[j])@ == self.seq_slots@[j]@,
        {
            seq_slots.push(self.seq_slots[i].clone());
        }
        assert(slots_view(seq_slots@) =~= slots_view(self.seq_slots@));
        Some(CheckProgram { rules, seq_slots })
    }
}

fn plan_rule(variant: &str, attrs: &DslCheckAttrs) -> (out: RulePlan)
    ensures
        out@ == planned_rule(variant@, attrs@),
{
    let template = match &attrs.message {
        Some(m) => m.clone(),
        None => cat3("`", variant, "` requires {expected}, found {found} (from {provenance})"),
    };
    let code = match &attrs.code {
        Some(c) => c.clone(),
        None => if attrs.has_state_premise() || attrs.produces.is_some() {
            CHECK_STATE_MISMATCH.to_owned()
        } else {
            CHECK_TYPE_MISMATCH.to_owned()
        },
    };
    RulePlan {
        variant: variant.to_owned(),
        premises: emit_premises(&attrs.premises, &attrs.binds),
        conclusion: emit_opt(&attrs.concludes, &attrs.binds),
        state_after: emit_opt(&attrs.produces, &attrs.binds),
        code,
        template,
    }
}

fn annotated(attrs: &Vec<AttrDecl>, name: &str) -> (out: bool)
    ensures
        out == has_attr(attrs_view(attrs@), name@),
{
    let ghost all = attrs_view(attrs@);
    let n: usize = attrs.len();
    for i in 0..n
        invariant
            n == attrs@.len(),
            all == attrs_view(attrs@),
            forall|j: int| 0 <= j < i ==> (#[trigger] all[j]).name != name@,
    {
        assert(all[i as int] == attrs@[i as int]@);
        if same_text(attrs[i].name.as_str(), name) {
            return true;
        }
    }
    false
}

fn any_annotated(fields: &Vec<FieldDecl>, name: &str) -> (out: bool)
    ensures
        out == some_annotated(fields_view(fields@), name@),
{
    let ghost all = fields_view(fields@);
    let n: usize = fields.len();
    for i in 0..n
        invariant
            n == fields@.len(),
            all == fields_view(fields@),
            forall|j: int| 0 <= j < i ==> !has_attr((#[trigger] all[j]).attrs, name@),
    {
        assert(all[i as int] == fields@[i as int]@);
        if annotated(&fields[i].attrs, name) {
            return true;
        }
    }
    false
}

fn plan_field_folds(
    fields: &Vec<FieldDecl>,
    variant: &str,
    enum_name: &str,
    done: &mut Vec<SeqSlotDecl>,
) -> (out: Result<(), DeriveError>)
    ensures
        match fold_from(
            fields_view(fields@),
            0,
            slots_view(old(done)@),
            fold_field(variant@, enum_name@),
        ) {
            Ok(slots) => out is Ok && slots_view(final(done)@) == slots,
            Err(m) => out matches Err(e) && e@ == m,
        },
{
    let ghost all = fields_view(fields@);
    let ghost start = slots_view(done@);
    let n: usize = fields.len();
    for i in 0..n
        invariant
            n == fields@.len(),
            all == fields_view(fields@),
            start == slots_view(old(done)@),
            fold_from(all, 0, start, fold_field(variant@, enum_name@)) == fold_from(
                all,
                i as int,
                slots_view(done@),
                fold_field(variant@, enum_name@),
            ),
    {
        let f = &fields[i];
        assert(all[i as int] == f@);
        match dsl_check_fold_attr(f) {
            Err(e) => {
                return Err(e);
            },
            Ok(None) => {},
            Ok(Some(seed)) => {
                let ordered: bool = match detect_recursion(&f.ty, enum_name) {
                    Some(Recursion::Many) => true,
                    Some(Recursion::ManyBoxed) => true,
                    _ => false,
                };
                if !ordered {
                    return Err(
                        DeriveError::new(
                            "#[dsl_check(fold(...))] applies to `Many` child slots only (`Vec<Self>` / `Vec<Box<Self>>`) — a fold threads its state through an ordered sequence, and every other slot is unordered",
                        ),
                    );
                }
                let none: Vec<CheckBind> = Vec::new();
                assert(binds_view(none@) =~= Seq::empty());
                let ghost before = slots_view(done@);
                let slot = SeqSlotDecl {
                    variant: variant.to_owned(),
                    slot: f.name.clone(),
                    initial: emit_check_fact(&seed, &none),
                    mode: SeqMode::Fold,
                };
                done.push(slot);
                assert(slots_view(done@) =~= before.push(slot@));
            },
        }
    }
    Ok(())
}

fn plan_folds(variant: &VariantDecl, enum_name: &str, done: &mut Vec<SeqSlotDecl>) -> (out: Result<
    (),
    DeriveError,
>)
    ensures
        match variant_folds(variant@, enum_name@, slots_view(old(done)@)) {
            Ok(slots) => out is Ok && slots_view(final(done)@) == slots,
            Err(m) => out matches Err(e) && e@ == m,
        },
{
    match &variant.fields {
        FieldsDecl::Named(fs) => plan_field_folds(fs, variant.name.as_str(), enum_name, done),
        FieldsDecl::Unnamed(fs) => if any_annotated(fs, "dsl_check") {
            Err(DeriveError::new("#[dsl_check(...)] applies to named fields only"))
        } else {
            Ok(())
        },
        FieldsDecl::Unit => Ok(()),
    }
}

/// Plans the judgement rules of a language from its annotations.
pub fn derive_dsl_check(input: &InputDecl) -> (out: Result<CheckPlan, DeriveError>)
    ensures
        planned(out) == check_plan(input@),
{
    if annotated(&input.attrs, "dsl_check") {
        return Err(
            DeriveError::new(
                "#[dsl_check(...)] belongs on a variant (`requires` / `produces`) or on a `Vec<Self>` child slot (`fold(initial = \"…\")`), not on the enum itself",
            ),
        );
    }
    let variants = match enum_variants(input, "DslCheck") {
        Ok(vs) => vs,
        Err(e) => {
            return Err(e);
        },
    };
    let ghost all = variants_view(variants@);
    let mut rules: Vec<RulePlan> = Vec::new();
    let mut seq_slots: Vec<SeqSlotDecl> = Vec::new();
    assert(rule_plans_view(rules@) =~= Seq::empty());
    assert(slots_view(seq_slots@) =~= Seq::empty());
    let n: usize = variants.len();
    for i in 0..n
        invariant
            n == variants@.len(),
            all == variants_view(variants@),
            check_plan(input@) == fold_from(
                all,
                i as int,
                SpecProgram {
                    rules: rule_plans_view(rules@),
                    seq_slots: slots_view(seq_slots@),
                },
                check_variant(input.name@),
            ),
    {
        let variant = &variants[i];
        assert(all[i as int] == variant@);
        let attrs = match dsl_check_attrs(variant) {
            Ok(a) => a,
            Err(e) => {
                return Err(e);
            },
        };
        if let Err(e) = validate_check_attrs(variant, &attrs, input.name.as_str()) {
            return Err(e);
        }
        if let Err(e) = plan_folds(variant, input.name.as_str(), &mut seq_slots) {
            return Err(e);
        }
        if attrs.seen {
            let ghost before = rule_plans_view(rules@);
            let rule = plan_rule(variant.name.as_str(), &attrs);
            rules.push(rule);
            assert(rule_plans_view(rules@) =~= before.push(rule@));
        }
    }
    Ok(CheckPlan { rules, seq_slots })
}

} // verus!
