//! Planning how the engine sees a node.
use vstd::prelude::*;
use vstd::string::*;

use crate::derive::decl::{
    attrs_view, fields_view, fold_from, metas_view, planned, type_text, variants_view, DeriveError,
    FieldDecl, InputDecl, MetaDecl, MetaValue, SpecAttr, SpecField, SpecFields, SpecInput, SpecMeta,
    SpecMetaValue, SpecVariant, VariantDecl,
};
use crate::derive::meta::{
    entries_of, enum_variants, enums_only, flag_of, keyed, list_of, name_of, named_fields,
    named_only, some_entries, text_of,
};
use crate::derive::node::{child_fields, children_view, collect_children, ChildPlan, SpecChild};
use crate::derive::shape::{detect_recursion, recursion, Recursion};
use crate::text::{cat3, cat5, same_text, strings_view};

verus! {

/// What a call hands to the host besides its label.
#[derive(Debug)]
pub enum CallPayload {
    /// Nothing.
    Nothing,
    /// Every payload field except the label, by name.
    AllFields,
    /// These fields, by name.
    Fields(Vec<String>),
    /// This field alone.
    Single(String),
}

/// The mathematical shape of a [`CallPayload`].
pub enum SpecCallPayload {
    Nothing,
    AllFields,
    Fields(Seq<Seq<char>>),
    Single(Seq<char>),
}

impl View for CallPayload {
    type V = SpecCallPayload;

    open spec fn view(&self) -> SpecCallPayload {
        match self {
            CallPayload::Nothing => SpecCallPayload::Nothing,
            CallPayload::AllFields => SpecCallPayload::AllFields,
            CallPayload::Fields(fs) => SpecCallPayload::Fields(strings_view(fs@)),
            CallPayload::Single(f) => SpecCallPayload::Single(f@),
        }
    }
}

/// The form an annotation names.
#[derive(Debug)]
pub enum ExecSpec {
    /// `value`
    Value,
    /// `read(field)`
    Read {
        /// Field with the name to read.
        name_field: String,
    },
    /// `apply = "op"`
    Apply {
        /// Operator.
        op: String,
    },
    /// `bind(field)`
    Bind {
        /// Field with the name to bind.
        name_field: String,
    },
    /// `branch`
    Branch,
    /// `repeat`
    Repeat,
    /// `seq`
    Sequence,
    /// `scope(field)`
    Scope {
        /// Field with the label.
        label_field: String,
    },
    /// `maybe`
    Maybe,
    /// `call(field, ..)`
    Call {
        /// Field with the label.
        label_field: String,
        /// What goes with it.
        payload: CallPayload,
    },
}

/// The mathematical shape of an [`ExecSpec`].
pub enum SpecForm {
    Value,
    Read { name_field: Seq<char> },
    Apply { op: Seq<char> },
    Bind { name_field: Seq<char> },
    Branch,
    Repeat,
    Sequence,
    Scope { label_field: Seq<char> },
    Maybe,
    Call { label_field: Seq<char>, payload: SpecCallPayload },
}

impl View for ExecSpec {
    type V = SpecForm;

    open spec fn view(&self) -> SpecForm {
        match self {
            ExecSpec::Value => SpecForm::Value,
            ExecSpec::Read { name_field } => SpecForm::Read { name_field: name_field@ },
            ExecSpec::Apply { op } => SpecForm::Apply { op: op@ },
            ExecSpec::Bind { name_field } => SpecForm::Bind { name_field: name_field@ },
            ExecSpec::Branch => SpecForm::Branch,
            ExecSpec::Repeat => SpecForm::Repeat,
            ExecSpec::Sequence => SpecForm::Sequence,
            ExecSpec::Scope { label_field } => SpecForm::Scope { label_field: label_field@ },
            ExecSpec::Maybe => SpecForm::Maybe,
            ExecSpec::Call { label_field, payload } => SpecForm::Call {
                label_field: label_field@,
                payload: payload@,
            },
        }
    }
}

/// The payload a call is planned to carry.
#[derive(Debug)]
pub enum PayloadPlan {
    /// None.
    Null,
    /// One field alone.
    Single(String),
    /// An object of these fields.
    Object(Vec<String>),
}

/// The mathematical shape of a [`PayloadPlan`].
pub enum SpecPayloadPlan {
    Null,
    Single(Seq<char>),
    Object(Seq<Seq<char>>),
}

impl View for PayloadPlan {
    type V = SpecPayloadPlan;

    open spec fn view(&self) -> SpecPayloadPlan {
        match self {
            PayloadPlan::Null => SpecPayloadPlan::Null,
            PayloadPlan::Single(f) => SpecPayloadPlan::Single(f@),
            PayloadPlan::Object(fs) => SpecPayloadPlan::Object(strings_view(fs@)),
        }
    }
}

/// How the engine sees a variant.
#[allow(inconsistent_fields)]
#[derive(Debug)]
pub enum ExecKind {
    /// A literal.
    Value {
        /// Field with the value.
        field: String,
    },
    /// A read of a name.
    Read {
        /// Field with the name.
        name_field: String,
    },
    /// An operator over its children.
    Apply {
        /// Operator.
        op: String,
        /// Child fields, in order.
        children: Vec<ChildPlan>,
    },
    /// A binding.
    Bind {
        /// Field with the name.
        name_field: String,
        /// Child that gives the value.
        value: ChildPlan,
        /// Child that sees it.
        body: ChildPlan,
    },
    /// A choice.
    Branch {
        /// Condition.
        cond: ChildPlan,
        /// Child for true.
        then_branch: ChildPlan,
        /// Child for false.
        else_branch: Option<ChildPlan>,
    },
    /// A loop.
    Repeat {
        /// Its body.
        body: ChildPlan,
    },
    /// Children in turn.
    Sequence {
        /// Child fields, in order.
        children: Vec<ChildPlan>,
    },
    /// A labelled body.
    Scope {
        /// Field with the label.
        label_field: String,
        /// The body.
        body: ChildPlan,
    },
    /// A body that may be absent.
    Maybe {
        /// The body.
        body: ChildPlan,
    },
    /// A call.
    Call {
        /// Field with the label.
        label_field: String,
        /// What it carries.
        payload: PayloadPlan,
    },
}

/// The mathematical shape of an [`ExecKind`].
#[allow(inconsistent_fields)]
pub enum SpecExecKind {
    Value { field: Seq<char> },
    Read { name_field: Seq<char> },
    Apply { op: Seq<char>, children: Seq<SpecChild> },
    Bind { name_field: Seq<char>, value: SpecChild, body: SpecChild },
    Branch { cond: SpecChild, then_branch: SpecChild, else_branch: Option<SpecChild> },
    Repeat { body: SpecChild },
    Sequence { children: Seq<SpecChild> },
    Scope { label_field: Seq<char>, body: SpecChild },
    Maybe { body: SpecChild },
    Call { label_field: Seq<char>, payload: SpecPayloadPlan },
}

impl View for ExecKind {
    type V = SpecExecKind;

    open spec fn view(&self) -> SpecExecKind {
        match self {
            ExecKind::Value { field } => SpecExecKind::Value { field: field@ },
            ExecKind::Read { name_field } => SpecExecKind::Read { name_field: name_field@ },
            ExecKind::Apply { op, children } => SpecExecKind::Apply {
                op: op@,
                children: children_view(children@),
            },
            ExecKind::Bind { name_field, value, body } => SpecExecKind::Bind {
                name_field: name_field@,
                value: value@,
                body: body@,
            },
            ExecKind::Branch { cond, then_branch, else_branch } => SpecExecKind::Branch {
                cond: cond@,
                then_branch: then_branch@,
                else_branch: match else_branch {
                    Some(c) => Some(c@),
                    None => None,
                },
            },
            ExecKind::Repeat { body } => SpecExecKind::Repeat { body: body@ },
            ExecKind::Sequence { children } => SpecExecKind::Sequence {
                children: children_view(children@),
            },
            ExecKind::Scope { label_field, body } => SpecExecKind::Scope {
                label_field: label_field@,
                body: body@,
            },
            ExecKind::Maybe { body } => SpecExecKind::Maybe { body: body@ },
            ExecKind::Call { label_field, payload } => SpecExecKind::Call {
                label_field: label_field@,
                payload: payload@,
            },
        }
    }
}

/// A variant and how the engine sees it.
#[derive(Debug)]
pub struct ExecArm {
    /// The variant.
    pub variant: String,
    /// How the engine sees it.
    pub kind: ExecKind,
}

/// The mathematical shape of an [`ExecArm`].
pub struct SpecExecArm {
    pub variant: Seq<char>,
    pub kind: SpecExecKind,
}

impl View for ExecArm {
    type V = SpecExecArm;

    open spec fn view(&self) -> SpecExecArm {
        SpecExecArm { variant: self.variant@, kind: self.kind@ }
    }
}

/// The views of a list of variants.
pub open spec fn exec_arms_view(arms: Seq<ExecArm>) -> Seq<SpecExecArm> {
    Seq::new(arms.len(), |i: int| arms[i]@)
}

/// How the engine sees an enum.
#[derive(Debug)]
pub struct ExecPlan {
    /// One entry for each variant.
    pub arms: Vec<ExecArm>,
    /// Type of the literals, if there are any.
    pub literal: Option<String>,
}

/// The mathematical shape of an [`ExecPlan`].
pub struct SpecExecPlan {
    pub arms: Seq<SpecExecArm>,
    pub literal: Option<Seq<char>>,
}

impl View for ExecPlan {
    type V = SpecExecPlan;

    open spec fn view(&self) -> SpecExecPlan {
        SpecExecPlan {
            arms: exec_arms_view(self.arms@),
            literal: crate::text::opt_text(self.literal),
        }
    }
}

/// One entry of a list with a single field name.
pub open spec fn single_field_entry() -> spec_fn(Option<Seq<char>>, SpecMeta) -> Result<
    Option<Seq<char>>,
    Seq<char>,
> {
    |found: Option<Seq<char>>, m: SpecMeta|
        if found is None && m.key is Some {
            match flag_of(m) {
                Err(e) => Err(e),
                Ok(_) => Ok(m.key),
            }
        } else {
            Err("expected a single field name"@)
        }
}

/// The single field name in a list.
pub open spec fn single_field(m: SpecMeta) -> Result<Seq<char>, Seq<char>> {
    match list_of(m) {
        Err(e) => Err(e),
        Ok(ms) => match fold_from(ms, 0, None, single_field_entry()) {
            Err(e) => Err(e),
            Ok(None) => Err("expected a field name argument"@),
            Ok(Some(f)) => Ok(f),
        },
    }
}

/// One entry of a list of field names.
pub open spec fn field_entry() -> spec_fn(Seq<Seq<char>>, SpecMeta) -> Result<
    Seq<Seq<char>>,
    Seq<char>,
> {
    |found: Seq<Seq<char>>, m: SpecMeta|
        match m.key {
            None => Err("expected a field name"@),
            Some(k) => match flag_of(m) {
                Err(e) => Err(e),
                Ok(_) => Ok(found.push(k)),
            },
        }
}

/// The payload clause of a call.
pub open spec fn payload_clause(m: SpecMeta) -> Result<SpecCallPayload, Seq<char>> {
    match m.value {
        SpecMetaValue::Flag => Ok(SpecCallPayload::AllFields),
        SpecMetaValue::List(ms) => match some_entries(ms) {
            Err(e) => Err(e),
            Ok(ms) => match fold_from(ms, 0, Seq::empty(), field_entry()) {
                Err(e) => Err(e),
                Ok(fs) => Ok(SpecCallPayload::Fields(fs)),
            },
        },
        _ => match name_of(m) {
            Err(e) => Err(e),
            Ok(f) => Ok(SpecCallPayload::Single(f)),
        },
    }
}

/// What is known of a call so far.
pub struct SpecCallForm {
    pub label: Option<Seq<char>>,
    pub payload: SpecCallPayload,
}

/// One entry of a call's list.
pub open spec fn call_entry() -> spec_fn(SpecCallForm, SpecMeta) -> Result<
    SpecCallForm,
    Seq<char>,
> {
    |s: SpecCallForm, m: SpecMeta|
        if keyed(m, "payload"@) {
            match payload_clause(m) {
                Err(e) => Err(e),
                Ok(payload) => Ok(SpecCallForm { label: s.label, payload }),
            }
        } else {
            match m.key {
                None => Err("expected a field name"@),
                Some(_) => if s.label is Some {
                    Err(
                        "expected a single label field name, then an optional `payload` / `payload(a, b)` / `payload = field` clause"@,
                    )
                } else {
                    match flag_of(m) {
                        Err(e) => Err(e),
                        Ok(_) => Ok(SpecCallForm { label: m.key, payload: s.payload }),
                    }
                },
            }
        }
}

/// The label and payload of a call.
pub open spec fn call_clause(m: SpecMeta) -> Result<(Seq<char>, SpecCallPayload), Seq<char>> {
    match list_of(m) {
        Err(e) => Err(e),
        Ok(ms) => match fold_from(
            ms,
            0,
            SpecCallForm { label: None, payload: SpecCallPayload::Nothing },
            call_entry(),
        ) {
            Err(e) => Err(e),
            Ok(s) => match s.label {
                None => Err("expected a label field name argument"@),
                Some(l) => Ok((l, s.payload)),
            },
        },
    }
}

/// The refusal of an unknown form.
pub open spec fn unknown_form() -> Seq<char> {
    "unknown #[dsl_exec(...)] form; expected one of value / read(field) / apply = \"op\" / bind(field) / branch / repeat / seq / scope(field) / maybe / call(field[, payload | payload(a, b) | payload = field])"@
}

/// A form that is a plain word.
pub open spec fn word_form(m: SpecMeta, form: SpecForm) -> Result<SpecForm, Seq<char>> {
    match flag_of(m) {
        Err(e) => Err(e),
        Ok(_) => Ok(form),
    }
}

/// The form an entry names.
pub open spec fn form_of(m: SpecMeta) -> Result<SpecForm, Seq<char>> {
    if keyed(m, "value"@) {
        word_form(m, SpecForm::Value)
    } else if keyed(m, "read"@) {
        match single_field(m) {
            Err(e) => Err(e),
            Ok(name_field) => Ok(SpecForm::Read { name_field }),
        }
    } else if keyed(m, "apply"@) {
        match text_of(m) {
            Err(e) => Err(e),
            Ok(op) => Ok(SpecForm::Apply { op }),
        }
    } else if keyed(m, "bind"@) {
        match single_field(m) {
            Err(e) => Err(e),
            Ok(name_field) => Ok(SpecForm::Bind { name_field }),
        }
    } else if keyed(m, "branch"@) {
        word_form(m, SpecForm::Branch)
    } else if keyed(m, "repeat"@) {
        word_form(m, SpecForm::Repeat)
    } else if keyed(m, "seq"@) {
        word_form(m, SpecForm::Sequence)
    } else if keyed(m, "scope"@) {
        match single_field(m) {
            Err(e) => Err(e),
            Ok(label_field) => Ok(SpecForm::Scope { label_field }),
        }
    } else if keyed(m, "maybe"@) {
        word_form(m, SpecForm::Maybe)
    } else if keyed(m, "call"@) {
        match call_clause(m) {
            Err(e) => Err(e),
            Ok((label_field, payload)) => Ok(SpecForm::Call { label_field, payload }),
        }
    } else {
        Err(unknown_form())
    }
}

/// One entry of a form annotation; the last one counts.
pub open spec fn form_entry() -> spec_fn(Option<SpecForm>, SpecMeta) -> Result<
    Option<SpecForm>,
    Seq<char>,
> {
    |s: Option<SpecForm>, m: SpecMeta|
        match form_of(m) {
            Err(e) => Err(e),
            Ok(form) => Ok(Some(form)),
        }
}

/// The form of a variant from its annotations at position `i` on: the first
/// annotation of that name decides.
pub open spec fn variant_form(attrs: Seq<SpecAttr>, i: int) -> Result<SpecForm, Seq<char>>
    decreases attrs.len() - i,
{
    if i < 0 || i >= attrs.len() {
        Err(
            "#[derive(DslExec)] requires a #[dsl_exec(...)] annotation on every variant (or implement Ast by hand for advanced shapes)"@,
        )
    } else if attrs[i].name != "dsl_exec"@ {
        variant_form(attrs, i + 1)
    } else {
        match entries_of(attrs[i]) {
            Err(e) => Err(e),
            Ok(ms) => match fold_from(ms, 0, None, form_entry()) {
                Err(e) => Err(e),
                Ok(None) => Err("#[dsl_exec(...)] requires a form"@),
                Ok(Some(form)) => Ok(form),
            },
        }
    }
}

/// A payload field: its name and type.
pub struct SpecPayload {
    pub field: Seq<char>,
    pub ty: Seq<char>,
}

/// The payload fields among the first `n` fields.
pub open spec fn payload_fields(fields: Seq<SpecField>, node: Seq<char>, n: nat) -> Seq<SpecPayload>
    decreases n,
{
    if n == 0 || n > fields.len() {
        Seq::empty()
    } else {
        let before = payload_fields(fields, node, (n - 1) as nat);
        let f = fields[n - 1];
        if f.name == "id"@ || recursion(f.ty, node) is Some {
            before
        } else {
            before.push(SpecPayload { field: f.name, ty: type_text(f.ty) })
        }
    }
}

/// The names of payload fields.
pub open spec fn payload_names(ps: Seq<SpecPayload>) -> Seq<Seq<char>> {
    Seq::new(ps.len(), |i: int| ps[i].field)
}

/// The first `n` names other than `label`.
pub open spec fn names_without(names: Seq<Seq<char>>, label: Seq<char>, n: nat) -> Seq<Seq<char>>
    decreases n,
{
    if n == 0 || n > names.len() {
        Seq::empty()
    } else {
        let before = names_without(names, label, (n - 1) as nat);
        if names[n - 1] == label {
            before
        } else {
            before.push(names[n - 1])
        }
    }
}

/// The fields a payload takes.
pub open spec fn selected(payload: SpecCallPayload, label: Seq<char>, known: Seq<Seq<char>>) -> Seq<
    Seq<char>,
> {
    match payload {
        SpecCallPayload::Nothing => Seq::empty(),
        SpecCallPayload::AllFields => names_without(known, label, known.len()),
        SpecCallPayload::Fields(fs) => fs,
        SpecCallPayload::Single(f) => seq![f],
    }
}

/// The first name from position `i` on that is not known.
pub open spec fn first_unknown(names: Seq<Seq<char>>, known: Seq<Seq<char>>, i: int) -> Option<
    Seq<char>,
>
    decreases names.len() - i,
{
    if i < 0 || i >= names.len() {
        None
    } else if !known.contains(names[i]) {
        Some(names[i])
    } else {
        first_unknown(names, known, i + 1)
    }
}

/// A child that has to be a single node.
pub open spec fn single_child(c: SpecChild, role: Seq<char>) -> Result<SpecChild, Seq<char>> {
    if c.kind == Recursion::Direct || c.kind == Recursion::Boxed {
        Ok(c)
    } else {
        Err("#[dsl_exec] "@ + role + " field `"@ + c.field + "` must be `Self` or `Box<Self>`"@)
    }
}

/// How the engine sees a call.
pub open spec fn call_kind(
    label: Seq<char>,
    payload: SpecCallPayload,
    children: Seq<SpecChild>,
    payloads: Seq<SpecPayload>,
) -> Result<SpecExecKind, Seq<char>> {
    let known = payload_names(payloads);
    let chosen = selected(payload, label, known);
    if children.len() > 0 {
        Err("#[dsl_exec(call(..))] variants must have no child fields"@)
    } else {
        match first_unknown(chosen, known, 0) {
            Some(f) => Err(
                "#[dsl_exec(call(..))] payload field `"@ + f
                    + "` is not a non-recursive field of this variant"@,
            ),
            None => Ok(
                SpecExecKind::Call {
                    label_field: label,
                    payload: match payload {
                        SpecCallPayload::Nothing => SpecPayloadPlan::Null,
                        SpecCallPayload::Single(f) => SpecPayloadPlan::Single(f),
                        _ => SpecPayloadPlan::Object(chosen),
                    },
                },
            ),
        }
    }
}

/// How the engine sees a variant that is no literal.
pub open spec fn node_kind(
    form: SpecForm,
    children: Seq<SpecChild>,
    payloads: Seq<SpecPayload>,
) -> Result<SpecExecKind, Seq<char>> {
    match form {
        SpecForm::Value => Err("#[dsl_exec(...)] requires a form"@),
        SpecForm::Read { name_field } => Ok(SpecExecKind::Read { name_field }),
        SpecForm::Apply { op } => Ok(SpecExecKind::Apply { op, children }),
        SpecForm::Bind { name_field } => if children.len() != 2 {
            Err(
                "#[dsl_exec(bind(..))] variants must have exactly two child fields (value, then body)"@,
            )
        } else {
            match (single_child(children[0], "value"@), single_child(children[1], "body"@)) {
                (Err(e), _) => Err(e),
                (_, Err(e)) => Err(e),
                (Ok(value), Ok(body)) => Ok(SpecExecKind::Bind { name_field, value, body }),
            }
        },
        SpecForm::Branch => if children.len() < 2 || children.len() > 3 {
            Err(
                "#[dsl_exec(branch)] variants must have two or three child fields (cond, then, optional else)"@,
            )
        } else {
            match (single_child(children[0], "cond"@), single_child(children[1], "then"@)) {
                (Err(e), _) => Err(e),
                (_, Err(e)) => Err(e),
                (Ok(cond), Ok(then_branch)) => if children.len() == 2 {
                    Ok(SpecExecKind::Branch { cond, then_branch, else_branch: None })
                } else if crate::derive::schema::at_most_one(children[2].kind) {
                    Ok(SpecExecKind::Branch { cond, then_branch, else_branch: Some(children[2]) })
                } else {
                    Err("#[dsl_exec(branch)] else field must be a single or optional child"@)
                },
            }
        },
        SpecForm::Repeat => if children.len() != 1 {
            Err("#[dsl_exec(repeat)] variants must have exactly one child field"@)
        } else {
            match single_child(children[0], "body"@) {
                Err(e) => Err(e),
                Ok(body) => Ok(SpecExecKind::Repeat { body }),
            }
        },
        SpecForm::Sequence => Ok(SpecExecKind::Sequence { children }),
        SpecForm::Scope { label_field } => if children.len() != 1 {
            Err("#[dsl_exec(scope(..))] variants must have exactly one child field"@)
        } else {
            match single_child(children[0], "body"@) {
                Err(e) => Err(e),
                Ok(body) => Ok(SpecExecKind::Scope { label_field, body }),
            }
        },
        SpecForm::Maybe => if children.len() != 1 {
            Err("#[dsl_exec(maybe)] variants must have exactly one child field"@)
        } else if children[0].kind == Recursion::Optional || children[0].kind
            == Recursion::OptionalBoxed {
            Ok(SpecExecKind::Maybe { body: children[0] })
        } else {
            Err(
                "#[dsl_exec(maybe)] child field must be `Option<Self>` or `Option<Box<Self>>`"@,
            )
        },
        SpecForm::Call { label_field, payload } => call_kind(
            label_field,
            payload,
            children,
            payloads,
        ),
    }
}

/// How the engine sees a literal, and the type all literals share.
pub open spec fn literal_kind(
    children: Seq<SpecChild>,
    payloads: Seq<SpecPayload>,
    literal: Option<Seq<char>>,
) -> Result<(SpecExecKind, Seq<char>), Seq<char>> {
    if children.len() > 0 {
        Err("#[dsl_exec(value)] variants must have no child fields"@)
    } else if payloads.len() != 1 {
        Err("#[dsl_exec(value)] variants must have exactly one payload field"@)
    } else if literal is Some && literal->0 != payloads[0].ty {
        Err(
            "#[dsl_exec(value)] fields must share one type; saw `"@ + literal->0 + "` and `"@
                + payloads[0].ty + "`"@,
        )
    } else {
        Ok((SpecExecKind::Value { field: payloads[0].field }, payloads[0].ty))
    }
}

/// One more variant of an enum.
pub open spec fn exec_arm(node: Seq<char>) -> spec_fn(SpecExecPlan, SpecVariant) -> Result<
    SpecExecPlan,
    Seq<char>,
> {
    |p: SpecExecPlan, v: SpecVariant|
        match v.fields {
            SpecFields::Named(fs) => match variant_form(v.attrs, 0) {
                Err(e) => Err(e),
                Ok(form) => {
                    let children = child_fields(fs, node, fs.len());
                    let payloads = payload_fields(fs, node, fs.len());
                    if form is Value {
                        match literal_kind(children, payloads, p.literal) {
                            Err(e) => Err(e),
                            Ok((kind, ty)) => Ok(
                                SpecExecPlan {
                                    arms: p.arms.push(SpecExecArm { variant: v.name, kind }),
                                    literal: Some(ty),
                                },
                            ),
                        }
                    } else {
                        match node_kind(form, children, payloads) {
                            Err(e) => Err(e),
                            Ok(kind) => Ok(
                                SpecExecPlan {
                                    arms: p.arms.push(SpecExecArm { variant: v.name, kind }),
                                    literal: p.literal,
                                },
                            ),
                        }
                    }
                },
            },
            _ => Err(named_only("DslExec"@)),
        }
}

/// How the engine sees an enum, unless it is refused.
pub open spec fn exec_plan(input: SpecInput) -> Result<SpecExecPlan, Seq<char>> {
    match input.variants {
        None => Err(enums_only("DslExec"@)),
        Some(vs) => fold_from(
            vs,
            0,
            SpecExecPlan { arms: Seq::empty(), literal: None },
            exec_arm(input.name),
        ),
    }
}

/// The view of a name or of why there is none.
pub open spec fn named_result(out: Result<String, DeriveError>) -> Result<Seq<char>, Seq<char>> {
    match out {
        Ok(s) => Ok(s@),
        Err(e) => Err(e@),
    }
}

fn read_single_field(m: &MetaDecl) -> (out: Result<String, DeriveError>)
    ensures
        named_result(out) == single_field(m@),
{
    let metas = match m.list() {
        Ok(ms) => ms,
        Err(e) => {
            return Err(e);
        },
    };
    let ghost all = metas_view(metas@);
    let mut found: Option<String> = None;
    let n: usize = metas.len();
    for i in 0..n
        invariant
            n == metas@.len(),
            all == metas_view(metas@),
            list_of(m@) == Ok::<Seq<SpecMeta>, Seq<char>>(all),
            fold_from(all, 0, None, single_field_entry()) == fold_from(
                all,
                i as int,
                crate::text::opt_text(found),
                single_field_entry(),
            ),
    {
        let inner = &metas[i];
        assert(all[i as int] == inner@);
        match &inner.key {
            Some(k) => {
                if found.is_some() {
                    return Err(DeriveError::new("expected a single field name"));
                }
                if let Err(e) = inner.flag() {
                    return Err(e);
                }
                found = Some(k.clone());
            },
            None => {
                return Err(DeriveError::new("expected a single field name"));
            },
        }
    }
    match found {
        Some(f) => Ok(f),
        None => Err(DeriveError::new("expected a field name argument")),
    }
}

fn read_fields(metas: &Vec<MetaDecl>) -> (out: Result<Vec<String>, DeriveError>)
    ensures
        match out {
            Ok(fs) => fold_from(metas_view(metas@), 0, Seq::empty(), field_entry()) == Ok::<
                Seq<Seq<char>>,
                Seq<char>,
            >(strings_view(fs@)),
            Err(e) => fold_from(metas_view(metas@), 0, Seq::empty(), field_entry()) == Err::<
                Seq<Seq<char>>,
                Seq<char>,
            >(e@),
        },
{
    let ghost all = metas_view(metas@);
    let mut out: Vec<String> = Vec::new();
    assert(strings_view(out@) =~= Seq::empty());
    let n: usize = metas.len();
    for i in 0..n
        invariant
            n == metas@.len(),
            all == metas_view(metas@),
            fold_from(all, 0, Seq::empty(), field_entry()) == fold_from(
                all,
                i as int,
                strings_view(out@),
                field_entry(),
            ),
    {
        let m = &metas[i];
        assert(all[i as int] == m@);
        match &m.key {
            None => {
                return Err(DeriveError::new("expected a field name"));
            },
            Some(k) => {
                if let Err(e) = m.flag() {
                    return Err(e);
                }
                let ghost before = strings_view(out@);
                out.push(k.clone());
                assert(strings_view(out@) =~= before.push(k@));
            },
        }
    }
    Ok(out)
}

fn read_payload_clause(m: &MetaDecl) -> (out: Result<CallPayload, DeriveError>)
    ensures
        planned(out) == payload_clause(m@),
{
    match &m.value {
        MetaValue::Flag => Ok(CallPayload::AllFields),
        MetaValue::List(ms) => {
            assert(metas_view(ms@).len() == ms@.len());
            if ms.len() == 0 {
                return Err(
                    DeriveError::new("unexpected end of input, expected nested attribute"),
                );
            }
            match read_fields(ms) {
                Ok(fs) => Ok(CallPayload::Fields(fs)),
                Err(e) => Err(e),
            }
        },
        _ => match m.name() {
            Ok(f) => Ok(CallPayload::Single(f.to_owned())),
            Err(e) => Err(e),
        },
    }
}

/// Reads the inside of `call(...)`: a label field and an optional payload
/// clause.
pub fn call_form(m: &MetaDecl) -> (out: Result<(String, CallPayload), DeriveError>)
    ensures
        match out {
            Ok(p) => call_clause(m@) == Ok::<(Seq<char>, SpecCallPayload), Seq<char>>(
                (p.0@, p.1@),
            ),
            Err(e) => call_clause(m@) == Err::<(Seq<char>, SpecCallPayload), Seq<char>>(e@),
        },
{
    let metas = match m.list() {
        Ok(ms) => ms,
        Err(e) => {
            return Err(e);
        },
    };
    let ghost all = metas_view(metas@);
    let ghost start = SpecCallForm { label: None, payload: SpecCallPayload::Nothing };
    let mut label: Option<String> = None;
    let mut payload = CallPayload::Nothing;
    let n: usize = metas.len();
    for i in 0..n
        invariant
            n == metas@.len(),
            all == metas_view(metas@),
            list_of(m@) == Ok::<Seq<SpecMeta>, Seq<char>>(all),
            start == (SpecCallForm { label: None, payload: SpecCallPayload::Nothing }),
            fold_from(all, 0, start, call_entry()) == fold_from(
                all,
                i as int,
                SpecCallForm { label: crate::text::opt_text(label), payload: payload@ },
                call_entry(),
            ),
    {
        let inner = &metas[i];
        assert(all[i as int] == inner@);
        if inner.keyed("payload") {
            payload = match read_payload_clause(inner) {
                Ok(p) => p,
                Err(e) => {
                    return Err(e);
                },
            };
        } else {
            match &inner.key {
                None => {
                    return Err(DeriveError::new("expected a field name"));
                },
                Some(k) => {
                    if label.is_some() {
                        return Err(
                            DeriveError::new(
                                "expected a single label field name, then an optional `payload` / `payload(a, b)` / `payload = field` clause",
                            ),
                        );
                    }
                    if let Err(e) = inner.flag() {
                        return Err(e);
                    }
                    label = Some(k.clone());
                },
            }
        }
    }
    match label {
        Some(l) => Ok((l, payload)),
        None => Err(DeriveError::new("expected a label field name argument")),
    }
}

fn read_word(m: &MetaDecl, form: ExecSpec) -> (out: Result<ExecSpec, DeriveError>)
    ensures
        planned(out) == word_form(m@, form@),
{
    match m.flag() {
        Ok(()) => Ok(form),
        Err(e) => Err(e),
    }
}

fn read_form(m: &MetaDecl) -> (out: Result<ExecSpec, DeriveError>)
    ensures
        planned(out) == form_of(m@),
{
    if m.keyed("value") {
        read_word(m, ExecSpec::Value)
    } else if m.keyed("read") {
        match read_single_field(m) {
            Ok(name_field) => Ok(ExecSpec::Read { name_field }),
            Err(e) => Err(e),
        }
    } else if m.keyed("apply") {
        match m.text() {
            Ok(op) => Ok(ExecSpec::Apply { op: op.to_owned() }),
            Err(e) => Err(e),
        }
    } else if m.keyed("bind") {
        match read_single_field(m) {
            Ok(name_field) => Ok(ExecSpec::Bind { name_field }),
            Err(e) => Err(e),
        }
    } else if m.keyed("branch") {
        read_word(m, ExecSpec::Branch)
    } else if m.keyed("repeat") {
        read_word(m, ExecSpec::Repeat)
    } else if m.keyed("seq") {
        read_word(m, ExecSpec::Sequence)
    } else if m.keyed("scope") {
        match read_single_field(m) {
            Ok(label_field) => Ok(ExecSpec::Scope { label_field }),
            Err(e) => Err(e),
        }
    } else if m.keyed("maybe") {
        read_word(m, ExecSpec::Maybe)
    } else if m.keyed("call") {
        match call_form(m) {
            Ok((label_field, payload)) => Ok(ExecSpec::Call { label_field, payload }),
            Err(e) => Err(e),
        }
    } else {
        Err(
            DeriveError::new(
                "unknown #[dsl_exec(...)] form; expected one of value / read(field) / apply = \"op\" / bind(field) / branch / repeat / seq / scope(field) / maybe / call(field[, payload | payload(a, b) | payload = field])",
            ),
        )
    }
}

/// The view of an optional form.
pub open spec fn form_opt(f: Option<ExecSpec>) -> Option<SpecForm> {
    match f {
        Some(f) => Some(f@),
        None => None,
    }
}

fn read_form_entries(metas: &Vec<MetaDecl>) -> (out: Result<Option<ExecSpec>, DeriveError>)
    ensures
        match out {
            Ok(f) => fold_from(metas_view(metas@), 0, None, form_entry()) == Ok::<
                Option<SpecForm>,
                Seq<char>,
            >(form_opt(f)),
            Err(e) => fold_from(metas_view(metas@), 0, None, form_entry()) == Err::<
                Option<SpecForm>,
                Seq<char>,
            >(e@),
        },
{
    let ghost all = metas_view(metas@);
    let mut form: Option<ExecSpec> = None;
    let n: usize = metas.len();
    for i in 0..n
        invariant
            n == metas@.len(),
            all == metas_view(metas@),
            fold_from(all, 0, None, form_entry()) == fold_from(
                all,
                i as int,
                form_opt(form),
                form_entry(),
            ),
    {
        assert(all[i as int] == metas@[i as int]@);
        form = match read_form(&metas[i]) {
            Ok(f) => Some(f),
            Err(e) => {
                return Err(e);
            },
        };
    }
    Ok(form)
}

/// Reads the form of a variant from its first `dsl_exec` annotation.
pub fn dsl_exec_attr(variant: &VariantDecl) -> (out: Result<ExecSpec, DeriveError>)
    ensures
        planned(out) == variant_form(variant@.attrs, 0),
{
    let ghost all = attrs_view(variant.attrs@);
    let n: usize = variant.attrs.len();
    for i in 0..n
        invariant
            n == variant.attrs@.len(),
            all == attrs_view(variant.attrs@),
            variant_form(all, 0) == variant_form(all, i as int),
    {
        let attr = &variant.attrs[i];
        assert(all[i as int] == attr@);
        if same_text(attr.name.as_str(), "dsl_exec") {
            let metas = match attr.entries() {
                Ok(ms) => ms,
                Err(e) => {
                    return Err(e);
                },
            };
            return match read_form_entries(metas) {
                Err(e) => Err(e),
                Ok(Some(form)) => Ok(form),
                Ok(None) => Err(DeriveError::new("#[dsl_exec(...)] requires a form")),
            };
        }
    }
    Err(
        DeriveError::new(
            "#[derive(DslExec)] requires a #[dsl_exec(...)] annotation on every variant (or implement Ast by hand for advanced shapes)",
        ),
    )
}

/// A payload field: its name and type.
struct Payload {
    field: String,
    ty: String,
}

impl View for Payload {
    type V = SpecPayload;

    closed spec fn view(&self) -> SpecPayload {
        SpecPayload { field: self.field@, ty: self.ty@ }
    }
}

spec fn payloads_view(ps: Seq<Payload>) -> Seq<SpecPayload> {
    Seq::new(ps.len(), |i: int| ps[i]@)
}

fn collect_payloads(fields: &Vec<FieldDecl>, enum_name: &str) -> (out: Vec<Payload>)
    ensures
        payloads_view(out@) == payload_fields(
            fields_view(fields@),
            enum_name@,
            fields_view(fields@).len(),
        ),
{
    let ghost all = fields_view(fields@);
    let mut out: Vec<Payload> = Vec::new();
    assert(payloads_view(out@) =~= Seq::empty());
    let n: usize = fields.len();
    for i in 0..n
        invariant
            n == fields@.len(),
            all == fields_view(fields@),
            payloads_view(out@) == payload_fields(all, enum_name@, i as nat),
    {
        let f = &fields[i];
        assert(all[i as int] == f@);
        if !same_text(f.name.as_str(), "id") && detect_recursion(&f.ty, enum_name).is_none() {
            let ghost before = payloads_view(out@);
            let p = Payload { field: f.name.clone(), ty: f.ty.text().to_owned() };
            out.push(p);
            assert(payloads_view(out@) =~= before.push(p@));
        }
    }
    out
}

fn copy_child(c: &ChildPlan) -> (out: ChildPlan)
    ensures
        out@ == c@,
{
    ChildPlan { field: c.field.clone(), kind: c.kind }
}

/// Accepts a child that is a single node.
pub fn single_child_id(c: &ChildPlan, role: &str) -> (out: Result<ChildPlan, DeriveError>)
    ensures
        planned(out) == single_child(c@, role@),
{
    match c.kind {
        Recursion::Direct => Ok(copy_child(c)),
        Recursion::Boxed => Ok(copy_child(c)),
        _ => Err(
            DeriveError {
                message: cat5(
                    "#[dsl_exec] ",
                    role,
                    " field `",
                    c.field.as_str(),
                    "` must be `Self` or `Box<Self>`",
                ),
            },
        ),
    }
}

fn has_name(names: &Vec<String>, name: &str) -> (out: bool)
    ensures
        out == strings_view(names@).contains(name@),
{
    let ghost all = strings_view(names@);
    let n: usize = names.len();
    for i in 0..n
        invariant
            n == names@.len(),
            all == strings_view(names@),
            forall|j: int| 0 <= j < i ==> #[trigger] all[j] != name@,
    {
        assert(all[i as int] == names@[i as int]@);
        if same_text(names[i].as_str(), name) {
            return true;
        }
    }
    assert(!all.contains(name@));
    false
}

fn plan_names(ps: &Vec<Payload>) -> (out: Vec<String>)
    ensures
        strings_view(out@) == payload_names(payloads_view(ps@)),
{
    let mut out: Vec<String> = Vec::new();
    let n: usize = ps.len();
    for i in 0..n
        invariant
            n == ps@.len(),
            out@.len() == i,
            forall|j: int| 0 <= j < i ==> (#[trigger] out@[j])@ == ps@[j]@.field,
    {
        out.push(ps[i].field.clone());
    }
    assert(strings_view(out@) =~= payload_names(payloads_view(ps@)));
    out
}

fn all_but(names: &Vec<String>, label: &str) -> (out: Vec<String>)
    ensures
        strings_view(out@) == names_without(
            strings_view(names@),
            label@,
            strings_view(names@).len(),
        ),
{
    let ghost all = strings_view(names@);
    let mut out: Vec<String> = Vec::new();
    assert(strings_view(out@) =~= Seq::empty());
    let n: usize = names.len();
    for i in 0..n
        invariant
            n == names@.len(),
            all == strings_view(names@),
            strings_view(out@) == names_without(all, label@, i as nat),
    {
        assert(all[i as int] == names@[i as int]@);
        if !same_text(names[i].as_str(), label) {
            let ghost before = strings_view(out@);
            out.push(names[i].clone());
            assert(strings_view(out@) =~= before.push(names@[i as int]@));
        }
    }
    out
}

fn find_unknown(names: &Vec<String>, known: &Vec<String>) -> (out: Option<String>)
    ensures
        crate::text::opt_text(out) == first_unknown(strings_view(names@), strings_view(known@), 0),
{
    let ghost all = strings_view(names@);
    let n: usize = names.len();
    for i in 0..n
        invariant
            n == names@.len(),
            all == strings_view(names@),
            first_unknown(all, strings_view(known@), 0) == first_unknown(
                all,
                strings_view(known@),
                i as int,
            ),
    {
        assert(all[i as int] == names@[i as int]@);
        if !has_name(known, names[i].as_str()) {
            return Some(names[i].clone());
        }
    }
    None
}

fn plan_call(
    label: String,
    payload: CallPayload,
    children: &Vec<ChildPlan>,
    payloads: &Vec<Payload>,
) -> (out: Result<ExecKind, DeriveError>)
    ensures
        planned(out) == call_kind(
            label@,
            payload@,
            children_view(children@),
            payloads_view(payloads@),
        ),
{
    if children.len() > 0 {
        return Err(
            DeriveError::new("#[dsl_exec(call(..))] variants must have no child fields"),
        );
    }
    let known = plan_names(payloads);
    let plan = match payload {
        CallPayload::Nothing => {
            assert(selected(payload@, label@, strings_view(known@)).len() == 0);
            return Ok(ExecKind::Call { label_field: label, payload: PayloadPlan::Null });
        },
        CallPayload::AllFields => PayloadPlan::Object(all_but(&known, label.as_str())),
        CallPayload::Fields(fs) => PayloadPlan::Object(fs),
        CallPayload::Single(f) => PayloadPlan::Single(f),
    };
    let unknown = match &plan {
        PayloadPlan::Null => None,
        PayloadPlan::Object(fs) => find_unknown(fs, &known),
        PayloadPlan::Single(f) => {
            let ghost one = seq![f@];
            assert(one[0] == f@);
            assert(first_unknown(one, strings_view(known@), 1) is None);
            if has_name(&known, f.as_str()) {
                None
            } else {
                Some(f.clone())
            }
        },
    };
    match unknown {
        Some(f) => Err(
            DeriveError {
                message: cat3(
                    "#[dsl_exec(call(..))] payload field `",
                    f.as_str(),
                    "` is not a non-recursive field of this variant",
                ),
            },
        ),
        None => Ok(ExecKind::Call { label_field: label, payload: plan }),
    }
}

fn plan_kind(form: ExecSpec, children: Vec<ChildPlan>, payloads: &Vec<Payload>) -> (out: Result<
    ExecKind,
    DeriveError,
>)
    ensures
        planned(out) == node_kind(form@, children_view(children@), payloads_view(payloads@)),
{
    let ghost all = children_view(children@);
    let n: usize = children.len();
    assert(all.len() == n);
    proof {
        assert forall|i: int| 0 <= i < n implies #[trigger] all[i] == children@[i]@ by {}
    }
    match form {
        ExecSpec::Value => Err(DeriveError::new("#[dsl_exec(...)] requires a form")),
        ExecSpec::Read { name_field } => Ok(ExecKind::Read { name_field }),
        ExecSpec::Apply { op } => Ok(ExecKind::Apply { op, children }),
        ExecSpec::Bind { name_field } => {
            if n != 2 {
                return Err(
                    DeriveError::new(
                        "#[dsl_exec(bind(..))] variants must have exactly two child fields (value, then body)",
                    ),
                );
            }
            assert(all[0] == children@[0]@ && all[1] == children@[1]@);
            let value = match single_child_id(&children[0], "value") {
                Ok(c) => c,
                Err(e) => {
                    return Err(e);
                },
            };
            let body = match single_child_id(&children[1], "body") {
                Ok(c) => c,
                Err(e) => {
                    return Err(e);
                },
            };
            Ok(ExecKind::Bind { name_field, value, body })
        },
        ExecSpec::Branch => {
            if n < 2 || n > 3 {
                return Err(
                    DeriveError::new(
                        "#[dsl_exec(branch)] variants must have two or three child fields (cond, then, optional else)",
                    ),
                );
            }
            assert(all[0] == children@[0]@ && all[1] == children@[1]@);
            let cond = match single_child_id(&children[0], "cond") {
                Ok(c) => c,
                Err(e) => {
                    return Err(e);
                },
            };
            let then_branch = match single_child_id(&children[1], "then") {
                Ok(c) => c,
                Err(e) => {
                    return Err(e);
                },
            };
            if n == 2 {
                return Ok(ExecKind::Branch { cond, then_branch, else_branch: None });
            }
            assert(all[2] == children@[2]@);
            match children[2].kind {
                Recursion::Direct | Recursion::Boxed | Recursion::Optional
                | Recursion::OptionalBoxed => Ok(
                    ExecKind::Branch {
                        cond,
                        then_branch,
                        else_branch: Some(copy_child(&children[2])),
                    },
                ),
                _ => Err(
                    DeriveError::new(
                        "#[dsl_exec(branch)] else field must be a single or optional child",
                    ),
                ),
            }
        },
        ExecSpec::Repeat => {
            if n != 1 {
                return Err(
                    DeriveError::new(
                        "#[dsl_exec(repeat)] variants must have exactly one child field",
                    ),
                );
            }
            assert(all[0] == children@[0]@);
            match single_child_id(&children[0], "body") {
                Ok(body) => Ok(ExecKind::Repeat { body }),
                Err(e) => Err(e),
            }
        },
        ExecSpec::Sequence => Ok(ExecKind::Sequence { children }),
        ExecSpec::Scope { label_field } => {
            if n != 1 {
                return Err(
                    DeriveError::new(
                        "#[dsl_exec(scope(..))] variants must have exactly one child field",
                    ),
                );
            }
            assert(all[0] == children@[0]@);
            match single_child_id(&children[0], "body") {
                Ok(body) => Ok(ExecKind::Scope { label_field, body }),
                Err(e) => Err(e),
            }
        },
        ExecSpec::Maybe => {
            if n != 1 {
                return Err(
                    DeriveError::new(
                        "#[dsl_exec(maybe)] variants must have exactly one child field",
                    ),
                );
            }
            assert(all[0] == children@[0]@);
            match children[0].kind {
                Recursion::Optional | Recursion::OptionalBoxed => Ok(
                    ExecKind::Maybe { body: copy_child(&children[0]) },
                ),
                _ => Err(
                    DeriveError::new(
                        "#[dsl_exec(maybe)] child field must be `Option<Self>` or `Option<Box<Self>>`",
                    ),
                ),
            }
        },
        ExecSpec::Call { label_field, payload } => plan_call(
            label_field,
            payload,
            &children,
            payloads,
        ),
    }
}

fn plan_literal(
    children: &Vec<ChildPlan>,
    payloads: &Vec<Payload>,
    literal: &Option<String>,
) -> (out: Result<(ExecKind, String), DeriveError>)
    ensures
        match out {
            Ok(p) => literal_kind(
                children_view(children@),
                payloads_view(payloads@),
                crate::text::opt_text(*literal),
            ) == Ok::<(SpecExecKind, Seq<char>), Seq<char>>((p.0@, p.1@)),
            Err(e) => literal_kind(
                children_view(children@),
                payloads_view(payloads@),
                crate::text::opt_text(*literal),
            ) == Err::<(SpecExecKind, Seq<char>), Seq<char>>(e@),
        },
{
    assert(children_view(children@).len() == children@.len());
    assert(payloads_view(payloads@).len() == payloads@.len());
    if children.len() > 0 {
        return Err(DeriveError::new("#[dsl_exec(value)] variants must have no child fields"));
    }
    if payloads.len() != 1 {
        return Err(
            DeriveError::new("#[dsl_exec(value)] variants must have exactly one payload field"),
        );
    }
    assert(payloads_view(payloads@)[0] == payloads@[0]@);
    let p = &payloads[0];
    if let Some(seen) = literal {
        if !same_text(seen.as_str(), p.ty.as_str()) {
            return Err(
                DeriveError {
                    message: cat5(
                        "#[dsl_exec(value)] fields must share one type; saw `",
                        seen.as_str(),
                        "` and `",
                        p.ty.as_str(),
                        "`",
                    ),
                },
            );
        }
    }
    Ok((ExecKind::Value { field: p.field.clone() }, p.ty.clone()))
}

/// Plans how the engine sees an enum of nodes.
pub fn derive_dsl_exec(input: &InputDecl) -> (out: Result<ExecPlan, DeriveError>)
    ensures
        planned(out) == exec_plan(input@),
{
    let variants = match enum_variants(input, "DslExec") {
        Ok(vs) => vs,
        Err(e) => {
            return Err(e);
        },
    };
    let ghost all = variants_view(variants@);
    let mut arms: Vec<ExecArm> = Vec::new();
    let mut literal: Option<String> = None;
    assert(exec_arms_view(arms@) =~= Seq::empty());
    let n: usize = variants.len();
    for i in 0..n
        invariant
            n == variants@.len(),
            all == variants_view(variants@),
            exec_plan(input@) == fold_from(
                all,
                i as int,
                SpecExecPlan {
                    arms: exec_arms_view(arms@),
                    literal: crate::text::opt_text(literal),
                },
                exec_arm(input.name@),
            ),
    {
        let variant = &variants[i];
        assert(all[i as int] == variant@);
        let fields = match named_fields(variant, "DslExec") {
            Ok(fs) => fs,
            Err(e) => {
                return Err(e);
            },
        };
        let form = match dsl_exec_attr(variant) {
            Ok(f) => f,
            Err(e) => {
                return Err(e);
            },
        };
        let children = collect_children(fields, input.name.as_str());
        let payloads = collect_payloads(fields, input.name.as_str());
        let ghost before = exec_arms_view(arms@);
        let is_literal: bool = match &form {
            ExecSpec::Value => true,
            _ => false,
        };
        let kind = if is_literal {
            match plan_literal(&children, &payloads, &literal) {
                Ok((kind, ty)) => {
                    literal = Some(ty);
                    kind
                },
                Err(e) => {
                    return Err(e);
                },
            }
        } else {
            match plan_kind(form, children, &payloads) {
                Ok(kind) => kind,
                Err(e) => {
                    return Err(e);
                },
            }
        };
        let arm = ExecArm { variant: variant.name.clone(), kind };
        arms.push(arm);
        assert(exec_arms_view(arms@) =~= before.push(arm@));
    }
    Ok(ExecPlan { arms, literal })
}

} // verus!
