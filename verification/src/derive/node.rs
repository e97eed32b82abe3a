//! Planning identity and traversal.
use vstd::prelude::*;
use vstd::string::*;

use crate::derive::decl::{
    fields_view, fold_from, planned, variants_view, DeriveError, FieldDecl, InputDecl, SpecField,
    SpecFields, SpecInput, SpecVariant,
};
use crate::derive::meta::{
    enum_variants, enums_only, find_field, has_field, id_needed, named_fields, named_only,
};
use crate::derive::shape::{detect_recursion, recursion, Recursion};
use crate::text::{cat3, same_text};

verus! {

/// A field that holds children.
#[derive(Debug)]
pub struct ChildPlan {
    /// The field.
    pub field: String,
    /// How it holds them.
    pub kind: Recursion,
}

/// The mathematical shape of a [`ChildPlan`].
pub struct SpecChild {
    pub field: Seq<char>,
    pub kind: Recursion,
}

impl View for ChildPlan {
    type V = SpecChild;

    open spec fn view(&self) -> SpecChild {
        SpecChild { field: self.field@, kind: self.kind }
    }
}

/// The views of a list of child fields.
pub open spec fn children_view(cs: Seq<ChildPlan>) -> Seq<SpecChild> {
    Seq::new(cs.len(), |i: int| cs[i]@)
}

/// What a variant contributes to the traversal: its identity is its `id`
/// field, and its children are those of these fields, in order.
#[derive(Debug)]
pub struct NodeArm {
    /// The variant.
    pub variant: String,
    /// Its child fields.
    pub children: Vec<ChildPlan>,
}

/// The mathematical shape of a [`NodeArm`].
pub struct SpecNodeArm {
    pub variant: Seq<char>,
    pub children: Seq<SpecChild>,
}

impl View for NodeArm {
    type V = SpecNodeArm;

    open spec fn view(&self) -> SpecNodeArm {
        SpecNodeArm { variant: self.variant@, children: children_view(self.children@) }
    }
}

/// Identity and traversal of an enum.
#[derive(Debug)]
pub struct NodePlan {
    /// One entry for each variant.
    pub arms: Vec<NodeArm>,
}

/// The views of a list of variants' contributions.
pub open spec fn node_arms_view(arms: Seq<NodeArm>) -> Seq<SpecNodeArm> {
    Seq::new(arms.len(), |i: int| arms[i]@)
}

impl View for NodePlan {
    type V = Seq<SpecNodeArm>;

    open spec fn view(&self) -> Seq<SpecNodeArm> {
        node_arms_view(self.arms@)
    }
}

/// The child fields among the first `n` fields.
pub open spec fn child_fields(fields: Seq<SpecField>, node: Seq<char>, n: nat) -> Seq<SpecChild>
    decreases n,
{
    if n == 0 || n > fields.len() {
        Seq::empty()
    } else {
        let before = child_fields(fields, node, (n - 1) as nat);
        let f = fields[n - 1];
        match recursion(f.ty, node) {
            Some(kind) => if f.name == "id"@ {
                before
            } else {
                before.push(SpecChild { field: f.name, kind })
            },
            None => before,
        }
    }
}

/// What a variant contributes, unless it is refused.
pub open spec fn node_arm(node: Seq<char>) -> spec_fn(Seq<SpecNodeArm>, SpecVariant) -> Result<
    Seq<SpecNodeArm>,
    Seq<char>,
> {
    |arms: Seq<SpecNodeArm>, v: SpecVariant|
        match v.fields {
            SpecFields::Named(fs) => if has_field(fs, "id"@) {
                Ok(
                    arms.push(
                        SpecNodeArm { variant: v.name, children: child_fields(fs, node, fs.len()) },
                    ),
                )
            } else {
                Err(id_needed("DslNode"@))
            },
            _ => Err(named_only("DslNode"@)),
        }
}

/// Identity and traversal of an enum, unless it is refused.
pub open spec fn node_plan(input: SpecInput) -> Result<Seq<SpecNodeArm>, Seq<char>> {
    match input.variants {
        None => Err(enums_only("DslNode"@)),
        Some(vs) => fold_from(vs, 0, Seq::empty(), node_arm(input.name)),
    }
}

/// Collects the child fields of a variant.
pub(crate) fn collect_children(fields: &Vec<FieldDecl>, enum_name: &str) -> (out: Vec<ChildPlan>)
    ensures
        children_view(out@) == child_fields(
            fields_view(fields@),
            enum_name@,
            fields_view(fields@).len(),
        ),
{
    let ghost all = fields_view(fields@);
    let mut out: Vec<ChildPlan> = Vec::new();
    assert(children_view(out@) =~= Seq::empty());
    let n: usize = fields.len();
    for i in 0..n
        invariant
            n == fields@.len(),
            all == fields_view(fields@),
            children_view(out@) == child_fields(all, enum_name@, i as nat),
    {
        let f = &fields[i];
        assert(all[i as int] == f@);
        if !same_text(f.name.as_str(), "id") {
            if let Some(kind) = detect_recursion(&f.ty, enum_name) {
                let ghost before = children_view(out@);
                let child = ChildPlan { field: f.name.clone(), kind };
                out.push(child);
                assert(children_view(out@) =~= before.push(child@));
            }
        }
    }
    out
}

/// Refuses a variant without identity.
pub(crate) fn require_id(fields: &Vec<FieldDecl>, derive: &str) -> (out: Result<(), DeriveError>)
    ensures
        match out {
            Ok(()) => has_field(fields_view(fields@), "id"@),
            Err(e) => !has_field(fields_view(fields@), "id"@) && e@ == id_needed(derive@),
        },
{
    if find_field(fields, "id") < fields.len() {
        Ok(())
    } else {
        Err(
            DeriveError {
                message: cat3(
                    "#[derive(",
                    derive,
                    ")] requires each variant to have an `id: NodeId` field",
                ),
            },
        )
    }
}

/// Plans identity and traversal for an enum of nodes.
pub fn derive_dsl_node(input: &InputDecl) -> (out: Result<NodePlan, DeriveError>)
    ensures
        planned(out) == node_plan(input@),
{
    let variants = match enum_variants(input, "DslNode") {
        Ok(vs) => vs,
        Err(e) => {
            return Err(e);
        },
    };
    let ghost all = variants_view(variants@);
    let mut arms: Vec<NodeArm> = Vec::new();
    assert(node_arms_view(arms@) =~= Seq::empty());
    let n: usize = variants.len();
    for i in 0..n
        invariant
            n == variants@.len(),
            all == variants_view(variants@),
            node_plan(input@) == fold_from(
                all,
                i as int,
                node_arms_view(arms@),
                node_arm(input.name@),
            ),
    {
        let variant = &variants[i];
        assert(all[i as int] == variant@);
        let fields = match named_fields(variant, "DslNode") {
            Ok(fs) => fs,
            Err(e) => {
                return Err(e);
            },
        };
        if let Err(e) = require_id(fields, "DslNode") {
            return Err(e);
        }
        let ghost before = node_arms_view(arms@);
        let arm = NodeArm {
            variant: variant.name.clone(),
            children: collect_children(fields, input.name.as_str()),
        };
        arms.push(arm);
        assert(node_arms_view(arms@) =~= before.push(arm@));
    }
    Ok(NodePlan { arms })
}

} // verus!
