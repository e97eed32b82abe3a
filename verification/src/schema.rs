//! The shape of a language: its variants, payload fields and child slots.
use vstd::prelude::*;
use vstd::string::*;

verus! {

/// How many children a slot holds.
#[derive(Debug, Clone, Copy, PartialEq, Eq, Structural)]
pub enum Multiplicity {
    /// Exactly one.
    One,
    /// At most one.
    Optional,
    /// Any number, in order.
    Many,
    /// Any number, by key.
    Keyed,
}

/// Kind of a bare scalar.
#[derive(Debug, Clone, Copy, PartialEq, Eq, Structural)]
pub enum ScalarKind {
    /// Text.
    Str,
    /// Integer.
    Int,
    /// Truth value.
    Bool,
}

/// What a slot holds.
#[derive(Debug, PartialEq, Eq)]
pub enum ChildValueShape {
    /// Nodes.
    Recursive,
    /// Scalars.
    Scalar {
        /// Their type.
        ty: String,
    },
}

/// The mathematical shape of a [`ChildValueShape`].
pub enum SpecValueShape {
    Recursive,
    Scalar { ty: Seq<char> },
}

impl View for ChildValueShape {
    type V = SpecValueShape;

    open spec fn view(&self) -> SpecValueShape {
        match self {
            ChildValueShape::Recursive => SpecValueShape::Recursive,
            ChildValueShape::Scalar { ty } => SpecValueShape::Scalar { ty: ty@ },
        }
    }
}

/// A bare scalar in a slot stands for a variant with that payload.
#[derive(Debug, PartialEq, Eq)]
pub struct ScalarShorthand {
    /// Kind of the scalar.
    pub kind: ScalarKind,
    /// The variant it stands for.
    pub variant: String,
    /// The payload field that takes it.
    pub field: String,
}

/// The mathematical shape of a [`ScalarShorthand`].
pub struct SpecShorthand {
    pub kind: ScalarKind,
    pub variant: Seq<char>,
    pub field: Seq<char>,
}

impl View for ScalarShorthand {
    type V = SpecShorthand;

    open spec fn view(&self) -> SpecShorthand {
        SpecShorthand { kind: self.kind, variant: self.variant@, field: self.field@ }
    }
}

/// The views of a list of shorthands.
pub open spec fn shorthands_view(ss: Seq<ScalarShorthand>) -> Seq<SpecShorthand> {
    Seq::new(ss.len(), |i: int| ss[i]@)
}

/// A child slot.
#[derive(Debug, PartialEq, Eq)]
pub struct ChildSchema {
    /// Slot name.
    pub name: String,
    /// How many children it holds.
    pub multiplicity: Multiplicity,
    /// What it holds.
    pub value_shape: ChildValueShape,
    /// Bare scalars it accepts.
    pub scalar_shorthands: Vec<ScalarShorthand>,
    /// Whether it must hold at least one child.
    pub non_empty: bool,
}

/// The mathematical shape of a [`ChildSchema`].
pub struct SpecChildSchema {
    pub name: Seq<char>,
    pub multiplicity: Multiplicity,
    pub value_shape: SpecValueShape,
    pub scalar_shorthands: Seq<SpecShorthand>,
    pub non_empty: bool,
}

impl View for ChildSchema {
    type V = SpecChildSchema;

    open spec fn view(&self) -> SpecChildSchema {
        SpecChildSchema {
            name: self.name@,
            multiplicity: self.multiplicity,
            value_shape: self.value_shape@,
            scalar_shorthands: shorthands_view(self.scalar_shorthands@),
            non_empty: self.non_empty,
        }
    }
}

/// The views of a list of slots.
pub open spec fn slots_view(cs: Seq<ChildSchema>) -> Seq<SpecChildSchema> {
    Seq::new(cs.len(), |i: int| cs[i]@)
}

/// A payload field.
#[derive(Debug, PartialEq, Eq)]
pub struct FieldSchema {
    /// Field name.
    pub name: String,
    /// Its type as text.
    pub ty: String,
    /// Whether it may be absent.
    pub optional: bool,
}

/// The mathematical shape of a [`FieldSchema`].
pub struct SpecFieldSchema {
    pub name: Seq<char>,
    pub ty: Seq<char>,
    pub optional: bool,
}

impl View for FieldSchema {
    type V = SpecFieldSchema;

    open spec fn view(&self) -> SpecFieldSchema {
        SpecFieldSchema { name: self.name@, ty: self.ty@, optional: self.optional }
    }
}

/// The views of a list of payload fields.
pub open spec fn payloads_view(fs: Seq<FieldSchema>) -> Seq<SpecFieldSchema> {
    Seq::new(fs.len(), |i: int| fs[i]@)
}

/// A variant.
#[derive(Debug, PartialEq, Eq)]
pub struct VariantSchema {
    /// Variant name.
    pub name: String,
    /// Payload fields.
    pub fields: Vec<FieldSchema>,
    /// Child slots.
    pub children: Vec<ChildSchema>,
}

/// The mathematical shape of a [`VariantSchema`].
pub struct SpecVariantSchema {
    pub name: Seq<char>,
    pub fields: Seq<SpecFieldSchema>,
    pub children: Seq<SpecChildSchema>,
}

impl View for VariantSchema {
    type V = SpecVariantSchema;

    open spec fn view(&self) -> SpecVariantSchema {
        SpecVariantSchema {
            name: self.name@,
            fields: payloads_view(self.fields@),
            children: slots_view(self.children@),
        }
    }
}

/// The views of a list of variants.
pub open spec fn variant_schemas_view(vs: Seq<VariantSchema>) -> Seq<SpecVariantSchema> {
    Seq::new(vs.len(), |i: int| vs[i]@)
}

/// The shape of a language.
#[derive(Debug, PartialEq, Eq)]
pub struct NodeSchema {
    /// Name of the node type.
    pub name: String,
    /// Its variants.
    pub variants: Vec<VariantSchema>,
}

/// The mathematical shape of a [`NodeSchema`].
pub struct SpecSchema {
    pub name: Seq<char>,
    pub variants: Seq<SpecVariantSchema>,
}

impl View for NodeSchema {
    type V = SpecSchema;

    open spec fn view(&self) -> SpecSchema {
        SpecSchema { name: self.name@, variants: variant_schemas_view(self.variants@) }
    }
}

/// A node type that knows its shape.
pub trait DslSchema {
    /// The shape.
    spec fn schema_spec() -> SpecSchema;

    /// The shape of the language.
    fn schema() -> (out: NodeSchema)
        ensures
            out@ == Self::schema_spec(),
    ;
}

} // verus!
