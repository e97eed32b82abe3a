//! Planning construction from a parse tree.
use vstd::prelude::*;
use vstd::string::*;

use crate::derive::decl::{
    fields_view, fold_from, planned, type_text, variants_view, DeriveError, FieldDecl, InputDecl,
    SpecField, SpecFields, SpecInput, SpecVariant,
};
use crate::derive::meta::{
    enum_variants, enums_only, has_field, id_needed, named_fields, named_only, with_attr,
    with_path,
};
use crate::derive::node::require_id;
use crate::derive::shape::{
    detect_recursion, detect_scalar_map, payload, payload_shape, recursion, scalar_map,
    PayloadShape, Recursion,
};
use crate::text::same_text;

verus! {

/// Where a field gets its value from.
#[derive(Debug)]
pub enum BuildRoute {
    /// A converter function; an absent field of this shape takes its
    /// default before the converter is asked.
    With {
        /// The converter.
        path: String,
        /// The field's shape.
        shape: PayloadShape,
    },
    /// The children of the slot.
    Child(Recursion),
    /// The scalars of a keyed slot.
    ScalarMap {
        /// Value type.
        value: String,
    },
    /// A payload that may be absent.
    Optional {
        /// Field type.
        ty: String,
        /// Type inside.
        inner: String,
    },
    /// A payload list that may be absent.
    Listed {
        /// Field type.
        ty: String,
        /// Element type.
        inner: String,
    },
    /// A payload.
    Plain {
        /// Field type.
        ty: String,
    },
}

/// The mathematical shape of a [`BuildRoute`].
pub enum SpecBuildRoute {
    With { path: Seq<char>, shape: PayloadShape },
    Child(Recursion),
    ScalarMap { value: Seq<char> },
    Optional { ty: Seq<char>, inner: Seq<char> },
    Listed { ty: Seq<char>, inner: Seq<char> },
    Plain { ty: Seq<char> },
}

impl View for BuildRoute {
    type V = SpecBuildRoute;

    open spec fn view(&self) -> SpecBuildRoute {
        match self {
            BuildRoute::With { path, shape } => SpecBuildRoute::With {
                path: path@,
                shape: *shape,
            },
            BuildRoute::Child(kind) => SpecBuildRoute::Child(*kind),
            BuildRoute::ScalarMap { value } => SpecBuildRoute::ScalarMap { value: value@ },
            BuildRoute::Optional { ty, inner } => SpecBuildRoute::Optional {
                ty: ty@,
                inner: inner@,
            },
            BuildRoute::Listed { ty, inner } => SpecBuildRoute::Listed { ty: ty@, inner: inner@ },
            BuildRoute::Plain { ty } => SpecBuildRoute::Plain { ty: ty@ },
        }
    }
}

/// A field and where it gets its value from.
#[derive(Debug)]
pub struct BuildField {
    /// The field.
    pub field: String,
    /// Where its value comes from.
    pub route: BuildRoute,
}

/// The mathematical shape of a [`BuildField`].
pub struct SpecBuildField {
    pub field: Seq<char>,
    pub route: SpecBuildRoute,
}

impl View for BuildField {
    type V = SpecBuildField;

    open spec fn view(&self) -> SpecBuildField {
        SpecBuildField { field: self.field@, route: self.route@ }
    }
}

/// The views of a list of fields.
pub open spec fn build_fields_view(fs: Seq<BuildField>) -> Seq<SpecBuildField> {
    Seq::new(fs.len(), |i: int| fs[i]@)
}

/// How a variant is built; its `id` is fresh.
#[derive(Debug)]
pub struct BuildArm {
    /// The variant.
    pub variant: String,
    /// Its fields besides `id`.
    pub fields: Vec<BuildField>,
}

/// The mathematical shape of a [`BuildArm`].
pub struct SpecBuildArm {
    pub variant: Seq<char>,
    pub fields: Seq<SpecBuildField>,
}

impl View for BuildArm {
    type V = SpecBuildArm;

    open spec fn view(&self) -> SpecBuildArm {
        SpecBuildArm { variant: self.variant@, fields: build_fields_view(self.fields@) }
    }
}

/// The views of a list of variants.
pub open spec fn build_arms_view(arms: Seq<BuildArm>) -> Seq<SpecBuildArm> {
    Seq::new(arms.len(), |i: int| arms[i]@)
}

/// How an enum is built from a parse tree.
#[derive(Debug)]
pub struct BuildPlan {
    /// One entry for each variant.
    pub arms: Vec<BuildArm>,
}

impl View for BuildPlan {
    type V = Seq<SpecBuildArm>;

    open spec fn view(&self) -> Seq<SpecBuildArm> {
        build_arms_view(self.arms@)
    }
}

/// Where a field without a converter gets its value from.
pub open spec fn plain_route(f: SpecField, node: Seq<char>) -> SpecBuildRoute {
    match recursion(f.ty, node) {
        Some(kind) => SpecBuildRoute::Child(kind),
        None => match scalar_map(f.ty, node) {
            Some(v) => SpecBuildRoute::ScalarMap { value: type_text(v) },
            None => match payload(f.ty, node) {
                (PayloadShape::OptionInner, Some(inner)) => SpecBuildRoute::Optional {
                    ty: type_text(f.ty),
                    inner: type_text(inner),
                },
                (PayloadShape::VecInner, Some(inner)) => SpecBuildRoute::Listed {
                    ty: type_text(f.ty),
                    inner: type_text(inner),
                },
                _ => SpecBuildRoute::Plain { ty: type_text(f.ty) },
            },
        },
    }
}

/// Where a field gets its value from, unless it is refused.
pub open spec fn build_route(f: SpecField, node: Seq<char>) -> Result<SpecBuildRoute, Seq<char>> {
    match with_path(f.attrs, "dsl_build"@) {
        Err(e) => Err(e),
        Ok(Some(p)) => if recursion(f.ty, node) is Some {
            Err(
                "#[dsl_build(with = ...)] applies to payload fields only, not recursive child fields"@,
            )
        } else {
            Ok(SpecBuildRoute::With { path: p.text, shape: payload(f.ty, node).0 })
        },
        Ok(None) => Ok(plain_route(f, node)),
    }
}

/// One more field of a variant.
pub open spec fn build_field(node: Seq<char>) -> spec_fn(Seq<SpecBuildField>, SpecField) -> Result<
    Seq<SpecBuildField>,
    Seq<char>,
> {
    |done: Seq<SpecBuildField>, f: SpecField|
        if f.name == "id"@ {
            Ok(done)
        } else {
            match build_route(f, node) {
                Err(e) => Err(e),
                Ok(route) => Ok(done.push(SpecBuildField { field: f.name, route })),
            }
        }
}

/// One more variant of an enum.
pub open spec fn build_arm(node: Seq<char>) -> spec_fn(Seq<SpecBuildArm>, SpecVariant) -> Result<
    Seq<SpecBuildArm>,
    Seq<char>,
> {
    |arms: Seq<SpecBuildArm>, v: SpecVariant|
        match v.fields {
            SpecFields::Named(fs) => if has_field(fs, "id"@) {
                match fold_from(fs, 0, Seq::empty(), build_field(node)) {
                    Err(e) => Err(e),
                    Ok(fields) => Ok(arms.push(SpecBuildArm { variant: v.name, fields })),
                }
            } else {
                Err(id_needed("DslBuild"@))
            },
            _ => Err(named_only("DslBuild"@)),
        }
}

/// How an enum is built, unless it is refused.
pub open spec fn build_plan(input: SpecInput) -> Result<Seq<SpecBuildArm>, Seq<char>> {
    match input.variants {
        None => Err(enums_only("DslBuild"@)),
        Some(vs) => fold_from(vs, 0, Seq::empty(), build_arm(input.name)),
    }
}

/// The view of a route or of why there is none.
fn route_of(f: &FieldDecl, enum_name: &str) -> (out: Result<BuildRoute, DeriveError>)
    ensures
        planned(out) == build_route(f@, enum_name@),
{
    let with = match with_attr(&f.attrs, "dsl_build") {
        Ok(w) => w,
        Err(e) => {
            return Err(e);
        },
    };
    if let Some(path) = with {
        if detect_recursion(&f.ty, enum_name).is_some() {
            return Err(
                DeriveError::new(
                    "#[dsl_build(with = ...)] applies to payload fields only, not recursive child fields",
                ),
            );
        }
        return Ok(
            BuildRoute::With {
                path: path.text.clone(),
                shape: payload_shape(&f.ty, enum_name).0,
            },
        );
    }
    if let Some(kind) = detect_recursion(&f.ty, enum_name) {
        return Ok(BuildRoute::Child(kind));
    }
    if let Some(value) = detect_scalar_map(&f.ty, enum_name) {
        return Ok(BuildRoute::ScalarMap { value: value.text().to_owned() });
    }
    match payload_shape(&f.ty, enum_name) {
        (PayloadShape::OptionInner, Some(inner)) => Ok(
            BuildRoute::Optional {
                ty: f.ty.text().to_owned(),
                inner: inner.text().to_owned(),
            },
        ),
        (PayloadShape::VecInner, Some(inner)) => Ok(
            BuildRoute::Listed { ty: f.ty.text().to_owned(), inner: inner.text().to_owned() },
        ),
        _ => Ok(BuildRoute::Plain { ty: f.ty.text().to_owned() }),
    }
}

fn build_fields(fields: &Vec<FieldDecl>, enum_name: &str) -> (out: Result<
    Vec<BuildField>,
    DeriveError,
>)
    ensures
        match out {
            Ok(fs) => fold_from(
                fields_view(fields@),
                0,
                Seq::empty(),
                build_field(enum_name@),
            ) == Ok::<Seq<SpecBuildField>, Seq<char>>(build_fields_view(fs@)),
            Err(e) => fold_from(
                fields_view(fields@),
                0,
                Seq::empty(),
                build_field(enum_name@),
            ) == Err::<Seq<SpecBuildField>, Seq<char>>(e@),
        },
{
    let ghost all = fields_view(fields@);
    let mut out: Vec<BuildField> = Vec::new();
    assert(build_fields_view(out@) =~= Seq::empty());
    let n: usize = fields.len();
    for i in 0..n
        invariant
            n == fields@.len(),
            all == fields_view(fields@),
            fold_from(all, 0, Seq::empty(), build_field(enum_name@)) == fold_from(
                all,
                i as int,
                build_fields_view(out@),
                build_field(enum_name@),
            ),
    {
        let f = &fields[i];
        assert(all[i as int] == f@);
        if !same_text(f.name.as_str(), "id") {
            let route = match route_of(f, enum_name) {
                Ok(r) => r,
                Err(e) => {
                    return Err(e);
                },
            };
            let ghost before = build_fields_view(out@);
            let field = BuildField { field: f.name.clone(), route };
            out.push(field);
            assert(build_fields_view(out@) =~= before.push(field@));
        }
    }
    Ok(out)
}

/// Plans how an enum of nodes is built from a parse tree.
pub fn derive_dsl_build(input: &InputDecl) -> (out: Result<BuildPlan, DeriveError>)
    ensures
        planned(out) == build_plan(input@),
{
    let variants = match enum_variants(input, "DslBuild") {
        Ok(vs) => vs,
        Err(e) => {
            return Err(e);
        },
    };
    let ghost all = variants_view(variants@);
    let mut arms: Vec<BuildArm> = Vec::new();
    assert(build_arms_view(arms@) =~= Seq::empty());
    let n: usize = variants.len();
    for i in 0..n
        invariant
            n == variants@.len(),
            all == variants_view(variants@),
            build_plan(input@) == fold_from(
                all,
                i as int,
                build_arms_view(arms@),
                build_arm(input.name@),
            ),
    {
        let variant = &variants[i];
        assert(all[i as int] == variant@);
        let fields = match named_fields(variant, "DslBuild") {
            Ok(fs) => fs,
            Err(e) => {
                return Err(e);
            },
        };
        if let Err(e) = require_id(fields, "DslBuild") {
            return Err(e);
        }
        let built = match build_fields(fields, input.name.as_str()) {
            Ok(fs) => fs,
            Err(e) => {
                return Err(e);
            },
        };
        let ghost before = build_arms_view(arms@);
        let arm = BuildArm { variant: variant.name.clone(), fields: built };
        arms.push(arm);
        assert(build_arms_view(arms@) =~= before.push(arm@));
    }
    Ok(BuildPlan { arms })
}

} // verus!
