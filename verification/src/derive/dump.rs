//! Planning serialisation back into a parse tree.
use vstd::prelude::*;
use vstd::string::*;

use crate::derive::decl::{
    fields_view, fold_from, planned, variants_view, DeriveError, FieldDecl, InputDecl, SpecField,
    SpecFields, SpecInput, SpecVariant,
};
use crate::derive::meta::{
    enum_variants, enums_only, has_field, id_needed, named_fields, named_only, with_attr,
    with_path,
};
use crate::derive::node::require_id;
use crate::derive::shape::{
    detect_recursion, detect_scalar_map, payload, payload_shape, recursion, scalar_map,
    PayloadShape, Recursion,
};
use crate::text::same_text;

verus! {

/// Where a field's value goes.
#[derive(Debug)]
pub enum DumpRoute {
    /// Through a serialiser function, which may leave the key out.
    With {
        /// The serialiser.
        path: String,
    },
    /// Into the children of the slot.
    Child(Recursion),
    /// Into the scalars of a keyed slot.
    ScalarMap,
    /// Into a payload that is left out when absent.
    Optional,
    /// Into a payload.
    Plain,
}

/// The mathematical shape of a [`DumpRoute`].
pub enum SpecDumpRoute {
    With { path: Seq<char> },
    Child(Recursion),
    ScalarMap,
    Optional,
    Plain,
}

impl View for DumpRoute {
    type V = SpecDumpRoute;

    open spec fn view(&self) -> SpecDumpRoute {
        match self {
            DumpRoute::With { path } => SpecDumpRoute::With { path: path@ },
            DumpRoute::Child(kind) => SpecDumpRoute::Child(*kind),
            DumpRoute::ScalarMap => SpecDumpRoute::ScalarMap,
            DumpRoute::Optional => SpecDumpRoute::Optional,
            DumpRoute::Plain => SpecDumpRoute::Plain,
        }
    }
}

/// A field and where its value goes.
#[derive(Debug)]
pub struct DumpField {
    /// The field.
    pub field: String,
    /// Where its value goes.
    pub route: DumpRoute,
}

/// The mathematical shape of a [`DumpField`].
pub struct SpecDumpField {
    pub field: Seq<char>,
    pub route: SpecDumpRoute,
}

impl View for DumpField {
    type V = SpecDumpField;

    open spec fn view(&self) -> SpecDumpField {
        SpecDumpField { field: self.field@, route: self.route@ }
    }
}

/// The views of a list of fields.
pub open spec fn dump_fields_view(fs: Seq<DumpField>) -> Seq<SpecDumpField> {
    Seq::new(fs.len(), |i: int| fs[i]@)
}

/// How a variant is serialised; its `id` is not.
#[derive(Debug)]
pub struct DumpArm {
    /// The variant.
    pub variant: String,
    /// Its fields besides `id`.
    pub fields: Vec<DumpField>,
}

/// The mathematical shape of a [`DumpArm`].
pub struct SpecDumpArm {
    pub variant: Seq<char>,
    pub fields: Seq<SpecDumpField>,
}

impl View for DumpArm {
    type V = SpecDumpArm;

    open spec fn view(&self) -> SpecDumpArm {
        SpecDumpArm { variant: self.variant@, fields: dump_fields_view(self.fields@) }
    }
}

/// The views of a list of variants.
pub open spec fn dump_arms_view(arms: Seq<DumpArm>) -> Seq<SpecDumpArm> {
    Seq::new(arms.len(), |i: int| arms[i]@)
}

/// How an enum is serialised into a parse tree.
#[derive(Debug)]
pub struct DumpPlan {
    /// One entry for each variant.
    pub arms: Vec<DumpArm>,
}

impl View for DumpPlan {
    type V = Seq<SpecDumpArm>;

    open spec fn view(&self) -> Seq<SpecDumpArm> {
        dump_arms_view(self.arms@)
    }
}

/// Where the value of a field without a serialiser goes.
pub open spec fn plain_dump(f: SpecField, node: Seq<char>) -> SpecDumpRoute {
    match recursion(f.ty, node) {
        Some(kind) => SpecDumpRoute::Child(kind),
        None => if scalar_map(f.ty, node) is Some {
            SpecDumpRoute::ScalarMap
        } else if payload(f.ty, node).0 == PayloadShape::OptionInner {
            SpecDumpRoute::Optional
        } else {
            SpecDumpRoute::Plain
        },
    }
}

/// Where a field's value goes, unless it is refused. A field that is built
/// by a converter needs a serialiser; a keyed slot of scalars can have
/// neither.
pub open spec fn dump_route(f: SpecField, node: Seq<char>) -> Result<SpecDumpRoute, Seq<char>> {
    match (with_path(f.attrs, "dsl_dump"@), with_path(f.attrs, "dsl_build"@)) {
        (Err(e), _) => Err(e),
        (_, Err(e)) => Err(e),
        (Ok(dump), Ok(build)) => if (dump is Some || build is Some) && scalar_map(
            f.ty,
            node,
        ) is Some {
            Err(
                "custom converters on scalar keyed slots (`BTreeMap<String, _>`) cannot be expressed by #[derive(DslDump)] — the dump-side `with` output lands in payload fields while the schema declares a keyed Map slot; write a hand-written DslDump impl for this enum instead"@,
            )
        } else if build is Some && dump is None {
            Err(
                "this field has #[dsl_build(with = ...)] but no #[dsl_dump(with = ...)]; a custom build converter cannot be inverted mechanically — provide the dual serializer `fn(&T) -> Result<Option<serde_json::Value>, BuildError>`"@,
            )
        } else {
            match dump {
                Some(p) => if recursion(f.ty, node) is Some {
                    Err(
                        "#[dsl_dump(with = ...)] applies to payload fields only, not recursive child fields"@,
                    )
                } else {
                    Ok(SpecDumpRoute::With { path: p.text })
                },
                None => Ok(plain_dump(f, node)),
            }
        },
    }
}

/// One more field of a variant.
pub open spec fn dump_field(node: Seq<char>) -> spec_fn(Seq<SpecDumpField>, SpecField) -> Result<
    Seq<SpecDumpField>,
    Seq<char>,
> {
    |done: Seq<SpecDumpField>, f: SpecField|
        if f.name == "id"@ {
            Ok(done)
        } else {
            match dump_route(f, node) {
                Err(e) => Err(e),
                Ok(route) => Ok(done.push(SpecDumpField { field: f.name, route })),
            }
        }
}

/// One more variant of an enum.
pub open spec fn dump_arm(node: Seq<char>) -> spec_fn(Seq<SpecDumpArm>, SpecVariant) -> Result<
    Seq<SpecDumpArm>,
    Seq<char>,
> {
    |arms: Seq<SpecDumpArm>, v: SpecVariant|
        match v.fields {
            SpecFields::Named(fs) => if has_field(fs, "id"@) {
                match fold_from(fs, 0, Seq::empty(), dump_field(node)) {
                    Err(e) => Err(e),
                    Ok(fields) => Ok(arms.push(SpecDumpArm { variant: v.name, fields })),
                }
            } else {
                Err(id_needed("DslDump"@))
            },
            _ => Err(named_only("DslDump"@)),
        }
}

/// How an enum is serialised, unless it is refused.
pub open spec fn dump_plan(input: SpecInput) -> Result<Seq<SpecDumpArm>, Seq<char>> {
    match input.variants {
        None => Err(enums_only("DslDump"@)),
        Some(vs) => fold_from(vs, 0, Seq::empty(), dump_arm(input.name)),
    }
}

fn route_of(f: &FieldDecl, enum_name: &str) -> (out: Result<DumpRoute, DeriveError>)
    ensures
        planned(out) == dump_route(f@, enum_name@),
{
    let dump = match with_attr(&f.attrs, "dsl_dump") {
        Ok(w) => w,
        Err(e) => {
            return Err(e);
        },
    };
    let build = match with_attr(&f.attrs, "dsl_build") {
        Ok(w) => w,
        Err(e) => {
            return Err(e);
        },
    };
    let keyed_scalars: bool = detect_scalar_map(&f.ty, enum_name).is_some();
    if (dump.is_some() || build.is_some()) && keyed_scalars {
        return Err(
            DeriveError::new(
                "custom converters on scalar keyed slots (`BTreeMap<String, _>`) cannot be expressed by #[derive(DslDump)] — the dump-side `with` output lands in payload fields while the schema declares a keyed Map slot; write a hand-written DslDump impl for this enum instead",
            ),
        );
    }
    if build.is_some() && dump.is_none() {
        return Err(
            DeriveError::new(
                "this field has #[dsl_build(with = ...)] but no #[dsl_dump(with = ...)]; a custom build converter cannot be inverted mechanically — provide the dual serializer `fn(&T) -> Result<Option<serde_json::Value>, BuildError>`",
            ),
        );
    }
    if let Some(path) = dump {
        if detect_recursion(&f.ty, enum_name).is_some() {
            return Err(
                DeriveError::new(
                    "#[dsl_dump(with = ...)] applies to payload fields only, not recursive child fields",
                ),
            );
        }
        return Ok(DumpRoute::With { path: path.text.clone() });
    }
    if let Some(kind) = detect_recursion(&f.ty, enum_name) {
        return Ok(DumpRoute::Child(kind));
    }
    if keyed_scalars {
        return Ok(DumpRoute::ScalarMap);
    }
    if payload_shape(&f.ty, enum_name).0 == PayloadShape::OptionInner {
        Ok(DumpRoute::Optional)
    } else {
        Ok(DumpRoute::Plain)
    }
}

fn dump_fields(fields: &Vec<FieldDecl>, enum_name: &str) -> (out: Result<
    Vec<DumpField>,
    DeriveError,
>)
    ensures
        match out {
            Ok(fs) => fold_from(
                fields_view(fields@),
                0,
                Seq::empty(),
                dump_field(enum_name@),
            ) == Ok::<Seq<SpecDumpField>, Seq<char>>(dump_fields_view(fs@)),
            Err(e) => fold_from(
                fields_view(fields@),
                0,
                Seq::empty(),
                dump_field(enum_name@),
            ) == Err::<Seq<SpecDumpField>, Seq<char>>(e@),
        },
{
    let ghost all = fields_view(fields@);
    let mut out: Vec<DumpField> = Vec::new();
    assert(dump_fields_view(out@) =~= Seq::empty());
    let n: usize = fields.len();
    for i in 0..n
        invariant
            n == fields@.len(),
            all == fields_view(fields@),
            fold_from(all, 0, Seq::empty(), dump_field(enum_name@)) == fold_from(
                all,
                i as int,
                dump_fields_view(out@),
                dump_field(enum_name@),
            ),
    {
        let f = &fields[i];
        assert(all[i as int] == f@);
        if !same_text(f.name.as_str(), "id") {
            let route = match route_of(f, enum_name) {
                Ok(r) => r,
                Err(e) => {
                    return Err(e);
                },
            };
            let ghost before = dump_fields_view(out@);
            let field = DumpField { field: f.name.clone(), route };
            out.push(field);
            assert(dump_fields_view(out@) =~= before.push(field@));
        }
    }
    Ok(out)
}

/// Plans how an enum of nodes is serialised into a parse tree.
pub fn derive_dsl_dump(input: &InputDecl) -> (out: Result<DumpPlan, DeriveError>)
    ensures
        planned(out) == dump_plan(input@),
{
    let variants = match enum_variants(input, "DslDump") {
        Ok(vs) => vs,
        Err(e) => {
            return Err(e);
        },
    };
    let ghost all = variants_view(variants@);
    let mut arms: Vec<DumpArm> = Vec::new();
    assert(dump_arms_view(arms@) =~= Seq::empty());
    let n: usize = variants.len();
    for i in 0..n
        invariant
            n == variants@.len(),
            all == variants_view(variants@),
            dump_plan(input@) == fold_from(
                all,
                i as int,
                dump_arms_view(arms@),
                dump_arm(input.name@),
            ),
    {
        let variant = &variants[i];
        assert(all[i as int] == variant@);
        let fields = match named_fields(variant, "DslDump") {
            Ok(fs) => fs,
            Err(e) => {
                return Err(e);
            },
        };
        if let Err(e) = require_id(fields, "DslDump") {
            return Err(e);
        }
        let dumped = match dump_fields(fields, input.name.as_str()) {
            Ok(fs) => fs,
            Err(e) => {
                return Err(e);
            },
        };
        let ghost before = dump_arms_view(arms@);
        let arm = DumpArm { variant: variant.name.clone(), fields: dumped };
        arms.push(arm);
        assert(dump_arms_view(arms@) =~= before.push(arm@));
    }
    Ok(DumpPlan { arms })
}

} // verus!
