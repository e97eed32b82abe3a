//! Planning the shape of a language.
use vstd::prelude::*;
use vstd::string::*;

use crate::derive::decl::{
    attrs_view, fields_view, fold_from, metas_view, planned, type_text, variants_view, DeriveError,
    FieldDecl, FieldsDecl, InputDecl, SpecAttr, SpecField, SpecFields, SpecInput, SpecMeta,
    SpecVariant, VariantDecl,
};
use crate::derive::meta::{
    entries_of, enum_variants, enums_only, flag_of, keyed, list_of, named_fields, named_only,
    path_of,
};
use crate::derive::shape::{
    detect_recursion, detect_scalar_map, normalize_type_str, normalized, payload, payload_shape,
    recursion, scalar_map, PayloadShape, Recursion,
};
use crate::schema::{
    payloads_view, shorthands_view, slots_view, variant_schemas_view, ChildSchema,
    ChildValueShape, FieldSchema, Multiplicity, NodeSchema, ScalarKind, ScalarShorthand,
    SpecChildSchema, SpecFieldSchema, SpecSchema, SpecShorthand, SpecValueShape,
    SpecVariantSchema, VariantSchema,
};
use crate::text::{cat3, cat5, cat7, same_text};

verus! {

/// Annotations of a child slot.
#[derive(Debug)]
pub struct DslSchemaAttrs {
    /// Bare scalars the slot accepts.
    pub scalars: Vec<ScalarShorthand>,
    /// Whether it must not be empty.
    pub non_empty: bool,
}

/// The mathematical shape of a [`DslSchemaAttrs`].
pub struct SpecSlotAttrs {
    pub scalars: Seq<SpecShorthand>,
    pub non_empty: bool,
}

impl View for DslSchemaAttrs {
    type V = SpecSlotAttrs;

    open spec fn view(&self) -> SpecSlotAttrs {
        SpecSlotAttrs { scalars: shorthands_view(self.scalars@), non_empty: self.non_empty }
    }
}

/// The kind a key names.
pub open spec fn scalar_kind(key: Option<Seq<char>>) -> Option<ScalarKind> {
    match key {
        Some(k) => if k == "string"@ {
            Some(ScalarKind::Str)
        } else if k == "int"@ {
            Some(ScalarKind::Int)
        } else if k == "bool"@ {
            Some(ScalarKind::Bool)
        } else {
            None
        },
        None => None,
    }
}

/// The key that names a kind.
pub open spec fn kind_key(kind: ScalarKind) -> Seq<char> {
    match kind {
        ScalarKind::Str => "string"@,
        ScalarKind::Int => "int"@,
        ScalarKind::Bool => "bool"@,
    }
}

/// One `kind = Variant::field` entry.
pub open spec fn scalar_entry() -> spec_fn(SpecSlotAttrs, SpecMeta) -> Result<
    SpecSlotAttrs,
    Seq<char>,
> {
    |s: SpecSlotAttrs, m: SpecMeta|
        match scalar_kind(m.key) {
            None => Err("unsupported scalar kind; expected `string`, `int`, or `bool`"@),
            Some(kind) => match path_of(m) {
                Err(e) => Err(e),
                Ok(p) => if p.segments.len() != 2 {
                    Err("expected a `Variant::field` path (exactly two segments)"@)
                } else {
                    Ok(
                        SpecSlotAttrs {
                            scalars: s.scalars.push(
                                SpecShorthand {
                                    kind,
                                    variant: p.segments[0],
                                    field: p.segments[1],
                                },
                            ),
                            non_empty: s.non_empty,
                        },
                    )
                },
            },
        }
}

/// One entry of a slot annotation.
pub open spec fn slot_entry() -> spec_fn(SpecSlotAttrs, SpecMeta) -> Result<
    SpecSlotAttrs,
    Seq<char>,
> {
    |s: SpecSlotAttrs, m: SpecMeta|
        if keyed(m, "non_empty"@) {
            match flag_of(m) {
                Err(e) => Err(e),
                Ok(_) => Ok(SpecSlotAttrs { scalars: s.scalars, non_empty: true }),
            }
        } else if !keyed(m, "scalar"@) {
            Err(
                "unsupported #[dsl_schema(...)] key; expected `scalar(<kind> = Variant::field)` or `non_empty`"@,
            )
        } else {
            match list_of(m) {
                Err(e) => Err(e),
                Ok(ms) => fold_from(ms, 0, s, scalar_entry()),
            }
        }
}

/// One annotation of a slot.
pub open spec fn slot_attribute() -> spec_fn(SpecSlotAttrs, SpecAttr) -> Result<
    SpecSlotAttrs,
    Seq<char>,
> {
    |s: SpecSlotAttrs, a: SpecAttr|
        if a.name != "dsl_schema"@ {
            Ok(s)
        } else {
            match entries_of(a) {
                Err(e) => Err(e),
                Ok(ms) => fold_from(ms, 0, s, slot_entry()),
            }
        }
}

/// The annotations of a slot.
pub open spec fn slot_attrs(attrs: Seq<SpecAttr>) -> Result<SpecSlotAttrs, Seq<char>> {
    fold_from(attrs, 0, SpecSlotAttrs { scalars: Seq::empty(), non_empty: false }, slot_attribute())
}

/// Whether a field carries a slot annotation.
pub open spec fn has_slot_attr(attrs: Seq<SpecAttr>) -> bool {
    exists|i: int| 0 <= i < attrs.len() && (#[trigger] attrs[i]).name == "dsl_schema"@
}

/// The first variant of a name from position `i` on.
pub open spec fn variant_named(vs: Seq<SpecVariant>, name: Seq<char>, i: int) -> Option<SpecVariant>
    decreases vs.len() - i,
{
    if i < 0 || i >= vs.len() {
        None
    } else if vs[i].name == name {
        Some(vs[i])
    } else {
        variant_named(vs, name, i + 1)
    }
}

/// The first field of a name from position `i` on.
pub open spec fn field_named(fs: Seq<SpecField>, name: Seq<char>, i: int) -> Option<SpecField>
    decreases fs.len() - i,
{
    if i < 0 || i >= fs.len() {
        None
    } else if fs[i].name == name {
        Some(fs[i])
    } else {
        field_named(fs, name, i + 1)
    }
}

/// Whether a type is an integer type by name.
pub open spec fn is_int_type(ty: Seq<char>) -> bool {
    ty == "i8"@ || ty == "i16"@ || ty == "i32"@ || ty == "i64"@ || ty == "i128"@ || ty == "u8"@ || ty
        == "u16"@ || ty == "u32"@ || ty == "u64"@ || ty == "u128"@ || ty == "usize"@ || ty
        == "isize"@
}

/// Whether a payload type can take a scalar of a kind.
pub open spec fn takes(kind: ScalarKind, ty: Seq<char>) -> bool {
    match kind {
        ScalarKind::Str => ty == "String"@,
        ScalarKind::Int => is_int_type(ty),
        ScalarKind::Bool => ty == "bool"@,
    }
}

/// What is wrong with the target of a shorthand, if anything.
pub open spec fn target_fault(
    d: SpecShorthand,
    vs: Seq<SpecVariant>,
    node: Seq<char>,
) -> Option<Seq<char>> {
    match variant_named(vs, d.variant, 0) {
        None => Some(
            "shorthand target variant `"@ + d.variant + "` is not a variant of this enum"@,
        ),
        Some(v) => match v.fields {
            SpecFields::Named(fs) => match field_named(fs, d.field, 0) {
                None => Some(
                    "shorthand target variant `"@ + d.variant + "` has no field `"@ + d.field
                        + "`"@,
                ),
                Some(f) => if d.field == "id"@ || recursion(f.ty, node) is Some {
                    Some(
                        "shorthand target `"@ + d.variant + "::"@ + d.field
                            + "` must be a plain payload field"@,
                    )
                } else if !takes(d.kind, normalized(type_text(f.ty))) {
                    Some(
                        "scalar kind `"@ + kind_key(d.kind) + "` cannot target `"@ + (d.variant
                            + "::"@ + d.field) + "` of type `"@ + normalized(type_text(f.ty))
                            + "`"@,
                    )
                } else {
                    None
                },
            },
            _ => Some("shorthand target variant `"@ + d.variant + "` must use named fields"@),
        },
    }
}

/// One more shorthand of a slot: no kind twice, and a target that fits.
pub open spec fn scalar_decl(vs: Seq<SpecVariant>, node: Seq<char>) -> spec_fn(
    Seq<ScalarKind>,
    SpecShorthand,
) -> Result<Seq<ScalarKind>, Seq<char>> {
    |seen: Seq<ScalarKind>, d: SpecShorthand|
        if seen.contains(d.kind) {
            Err("duplicate `scalar("@ + kind_key(d.kind) + " = ...)` declaration on this slot"@)
        } else {
            match target_fault(d, vs, node) {
                Some(e) => Err(e),
                None => Ok(seen.push(d.kind)),
            }
        }
}

/// Whether the shorthands of a slot are refused, and why.
pub open spec fn scalar_decls(
    decls: Seq<SpecShorthand>,
    vs: Seq<SpecVariant>,
    node: Seq<char>,
) -> Result<Seq<ScalarKind>, Seq<char>> {
    fold_from(decls, 0, Seq::empty(), scalar_decl(vs, node))
}

/// Whether a slot holds at most one child.
pub open spec fn at_most_one(kind: Recursion) -> bool {
    kind == Recursion::Direct || kind == Recursion::Boxed || kind == Recursion::Optional || kind
        == Recursion::OptionalBoxed
}

/// How many children a slot holds.
pub open spec fn multiplicity(kind: Recursion) -> Multiplicity {
    match kind {
        Recursion::Direct => Multiplicity::One,
        Recursion::Boxed => Multiplicity::One,
        Recursion::Optional => Multiplicity::Optional,
        Recursion::OptionalBoxed => Multiplicity::Optional,
        Recursion::Many => Multiplicity::Many,
        Recursion::ManyBoxed => Multiplicity::Many,
        Recursion::Keyed => Multiplicity::Keyed,
        Recursion::KeyedBoxed => Multiplicity::Keyed,
    }
}

/// The payload fields and slots of a variant so far.
pub struct SpecParts {
    pub fields: Seq<SpecFieldSchema>,
    pub children: Seq<SpecChildSchema>,
}

/// A slot of nodes, unless it is refused.
pub open spec fn node_slot(
    f: SpecField,
    kind: Recursion,
    vs: Seq<SpecVariant>,
    node: Seq<char>,
) -> Result<SpecChildSchema, Seq<char>> {
    match slot_attrs(f.attrs) {
        Err(e) => Err(e),
        Ok(attrs) => if attrs.scalars.len() > 0 && !at_most_one(kind) {
            Err(
                "#[dsl_schema(scalar(...))] applies to `One` / `Optional` child slots only (`T` / `Box<T>` / `Option<T>` / `Option<Box<T>>`)"@,
            )
        } else if attrs.non_empty && at_most_one(kind) {
            Err(
                "#[dsl_schema(non_empty)] applies to `Many` / `Map` collection slots only (`Vec<T>` / `BTreeMap<String, T>` and their boxed forms) — `One` is inherently non-empty and `Optional` inherently permits absence"@,
            )
        } else {
            match scalar_decls(attrs.scalars, vs, node) {
                Err(e) => Err(e),
                Ok(_) => Ok(
                    SpecChildSchema {
                        name: f.name,
                        multiplicity: multiplicity(kind),
                        value_shape: SpecValueShape::Recursive,
                        scalar_shorthands: attrs.scalars,
                        non_empty: attrs.non_empty,
                    },
                ),
            }
        },
    }
}

/// A keyed slot of scalars, unless it is refused.
pub open spec fn scalar_slot(f: SpecField, value: Seq<char>) -> Result<
    SpecChildSchema,
    Seq<char>,
> {
    match slot_attrs(f.attrs) {
        Err(e) => Err(e),
        Ok(attrs) => if attrs.scalars.len() > 0 {
            Err(
                "#[dsl_schema(scalar(...))] applies to `One` / `Optional` child slots, not keyed scalar slots"@,
            )
        } else {
            Ok(
                SpecChildSchema {
                    name: f.name,
                    multiplicity: Multiplicity::Keyed,
                    value_shape: SpecValueShape::Scalar { ty: normalized(value) },
                    scalar_shorthands: Seq::empty(),
                    non_empty: attrs.non_empty,
                },
            )
        },
    }
}

/// A payload field, unless it is refused.
pub open spec fn payload_field(f: SpecField, node: Seq<char>) -> Result<
    SpecFieldSchema,
    Seq<char>,
> {
    if has_slot_attr(f.attrs) {
        Err(
            "#[dsl_schema(...)] applies to `One` / `Optional` child slots, not payload fields"@,
        )
    } else {
        Ok(
            SpecFieldSchema {
                name: f.name,
                ty: normalized(type_text(f.ty)),
                optional: payload(f.ty, node).0 != PayloadShape::Bare,
            },
        )
    }
}

/// One more field of a variant.
pub open spec fn schema_field(vs: Seq<SpecVariant>, node: Seq<char>) -> spec_fn(
    SpecParts,
    SpecField,
) -> Result<SpecParts, Seq<char>> {
    |p: SpecParts, f: SpecField|
        if f.name == "id"@ {
            Ok(p)
        } else {
            match recursion(f.ty, node) {
                Some(kind) => match node_slot(f, kind, vs, node) {
                    Err(e) => Err(e),
                    Ok(c) => Ok(SpecParts { fields: p.fields, children: p.children.push(c) }),
                },
                None => match scalar_map(f.ty, node) {
                    Some(v) => match scalar_slot(f, type_text(v)) {
                        Err(e) => Err(e),
                        Ok(c) => Ok(SpecParts { fields: p.fields, children: p.children.push(c) }),
                    },
                    None => match payload_field(f, node) {
                        Err(e) => Err(e),
                        Ok(x) => Ok(SpecParts { fields: p.fields.push(x), children: p.children }),
                    },
                },
            }
        }
}

/// One more variant of an enum.
pub open spec fn schema_variant(vs: Seq<SpecVariant>, node: Seq<char>) -> spec_fn(
    Seq<SpecVariantSchema>,
    SpecVariant,
) -> Result<Seq<SpecVariantSchema>, Seq<char>> {
    |done: Seq<SpecVariantSchema>, v: SpecVariant|
        match v.fields {
            SpecFields::Named(fs) => match fold_from(
                fs,
                0,
                SpecParts { fields: Seq::empty(), children: Seq::empty() },
                schema_field(vs, node),
            ) {
                Err(e) => Err(e),
                Ok(p) => Ok(
                    done.push(
                        SpecVariantSchema { name: v.name, fields: p.fields, children: p.children },
                    ),
                ),
            },
            _ => Err(named_only("DslSchema"@)),
        }
}

/// The shape of a language, unless it is refused.
pub open spec fn schema_plan(input: SpecInput) -> Result<SpecSchema, Seq<char>> {
    match input.variants {
        None => Err(enums_only("DslSchema"@)),
        Some(vs) => match fold_from(vs, 0, Seq::empty(), schema_variant(vs, input.name)) {
            Err(e) => Err(e),
            Ok(variants) => Ok(SpecSchema { name: input.name, variants }),
        },
    }
}

fn read_kind(key: &Option<String>) -> (out: Option<ScalarKind>)
    ensures
        out == scalar_kind(
            match *key {
                Some(k) => Some(k@),
                None => None,
            },
        ),
{
    match key {
        Some(k) => {
            if same_text(k.as_str(), "string") {
                Some(ScalarKind::Str)
            } else if same_text(k.as_str(), "int") {
                Some(ScalarKind::Int)
            } else if same_text(k.as_str(), "bool") {
                Some(ScalarKind::Bool)
            } else {
                None
            }
        },
        None => None,
    }
}

fn key_of(kind: ScalarKind) -> (out: &'static str)
    ensures
        out@ == kind_key(kind),
{
    match kind {
        ScalarKind::Str => "string",
        ScalarKind::Int => "int",
        ScalarKind::Bool => "bool",
    }
}

fn read_scalars(
    metas: &Vec<crate::derive::decl::MetaDecl>,
    from: DslSchemaAttrs,
) -> (out: Result<DslSchemaAttrs, DeriveError>)
    ensures
        planned(out) == fold_from(metas_view(metas@), 0, from@, scalar_entry()),
{
    let ghost all = metas_view(metas@);
    let ghost start = from@;
    let mut attrs = from;
    let n: usize = metas.len();
    for i in 0..n
        invariant
            n == metas@.len(),
            all == metas_view(metas@),
            start == from@,
            fold_from(all, 0, start, scalar_entry()) == fold_from(
                all,
                i as int,
                attrs@,
                scalar_entry(),
            ),
    {
        let meta = &metas[i];
        assert(all[i as int] == meta@);
        let kind = match read_kind(&meta.key) {
            Some(k) => k,
            None => {
                return Err(
                    DeriveError::new(
                        "unsupported scalar kind; expected `string`, `int`, or `bool`",
                    ),
                );
            },
        };
        let path = match meta.path() {
            Ok(p) => p,
            Err(e) => {
                return Err(e);
            },
        };
        assert(path@.segments.len() == path.segments@.len());
        if path.segments.len() != 2 {
            return Err(
                DeriveError::new("expected a `Variant::field` path (exactly two segments)"),
            );
        }
        assert(path@.segments[0] == path.segments@[0]@);
        assert(path@.segments[1] == path.segments@[1]@);
        let ghost before = shorthands_view(attrs.scalars@);
        let decl = ScalarShorthand {
            kind,
            variant: path.segments[0].clone(),
            field: path.segments[1].clone(),
        };
        attrs.scalars.push(decl);
        assert(shorthands_view(attrs.scalars@) =~= before.push(decl@));
    }
    Ok(attrs)
}

fn read_slot_entries(
    metas: &Vec<crate::derive::decl::MetaDecl>,
    from: DslSchemaAttrs,
) -> (out: Result<DslSchemaAttrs, DeriveError>)
    ensures
        planned(out) == fold_from(metas_view(metas@), 0, from@, slot_entry()),
{
    let ghost all = metas_view(metas@);
    let ghost start = from@;
    let mut attrs = from;
    let n: usize = metas.len();
    for i in 0..n
        invariant
            n == metas@.len(),
            all == metas_view(metas@),
            start == from@,
            fold_from(all, 0, start, slot_entry()) == fold_from(
                all,
                i as int,
                attrs@,
                slot_entry(),
            ),
    {
        let meta = &metas[i];
        assert(all[i as int] == meta@);
        if meta.keyed("non_empty") {
            if let Err(e) = meta.flag() {
                return Err(e);
            }
            attrs.non_empty = true;
        } else if !meta.keyed("scalar") {
            return Err(
                DeriveError::new(
                    "unsupported #[dsl_schema(...)] key; expected `scalar(<kind> = Variant::field)` or `non_empty`",
                ),
            );
        } else {
            let list = match meta.list() {
                Ok(l) => l,
                Err(e) => {
                    return Err(e);
                },
            };
            attrs = match read_scalars(list, attrs) {
                Ok(a) => a,
                Err(e) => {
                    return Err(e);
                },
            };
        }
    }
    Ok(attrs)
}

/// Reads the annotations of a slot.
pub fn dsl_schema_attrs(f: &FieldDecl) -> (out: Result<DslSchemaAttrs, DeriveError>)
    ensures
        planned(out) == slot_attrs(f@.attrs),
{
    let ghost all = attrs_view(f.attrs@);
    let mut attrs = DslSchemaAttrs { scalars: Vec::new(), non_empty: false };
    assert(shorthands_view(attrs.scalars@) =~= Seq::empty());
    let n: usize = f.attrs.len();
    for i in 0..n
        invariant
            n == f.attrs@.len(),
            all == attrs_view(f.attrs@),
            slot_attrs(all) == fold_from(all, i as int, attrs@, slot_attribute()),
    {
        let attr = &f.attrs[i];
        assert(all[i as int] == attr@);
        if same_text(attr.name.as_str(), "dsl_schema") {
            let metas = match attr.entries() {
                Ok(ms) => ms,
                Err(e) => {
                    return Err(e);
                },
            };
            attrs = match read_slot_entries(metas, attrs) {
                Ok(a) => a,
                Err(e) => {
                    return Err(e);
                },
            };
        }
    }
    Ok(attrs)
}

/// Whether a field carries a slot annotation.
fn carries_slot_attr(f: &FieldDecl) -> (out: bool)
    ensures
        out == has_slot_attr(f@.attrs),
{
    let ghost all = attrs_view(f.attrs@);
    let n: usize = f.attrs.len();
    for i in 0..n
        invariant
            n == f.attrs@.len(),
            all == attrs_view(f.attrs@),
            forall|j: int| 0 <= j < i ==> (#[trigger] all[j]).name != "dsl_schema"@,
    {
        assert(all[i as int] == f.attrs@[i as int]@);
        if same_text(f.attrs[i].name.as_str(), "dsl_schema") {
            return true;
        }
    }
    false
}

/// The first variant of a name.
pub(crate) fn get_variant<'a>(vs: &'a Vec<VariantDecl>, name: &str) -> (out: Option<
    &'a VariantDecl,
>)
    ensures
        match out {
            Some(v) => variant_named(variants_view(vs@), name@, 0) == Some(v@),
            None => variant_named(variants_view(vs@), name@, 0) is None,
        },
{
    let ghost all = variants_view(vs@);
    let n: usize = vs.len();
    for i in 0..n
        invariant
            n == vs@.len(),
            all == variants_view(vs@),
            variant_named(all, name@, 0) == variant_named(all, name@, i as int),
    {
        assert(all[i as int] == vs@[i as int]@);
        if same_text(vs[i].name.as_str(), name) {
            return Some(&vs[i]);
        }
    }
    None
}

/// The first field of a name.
pub(crate) fn get_field<'a>(fs: &'a Vec<FieldDecl>, name: &str) -> (out: Option<&'a FieldDecl>)
    ensures
        match out {
            Some(f) => field_named(fields_view(fs@), name@, 0) == Some(f@),
            None => field_named(fields_view(fs@), name@, 0) is None,
        },
{
    let ghost all = fields_view(fs@);
    let n: usize = fs.len();
    for i in 0..n
        invariant
            n == fs@.len(),
            all == fields_view(fs@),
            field_named(all, name@, 0) == field_named(all, name@, i as int),
    {
        assert(all[i as int] == fs@[i as int]@);
        if same_text(fs[i].name.as_str(), name) {
            return Some(&fs[i]);
        }
    }
    None
}

fn int_type(ty: &str) -> (out: bool)
    ensures
        out == is_int_type(ty@),
{
    same_text(ty, "i8") || same_text(ty, "i16") || same_text(ty, "i32") || same_text(ty, "i64")
        || same_text(ty, "i128") || same_text(ty, "u8") || same_text(ty, "u16") || same_text(
        ty,
        "u32",
    ) || same_text(ty, "u64") || same_text(ty, "u128") || same_text(ty, "usize") || same_text(
        ty,
        "isize",
    )
}

/// Checks the target of a shorthand.
fn check_target(d: &ScalarShorthand, vs: &Vec<VariantDecl>, enum_name: &str) -> (out: Result<
    (),
    DeriveError,
>)
    ensures
        match out {
            Ok(()) => target_fault(d@, variants_view(vs@), enum_name@) is None,
            Err(e) => target_fault(d@, variants_view(vs@), enum_name@) == Some(e@),
        },
{
    let v = match get_variant(vs, d.variant.as_str()) {
        Some(v) => v,
        None => {
            return Err(
                DeriveError {
                    message: cat3(
                        "shorthand target variant `",
                        d.variant.as_str(),
                        "` is not a variant of this enum",
                    ),
                },
            );
        },
    };
    let fs = match &v.fields {
        FieldsDecl::Named(fs) => fs,
        _ => {
            return Err(
                DeriveError {
                    message: cat3(
                        "shorthand target variant `",
                        d.variant.as_str(),
                        "` must use named fields",
                    ),
                },
            );
        },
    };
    let f = match get_field(fs, d.field.as_str()) {
        Some(f) => f,
        None => {
            return Err(
                DeriveError {
                    message: cat5(
                        "shorthand target variant `",
                        d.variant.as_str(),
                        "` has no field `",
                        d.field.as_str(),
                        "`",
                    ),
                },
            );
        },
    };
    if same_text(d.field.as_str(), "id") || detect_recursion(&f.ty, enum_name).is_some() {
        return Err(
            DeriveError {
                message: cat5(
                    "shorthand target `",
                    d.variant.as_str(),
                    "::",
                    d.field.as_str(),
                    "` must be a plain payload field",
                ),
            },
        );
    }
    let ty = normalize_type_str(f.ty.text());
    let fits: bool = match d.kind {
        ScalarKind::Str => same_text(ty.as_str(), "String"),
        ScalarKind::Int => int_type(ty.as_str()),
        ScalarKind::Bool => same_text(ty.as_str(), "bool"),
    };
    if !fits {
        let target = cat3(d.variant.as_str(), "::", d.field.as_str());
        return Err(
            DeriveError {
                message: cat7(
                    "scalar kind `",
                    key_of(d.kind),
                    "` cannot target `",
                    target.as_str(),
                    "` of type `",
                    ty.as_str(),
                    "`",
                ),
            },
        );
    }
    Ok(())
}

fn has_kind(seen: &Vec<ScalarKind>, kind: ScalarKind) -> (out: bool)
    ensures
        out == seen@.contains(kind),
{
    for i in 0..seen.len()
        invariant
            forall|j: int| 0 <= j < i ==> seen@[j] != kind,
    {
        if seen[i] == kind {
            assert(seen@[i as int] == kind);
            return true;
        }
    }
    false
}

/// Checks the shorthands of a slot against the whole enum: no kind twice,
/// and every target a payload field that can take the scalar.
pub fn validate_scalar_decls(
    decls: &Vec<ScalarShorthand>,
    variants: &Vec<VariantDecl>,
    enum_name: &str,
) -> (out: Result<(), DeriveError>)
    ensures
        match out {
            Ok(()) => scalar_decls(
                shorthands_view(decls@),
                variants_view(variants@),
                enum_name@,
            ) is Ok,
            Err(e) => scalar_decls(shorthands_view(decls@), variants_view(variants@), enum_name@)
                == Err::<Seq<ScalarKind>, Seq<char>>(e@),
        },
{
    let ghost all = shorthands_view(decls@);
    let ghost vs = variants_view(variants@);
    let mut seen: Vec<ScalarKind> = Vec::new();
    assert(seen@ =~= Seq::empty());
    let n: usize = decls.len();
    for i in 0..n
        invariant
            n == decls@.len(),
            all == shorthands_view(decls@),
            vs == variants_view(variants@),
            scalar_decls(all, vs, enum_name@) == fold_from(
                all,
                i as int,
                seen@,
                scalar_decl(vs, enum_name@),
            ),
    {
        let d = &decls[i];
        assert(all[i as int] == d@);
        if has_kind(&seen, d.kind) {
            return Err(
                DeriveError {
                    message: cat3(
                        "duplicate `scalar(",
                        key_of(d.kind),
                        " = ...)` declaration on this slot",
                    ),
                },
            );
        }
        if let Err(e) = check_target(d, variants, enum_name) {
            return Err(e);
        }
        seen.push(d.kind);
    }
    Ok(())
}

fn one_at_most(kind: Recursion) -> (out: bool)
    ensures
        out == at_most_one(kind),
{
    match kind {
        Recursion::Direct => true,
        Recursion::Boxed => true,
        Recursion::Optional => true,
        Recursion::OptionalBoxed => true,
        _ => false,
    }
}

fn multiplicity_of(kind: Recursion) -> (out: Multiplicity)
    ensures
        out == multiplicity(kind),
{
    match kind {
        Recursion::Direct => Multiplicity::One,
        Recursion::Boxed => Multiplicity::One,
        Recursion::Optional => Multiplicity::Optional,
        Recursion::OptionalBoxed => Multiplicity::Optional,
        Recursion::Many => Multiplicity::Many,
        Recursion::ManyBoxed => Multiplicity::Many,
        Recursion::Keyed => Multiplicity::Keyed,
        Recursion::KeyedBoxed => Multiplicity::Keyed,
    }
}

fn plan_node_slot(
    f: &FieldDecl,
    kind: Recursion,
    variants: &Vec<VariantDecl>,
    enum_name: &str,
) -> (out: Result<ChildSchema, DeriveError>)
    ensures
        planned(out) == node_slot(f@, kind, variants_view(variants@), enum_name@),
{
    let attrs = match dsl_schema_attrs(f) {
        Ok(a) => a,
        Err(e) => {
            return Err(e);
        },
    };
    assert(attrs@.scalars.len() == attrs.scalars@.len());
    if attrs.scalars.len() > 0 && !one_at_most(kind) {
        return Err(
            DeriveError::new(
                "#[dsl_schema(scalar(...))] applies to `One` / `Optional` child slots only (`T` / `Box<T>` / `Option<T>` / `Option<Box<T>>`)",
            ),
        );
    }
    if attrs.non_empty && one_at_most(kind) {
        return Err(
            DeriveError::new(
                "#[dsl_schema(non_empty)] applies to `Many` / `Map` collection slots only (`Vec<T>` / `BTreeMap<String, T>` and their boxed forms) — `One` is inherently non-empty and `Optional` inherently permits absence",
            ),
        );
    }
    if let Err(e) = validate_scalar_decls(&attrs.scalars, variants, enum_name) {
        return Err(e);
    }
    Ok(
        ChildSchema {
            name: f.name.clone(),
            multiplicity: multiplicity_of(kind),
            value_shape: ChildValueShape::Recursive,
            scalar_shorthands: attrs.scalars,
            non_empty: attrs.non_empty,
        },
    )
}

fn plan_scalar_slot(f: &FieldDecl, value: &str) -> (out: Result<ChildSchema, DeriveError>)
    ensures
        planned(out) == scalar_slot(f@, value@),
{
    let attrs = match dsl_schema_attrs(f) {
        Ok(a) => a,
        Err(e) => {
            return Err(e);
        },
    };
    assert(attrs@.scalars.len() == attrs.scalars@.len());
    if attrs.scalars.len() > 0 {
        return Err(
            DeriveError::new(
                "#[dsl_schema(scalar(...))] applies to `One` / `Optional` child slots, not keyed scalar slots",
            ),
        );
    }
    let none: Vec<ScalarShorthand> = Vec::new();
    assert(shorthands_view(none@) =~= Seq::empty());
    Ok(
        ChildSchema {
            name: f.name.clone(),
            multiplicity: Multiplicity::Keyed,
            value_shape: ChildValueShape::Scalar { ty: normalize_type_str(value) },
            scalar_shorthands: none,
            non_empty: attrs.non_empty,
        },
    )
}

fn plan_payload(f: &FieldDecl, enum_name: &str) -> (out: Result<FieldSchema, DeriveError>)
    ensures
        planned(out) == payload_field(f@, enum_name@),
{
    if carries_slot_attr(f) {
        return Err(
            DeriveError::new(
                "#[dsl_schema(...)] applies to `One` / `Optional` child slots, not payload fields",
            ),
        );
    }
    Ok(
        FieldSchema {
            name: f.name.clone(),
            ty: normalize_type_str(f.ty.text()),
            optional: payload_shape(&f.ty, enum_name).0 != PayloadShape::Bare,
        },
    )
}

fn plan_variant(
    variant: &VariantDecl,
    fields: &Vec<FieldDecl>,
    variants: &Vec<VariantDecl>,
    enum_name: &str,
) -> (out: Result<VariantSchema, DeriveError>)
    ensures
        match fold_from(
            fields_view(fields@),
            0,
            SpecParts { fields: Seq::empty(), children: Seq::empty() },
            schema_field(variants_view(variants@), enum_name@),
        ) {
            Ok(p) => out matches Ok(v) && v@ == (SpecVariantSchema {
                name: variant.name@,
                fields: p.fields,
                children: p.children,
            }),
            Err(m) => out matches Err(e) && e@ == m,
        },
{
    let ghost all = fields_view(fields@);
    let ghost vs = variants_view(variants@);
    let mut payloads: Vec<FieldSchema> = Vec::new();
    let mut slots: Vec<ChildSchema> = Vec::new();
    assert(payloads_view(payloads@) =~= Seq::empty());
    assert(slots_view(slots@) =~= Seq::empty());
    let n: usize = fields.len();
    for i in 0..n
        invariant
            n == fields@.len(),
            all == fields_view(fields@),
            vs == variants_view(variants@),
            fold_from(
                all,
                0,
                SpecParts { fields: Seq::empty(), children: Seq::empty() },
                schema_field(vs, enum_name@),
            ) == fold_from(
                all,
                i as int,
                SpecParts { fields: payloads_view(payloads@), children: slots_view(slots@) },
                schema_field(vs, enum_name@),
            ),
    {
        let f = &fields[i];
        assert(all[i as int] == f@);
        let ghost fields_before = payloads_view(payloads@);
        let ghost slots_before = slots_view(slots@);
        if !same_text(f.name.as_str(), "id") {
            if let Some(kind) = detect_recursion(&f.ty, enum_name) {
                match plan_node_slot(f, kind, variants, enum_name) {
                    Ok(c) => {
                        slots.push(c);
                        assert(slots_view(slots@) =~= slots_before.push(c@));
                    },
                    Err(e) => {
                        return Err(e);
                    },
                }
            } else if let Some(v) = detect_scalar_map(&f.ty, enum_name) {
                match plan_scalar_slot(f, v.text()) {
                    Ok(c) => {
                        slots.push(c);
                        assert(slots_view(slots@) =~= slots_before.push(c@));
                    },
                    Err(e) => {
                        return Err(e);
                    },
                }
            } else {
                match plan_payload(f, enum_name) {
                    Ok(x) => {
                        payloads.push(x);
                        assert(payloads_view(payloads@) =~= fields_before.push(x@));
                    },
                    Err(e) => {
                        return Err(e);
                    },
                }
            }
        }
    }
    Ok(VariantSchema { name: variant.name.clone(), fields: payloads, children: slots })
}

/// Plans the shape of a language: every variant, its payload fields and its
/// child slots. Identity is no part of it.
pub fn derive_dsl_schema(input: &InputDecl) -> (out: Result<NodeSchema, DeriveError>)
    ensures
        planned(out) == schema_plan(input@),
{
    let variants = match enum_variants(input, "DslSchema") {
        Ok(vs) => vs,
        Err(e) => {
            return Err(e);
        },
    };
    let ghost all = variants_view(variants@);
    let mut done: Vec<VariantSchema> = Vec::new();
    assert(variant_schemas_view(done@) =~= Seq::empty());
    let n: usize = variants.len();
    for i in 0..n
        invariant
            n == variants@.len(),
            all == variants_view(variants@),
            input@.variants == Some(all),
            fold_from(all, 0, Seq::empty(), schema_variant(all, input.name@)) == fold_from(
                all,
                i as int,
                variant_schemas_view(done@),
                schema_variant(all, input.name@),
            ),
    {
        let variant = &variants[i];
        assert(all[i as int] == variant@);
        let fields = match named_fields(variant, "DslSchema") {
            Ok(fs) => fs,
            Err(e) => {
                return Err(e);
            },
        };
        match plan_variant(variant, fields, variants, input.name.as_str()) {
            Ok(v) => {
                let ghost before = variant_schemas_view(done@);
                done.push(v);
                assert(variant_schemas_view(done@) =~= before.push(v@));
            },
            Err(e) => {
                return Err(e);
            },
        }
    }
    Ok(NodeSchema { name: input.name.clone(), variants: done })
}

} // verus!
