//! Where the fields of a variant go, by their types and in their order.
use vstd::prelude::*;

use crate::derive::construct::{
    build_arm, build_field, build_plan, build_route, SpecBuildArm, SpecBuildField, SpecBuildRoute,
};
use crate::derive::decl::{
    fold_from, type_text, SpecArgs, SpecAttr, SpecField, SpecFields, SpecInput, SpecMeta,
    SpecMetaValue, SpecPath, SpecType, SpecVariant,
};
use crate::derive::dump::{
    dump_arm, dump_field, dump_plan, dump_route, SpecDumpArm, SpecDumpField, SpecDumpRoute,
};
use crate::derive::exec::{form_of, node_kind, SpecForm, SpecPayload};
use crate::derive::meta::{with_attribute, with_entry, with_path, SpecWith};
use crate::derive::node::SpecChild;
use crate::derive::order::{is_no_identity, is_one, may_be_absent, picks};
use crate::derive::schema::{schema_field, schema_plan, schema_variant, slot_attrs, SpecParts};
use crate::derive::shape::{normalized, payload, recursion, scalar_map, PayloadShape, Recursion};
use crate::schema::{Multiplicity, SpecChildSchema, SpecSchema, SpecValueShape, SpecVariantSchema};

verus! {

/// A bare type name.
pub open spec fn bare(name: Seq<char>, text: Seq<char>) -> SpecType {
    SpecType::Named { name, args: SpecArgs::Absent, text }
}

/// A type with one argument.
pub open spec fn wrapper(name: Seq<char>, inner: SpecType, text: Seq<char>) -> SpecType {
    SpecType::Named { name, args: SpecArgs::Angle(seq![Some(inner)]), text }
}

/// A map from a bare key type.
pub open spec fn map_of(key: Seq<char>, value: SpecType, text: Seq<char>) -> SpecType {
    SpecType::Named {
        name: "BTreeMap"@,
        args: SpecArgs::Angle(seq![Some(bare(key, key)), Some(value)]),
        text,
    }
}

proof fn lemma_container_names()
    ensures
        "Box"@ != "Option"@,
        "Box"@ != "Vec"@,
        "Box"@ != "BTreeMap"@,
        "Option"@ != "Vec"@,
        "Option"@ != "BTreeMap"@,
        "Vec"@ != "BTreeMap"@,
{
    reveal_strlit("Box");
    reveal_strlit("Option");
    reveal_strlit("Vec");
    reveal_strlit("BTreeMap");
    assert("Box"@.len() == 3 && "Vec"@.len() == 3 && "Option"@.len() == 6 && "BTreeMap"@.len()
        == 8);
    assert("Box"@[0] != "Vec"@[0]);
}

/// A node is held directly, in a box, in an option, in a list or under the
/// keys of a map, in these last three boxed or not, and each of them is told
/// from the others.
pub proof fn law_every_way_to_hold_nodes_is_seen(node: Seq<char>, text: Seq<char>, t: Seq<char>)
    ensures
        ({
            let one = bare(node, text);
            let boxed = wrapper("Box"@, one, t);
            &&& recursion(one, node) == Some(Recursion::Direct)
            &&& recursion(boxed, node) == Some(Recursion::Boxed)
            &&& recursion(wrapper("Option"@, one, t), node) == Some(Recursion::Optional)
            &&& recursion(wrapper("Option"@, boxed, t), node) == Some(Recursion::OptionalBoxed)
            &&& recursion(wrapper("Vec"@, one, t), node) == Some(Recursion::Many)
            &&& recursion(wrapper("Vec"@, boxed, t), node) == Some(Recursion::ManyBoxed)
            &&& recursion(map_of("String"@, one, t), node) == Some(Recursion::Keyed)
            &&& recursion(map_of("String"@, boxed, t), node) == Some(Recursion::KeyedBoxed)
        }),
{
    lemma_container_names();
}

/// Other types hold no nodes: other names, other containers, containers of
/// other things and maps with other keys.
pub proof fn law_other_types_hold_no_nodes(
    node: Seq<char>,
    other: Seq<char>,
    name: Seq<char>,
    inner: SpecType,
    text: Seq<char>,
    t: Seq<char>,
)
    requires
        other != node,
        inner matches SpecType::Named { name: n, .. } ==> n != node && n != "Box"@,
    ensures
        recursion(bare(other, text), node) is None,
        recursion(SpecType::Opaque { text }, node) is None,
        recursion(wrapper(name, inner, t), node) is None,
        recursion(wrapper(name, wrapper("Box"@, inner, text), t), node) is None,
        name != "Box"@ && name != "Option"@ && name != "Vec"@ ==> recursion(
            wrapper(name, bare(node, text), t),
            node,
        ) is None,
        name != "String"@ ==> recursion(map_of(name, bare(node, text), t), node) is None,
        recursion(map_of("String"@, inner, t), node) is None,
{
    lemma_container_names();
}

/// A payload is optional in an option, a list in a list, and bare otherwise; a
/// map of texts to other things than nodes is a table of scalars.
pub proof fn law_payload_shapes_are_told_apart(
    node: Seq<char>,
    name: Seq<char>,
    inner: SpecType,
    t: Seq<char>,
)
    requires
        inner matches SpecType::Named { name: n, .. } ==> n != node && n != "Box"@,
    ensures
        payload(wrapper("Option"@, inner, t), node) == (PayloadShape::OptionInner, Some(inner)),
        payload(wrapper("Vec"@, inner, t), node) == (PayloadShape::VecInner, Some(inner)),
        name != "Option"@ && name != "Vec"@ ==> payload(wrapper(name, inner, t), node).0
            == PayloadShape::Bare,
        payload(bare(name, t), node).0 == PayloadShape::Bare,
        scalar_map(map_of("String"@, inner, t), node) == Some(inner),
        name != "String"@ ==> scalar_map(map_of(name, inner, t), node) is None,
        name != "BTreeMap"@ ==> scalar_map(wrapper(name, inner, t), node) is None,
{
    lemma_container_names();
}

/// A field without a converter is built from its slot where it holds nodes, and
/// from its payload otherwise: optional, as a list or plain, by its type.
pub proof fn law_a_field_is_built_by_its_type(
    name: Seq<char>,
    ty: SpecType,
    inner: SpecType,
    other: Seq<char>,
    t: Seq<char>,
    node: Seq<char>,
)
    requires
        inner matches SpecType::Named { name: n, .. } ==> n != node && n != "Box"@,
        other != node,
    ensures
        ({
            let route = |ty: SpecType|
                build_route(SpecField { name, ty, attrs: Seq::empty() }, node);
            &&& recursion(ty, node) matches Some(k) ==> route(ty) == Ok::<
                SpecBuildRoute,
                Seq<char>,
            >(SpecBuildRoute::Child(k))
            &&& route(wrapper("Option"@, inner, t)) == Ok::<SpecBuildRoute, Seq<char>>(
                SpecBuildRoute::Optional { ty: t, inner: type_text(inner) },
            )
            &&& route(wrapper("Vec"@, inner, t)) == Ok::<SpecBuildRoute, Seq<char>>(
                SpecBuildRoute::Listed { ty: t, inner: type_text(inner) },
            )
            &&& route(map_of("String"@, inner, t)) == Ok::<SpecBuildRoute, Seq<char>>(
                SpecBuildRoute::ScalarMap { value: type_text(inner) },
            )
            &&& route(bare(other, t)) == Ok::<SpecBuildRoute, Seq<char>>(
                SpecBuildRoute::Plain { ty: t },
            )
        }),
{
    lemma_container_names();
    assert(with_path(Seq::empty(), "dsl_build"@) == Ok::<Option<SpecPath>, Seq<char>>(None));
}

/// A field without a converter is dumped to where it is built from.
pub proof fn law_a_field_is_dumped_by_its_type(
    name: Seq<char>,
    ty: SpecType,
    inner: SpecType,
    other: Seq<char>,
    t: Seq<char>,
    node: Seq<char>,
)
    requires
        inner matches SpecType::Named { name: n, .. } ==> n != node && n != "Box"@,
        other != node,
    ensures
        ({
            let route = |ty: SpecType|
                dump_route(SpecField { name, ty, attrs: Seq::empty() }, node);
            &&& recursion(ty, node) matches Some(k) ==> route(ty) == Ok::<
                SpecDumpRoute,
                Seq<char>,
            >(SpecDumpRoute::Child(k))
            &&& route(wrapper("Option"@, inner, t)) == Ok::<SpecDumpRoute, Seq<char>>(
                SpecDumpRoute::Optional,
            )
            &&& route(wrapper("Vec"@, inner, t)) == Ok::<SpecDumpRoute, Seq<char>>(
                SpecDumpRoute::Plain,
            )
            &&& route(map_of("String"@, inner, t)) == Ok::<SpecDumpRoute, Seq<char>>(
                SpecDumpRoute::ScalarMap,
            )
            &&& route(bare(other, t)) == Ok::<SpecDumpRoute, Seq<char>>(SpecDumpRoute::Plain)
        }),
{
    lemma_container_names();
    assert(with_path(Seq::empty(), "dsl_build"@) == Ok::<Option<SpecPath>, Seq<char>>(None));
    assert(with_path(Seq::empty(), "dsl_dump"@) == Ok::<Option<SpecPath>, Seq<char>>(None));
}

/// A field with the annotation `name(with = path)` and no other.
pub open spec fn converted(
    field: Seq<char>,
    ty: SpecType,
    name: Seq<char>,
    path: SpecPath,
) -> SpecField {
    let entry = SpecMeta { key: Some("with"@), value: SpecMetaValue::Path(path) };
    SpecField { name: field, ty, attrs: seq![SpecAttr { name, metas: Some(seq![entry]) }] }
}

proof fn lemma_with(field: Seq<char>, ty: SpecType, name: Seq<char>, path: SpecPath)
    ensures
        with_path(converted(field, ty, name, path).attrs, name) == Ok::<
            Option<SpecPath>,
            Seq<char>,
        >(Some(path)),
{
    let f = converted(field, ty, name, path);
    let ms = f.attrs[0].metas->Some_0;
    let from = SpecWith { with: None, seen: false };
    let then_ = SpecWith { with: Some(path), seen: true };
    let step = with_entry(name);
    assert(step(from, ms[0]) == Ok::<SpecWith, Seq<char>>(then_));
    assert(fold_from(ms, 1, then_, step) == Ok::<SpecWith, Seq<char>>(then_));
    assert(fold_from(ms, 0, from, step) == Ok::<SpecWith, Seq<char>>(then_));
    let attr = with_attribute(name);
    assert(attr(None, f.attrs[0]) == Ok::<Option<SpecPath>, Seq<char>>(Some(path)));
    assert(fold_from(f.attrs, 1, Some(path), attr) == Ok::<Option<SpecPath>, Seq<char>>(
        Some(path),
    ));
}

/// A converter takes precedence over the type of a payload, and a field that
/// holds nodes takes none.
pub proof fn law_converters_take_over_payloads(
    field: Seq<char>,
    ty: SpecType,
    path: SpecPath,
    node: Seq<char>,
)
    ensures
        ({
            let f = converted(field, ty, "dsl_build"@, path);
            if recursion(ty, node) is Some {
                build_route(f, node) is Err
            } else {
                build_route(f, node) matches Ok(SpecBuildRoute::With { path: p, .. }) && p
                    == path.text
            }
        }),
{
    lemma_with(field, ty, "dsl_build"@, path);
}

/// Whether a plan's fields are those of a variant but for its identity, in the
/// order of their declaration, each routed by itself.
pub open spec fn built_in_order(
    fields: Seq<SpecBuildField>,
    fs: Seq<SpecField>,
    node: Seq<char>,
) -> bool {
    exists|at: Seq<int>| #[trigger]
        picks(fs, at, is_no_identity()) && at.len() == fields.len() && forall|i: int|
            0 <= i < fields.len() ==> (#[trigger] fields[i]).field == fs[at[i]].name && build_route(
                fs[at[i]],
                node,
            ) == Ok::<SpecBuildRoute, Seq<char>>(fields[i].route)
}

/// The same of a plan to dump.
pub open spec fn dumped_in_order(
    fields: Seq<SpecDumpField>,
    fs: Seq<SpecField>,
    node: Seq<char>,
) -> bool {
    exists|at: Seq<int>| #[trigger]
        picks(fs, at, is_no_identity()) && at.len() == fields.len() && forall|i: int|
            0 <= i < fields.len() ==> (#[trigger] fields[i]).field == fs[at[i]].name && dump_route(
                fs[at[i]],
                node,
            ) == Ok::<SpecDumpRoute, Seq<char>>(fields[i].route)
}

proof fn lemma_build_fields(
    fs: Seq<SpecField>,
    i: int,
    done: Seq<SpecBuildField>,
    at: Seq<int>,
    node: Seq<char>,
)
    requires
        0 <= i <= fs.len(),
        picks(fs.take(i), at, is_no_identity()),
        at.len() == done.len(),
        forall|k: int|
            0 <= k < done.len() ==> (#[trigger] done[k]).field == fs[at[k]].name && build_route(
                fs[at[k]],
                node,
            ) == Ok::<SpecBuildRoute, Seq<char>>(done[k].route),
    ensures
        fold_from(fs, i, done, build_field(node)) matches Ok(out) ==> built_in_order(
            out,
            fs,
            node,
        ),
    decreases fs.len() - i,
{
    if i < fs.len() {
        let step = build_field(node);
        let p = is_no_identity();
        let more = crate::derive::order::lemma_pick_more(fs, (i + 1) as nat, at, p);
        if let Ok(next) = step(done, fs[i]) {
            assert(p(fs[i]) <==> fs[i].name != "id"@);
            assert forall|k: int| 0 <= k < next.len() implies (#[trigger] next[k]).field
                == fs[more[k]].name && build_route(fs[more[k]], node) == Ok::<
                SpecBuildRoute,
                Seq<char>,
            >(next[k].route) by {
                if k < done.len() {
                    assert(next[k] == done[k]);
                }
            }
            lemma_build_fields(fs, i + 1, next, more, node);
        }
    } else {
        assert(fs.take(i) =~= fs);
    }
}

proof fn lemma_dump_fields(
    fs: Seq<SpecField>,
    i: int,
    done: Seq<SpecDumpField>,
    at: Seq<int>,
    node: Seq<char>,
)
    requires
        0 <= i <= fs.len(),
        picks(fs.take(i), at, is_no_identity()),
        at.len() == done.len(),
        forall|k: int|
            0 <= k < done.len() ==> (#[trigger] done[k]).field == fs[at[k]].name && dump_route(
                fs[at[k]],
                node,
            ) == Ok::<SpecDumpRoute, Seq<char>>(done[k].route),
    ensures
        fold_from(fs, i, done, dump_field(node)) matches Ok(out) ==> dumped_in_order(
            out,
            fs,
            node,
        ),
    decreases fs.len() - i,
{
    if i < fs.len() {
        let step = dump_field(node);
        let p = is_no_identity();
        let more = crate::derive::order::lemma_pick_more(fs, (i + 1) as nat, at, p);
        if let Ok(next) = step(done, fs[i]) {
            assert(p(fs[i]) <==> fs[i].name != "id"@);
            assert forall|k: int| 0 <= k < next.len() implies (#[trigger] next[k]).field
                == fs[more[k]].name && dump_route(fs[more[k]], node) == Ok::<
                SpecDumpRoute,
                Seq<char>,
            >(next[k].route) by {
                if k < done.len() {
                    assert(next[k] == done[k]);
                }
            }
            lemma_dump_fields(fs, i + 1, next, more, node);
        }
    } else {
        assert(fs.take(i) =~= fs);
    }
}

/// A construction plan has one entry for each variant, which fills every field
/// but the identity, in the order of their declaration.
pub proof fn law_construction_follows_the_declaration(
    input: SpecInput,
    arms: Seq<SpecBuildArm>,
)
    requires
        build_plan(input) == Ok::<Seq<SpecBuildArm>, Seq<char>>(arms),
    ensures
        input.variants matches Some(vs) && arms.len() == vs.len() && forall|i: int|
            0 <= i < vs.len() ==> (#[trigger] arms[i]).variant == vs[i].name && (
            vs[i].fields matches SpecFields::Named(fs) && built_in_order(
                arms[i].fields,
                fs,
                input.name,
            )),
{
    let vs = input.variants->Some_0;
    lemma_build_arms(vs, 0, Seq::empty(), input.name);
    assert forall|i: int| 0 <= i < vs.len() implies (#[trigger] arms[i]).variant == vs[i].name && (
    vs[i].fields matches SpecFields::Named(fs) && built_in_order(
        arms[i].fields,
        fs,
        input.name,
    )) by {
        assert(arms[0 + i - 0] == arms[i]);
    }
}

proof fn lemma_build_arms(
    vs: Seq<SpecVariant>,
    i: int,
    done: Seq<SpecBuildArm>,
    node: Seq<char>,
)
    requires
        0 <= i <= vs.len(),
    ensures
        fold_from(vs, i, done, build_arm(node)) matches Ok(arms) ==> ({
            &&& arms.len() == done.len() + vs.len() - i
            &&& forall|j: int| 0 <= j < done.len() ==> arms[j] == done[j]
            &&& forall|j: int|
                i <= j < vs.len() ==> (#[trigger] arms[done.len() + j - i]).variant == vs[j].name
                    && (vs[j].fields matches SpecFields::Named(fs) && built_in_order(
                    arms[done.len() + j - i].fields,
                    fs,
                    node,
                ))
        }),
    decreases vs.len() - i,
{
    if i < vs.len() {
        let step = build_arm(node);
        if let Ok(next) = step(done, vs[i]) {
            let fs = vs[i].fields->Named_0;
            lemma_build_fields(fs, 0, Seq::empty(), Seq::empty(), node);
            lemma_build_arms(vs, i + 1, next, node);
            if let Ok(arms) = fold_from(vs, i + 1, next, step) {
                assert(arms[done.len() as int] == next[done.len() as int]);
                assert forall|j: int| i <= j < vs.len() implies (
                #[trigger] arms[done.len() + j - i]).variant == vs[j].name && (
                vs[j].fields matches SpecFields::Named(fs) && built_in_order(
                    arms[done.len() + j - i].fields,
                    fs,
                    node,
                )) by {
                    if j > i {
                        assert(done.len() + j - i == next.len() + j - (i + 1));
                    }
                }
            }
        }
    }
}

/// A plan to dump has one entry for each variant, which writes every field but
/// the identity, in the order of their declaration.
pub proof fn law_dumping_follows_the_declaration(
    input: SpecInput,
    arms: Seq<SpecDumpArm>,
)
    requires
        dump_plan(input) == Ok::<Seq<SpecDumpArm>, Seq<char>>(arms),
    ensures
        input.variants matches Some(vs) && arms.len() == vs.len() && forall|i: int|
            0 <= i < vs.len() ==> (#[trigger] arms[i]).variant == vs[i].name && (
            vs[i].fields matches SpecFields::Named(fs) && dumped_in_order(
                arms[i].fields,
                fs,
                input.name,
            )),
{
    let vs = input.variants->Some_0;
    lemma_dump_arms(vs, 0, Seq::empty(), input.name);
    assert forall|i: int| 0 <= i < vs.len() implies (#[trigger] arms[i]).variant == vs[i].name && (
    vs[i].fields matches SpecFields::Named(fs) && dumped_in_order(
        arms[i].fields,
        fs,
        input.name,
    )) by {
        assert(arms[0 + i - 0] == arms[i]);
    }
}

proof fn lemma_dump_arms(
    vs: Seq<SpecVariant>,
    i: int,
    done: Seq<SpecDumpArm>,
    node: Seq<char>,
)
    requires
        0 <= i <= vs.len(),
    ensures
        fold_from(vs, i, done, dump_arm(node)) matches Ok(arms) ==> ({
            &&& arms.len() == done.len() + vs.len() - i
            &&& forall|j: int| 0 <= j < done.len() ==> arms[j] == done[j]
            &&& forall|j: int|
                i <= j < vs.len() ==> (#[trigger] arms[done.len() + j - i]).variant == vs[j].name
                    && (vs[j].fields matches SpecFields::Named(fs) && dumped_in_order(
                    arms[done.len() + j - i].fields,
                    fs,
                    node,
                ))
        }),
    decreases vs.len() - i,
{
    if i < vs.len() {
        let step = dump_arm(node);
        if let Ok(next) = step(done, vs[i]) {
            let fs = vs[i].fields->Named_0;
            lemma_dump_fields(fs, 0, Seq::empty(), Seq::empty(), node);
            lemma_dump_arms(vs, i + 1, next, node);
            if let Ok(arms) = fold_from(vs, i + 1, next, step) {
                assert(arms[done.len() as int] == next[done.len() as int]);
                assert forall|j: int| i <= j < vs.len() implies (
                #[trigger] arms[done.len() + j - i]).variant == vs[j].name && (
                vs[j].fields matches SpecFields::Named(fs) && dumped_in_order(
                    arms[done.len() + j - i].fields,
                    fs,
                    node,
                )) by {
                    if j > i {
                        assert(done.len() + j - i == next.len() + j - (i + 1));
                    }
                }
            }
        }
    }
}

/// The multiplicity of a slot goes by how it holds its nodes.
pub open spec fn many_of(kind: Recursion) -> Multiplicity {
    if kind == Recursion::Direct || kind == Recursion::Boxed {
        Multiplicity::One
    } else if kind == Recursion::Optional || kind == Recursion::OptionalBoxed {
        Multiplicity::Optional
    } else if kind == Recursion::Many || kind == Recursion::ManyBoxed {
        Multiplicity::Many
    } else {
        Multiplicity::Keyed
    }
}

/// Whether a slot describes a field: a slot of nodes by how it holds them, a
/// table of scalars as keyed.
pub open spec fn slot_fits(c: SpecChildSchema, f: SpecField, node: Seq<char>) -> bool {
    &&& c.name == f.name
    &&& slot_attrs(f.attrs) matches Ok(a) && c.non_empty == a.non_empty && c.scalar_shorthands
        == a.scalars
    &&& match recursion(f.ty, node) {
        Some(k) => c.multiplicity == many_of(k) && c.value_shape is Recursive,
        None => scalar_map(f.ty, node) is Some && c.multiplicity == Multiplicity::Keyed
            && c.value_shape == (SpecValueShape::Scalar {
            ty: normalized(type_text(scalar_map(f.ty, node)->0)),
        }),
    }
}

/// Whether a field is described by a slot.
pub open spec fn is_slot(node: Seq<char>) -> spec_fn(SpecField) -> bool {
    |f: SpecField|
        f.name != "id"@ && (recursion(f.ty, node) is Some || scalar_map(f.ty, node) is Some)
}

/// Whether a field is described as payload.
pub open spec fn is_payload(node: Seq<char>) -> spec_fn(SpecField) -> bool {
    |f: SpecField|
        f.name != "id"@ && recursion(f.ty, node) is None && scalar_map(f.ty, node) is None
}

/// Whether a schema's parts are those of a variant's fields, in the order of
/// their declaration.
pub open spec fn described_in_order(
    p: SpecParts,
    fs: Seq<SpecField>,
    node: Seq<char>,
) -> bool {
    exists|a: Seq<int>, b: Seq<int>|
        #![trigger picks(fs, a, is_slot(node)), picks(fs, b, is_payload(node))]
        described(p, fs, node, a, b)
}

/// The same with the positions of slots and payload fields given.
pub open spec fn described(
    p: SpecParts,
    fs: Seq<SpecField>,
    node: Seq<char>,
    a: Seq<int>,
    b: Seq<int>,
) -> bool {
    &&& picks(fs, a, is_slot(node))
    &&& picks(fs, b, is_payload(node))
    &&& described_at(p, fs, node, a, b)
}

/// Whether parts describe the fields at these positions.
pub open spec fn described_at(
    p: SpecParts,
    fs: Seq<SpecField>,
    node: Seq<char>,
    a: Seq<int>,
    b: Seq<int>,
) -> bool {
    &&& a.len() == p.children.len()
    &&& b.len() == p.fields.len()
    &&& forall|i: int|
        0 <= i < a.len() ==> 0 <= a[i] < fs.len() && slot_fits(
            #[trigger] p.children[i],
            fs[a[i]],
            node,
        )
    &&& forall|i: int|
        0 <= i < b.len() ==> 0 <= b[i] < fs.len() && (#[trigger] p.fields[i]).name == fs[b[i]].name
            && p.fields[i].ty == normalized(type_text(fs[b[i]].ty)) && p.fields[i].optional == (
        payload(fs[b[i]].ty, node).0 != PayloadShape::Bare)
}

proof fn lemma_schema_fields(
    fs: Seq<SpecField>,
    i: int,
    p: SpecParts,
    a: Seq<int>,
    b: Seq<int>,
    vs: Seq<SpecVariant>,
    node: Seq<char>,
)
    requires
        0 <= i <= fs.len(),
        picks(fs.take(i), a, is_slot(node)),
        picks(fs.take(i), b, is_payload(node)),
        described_at(p, fs, node, a, b),
    ensures
        fold_from(fs, i, p, schema_field(vs, node)) matches Ok(out) ==> described_in_order(
            out,
            fs,
            node,
        ),
    decreases fs.len() - i,
{
    if i < fs.len() {
        let step = schema_field(vs, node);
        let (sl, pl) = (is_slot(node), is_payload(node));
        let f = fs[i];
        let a1 = crate::derive::order::lemma_pick_more(fs, (i + 1) as nat, a, sl);
        let b1 = crate::derive::order::lemma_pick_more(fs, (i + 1) as nat, b, pl);
        if let Ok(next) = step(p, f) {
            assert(sl(f) <==> f.name != "id"@ && (recursion(f.ty, node) is Some || scalar_map(
                f.ty,
                node,
            ) is Some));
            assert(pl(f) <==> f.name != "id"@ && recursion(f.ty, node) is None && scalar_map(
                f.ty,
                node,
            ) is None);
            assert forall|k: int| 0 <= k < a1.len() implies 0 <= a1[k] < fs.len() && slot_fits(
                #[trigger] next.children[k],
                fs[a1[k]],
                node,
            ) by {
                if k < a.len() {
                    assert(next.children[k] == p.children[k]);
                } else if recursion(f.ty, node) is None {
                    assert(slot_attrs(f.attrs)->Ok_0.scalars =~= Seq::empty());
                }
            }
            assert forall|k: int| 0 <= k < b1.len() implies 0 <= b1[k] < fs.len() && (
            #[trigger] next.fields[k]).name == fs[b1[k]].name && next.fields[k].ty == normalized(
                type_text(fs[b1[k]].ty),
            ) && next.fields[k].optional == (payload(fs[b1[k]].ty, node).0 != PayloadShape::Bare) by {
                if k < b.len() {
                    assert(next.fields[k] == p.fields[k]);
                }
            }
            lemma_schema_fields(fs, i + 1, next, a1, b1, vs, node);
        }
    } else {
        assert(fs.take(i) =~= fs);
        assert(described(p, fs, node, a, b));
    }
}

/// A schema has one entry for each variant. Its slots are the fields that hold
/// nodes or keyed scalars, its payload fields all others but the identity,
/// each in the order of their declaration; a slot is as numerous as its type
/// says and must not be empty where it is so annotated, and a payload field
/// may be absent where its type says so.
pub proof fn law_schema_follows_the_declaration(input: SpecInput, s: SpecSchema)
    requires
        schema_plan(input) == Ok::<SpecSchema, Seq<char>>(s),
    ensures
        s.name == input.name,
        input.variants matches Some(vs) && s.variants.len() == vs.len() && forall|i: int|
            0 <= i < vs.len() ==> (#[trigger] s.variants[i]).name == vs[i].name && (
            vs[i].fields matches SpecFields::Named(fs) && described_in_order(
                SpecParts { fields: s.variants[i].fields, children: s.variants[i].children },
                fs,
                input.name,
            )),
{
    let vs = input.variants->Some_0;
    lemma_schema_variants(vs, 0, Seq::empty(), vs, input.name);
    assert forall|i: int| 0 <= i < vs.len() implies (#[trigger] s.variants[i]).name == vs[i].name
        && (vs[i].fields matches SpecFields::Named(fs) && described_in_order(
        SpecParts { fields: s.variants[i].fields, children: s.variants[i].children },
        fs,
        input.name,
    )) by {
        assert(s.variants[0 + i - 0] == s.variants[i]);
    }
}

proof fn lemma_schema_variants(
    vs: Seq<SpecVariant>,
    i: int,
    done: Seq<SpecVariantSchema>,
    all: Seq<SpecVariant>,
    node: Seq<char>,
)
    requires
        0 <= i <= vs.len(),
    ensures
        fold_from(vs, i, done, schema_variant(all, node)) matches Ok(out) ==> ({
            &&& out.len() == done.len() + vs.len() - i
            &&& forall|j: int| 0 <= j < done.len() ==> out[j] == done[j]
            &&& forall|j: int|
                i <= j < vs.len() ==> (#[trigger] out[done.len() + j - i]).name == vs[j].name && (
                vs[j].fields matches SpecFields::Named(fs) && described_in_order(
                    SpecParts {
                        fields: out[done.len() + j - i].fields,
                        children: out[done.len() + j - i].children,
                    },
                    fs,
                    node,
                ))
        }),
    decreases vs.len() - i,
{
    if i < vs.len() {
        let step = schema_variant(all, node);
        if let Ok(next) = step(done, vs[i]) {
            let fs = vs[i].fields->Named_0;
            let none = SpecParts { fields: Seq::empty(), children: Seq::empty() };
            lemma_schema_fields(fs, 0, none, Seq::empty(), Seq::empty(), all, node);
            lemma_schema_variants(vs, i + 1, next, all, node);
            if let Ok(out) = fold_from(vs, i + 1, next, step) {
                assert(out[done.len() as int] == next[done.len() as int]);
                assert forall|j: int| i <= j < vs.len() implies (
                #[trigger] out[done.len() + j - i]).name == vs[j].name && (
                vs[j].fields matches SpecFields::Named(fs) && described_in_order(
                    SpecParts {
                        fields: out[done.len() + j - i].fields,
                        children: out[done.len() + j - i].children,
                    },
                    fs,
                    node,
                )) by {
                    if j > i {
                        let k = next.len() + j - (i + 1);
                        assert(done.len() + j - i == k);
                        assert(out[k].name == vs[j].name);
                    } else {
                        let mine = out[done.len() + j - i];
                        assert(mine == next[done.len() as int]);
                        let parts = fold_from(fs, 0, none, schema_field(all, node))->Ok_0;
                        assert(SpecParts { fields: mine.fields, children: mine.children } == parts);
                    }
                }
            }
        }
    }
}

/// The word of a form decides the form, and what stands behind it is taken as
/// it stands there.
pub proof fn law_the_word_of_a_form_decides(op: Seq<char>, field: Seq<char>)
    ensures
        ({
            let word = |w: Seq<char>|
                form_of(SpecMeta { key: Some(w), value: SpecMetaValue::Flag });
            &&& word("value"@) == Ok::<SpecForm, Seq<char>>(SpecForm::Value)
            &&& word("branch"@) == Ok::<SpecForm, Seq<char>>(SpecForm::Branch)
            &&& word("repeat"@) == Ok::<SpecForm, Seq<char>>(SpecForm::Repeat)
            &&& word("seq"@) == Ok::<SpecForm, Seq<char>>(SpecForm::Sequence)
            &&& word("maybe"@) == Ok::<SpecForm, Seq<char>>(SpecForm::Maybe)
            &&& form_of(
                SpecMeta { key: Some("apply"@), value: SpecMetaValue::Text(op) },
            ) == Ok::<SpecForm, Seq<char>>(SpecForm::Apply { op })
        }),
{
    reveal_strlit("value");
    reveal_strlit("read");
    reveal_strlit("apply");
    reveal_strlit("bind");
    reveal_strlit("branch");
    reveal_strlit("repeat");
    reveal_strlit("seq");
    reveal_strlit("scope");
    reveal_strlit("maybe");
    reveal_strlit("call");
    assert("value"@[0] == 'v' && "apply"@[0] == 'a' && "maybe"@[0] == 'm' && "seq"@[0] == 's');
    assert("read"@[2] == 'a' && "repeat"@[2] == 'p');
    assert("bind"@[0] == 'b' && "branch"@[0] == 'b' && "bind"@.len() == 4 && "branch"@.len() == 6);
    assert("read"@.len() == 4 && "repeat"@.len() == 6 && "read"@[0] == 'r' && "repeat"@[0] == 'r');
    assert("scope"@.len() == 5 && "scope"@[0] == 's' && "seq"@.len() == 3 && "call"@[0] == 'c');
}

/// When a form is accepted: an operator and a sequence always, the others when
/// their children are as many and of the kind they need.
pub proof fn law_forms_take_the_children_they_need(
    cs: Seq<SpecChild>,
    ps: Seq<SpecPayload>,
    name: Seq<char>,
)
    ensures
        node_kind(SpecForm::Apply { op: name }, cs, ps) is Ok,
        node_kind(SpecForm::Sequence, cs, ps) is Ok,
        node_kind(SpecForm::Read { name_field: name }, cs, ps) is Ok,
        node_kind(SpecForm::Bind { name_field: name }, cs, ps) is Ok <==> cs.len() == 2 && is_one(
            cs[0],
        ) && is_one(cs[1]),
        node_kind(SpecForm::Branch, cs, ps) is Ok <==> (cs.len() == 2 || cs.len() == 3) && is_one(
            cs[0],
        ) && is_one(cs[1]) && (cs.len() == 3 ==> is_one(cs[2]) || may_be_absent(cs[2])),
        node_kind(SpecForm::Repeat, cs, ps) is Ok <==> cs.len() == 1 && is_one(cs[0]),
        node_kind(SpecForm::Scope { label_field: name }, cs, ps) is Ok <==> cs.len() == 1
            && is_one(cs[0]),
        node_kind(SpecForm::Maybe, cs, ps) is Ok <==> cs.len() == 1 && may_be_absent(cs[0]),
{
}

} // verus!
