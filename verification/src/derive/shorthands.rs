//! What slot annotations declare, and what they are refused for.
use vstd::prelude::*;

use crate::derive::decl::{
    fold_from, type_text, SpecAttr, SpecField, SpecFields, SpecMeta, SpecMetaValue, SpecVariant,
};
use crate::derive::meta::{keyed, list_of, path_of};
use crate::derive::schema::{
    field_named, node_slot, scalar_decl, scalar_decls, scalar_entry, scalar_kind, slot_attribute,
    slot_attrs, slot_entry, takes, target_fault, variant_named, SpecSlotAttrs,
};
use crate::derive::shape::{normalized, recursion, Recursion};
use crate::schema::{ScalarKind, SpecShorthand};

verus! {

/// The names of the integer types.
pub open spec fn int_types() -> Seq<Seq<char>> {
    seq![
        "i8"@,
        "i16"@,
        "i32"@,
        "i64"@,
        "i128"@,
        "isize"@,
        "u8"@,
        "u16"@,
        "u32"@,
        "u64"@,
        "u128"@,
        "usize"@,
    ]
}

/// A text can go into a `String`, a truth value into a `bool`, and a number
/// into any integer type; nothing can go anywhere else.
pub proof fn law_scalars_go_where_they_fit(ty: Seq<char>)
    ensures
        takes(ScalarKind::Str, ty) <==> ty == "String"@,
        takes(ScalarKind::Bool, ty) <==> ty == "bool"@,
        takes(ScalarKind::Int, ty) <==> int_types().contains(ty),
{
    let all = int_types();
    assert(all[0] == "i8"@);
    assert(all[1] == "i16"@);
    assert(all[2] == "i32"@);
    assert(all[3] == "i64"@);
    assert(all[4] == "i128"@);
    assert(all[5] == "isize"@);
    assert(all[6] == "u8"@);
    assert(all[7] == "u16"@);
    assert(all[8] == "u32"@);
    assert(all[9] == "u64"@);
    assert(all[10] == "u128"@);
    assert(all[11] == "usize"@);
    if takes(ScalarKind::Int, ty) {
        assert(all.contains(ty));
    }
}

/// Whether a variant is the first of its name.
pub open spec fn first_variant(vs: Seq<SpecVariant>, name: Seq<char>, i: int) -> bool {
    0 <= i < vs.len() && vs[i].name == name && forall|j: int|
        0 <= j < i ==> (#[trigger] vs[j]).name != name
}

/// Whether a field is the first of its name.
pub open spec fn first_field(fs: Seq<SpecField>, name: Seq<char>, i: int) -> bool {
    0 <= i < fs.len() && fs[i].name == name && forall|j: int|
        0 <= j < i ==> (#[trigger] fs[j]).name != name
}

proof fn lemma_variant_named(vs: Seq<SpecVariant>, name: Seq<char>, i: int)
    requires
        0 <= i <= vs.len(),
        forall|j: int| 0 <= j < i ==> (#[trigger] vs[j]).name != name,
    ensures
        match variant_named(vs, name, i) {
            Some(v) => exists|k: int| #[trigger] first_variant(vs, name, k) && vs[k] == v,
            None => forall|k: int| !#[trigger] first_variant(vs, name, k),
        },
    decreases vs.len() - i,
{
    if i < vs.len() {
        if vs[i].name == name {
            assert(first_variant(vs, name, i));
        } else {
            lemma_variant_named(vs, name, i + 1);
        }
    }
}

proof fn lemma_field_named(fs: Seq<SpecField>, name: Seq<char>, i: int)
    requires
        0 <= i <= fs.len(),
        forall|j: int| 0 <= j < i ==> (#[trigger] fs[j]).name != name,
    ensures
        match field_named(fs, name, i) {
            Some(f) => exists|k: int| #[trigger] first_field(fs, name, k) && fs[k] == f,
            None => forall|k: int| !#[trigger] first_field(fs, name, k),
        },
    decreases fs.len() - i,
{
    if i < fs.len() {
        if fs[i].name == name {
            assert(first_field(fs, name, i));
        } else {
            lemma_field_named(fs, name, i + 1);
        }
    }
}

/// Whether a shorthand goes into a field of a variant: a payload that its
/// kind fits.
pub open spec fn goes_into(
    d: SpecShorthand,
    vs: Seq<SpecVariant>,
    node: Seq<char>,
    i: int,
    k: int,
) -> bool {
    first_variant(vs, d.variant, i) && (vs[i].fields matches SpecFields::Named(fs) && first_field(
        fs,
        d.field,
        k,
    ) && d.field != "id"@ && recursion(fs[k].ty, node) is None && takes(
        d.kind,
        normalized(type_text(fs[k].ty)),
    ))
}

/// A shorthand is accepted exactly where it names a payload field, of a
/// variant with named fields, that its kind fits.
pub proof fn law_shorthands_name_payloads_that_fit(
    d: SpecShorthand,
    vs: Seq<SpecVariant>,
    node: Seq<char>,
)
    ensures
        target_fault(d, vs, node) is None <==> exists|i: int, k: int|
            #[trigger] goes_into(d, vs, node, i, k),
{
    lemma_variant_named(vs, d.variant, 0);
    match variant_named(vs, d.variant, 0) {
        None => {},
        Some(v) => {
            let i = choose|i: int| #[trigger] first_variant(vs, d.variant, i) && vs[i] == v;
            assert forall|j: int| #[trigger] first_variant(vs, d.variant, j) implies j == i by {
                if j < i {
                    assert(vs[j].name == d.variant);
                }
                if i < j {
                    assert(vs[i].name == d.variant);
                }
            }
            if let SpecFields::Named(fs) = v.fields {
                lemma_field_named(fs, d.field, 0);
                if let Some(f) = field_named(fs, d.field, 0) {
                    let k = choose|k: int| #[trigger] first_field(fs, d.field, k) && fs[k] == f;
                    assert forall|j: int| #[trigger] first_field(fs, d.field, j) implies j
                        == k by {
                        if j < k {
                            assert(fs[j].name == d.field);
                        }
                        if k < j {
                            assert(fs[k].name == d.field);
                        }
                    }
                    if target_fault(d, vs, node) is None {
                        assert(goes_into(d, vs, node, i, k));
                    }
                }
            }
        },
    }
}

proof fn lemma_decls(
    decls: Seq<SpecShorthand>,
    i: int,
    seen: Seq<ScalarKind>,
    vs: Seq<SpecVariant>,
    node: Seq<char>,
)
    requires
        0 <= i <= decls.len(),
        forall|kind: ScalarKind| #[trigger]
            seen.contains(kind) <==> exists|j: int| 0 <= j < i && (#[trigger] decls[j]).kind == kind,
    ensures
        fold_from(decls, i, seen, scalar_decl(vs, node)) is Ok <==> forall|k: int|
            i <= k < decls.len() ==> target_fault(#[trigger] decls[k], vs, node) is None && forall|
                j: int,
            |
                0 <= j < k ==> (#[trigger] decls[j]).kind != decls[k].kind,
    decreases decls.len() - i,
{
    if i < decls.len() {
        let d = decls[i];
        let r = scalar_decl(vs, node)(seen, d);
        assert(r is Ok <==> !seen.contains(d.kind) && target_fault(d, vs, node) is None);
        if r is Ok {
            let next = r->Ok_0;
            assert(next == seen.push(d.kind));
            assert forall|kind: ScalarKind| #[trigger] next.contains(kind) <==> exists|j: int|
                0 <= j < i + 1 && (#[trigger] decls[j]).kind == kind by {
                if next.contains(kind) {
                    let q = choose|q: int| 0 <= q < next.len() && next[q] == kind;
                    if q < seen.len() {
                        assert(seen[q] == kind);
                        assert(seen.contains(kind));
                    } else {
                        assert(decls[i].kind == kind);
                    }
                }
                if exists|j: int| 0 <= j < i + 1 && (#[trigger] decls[j]).kind == kind {
                    let j = choose|j: int| 0 <= j < i + 1 && (#[trigger] decls[j]).kind == kind;
                    if j < i {
                        assert(seen.contains(kind));
                        let q = choose|q: int| 0 <= q < seen.len() && seen[q] == kind;
                        assert(next[q] == kind);
                    } else {
                        assert(next[seen.len() as int] == kind);
                    }
                }
            }
            lemma_decls(decls, i + 1, next, vs, node);
        } else if seen.contains(d.kind) {
            let j = choose|j: int| 0 <= j < i && (#[trigger] decls[j]).kind == d.kind;
            assert(decls[j].kind == decls[i].kind);
        }
    }
}

/// The shorthands of a slot are accepted exactly where each is, and no two are
/// of one kind.
pub proof fn law_shorthands_are_of_different_kinds(
    decls: Seq<SpecShorthand>,
    vs: Seq<SpecVariant>,
    node: Seq<char>,
)
    ensures
        scalar_decls(decls, vs, node) is Ok <==> forall|k: int|
            0 <= k < decls.len() ==> target_fault(#[trigger] decls[k], vs, node) is None && forall|
                j: int,
            |
                0 <= j < k ==> (#[trigger] decls[j]).kind != decls[k].kind,
{
    lemma_decls(decls, 0, Seq::empty(), vs, node);
}

/// Whether a kind of slot holds any number of nodes.
pub open spec fn is_collection(kind: Recursion) -> bool {
    kind == Recursion::Many || kind == Recursion::ManyBoxed || kind == Recursion::Keyed || kind
        == Recursion::KeyedBoxed
}

/// Shorthands are for slots of at most one node and the demand not to be empty
/// for collections; a slot is refused for the opposite, for annotations that
/// cannot be read and for shorthands that are not accepted, and for nothing
/// else.
pub proof fn law_slots_take_the_annotations_that_suit_them(
    f: SpecField,
    kind: Recursion,
    vs: Seq<SpecVariant>,
    node: Seq<char>,
)
    ensures
        node_slot(f, kind, vs, node) is Ok <==> (slot_attrs(f.attrs) matches Ok(s) && (
        s.scalars.len() > 0 ==> !is_collection(kind)) && (s.non_empty ==> is_collection(kind))
            && scalar_decls(s.scalars, vs, node) is Ok),
        node_slot(f, kind, vs, node) matches Ok(c) ==> c.name == f.name && slot_attrs(
            f.attrs,
        ) == Ok::<SpecSlotAttrs, Seq<char>>(
            SpecSlotAttrs { scalars: c.scalar_shorthands, non_empty: c.non_empty },
        ),
{
}

/// The shorthand that an entry declares.
pub open spec fn shorthand_in(m: SpecMeta) -> SpecShorthand {
    SpecShorthand {
        kind: scalar_kind(m.key)->Some_0,
        variant: path_of(m)->Ok_0.segments[0],
        field: path_of(m)->Ok_0.segments[1],
    }
}

/// The shorthands that entries declare from position `i` on, in order.
pub open spec fn shorthands_in(ms: Seq<SpecMeta>, i: int) -> Seq<SpecShorthand>
    decreases ms.len() - i,
{
    if i < 0 || i >= ms.len() {
        Seq::empty()
    } else {
        (match ms[i].value {
            SpecMetaValue::List(inner) => if keyed(ms[i], "scalar"@) {
                inner.map_values(|m: SpecMeta| shorthand_in(m))
            } else {
                Seq::empty()
            },
            _ => Seq::empty(),
        }) + shorthands_in(ms, i + 1)
    }
}

/// Whether some entry from position `i` on demands not to be empty.
pub open spec fn demands(ms: Seq<SpecMeta>, i: int) -> bool {
    exists|k: int| i <= k < ms.len() && keyed(#[trigger] ms[k], "non_empty"@)
}

proof fn lemma_scalars(ms: Seq<SpecMeta>, i: int, s: SpecSlotAttrs)
    requires
        0 <= i <= ms.len(),
    ensures
        fold_from(ms, i, s, scalar_entry()) matches Ok(out) ==> out.scalars == s.scalars
            + ms.map_values(|m: SpecMeta| shorthand_in(m)).subrange(i, ms.len() as int)
            && out.non_empty == s.non_empty,
    decreases ms.len() - i,
{
    let all = ms.map_values(|m: SpecMeta| shorthand_in(m));
    if i < ms.len() {
        let r = scalar_entry()(s, ms[i]);
        if r is Ok {
            let next = r->Ok_0;
            lemma_scalars(ms, i + 1, next);
            assert(next.scalars == s.scalars.push(all[i]));
            assert(next.scalars + all.subrange(i + 1, ms.len() as int) =~= s.scalars
                + all.subrange(i, ms.len() as int));
        }
    } else {
        assert(s.scalars + all.subrange(i, ms.len() as int) =~= s.scalars);
    }
}

proof fn lemma_slot_entries(ms: Seq<SpecMeta>, i: int, s: SpecSlotAttrs)
    requires
        0 <= i <= ms.len(),
    ensures
        fold_from(ms, i, s, slot_entry()) matches Ok(out) ==> out.scalars == s.scalars
            + shorthands_in(ms, i) && (out.non_empty <==> s.non_empty || demands(ms, i)),
    decreases ms.len() - i,
{
    reveal_strlit("non_empty");
    reveal_strlit("scalar");
    assert("non_empty"@[0] == 'n');
    assert("scalar"@[0] == 's');
    if i < ms.len() {
        let m = ms[i];
        let r = slot_entry()(s, m);
        if r is Ok {
            let next = r->Ok_0;
            lemma_slot_entries(ms, i + 1, next);
            if keyed(m, "non_empty"@) {
                assert(keyed(ms[i], "non_empty"@));
                assert(next.scalars + shorthands_in(ms, i + 1) =~= s.scalars + shorthands_in(
                    ms,
                    i,
                ));
            } else {
                let inner = list_of(m)->Ok_0;
                lemma_scalars(inner, 0, s);
                let told = inner.map_values(|m: SpecMeta| shorthand_in(m));
                assert(told.subrange(0, inner.len() as int) =~= told);
                assert(next.scalars + shorthands_in(ms, i + 1) =~= s.scalars + shorthands_in(
                    ms,
                    i,
                ));
            }
            if demands(ms, i) {
                let k = choose|k: int| i <= k < ms.len() && keyed(#[trigger] ms[k], "non_empty"@);
                if k > i {
                    assert(demands(ms, i + 1));
                }
            }
        }
    } else {
        assert(s.scalars + shorthands_in(ms, i) =~= s.scalars);
    }
}

/// An annotation adds the shorthands that its entries declare, in order, and
/// the demand not to be empty where an entry makes it; annotations of other
/// names add nothing.
pub proof fn law_slot_annotations_are_taken_entry_by_entry(a: SpecAttr, s: SpecSlotAttrs)
    ensures
        a.name != "dsl_schema"@ ==> slot_attribute()(s, a) == Ok::<SpecSlotAttrs, Seq<char>>(s),
        a.name == "dsl_schema"@ ==> (slot_attribute()(s, a) matches Ok(out) ==> (
        a.metas matches Some(ms) && out.scalars == s.scalars + shorthands_in(ms, 0) && (
        out.non_empty <==> s.non_empty || demands(ms, 0)))),
{
    if let Some(ms) = a.metas {
        lemma_slot_entries(ms, 0, s);
    }
}

} // verus!
