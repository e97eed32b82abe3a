//! The shape of the language.
use vstd::prelude::*;

use crate::derive::decl::{
    fold_from, SpecArgs, SpecField, SpecFields, SpecInput, SpecType, SpecVariant,
};
use crate::derive::schema::{
    scalar_decls, schema_field, schema_plan, schema_variant, slot_attrs, SpecParts, SpecSlotAttrs,
};
use crate::derive::shape::{recursion, Recursion};
use crate::derive::spelling::law_one_word_is_tidy;
use crate::refdsl::Ref;
use crate::schema::{
    payloads_view, shorthands_view, slots_view, variant_schemas_view, ChildSchema, ChildValueShape,
    DslSchema, FieldSchema, Multiplicity, NodeSchema, SpecChildSchema, SpecFieldSchema, SpecSchema,
    SpecValueShape, SpecVariantSchema, VariantSchema,
};

verus! {

/// A payload field that is always there.
pub open spec fn payload_field(name: Seq<char>, ty: Seq<char>) -> SpecFieldSchema {
    SpecFieldSchema { name, ty, optional: false }
}

/// A slot for one node.
pub open spec fn operand(name: Seq<char>) -> SpecChildSchema {
    SpecChildSchema {
        name,
        multiplicity: Multiplicity::One,
        value_shape: SpecValueShape::Recursive,
        scalar_shorthands: Seq::empty(),
        non_empty: false,
    }
}

/// The slots of these names.
pub open spec fn operands(names: Seq<Seq<char>>) -> Seq<SpecChildSchema> {
    Seq::new(names.len(), |i: int| operand(names[i]))
}

/// The shape of one variant.
pub open spec fn shaped(
    name: Seq<char>,
    fields: Seq<SpecFieldSchema>,
    slots: Seq<Seq<char>>,
) -> SpecVariantSchema {
    SpecVariantSchema { name, fields, children: operands(slots) }
}

/// The shape of the language.
pub open spec fn ref_schema() -> SpecSchema {
    SpecSchema {
        name: "Ref"@,
        variants: seq![
            shaped("Lit"@, seq![payload_field("value"@, "i64"@)], seq![]),
            shaped("Var"@, seq![payload_field("name"@, "String"@)], seq![]),
            shaped("Add"@, seq![], seq!["lhs"@, "rhs"@]),
            shaped("Mul"@, seq![], seq!["lhs"@, "rhs"@]),
            shaped("Let"@, seq![payload_field("name"@, "String"@)], seq!["value"@, "body"@]),
            shaped("If"@, seq![], seq!["cond"@, "then_branch"@, "else_branch"@]),
        ],
    }
}

fn payload(name: &str, ty: &str) -> (out: FieldSchema)
    ensures
        out@ == payload_field(name@, ty@),
{
    FieldSchema { name: name.to_owned(), ty: ty.to_owned(), optional: false }
}

fn slot(name: &str) -> (out: ChildSchema)
    ensures
        out@ == operand(name@),
{
    let out = ChildSchema {
        name: name.to_owned(),
        multiplicity: Multiplicity::One,
        value_shape: ChildValueShape::Recursive,
        scalar_shorthands: Vec::new(),
        non_empty: false,
    };
    assert(shorthands_view(out.scalar_shorthands@) =~= Seq::empty());
    out
}

impl DslSchema for Ref {
    open spec fn schema_spec() -> SpecSchema {
        ref_schema()
    }

    fn schema() -> (out: NodeSchema) {
        let lit = VariantSchema {
            name: "Lit".to_owned(),
            fields: vec![payload("value", "i64")],
            children: Vec::new(),
        };
        let var = VariantSchema {
            name: "Var".to_owned(),
            fields: vec![payload("name", "String")],
            children: Vec::new(),
        };
        let sum = VariantSchema {
            name: "Add".to_owned(),
            fields: Vec::new(),
            children: vec![slot("lhs"), slot("rhs")],
        };
        let product = VariantSchema {
            name: "Mul".to_owned(),
            fields: Vec::new(),
            children: vec![slot("lhs"), slot("rhs")],
        };
        let binding = VariantSchema {
            name: "Let".to_owned(),
            fields: vec![payload("name", "String")],
            children: vec![slot("value"), slot("body")],
        };
        let choice = VariantSchema {
            name: "If".to_owned(),
            fields: Vec::new(),
            children: vec![slot("cond"), slot("then_branch"), slot("else_branch")],
        };
        let want = Ghost(ref_schema().variants);
        assert(payloads_view(lit.fields@) =~= want@[0].fields);
        assert(slots_view(lit.children@) =~= want@[0].children);
        assert(payloads_view(var.fields@) =~= want@[1].fields);
        assert(slots_view(var.children@) =~= want@[1].children);
        assert(payloads_view(sum.fields@) =~= want@[2].fields);
        assert(slots_view(sum.children@) =~= want@[2].children);
        assert(payloads_view(product.fields@) =~= want@[3].fields);
        assert(slots_view(product.children@) =~= want@[3].children);
        assert(payloads_view(binding.fields@) =~= want@[4].fields);
        assert(slots_view(binding.children@) =~= want@[4].children);
        assert(payloads_view(choice.fields@) =~= want@[5].fields);
        assert(slots_view(choice.children@) =~= want@[5].children);
        let out = NodeSchema {
            name: "Ref".to_owned(),
            variants: vec![lit, var, sum, product, binding, choice],
        };
        assert(variant_schemas_view(out.variants@) =~= want@);
        out
    }
}

/// A type that is a bare name.
pub open spec fn bare_type(name: Seq<char>) -> SpecType {
    SpecType::Named { name, args: SpecArgs::Absent, text: name }
}

/// The type of a boxed node.
pub open spec fn boxed_node() -> SpecType {
    SpecType::Named {
        name: "Box"@,
        args: SpecArgs::Angle(seq![Some(bare_type("Ref"@))]),
        text: "Box < Ref >"@,
    }
}

/// A field without annotations.
pub open spec fn declared_field(name: Seq<char>, ty: SpecType) -> SpecField {
    SpecField { name, ty, attrs: Seq::empty() }
}

/// A variant with an identity, these payload fields and these boxed nodes.
pub open spec fn declared(
    name: Seq<char>,
    fields: Seq<(Seq<char>, Seq<char>)>,
    slots: Seq<Seq<char>>,
) -> SpecVariant {
    let id = seq![declared_field("id"@, bare_type("NodeId"@))];
    let plain = Seq::new(fields.len(), |i: int| declared_field(fields[i].0, bare_type(fields[i].1)));
    let nodes = Seq::new(slots.len(), |i: int| declared_field(slots[i], boxed_node()));
    SpecVariant { name, fields: SpecFields::Named(id + plain + nodes), attrs: Seq::empty() }
}

/// The declaration of [`Ref`].
pub open spec fn ref_declaration() -> SpecInput {
    SpecInput {
        name: "Ref"@,
        attrs: Seq::empty(),
        variants: Some(
            seq![
                declared("Lit"@, seq![("value"@, "i64"@)], seq![]),
                declared("Var"@, seq![("name"@, "String"@)], seq![]),
                declared("Add"@, seq![], seq!["lhs"@, "rhs"@]),
                declared("Mul"@, seq![], seq!["lhs"@, "rhs"@]),
                declared("Let"@, seq![("name"@, "String"@)], seq!["value"@, "body"@]),
                declared("If"@, seq![], seq!["cond"@, "then_branch"@, "else_branch"@]),
            ],
        ),
    }
}

/// A boxed node is a slot.
proof fn lemma_slot_field(p: SpecParts, name: Seq<char>, vs: Seq<SpecVariant>)
    requires
        name != "id"@,
    ensures
        schema_field(vs, "Ref"@)(p, declared_field(name, boxed_node())) == Ok::<
            SpecParts,
            Seq<char>,
        >(SpecParts { fields: p.fields, children: p.children.push(operand(name)) }),
{
    reveal_strlit("Box");
    reveal_strlit("Ref");
    reveal_strlit("BTreeMap");
    assert("Box"@[0] != "Ref"@[0]);
    assert("Box"@.len() != "BTreeMap"@.len());
    assert(slot_attrs(Seq::empty()) == Ok::<SpecSlotAttrs, Seq<char>>(
        SpecSlotAttrs { scalars: Seq::empty(), non_empty: false },
    ));
    assert(recursion(boxed_node(), "Ref"@) == Some(Recursion::Boxed));
    assert(scalar_decls(Seq::empty(), vs, "Ref"@) is Ok);
}

/// A bare type that is no node is a payload.
proof fn lemma_payload_field(p: SpecParts, name: Seq<char>, ty: Seq<char>, vs: Seq<SpecVariant>)
    requires
        name != "id"@,
        ty == "i64"@ || ty == "String"@,
    ensures
        schema_field(vs, "Ref"@)(p, declared_field(name, bare_type(ty))) == Ok::<
            SpecParts,
            Seq<char>,
        >(SpecParts { fields: p.fields.push(payload_field(name, ty)), children: p.children }),
{
    reveal_strlit("Box");
    reveal_strlit("Ref");
    reveal_strlit("BTreeMap");
    reveal_strlit("i64");
    reveal_strlit("String");
    law_one_word_is_tidy(ty);
}

/// The payload fields of these names and types.
pub open spec fn payload_fields(fields: Seq<(Seq<char>, Seq<char>)>) -> Seq<SpecFieldSchema> {
    Seq::new(fields.len(), |i: int| payload_field(fields[i].0, fields[i].1))
}

proof fn lemma_slots(
    fs: Seq<SpecField>,
    slots: Seq<Seq<char>>,
    j: int,
    p: SpecParts,
    vs: Seq<SpecVariant>,
)
    requires
        0 <= j <= slots.len() <= fs.len(),
        forall|i: int| 0 <= i < slots.len() ==> #[trigger] slots[i] != "id"@,
        forall|i: int|
            0 <= i < slots.len() ==> fs[fs.len() - slots.len() + i] == declared_field(
                #[trigger] slots[i],
                boxed_node(),
            ),
    ensures
        fold_from(fs, fs.len() - slots.len() + j, p, schema_field(vs, "Ref"@)) == Ok::<
            SpecParts,
            Seq<char>,
        >(SpecParts { fields: p.fields, children: p.children + operands(slots.skip(j)) }),
    decreases slots.len() - j,
{
    if j < slots.len() {
        let name = slots[j];
        lemma_slot_field(p, name, vs);
        let next = SpecParts { fields: p.fields, children: p.children.push(operand(name)) };
        lemma_slots(fs, slots, j + 1, next, vs);
        assert(p.children + operands(slots.skip(j)) =~= next.children + operands(
            slots.skip(j + 1),
        ));
    } else {
        assert(p.children + operands(slots.skip(j)) =~= p.children);
    }
}

proof fn lemma_fields(
    fs: Seq<SpecField>,
    fields: Seq<(Seq<char>, Seq<char>)>,
    slots: Seq<Seq<char>>,
    j: int,
    p: SpecParts,
    vs: Seq<SpecVariant>,
)
    requires
        0 <= j <= fields.len(),
        fs.len() == 1 + fields.len() + slots.len(),
        forall|i: int|
            0 <= i < fields.len() ==> (#[trigger] fields[i]).0 != "id"@ && (fields[i].1 == "i64"@
                || fields[i].1 == "String"@) && fs[1 + i] == declared_field(
                fields[i].0,
                bare_type(fields[i].1),
            ),
        forall|i: int| 0 <= i < slots.len() ==> #[trigger] slots[i] != "id"@,
        forall|i: int|
            0 <= i < slots.len() ==> fs[fs.len() - slots.len() + i] == declared_field(
                #[trigger] slots[i],
                boxed_node(),
            ),
    ensures
        fold_from(fs, 1 + j, p, schema_field(vs, "Ref"@)) == Ok::<SpecParts, Seq<char>>(
            SpecParts {
                fields: p.fields + payload_fields(fields.skip(j)),
                children: p.children + operands(slots),
            },
        ),
    decreases fields.len() - j,
{
    if j < fields.len() {
        let (name, ty) = fields[j];
        lemma_payload_field(p, name, ty, vs);
        let next = SpecParts {
            fields: p.fields.push(payload_field(name, ty)),
            children: p.children,
        };
        lemma_fields(fs, fields, slots, j + 1, next, vs);
        assert(p.fields + payload_fields(fields.skip(j)) =~= next.fields + payload_fields(
            fields.skip(j + 1),
        ));
    } else {
        lemma_slots(fs, slots, 0, p, vs);
        assert(slots.skip(0) =~= slots);
        assert(p.fields + payload_fields(fields.skip(j)) =~= p.fields);
    }
}

proof fn lemma_variant(
    done: Seq<SpecVariantSchema>,
    name: Seq<char>,
    fields: Seq<(Seq<char>, Seq<char>)>,
    slots: Seq<Seq<char>>,
    vs: Seq<SpecVariant>,
)
    requires
        forall|i: int|
            0 <= i < fields.len() ==> (#[trigger] fields[i]).0 != "id"@ && (fields[i].1 == "i64"@
                || fields[i].1 == "String"@),
        forall|i: int| 0 <= i < slots.len() ==> #[trigger] slots[i] != "id"@,
    ensures
        schema_variant(vs, "Ref"@)(done, declared(name, fields, slots)) == Ok::<
            Seq<SpecVariantSchema>,
            Seq<char>,
        >(done.push(shaped(name, payload_fields(fields), slots))),
{
    let fs = declared(name, fields, slots).fields->Named_0;
    let none = SpecParts { fields: Seq::empty(), children: Seq::empty() };
    lemma_fields(fs, fields, slots, 0, none, vs);
    assert(fields.skip(0) =~= fields);
    assert(none.fields + payload_fields(fields) =~= payload_fields(fields));
    assert(none.children + operands(slots) =~= operands(slots));
    assert(fs[0] == declared_field("id"@, bare_type("NodeId"@)));
}

/// The shape of the language is the one derived from its declaration.
pub proof fn law_the_shape_is_the_derived_one()
    ensures
        schema_plan(ref_declaration()) == Ok::<SpecSchema, Seq<char>>(ref_schema()),
{
    reveal_strlit("id");
    reveal_strlit("value");
    reveal_strlit("name");
    reveal_strlit("lhs");
    reveal_strlit("rhs");
    reveal_strlit("body");
    reveal_strlit("cond");
    reveal_strlit("then_branch");
    reveal_strlit("else_branch");
    assert("id"@.len() == 2);
    assert("value"@.len() == 5 && "name"@.len() == 4);
    assert("lhs"@.len() == 3 && "rhs"@.len() == 3);
    assert("body"@.len() == 4 && "cond"@.len() == 4);
    assert("then_branch"@.len() == 11 && "else_branch"@.len() == 11);
    let vs = ref_declaration().variants->Some_0;
    let want = ref_schema().variants;
    let step = schema_variant(vs, "Ref"@);
    let number = seq![("value"@, "i64"@)];
    let named = seq![("name"@, "String"@)];
    let none = Seq::<(Seq<char>, Seq<char>)>::empty();
    let two = seq!["lhs"@, "rhs"@];
    assert(payload_fields(number) =~= seq![payload_field("value"@, "i64"@)]);
    assert(payload_fields(named) =~= seq![payload_field("name"@, "String"@)]);
    assert(payload_fields(none) =~= Seq::empty());
    lemma_variant(want.take(0), "Lit"@, number, seq![], vs);
    lemma_variant(want.take(1), "Var"@, named, seq![], vs);
    lemma_variant(want.take(2), "Add"@, none, two, vs);
    lemma_variant(want.take(3), "Mul"@, none, two, vs);
    lemma_variant(want.take(4), "Let"@, named, seq!["value"@, "body"@], vs);
    lemma_variant(want.take(5), "If"@, none, seq!["cond"@, "then_branch"@, "else_branch"@], vs);
    assert(want.take(0) =~= Seq::empty());
    assert(want.take(6) =~= want);
    assert forall|i: int| 0 <= i < 6 implies #[trigger] want.take(i).push(want[i]) == want.take(
        i + 1,
    ) by {
        assert(want.take(i).push(want[i]) =~= want.take(i + 1));
    }
    assert(step(want.take(0), vs[0]) == Ok::<Seq<SpecVariantSchema>, Seq<char>>(want.take(1)));
    assert(step(want.take(1), vs[1]) == Ok::<Seq<SpecVariantSchema>, Seq<char>>(want.take(2)));
    assert(step(want.take(2), vs[2]) == Ok::<Seq<SpecVariantSchema>, Seq<char>>(want.take(3)));
    assert(step(want.take(3), vs[3]) == Ok::<Seq<SpecVariantSchema>, Seq<char>>(want.take(4)));
    assert(step(want.take(4), vs[4]) == Ok::<Seq<SpecVariantSchema>, Seq<char>>(want.take(5)));
    assert(step(want.take(5), vs[5]) == Ok::<Seq<SpecVariantSchema>, Seq<char>>(want.take(6)));
    assert(fold_from(vs, 6, want.take(6), step) == Ok::<Seq<SpecVariantSchema>, Seq<char>>(want));
    assert(fold_from(vs, 5, want.take(5), step) == Ok::<Seq<SpecVariantSchema>, Seq<char>>(want));
    assert(fold_from(vs, 4, want.take(4), step) == Ok::<Seq<SpecVariantSchema>, Seq<char>>(want));
    assert(fold_from(vs, 3, want.take(3), step) == Ok::<Seq<SpecVariantSchema>, Seq<char>>(want));
    assert(fold_from(vs, 2, want.take(2), step) == Ok::<Seq<SpecVariantSchema>, Seq<char>>(want));
    assert(fold_from(vs, 1, want.take(1), step) == Ok::<Seq<SpecVariantSchema>, Seq<char>>(want));
    assert(fold_from(vs, 0, want.take(0), step) == Ok::<Seq<SpecVariantSchema>, Seq<char>>(want));
}

} // verus!
