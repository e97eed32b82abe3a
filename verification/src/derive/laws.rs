//! What holds of every plan.
use vstd::prelude::*;

use crate::check::ir::{SpecProgram, SpecSeqSlot, SpecTerm};
use crate::derive::check::{
    all_wired, check_plan, check_variant, fold_attribute, fold_entry, fold_field, fold_inner,
    fold_seed, wired,
};
use crate::derive::construct::{build_route, SpecBuildRoute};
use crate::derive::decl::{
    fold_from, SpecAttr, SpecField, SpecFields, SpecInput, SpecMeta, SpecVariant,
};
use crate::derive::dump::{dump_route, SpecDumpRoute};
use crate::derive::fact::{fact_vars, term_vars, terms_vars, SpecFactDecl, SpecTermDecl};
use crate::derive::meta::{entries_of, list_of};
use crate::derive::schema::{schema_field, SpecParts};

verus! {

/// Whether what is dumped along one route can be built along the other.
pub open spec fn mirrors(b: SpecBuildRoute, d: SpecDumpRoute) -> bool {
    match b {
        SpecBuildRoute::With { .. } => d is With,
        SpecBuildRoute::Child(k) => d == SpecDumpRoute::Child(k),
        SpecBuildRoute::ScalarMap { .. } => d is ScalarMap,
        SpecBuildRoute::Optional { .. } => d is Optional || d is With,
        SpecBuildRoute::Listed { .. } => d is Plain || d is With,
        SpecBuildRoute::Plain { .. } => d is Plain || d is With,
    }
}

/// A field that can be both built and dumped is routed alike both ways.
pub proof fn law_build_and_dump_mirror_each_other(
    f: SpecField,
    node: Seq<char>,
    b: SpecBuildRoute,
    d: SpecDumpRoute,
)
    requires
        build_route(f, node) == Ok::<SpecBuildRoute, Seq<char>>(b),
        dump_route(f, node) == Ok::<SpecDumpRoute, Seq<char>>(d),
    ensures
        mirrors(b, d),
{
}

/// How many of the fields from position `i` on are no identity.
pub open spec fn plain_fields(fs: Seq<SpecField>, i: int) -> int
    decreases fs.len() - i,
{
    if i < 0 || i >= fs.len() {
        0
    } else if fs[i].name == "id"@ {
        plain_fields(fs, i + 1)
    } else {
        1 + plain_fields(fs, i + 1)
    }
}

/// A schema describes every field of a variant once, as payload or as a
/// slot; only the identity is left out.
pub proof fn law_schema_covers_every_field(
    fs: Seq<SpecField>,
    i: int,
    vs: Seq<SpecVariant>,
    node: Seq<char>,
    from: SpecParts,
)
    requires
        0 <= i <= fs.len(),
    ensures
        fold_from(fs, i, from, schema_field(vs, node)) matches Ok(p) ==> p.fields.len()
            + p.children.len() == from.fields.len() + from.children.len() + plain_fields(fs, i),
    decreases fs.len() - i,
{
    if i < fs.len() {
        let step = schema_field(vs, node);
        if let Ok(next) = step(from, fs[i]) {
            law_schema_covers_every_field(fs, i + 1, vs, node, next);
        }
    }
}

/// Whether a term holds neither variables nor field references.
pub open spec fn is_ground(t: SpecTerm) -> bool
    decreases t, 0nat,
{
    match t {
        SpecTerm::Atom(_) => true,
        SpecTerm::Var(_) => false,
        SpecTerm::FieldRef(_) => false,
        SpecTerm::Ctor(_, args) => all_ground(args, args.len()),
    }
}

/// Whether the first `n` terms hold neither variables nor field references.
pub open spec fn all_ground(ts: Seq<SpecTerm>, n: nat) -> bool
    decreases ts, n,
{
    if n == 0 || n > ts.len() {
        true
    } else {
        all_ground(ts, (n - 1) as nat) && is_ground(ts[n - 1])
    }
}

proof fn lemma_wired_ground(t: SpecTermDecl)
    requires
        term_vars(t).len() == 0,
    ensures
        is_ground(wired(t, Seq::empty())),
    decreases t, 0nat,
{
    if let SpecTermDecl::Ctor(_, args) = t {
        lemma_all_wired_ground(args, args.len());
    }
}

proof fn lemma_all_wired_ground(ts: Seq<SpecTermDecl>, n: nat)
    requires
        n <= ts.len(),
        terms_vars(ts, n).len() == 0,
    ensures
        all_ground(all_wired(ts, Seq::empty()), n),
    decreases ts, n,
{
    if n > 0 {
        lemma_all_wired_ground(ts, (n - 1) as nat);
        lemma_wired_ground(ts[n - 1]);
    }
}

/// Whether a seed names no variable.
spec fn varless(s: Option<SpecFactDecl>) -> bool {
    s matches Some(f) ==> fact_vars(f).len() == 0
}

proof fn lemma_inner_varless(ms: Seq<SpecMeta>, i: int, s: Option<SpecFactDecl>)
    requires
        0 <= i <= ms.len(),
        varless(s),
    ensures
        fold_from(ms, i, s, fold_inner()) matches Ok(out) ==> varless(out),
    decreases ms.len() - i,
{
    if i < ms.len() {
        let step = fold_inner();
        if let Ok(next) = step(s, ms[i]) {
            lemma_inner_varless(ms, i + 1, next);
        }
    }
}

proof fn lemma_entries_varless(ms: Seq<SpecMeta>, i: int, s: Option<SpecFactDecl>)
    requires
        0 <= i <= ms.len(),
        varless(s),
    ensures
        fold_from(ms, i, s, fold_entry()) matches Ok(out) ==> varless(out),
    decreases ms.len() - i,
{
    if i < ms.len() {
        let step = fold_entry();
        if let Ok(list) = list_of(ms[i]) {
            lemma_inner_varless(list, 0, s);
        }
        if let Ok(next) = step(s, ms[i]) {
            lemma_entries_varless(ms, i + 1, next);
        }
    }
}

proof fn lemma_seed_varless(attrs: Seq<SpecAttr>, i: int, s: Option<SpecFactDecl>)
    requires
        0 <= i <= attrs.len(),
        varless(s),
    ensures
        fold_from(attrs, i, s, fold_attribute()) matches Ok(out) ==> varless(out),
    decreases attrs.len() - i,
{
    if i < attrs.len() {
        let step = fold_attribute();
        if let Ok(ms) = entries_of(attrs[i]) {
            lemma_entries_varless(ms, 0, s);
        }
        if let Ok(next) = step(s, attrs[i]) {
            lemma_seed_varless(attrs, i + 1, next);
        }
    }
}

/// Whether every fold among the slots starts from a ground fact.
pub open spec fn ground_seeds(slots: Seq<SpecSeqSlot>) -> bool {
    forall|i: int|
        0 <= i < slots.len() ==> all_ground(
            (#[trigger] slots[i]).initial.args,
            slots[i].initial.args.len(),
        )
}

proof fn lemma_fields_ground(
    fs: Seq<SpecField>,
    i: int,
    variant: Seq<char>,
    node: Seq<char>,
    done: Seq<SpecSeqSlot>,
)
    requires
        0 <= i <= fs.len(),
        ground_seeds(done),
    ensures
        fold_from(fs, i, done, fold_field(variant, node)) matches Ok(out) ==> ground_seeds(out),
    decreases fs.len() - i,
{
    if i < fs.len() {
        let step = fold_field(variant, node);
        lemma_seed_varless(fs[i].attrs, 0, None);
        if let Ok(Some(seed)) = fold_seed(fs[i].attrs) {
            lemma_all_wired_ground(seed.args, seed.args.len());
        }
        if let Ok(next) = step(done, fs[i]) {
            assert(ground_seeds(next));
            lemma_fields_ground(fs, i + 1, variant, node, next);
        }
    }
}

proof fn lemma_variants_ground(vs: Seq<SpecVariant>, i: int, node: Seq<char>, p: SpecProgram)
    requires
        0 <= i <= vs.len(),
        ground_seeds(p.seq_slots),
    ensures
        fold_from(vs, i, p, check_variant(node)) matches Ok(out) ==> ground_seeds(out.seq_slots),
    decreases vs.len() - i,
{
    if i < vs.len() {
        let step = check_variant(node);
        if let SpecFields::Named(fs) = vs[i].fields {
            lemma_fields_ground(fs, 0, vs[i].name, node, p.seq_slots);
        }
        if let Ok(next) = step(p, vs[i]) {
            lemma_variants_ground(vs, i + 1, node, next);
        }
    }
}

/// Every fold a language declares starts from a fact without variables:
/// nothing is bound before its first child.
pub proof fn law_fold_seeds_are_ground(input: SpecInput, p: SpecProgram)
    requires
        check_plan(input) == Ok::<SpecProgram, Seq<char>>(p),
    ensures
        ground_seeds(p.seq_slots),
{
    lemma_variants_ground(
        input.variants->0,
        0,
        input.name,
        SpecProgram { rules: Seq::empty(), seq_slots: Seq::empty() },
    );
}

} // verus!
