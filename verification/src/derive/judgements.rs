//! A variant's rule says what its annotations say.
use vstd::prelude::*;

use crate::check::codes::{CHECK_STATE_MISMATCH, CHECK_TYPE_MISMATCH};
use crate::check::ir::{SeqMode, SpecPremise, SpecProgram, SpecRule, SpecSeqSlot, SpecTerm};
use crate::derive::check::{
    all_wired, attrs_fault, bind_entry, binds_fault, bound_field, check_attribute, check_attrs,
    check_entry, check_plan, check_variant, distinct, fold_field, fold_seed, has_attr, has_state,
    has_value, judgement, mentioned, no_attrs, opt_vars, planned_rule, premise_fact, premise_vars,
    premises_fault, slot_premise, unused_bind, wired, wired_fact, SpecBind, SpecCheckAttrs,
    SpecPremiseDecl,
};
use crate::derive::decl::{
    fold_from, SpecAttr, SpecField, SpecInput, SpecMeta, SpecMetaValue, SpecVariant,
};
use crate::derive::fact::{fact_vars, term_vars, terms_vars, SpecFactDecl, SpecTermDecl};
use crate::derive::meta::{entries_of, keyed, list_of, text_of};
use crate::derive::schema::field_named;
use crate::derive::shape::{recursion, Recursion};

verus! {

/// The part of a declared term at the end of a way.
pub open spec fn decl_at(t: SpecTermDecl, way: Seq<int>) -> Option<SpecTermDecl>
    decreases way.len(),
{
    if way.len() == 0 {
        Some(t)
    } else {
        match t {
            SpecTermDecl::Ctor(_, args) => if 0 <= way[0] < args.len() {
                decl_at(args[way[0]], way.subrange(1, way.len() as int))
            } else {
                None
            },
            _ => None,
        }
    }
}

/// The part of a term at the end of a way.
pub open spec fn part_at(t: SpecTerm, way: Seq<int>) -> Option<SpecTerm>
    decreases way.len(),
{
    if way.len() == 0 {
        Some(t)
    } else {
        match t {
            SpecTerm::Ctor(_, args) => if 0 <= way[0] < args.len() {
                part_at(args[way[0]], way.subrange(1, way.len() as int))
            } else {
                None
            },
            _ => None,
        }
    }
}

/// Whether a binding is the first for its variable.
pub open spec fn binds_first(bs: Seq<SpecBind>, i: int, var: Seq<char>) -> bool {
    0 <= i < bs.len() && bs[i].var == var && forall|j: int|
        0 <= j < i ==> (#[trigger] bs[j]).var != var
}

proof fn lemma_bound(bs: Seq<SpecBind>, var: Seq<char>, i: int, k: int)
    requires
        0 <= i <= k,
        binds_first(bs, k, var),
    ensures
        bound_field(bs, var, i) == Some(bs[k].field),
    decreases k - i,
{
    if i < k {
        assert(bs[i].var != var);
        lemma_bound(bs, var, i + 1, k);
    }
}

proof fn lemma_unbound(bs: Seq<SpecBind>, var: Seq<char>, i: int)
    requires
        0 <= i <= bs.len(),
        forall|j: int| 0 <= j < bs.len() ==> (#[trigger] bs[j]).var != var,
    ensures
        bound_field(bs, var, i) is None,
    decreases bs.len() - i,
{
    if i < bs.len() {
        assert(bs[i].var != var);
        lemma_unbound(bs, var, i + 1);
    }
}

/// A declared term keeps its shape: at the end of every way stands what was
/// declared there, but that a variable bound to a field reads that field.
pub proof fn law_bound_variables_read_their_fields(
    t: SpecTermDecl,
    bs: Seq<SpecBind>,
    way: Seq<int>,
    i: int,
)
    ensures
        decl_at(t, way) is None <==> part_at(wired(t, bs), way) is None,
        decl_at(t, way) matches Some(SpecTermDecl::Atom(n)) ==> part_at(wired(t, bs), way) == Some(
            SpecTerm::Atom(n),
        ),
        decl_at(t, way) matches Some(SpecTermDecl::Var(n)) ==> binds_first(bs, i, n) ==> part_at(
            wired(t, bs),
            way,
        ) == Some(SpecTerm::FieldRef(bs[i].field)),
        decl_at(t, way) matches Some(SpecTermDecl::Var(n)) ==> (forall|j: int|
            0 <= j < bs.len() ==> (#[trigger] bs[j]).var != n) ==> part_at(wired(t, bs), way)
            == Some(SpecTerm::Var(n)),
        decl_at(t, way) matches Some(SpecTermDecl::Ctor(n, args)) ==> part_at(wired(t, bs), way)
            matches Some(SpecTerm::Ctor(m, us)) && m == n && us.len() == args.len(),
    decreases way.len(),
{
    if way.len() == 0 {
        if let SpecTermDecl::Var(n) = t {
            if binds_first(bs, i, n) {
                lemma_bound(bs, n, 0, i);
            }
            if forall|j: int| 0 <= j < bs.len() ==> (#[trigger] bs[j]).var != n {
                lemma_unbound(bs, n, 0);
            }
        }
    } else if let SpecTermDecl::Ctor(n, args) = t {
        let rest = way.subrange(1, way.len() as int);
        if 0 <= way[0] < args.len() {
            assert(all_wired(args, bs)[way[0]] == wired(args[way[0]], bs));
            law_bound_variables_read_their_fields(args[way[0]], bs, rest, i);
        }
    }
}

/// The last entry from position `i` on with a key.
pub open spec fn last_keyed(ms: Seq<SpecMeta>, i: int, key: Seq<char>) -> Option<SpecMeta>
    decreases ms.len() - i,
{
    if i < 0 || i >= ms.len() {
        None
    } else {
        match last_keyed(ms, i + 1, key) {
            Some(m) => Some(m),
            None => if keyed(ms[i], key) {
                Some(ms[i])
            } else {
                None
            },
        }
    }
}

/// The premises on child slots that entries tell.
pub open spec fn told_slots(ms: Seq<SpecMeta>) -> Seq<SpecPremiseDecl> {
    ms.map_values(
        |m: SpecMeta|
            SpecPremiseDecl::Child { slot: m.key->Some_0, expect: judgement(m)->Ok_0 },
    )
}

/// The bindings that entries tell.
pub open spec fn told_pairs(ms: Seq<SpecMeta>) -> Seq<SpecBind> {
    ms.map_values(|m: SpecMeta| SpecBind { var: m.key->Some_0, field: text_of(m)->Ok_0 })
}

/// The premises that one entry tells.
pub open spec fn told_by(m: SpecMeta) -> Seq<SpecPremiseDecl> {
    if !keyed(m, "requires"@) {
        Seq::empty()
    } else {
        match m.value {
            SpecMetaValue::List(inner) => told_slots(inner),
            _ => seq![SpecPremiseDecl::State(judgement(m)->Ok_0)],
        }
    }
}

/// The bindings that one entry tells.
pub open spec fn bound_by(m: SpecMeta) -> Seq<SpecBind> {
    match m.value {
        SpecMetaValue::List(inner) => if keyed(m, "bind"@) {
            told_pairs(inner)
        } else {
            Seq::empty()
        },
        _ => Seq::empty(),
    }
}

/// The premises that entries tell from position `i` on, in order.
pub open spec fn told_premises(ms: Seq<SpecMeta>, i: int) -> Seq<SpecPremiseDecl>
    decreases ms.len() - i,
{
    if i < 0 || i >= ms.len() {
        Seq::empty()
    } else {
        told_by(ms[i]) + told_premises(ms, i + 1)
    }
}

/// The bindings that entries tell from position `i` on, in order.
pub open spec fn told_binds(ms: Seq<SpecMeta>, i: int) -> Seq<SpecBind>
    decreases ms.len() - i,
{
    if i < 0 || i >= ms.len() {
        Seq::empty()
    } else {
        bound_by(ms[i]) + told_binds(ms, i + 1)
    }
}

/// All entries of the annotations from position `i` on that are about checks.
pub open spec fn check_entries(attrs: Seq<SpecAttr>, i: int) -> Seq<SpecMeta>
    decreases attrs.len() - i,
{
    if i < 0 || i >= attrs.len() {
        Seq::empty()
    } else {
        (if attrs[i].name == "dsl_check"@ {
            entries_of(attrs[i])->Ok_0
        } else {
            Seq::empty()
        }) + check_entries(attrs, i + 1)
    }
}

/// The judgement of the last entry with a key, or another.
pub open spec fn told_fact(
    ms: Seq<SpecMeta>,
    i: int,
    key: Seq<char>,
    other: Option<SpecFactDecl>,
) -> Option<SpecFactDecl> {
    match last_keyed(ms, i, key) {
        Some(m) => Some(judgement(m)->Ok_0),
        None => other,
    }
}

/// The text of the last entry with a key, or another.
pub open spec fn told_text(
    ms: Seq<SpecMeta>,
    i: int,
    key: Seq<char>,
    other: Option<Seq<char>>,
) -> Option<Seq<char>> {
    match last_keyed(ms, i, key) {
        Some(m) => Some(text_of(m)->Ok_0),
        None => other,
    }
}

/// Whether annotations hold what entries tell, on top of what was there.
pub open spec fn told(
    s: SpecCheckAttrs,
    ms: Seq<SpecMeta>,
    i: int,
    out: SpecCheckAttrs,
) -> bool {
    &&& out.premises == s.premises + told_premises(ms, i)
    &&& out.binds == s.binds + told_binds(ms, i)
    &&& out.concludes == told_fact(ms, i, "concludes"@, s.concludes)
    &&& out.produces == told_fact(ms, i, "produces"@, s.produces)
    &&& out.message == told_text(ms, i, "message"@, s.message)
    &&& out.code == told_text(ms, i, "code"@, s.code)
}

proof fn lemma_slots(ms: Seq<SpecMeta>, i: int, s: SpecCheckAttrs)
    requires
        0 <= i <= ms.len(),
    ensures
        fold_from(ms, i, s, slot_premise()) matches Ok(out) ==> out == (SpecCheckAttrs {
            premises: s.premises + told_slots(ms).subrange(i, ms.len() as int),
            ..s
        }),
    decreases ms.len() - i,
{
    if i < ms.len() {
        let step = slot_premise();
        let r = step(s, ms[i]);
        if r is Ok {
            let next = r->Ok_0;
            lemma_slots(ms, i + 1, next);
            assert(next.premises == s.premises.push(told_slots(ms)[i]));
            assert(next.premises + told_slots(ms).subrange(i + 1, ms.len() as int) =~= s.premises
                + told_slots(ms).subrange(i, ms.len() as int));
        }
    } else {
        assert(s.premises + told_slots(ms).subrange(i, ms.len() as int) =~= s.premises);
    }
}

proof fn lemma_pairs(ms: Seq<SpecMeta>, i: int, s: SpecCheckAttrs)
    requires
        0 <= i <= ms.len(),
    ensures
        fold_from(ms, i, s, bind_entry()) matches Ok(out) ==> out == (SpecCheckAttrs {
            binds: s.binds + told_pairs(ms).subrange(i, ms.len() as int),
            ..s
        }),
    decreases ms.len() - i,
{
    if i < ms.len() {
        let step = bind_entry();
        let r = step(s, ms[i]);
        if r is Ok {
            let next = r->Ok_0;
            lemma_pairs(ms, i + 1, next);
            assert(next.binds == s.binds.push(told_pairs(ms)[i]));
            assert(next.binds + told_pairs(ms).subrange(i + 1, ms.len() as int) =~= s.binds
                + told_pairs(ms).subrange(i, ms.len() as int));
        }
    } else {
        assert(s.binds + told_pairs(ms).subrange(i, ms.len() as int) =~= s.binds);
    }
}

/// The keys an entry can have are different texts.
proof fn lemma_keys()
    ensures
        "requires"@ != "bind"@,
        "requires"@ != "produces"@,
        "requires"@ != "concludes"@,
        "requires"@ != "message"@,
        "requires"@ != "code"@,
        "produces"@ != "concludes"@,
        "produces"@ != "bind"@,
        "produces"@ != "message"@,
        "produces"@ != "code"@,
        "concludes"@ != "bind"@,
        "concludes"@ != "message"@,
        "concludes"@ != "code"@,
        "bind"@ != "message"@,
        "bind"@ != "code"@,
        "message"@ != "code"@,
{
    reveal_strlit("requires");
    reveal_strlit("produces");
    reveal_strlit("concludes");
    reveal_strlit("bind");
    reveal_strlit("message");
    reveal_strlit("code");
    assert("requires"@[0] == 'r');
    assert("produces"@[0] == 'p');
    assert("concludes"@[1] == 'o');
    assert("concludes"@[2] == 'n');
    assert("code"@[2] == 'd');
    assert("concludes"@[0] == 'c');
    assert("code"@[0] == 'c');
    assert("bind"@[0] == 'b');
    assert("message"@[0] == 'm');
}

/// What one entry adds.
proof fn lemma_entry(s: SpecCheckAttrs, m: SpecMeta)
    ensures
        check_entry()(s, m) matches Ok(next) ==> {
            &&& next.premises == s.premises + told_by(m)
            &&& next.binds == s.binds + bound_by(m)
            &&& next.concludes == (if keyed(m, "concludes"@) {
                Some(judgement(m)->Ok_0)
            } else {
                s.concludes
            })
            &&& next.produces == (if keyed(m, "produces"@) {
                Some(judgement(m)->Ok_0)
            } else {
                s.produces
            })
            &&& next.message == (if keyed(m, "message"@) {
                Some(text_of(m)->Ok_0)
            } else {
                s.message
            })
            &&& next.code == (if keyed(m, "code"@) {
                Some(text_of(m)->Ok_0)
            } else {
                s.code
            })
            &&& next.seen == s.seen
            &&& keyed(m, "concludes"@) ==> s.concludes is None
            &&& keyed(m, "produces"@) ==> s.produces is None
            &&& keyed(m, "concludes"@) || keyed(m, "produces"@) || keyed(m, "requires"@) || keyed(
                m,
                "bind"@,
            ) || keyed(m, "message"@) || keyed(m, "code"@)
        },
{
    lemma_keys();
    let r = check_entry()(s, m);
    if r is Ok {
        let next = r->Ok_0;
        assert(s.premises + Seq::<SpecPremiseDecl>::empty() =~= s.premises);
        assert(s.binds + Seq::<SpecBind>::empty() =~= s.binds);
        if keyed(m, "requires"@) {
            if has_value(m) {
                assert(next.premises =~= s.premises + told_by(m));
            } else {
                let inner = list_of(m)->Ok_0;
                lemma_slots(inner, 0, s);
                assert(told_slots(inner).subrange(0, inner.len() as int) =~= told_slots(inner));
            }
        } else if keyed(m, "bind"@) {
            let inner = list_of(m)->Ok_0;
            lemma_pairs(inner, 0, s);
            assert(told_pairs(inner).subrange(0, inner.len() as int) =~= told_pairs(inner));
        }
    }
}

proof fn lemma_entries(ms: Seq<SpecMeta>, i: int, s: SpecCheckAttrs)
    requires
        0 <= i <= ms.len(),
    ensures
        fold_from(ms, i, s, check_entry()) matches Ok(out) ==> {
            &&& told(s, ms, i, out)
            &&& out.seen == s.seen
        },
    decreases ms.len() - i,
{
    if i < ms.len() {
        let r = check_entry()(s, ms[i]);
        if r is Ok {
            let next = r->Ok_0;
            lemma_entry(s, ms[i]);
            lemma_entries(ms, i + 1, next);
            assert(next.premises + told_premises(ms, i + 1) =~= s.premises + told_premises(ms, i));
            assert(next.binds + told_binds(ms, i + 1) =~= s.binds + told_binds(ms, i));
        }
    } else {
        assert(s.premises + told_premises(ms, i) =~= s.premises);
        assert(s.binds + told_binds(ms, i) =~= s.binds);
    }
}

proof fn lemma_shift(a: Seq<SpecMeta>, b: Seq<SpecMeta>, k: int, key: Seq<char>)
    requires
        0 <= k <= b.len(),
    ensures
        told_premises(a + b, a.len() + k) == told_premises(b, k),
        told_binds(a + b, a.len() + k) == told_binds(b, k),
        last_keyed(a + b, a.len() + k, key) == last_keyed(b, k, key),
    decreases b.len() - k,
{
    if k < b.len() {
        lemma_shift(a, b, k + 1, key);
        assert((a + b)[a.len() + k] == b[k]);
    }
}

proof fn lemma_join(a: Seq<SpecMeta>, b: Seq<SpecMeta>, i: int, key: Seq<char>)
    requires
        0 <= i <= a.len(),
    ensures
        told_premises(a + b, i) == told_premises(a, i) + told_premises(b, 0),
        told_binds(a + b, i) == told_binds(a, i) + told_binds(b, 0),
        last_keyed(a + b, i, key) == (match last_keyed(b, 0, key) {
            Some(m) => Some(m),
            None => last_keyed(a, i, key),
        }),
    decreases a.len() - i,
{
    if i < a.len() {
        lemma_join(a, b, i + 1, key);
        assert((a + b)[i] == a[i]);
        assert(told_premises(a + b, i) =~= told_premises(a, i) + told_premises(b, 0));
        assert(told_binds(a + b, i) =~= told_binds(a, i) + told_binds(b, 0));
    } else {
        lemma_shift(a, b, 0, key);
        assert(told_premises(a + b, i) =~= told_premises(a, i) + told_premises(b, 0));
        assert(told_binds(a + b, i) =~= told_binds(a, i) + told_binds(b, 0));
    }
}

proof fn lemma_told_joins(
    s: SpecCheckAttrs,
    a: Seq<SpecMeta>,
    mid: SpecCheckAttrs,
    b: Seq<SpecMeta>,
    out: SpecCheckAttrs,
)
    requires
        told(s, a, 0, mid),
        told(mid, b, 0, out),
    ensures
        told(s, a + b, 0, out),
{
    lemma_join(a, b, 0, "concludes"@);
    lemma_join(a, b, 0, "produces"@);
    lemma_join(a, b, 0, "message"@);
    lemma_join(a, b, 0, "code"@);
    assert(out.premises =~= s.premises + told_premises(a + b, 0));
    assert(out.binds =~= s.binds + told_binds(a + b, 0));
}

proof fn lemma_attributes(attrs: Seq<SpecAttr>, i: int, s: SpecCheckAttrs)
    requires
        0 <= i <= attrs.len(),
    ensures
        fold_from(attrs, i, s, check_attribute()) matches Ok(out) ==> {
            &&& told(s, check_entries(attrs, i), 0, out)
            &&& out.seen <==> s.seen || exists|k: int|
                i <= k < attrs.len() && (#[trigger] attrs[k]).name == "dsl_check"@
        },
    decreases attrs.len() - i,
{
    let all = check_entries(attrs, i);
    if i < attrs.len() {
        let r = check_attribute()(s, attrs[i]);
        if r is Ok {
            let next = r->Ok_0;
            lemma_attributes(attrs, i + 1, next);
            if fold_from(attrs, i, s, check_attribute()) is Ok {
                let out = fold_from(attrs, i, s, check_attribute())->Ok_0;
                let rest = check_entries(attrs, i + 1);
                if attrs[i].name == "dsl_check"@ {
                    let ms = entries_of(attrs[i])->Ok_0;
                    lemma_entries(ms, 0, SpecCheckAttrs { seen: true, ..s });
                    assert(told(s, ms, 0, next));
                    lemma_told_joins(s, ms, next, rest, out);
                } else {
                    assert(all =~= rest);
                    assert(out.seen <==> s.seen || exists|k: int|
                        i <= k < attrs.len() && (#[trigger] attrs[k]).name == "dsl_check"@);
                }
            }
        }
    } else {
        assert(s.premises + told_premises(all, 0) =~= s.premises);
        assert(s.binds + told_binds(all, 0) =~= s.binds);
    }
}

/// What is gathered from a variant's annotations is what their entries tell:
/// the premises and bindings of all of them, in order, the judgements behind
/// `concludes` and `produces`, and the last wording and slug.
pub proof fn law_annotations_are_taken_entry_by_entry(attrs: Seq<SpecAttr>, s: SpecCheckAttrs)
    requires
        check_attrs(attrs) == Ok::<SpecCheckAttrs, Seq<char>>(s),
    ensures
        s.premises == told_premises(check_entries(attrs, 0), 0),
        s.binds == told_binds(check_entries(attrs, 0), 0),
        s.concludes == told_fact(check_entries(attrs, 0), 0, "concludes"@, None),
        s.produces == told_fact(check_entries(attrs, 0), 0, "produces"@, None),
        s.message == told_text(check_entries(attrs, 0), 0, "message"@, None),
        s.code == told_text(check_entries(attrs, 0), 0, "code"@, None),
        s.seen == has_attr(attrs, "dsl_check"@),
{
    lemma_attributes(attrs, 0, no_attrs());
    let all = check_entries(attrs, 0);
    assert(Seq::<SpecPremiseDecl>::empty() + told_premises(all, 0) =~= told_premises(all, 0));
    assert(Seq::<SpecBind>::empty() + told_binds(all, 0) =~= told_binds(all, 0));
}

/// Whether a rule is the one that a variant's annotations declare.
pub open spec fn rule_fits(rule: SpecRule, v: SpecVariant) -> bool {
    let ms = check_entries(v.attrs, 0);
    let bs = told_binds(ms, 0);
    let ps = told_premises(ms, 0);
    &&& rule.variant == v.name
    &&& rule.premises.len() == ps.len()
    &&& forall|i: int|
        0 <= i < ps.len() ==> match ps[i] {
            SpecPremiseDecl::State(f) => #[trigger] rule.premises[i] == (SpecPremise::State {
                expect: wired_fact(f, bs),
            }),
            SpecPremiseDecl::Child { slot, expect } => rule.premises[i] == (SpecPremise::Child {
                slot,
                expect: wired_fact(expect, bs),
            }),
        }
    &&& match last_keyed(ms, 0, "concludes"@) {
        Some(m) => rule.conclusion == Some(wired_fact(judgement(m)->Ok_0, bs)),
        None => rule.conclusion is None,
    }
    &&& match last_keyed(ms, 0, "produces"@) {
        Some(m) => rule.state_after == Some(wired_fact(judgement(m)->Ok_0, bs)),
        None => rule.state_after is None,
    }
    &&& match last_keyed(ms, 0, "message"@) {
        Some(m) => rule.message.template == text_of(m)->Ok_0,
        None => rule.message.template == "`"@ + v.name
            + "` requires {expected}, found {found} (from {provenance})"@,
    }
    &&& match last_keyed(ms, 0, "code"@) {
        Some(m) => rule.message.code == text_of(m)->Ok_0,
        None => if speaks_of_state(rule) {
            rule.message.code == CHECK_STATE_MISMATCH@
        } else {
            rule.message.code == CHECK_TYPE_MISMATCH@
        },
    }
}

/// Whether a rule asks for a state or leads to one.
pub open spec fn speaks_of_state(rule: SpecRule) -> bool {
    rule.state_after is Some || exists|i: int|
        0 <= i < rule.premises.len() && #[trigger] rule.premises[i] is State
}

/// Whether positions pick, in order, every variant with an annotation about
/// checks and no other.
pub open spec fn annotated_at(vs: Seq<SpecVariant>, n: int, at: Seq<int>) -> bool {
    &&& forall|a: int, b: int| 0 <= a < b < at.len() ==> #[trigger] at[a] < #[trigger] at[b]
    &&& forall|a: int|
        0 <= a < at.len() ==> 0 <= #[trigger] at[a] < n && has_attr(
            vs[at[a]].attrs,
            "dsl_check"@,
        )
    &&& forall|j: int|
        0 <= j < n && has_attr((#[trigger] vs[j]).attrs, "dsl_check"@) ==> at.contains(j)
}

/// Whether rules are those of the first `n` variants that have annotations.
pub open spec fn rules_fit(rules: Seq<SpecRule>, vs: Seq<SpecVariant>, n: int) -> bool {
    exists|at: Seq<int>| #[trigger]
        annotated_at(vs, n, at) && at.len() == rules.len() && forall|i: int|
            0 <= i < rules.len() ==> rule_fits(#[trigger] rules[i], vs[at[i]])
}

proof fn lemma_rules(vs: Seq<SpecVariant>, i: int, p: SpecProgram, node: Seq<char>)
    requires
        0 <= i <= vs.len(),
        rules_fit(p.rules, vs, i),
    ensures
        fold_from(vs, i, p, check_variant(node)) matches Ok(out) ==> rules_fit(
            out.rules,
            vs,
            vs.len() as int,
        ),
    decreases vs.len() - i,
{
    if i < vs.len() {
        let v = vs[i];
        let r = check_variant(node)(p, v);
        if r is Ok {
            let next = r->Ok_0;
            let s = check_attrs(v.attrs)->Ok_0;
            law_annotations_are_taken_entry_by_entry(v.attrs, s);
            let at = choose|at: Seq<int>| #[trigger]
                annotated_at(vs, i, at) && at.len() == p.rules.len() && forall|k: int|
                    0 <= k < p.rules.len() ==> rule_fits(#[trigger] p.rules[k], vs[at[k]]);
            if s.seen {
                let more = at.push(i);
                let rule = planned_rule(v.name, s);
                assert(has_state(s.premises) <==> exists|k: int|
                    0 <= k < rule.premises.len() && #[trigger] rule.premises[k] is State) by {
                    if has_state(s.premises) {
                        let k = choose|k: int|
                            0 <= k < s.premises.len() && #[trigger] s.premises[k] is State;
                        assert(rule.premises[k] is State);
                    }
                    if exists|k: int|
                        0 <= k < rule.premises.len() && #[trigger] rule.premises[k] is State {
                        let k = choose|k: int|
                            0 <= k < rule.premises.len() && #[trigger] rule.premises[k] is State;
                        assert(s.premises[k] is State);
                    }
                }
                assert(rule_fits(rule, v));
                assert(annotated_at(vs, i + 1, more)) by {
                    assert forall|j: int|
                        0 <= j < i + 1 && has_attr(
                            (#[trigger] vs[j]).attrs,
                            "dsl_check"@,
                        ) implies more.contains(j) by {
                        if j < i {
                            assert(at.contains(j));
                            let k = choose|k: int| 0 <= k < at.len() && at[k] == j;
                            assert(more[k] == j);
                        } else {
                            assert(more[at.len() as int] == j);
                        }
                    }
                }
                assert forall|k: int| 0 <= k < next.rules.len() implies rule_fits(
                    #[trigger] next.rules[k],
                    vs[more[k]],
                ) by {
                    if k < p.rules.len() {
                        assert(next.rules[k] == p.rules[k]);
                    }
                }
                assert(rules_fit(next.rules, vs, i + 1));
            } else {
                assert(annotated_at(vs, i + 1, at));
                assert(rules_fit(next.rules, vs, i + 1));
            }
            lemma_rules(vs, i + 1, next, node);
        }
    }
}

/// Every variant with an annotation about checks has one rule, no other
/// variant has any, and the rules stand in the order of the variants. Each
/// says what its annotations say.
pub proof fn law_every_annotated_variant_has_its_rule(input: SpecInput, p: SpecProgram)
    requires
        check_plan(input) == Ok::<SpecProgram, Seq<char>>(p),
    ensures
        input.variants is Some,
        rules_fit(p.rules, input.variants->Some_0, input.variants->Some_0.len() as int),
{
    let vs = input.variants->Some_0;
    let none = SpecProgram { rules: Seq::empty(), seq_slots: Seq::empty() };
    assert(annotated_at(vs, 0, Seq::empty()));
    assert(rules_fit(none.rules, vs, 0));
    lemma_rules(vs, 0, none, input.name);
}

/// Whether a fold slot is the one that a field of a variant declares.
pub open spec fn slot_fits(x: SpecSeqSlot, v: SpecVariant, node: Seq<char>) -> bool {
    &&& v.fields is Named
    &&& x.variant == v.name
    &&& x.mode == SeqMode::Fold
    &&& exists|k: int|
        0 <= k < v.fields->Named_0.len() && {
            let f = #[trigger] v.fields->Named_0[k];
            &&& f.name == x.slot
            &&& fold_seed(f.attrs) matches Ok(Some(seed)) && x.initial == wired_fact(
                seed,
                Seq::empty(),
            )
            &&& recursion(f.ty, node) == Some(Recursion::Many) || recursion(f.ty, node) == Some(
                Recursion::ManyBoxed,
            )
        }
}

/// Whether a field is declared a fold.
pub open spec fn is_fold(f: SpecField) -> bool {
    fold_seed(f.attrs) is Ok && fold_seed(f.attrs)->Ok_0 is Some
}

/// Whether every fold that the first `n` fields of a variant declare is among
/// the slots.
pub open spec fn folds_listed(
    xs: Seq<SpecSeqSlot>,
    v: SpecVariant,
    fs: Seq<SpecField>,
    n: int,
) -> bool {
    forall|k: int|
        0 <= k < n && is_fold(#[trigger] fs[k]) ==> exists|j: int|
            0 <= j < xs.len() && (#[trigger] xs[j]).variant == v.name && xs[j].slot == fs[k].name
}

/// Whether slots are folds of the first `n` variants, and hold all of them.
pub open spec fn slots_fit(
    xs: Seq<SpecSeqSlot>,
    vs: Seq<SpecVariant>,
    n: int,
    node: Seq<char>,
) -> bool {
    &&& forall|j: int|
        0 <= j < xs.len() ==> exists|i: int|
            0 <= i < n && slot_fits(#[trigger] xs[j], #[trigger] vs[i], node)
    &&& forall|i: int|
        0 <= i < n && (#[trigger] vs[i]).fields is Named ==> folds_listed(
            xs,
            vs[i],
            vs[i].fields->Named_0,
            vs[i].fields->Named_0.len() as int,
        )
}

proof fn lemma_field_folds(
    v: SpecVariant,
    node: Seq<char>,
    k: int,
    done: Seq<SpecSeqSlot>,
)
    requires
        v.fields is Named,
        0 <= k <= v.fields->Named_0.len(),
        folds_listed(done, v, v.fields->Named_0, k),
    ensures
        fold_from(v.fields->Named_0, k, done, fold_field(v.name, node)) matches Ok(out) ==> {
            &&& done.len() <= out.len()
            &&& forall|j: int| 0 <= j < done.len() ==> #[trigger] out[j] == done[j]
            &&& forall|j: int| done.len() <= j < out.len() ==> slot_fits(#[trigger] out[j], v, node)
            &&& folds_listed(out, v, v.fields->Named_0, v.fields->Named_0.len() as int)
        },
    decreases v.fields->Named_0.len() - k,
{
    let fs = v.fields->Named_0;
    if k < fs.len() {
        let r = fold_field(v.name, node)(done, fs[k]);
        if r is Ok {
            let next = r->Ok_0;
            if is_fold(fs[k]) {
                let x = next.last();
                assert(slot_fits(x, v, node)) by {
                    assert(fs[k].name == x.slot);
                }
                assert(folds_listed(next, v, fs, k + 1)) by {
                    assert forall|m: int|
                        0 <= m < k + 1 && is_fold(#[trigger] fs[m]) implies exists|j: int|
                        0 <= j < next.len() && (#[trigger] next[j]).variant == v.name
                            && next[j].slot == fs[m].name by {
                        if m < k {
                            let j = choose|j: int|
                                0 <= j < done.len() && (#[trigger] done[j]).variant == v.name
                                    && done[j].slot == fs[m].name;
                            assert(next[j] == done[j]);
                        } else {
                            assert(next[done.len() as int] == x);
                        }
                    }
                }
                lemma_field_folds(v, node, k + 1, next);
                if fold_from(fs, k, done, fold_field(v.name, node)) is Ok {
                    let out = fold_from(fs, k, done, fold_field(v.name, node))->Ok_0;
                    assert(out[done.len() as int] == next[done.len() as int]);
                    assert forall|j: int| 0 <= j < done.len() implies #[trigger] out[j]
                        == done[j] by {
                        assert(out[j] == next[j]);
                    }
                }
            } else {
                lemma_field_folds(v, node, k + 1, next);
            }
        }
    }
}

proof fn lemma_slots_fit(vs: Seq<SpecVariant>, i: int, p: SpecProgram, node: Seq<char>)
    requires
        0 <= i <= vs.len(),
        slots_fit(p.seq_slots, vs, i, node),
    ensures
        fold_from(vs, i, p, check_variant(node)) matches Ok(out) ==> slots_fit(
            out.seq_slots,
            vs,
            vs.len() as int,
            node,
        ),
    decreases vs.len() - i,
{
    if i < vs.len() {
        let v = vs[i];
        let r = check_variant(node)(p, v);
        if r is Ok {
            let next = r->Ok_0;
            let done = p.seq_slots;
            let more = next.seq_slots;
            if v.fields is Named {
                lemma_field_folds(v, node, 0, done);
            }
            assert(done.len() <= more.len());
            assert(forall|j: int| 0 <= j < done.len() ==> #[trigger] more[j] == done[j]);
            assert(slots_fit(more, vs, i + 1, node)) by {
                assert forall|j: int| 0 <= j < more.len() implies exists|k: int|
                    0 <= k < i + 1 && slot_fits(#[trigger] more[j], #[trigger] vs[k], node) by {
                    if j < done.len() {
                        let k = choose|k: int|
                            0 <= k < i && slot_fits(#[trigger] done[j], #[trigger] vs[k], node);
                        assert(slot_fits(more[j], vs[k], node));
                    } else {
                        assert(slot_fits(more[j], vs[i], node));
                    }
                }
                assert forall|k: int|
                    0 <= k < i + 1 && (#[trigger] vs[k]).fields is Named implies folds_listed(
                    more,
                    vs[k],
                    vs[k].fields->Named_0,
                    vs[k].fields->Named_0.len() as int,
                ) by {
                    if k < i {
                        let fs = vs[k].fields->Named_0;
                        assert forall|m: int|
                            0 <= m < fs.len() && is_fold(#[trigger] fs[m]) implies exists|j: int|
                            0 <= j < more.len() && (#[trigger] more[j]).variant == vs[k].name
                                && more[j].slot == fs[m].name by {
                            let j = choose|j: int|
                                0 <= j < done.len() && (#[trigger] done[j]).variant == vs[k].name
                                    && done[j].slot == fs[m].name;
                            assert(more[j] == done[j]);
                        }
                    }
                }
            }
            lemma_slots_fit(vs, i + 1, next, node);
        }
    }
}

/// The folds of a language are exactly the fields declared as such: each is a
/// field that holds many nodes, starts from the seed it declares, and none is
/// left out.
pub proof fn law_folds_are_the_declared_ones(input: SpecInput, p: SpecProgram)
    requires
        check_plan(input) == Ok::<SpecProgram, Seq<char>>(p),
    ensures
        input.variants is Some,
        slots_fit(
            p.seq_slots,
            input.variants->Some_0,
            input.variants->Some_0.len() as int,
            input.name,
        ),
{
    let vs = input.variants->Some_0;
    let none = SpecProgram { rules: Seq::empty(), seq_slots: Seq::empty() };
    assert(slots_fit(none.seq_slots, vs, 0, input.name));
    lemma_slots_fit(vs, 0, none, input.name);
}

/// Whether a variable stands somewhere in a term.
pub open spec fn occurs(t: SpecTermDecl, n: Seq<char>) -> bool {
    exists|way: Seq<int>| #[trigger] decl_at(t, way) == Some(SpecTermDecl::Var(n))
}

/// Whether a variable stands somewhere in a judgement.
pub open spec fn occurs_in(f: SpecFactDecl, n: Seq<char>) -> bool {
    exists|i: int| 0 <= i < f.args.len() && occurs(#[trigger] f.args[i], n)
}

proof fn lemma_joined(a: Seq<Seq<char>>, b: Seq<Seq<char>>, n: Seq<char>)
    ensures
        (a + b).contains(n) <==> a.contains(n) || b.contains(n),
{
    let all = a + b;
    if a.contains(n) {
        let i = choose|i: int| 0 <= i < a.len() && a[i] == n;
        assert(all[i] == n);
    }
    if b.contains(n) {
        let i = choose|i: int| 0 <= i < b.len() && b[i] == n;
        assert(all[a.len() + i] == n);
    }
    if all.contains(n) {
        let i = choose|i: int| 0 <= i < all.len() && all[i] == n;
        if i < a.len() {
            assert(a[i] == n);
        } else {
            assert(b[i - a.len()] == n);
        }
    }
}

/// The variables of a term are those that stand in it.
proof fn lemma_term_vars(t: SpecTermDecl, n: Seq<char>)
    ensures
        term_vars(t).contains(n) <==> occurs(t, n),
    decreases t, 0nat,
{
    match t {
        SpecTermDecl::Atom(_) => {
            assert forall|way: Seq<int>| #[trigger] decl_at(t, way) != Some(
                SpecTermDecl::Var(n),
            ) by {}
        },
        SpecTermDecl::Var(m) => {
            assert(decl_at(t, Seq::empty()) == Some(t));
            if term_vars(t).contains(n) {
                assert(m == n);
                assert(decl_at(t, Seq::empty()) == Some(SpecTermDecl::Var(n)));
            }
            if occurs(t, n) {
                let way = choose|way: Seq<int>| #[trigger]
                    decl_at(t, way) == Some(SpecTermDecl::Var(n));
                assert(way.len() == 0);
                assert(term_vars(t)[0] == n);
            }
        },
        SpecTermDecl::Ctor(_, args) => {
            lemma_terms_vars(args, args.len(), n);
            if occurs(t, n) {
                let way = choose|way: Seq<int>| #[trigger]
                    decl_at(t, way) == Some(SpecTermDecl::Var(n));
                assert(way.len() > 0);
                let rest = way.subrange(1, way.len() as int);
                assert(decl_at(args[way[0]], rest) == Some(SpecTermDecl::Var(n)));
                assert(occurs(args[way[0]], n));
            }
            if exists|i: int| 0 <= i < args.len() && occurs(#[trigger] args[i], n) {
                let i = choose|i: int| 0 <= i < args.len() && occurs(#[trigger] args[i], n);
                let rest = choose|way: Seq<int>| #[trigger]
                    decl_at(args[i], way) == Some(SpecTermDecl::Var(n));
                let way = seq![i] + rest;
                assert(way.subrange(1, way.len() as int) =~= rest);
                assert(decl_at(t, way) == Some(SpecTermDecl::Var(n)));
            }
        },
    }
}

proof fn lemma_terms_vars(ts: Seq<SpecTermDecl>, k: nat, n: Seq<char>)
    requires
        k <= ts.len(),
    ensures
        terms_vars(ts, k).contains(n) <==> exists|i: int|
            0 <= i < k && occurs(#[trigger] ts[i], n),
    decreases ts, k,
{
    if k > 0 {
        lemma_terms_vars(ts, (k - 1) as nat, n);
        lemma_term_vars(ts[k - 1], n);
        lemma_joined(terms_vars(ts, (k - 1) as nat), term_vars(ts[k - 1]), n);
    }
}

proof fn lemma_premise_vars(ps: Seq<SpecPremiseDecl>, k: nat, n: Seq<char>)
    requires
        k <= ps.len(),
    ensures
        premise_vars(ps, k).contains(n) <==> exists|i: int|
            0 <= i < k && occurs_in(premise_fact(#[trigger] ps[i]), n),
    decreases k,
{
    if k > 0 {
        lemma_premise_vars(ps, (k - 1) as nat, n);
        let f = premise_fact(ps[k - 1]);
        lemma_terms_vars(f.args, f.args.len(), n);
        lemma_joined(premise_vars(ps, (k - 1) as nat), fact_vars(f), n);
    }
}

proof fn lemma_distinct(names: Seq<Seq<char>>, k: nat, n: Seq<char>)
    requires
        k <= names.len(),
    ensures
        distinct(names, k).contains(n) <==> names.subrange(0, k as int).contains(n),
        forall|a: int, b: int|
            0 <= a < b < distinct(names, k).len() ==> #[trigger] distinct(names, k)[a]
                != #[trigger] distinct(names, k)[b],
    decreases k,
{
    if k > 0 {
        lemma_distinct(names, (k - 1) as nat, n);
        let before = distinct(names, (k - 1) as nat);
        let last = names[k - 1];
        lemma_joined(names.subrange(0, k - 1), seq![last], n);
        assert(names.subrange(0, k as int) =~= names.subrange(0, k - 1) + seq![last]);
        assert(seq![last].contains(n) <==> last == n) by {
            assert(seq![last][0] == last);
        }
        lemma_joined(before, seq![last], n);
        assert(before.push(last) =~= before + seq![last]);
        if !before.contains(last) {
            assert forall|a: int, b: int|
                0 <= a < b < before.push(last).len() implies #[trigger] before.push(last)[a]
                != #[trigger] before.push(last)[b] by {
                if b == before.len() {
                    assert(before.contains(before[a]));
                }
            }
        }
    }
}

/// The variables that a variant's judgements mention are those that stand
/// somewhere in one of them, each once.
pub proof fn law_variables_are_mentioned_where_they_stand(s: SpecCheckAttrs, n: Seq<char>)
    ensures
        mentioned(s).contains(n) <==> (exists|i: int|
            0 <= i < s.premises.len() && occurs_in(premise_fact(#[trigger] s.premises[i]), n)) || (
        s.produces is Some && occurs_in(s.produces->Some_0, n)) || (s.concludes is Some
            && occurs_in(s.concludes->Some_0, n)),
        forall|a: int, b: int|
            0 <= a < b < mentioned(s).len() ==> #[trigger] mentioned(s)[a] != #[trigger] mentioned(
                s,
            )[b],
{
    let ps = premise_vars(s.premises, s.premises.len());
    let all = ps + opt_vars(s.produces) + opt_vars(s.concludes);
    lemma_distinct(all, all.len(), n);
    assert(all.subrange(0, all.len() as int) =~= all);
    lemma_joined(ps + opt_vars(s.produces), opt_vars(s.concludes), n);
    lemma_joined(ps, opt_vars(s.produces), n);
    lemma_premise_vars(s.premises, s.premises.len(), n);
    if s.produces is Some {
        let f = s.produces->Some_0;
        lemma_terms_vars(f.args, f.args.len(), n);
    }
    if s.concludes is Some {
        let f = s.concludes->Some_0;
        lemma_terms_vars(f.args, f.args.len(), n);
    }
}

/// Whether the first field of a name is there, and holds nodes or does not.
pub open spec fn declares(
    fs: Seq<SpecField>,
    name: Seq<char>,
    node: Seq<char>,
    nodes: bool,
) -> bool {
    exists|k: int|
        0 <= k < fs.len() && (#[trigger] fs[k]).name == name && (recursion(fs[k].ty, node) is Some
            <==> nodes) && forall|j: int| 0 <= j < k ==> (#[trigger] fs[j]).name != name
}

proof fn lemma_declares(fs: Seq<SpecField>, name: Seq<char>, node: Seq<char>, i: int)
    requires
        0 <= i <= fs.len(),
        forall|j: int| 0 <= j < i ==> (#[trigger] fs[j]).name != name,
    ensures
        field_named(fs, name, i) matches Some(f) ==> declares(
            fs,
            name,
            node,
            recursion(f.ty, node) is Some,
        ) && !declares(fs, name, node, recursion(f.ty, node) is None),
        field_named(fs, name, i) is None ==> !declares(fs, name, node, true) && !declares(
            fs,
            name,
            node,
            false,
        ),
    decreases fs.len() - i,
{
    if i < fs.len() && fs[i].name != name {
        lemma_declares(fs, name, node, i + 1);
    }
}

proof fn lemma_binds_fault(
    bs: Seq<SpecBind>,
    variant: Seq<char>,
    fs: Seq<SpecField>,
    node: Seq<char>,
    i: int,
)
    requires
        0 <= i <= bs.len(),
    ensures
        binds_fault(bs, variant, fs, node, i) is None <==> forall|k: int|
            i <= k < bs.len() ==> declares(fs, (#[trigger] bs[k]).field, node, false),
    decreases bs.len() - i,
{
    if i < bs.len() {
        lemma_declares(fs, bs[i].field, node, 0);
        lemma_binds_fault(bs, variant, fs, node, i + 1);
        assert(bs[i].field == bs[i].field);
    }
}

proof fn lemma_premises_fault(
    ps: Seq<SpecPremiseDecl>,
    variant: Seq<char>,
    fs: Seq<SpecField>,
    node: Seq<char>,
    i: int,
)
    requires
        0 <= i <= ps.len(),
    ensures
        premises_fault(ps, variant, fs, node, i) is None <==> forall|k: int|
            i <= k < ps.len() && #[trigger] ps[k] is Child ==> declares(
                fs,
                ps[k]->slot,
                node,
                true,
            ),
    decreases ps.len() - i,
{
    if i < ps.len() {
        if let SpecPremiseDecl::Child { slot, expect } = ps[i] {
            lemma_declares(fs, slot, node, 0);
        }
        lemma_premises_fault(ps, variant, fs, node, i + 1);
        assert(ps[i] is Child || ps[i] is State);
    }
}

proof fn lemma_unused(bs: Seq<SpecBind>, vars: Seq<Seq<char>>, i: int)
    requires
        0 <= i <= bs.len(),
    ensures
        unused_bind(bs, vars, i) is None <==> forall|k: int|
            i <= k < bs.len() ==> vars.contains((#[trigger] bs[k]).var),
    decreases bs.len() - i,
{
    if i < bs.len() {
        lemma_unused(bs, vars, i + 1);
        assert(bs[i].var == bs[i].var);
    }
}

/// A variant is refused unless every binding names a field that holds no
/// nodes, every premise on a slot names one that does, and every bound
/// variable is mentioned; and nothing else has it refused.
pub proof fn law_bindings_and_slots_are_declared(
    v: SpecVariant,
    s: SpecCheckAttrs,
    node: Seq<char>,
)
    ensures
        attrs_fault(v, s, node) is None <==> (s.binds.len() == 0 && forall|k: int|
            0 <= k < s.premises.len() ==> !(#[trigger] s.premises[k] is Child)) || (
        v.fields is Named && (forall|k: int|
            0 <= k < s.binds.len() ==> declares(
                v.fields->Named_0,
                (#[trigger] s.binds[k]).field,
                node,
                false,
            )) && (forall|k: int|
            0 <= k < s.premises.len() && #[trigger] s.premises[k] is Child ==> declares(
                v.fields->Named_0,
                s.premises[k]->slot,
                node,
                true,
            )) && (forall|k: int|
            0 <= k < s.binds.len() ==> mentioned(s).contains((#[trigger] s.binds[k]).var))),
{
    if v.fields is Named {
        let fs = v.fields->Named_0;
        lemma_binds_fault(s.binds, v.name, fs, node, 0);
        lemma_premises_fault(s.premises, v.name, fs, node, 0);
        lemma_unused(s.binds, mentioned(s), 0);
    }
}

} // verus!
