//! What it means that a premise holds.
use vstd::prelude::*;

use crate::check::ir::{SpecFact, SpecPremise, SpecRule, SpecTerm};
use crate::check::solver::{
    check_premise, check_premises, grounded, grounded_fact, match_children, SlotMap, SpecChildVal,
    SpecState,
};
use crate::check::tree::SpecTree;
use crate::check::unifier::{
    acyclic, decides, enough, extends, field_free, field_free_map, law_no_bindings_are_acyclic,
    law_unifying_keeps_bindings_acyclic, lemma_applied_is_subst, lemma_applied_var,
    lemma_enough_at_first, lemma_extends_on, lemma_facts_acyclic, lemma_unify_all_decide,
    lemma_unify_decides, solves, subst, within, within_map,
};
use crate::check::unify::{applied, applied_fact, ground_term, unified_facts, BindMap, LOOKUP_LIMIT};

verus! {

/// Whether a replacement of variables makes two facts the same.
pub open spec fn agree(
    a: SpecFact,
    b: SpecFact,
    s: spec_fn(Seq<char>) -> SpecTerm,
) -> bool {
    &&& a.pred == b.pred
    &&& a.args.len() == b.args.len()
    &&& forall|i: int| 0 <= i < a.args.len() ==> subst(#[trigger] a.args[i], s) == subst(b.args[i], s)
}

/// Whether a fact holds no payload reference, and variables of a set only.
pub open spec fn plain_fact(f: SpecFact, vs: Set<Seq<char>>) -> bool {
    forall|i: int|
        0 <= i < f.args.len() ==> field_free(#[trigger] f.args[i]) && within(f.args[i], vs)
}

/// Whether bindings are sound and speak of variables of a set only.
pub open spec fn plain_bindings(b: BindMap, vs: Set<Seq<char>>) -> bool {
    acyclic(b) && field_free_map(b) && within_map(b, vs)
}

/// The replacement that bindings stand for.
pub open spec fn replacement(b: BindMap) -> spec_fn(Seq<char>) -> SpecTerm {
    |n: Seq<char>| applied(SpecTerm::Var(n), b)
}

/// Whether a set of variables is small enough to be looked up.
pub open spec fn small(vs: Set<Seq<char>>) -> bool {
    vs.finite() && vs.len() <= LOOKUP_LIMIT
}

proof fn lemma_replacement_solves(b: BindMap)
    requires
        acyclic(b),
    ensures
        solves(replacement(b), b),
{
    let s = replacement(b);
    assert forall|n: Seq<char>| #[trigger] b.contains_key(n) implies s(n) == subst(b[n], s) by {
        lemma_applied_var(n, b);
        lemma_applied_is_subst(b[n], b);
    }
}

proof fn lemma_facts_decide(
    p: SpecFact,
    a: SpecFact,
    b: BindMap,
    vs: Set<Seq<char>>,
    s: spec_fn(Seq<char>) -> SpecTerm,
)
    requires
        plain_bindings(b, vs),
        plain_fact(p, vs),
        plain_fact(a, vs),
        small(vs),
    ensures
        ({
            let (ok, b2) = unified_facts(p, a, b);
            &&& ok ==> plain_bindings(b2, vs) && extends(b, b2)
            &&& decides(ok, b, b2, agree(p, a, s), s)
        }),
{
    lemma_facts_acyclic(p, a, b);
    if p.pred == a.pred && p.args.len() == a.args.len() {
        assert forall|i: int| 0 <= i < p.args.len() implies enough(
            #[trigger] p.args[i],
            b,
            vs,
            LOOKUP_LIMIT as nat,
        ) by {
            lemma_enough_at_first(p.args[i], b, vs);
        }
        lemma_unify_all_decide(p.args, a.args, b, LOOKUP_LIMIT as nat, vs, s, p.args.len());
        let same = forall|i: int|
            0 <= i < p.args.len() ==> subst(p.args[i], s) == subst(a.args[i], s);
        assert(same == agree(p, a, s)) by {
            if agree(p, a, s) {
                assert forall|i: int| 0 <= i < p.args.len() implies subst(p.args[i], s) == subst(
                    a.args[i],
                    s,
                ) by {}
            }
        }
    }
}

/// Whether the first `n` children of a slot that drew a conclusion agree with
/// an expected fact.
pub open spec fn all_agree(
    expect: SpecFact,
    vals: Seq<SpecChildVal>,
    n: nat,
    s: spec_fn(Seq<char>) -> SpecTerm,
) -> bool {
    forall|j: int|
        0 <= j < n ==> ((#[trigger] vals[j]).conclusion matches Some(found) ==> agree(
            expect,
            found,
            s,
        ))
}

/// Whether every conclusion in a slot is plain.
pub open spec fn plain_vals(vals: Seq<SpecChildVal>, vs: Set<Seq<char>>) -> bool {
    forall|j: int|
        0 <= j < vals.len() ==> ((#[trigger] vals[j]).conclusion matches Some(found) ==> plain_fact(
            found,
            vs,
        ))
}

proof fn lemma_children_decide(
    slot: Seq<char>,
    expect: SpecFact,
    vals: Seq<SpecChildVal>,
    b: BindMap,
    n: nat,
    vs: Set<Seq<char>>,
    s: spec_fn(Seq<char>) -> SpecTerm,
)
    requires
        n <= vals.len(),
        plain_bindings(b, vs),
        plain_fact(expect, vs),
        plain_vals(vals, vs),
        small(vs),
    ensures
        match match_children(slot, expect, vals, b, n) {
            Ok(b1) => plain_bindings(b1, vs) && extends(b, b1) && (solves(s, b1) <==> solves(s, b)
                && all_agree(expect, vals, n, s)),
            Err(_) => !(solves(s, b) && all_agree(expect, vals, n, s)),
        },
    decreases n,
{
    if n > 0 {
        let m = (n - 1) as nat;
        lemma_children_decide(slot, expect, vals, b, m, vs, s);
        match match_children(slot, expect, vals, b, m) {
            Err(_) => {
                if all_agree(expect, vals, n, s) {
                    assert(all_agree(expect, vals, m, s));
                }
            },
            Ok(b1) => {
                if let Some(found) = vals[m as int].conclusion {
                    assert(plain_fact(found, vs));
                    lemma_facts_decide(expect, found, b1, vs, s);
                    let b2 = unified_facts(expect, found, b1).1;
                    if unified_facts(expect, found, b1).0 {
                        lemma_extends_on(b, b1, b2);
                    }
                    assert(all_agree(expect, vals, n, s) <==> all_agree(expect, vals, m, s)
                        && agree(expect, found, s)) by {
                        if all_agree(expect, vals, n, s) {
                            assert(vals[m as int].conclusion == Some(found));
                        }
                    }
                } else {
                    assert(all_agree(expect, vals, n, s) <==> all_agree(expect, vals, m, s));
                }
            },
        }
    } else {
        assert(extends(b, b));
    }
}

/// A premise on the children of a slot holds only if every child of the slot
/// that drew a conclusion drew the expected one: under the bindings that come
/// out, the expected fact and each conclusion are the same. In particular an
/// expected fact without variables is the conclusion of each that has none.
pub proof fn law_a_child_premise_speaks_of_every_child(
    slot: Seq<char>,
    expect: SpecFact,
    vals: Seq<SpecChildVal>,
    b: BindMap,
    vs: Set<Seq<char>>,
    j: int,
)
    requires
        plain_bindings(b, vs),
        plain_fact(expect, vs),
        plain_vals(vals, vs),
        small(vs),
        0 <= j < vals.len(),
    ensures
        match_children(slot, expect, vals, b, vals.len()) matches Ok(b1) ==> (
        vals[j].conclusion matches Some(found) ==> applied_fact(expect, b1) == applied_fact(
            found,
            b1,
        ) && (ground_fact(expect) && ground_fact(found) ==> expect == found)),
{
    if let Ok(b1) = match_children(slot, expect, vals, b, vals.len()) {
        let s = replacement(b1);
        lemma_children_decide(slot, expect, vals, b, vals.len(), vs, s);
        lemma_replacement_solves(b1);
        if let Some(found) = vals[j].conclusion {
            assert(agree(expect, found, s));
            lemma_agree_applied(expect, found, b1);
            if ground_fact(expect) && ground_fact(found) {
                lemma_ground_applied(expect, b1);
                lemma_ground_applied(found, b1);
            }
        }
    }
}

/// Whether a fact has no variables and no payload references.
pub open spec fn ground_fact(f: SpecFact) -> bool {
    forall|i: int| 0 <= i < f.args.len() ==> ground_term(#[trigger] f.args[i])
}

proof fn lemma_agree_applied(a: SpecFact, f: SpecFact, b: BindMap)
    requires
        acyclic(b),
        agree(a, f, replacement(b)),
    ensures
        applied_fact(a, b) == applied_fact(f, b),
{
    let s = replacement(b);
    assert forall|i: int| 0 <= i < a.args.len() implies applied(#[trigger] a.args[i], b) == applied(
        f.args[i],
        b,
    ) by {
        lemma_applied_is_subst(a.args[i], b);
        lemma_applied_is_subst(f.args[i], b);
        assert(subst(a.args[i], s) == subst(f.args[i], s));
    }
    assert(applied_fact(a, b).args =~= applied_fact(f, b).args);
}

proof fn lemma_ground_subst(t: SpecTerm, s: spec_fn(Seq<char>) -> SpecTerm)
    requires
        ground_term(t),
    ensures
        subst(t, s) == t,
    decreases t,
{
    if let SpecTerm::Ctor(name, args) = t {
        assert forall|i: int| 0 <= i < args.len() implies subst(#[trigger] args[i], s)
            == args[i] by {
            lemma_ground_subst(args[i], s);
        }
        assert(crate::check::unifier::subst_all(args, s) =~= args);
    }
}

proof fn lemma_ground_applied(f: SpecFact, b: BindMap)
    requires
        acyclic(b),
        ground_fact(f),
    ensures
        applied_fact(f, b) == f,
{
    assert forall|i: int| 0 <= i < f.args.len() implies applied(#[trigger] f.args[i], b)
        == f.args[i] by {
        lemma_applied_is_subst(f.args[i], b);
        lemma_ground_subst(f.args[i], replacement(b));
    }
    assert(applied_fact(f, b).args =~= f.args);
}

/// A premise on the children of a slot fails only where it has to: no
/// replacement of variables that solves the bindings so far makes every
/// conclusion in the slot the expected one.
pub proof fn law_a_child_premise_fails_only_where_it_must(
    slot: Seq<char>,
    expect: SpecFact,
    vals: Seq<SpecChildVal>,
    b: BindMap,
    vs: Set<Seq<char>>,
    s: spec_fn(Seq<char>) -> SpecTerm,
)
    requires
        plain_bindings(b, vs),
        plain_fact(expect, vs),
        plain_vals(vals, vs),
        small(vs),
        solves(s, b),
        all_agree(expect, vals, vals.len(), s),
    ensures
        match_children(slot, expect, vals, b, vals.len()) is Ok,
{
    lemma_children_decide(slot, expect, vals, b, vals.len(), vs, s);
}

/// Whether a term is plain.
pub open spec fn plain_term(t: SpecTerm, vs: Set<Seq<char>>) -> bool {
    field_free(t) && within(t, vs)
}

/// Whether everything that a premise speaks of at a node is plain.
pub open spec fn plain_premise(
    premise: SpecPremise,
    node: SpecTree,
    slots: SlotMap,
    state: Option<SpecState>,
    vs: Set<Seq<char>>,
) -> bool {
    match premise {
        SpecPremise::Child { slot, expect } => plain_fact(grounded_fact(expect, node.fields), vs)
            && (slots.contains_key(slot) ==> plain_vals(slots[slot], vs)),
        SpecPremise::State { expect } => plain_fact(grounded_fact(expect, node.fields), vs) && (
        state matches Some(now) ==> plain_fact(now.fact, vs)),
        SpecPremise::Eq(l, r) => plain_term(grounded(l, node.fields), vs) && plain_term(
            grounded(r, node.fields),
            vs,
        ),
        SpecPremise::Neq(_, _) => true,
    }
}

/// What a premise asks of a replacement of variables: that every conclusion in
/// the slot is the expected one, that the state is, or that two terms are the
/// same. A slot or a state that is not there asks nothing.
pub open spec fn asks(
    premise: SpecPremise,
    node: SpecTree,
    slots: SlotMap,
    state: Option<SpecState>,
    s: spec_fn(Seq<char>) -> SpecTerm,
) -> bool {
    match premise {
        SpecPremise::Child { slot, expect } => slots.contains_key(slot) ==> all_agree(
            grounded_fact(expect, node.fields),
            slots[slot],
            slots[slot].len(),
            s,
        ),
        SpecPremise::State { expect } => state matches Some(now) ==> agree(
            grounded_fact(expect, node.fields),
            now.fact,
            s,
        ),
        SpecPremise::Eq(l, r) => subst(grounded(l, node.fields), s) == subst(
            grounded(r, node.fields),
            s,
        ),
        SpecPremise::Neq(_, _) => true,
    }
}

/// A premise that holds narrows the bindings by exactly what it asks. One on a
/// slot, on the state or on equal terms fails exactly where nothing that fits
/// the bindings gives what it asks; one on different terms fails exactly where
/// both are known and the same, and binds nothing.
pub proof fn law_a_premise_holds_where_it_can(
    premise: SpecPremise,
    node: SpecTree,
    slots: SlotMap,
    state: Option<SpecState>,
    b: BindMap,
    vs: Set<Seq<char>>,
    s: spec_fn(Seq<char>) -> SpecTerm,
)
    requires
        plain_bindings(b, vs),
        plain_premise(premise, node, slots, state, vs),
        small(vs),
    ensures
        match check_premise(premise, node, slots, state, b) {
            Ok(b1) => plain_bindings(b1, vs) && extends(b, b1) && (solves(s, b1) <==> solves(s, b)
                && asks(premise, node, slots, state, s)),
            Err(_) => premise is Neq || !(solves(s, b) && asks(premise, node, slots, state, s)),
        },
        premise matches SpecPremise::Neq(l, r) ==> ({
            let (l1, r1) = (
                applied(grounded(l, node.fields), b),
                applied(grounded(r, node.fields), b),
            );
            &&& check_premise(premise, node, slots, state, b) is Err <==> ground_term(l1)
                && ground_term(r1) && l1 == r1
            &&& check_premise(premise, node, slots, state, b) matches Ok(b1) ==> b1 == b
        }),
{
    assert(extends(b, b));
    match premise {
        SpecPremise::Child { slot, expect } => {
            if slots.contains_key(slot) {
                let vals = slots[slot];
                lemma_children_decide(
                    slot,
                    grounded_fact(expect, node.fields),
                    vals,
                    b,
                    vals.len(),
                    vs,
                    s,
                );
            }
        },
        SpecPremise::State { expect } => {
            if let Some(now) = state {
                lemma_facts_decide(grounded_fact(expect, node.fields), now.fact, b, vs, s);
            }
        },
        SpecPremise::Eq(l, r) => {
            let (l1, r1) = (grounded(l, node.fields), grounded(r, node.fields));
            law_unifying_keeps_bindings_acyclic(l1, r1, b);
            lemma_enough_at_first(l1, b, vs);
            lemma_unify_decides(l1, r1, b, LOOKUP_LIMIT as nat, vs, s);
        },
        SpecPremise::Neq(_, _) => {},
    }
}

/// Whether everything that the first `n` premises of a rule speak of is plain.
pub open spec fn plain_premises(
    rule: SpecRule,
    node: SpecTree,
    slots: SlotMap,
    state: Option<SpecState>,
    n: nat,
    vs: Set<Seq<char>>,
) -> bool {
    forall|i: int|
        0 <= i < n ==> plain_premise(#[trigger] rule.premises[i], node, slots, state, vs)
}

/// Whether a replacement of variables gives the first `n` premises of a rule
/// what they ask.
pub open spec fn asks_all(
    rule: SpecRule,
    node: SpecTree,
    slots: SlotMap,
    state: Option<SpecState>,
    n: nat,
    s: spec_fn(Seq<char>) -> SpecTerm,
) -> bool {
    forall|i: int| 0 <= i < n ==> asks(#[trigger] rule.premises[i], node, slots, state, s)
}

/// The bindings of a rule whose premises hold stand for exactly what all of
/// its premises ask, each of them and together. Where a rule fails, the
/// premises before the one that failed hold, and unless that one is on
/// different terms, nothing gives all of them what they ask.
pub proof fn law_a_rule_holds_where_all_its_premises_can(
    rule: SpecRule,
    node: SpecTree,
    slots: SlotMap,
    state: Option<SpecState>,
    n: nat,
    vs: Set<Seq<char>>,
    s: spec_fn(Seq<char>) -> SpecTerm,
)
    requires
        n <= rule.premises.len(),
        plain_premises(rule, node, slots, state, n, vs),
        small(vs),
    ensures
        match check_premises(rule, node, slots, state, n) {
            Ok(b) => plain_bindings(b, vs) && (solves(s, b) <==> asks_all(
                rule,
                node,
                slots,
                state,
                n,
                s,
            )) && asks_all(rule, node, slots, state, n, replacement(b)),
            Err(f) => f.satisfied < n && check_premises(
                rule,
                node,
                slots,
                state,
                f.satisfied,
            ) is Ok && (rule.premises[f.satisfied as int] is Neq || !asks_all(
                rule,
                node,
                slots,
                state,
                n,
                s,
            )),
        },
    decreases n,
{
    lemma_rule_decides(rule, node, slots, state, n, vs, s);
    if let Ok(b) = check_premises(rule, node, slots, state, n) {
        lemma_replacement_solves(b);
        lemma_rule_decides(rule, node, slots, state, n, vs, replacement(b));
    }
}

proof fn lemma_rule_decides(
    rule: SpecRule,
    node: SpecTree,
    slots: SlotMap,
    state: Option<SpecState>,
    n: nat,
    vs: Set<Seq<char>>,
    s: spec_fn(Seq<char>) -> SpecTerm,
)
    requires
        n <= rule.premises.len(),
        plain_premises(rule, node, slots, state, n, vs),
        small(vs),
    ensures
        match check_premises(rule, node, slots, state, n) {
            Ok(b) => plain_bindings(b, vs) && (solves(s, b) <==> asks_all(
                rule,
                node,
                slots,
                state,
                n,
                s,
            )),
            Err(f) => f.satisfied < n && check_premises(
                rule,
                node,
                slots,
                state,
                f.satisfied,
            ) is Ok && (rule.premises[f.satisfied as int] is Neq || !asks_all(
                rule,
                node,
                slots,
                state,
                n,
                s,
            )),
        },
    decreases n,
{
    law_no_bindings_are_acyclic();
    if n > 0 {
        let m = (n - 1) as nat;
        let premise = rule.premises[m as int];
        lemma_rule_decides(rule, node, slots, state, m, vs, s);
        assert(asks_all(rule, node, slots, state, n, s) <==> asks_all(
            rule,
            node,
            slots,
            state,
            m,
            s,
        ) && asks(premise, node, slots, state, s)) by {
            if asks_all(rule, node, slots, state, n, s) {
                assert(asks(rule.premises[m as int], node, slots, state, s));
            }
        }
        if let Ok(b) = check_premises(rule, node, slots, state, m) {
            assert(plain_premise(premise, node, slots, state, vs));
            law_a_premise_holds_where_it_can(premise, node, slots, state, b, vs, s);
        }
    }
}

} // verus!
