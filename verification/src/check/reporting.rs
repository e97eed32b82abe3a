//! What a failed premise tells, what a rule that holds supplies, and how both
//! are written.
use vstd::prelude::*;

use crate::check::ir::{
    fact_text, rules_on, term_text, term_texts, SpecFact, SpecPremise, SpecProgram, SpecRule,
    SpecSeqSlot, SpecTerm,
};
use crate::check::hint::{
    disagreement, hint_request_of, merge_names, no_names, term_disagreement, terms_disagreement,
    vocabulary_of, with_fact, with_opt_fact, with_premise, with_premises, with_rules, with_seeds,
    with_term, with_terms, without_name, NameKind, SpecVocabulary,
};
use crate::check::message::{child_path_text, label_text};
use crate::check::solver::{
    attempt, check_premise, check_premises, choose_rule, grounded, grounded_fact, judged,
    match_children, SlotMap, SpecChildVal, SpecChoice, SpecMismatch, SpecState,
};
use crate::check::tree::{Span, SpecTree};
use crate::check::unify::{applied, applied_fact, unified_facts, BindMap};
use crate::picking::{
    lemma_made_of_more, lemma_made_of_none, lemma_made_of_same, made_of, picks_from,
};
use crate::text::{ascending, decimal, join_spec, lemma_insert_name, text_lt};

verus! {

/// Whether a mismatch tells, of a fact that was found and where it came from,
/// what was expected under some bindings.
pub open spec fn tells(
    why: SpecMismatch,
    slot: Option<Seq<char>>,
    expect: SpecFact,
    found: SpecFact,
    path: Seq<char>,
    span: Option<Span>,
    b: BindMap,
) -> bool {
    &&& why.slot == slot
    &&& why.expected == fact_text(applied_fact(expect, b))
    &&& why.found == fact_text(found)
    &&& why.provenance == label_text(path, span)
    &&& why.bindings == b
    &&& why.facts == Some((applied_fact(expect, b), found))
}

/// Whether a child is the first whose conclusion does not fit what is expected
/// after the children before it.
pub open spec fn first_misfit(
    slot: Seq<char>,
    expect: SpecFact,
    vals: Seq<SpecChildVal>,
    b: BindMap,
    k: int,
    why: SpecMismatch,
) -> bool {
    &&& 0 <= k < vals.len()
    &&& match_children(slot, expect, vals, b, k as nat) matches Ok(b1) && (
    vals[k].conclusion matches Some(found) && !unified_facts(expect, found, b1).0 && tells(
        why,
        Some(slot),
        expect,
        found,
        vals[k].prov.path,
        vals[k].prov.span,
        b1,
    ))
}

/// A premise on a slot that fails tells of the first child that does not fit:
/// what was expected of it, what it concluded and where it stands.
pub proof fn law_the_first_child_that_does_not_fit_is_told(
    slot: Seq<char>,
    expect: SpecFact,
    vals: Seq<SpecChildVal>,
    b: BindMap,
    n: nat,
)
    requires
        n <= vals.len(),
    ensures
        match_children(slot, expect, vals, b, n) matches Err(why) ==> exists|k: int|
            k < n && first_misfit(slot, expect, vals, b, k, why),
    decreases n,
{
    if n > 0 {
        law_the_first_child_that_does_not_fit_is_told(slot, expect, vals, b, (n - 1) as nat);
        if match_children(slot, expect, vals, b, n) is Err {
            let why = match_children(slot, expect, vals, b, n)->Err_0;
            if match_children(slot, expect, vals, b, (n - 1) as nat) is Err {
                let k = choose|k: int|
                    k < n - 1 && first_misfit(slot, expect, vals, b, k, why);
                assert(first_misfit(slot, expect, vals, b, k, why));
            } else {
                assert(first_misfit(slot, expect, vals, b, n - 1, why));
            }
        }
    }
}

/// A premise on the running state that fails tells what the state was and
/// which node set it; one on terms tells both terms.
pub proof fn law_failed_premises_tell_both_sides(
    expect: SpecFact,
    lhs: SpecTerm,
    rhs: SpecTerm,
    node: SpecTree,
    slots: SlotMap,
    state: Option<SpecState>,
    b: BindMap,
)
    ensures
        check_premise(SpecPremise::State { expect }, node, slots, state, b) matches Err(why)
            ==> (state matches Some(s) && tells(
            why,
            None,
            grounded_fact(expect, node.fields),
            s.fact,
            s.prov.path,
            s.prov.span,
            b,
        )),
        check_premise(SpecPremise::Eq(lhs, rhs), node, slots, state, b) matches Err(why) ==> {
            &&& why.slot is None
            &&& why.facts is None
            &&& why.expected == term_text(applied(grounded(lhs, node.fields), b))
            &&& why.found == term_text(applied(grounded(rhs, node.fields), b))
            &&& why.bindings == b
        },
        check_premise(SpecPremise::Neq(lhs, rhs), node, slots, state, b) matches Err(why) ==> {
            &&& why.slot is None
            &&& why.facts is None
            &&& applied(grounded(lhs, node.fields), b) == applied(grounded(rhs, node.fields), b)
            &&& why.expected == "anything but "@ + why.found
            &&& why.found == term_text(applied(grounded(rhs, node.fields), b))
            &&& why.bindings == b
        },
{
}

/// Whether a rule of a node's variant is the first that holds.
pub open spec fn first_that_holds(
    rules: Seq<SpecRule>,
    node: SpecTree,
    slots: SlotMap,
    state: Option<SpecState>,
    i: int,
) -> bool {
    0 <= i < rules.len() && attempt(rules[i], node, slots, state) is Ok && forall|j: int|
        0 <= j < i ==> attempt(#[trigger] rules[j], node, slots, state) is Err
}

proof fn lemma_chosen(
    rules: Seq<SpecRule>,
    node: SpecTree,
    slots: SlotMap,
    state: Option<SpecState>,
    n: nat,
    i: int,
)
    requires
        first_that_holds(rules, node, slots, state, i),
        n <= rules.len(),
    ensures
        i < n ==> choose_rule(rules, node, slots, state, n) == SpecChoice::Fired(
            attempt(rules[i], node, slots, state)->Ok_0,
        ),
        n <= i ==> choose_rule(rules, node, slots, state, n) is Failed,
    decreases n,
{
    if n > 0 {
        lemma_chosen(rules, node, slots, state, (n - 1) as nat, i);
        if n - 1 < i {
            assert(attempt(rules[n - 1], node, slots, state) is Err);
        }
    }
}

/// A node for which a rule holds concludes what the first such rule
/// concludes, with itself as the origin. It leaves the state that the rule
/// produces, with itself as the origin, and otherwise the state it was given.
pub proof fn law_a_node_passes_on_what_its_rule_supplies(
    node: SpecTree,
    path: Seq<char>,
    state: Option<SpecState>,
    slots: SlotMap,
    p: SpecProgram,
    v: SpecVocabulary,
    i: int,
)
    requires
        first_that_holds(rules_on(p.rules, node.variant), node, slots, state, i),
    ensures
        ({
            let rule = rules_on(p.rules, node.variant)[i];
            let b = check_premises(rule, node, slots, state, rule.premises.len())->Ok_0;
            let out = judged(node, path, state, slots, p, v);
            &&& out.findings.len() == 0
            &&& out.prov.path == path && out.prov.span == node.span
            &&& match rule.conclusion {
                Some(f) => out.conclusion == Some(
                    applied_fact(grounded_fact(f, node.fields), b),
                ),
                None => out.conclusion is None,
            }
            &&& match rule.state_after {
                Some(f) => out.state_out matches Some(s) && s.fact == applied_fact(
                    grounded_fact(f, node.fields),
                    b,
                ) && s.prov.path == path && s.prov.span == node.span,
                None => out.state_out == state,
            }
        }),
{
    let rules = rules_on(p.rules, node.variant);
    lemma_chosen(rules, node, slots, state, rules.len(), i);
}

/// Parts of a list are joined alike, with the separator between them.
pub proof fn law_joining_puts_the_separator_between(
    a: Seq<Seq<char>>,
    b: Seq<Seq<char>>,
    sep: Seq<char>,
    x: Seq<char>,
)
    ensures
        join_spec(Seq::empty(), sep) == Seq::<char>::empty(),
        join_spec(seq![x], sep) == x,
        a.len() > 0 && b.len() > 0 ==> join_spec(a + b, sep) == join_spec(a, sep) + sep + join_spec(
            b,
            sep,
        ),
    decreases b.len(),
{
    if a.len() > 0 && b.len() > 0 {
        let all = a + b;
        assert(all.last() == b.last());
        assert(all.drop_last() =~= a + b.drop_last());
        if b.len() > 1 {
            law_joining_puts_the_separator_between(a, b.drop_last(), sep, x);
            assert(join_spec(all, sep) =~= join_spec(a, sep) + sep + join_spec(b, sep));
        } else {
            assert(a + b.drop_last() =~= a);
            assert(join_spec(b, sep) == b[0]);
        }
    }
}

/// How terms and facts are written: a name as it is, a variable behind a
/// dollar sign, a reference behind an at sign, and arguments in brackets, in
/// order, only where there are some.
pub proof fn law_terms_are_written_by_their_kind(
    name: Seq<char>,
    first: SpecTerm,
    second: SpecTerm,
    args: Seq<SpecTerm>,
)
    ensures
        term_text(SpecTerm::Atom(name)) == name,
        term_text(SpecTerm::Var(name)) == seq!['$'] + name,
        term_text(SpecTerm::FieldRef(name)) == seq!['@'] + name,
        term_text(SpecTerm::Ctor(name, Seq::empty())) == name,
        term_text(SpecTerm::Ctor(name, seq![first])) == name + seq!['('] + term_text(first)
            + seq![')'],
        term_text(SpecTerm::Ctor(name, seq![first, second])) == name + seq!['('] + term_text(first)
            + seq![',', ' '] + term_text(second) + seq![')'],
        fact_text(SpecFact { pred: name, args }) == term_text(SpecTerm::Ctor(name, args)),
{
    reveal_strlit("$");
    reveal_strlit("@");
    reveal_strlit("(");
    reveal_strlit(")");
    reveal_strlit(", ");
    assert("$"@ =~= seq!['$']);
    assert("@"@ =~= seq!['@']);
    assert("("@ =~= seq!['(']);
    assert(")"@ =~= seq![')']);
    assert(", "@ =~= seq![',', ' ']);
    assert(name + Seq::<char>::empty() =~= name);
    let one = seq![first];
    let two = seq![first, second];
    assert(term_texts(one) =~= seq![term_text(first)]);
    assert(term_texts(two) =~= seq![term_text(first)] + seq![term_text(second)]);
    law_joining_puts_the_separator_between(
        seq![term_text(first)],
        seq![term_text(second)],
        ", "@,
        term_text(first),
    );
    law_joining_puts_the_separator_between(
        seq![term_text(first)],
        seq![term_text(second)],
        ", "@,
        term_text(second),
    );
    assert(term_text(SpecTerm::Ctor(name, one)) =~= name + seq!['('] + term_text(first)
        + seq![')']);
    assert(term_text(SpecTerm::Ctor(name, two)) =~= name + seq!['('] + term_text(first) + seq![
        ',',
        ' ',
    ] + term_text(second) + seq![')']);
}

/// The path of a child goes on from that of its parent, with the slot and the
/// child's index in brackets. A node is labelled with its path, the root with
/// a word of its own, and with its bytes where they are known.
pub proof fn law_paths_and_labels(
    parent: Seq<char>,
    slot: Seq<char>,
    index: Seq<char>,
    path: Seq<char>,
    span: Span,
)
    ensures
        child_path_text(Seq::empty(), slot, index) == slot + seq!['['] + index + seq![']'],
        parent.len() > 0 ==> child_path_text(parent, slot, index) == parent + seq!['.']
            + child_path_text(Seq::empty(), slot, index),
        label_text(Seq::empty(), None) == "(root)"@,
        path.len() > 0 ==> label_text(path, None) == path,
        label_text(path, Some(span)) == label_text(path, None) + " (bytes "@ + decimal(
            span.start as nat,
        ) + ".."@ + decimal(span.end as nat) + ")"@,
{
    reveal_strlit("[");
    reveal_strlit("]");
    reveal_strlit(".");
    assert("["@ =~= seq!['[']);
    assert("]"@ =~= seq![']']);
    assert("."@ =~= seq!['.']);
    if parent.len() > 0 {
        assert(child_path_text(parent, slot, index) =~= parent + seq!['.'] + child_path_text(
            Seq::empty(),
            slot,
            index,
        ));
    }
}

/// Of several terms, what is asked about is a name of the first that differs.
pub proof fn law_the_first_difference_is_asked_about(
    es: Seq<SpecTerm>,
    fs: Seq<SpecTerm>,
    n: nat,
)
    requires
        n <= es.len(),
    ensures
        match terms_disagreement(es, fs, n) {
            Some(d) => exists|i: int|
                0 <= i < n && #[trigger] term_disagreement(es[i], fs[i]) == Some(d) && forall|
                    j: int,
                |
                    0 <= j < i ==> #[trigger] term_disagreement(es[j], fs[j]) is None,
            None => forall|i: int|
                0 <= i < n ==> #[trigger] term_disagreement(es[i], fs[i]) is None,
        },
    decreases n,
{
    if n > 0 {
        law_the_first_difference_is_asked_about(es, fs, (n - 1) as nat);
        match terms_disagreement(es, fs, (n - 1) as nat) {
            Some(d) => {
                let i = choose|i: int|
                    0 <= i < n - 1 && #[trigger] term_disagreement(es[i], fs[i]) == Some(d)
                        && forall|j: int|
                        0 <= j < i ==> #[trigger] term_disagreement(es[j], fs[j]) is None;
                assert(term_disagreement(es[i], fs[i]) == Some(d));
            },
            None => {
                if term_disagreement(es[n - 1], fs[n - 1]) is Some {
                    assert(term_disagreement(es[n - 1], fs[n - 1]) == terms_disagreement(
                        es,
                        fs,
                        n,
                    ));
                }
            },
        }
    }
}

/// Two terms differ in a name where both are names, or both constructors, of
/// different texts; constructors of one name and arity differ where their
/// arguments do. Nothing else is a matter of spelling.
pub proof fn law_names_differ_where_kinds_agree(
    a: Seq<char>,
    b: Seq<char>,
    xs: Seq<SpecTerm>,
    ys: Seq<SpecTerm>,
    t: SpecTerm,
)
    ensures
        a != b ==> term_disagreement(SpecTerm::Atom(a), SpecTerm::Atom(b)) == Some(
            (a, NameKind::Atom),
        ),
        a != b ==> term_disagreement(SpecTerm::Ctor(a, xs), SpecTerm::Ctor(b, ys)) == Some(
            (a, NameKind::Ctor),
        ),
        term_disagreement(t, t) is None,
        term_disagreement(SpecTerm::Atom(a), SpecTerm::Ctor(b, ys)) is None,
        term_disagreement(SpecTerm::Ctor(a, xs), SpecTerm::Atom(b)) is None,
        t is Var || t is FieldRef ==> term_disagreement(t, SpecTerm::Atom(b)) is None
            && term_disagreement(SpecTerm::Atom(a), t) is None,
        xs.len() != ys.len() ==> term_disagreement(
            SpecTerm::Ctor(a, xs),
            SpecTerm::Ctor(a, ys),
        ) is None,
    decreases t,
{
    if let SpecTerm::Ctor(n, args) = t {
        lemma_no_difference(args, args.len());
    }
}

proof fn lemma_no_difference(ts: Seq<SpecTerm>, n: nat)
    requires
        n <= ts.len(),
    ensures
        terms_disagreement(ts, ts, n) is None,
    decreases ts, n,
{
    if n > 0 {
        lemma_no_difference(ts, (n - 1) as nat);
        lemma_same_term(ts[n - 1]);
    }
}

proof fn lemma_same_term(t: SpecTerm)
    ensures
        term_disagreement(t, t) is None,
    decreases t, 0nat,
{
    if let SpecTerm::Ctor(n, args) = t {
        lemma_no_difference(args, args.len());
    }
}

/// Whether the names of a vocabulary stand in ascending order, each once.
pub open spec fn sorted(v: SpecVocabulary) -> bool {
    ascending(v.atoms) && ascending(v.ctors)
}

proof fn lemma_sorted_term(v: SpecVocabulary, t: SpecTerm)
    requires
        sorted(v),
    ensures
        sorted(with_term(v, t)),
    decreases t, 0nat,
{
    match t {
        SpecTerm::Atom(name) => {
            lemma_insert_name(v.atoms, name);
        },
        SpecTerm::Ctor(name, args) => {
            lemma_insert_name(v.ctors, name);
            lemma_sorted_terms(
                SpecVocabulary { ctors: crate::text::insert_name(v.ctors, name), ..v },
                args,
                args.len(),
            );
        },
        _ => {},
    }
}

proof fn lemma_sorted_terms(v: SpecVocabulary, ts: Seq<SpecTerm>, n: nat)
    requires
        sorted(v),
    ensures
        sorted(with_terms(v, ts, n)),
    decreases ts, n,
{
    if 0 < n <= ts.len() {
        lemma_sorted_terms(v, ts, (n - 1) as nat);
        lemma_sorted_term(with_terms(v, ts, (n - 1) as nat), ts[n - 1]);
    }
}

proof fn lemma_sorted_merge(names: Seq<Seq<char>>, more: Seq<Seq<char>>)
    requires
        ascending(names),
    ensures
        ascending(merge_names(names, more)),
    decreases more.len(),
{
    if more.len() > 0 {
        lemma_sorted_merge(names, more.drop_last());
        lemma_insert_name(merge_names(names, more.drop_last()), more.last());
    }
}

proof fn lemma_without_kept(names: Seq<Seq<char>>, name: Seq<char>)
    ensures
        made_of(
            without_name(names, name),
            names,
            names.len() as int,
            |x: Seq<char>| x != name,
            |x: Seq<char>| x,
        ),
    decreases names.len(),
{
    let p = |x: Seq<char>| x != name;
    let f = |x: Seq<char>| x;
    if names.len() == 0 {
        lemma_made_of_none(names, p, f);
    } else {
        let init = names.drop_last();
        lemma_without_kept(init, name);
        lemma_made_of_same(without_name(init, name), init, names, names.len() - 1, p, f);
        lemma_made_of_more(without_name(init, name), names, names.len() - 1, p, f);
    }
}

/// The candidates that a suggester is given stand in ascending order, each
/// once, where the vocabulary does.
pub proof fn law_candidates_are_in_order(v: SpecVocabulary, e: SpecFact, f: SpecFact)
    requires
        sorted(v),
    ensures
        hint_request_of(v, e, f) matches Some(r) ==> ascending(r.candidates),
{
    if let Some((query, kind)) = disagreement(e, f) {
        let from = with_fact(no_names(), f);
        let pool = match kind {
            NameKind::Atom => merge_names(v.atoms, from.atoms),
            NameKind::Ctor => merge_names(v.ctors, from.ctors),
        };
        match kind {
            NameKind::Atom => lemma_sorted_merge(v.atoms, from.atoms),
            NameKind::Ctor => lemma_sorted_merge(v.ctors, from.ctors),
        }
        let kept = without_name(pool, query);
        lemma_without_kept(pool, query);
        let p = |x: Seq<char>| x != query;
        let at = choose|at: Seq<int>| #[trigger]
            picks_from(pool, pool.len() as int, at, p) && at.len() == kept.len() && forall|k: int|
                0 <= k < kept.len() ==> #[trigger] kept[k] == (|x: Seq<char>| x)(pool[at[k]]);
        assert forall|i: int, j: int| 0 <= i < j < kept.len() implies text_lt(
            #[trigger] kept[i],
            #[trigger] kept[j],
        ) by {
            assert(at[i] < at[j]);
            assert(kept[i] == pool[at[i]]);
            assert(kept[j] == pool[at[j]]);
        }
    }
}

proof fn lemma_sorted_opt(v: SpecVocabulary, f: Option<SpecFact>)
    requires
        sorted(v),
    ensures
        sorted(with_opt_fact(v, f)),
{
    if let Some(f) = f {
        lemma_sorted_terms(v, f.args, f.args.len());
    }
}

proof fn lemma_sorted_premise(v: SpecVocabulary, p: SpecPremise)
    requires
        sorted(v),
    ensures
        sorted(with_premise(v, p)),
{
    match p {
        SpecPremise::Child { expect, .. } => {
            lemma_sorted_terms(v, expect.args, expect.args.len());
        },
        SpecPremise::State { expect } => {
            lemma_sorted_terms(v, expect.args, expect.args.len());
        },
        SpecPremise::Eq(l, r) => {
            lemma_sorted_term(v, l);
            lemma_sorted_term(with_term(v, l), r);
        },
        SpecPremise::Neq(l, r) => {
            lemma_sorted_term(v, l);
            lemma_sorted_term(with_term(v, l), r);
        },
    }
}

proof fn lemma_sorted_premises(v: SpecVocabulary, ps: Seq<SpecPremise>)
    requires
        sorted(v),
    ensures
        sorted(with_premises(v, ps)),
    decreases ps.len(),
{
    if ps.len() > 0 {
        lemma_sorted_premises(v, ps.drop_last());
        lemma_sorted_premise(with_premises(v, ps.drop_last()), ps.last());
    }
}

proof fn lemma_sorted_rules(v: SpecVocabulary, rs: Seq<SpecRule>)
    requires
        sorted(v),
    ensures
        sorted(with_rules(v, rs)),
    decreases rs.len(),
{
    if rs.len() > 0 {
        lemma_sorted_rules(v, rs.drop_last());
        let before = with_rules(v, rs.drop_last());
        let r = rs.last();
        lemma_sorted_premises(before, r.premises);
        lemma_sorted_opt(with_premises(before, r.premises), r.conclusion);
        lemma_sorted_opt(
            with_opt_fact(with_premises(before, r.premises), r.conclusion),
            r.state_after,
        );
    }
}

proof fn lemma_sorted_seeds(v: SpecVocabulary, ds: Seq<SpecSeqSlot>)
    requires
        sorted(v),
    ensures
        sorted(with_seeds(v, ds)),
    decreases ds.len(),
{
    if ds.len() > 0 {
        lemma_sorted_seeds(v, ds.drop_last());
        let f = ds.last().initial;
        lemma_sorted_terms(with_seeds(v, ds.drop_last()), f.args, f.args.len());
    }
}

/// The vocabulary of a program stands in ascending order, each name once.
pub proof fn law_a_vocabulary_is_in_order(p: SpecProgram)
    ensures
        sorted(vocabulary_of(p)),
{
    lemma_sorted_seeds(no_names(), p.seq_slots);
    lemma_sorted_rules(with_seeds(no_names(), p.seq_slots), p.rules);
}

} // verus!
