//! What validation, hints and messages report.
use vstd::prelude::*;

use crate::check::hint::{
    disagreement, hint_request_of, merge_names, no_names, term_disagreement, terms_disagreement,
    vocabulary_of, with_fact, with_opt_fact, with_premises, with_rule, with_rules, with_seeds,
    with_term, with_terms, without_name, NameKind, SpecVocabulary,
};
use crate::check::ir::{SpecFact, SpecPremise, SpecProgram, SpecRule, SpecSeqSlot, SpecTerm};
use crate::check::message::{hole_text, rendered, rendered_from, SpecMsgCtx};
use crate::check::tree::Severity;
use crate::check::unify::compatible;
use crate::check::validate::{
    insert_origin, produced, producers_of, reached, required, rule_asks, rule_origins, seed_facts,
    shadowed, slot_origins, transition_facts, undefined_in_rule, undefined_states,
    unreachable_rules, unused_pred, unused_preds, validation, winner_over, with_origin, SpecOrigin,
};
use crate::text::{find_char, insert_name};

verus! {

// ---------------------------------------------------------------------------
// Validation
// ---------------------------------------------------------------------------

/// Whether a program can put a fact that fits into a fold state: a fold starts
/// from one, or a rule moves to one.
pub open spec fn can_be_state(p: SpecProgram, expect: SpecFact) -> bool {
    ||| exists|i: int|
        0 <= i < p.seq_slots.len() && compatible(expect, (#[trigger] p.seq_slots[i]).initial)
    ||| exists|i: int|
        0 <= i < p.rules.len() && ((#[trigger] p.rules[i]).state_after matches Some(f)
            && compatible(expect, f))
}

/// Whether a program produces a fact of a predicate: a fold starts from one, or
/// a rule concludes one or moves to one.
pub open spec fn produces(p: SpecProgram, pred: Seq<char>) -> bool {
    ||| exists|i: int| 0 <= i < p.seq_slots.len() && (#[trigger] p.seq_slots[i]).initial.pred == pred
    ||| exists|i: int|
        0 <= i < p.rules.len() && (((#[trigger] p.rules[i]).conclusion matches Some(f) && f.pred
            == pred) || (p.rules[i].state_after matches Some(f) && f.pred == pred))
}

/// Whether a premise of a program asks for a fact of a predicate.
pub open spec fn consumes(p: SpecProgram, pred: Seq<char>) -> bool {
    exists|i: int, j: int|
        0 <= i < p.rules.len() && 0 <= j < p.rules[i].premises.len() && match #[trigger] p.rules[i].premises[j] {
            SpecPremise::Child { expect, .. } => expect.pred == pred,
            SpecPremise::State { expect } => expect.pred == pred,
            _ => false,
        }
}

/// Whether a rule never gets its turn: an earlier one for its variant asks
/// nothing, or asks the same.
pub open spec fn never_fires(p: SpecProgram, i: int) -> bool {
    exists|j: int|
        0 <= j < i && (#[trigger] p.rules[j]).variant == p.rules[i].variant && (
        p.rules[j].premises.len() == 0 || p.rules[j].premises == p.rules[i].premises)
}

proof fn lemma_transitions(rs: Seq<SpecRule>, f: SpecFact)
    ensures
        transition_facts(rs).contains(f) <==> exists|i: int|
            0 <= i < rs.len() && (#[trigger] rs[i]).state_after == Some(f),
    decreases rs.len(),
{
    if rs.len() > 0 {
        let front = rs.drop_last();
        let was = transition_facts(front);
        let all = transition_facts(rs);
        lemma_transitions(front, f);
        if was.contains(f) {
            let k = choose|k: int| 0 <= k < was.len() && was[k] == f;
            assert(all[k] == f);
        }
        if rs.last().state_after == Some(f) {
            assert(all[was.len() as int] == f);
            assert(rs[rs.len() - 1].state_after == Some(f));
        }
        if all.contains(f) && rs.last().state_after != Some(f) {
            let k = choose|k: int| 0 <= k < all.len() && all[k] == f;
            assert(was[k] == f);
        }
        if exists|i: int| 0 <= i < rs.len() && (#[trigger] rs[i]).state_after == Some(f) {
            let i = choose|i: int| 0 <= i < rs.len() && (#[trigger] rs[i]).state_after == Some(f);
            if i < front.len() {
                assert(front[i].state_after == Some(f));
            }
        }
        if exists|i: int| 0 <= i < front.len() && (#[trigger] front[i]).state_after == Some(f) {
            let i = choose|i: int|
                0 <= i < front.len() && (#[trigger] front[i]).state_after == Some(f);
            assert(rs[i].state_after == Some(f));
        }
    }
}

proof fn lemma_reached(p: SpecProgram, expect: SpecFact)
    ensures
        reached(producers_of(p), expect) <==> can_be_state(p, expect),
{
    let seeds = seed_facts(p.seq_slots);
    let moves = transition_facts(p.rules);
    let all = producers_of(p);
    if reached(all, expect) {
        let i = choose|i: int| 0 <= i < all.len() && compatible(expect, #[trigger] all[i]);
        if i < seeds.len() {
            assert(compatible(expect, p.seq_slots[i].initial));
        } else {
            let f = moves[i - seeds.len()];
            assert(moves.contains(f));
            lemma_transitions(p.rules, f);
        }
    }
    if can_be_state(p, expect) {
        if exists|i: int|
            0 <= i < p.seq_slots.len() && compatible(expect, (#[trigger] p.seq_slots[i]).initial) {
            let i = choose|i: int|
                0 <= i < p.seq_slots.len() && compatible(
                    expect,
                    (#[trigger] p.seq_slots[i]).initial,
                );
            assert(all[i] == p.seq_slots[i].initial);
        } else {
            let i = choose|i: int|
                0 <= i < p.rules.len() && ((#[trigger] p.rules[i]).state_after matches Some(f)
                    && compatible(expect, f));
            let f = p.rules[i].state_after->Some_0;
            lemma_transitions(p.rules, f);
            let k = choose|k: int| 0 <= k < moves.len() && moves[k] == f;
            assert(all[seeds.len() + k] == f);
        }
    }
}

proof fn lemma_in_rule_empty(variant: Seq<char>, ps: Seq<SpecPremise>, producers: Seq<SpecFact>)
    ensures
        undefined_in_rule(variant, ps, producers).len() == 0 <==> forall|j: int|
            0 <= j < ps.len() ==> (#[trigger] ps[j] matches SpecPremise::State { expect }
                ==> reached(producers, expect)),
        forall|k: int|
            0 <= k < undefined_in_rule(variant, ps, producers).len() ==> (
            #[trigger] undefined_in_rule(variant, ps, producers)[k]).severity == Severity::Error,
    decreases ps.len(),
{
    if ps.len() > 0 {
        let front = ps.drop_last();
        lemma_in_rule_empty(variant, front, producers);
        let was = undefined_in_rule(variant, front, producers);
        let all = undefined_in_rule(variant, ps, producers);
        assert forall|k: int| 0 <= k < all.len() implies (#[trigger] all[k]).severity
            == Severity::Error by {
            if k < was.len() {
                assert(all[k] == was[k]);
            }
        }
        if was.len() == 0 && all.len() == 0 {
            assert forall|j: int| 0 <= j < ps.len() implies (
            #[trigger] ps[j] matches SpecPremise::State { expect } ==> reached(
                producers,
                expect,
            )) by {
                if j < front.len() {
                    assert(front[j] == ps[j]);
                }
            }
        }
        if forall|j: int|
            0 <= j < ps.len() ==> (#[trigger] ps[j] matches SpecPremise::State { expect }
                ==> reached(producers, expect)) {
            assert forall|j: int| 0 <= j < front.len() implies (
            #[trigger] front[j] matches SpecPremise::State { expect } ==> reached(
                producers,
                expect,
            )) by {
                assert(front[j] == ps[j]);
            }
            assert(ps[ps.len() - 1] == ps.last());
        }
    }
}

/// Whether every state premise of the rules is reached.
spec fn states_reached(rs: Seq<SpecRule>, producers: Seq<SpecFact>) -> bool {
    forall|i: int, j: int|
        0 <= i < rs.len() && 0 <= j < rs[i].premises.len() ==> (
        #[trigger] rs[i].premises[j] matches SpecPremise::State { expect } ==> reached(
            producers,
            expect,
        ))
}

proof fn lemma_undefined_empty(rs: Seq<SpecRule>, producers: Seq<SpecFact>)
    ensures
        undefined_states(rs, producers).len() == 0 <==> states_reached(rs, producers),
        forall|k: int|
            0 <= k < undefined_states(rs, producers).len() ==> (#[trigger] undefined_states(
                rs,
                producers,
            )[k]).severity == Severity::Error,
    decreases rs.len(),
{
    if rs.len() > 0 {
        let front = rs.drop_last();
        lemma_undefined_empty(front, producers);
        lemma_in_rule_empty(rs.last().variant, rs.last().premises, producers);
        let was = undefined_states(front, producers);
        let here = undefined_in_rule(rs.last().variant, rs.last().premises, producers);
        let all = undefined_states(rs, producers);
        assert forall|k: int| 0 <= k < all.len() implies (#[trigger] all[k]).severity
            == Severity::Error by {
            if k < was.len() {
                assert(all[k] == was[k]);
            } else {
                assert(all[k] == here[k - was.len()]);
            }
        }
        if was.len() == 0 && here.len() == 0 {
            assert forall|i: int, j: int|
                0 <= i < rs.len() && 0 <= j < rs[i].premises.len() implies (
            #[trigger] rs[i].premises[j] matches SpecPremise::State { expect } ==> reached(
                producers,
                expect,
            )) by {
                if i < front.len() {
                    assert(front[i].premises[j] == rs[i].premises[j]);
                } else {
                    assert(rs.last().premises[j] == rs[i].premises[j]);
                }
            }
        }
        if states_reached(rs, producers) {
            assert forall|i: int, j: int|
                0 <= i < front.len() && 0 <= j < front[i].premises.len() implies (
            #[trigger] front[i].premises[j] matches SpecPremise::State { expect } ==> reached(
                producers,
                expect,
            )) by {
                assert(rs[i].premises[j] == front[i].premises[j]);
            }
            assert forall|j: int| 0 <= j < rs.last().premises.len() implies (
            #[trigger] rs.last().premises[j] matches SpecPremise::State { expect } ==> reached(
                producers,
                expect,
            )) by {
                assert(rs[rs.len() - 1].premises[j] == rs.last().premises[j]);
            }
        }
    }
}

/// Whether a list of origins has a predicate.
spec fn has_pred(os: Seq<SpecOrigin>, pred: Seq<char>) -> bool {
    exists|i: int| 0 <= i < os.len() && (#[trigger] os[i]).pred == pred
}

proof fn lemma_insert_origin(os: Seq<SpecOrigin>, pred: Seq<char>, origin: Seq<char>, x: Seq<char>)
    ensures
        has_pred(insert_origin(os, pred, origin), x) <==> has_pred(os, x) || x == pred,
    decreases os.len(),
{
    let out = insert_origin(os, pred, origin);
    if os.len() == 0 {
        assert(out[0].pred == pred);
    } else if os[0].pred == pred {
        assert(os[0].pred == pred);
    } else if crate::text::text_lt(pred, os[0].pred) {
        assert(out[0].pred == pred);
        if has_pred(os, x) {
            let i = choose|i: int| 0 <= i < os.len() && (#[trigger] os[i]).pred == x;
            assert(out[i + 1].pred == x);
        }
        if has_pred(out, x) {
            let i = choose|i: int| 0 <= i < out.len() && (#[trigger] out[i]).pred == x;
            if i > 0 {
                assert(os[i - 1].pred == x);
            }
        }
    } else {
        let rest = os.skip(1);
        let more = insert_origin(rest, pred, origin);
        lemma_insert_origin(rest, pred, origin, x);
        if has_pred(os, x) {
            let i = choose|i: int| 0 <= i < os.len() && (#[trigger] os[i]).pred == x;
            if i == 0 {
                assert(out[0].pred == x);
            } else {
                assert(rest[i - 1].pred == x);
            }
        }
        if has_pred(more, x) {
            let i = choose|i: int| 0 <= i < more.len() && (#[trigger] more[i]).pred == x;
            assert(out[i + 1].pred == x);
        }
        if has_pred(out, x) {
            let i = choose|i: int| 0 <= i < out.len() && (#[trigger] out[i]).pred == x;
            if i > 0 {
                assert(more[i - 1].pred == x);
            } else {
                assert(os[0].pred == x);
            }
        }
        if has_pred(rest, x) {
            let i = choose|i: int| 0 <= i < rest.len() && (#[trigger] rest[i]).pred == x;
            assert(os[i + 1].pred == x);
        }
    }
}

proof fn lemma_slot_origins(ds: Seq<SpecSeqSlot>, x: Seq<char>)
    ensures
        has_pred(slot_origins(ds), x) <==> exists|i: int|
            0 <= i < ds.len() && (#[trigger] ds[i]).initial.pred == x,
    decreases ds.len(),
{
    if ds.len() > 0 {
        let front = ds.drop_last();
        lemma_slot_origins(front, x);
        lemma_insert_origin(
            slot_origins(front),
            ds.last().initial.pred,
            crate::check::validate::slot_origin(ds.last()),
            x,
        );
        if exists|i: int| 0 <= i < ds.len() && (#[trigger] ds[i]).initial.pred == x {
            let i = choose|i: int| 0 <= i < ds.len() && (#[trigger] ds[i]).initial.pred == x;
            if i < front.len() {
                assert(front[i].initial.pred == x);
            }
        }
        if exists|i: int| 0 <= i < front.len() && (#[trigger] front[i]).initial.pred == x {
            let i = choose|i: int| 0 <= i < front.len() && (#[trigger] front[i]).initial.pred == x;
            assert(ds[i].initial.pred == x);
        }
        if ds.last().initial.pred == x {
            assert(ds[ds.len() - 1].initial.pred == x);
        }
    }
}

/// Whether a rule concludes or moves to a fact of a predicate.
spec fn rule_makes(r: SpecRule, x: Seq<char>) -> bool {
    (r.conclusion matches Some(f) && f.pred == x) || (r.state_after matches Some(f) && f.pred == x)
}

proof fn lemma_rule_origins(os: Seq<SpecOrigin>, rs: Seq<SpecRule>, x: Seq<char>)
    ensures
        has_pred(rule_origins(os, rs), x) <==> has_pred(os, x) || exists|i: int|
            0 <= i < rs.len() && rule_makes(#[trigger] rs[i], x),
    decreases rs.len(),
{
    if rs.len() > 0 {
        let front = rs.drop_last();
        let r = rs.last();
        let origin = crate::check::validate::rule_origin(r);
        let before = rule_origins(os, front);
        lemma_rule_origins(os, front, x);
        let mid = with_origin(before, r.conclusion, origin);
        if let Some(f) = r.conclusion {
            lemma_insert_origin(before, f.pred, origin, x);
        }
        if let Some(f) = r.state_after {
            lemma_insert_origin(mid, f.pred, origin, x);
        }
        assert(has_pred(rule_origins(os, rs), x) <==> has_pred(before, x) || rule_makes(r, x));
        if exists|i: int| 0 <= i < rs.len() && rule_makes(#[trigger] rs[i], x) {
            let i = choose|i: int| 0 <= i < rs.len() && rule_makes(#[trigger] rs[i], x);
            if i < front.len() {
                assert(rule_makes(front[i], x));
            }
        }
        if exists|i: int| 0 <= i < front.len() && rule_makes(#[trigger] front[i], x) {
            let i = choose|i: int| 0 <= i < front.len() && rule_makes(#[trigger] front[i], x);
            assert(rule_makes(rs[i], x));
        }
        if rule_makes(r, x) {
            assert(rule_makes(rs[rs.len() - 1], x));
        }
    }
}

proof fn lemma_produced(p: SpecProgram, x: Seq<char>)
    ensures
        has_pred(produced(p), x) <==> produces(p, x),
{
    lemma_slot_origins(p.seq_slots, x);
    lemma_rule_origins(slot_origins(p.seq_slots), p.rules, x);
    if exists|i: int| 0 <= i < p.rules.len() && rule_makes(#[trigger] p.rules[i], x) {
        let i = choose|i: int| 0 <= i < p.rules.len() && rule_makes(#[trigger] p.rules[i], x);
        assert((p.rules[i].conclusion matches Some(f) && f.pred == x) || (
        p.rules[i].state_after matches Some(f) && f.pred == x));
    }
    if produces(p, x) && exists|i: int|
        0 <= i < p.rules.len() && (((#[trigger] p.rules[i]).conclusion matches Some(f) && f.pred
            == x) || (p.rules[i].state_after matches Some(f) && f.pred == x)) {
        let i = choose|i: int|
            0 <= i < p.rules.len() && (((#[trigger] p.rules[i]).conclusion matches Some(f) && f.pred
                == x) || (p.rules[i].state_after matches Some(f) && f.pred == x));
        assert(rule_makes(p.rules[i], x));
    }
}

proof fn lemma_required(p: SpecProgram, x: Seq<char>)
    ensures
        required(p.rules, x) <==> consumes(p, x),
{
    if required(p.rules, x) {
        let i = choose|i: int| 0 <= i < p.rules.len() && rule_asks(#[trigger] p.rules[i], x);
        let r = p.rules[i];
        let j = choose|j: int|
            0 <= j < r.premises.len() && crate::check::validate::premise_asks(
                #[trigger] r.premises[j],
                x,
            );
        assert(p.rules[i].premises[j] == r.premises[j]);
    }
    if consumes(p, x) {
        let (i, j) = choose|i: int, j: int|
            0 <= i < p.rules.len() && 0 <= j < p.rules[i].premises.len()
                && match #[trigger] p.rules[i].premises[j] {
                SpecPremise::Child { expect, .. } => expect.pred == x,
                SpecPremise::State { expect } => expect.pred == x,
                _ => false,
            };
        assert(crate::check::validate::premise_asks(p.rules[i].premises[j], x));
        assert(rule_asks(p.rules[i], x));
    }
}

proof fn lemma_unused(os: Seq<SpecOrigin>, rs: Seq<SpecRule>)
    ensures
        unused_preds(os, rs).len() == 0 <==> forall|i: int|
            0 <= i < os.len() ==> required(rs, (#[trigger] os[i]).pred),
        forall|i: int|
            0 <= i < os.len() && !required(rs, (#[trigger] os[i]).pred) ==> unused_preds(
                os,
                rs,
            ).contains(unused_pred(os[i])),
    decreases os.len(),
{
    if os.len() > 0 {
        let front = os.drop_last();
        let was = unused_preds(front, rs);
        let all = unused_preds(os, rs);
        lemma_unused(front, rs);
        assert forall|i: int|
            0 <= i < os.len() && !required(rs, (#[trigger] os[i]).pred) implies all.contains(
            unused_pred(os[i]),
        ) by {
            if i < front.len() {
                assert(front[i] == os[i]);
                let k = choose|k: int| 0 <= k < was.len() && was[k] == unused_pred(os[i]);
                assert(all[k] == unused_pred(os[i]));
            } else {
                assert(all[was.len() as int] == unused_pred(os[i]));
            }
        }
        if forall|i: int| 0 <= i < os.len() ==> required(rs, (#[trigger] os[i]).pred) {
            assert forall|i: int| 0 <= i < front.len() implies required(
                rs,
                (#[trigger] front[i]).pred,
            ) by {
                assert(front[i] == os[i]);
            }
            assert(os[os.len() - 1] == os.last());
        }
        if all.len() == 0 {
            assert forall|i: int| 0 <= i < os.len() implies required(
                rs,
                (#[trigger] os[i]).pred,
            ) by {
                if i < front.len() {
                    assert(front[i] == os[i]);
                }
            }
        }
    }
}

proof fn lemma_winner(earlier: Seq<SpecRule>, r: SpecRule)
    ensures
        winner_over(earlier, r) is Some <==> exists|j: int|
            0 <= j < earlier.len() && (#[trigger] earlier[j]).variant == r.variant && (
            earlier[j].premises.len() == 0 || earlier[j].premises == r.premises),
    decreases earlier.len(),
{
    if earlier.len() > 0 {
        let front = earlier.drop_last();
        lemma_winner(front, r);
        if exists|j: int|
            0 <= j < earlier.len() && (#[trigger] earlier[j]).variant == r.variant && (
            earlier[j].premises.len() == 0 || earlier[j].premises == r.premises) {
            let j = choose|j: int|
                0 <= j < earlier.len() && (#[trigger] earlier[j]).variant == r.variant && (
                earlier[j].premises.len() == 0 || earlier[j].premises == r.premises);
            if j < front.len() {
                assert(front[j].variant == r.variant);
            }
        }
        if winner_over(front, r) is Some {
            let j = choose|j: int|
                0 <= j < front.len() && (#[trigger] front[j]).variant == r.variant && (
                front[j].premises.len() == 0 || front[j].premises == r.premises);
            assert(earlier[j].variant == r.variant);
        }
        if earlier.last().variant == r.variant && shadowed(earlier.last(), r) {
            assert(earlier[earlier.len() - 1].variant == r.variant);
        }
    }
}

/// How many of the first `n` rules never fire.
pub open spec fn idle_rules(p: SpecProgram, n: nat) -> nat
    decreases n,
{
    if n == 0 || n > p.rules.len() {
        0
    } else {
        idle_rules(p, (n - 1) as nat) + if never_fires(p, n - 1) {
            1nat
        } else {
            0
        }
    }
}

proof fn lemma_unreachable(p: SpecProgram, n: nat)
    requires
        n <= p.rules.len(),
    ensures
        unreachable_rules(p.rules.take(n as int)).len() == idle_rules(p, n),
    decreases n,
{
    let rs = p.rules.take(n as int);
    if n > 0 {
        let front = p.rules.take(n - 1);
        assert(rs.drop_last() =~= front);
        lemma_unreachable(p, (n - 1) as nat);
        lemma_winner(front, rs.last());
        assert(rs.last() == p.rules[n - 1]);
        if winner_over(front, rs.last()) is Some {
            let j = choose|j: int|
                0 <= j < front.len() && (#[trigger] front[j]).variant == rs.last().variant && (
                front[j].premises.len() == 0 || front[j].premises == rs.last().premises);
            assert(p.rules[j] == front[j]);
        }
        if never_fires(p, n - 1) {
            let j = choose|j: int|
                0 <= j < n - 1 && (#[trigger] p.rules[j]).variant == p.rules[n - 1].variant && (
                p.rules[j].premises.len() == 0 || p.rules[j].premises
                    == p.rules[n - 1].premises);
            assert(front[j] == p.rules[j]);
        }
    }
}

proof fn lemma_idle(p: SpecProgram, n: nat)
    requires
        n <= p.rules.len(),
    ensures
        idle_rules(p, n) == 0 <==> forall|i: int| 0 <= i < n ==> !#[trigger] never_fires(p, i),
    decreases n,
{
    if n > 0 {
        lemma_idle(p, (n - 1) as nat);
        if never_fires(p, n - 1) {
            assert(0 <= n - 1 < n && never_fires(p, n - 1));
        }
    }
}

/// A program validates clean exactly where every state premise asks for what a
/// fold can start from or a rule can move to, every predicate that it produces
/// is asked for by some premise, and every rule can get its turn. What is
/// wrong with a state is an error; each predicate in vain and each rule
/// without a turn has a report of its own.
pub proof fn law_validation_is_clean_where_nothing_is_in_vain(p: SpecProgram)
    ensures
        validation(p).len() == 0 <==> {
            &&& forall|i: int, j: int|
                0 <= i < p.rules.len() && 0 <= j < p.rules[i].premises.len() ==> (
                #[trigger] p.rules[i].premises[j] matches SpecPremise::State { expect }
                    ==> can_be_state(p, expect))
            &&& forall|pred: Seq<char>| #[trigger] produces(p, pred) ==> consumes(p, pred)
            &&& forall|i: int| 0 <= i < p.rules.len() ==> !#[trigger] never_fires(p, i)
        },
        validation(p).len() == undefined_states(p.rules, producers_of(p)).len() + unused_preds(
            produced(p),
            p.rules,
        ).len() + idle_rules(p, p.rules.len()),
        forall|pred: Seq<char>| #[trigger]
            produces(p, pred) && !consumes(p, pred) ==> exists|origin: Seq<char>|
                validation(p).contains(#[trigger] unused_pred(SpecOrigin { pred, origin })),
{
    let producers = producers_of(p);
    let a = undefined_states(p.rules, producers);
    let b = unused_preds(produced(p), p.rules);
    let c = unreachable_rules(p.rules);
    let os = produced(p);
    let n = p.rules.len();
    lemma_undefined_empty(p.rules, producers);
    lemma_unused(os, p.rules);
    assert(p.rules.take(n as int) =~= p.rules);
    lemma_unreachable(p, n);
    lemma_idle(p, n);
    if states_reached(p.rules, producers) {
        assert forall|i: int, j: int|
            0 <= i < n && 0 <= j < p.rules[i].premises.len() implies (
        #[trigger] p.rules[i].premises[j] matches SpecPremise::State { expect } ==> can_be_state(
            p,
            expect,
        )) by {
            if let SpecPremise::State { expect } = p.rules[i].premises[j] {
                lemma_reached(p, expect);
            }
        }
    }
    if forall|i: int, j: int|
        0 <= i < n && 0 <= j < p.rules[i].premises.len() ==> (
        #[trigger] p.rules[i].premises[j] matches SpecPremise::State { expect } ==> can_be_state(
            p,
            expect,
        )) {
        assert forall|i: int, j: int|
            0 <= i < n && 0 <= j < p.rules[i].premises.len() implies (
        #[trigger] p.rules[i].premises[j] matches SpecPremise::State { expect } ==> reached(
            producers,
            expect,
        )) by {
            if let SpecPremise::State { expect } = p.rules[i].premises[j] {
                lemma_reached(p, expect);
            }
        }
    }
    assert forall|pred: Seq<char>| #[trigger] produces(p, pred) && !consumes(p, pred) implies exists|
        origin: Seq<char>,
    |
        validation(p).contains(#[trigger] unused_pred(SpecOrigin { pred, origin })) by {
        lemma_produced(p, pred);
        lemma_required(p, pred);
        let i = choose|i: int| 0 <= i < os.len() && (#[trigger] os[i]).pred == pred;
        let d = unused_pred(os[i]);
        let k = choose|k: int| 0 <= k < b.len() && b[k] == d;
        assert(validation(p)[a.len() + k] == d);
        assert(os[i] == SpecOrigin { pred, origin: os[i].origin });
    }
    if b.len() == 0 {
        assert forall|pred: Seq<char>| #[trigger] produces(p, pred) implies consumes(p, pred) by {
            lemma_produced(p, pred);
            lemma_required(p, pred);
            let i = choose|i: int| 0 <= i < os.len() && (#[trigger] os[i]).pred == pred;
            assert(required(p.rules, os[i].pred));
        }
    }
    if forall|pred: Seq<char>| #[trigger] produces(p, pred) ==> consumes(p, pred) {
        assert forall|i: int| 0 <= i < os.len() implies required(
            p.rules,
            (#[trigger] os[i]).pred,
        ) by {
            let pred = os[i].pred;
            assert(has_pred(os, pred));
            lemma_produced(p, pred);
            lemma_required(p, pred);
        }
    }
}

// ---------------------------------------------------------------------------
// Hints
// ---------------------------------------------------------------------------

/// Whether a term mentions a name in a place of a kind.
pub open spec fn mentions(t: SpecTerm, name: Seq<char>, kind: NameKind) -> bool
    decreases t, 0nat,
{
    match t {
        SpecTerm::Atom(n) => kind == NameKind::Atom && n == name,
        SpecTerm::Ctor(n, args) => (kind == NameKind::Ctor && n == name) || any_mentions(
            args,
            args.len(),
            name,
            kind,
        ),
        _ => false,
    }
}

/// Whether one of the first `n` terms mentions a name.
pub open spec fn any_mentions(
    ts: Seq<SpecTerm>,
    n: nat,
    name: Seq<char>,
    kind: NameKind,
) -> bool
    decreases ts, n,
{
    if n == 0 || n > ts.len() {
        false
    } else {
        any_mentions(ts, (n - 1) as nat, name, kind) || mentions(ts[n - 1], name, kind)
    }
}

/// Whether a fact mentions a name.
pub open spec fn fact_mentions(f: SpecFact, name: Seq<char>, kind: NameKind) -> bool {
    any_mentions(f.args, f.args.len(), name, kind)
}

/// Whether a premise mentions a name.
pub open spec fn premise_mentions(p: SpecPremise, name: Seq<char>, kind: NameKind) -> bool {
    match p {
        SpecPremise::Child { expect, .. } => fact_mentions(expect, name, kind),
        SpecPremise::State { expect } => fact_mentions(expect, name, kind),
        SpecPremise::Eq(l, r) => mentions(l, name, kind) || mentions(r, name, kind),
        SpecPremise::Neq(l, r) => mentions(l, name, kind) || mentions(r, name, kind),
    }
}

/// Whether a rule mentions a name, in a premise, its conclusion or its move.
pub open spec fn rule_mentions(r: SpecRule, name: Seq<char>, kind: NameKind) -> bool {
    ||| exists|i: int| 0 <= i < r.premises.len() && premise_mentions(#[trigger] r.premises[i], name, kind)
    ||| r.conclusion matches Some(f) && fact_mentions(f, name, kind)
    ||| r.state_after matches Some(f) && fact_mentions(f, name, kind)
}

/// Whether a program mentions a name, in a rule or a fold's start.
pub open spec fn program_mentions(p: SpecProgram, name: Seq<char>, kind: NameKind) -> bool {
    ||| exists|i: int| 0 <= i < p.rules.len() && rule_mentions(#[trigger] p.rules[i], name, kind)
    ||| exists|i: int|
        0 <= i < p.seq_slots.len() && fact_mentions((#[trigger] p.seq_slots[i]).initial, name, kind)
}

/// Whether a vocabulary has a name of a kind.
pub open spec fn knows(v: SpecVocabulary, name: Seq<char>, kind: NameKind) -> bool {
    match kind {
        NameKind::Atom => v.atoms.contains(name),
        NameKind::Ctor => v.ctors.contains(name),
    }
}

proof fn lemma_insert_contains(names: Seq<Seq<char>>, name: Seq<char>, x: Seq<char>)
    ensures
        insert_name(names, name).contains(x) <==> names.contains(x) || x == name,
    decreases names.len(),
{
    let out = insert_name(names, name);
    if names.len() == 0 {
        assert(out[0] == name);
    } else if names[0] == name {
        assert(names[0] == name);
    } else if crate::text::text_lt(name, names[0]) {
        assert(out[0] == name);
        if names.contains(x) {
            let i = choose|i: int| 0 <= i < names.len() && names[i] == x;
            assert(out[i + 1] == x);
        }
        if out.contains(x) && x != name {
            let i = choose|i: int| 0 <= i < out.len() && out[i] == x;
            assert(names[i - 1] == x);
        }
    } else {
        let rest = names.skip(1);
        let more = insert_name(rest, name);
        lemma_insert_contains(rest, name, x);
        if names.contains(x) {
            let i = choose|i: int| 0 <= i < names.len() && names[i] == x;
            if i == 0 {
                assert(out[0] == x);
            } else {
                assert(rest[i - 1] == x);
            }
        }
        if more.contains(x) {
            let i = choose|i: int| 0 <= i < more.len() && more[i] == x;
            assert(out[i + 1] == x);
        }
        if out.contains(x) {
            let i = choose|i: int| 0 <= i < out.len() && out[i] == x;
            if i == 0 {
                assert(names[0] == x);
            } else {
                assert(more[i - 1] == x);
            }
        }
        if rest.contains(x) {
            let i = choose|i: int| 0 <= i < rest.len() && rest[i] == x;
            assert(names[i + 1] == x);
        }
    }
}

proof fn lemma_with_term(v: SpecVocabulary, t: SpecTerm, x: Seq<char>, kind: NameKind)
    ensures
        knows(with_term(v, t), x, kind) <==> knows(v, x, kind) || mentions(t, x, kind),
    decreases t, 0nat,
{
    match t {
        SpecTerm::Atom(n) => lemma_insert_contains(v.atoms, n, x),
        SpecTerm::Ctor(n, args) => {
            lemma_insert_contains(v.ctors, n, x);
            lemma_with_terms(
                SpecVocabulary { ctors: insert_name(v.ctors, n), ..v },
                args,
                args.len(),
                x,
                kind,
            );
        },
        _ => {},
    }
}

proof fn lemma_with_terms(
    v: SpecVocabulary,
    ts: Seq<SpecTerm>,
    n: nat,
    x: Seq<char>,
    kind: NameKind,
)
    ensures
        knows(with_terms(v, ts, n), x, kind) <==> knows(v, x, kind) || any_mentions(
            ts,
            n,
            x,
            kind,
        ),
    decreases ts, n,
{
    if 0 < n <= ts.len() {
        lemma_with_terms(v, ts, (n - 1) as nat, x, kind);
        lemma_with_term(with_terms(v, ts, (n - 1) as nat), ts[n - 1], x, kind);
    }
}

proof fn lemma_with_premises(
    v: SpecVocabulary,
    ps: Seq<SpecPremise>,
    x: Seq<char>,
    kind: NameKind,
)
    ensures
        knows(with_premises(v, ps), x, kind) <==> knows(v, x, kind) || exists|i: int|
            0 <= i < ps.len() && premise_mentions(#[trigger] ps[i], x, kind),
    decreases ps.len(),
{
    if ps.len() > 0 {
        let front = ps.drop_last();
        let before = with_premises(v, front);
        lemma_with_premises(v, front, x, kind);
        match ps.last() {
            SpecPremise::Child { expect, .. } => lemma_with_terms(
                before,
                expect.args,
                expect.args.len(),
                x,
                kind,
            ),
            SpecPremise::State { expect } => lemma_with_terms(
                before,
                expect.args,
                expect.args.len(),
                x,
                kind,
            ),
            SpecPremise::Eq(l, r) => {
                lemma_with_term(before, l, x, kind);
                lemma_with_term(with_term(before, l), r, x, kind);
            },
            SpecPremise::Neq(l, r) => {
                lemma_with_term(before, l, x, kind);
                lemma_with_term(with_term(before, l), r, x, kind);
            },
        }
        if exists|i: int| 0 <= i < ps.len() && premise_mentions(#[trigger] ps[i], x, kind) {
            let i = choose|i: int|
                0 <= i < ps.len() && premise_mentions(#[trigger] ps[i], x, kind);
            if i < front.len() {
                assert(premise_mentions(front[i], x, kind));
            }
        }
        if exists|i: int| 0 <= i < front.len() && premise_mentions(#[trigger] front[i], x, kind) {
            let i = choose|i: int|
                0 <= i < front.len() && premise_mentions(#[trigger] front[i], x, kind);
            assert(premise_mentions(ps[i], x, kind));
        }
        if premise_mentions(ps.last(), x, kind) {
            assert(premise_mentions(ps[ps.len() - 1], x, kind));
        }
    }
}

proof fn lemma_with_rules(v: SpecVocabulary, rs: Seq<SpecRule>, x: Seq<char>, kind: NameKind)
    ensures
        knows(with_rules(v, rs), x, kind) <==> knows(v, x, kind) || exists|i: int|
            0 <= i < rs.len() && rule_mentions(#[trigger] rs[i], x, kind),
    decreases rs.len(),
{
    if rs.len() > 0 {
        let front = rs.drop_last();
        let r = rs.last();
        let before = with_rules(v, front);
        lemma_with_rules(v, front, x, kind);
        lemma_with_premises(before, r.premises, x, kind);
        let a = with_premises(before, r.premises);
        let b = with_opt_fact(a, r.conclusion);
        if let Some(f) = r.conclusion {
            lemma_with_terms(a, f.args, f.args.len(), x, kind);
        }
        if let Some(f) = r.state_after {
            lemma_with_terms(b, f.args, f.args.len(), x, kind);
        }
        assert(knows(with_rule(before, r), x, kind) <==> knows(before, x, kind) || rule_mentions(
            r,
            x,
            kind,
        ));
        if exists|i: int| 0 <= i < rs.len() && rule_mentions(#[trigger] rs[i], x, kind) {
            let i = choose|i: int| 0 <= i < rs.len() && rule_mentions(#[trigger] rs[i], x, kind);
            if i < front.len() {
                assert(rule_mentions(front[i], x, kind));
            }
        }
        if exists|i: int| 0 <= i < front.len() && rule_mentions(#[trigger] front[i], x, kind) {
            let i = choose|i: int|
                0 <= i < front.len() && rule_mentions(#[trigger] front[i], x, kind);
            assert(rule_mentions(rs[i], x, kind));
        }
        if rule_mentions(r, x, kind) {
            assert(rule_mentions(rs[rs.len() - 1], x, kind));
        }
    }
}

proof fn lemma_with_seeds(v: SpecVocabulary, ds: Seq<SpecSeqSlot>, x: Seq<char>, kind: NameKind)
    ensures
        knows(with_seeds(v, ds), x, kind) <==> knows(v, x, kind) || exists|i: int|
            0 <= i < ds.len() && fact_mentions((#[trigger] ds[i]).initial, x, kind),
    decreases ds.len(),
{
    if ds.len() > 0 {
        let front = ds.drop_last();
        let f = ds.last().initial;
        lemma_with_seeds(v, front, x, kind);
        lemma_with_terms(with_seeds(v, front), f.args, f.args.len(), x, kind);
        if exists|i: int| 0 <= i < ds.len() && fact_mentions((#[trigger] ds[i]).initial, x, kind) {
            let i = choose|i: int|
                0 <= i < ds.len() && fact_mentions((#[trigger] ds[i]).initial, x, kind);
            if i < front.len() {
                assert(fact_mentions(front[i].initial, x, kind));
            }
        }
        if exists|i: int|
            0 <= i < front.len() && fact_mentions((#[trigger] front[i]).initial, x, kind) {
            let i = choose|i: int|
                0 <= i < front.len() && fact_mentions((#[trigger] front[i]).initial, x, kind);
            assert(fact_mentions(ds[i].initial, x, kind));
        }
        if fact_mentions(f, x, kind) {
            assert(fact_mentions(ds[ds.len() - 1].initial, x, kind));
        }
    }
}

/// The vocabulary of a program has exactly the names of values and shapes that
/// its rules and folds mention, each under its kind.
pub proof fn law_a_vocabulary_has_what_its_program_mentions(
    p: SpecProgram,
    name: Seq<char>,
    kind: NameKind,
)
    ensures
        knows(vocabulary_of(p), name, kind) <==> program_mentions(p, name, kind),
{
    lemma_with_seeds(no_names(), p.seq_slots, name, kind);
    lemma_with_rules(with_seeds(no_names(), p.seq_slots), p.rules, name, kind);
}

proof fn lemma_merge(names: Seq<Seq<char>>, more: Seq<Seq<char>>, x: Seq<char>)
    ensures
        merge_names(names, more).contains(x) <==> names.contains(x) || more.contains(x),
    decreases more.len(),
{
    if more.len() > 0 {
        let front = more.drop_last();
        lemma_merge(names, front, x);
        lemma_insert_contains(merge_names(names, front), more.last(), x);
        if more.contains(x) && x != more.last() {
            let i = choose|i: int| 0 <= i < more.len() && more[i] == x;
            assert(front[i] == x);
        }
        if front.contains(x) {
            let i = choose|i: int| 0 <= i < front.len() && front[i] == x;
            assert(more[i] == x);
        }
        if x == more.last() {
            assert(more[more.len() - 1] == x);
        }
    }
}

proof fn lemma_without(names: Seq<Seq<char>>, name: Seq<char>, x: Seq<char>)
    ensures
        without_name(names, name).contains(x) <==> names.contains(x) && x != name,
    decreases names.len(),
{
    if names.len() > 0 {
        let front = names.drop_last();
        let was = without_name(front, name);
        let all = without_name(names, name);
        lemma_without(front, name, x);
        if was.contains(x) {
            let i = choose|i: int| 0 <= i < was.len() && was[i] == x;
            assert(all[i] == x);
        }
        if front.contains(x) {
            let i = choose|i: int| 0 <= i < front.len() && front[i] == x;
            assert(names[i] == x);
        }
        if names.contains(x) && x != names.last() {
            let i = choose|i: int| 0 <= i < names.len() && names[i] == x;
            assert(front[i] == x);
        }
        if all.contains(x) {
            let i = choose|i: int| 0 <= i < all.len() && all[i] == x;
            if i < was.len() {
                assert(was[i] == x);
            } else {
                assert(names[names.len() - 1] == x);
            }
        }
        if names.last() == x && x != name {
            assert(all[was.len() as int] == x);
        }
    }
}

proof fn lemma_disagreement(e: SpecTerm, f: SpecTerm)
    ensures
        term_disagreement(e, f) matches Some((name, kind)) ==> mentions(e, name, kind) && e != f,
    decreases e, 0nat,
{
    if let (SpecTerm::Ctor(an, aa), SpecTerm::Ctor(bn, ba)) = (e, f) {
        if an == bn && aa.len() == ba.len() {
            lemma_disagreements(aa, ba, aa.len());
        }
    }
}

proof fn lemma_disagreements(es: Seq<SpecTerm>, fs: Seq<SpecTerm>, n: nat)
    requires
        n <= es.len() == fs.len(),
    ensures
        terms_disagreement(es, fs, n) matches Some((name, kind)) ==> any_mentions(
            es,
            n,
            name,
            kind,
        ) && es != fs,
    decreases es, n,
{
    if n > 0 {
        lemma_disagreements(es, fs, (n - 1) as nat);
        lemma_disagreement(es[n - 1], fs[n - 1]);
    }
}

/// What a suggester is asked about: a name in the expected fact, and as
/// candidates all other names of its kind that the vocabulary has or the fact
/// that was found mentions. Facts that are the same, or of different predicates
/// or arities, ask nothing, and so does a name without any candidate.
pub proof fn law_a_hint_is_asked_about_a_name_of_what_was_expected(
    v: SpecVocabulary,
    e: SpecFact,
    f: SpecFact,
    x: Seq<char>,
)
    ensures
        hint_request_of(v, e, f) matches Some(r) ==> exists|kind: NameKind|
            #![trigger fact_mentions(e, r.query, kind)]
            fact_mentions(e, r.query, kind) && (r.candidates.contains(x) <==> x != r.query && (
            knows(v, x, kind) || fact_mentions(f, x, kind))),
        e == f || e.pred != f.pred || e.args.len() != f.args.len() ==> hint_request_of(
            v,
            e,
            f,
        ) is None,
        disagreement(e, f) matches Some((query, kind)) ==> (hint_request_of(v, e, f) is None
            ==> !(x != query && (knows(v, x, kind) || fact_mentions(f, x, kind)))),
{
    if e.pred == f.pred && e.args.len() == f.args.len() {
        lemma_disagreements(e.args, f.args, e.args.len());
        if let Some((query, kind)) = disagreement(e, f) {
            let from = with_fact(no_names(), f);
            let pool = match kind {
                NameKind::Atom => merge_names(v.atoms, from.atoms),
                NameKind::Ctor => merge_names(v.ctors, from.ctors),
            };
            lemma_with_terms(no_names(), f.args, f.args.len(), x, kind);
            match kind {
                NameKind::Atom => lemma_merge(v.atoms, from.atoms, x),
                NameKind::Ctor => lemma_merge(v.ctors, from.ctors, x),
            }
            lemma_without(pool, query, x);
            assert(fact_mentions(e, query, kind));
            assert(!knows(no_names(), x, kind));
            assert(pool.contains(x) <==> knows(v, x, kind) || fact_mentions(f, x, kind));
            if let Some(r) = hint_request_of(v, e, f) {
                assert(fact_mentions(e, r.query, kind));
            }
            if hint_request_of(v, e, f) is None {
                assert(!without_name(pool, query).contains(x));
            }
        }
    }
}

// ---------------------------------------------------------------------------
// Messages
// ---------------------------------------------------------------------------

/// The text of a template without its first `k` characters is rendered like the
/// template from there on.
proof fn lemma_find_shift(cs: Seq<char>, c: char, k: int, from: int)
    requires
        0 <= k <= from <= cs.len(),
    ensures
        find_char(cs, c, from) == k + find_char(cs.skip(k), c, from - k),
        from <= find_char(cs, c, from) <= cs.len(),
    decreases cs.len() - from,
{
    if from < cs.len() && cs[from] != c {
        lemma_find_shift(cs, c, k, from + 1);
        assert(cs.skip(k)[from - k] == cs[from]);
    } else if from < cs.len() {
        assert(cs.skip(k)[from - k] == cs[from]);
    }
}

proof fn lemma_render_shift(cs: Seq<char>, k: int, from: int, ctx: SpecMsgCtx)
    requires
        0 <= k <= from <= cs.len(),
    ensures
        rendered_from(cs, from, ctx) == rendered_from(cs.skip(k), from - k, ctx),
    decreases cs.len() - from,
{
    let ds = cs.skip(k);
    if from < cs.len() {
        let open = find_char(cs, '{', from);
        lemma_find_shift(cs, '{', k, from);
        if open < cs.len() {
            let close = find_char(cs, '}', open + 1);
            lemma_find_shift(cs, '}', k, open + 1);
            if close < cs.len() {
                lemma_render_shift(cs, k, close + 1, ctx);
                assert(ds.subrange(from - k, open - k) =~= cs.subrange(from, open));
                assert(ds.subrange(open - k + 1, close - k) =~= cs.subrange(open + 1, close));
            } else {
                assert(ds.skip(from - k) =~= cs.skip(from));
            }
        } else {
            assert(ds.skip(from - k) =~= cs.skip(from));
            assert(find_char(cs, '}', open + 1) >= cs.len());
        }
    }
}

proof fn lemma_find_at(cs: Seq<char>, c: char, from: int, at: int)
    requires
        0 <= from <= at < cs.len(),
        cs[at] == c,
        forall|i: int| from <= i < at ==> cs[i] != c,
    ensures
        find_char(cs, c, from) == at,
    decreases at - from,
{
    if from < at {
        lemma_find_at(cs, c, from + 1, at);
    }
}

proof fn lemma_find_none(cs: Seq<char>, c: char, from: int)
    requires
        0 <= from <= cs.len(),
        forall|i: int| from <= i < cs.len() ==> cs[i] != c,
    ensures
        find_char(cs, c, from) == cs.len(),
    decreases cs.len() - from,
{
    if from < cs.len() {
        lemma_find_none(cs, c, from + 1);
    }
}

/// A template is rendered hole by hole: text without an opening brace stays as
/// it is; text, a hole in braces and a rest give the text, what the hole stands
/// for, and the rest rendered.
pub proof fn law_templates_are_rendered_hole_by_hole(
    text: Seq<char>,
    hole: Seq<char>,
    rest: Seq<char>,
    ctx: SpecMsgCtx,
)
    requires
        forall|i: int| 0 <= i < text.len() ==> text[i] != '{',
        forall|i: int| 0 <= i < hole.len() ==> hole[i] != '}',
    ensures
        rendered(text, ctx) == text,
        rendered(text + seq!['{'] + hole + seq!['}'] + rest, ctx) == text + hole_text(hole, ctx)
            + rendered(rest, ctx),
{
    let cs = text + seq!['{'] + hole + seq!['}'] + rest;
    let open = text.len() as int;
    let close = open + 1 + hole.len();
    if text.len() > 0 {
        lemma_find_none(text, '{', 0);
        assert(text.skip(0) =~= text);
    } else {
        assert(rendered(text, ctx) =~= text);
    }
    assert(cs[open] == '{');
    assert forall|i: int| 0 <= i < open implies cs[i] != '{' by {
        assert(cs[i] == text[i]);
    }
    lemma_find_at(cs, '{', 0, open);
    assert(cs[close] == '}');
    assert forall|i: int| open + 1 <= i < close implies cs[i] != '}' by {
        assert(cs[i] == hole[i - open - 1]);
    }
    lemma_find_at(cs, '}', open + 1, close);
    assert(cs.subrange(0, open) =~= text);
    assert(cs.subrange(open + 1, close) =~= hole);
    lemma_render_shift(cs, close + 1, close + 1, ctx);
    assert(cs.skip(close + 1) =~= rest);
}

/// What the holes stand for.
pub proof fn law_holes_stand_for_what_they_name(ctx: SpecMsgCtx, name: Seq<char>, value: SpecTerm)
    ensures
        hole_text("expected"@, ctx) == ctx.expected,
        hole_text("found"@, ctx) == ctx.found,
        hole_text("provenance"@, ctx) == ctx.provenance,
        ctx.slot matches Some(s) ==> hole_text("slot"@, ctx) == s,
        ctx.bindings.contains_key(name) ==> hole_text(seq!['$'] + name, ctx)
            == crate::check::ir::term_text(
            crate::check::unify::applied(ctx.bindings[name], ctx.bindings),
        ),
        !ctx.bindings.contains_key(name) ==> hole_text(seq!['$'] + name, ctx) == "?"@,
{
    reveal_strlit("expected");
    reveal_strlit("found");
    reveal_strlit("provenance");
    reveal_strlit("slot");
    assert("expected"@.len() == 8 && "found"@.len() == 5 && "provenance"@.len() == 10
        && "slot"@.len() == 4);
    assert("expected"@[0] == 'e' && "found"@[0] == 'f' && "provenance"@[0] == 'p' && "slot"@[0]
        == 's');
    assert((seq!['$'] + name).skip(1) =~= name);
    assert((seq!['$'] + name)[0] == '$');
}

} // verus!
