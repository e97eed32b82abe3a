//! What validation reports, one by one.
use vstd::prelude::*;

use crate::check::codes;
use crate::check::ir::{SpecFact, SpecPremise, SpecProgram, SpecRule, SpecSeqSlot};
use crate::check::tree::{Location, Severity, SpecDiagnostic};
use crate::check::validate::{
    count_on, insert_origin, produced, producers_of, reached, required, rule_origin, rule_origins,
    slot_origin, slot_origins, undefined_in_rule, undefined_state, undefined_states,
    unreachable_rule, unreachable_rules, unused_pred, unused_preds, validation, winner_over,
    with_origin, SpecOrigin,
};
use crate::picking::{lemma_made_of_more, lemma_made_of_none, lemma_made_of_same, made_of};
use crate::text::decimal;

verus! {

/// A report comes first on states that nothing reaches, then on predicates in
/// vain, then on rules without a turn.
pub proof fn law_states_come_before_predicates_and_rules(p: SpecProgram)
    ensures
        validation(p) == undefined_states(p.rules, producers_of(p)) + unused_preds(
            produced(p),
            p.rules,
        ) + unreachable_rules(p.rules),
{
}

/// Of a rule, every state premise that nothing reaches is reported, in the
/// order of the premises, and no other.
pub proof fn law_every_unreached_state_is_reported(
    variant: Seq<char>,
    ps: Seq<SpecPremise>,
    producers: Seq<SpecFact>,
)
    ensures
        made_of(
            undefined_in_rule(variant, ps, producers),
            ps,
            ps.len() as int,
            |p: SpecPremise|
                p is State && forall|i: int|
                    0 <= i < producers.len() ==> !crate::check::unify::compatible(
                        p->State_expect,
                        #[trigger] producers[i],
                    ),
            |p: SpecPremise| undefined_state(variant, p->State_expect, producers),
        ),
    decreases ps.len(),
{
    let p = |p: SpecPremise|
        p is State && forall|i: int|
            0 <= i < producers.len() ==> !crate::check::unify::compatible(
                p->State_expect,
                #[trigger] producers[i],
            );
    let f = |p: SpecPremise| undefined_state(variant, p->State_expect, producers);
    if ps.len() == 0 {
        lemma_made_of_none(ps, p, f);
    } else {
        let init = ps.drop_last();
        let before = undefined_in_rule(variant, init, producers);
        law_every_unreached_state_is_reported(variant, init, producers);
        lemma_made_of_same(before, init, ps, ps.len() - 1, p, f);
        lemma_made_of_more(before, ps, ps.len() - 1, p, f);
        if let SpecPremise::State { expect } = ps.last() {
            if reached(producers, expect) {
                let i = choose|i: int|
                    0 <= i < producers.len() && crate::check::unify::compatible(
                        expect,
                        #[trigger] producers[i],
                    );
                assert(!p(ps[ps.len() - 1]));
            } else {
                assert(p(ps[ps.len() - 1]));
            }
        }
    }
}

/// The reports on the states of several rules are those on each, in order.
pub proof fn law_rules_are_reported_in_order(
    a: Seq<SpecRule>,
    b: Seq<SpecRule>,
    producers: Seq<SpecFact>,
    r: SpecRule,
)
    ensures
        undefined_states(a + b, producers) == undefined_states(a, producers) + undefined_states(
            b,
            producers,
        ),
        undefined_states(seq![r], producers) == undefined_in_rule(
            r.variant,
            r.premises,
            producers,
        ),
    decreases b.len(),
{
    reveal_with_fuel(undefined_states, 2);
    assert(seq![r].drop_last() =~= Seq::empty());
    assert(undefined_states(seq![r], producers) =~= undefined_in_rule(
        r.variant,
        r.premises,
        producers,
    ));
    if b.len() == 0 {
        assert(a + b =~= a);
        assert(undefined_states(a, producers) + undefined_states(b, producers)
            =~= undefined_states(a, producers));
    } else {
        law_rules_are_reported_in_order(a, b.drop_last(), producers, r);
        assert((a + b).drop_last() =~= a + b.drop_last());
        assert((a + b).last() == b.last());
        assert(undefined_states(a + b, producers) =~= undefined_states(a, producers)
            + undefined_states(b, producers));
    }
}

/// Every predicate that no premise asks for is reported, in order, and no
/// other.
pub proof fn law_every_predicate_in_vain_is_reported(os: Seq<SpecOrigin>, rs: Seq<SpecRule>)
    ensures
        made_of(
            unused_preds(os, rs),
            os,
            os.len() as int,
            |o: SpecOrigin| !required(rs, o.pred),
            |o: SpecOrigin| unused_pred(o),
        ),
    decreases os.len(),
{
    let p = |o: SpecOrigin| !required(rs, o.pred);
    let f = |o: SpecOrigin| unused_pred(o);
    if os.len() == 0 {
        lemma_made_of_none(os, p, f);
    } else {
        let init = os.drop_last();
        law_every_predicate_in_vain_is_reported(init, rs);
        lemma_made_of_same(unused_preds(init, rs), init, os, os.len() - 1, p, f);
        lemma_made_of_more(unused_preds(init, rs), os, os.len() - 1, p, f);
    }
}

/// Whether a list names an origin for a predicate.
pub open spec fn names_origin(
    os: Seq<SpecOrigin>,
    pred: Seq<char>,
    origin: Seq<char>,
) -> bool {
    exists|i: int| 0 <= i < os.len() && #[trigger] os[i] == (SpecOrigin { pred, origin })
}

/// Whether a list has a predicate.
pub open spec fn has_pred(os: Seq<SpecOrigin>, pred: Seq<char>) -> bool {
    exists|i: int| 0 <= i < os.len() && (#[trigger] os[i]).pred == pred
}

proof fn lemma_insert_origin(
    os: Seq<SpecOrigin>,
    pred: Seq<char>,
    origin: Seq<char>,
    q: Seq<char>,
    o: Seq<char>,
)
    ensures
        names_origin(os, q, o) ==> names_origin(insert_origin(os, pred, origin), q, o),
        has_pred(os, q) ==> has_pred(insert_origin(os, pred, origin), q),
        has_pred(insert_origin(os, pred, origin), pred),
        !has_pred(os, pred) ==> names_origin(insert_origin(os, pred, origin), pred, origin),
        q != pred && !has_pred(os, q) ==> !has_pred(insert_origin(os, pred, origin), q),
    decreases os.len(),
{
    let out = insert_origin(os, pred, origin);
    let new = SpecOrigin { pred, origin };
    if os.len() == 0 {
        assert(out[0] == new);
    } else if os[0].pred == pred {
    } else if crate::text::text_lt(pred, os[0].pred) {
        assert(out[0] == new);
        assert forall|i: int| 0 <= i < os.len() implies out[i + 1] == #[trigger] os[i] by {}
        if names_origin(os, q, o) {
            let i = choose|i: int| 0 <= i < os.len() && #[trigger] os[i] == (SpecOrigin {
                pred: q,
                origin: o,
            });
            assert(out[i + 1] == os[i]);
        }
        if has_pred(os, q) {
            let i = choose|i: int| 0 <= i < os.len() && (#[trigger] os[i]).pred == q;
            assert(out[i + 1] == os[i]);
        }
        if has_pred(out, q) && q != pred {
            let i = choose|i: int| 0 <= i < out.len() && (#[trigger] out[i]).pred == q;
            assert(os[i - 1].pred == q);
        }
    } else {
        let rest = os.skip(1);
        let tail = insert_origin(rest, pred, origin);
        lemma_insert_origin(rest, pred, origin, q, o);
        assert(out[0] == os[0]);
        assert forall|i: int| 0 <= i < tail.len() implies out[i + 1] == #[trigger] tail[i] by {}
        if names_origin(os, q, o) {
            let i = choose|i: int| 0 <= i < os.len() && #[trigger] os[i] == (SpecOrigin {
                pred: q,
                origin: o,
            });
            if i == 0 {
                assert(out[0] == os[0]);
            } else {
                assert(rest[i - 1] == os[i]);
                let k = choose|k: int| 0 <= k < tail.len() && #[trigger] tail[k] == (SpecOrigin {
                    pred: q,
                    origin: o,
                });
                assert(out[k + 1] == tail[k]);
            }
        }
        if has_pred(os, q) {
            let i = choose|i: int| 0 <= i < os.len() && (#[trigger] os[i]).pred == q;
            if i == 0 {
                assert(out[0].pred == q);
            } else {
                assert(rest[i - 1] == os[i]);
                let k = choose|k: int| 0 <= k < tail.len() && (#[trigger] tail[k]).pred == q;
                assert(out[k + 1] == tail[k]);
            }
        }
        let k = choose|k: int| 0 <= k < tail.len() && (#[trigger] tail[k]).pred == pred;
        assert(out[k + 1] == tail[k]);
        if !has_pred(os, pred) {
            assert(!has_pred(rest, pred)) by {
                if has_pred(rest, pred) {
                    let i = choose|i: int|
                        0 <= i < rest.len() && (#[trigger] rest[i]).pred == pred;
                    assert(os[i + 1].pred == pred);
                }
            }
            let j = choose|j: int| 0 <= j < tail.len() && #[trigger] tail[j] == new;
            assert(out[j + 1] == tail[j]);
        }
        if q != pred && !has_pred(os, q) {
            assert(os[0].pred != q);
            assert(!has_pred(rest, q)) by {
                if has_pred(rest, q) {
                    let i = choose|i: int| 0 <= i < rest.len() && (#[trigger] rest[i]).pred == q;
                    assert(os[i + 1].pred == q);
                }
            }
            if has_pred(out, q) {
                let i = choose|i: int| 0 <= i < out.len() && (#[trigger] out[i]).pred == q;
                assert(i > 0);
                assert(tail[i - 1].pred == q);
            }
        }
    }
}

proof fn lemma_slot_origins(ds: Seq<SpecSeqSlot>, pred: Seq<char>, i: int)
    ensures
        has_pred(slot_origins(ds), pred) <==> exists|k: int|
            0 <= k < ds.len() && (#[trigger] ds[k]).initial.pred == pred,
        0 <= i < ds.len() && ds[i].initial.pred == pred && (forall|k: int|
            0 <= k < i ==> (#[trigger] ds[k]).initial.pred != pred) ==> names_origin(
            slot_origins(ds),
            pred,
            slot_origin(ds[i]),
        ),
    decreases ds.len(),
{
    if ds.len() > 0 {
        let init = ds.drop_last();
        let last = ds.len() - 1;
        lemma_slot_origins(init, pred, i);
        let own = ds[last].initial.pred;
        let before = slot_origins(init);
        lemma_insert_origin(
            before,
            own,
            slot_origin(ds[last]),
            pred,
            slot_origin(ds[if 0 <= i < ds.len() {
                i
            } else {
                0
            }]),
        );
        if exists|k: int| 0 <= k < init.len() && (#[trigger] init[k]).initial.pred == pred {
            let k = choose|k: int| 0 <= k < init.len() && (#[trigger] init[k]).initial.pred == pred;
            assert(ds[k].initial.pred == pred);
        }
        if exists|k: int| 0 <= k < ds.len() && (#[trigger] ds[k]).initial.pred == pred {
            let k = choose|k: int| 0 <= k < ds.len() && (#[trigger] ds[k]).initial.pred == pred;
            if k < last {
                assert(init[k].initial.pred == pred);
            }
        }
        if 0 <= i < ds.len() && ds[i].initial.pred == pred && (forall|k: int|
            0 <= k < i ==> (#[trigger] ds[k]).initial.pred != pred) {
            if i < last {
                assert(init[i] == ds[i]);
                assert forall|k: int| 0 <= k < i implies (#[trigger] init[k]).initial.pred
                    != pred by {
                    assert(ds[k].initial.pred != pred);
                }
            } else {
                assert(!has_pred(before, pred)) by {
                    if has_pred(before, pred) {
                        let k = choose|k: int|
                            0 <= k < init.len() && (#[trigger] init[k]).initial.pred == pred;
                        assert(ds[k].initial.pred != pred);
                    }
                }
            }
        }
    }
}

/// A predicate that a fold starts with is reported with the first such fold as
/// its origin.
pub proof fn law_the_first_fold_is_the_origin(p: SpecProgram, pred: Seq<char>, i: int)
    requires
        0 <= i < p.seq_slots.len(),
        p.seq_slots[i].initial.pred == pred,
        forall|k: int| 0 <= k < i ==> (#[trigger] p.seq_slots[k]).initial.pred != pred,
    ensures
        names_origin(produced(p), pred, slot_origin(p.seq_slots[i])),
{
    lemma_slot_origins(p.seq_slots, pred, i);
    lemma_rules_keep(
        slot_origins(p.seq_slots),
        p.rules,
        pred,
        slot_origin(p.seq_slots[i]),
    );
}

proof fn lemma_rules_keep(
    os: Seq<SpecOrigin>,
    rs: Seq<SpecRule>,
    q: Seq<char>,
    o: Seq<char>,
)
    requires
        names_origin(os, q, o),
    ensures
        names_origin(rule_origins(os, rs), q, o),
    decreases rs.len(),
{
    if rs.len() > 0 {
        lemma_rules_keep(os, rs.drop_last(), q, o);
        let before = rule_origins(os, rs.drop_last());
        let r = rs.last();
        let mid = with_origin(before, r.conclusion, rule_origin(r));
        if let Some(f) = r.conclusion {
            lemma_insert_origin(before, f.pred, rule_origin(r), q, o);
        }
        if let Some(f) = r.state_after {
            lemma_insert_origin(mid, f.pred, rule_origin(r), q, o);
        }
    }
}

/// Whether a rule stands before another of the same variant and takes every
/// document that the other could.
pub open spec fn takes_over(rs: Seq<SpecRule>, j: int, i: int) -> bool {
    0 <= j < i < rs.len() && rs[j].variant == rs[i].variant && (rs[j].premises.len() == 0
        || rs[j].premises == rs[i].premises)
}

/// Whether a rule is the first that takes over.
pub open spec fn takes_over_first(rs: Seq<SpecRule>, j: int, i: int) -> bool {
    takes_over(rs, j, i) && forall|k: int| 0 <= k < j ==> !#[trigger] takes_over(rs, k, i)
}

proof fn lemma_winner(rs: Seq<SpecRule>, i: int, n: nat)
    requires
        0 <= n <= i < rs.len(),
    ensures
        match winner_over(rs.take(n as int), rs[i]) {
            Some(w) => exists|j: int| j < n && takes_over_first(rs, j, i) && w == rs[j],
            None => forall|j: int| 0 <= j < n ==> !#[trigger] takes_over(rs, j, i),
        },
    decreases n,
{
    let now = rs.take(n as int);
    if n > 0 {
        lemma_winner(rs, i, (n - 1) as nat);
        assert(now.drop_last() =~= rs.take(n - 1));
        assert(now.last() == rs[n - 1]);
        match winner_over(rs.take(n - 1), rs[i]) {
            Some(w) => {
                let j = choose|j: int| j < n - 1 && takes_over_first(rs, j, i) && w == rs[j];
                assert(takes_over_first(rs, j, i) && w == rs[j]);
            },
            None => {
                assert(takes_over(rs, n - 1, i) <==> rs[n - 1].variant == rs[i].variant
                    && crate::check::validate::shadowed(rs[n - 1], rs[i]));
                if takes_over(rs, n - 1, i) {
                    assert(takes_over_first(rs, n - 1, i));
                }
            },
        }
    }
}

/// How many of the first `n` rules are of a variant.
pub open spec fn of_variant(rs: Seq<SpecRule>, variant: Seq<char>, n: nat) -> nat
    decreases n,
{
    if n == 0 || n > rs.len() {
        0
    } else {
        of_variant(rs, variant, (n - 1) as nat) + if rs[n - 1].variant == variant {
            1nat
        } else {
            0nat
        }
    }
}

proof fn lemma_count_on(rs: Seq<SpecRule>, variant: Seq<char>, n: nat)
    requires
        n <= rs.len(),
    ensures
        count_on(rs.take(n as int), variant) == of_variant(rs, variant, n),
    decreases n,
{
    let now = rs.take(n as int);
    if n > 0 {
        lemma_count_on(rs, variant, (n - 1) as nat);
        assert(now.drop_last() =~= rs.take(n - 1));
        assert(now.last() == rs[n - 1]);
    }
}

/// The positions of a list.
pub open spec fn positions(n: nat) -> Seq<int> {
    Seq::new(n, |i: int| i)
}

/// The rule that takes over first.
pub open spec fn overtaker(rs: Seq<SpecRule>, i: int) -> int {
    choose|j: int| takes_over_first(rs, j, i)
}

/// What is said of a rule without a turn: which of its variant's rules it is,
/// counted from one, and why the one before it always wins.
pub open spec fn without_turn(rs: Seq<SpecRule>, i: int) -> SpecDiagnostic {
    SpecDiagnostic {
        severity: Severity::Warning,
        code: codes::CHECK_PROGRAM_UNREACHABLE_RULE@,
        message: "rule #"@ + decimal(of_variant(rs, rs[i].variant, (i + 1) as nat))
            + " for variant `"@ + rs[i].variant
            + "` can never fire: an earlier rule for the same variant always wins ("@ + (
        if rs[overtaker(rs, i)].premises.len() == 0 {
            "it is unconditional"@
        } else {
            "it carries the same premises"@
        }) + "), and rules are tried in declaration order"@,
        location: Location::Nowhere,
    }
}

/// Every rule that another takes over is reported, in order, with its number
/// among the rules of its variant, and no other rule is.
pub proof fn law_every_rule_without_a_turn_is_reported(rs: Seq<SpecRule>, n: nat)
    requires
        n <= rs.len(),
    ensures
        made_of(
            unreachable_rules(rs.take(n as int)),
            positions(rs.len()),
            n as int,
            |i: int| exists|j: int| #[trigger] takes_over(rs, j, i),
            |i: int| without_turn(rs, i),
        ),
    decreases n,
{
    let p = |i: int| exists|j: int| #[trigger] takes_over(rs, j, i);
    let f = |i: int| without_turn(rs, i);
    let at = positions(rs.len());
    let now = rs.take(n as int);
    if n == 0 {
        lemma_made_of_none(at, p, f);
        assert(unreachable_rules(now) =~= Seq::empty());
    } else {
        let i = n - 1;
        let earlier = rs.take(i);
        law_every_rule_without_a_turn_is_reported(rs, i as nat);
        assert(now.drop_last() =~= earlier);
        assert(now.last() == rs[i]);
        lemma_winner(rs, i, i as nat);
        lemma_count_on(rs, rs[i].variant, i as nat);
        lemma_made_of_more(unreachable_rules(earlier), at, i, p, f);
        assert(at[i] == i);
        match winner_over(earlier, rs[i]) {
            Some(w) => {
                let j = choose|j: int| j < i && takes_over_first(rs, j, i) && w == rs[j];
                let o = overtaker(rs, i);
                assert(takes_over_first(rs, o, i));
                assert(o == j) by {
                    if o < j {
                        assert(!takes_over(rs, o, i));
                    }
                    if j < o {
                        assert(!takes_over(rs, j, i));
                    }
                }
                assert(takes_over(rs, j, i));
                assert(p(at[i]));
                assert(unreachable_rule(
                    count_on(earlier, rs[i].variant) + 1,
                    rs[i],
                    w,
                ).message =~= without_turn(rs, i).message);
            },
            None => {
                assert(!p(at[i])) by {
                    if p(at[i]) {
                        let j = choose|j: int| #[trigger] takes_over(rs, j, i);
                        assert(0 <= j < i);
                    }
                }
            },
        }
    }
}

} // verus!
