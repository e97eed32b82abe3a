//! What holds of every program and every document.
use vstd::prelude::*;

use crate::check::hint::{vocabulary_of, SpecVocabulary};
use crate::check::ir::{rules_on, slot_decl, SeqMode, SpecProgram, SpecRule, SpecTerm};
use crate::check::solver::{
    attempt, choose_rule, diagnostic_of, findings_of, judged, slot_start, solved, solved_children,
    solved_entries, solved_keyed, solved_slots, SlotMap, SpecApplied, SpecChoice, SpecFailure, SpecFinding,
    SpecState,
};
use crate::check::message::child_path_text;
use crate::check::tree::{Location, SpecTree};
use crate::check::unify::{ground_term, unified, unify_prefix, unify_term, BindMap};

use crate::text::decimal;

verus! {

/// A node of a variant without a rule reports nothing of its own, draws no
/// conclusion and leaves the state alone.
pub proof fn law_unruled_variants_never_fail(
    node: SpecTree,
    path: Seq<char>,
    state: Option<SpecState>,
    slots: SlotMap,
    p: SpecProgram,
    v: SpecVocabulary,
)
    requires
        rules_on(p.rules, node.variant).len() == 0,
    ensures
        judged(node, path, state, slots, p, v).findings == Seq::<SpecFinding>::empty(),
        judged(node, path, state, slots, p, v).conclusion is None,
        judged(node, path, state, slots, p, v).state_out == state,
{
}

/// A node that fails reports once, draws no conclusion and leaves the state
/// alone.
pub proof fn law_failed_nodes_go_quiet(
    node: SpecTree,
    path: Seq<char>,
    state: Option<SpecState>,
    slots: SlotMap,
    p: SpecProgram,
    v: SpecVocabulary,
)
    requires
        judged(node, path, state, slots, p, v).findings.len() > 0,
    ensures
        judged(node, path, state, slots, p, v).findings.len() == 1,
        judged(node, path, state, slots, p, v).conclusion is None,
        judged(node, path, state, slots, p, v).state_out == state,
{
}

/// Whether none of the first `n` rules holds.
pub open spec fn none_holds(
    rules: Seq<SpecRule>,
    node: SpecTree,
    slots: SlotMap,
    state: Option<SpecState>,
    n: int,
) -> bool {
    forall|j: int| 0 <= j < n ==> attempt(#[trigger] rules[j], node, slots, state) is Err
}

/// Whether the rule at `i` holds and supplies `a`, and none before it holds.
pub open spec fn fires_at(
    rules: Seq<SpecRule>,
    node: SpecTree,
    slots: SlotMap,
    state: Option<SpecState>,
    i: int,
    a: SpecApplied,
) -> bool {
    &&& attempt(rules[i], node, slots, state) == Ok::<SpecApplied, SpecFailure>(a)
    &&& none_holds(rules, node, slots, state, i)
}

/// Whether the rule at `i` fails with `f`, those before it fail sooner, and
/// those behind it, up to `n`, fail no later.
pub open spec fn fails_at(
    rules: Seq<SpecRule>,
    node: SpecTree,
    slots: SlotMap,
    state: Option<SpecState>,
    i: int,
    n: int,
    f: SpecFailure,
) -> bool {
    &&& attempt(rules[i], node, slots, state) == Err::<SpecApplied, SpecFailure>(f)
    &&& forall|j: int|
        0 <= j < i ==> (attempt(#[trigger] rules[j], node, slots, state)->Err_0).satisfied
            < f.satisfied
    &&& forall|j: int|
        i <= j < n ==> (attempt(#[trigger] rules[j], node, slots, state)->Err_0).satisfied
            <= f.satisfied
}

/// Rules are tried in order, and the first that holds supplies the result. If
/// none holds, the failure reported is the one that got furthest, and the
/// earliest of those.
#[verifier::spinoff_prover]
#[verifier::rlimit(60)]
pub proof fn law_first_rule_that_holds_wins(
    rules: Seq<SpecRule>,
    node: SpecTree,
    slots: SlotMap,
    state: Option<SpecState>,
    n: nat,
)
    requires
        n <= rules.len(),
    ensures
        match choose_rule(rules, node, slots, state, n) {
            SpecChoice::Fired(a) => exists|i: int|
                0 <= i < n && fires_at(rules, node, slots, state, i, a),
            SpecChoice::Failed(None) => n == 0,
            SpecChoice::Failed(Some(f)) => {
                &&& none_holds(rules, node, slots, state, n as int)
                &&& exists|i: int| 0 <= i < n && fails_at(rules, node, slots, state, i, n as int, f)
            },
        },
    decreases n,
{
    if n > 0 {
        law_first_rule_that_holds_wins(rules, node, slots, state, (n - 1) as nat);
        let before = choose_rule(rules, node, slots, state, (n - 1) as nat);
        if let SpecChoice::Failed(best) = before {
            match attempt(rules[n - 1], node, slots, state) {
                Ok(a) => {
                    assert(fires_at(rules, node, slots, state, n - 1, a));
                },
                Err(f) => {
                    if let Some(b) = best {
                        let m = n - 1;
                        let i = choose|i: int|
                            0 <= i < m && #[trigger] fails_at(rules, node, slots, state, i, m, b);
                        if f.satisfied > b.satisfied {
                            assert(fails_at(rules, node, slots, state, n - 1, n as int, f));
                        } else {
                            assert(fails_at(rules, node, slots, state, i, n as int, b));
                        }
                    } else {
                        assert(fails_at(rules, node, slots, state, n - 1, n as int, f));
                    }
                },
            }
        }
    }
}

/// A slot declared as a fold starts from its declared state, whatever state
/// reaches the node.
pub proof fn law_folds_start_over(
    p: SpecProgram,
    variant: Seq<char>,
    slot: Seq<char>,
    a: Option<SpecState>,
    b: Option<SpecState>,
)
    requires
        slot_decl(p.seq_slots, variant, slot) matches Some(d) && d.mode == SeqMode::Fold,
    ensures
        slot_start(p, variant, slot, a) == slot_start(p, variant, slot, b),
        slot_start(p, variant, slot, a).0,
{
}

/// Outside a fold every child sees the same state.
pub proof fn law_children_outside_folds_are_independent(
    ts: Seq<SpecTree>,
    slot: Seq<char>,
    path: Seq<char>,
    start: Option<SpecState>,
    p: SpecProgram,
    v: SpecVocabulary,
    n: nat,
)
    ensures
        solved_children(ts, slot, path, false, start, p, v, n).state == start,
    decreases n,
{
    if 0 < n <= ts.len() {
        law_children_outside_folds_are_independent(ts, slot, path, start, p, v, (n - 1) as nat);
    }
}

/// One for a node whose variant has rules.
pub open spec fn ruled(node: SpecTree, p: SpecProgram) -> nat {
    if rules_on(p.rules, node.variant).len() > 0 {
        1
    } else {
        0
    }
}

/// How many nodes of a document are of a variant that has rules.
pub open spec fn ruled_nodes(node: SpecTree, p: SpecProgram) -> nat
    decreases node, 0nat,
{
    ruled(node, p) + ruled_slots(node.children, p, node.children.len()) + ruled_keyed(
        node.keyed_children,
        p,
        node.keyed_children.len(),
    )
}

/// The same below the first `n` positional slots.
pub open spec fn ruled_slots(cs: Seq<(Seq<char>, Seq<SpecTree>)>, p: SpecProgram, n: nat) -> nat
    decreases cs, n,
{
    if n == 0 || n > cs.len() {
        0
    } else {
        ruled_slots(cs, p, (n - 1) as nat) + ruled_children(cs[n - 1].1, p, cs[n - 1].1.len())
    }
}

/// The same below the first `n` children of a slot.
pub open spec fn ruled_children(ts: Seq<SpecTree>, p: SpecProgram, n: nat) -> nat
    decreases ts, n,
{
    if n == 0 || n > ts.len() {
        0
    } else {
        ruled_children(ts, p, (n - 1) as nat) + ruled_nodes(ts[n - 1], p)
    }
}

/// The same below the first `n` keyed slots.
pub open spec fn ruled_keyed(
    ks: Seq<(Seq<char>, Seq<(Seq<char>, SpecTree)>)>,
    p: SpecProgram,
    n: nat,
) -> nat
    decreases ks, n,
{
    if n == 0 || n > ks.len() {
        0
    } else {
        ruled_keyed(ks, p, (n - 1) as nat) + ruled_entries(ks[n - 1].1, p, ks[n - 1].1.len())
    }
}

/// The same below the first `n` entries of a keyed slot.
pub open spec fn ruled_entries(es: Seq<(Seq<char>, SpecTree)>, p: SpecProgram, n: nat) -> nat
    decreases es, n,
{
    if n == 0 || n > es.len() {
        0
    } else {
        ruled_entries(es, p, (n - 1) as nat) + ruled_nodes(es[n - 1].1, p)
    }
}

proof fn lemma_solved_findings(
    node: SpecTree,
    path: Seq<char>,
    state: Option<SpecState>,
    p: SpecProgram,
    v: SpecVocabulary,
)
    ensures
        solved(node, path, state, p, v).findings.len() <= ruled_nodes(node, p),
    decreases node, 0nat,
{
    let n = node.children.len();
    let m = node.keyed_children.len();
    lemma_slot_findings(node.children, node.variant, path, state, p, v, n);
    let slots = solved_slots(node.children, node.variant, path, state, p, v, n).0;
    lemma_keyed_findings(node.keyed_children, path, state, p, v, slots, m);
}

proof fn lemma_slot_findings(
    cs: Seq<(Seq<char>, Seq<SpecTree>)>,
    variant: Seq<char>,
    path: Seq<char>,
    state: Option<SpecState>,
    p: SpecProgram,
    v: SpecVocabulary,
    n: nat,
)
    ensures
        solved_slots(cs, variant, path, state, p, v, n).1.len() <= ruled_slots(cs, p, n),
    decreases cs, n,
{
    if 0 < n <= cs.len() {
        lemma_slot_findings(cs, variant, path, state, p, v, (n - 1) as nat);
        let slot = cs[n - 1].0;
        let (folding, start) = slot_start(p, variant, slot, state);
        lemma_child_findings(cs[n - 1].1, slot, path, folding, start, p, v, cs[n - 1].1.len());
    }
}

proof fn lemma_child_findings(
    ts: Seq<SpecTree>,
    slot: Seq<char>,
    path: Seq<char>,
    folding: bool,
    start: Option<SpecState>,
    p: SpecProgram,
    v: SpecVocabulary,
    n: nat,
)
    ensures
        solved_children(ts, slot, path, folding, start, p, v, n).findings.len() <= ruled_children(
            ts,
            p,
            n,
        ),
    decreases ts, n,
{
    if 0 < n <= ts.len() {
        lemma_child_findings(ts, slot, path, folding, start, p, v, (n - 1) as nat);
        let run = solved_children(ts, slot, path, folding, start, p, v, (n - 1) as nat);
        lemma_solved_findings(
            ts[n - 1],
            child_path_text(path, slot, decimal((n - 1) as nat)),
            run.state,
            p,
            v,
        );
    }
}

proof fn lemma_keyed_findings(
    ks: Seq<(Seq<char>, Seq<(Seq<char>, SpecTree)>)>,
    path: Seq<char>,
    state: Option<SpecState>,
    p: SpecProgram,
    v: SpecVocabulary,
    slots: SlotMap,
    n: nat,
)
    ensures
        solved_keyed(ks, path, state, p, v, slots, n).1.len() <= ruled_keyed(ks, p, n),
    decreases ks, n,
{
    if 0 < n <= ks.len() {
        lemma_keyed_findings(ks, path, state, p, v, slots, (n - 1) as nat);
        lemma_entry_findings(ks[n - 1].1, ks[n - 1].0, path, state, p, v, ks[n - 1].1.len());
    }
}

proof fn lemma_entry_findings(
    es: Seq<(Seq<char>, SpecTree)>,
    slot: Seq<char>,
    path: Seq<char>,
    state: Option<SpecState>,
    p: SpecProgram,
    v: SpecVocabulary,
    n: nat,
)
    ensures
        solved_entries(es, slot, path, state, p, v, n).findings.len() <= ruled_entries(es, p, n),
    decreases es, n,
{
    if 0 < n <= es.len() {
        lemma_entry_findings(es, slot, path, state, p, v, (n - 1) as nat);
        lemma_solved_findings(
            es[n - 1].1,
            child_path_text(path, slot, es[n - 1].0),
            state,
            p,
            v,
        );
    }
}

/// A document draws at most one finding for each node whose variant has
/// rules, so none at all where no variant in it has one.
pub proof fn law_one_finding_per_ruled_node(tree: SpecTree, p: SpecProgram)
    ensures
        findings_of(tree, p).len() <= ruled_nodes(tree, p),
{
    lemma_solved_findings(tree, Seq::empty(), None, p, vocabulary_of(p));
}

/// Every diagnostic ends by naming where its node stands, and points at the
/// node's source position where there is one.
pub proof fn law_diagnostics_are_anchored(f: SpecFinding, hint: Option<Seq<char>>)
    ensures
        ({
            let d = diagnostic_of(f, hint);
            let tail = " [at "@ + f.label + "]"@;
            &&& d.message.len() >= tail.len()
            &&& d.message.skip(d.message.len() - tail.len()) == tail
            &&& f.span matches Some(s) ==> d.location == Location::Span(s)
        }),
{
    let d = diagnostic_of(f, hint);
    let tail = " [at "@ + f.label + "]"@;
    assert(d.message.skip(d.message.len() - tail.len()) =~= tail);
}

/// Terms without variables or payload references match exactly when they are
/// the same, and matching them binds nothing.
pub proof fn law_ground_terms_match_iff_equal(l: SpecTerm, r: SpecTerm, b: BindMap)
    requires
        ground_term(l),
        ground_term(r),
    ensures
        unified(l, r, b) == (l == r, b),
{
    lemma_ground_match(l, r, b, crate::check::unify::LOOKUP_LIMIT as nat);
}

proof fn lemma_ground_match(l: SpecTerm, r: SpecTerm, b: BindMap, fuel: nat)
    requires
        ground_term(l),
        ground_term(r),
    ensures
        unify_term(l, r, b, fuel) == (l == r, b),
    decreases l, 0nat,
{
    match (l, r) {
        (SpecTerm::Ctor(ln, la), SpecTerm::Ctor(rn, ra)) => {
            if ln == rn && la.len() == ra.len() {
                lemma_ground_match_all(la, ra, b, fuel, la.len());
                if forall|i: int| 0 <= i < la.len() ==> la[i] == ra[i] {
                    assert(la =~= ra);
                }
            }
        },
        _ => {},
    }
}

proof fn lemma_ground_match_all(
    ls: Seq<SpecTerm>,
    rs: Seq<SpecTerm>,
    b: BindMap,
    fuel: nat,
    n: nat,
)
    requires
        n <= ls.len() == rs.len(),
        forall|i: int| 0 <= i < ls.len() ==> ground_term(#[trigger] ls[i]),
        forall|i: int| 0 <= i < rs.len() ==> ground_term(#[trigger] rs[i]),
    ensures
        unify_prefix(ls, rs, b, fuel, n) == (forall|i: int| 0 <= i < n ==> ls[i] == rs[i], b),
    decreases ls, n,
{
    if n > 0 {
        lemma_ground_match_all(ls, rs, b, fuel, (n - 1) as nat);
        lemma_ground_match(ls[n - 1], rs[n - 1], b, fuel);
    }
}

} // verus!
