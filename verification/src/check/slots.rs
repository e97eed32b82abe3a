//! What the declarations of slots decide.

use crate::check::hint::{vocabulary_of, SpecVocabulary};
use crate::check::ir::{slot_decl, SeqMode, SpecProgram, SpecSeqSlot};
use crate::check::message::child_path_text;
use crate::check::solver::{
    findings_of, judged, plain_diagnostics, slot_start, solved, solved_children, solved_entries,
    solved_keyed, solved_slots, SlotMap, SpecFinding, SpecState,
};
use crate::check::tree::SpecTree;
use crate::text::decimal;
use vstd::prelude::*;

verus! {

/// Whether two programs judge nodes and start slots alike.
spec fn start_alike(p: SpecProgram, q: SpecProgram) -> bool {
    &&& p.rules == q.rules
    &&& forall|variant: Seq<char>, slot: Seq<char>, state: Option<SpecState>|
        #[trigger] slot_start(p, variant, slot, state) == slot_start(q, variant, slot, state)
}

/// Whether two lists of findings say the same, hints apart.
spec fn say_alike(a: Seq<SpecFinding>, b: Seq<SpecFinding>) -> bool {
    plain_diagnostics(a) =~= plain_diagnostics(b)
}

proof fn lemma_alike_sum(
    a: Seq<SpecFinding>,
    b: Seq<SpecFinding>,
    c: Seq<SpecFinding>,
    d: Seq<SpecFinding>,
)
    requires
        say_alike(a, b),
        say_alike(c, d),
    ensures
        say_alike(a + c, b + d),
{
    let left = plain_diagnostics(a + c);
    let right = plain_diagnostics(b + d);
    assert(left =~= plain_diagnostics(a) + plain_diagnostics(c));
    assert(right =~= plain_diagnostics(b) + plain_diagnostics(d));
}

proof fn lemma_judged_alike(
    node: SpecTree,
    path: Seq<char>,
    state: Option<SpecState>,
    slots: SlotMap,
    p: SpecProgram,
    q: SpecProgram,
    v: SpecVocabulary,
    w: SpecVocabulary,
)
    requires
        start_alike(p, q),
    ensures
        ({
            let a = judged(node, path, state, slots, p, v);
            let b = judged(node, path, state, slots, q, w);
            &&& a.conclusion == b.conclusion
            &&& a.prov == b.prov
            &&& a.state_out == b.state_out
            &&& say_alike(a.findings, b.findings)
        }),
{
}

proof fn lemma_solved_alike(
    node: SpecTree,
    path: Seq<char>,
    state: Option<SpecState>,
    p: SpecProgram,
    q: SpecProgram,
    v: SpecVocabulary,
    w: SpecVocabulary,
)
    requires
        start_alike(p, q),
    ensures
        ({
            let a = solved(node, path, state, p, v);
            let b = solved(node, path, state, q, w);
            &&& a.conclusion == b.conclusion
            &&& a.prov == b.prov
            &&& a.state_out == b.state_out
            &&& say_alike(a.findings, b.findings)
        }),
    decreases node, 0nat,
{
    let n = node.children.len();
    let m = node.keyed_children.len();
    let (s1, f1) = solved_slots(node.children, node.variant, path, state, p, v, n);
    let (t1, g1) = solved_slots(node.children, node.variant, path, state, q, w, n);
    lemma_slots_alike(node.children, node.variant, path, state, p, q, v, w, n);
    let (s2, f2) = solved_keyed(node.keyed_children, path, state, p, v, s1, m);
    let (t2, g2) = solved_keyed(node.keyed_children, path, state, q, w, t1, m);
    lemma_keyed_alike(node.keyed_children, path, state, p, q, v, w, s1, m);
    lemma_judged_alike(node, path, state, s2, p, q, v, w);
    lemma_alike_sum(f1, g1, f2, g2);
    lemma_alike_sum(
        f1 + f2,
        g1 + g2,
        judged(node, path, state, s2, p, v).findings,
        judged(node, path, state, s2, q, w).findings,
    );
}

proof fn lemma_slots_alike(
    cs: Seq<(Seq<char>, Seq<SpecTree>)>,
    variant: Seq<char>,
    path: Seq<char>,
    state: Option<SpecState>,
    p: SpecProgram,
    q: SpecProgram,
    v: SpecVocabulary,
    w: SpecVocabulary,
    n: nat,
)
    requires
        start_alike(p, q),
    ensures
        solved_slots(cs, variant, path, state, p, v, n).0 == solved_slots(
            cs,
            variant,
            path,
            state,
            q,
            w,
            n,
        ).0,
        say_alike(
            solved_slots(cs, variant, path, state, p, v, n).1,
            solved_slots(cs, variant, path, state, q, w, n).1,
        ),
    decreases cs, n,
{
    if 0 < n <= cs.len() {
        let m = (n - 1) as nat;
        lemma_slots_alike(cs, variant, path, state, p, q, v, w, m);
        let slot = cs[n - 1].0;
        let ts = cs[n - 1].1;
        let (folding, start) = slot_start(p, variant, slot, state);
        lemma_children_alike(ts, slot, path, folding, start, p, q, v, w, ts.len());
        lemma_alike_sum(
            solved_slots(cs, variant, path, state, p, v, m).1,
            solved_slots(cs, variant, path, state, q, w, m).1,
            solved_children(ts, slot, path, folding, start, p, v, ts.len()).findings,
            solved_children(ts, slot, path, folding, start, q, w, ts.len()).findings,
        );
    }
}

proof fn lemma_children_alike(
    ts: Seq<SpecTree>,
    slot: Seq<char>,
    path: Seq<char>,
    folding: bool,
    start: Option<SpecState>,
    p: SpecProgram,
    q: SpecProgram,
    v: SpecVocabulary,
    w: SpecVocabulary,
    n: nat,
)
    requires
        start_alike(p, q),
    ensures
        ({
            let a = solved_children(ts, slot, path, folding, start, p, v, n);
            let b = solved_children(ts, slot, path, folding, start, q, w, n);
            &&& a.vals == b.vals
            &&& a.state == b.state
            &&& say_alike(a.findings, b.findings)
        }),
    decreases ts, n,
{
    if 0 < n <= ts.len() {
        let m = (n - 1) as nat;
        lemma_children_alike(ts, slot, path, folding, start, p, q, v, w, m);
        let a = solved_children(ts, slot, path, folding, start, p, v, m);
        let b = solved_children(ts, slot, path, folding, start, q, w, m);
        let at = child_path_text(path, slot, decimal(m));
        lemma_solved_alike(ts[n - 1], at, a.state, p, q, v, w);
        lemma_alike_sum(
            a.findings,
            b.findings,
            solved(ts[n - 1], at, a.state, p, v).findings,
            solved(ts[n - 1], at, a.state, q, w).findings,
        );
    }
}

proof fn lemma_keyed_alike(
    ks: Seq<(Seq<char>, Seq<(Seq<char>, SpecTree)>)>,
    path: Seq<char>,
    state: Option<SpecState>,
    p: SpecProgram,
    q: SpecProgram,
    v: SpecVocabulary,
    w: SpecVocabulary,
    slots: SlotMap,
    n: nat,
)
    requires
        start_alike(p, q),
    ensures
        solved_keyed(ks, path, state, p, v, slots, n).0 == solved_keyed(
            ks,
            path,
            state,
            q,
            w,
            slots,
            n,
        ).0,
        say_alike(
            solved_keyed(ks, path, state, p, v, slots, n).1,
            solved_keyed(ks, path, state, q, w, slots, n).1,
        ),
    decreases ks, n,
{
    if 0 < n <= ks.len() {
        let m = (n - 1) as nat;
        lemma_keyed_alike(ks, path, state, p, q, v, w, slots, m);
        let slot = ks[n - 1].0;
        let es = ks[n - 1].1;
        lemma_entries_alike(es, slot, path, state, p, q, v, w, es.len());
        lemma_alike_sum(
            solved_keyed(ks, path, state, p, v, slots, m).1,
            solved_keyed(ks, path, state, q, w, slots, m).1,
            solved_entries(es, slot, path, state, p, v, es.len()).findings,
            solved_entries(es, slot, path, state, q, w, es.len()).findings,
        );
    }
}

proof fn lemma_entries_alike(
    es: Seq<(Seq<char>, SpecTree)>,
    slot: Seq<char>,
    path: Seq<char>,
    state: Option<SpecState>,
    p: SpecProgram,
    q: SpecProgram,
    v: SpecVocabulary,
    w: SpecVocabulary,
    n: nat,
)
    requires
        start_alike(p, q),
    ensures
        ({
            let a = solved_entries(es, slot, path, state, p, v, n);
            let b = solved_entries(es, slot, path, state, q, w, n);
            &&& a.vals == b.vals
            &&& say_alike(a.findings, b.findings)
        }),
    decreases es, n,
{
    if 0 < n <= es.len() {
        let m = (n - 1) as nat;
        lemma_entries_alike(es, slot, path, state, p, q, v, w, m);
        let at = child_path_text(path, slot, es[n - 1].0);
        lemma_solved_alike(es[n - 1].1, at, state, p, q, v, w);
        lemma_alike_sum(
            solved_entries(es, slot, path, state, p, v, m).findings,
            solved_entries(es, slot, path, state, q, w, m).findings,
            solved(es[n - 1].1, at, state, p, v).findings,
            solved(es[n - 1].1, at, state, q, w).findings,
        );
    }
}

/// Only the first declaration for a slot counts, so one more changes what is
/// found for no other slot, and for its own only where there was none.
proof fn lemma_one_more_declaration(
    ds: Seq<SpecSeqSlot>,
    d: SpecSeqSlot,
    variant: Seq<char>,
    slot: Seq<char>,
)
    ensures
        slot_decl(ds.push(d), variant, slot) == match slot_decl(ds, variant, slot) {
            Some(found) => Some(found),
            None => if d.variant == variant && d.slot == slot {
                Some(d)
            } else {
                None
            },
        },
    decreases ds.len(),
{
    if ds.len() == 0 {
        reveal_with_fuel(slot_decl, 2);
        assert(ds.push(d)[0] == d);
        assert(ds.push(d).skip(1) =~= Seq::empty());
    } else {
        assert(ds.push(d).skip(1) =~= ds.skip(1).push(d));
        assert(ds.push(d)[0] == ds[0]);
        lemma_one_more_declaration(ds.skip(1), d, variant, slot);
    }
}

/// A slot declared as [`SeqMode::All`] is treated as an undeclared one: the
/// declaration changes no diagnostic of any document, whatever fact it holds.
pub proof fn law_an_all_slot_is_an_undeclared_one(
    tree: SpecTree,
    p: SpecProgram,
    d: SpecSeqSlot,
)
    requires
        d.mode == SeqMode::All,
        slot_decl(p.seq_slots, d.variant, d.slot) is None,
    ensures
        ({
            let q = SpecProgram { seq_slots: p.seq_slots.push(d), ..p };
            plain_diagnostics(findings_of(tree, q)) == plain_diagnostics(findings_of(tree, p))
        }),
{
    let q = SpecProgram { seq_slots: p.seq_slots.push(d), ..p };
    assert forall|variant: Seq<char>, slot: Seq<char>, state: Option<SpecState>|
        #[trigger] slot_start(p, variant, slot, state) == slot_start(q, variant, slot, state) by {
        lemma_one_more_declaration(p.seq_slots, d, variant, slot);
    }
    lemma_solved_alike(tree, Seq::empty(), None, p, q, vocabulary_of(p), vocabulary_of(q));
}

} // verus!
