//! How the nodes of a document are judged, and what comes of it.
use vstd::prelude::*;

use crate::check::hint::SpecVocabulary;
use crate::check::ir::{rules_on, slot_decl, SeqMode, SpecProgram, SpecRule, SpecSeqSlot, SpecTerm};
use crate::check::message::child_path_text;
use crate::check::solver::{
    attempt, grounded, initial_provenance, judged, raw_text, slot_start, solved, solved_children,
    solved_entries, solved_keyed, solved_slots, SlotMap, SpecFinding, SpecSolved, SpecState,
};
use crate::check::tree::{field_of, SpecRaw, SpecTree};
use crate::text::decimal;

verus! {

/// Whether one list stands in another, as a whole and in its order.
pub open spec fn part_of(a: Seq<SpecFinding>, b: Seq<SpecFinding>) -> bool {
    exists|i: int| 0 <= i && i + a.len() <= b.len() && #[trigger] b.subrange(i, i + a.len()) == a
}

/// Whether two lists stand in a third, as wholes, one behind the other.
pub open spec fn parts_of(
    a: Seq<SpecFinding>,
    c: Seq<SpecFinding>,
    b: Seq<SpecFinding>,
) -> bool {
    exists|i: int, j: int|
        0 <= i && i + a.len() <= j && j + c.len() <= b.len() && #[trigger] b.subrange(
            i,
            i + a.len(),
        ) == a && #[trigger] b.subrange(j, j + c.len()) == c
}

/// The state that a child of a slot sees: outside a fold the state that reaches
/// the node; in a fold the declared one, and then what the children before have
/// made of it.
pub open spec fn sees(
    ts: Seq<SpecTree>,
    slot: Seq<char>,
    path: Seq<char>,
    folding: bool,
    start: Option<SpecState>,
    p: SpecProgram,
    v: SpecVocabulary,
    j: nat,
) -> Option<SpecState>
    decreases j,
{
    if j == 0 {
        start
    } else {
        let before = sees(ts, slot, path, folding, start, p, v, (j - 1) as nat);
        let made = solved(
            ts[j - 1],
            child_path_text(path, slot, decimal((j - 1) as nat)),
            before,
            p,
            v,
        ).state_out;
        if folding && made is Some {
            made
        } else {
            before
        }
    }
}

proof fn lemma_sees(
    ts: Seq<SpecTree>,
    slot: Seq<char>,
    path: Seq<char>,
    folding: bool,
    start: Option<SpecState>,
    p: SpecProgram,
    v: SpecVocabulary,
    n: nat,
)
    requires
        n <= ts.len(),
    ensures
        ({
            let run = solved_children(ts, slot, path, folding, start, p, v, n);
            &&& run.state == sees(ts, slot, path, folding, start, p, v, n)
            &&& run.vals.len() == n
            &&& forall|j: int|
                0 <= j < n ==> (#[trigger] run.vals[j]).conclusion == child_of(
                    ts,
                    slot,
                    path,
                    folding,
                    start,
                    p,
                    v,
                    j,
                ).conclusion
        }),
    decreases n,
{
    if n > 0 {
        lemma_sees(ts, slot, path, folding, start, p, v, (n - 1) as nat);
        lemma_paths(path, slot, decimal((n - 1) as nat));
        let was = solved_children(ts, slot, path, folding, start, p, v, (n - 1) as nat);
        let run = solved_children(ts, slot, path, folding, start, p, v, n);
        assert forall|j: int| 0 <= j < n implies (#[trigger] run.vals[j]).conclusion == child_of(
            ts,
            slot,
            path,
            folding,
            start,
            p,
            v,
            j,
        ).conclusion by {
            if j < n - 1 {
                assert(run.vals[j] == was.vals[j]);
            }
        }
    }
}

/// What a child of a slot comes to, in the state it sees and at its own path.
pub open spec fn child_of(
    ts: Seq<SpecTree>,
    slot: Seq<char>,
    path: Seq<char>,
    folding: bool,
    start: Option<SpecState>,
    p: SpecProgram,
    v: SpecVocabulary,
    j: int,
) -> SpecSolved {
    solved(
        ts[j],
        path_below(path, slot, decimal(j as nat)),
        sees(ts, slot, path, folding, start, p, v, j as nat),
        p,
        v,
    )
}

/// The path of a child: the slot and its index or key in brackets, behind the
/// path of the node and a dot, or alone below the root.
pub open spec fn path_below(
    path: Seq<char>,
    slot: Seq<char>,
    index: Seq<char>,
) -> Seq<char> {
    (if path.len() == 0 {
        Seq::empty()
    } else {
        path.push('.')
    }) + slot + seq!['['] + index + seq![']']
}

proof fn lemma_paths(path: Seq<char>, slot: Seq<char>, index: Seq<char>)
    ensures
        child_path_text(path, slot, index) == path_below(path, slot, index),
{
    reveal_strlit("[");
    reveal_strlit("]");
    reveal_strlit(".");
    assert("["@ =~= seq!['[']);
    assert("]"@ =~= seq![']']);
    assert("."@ =~= seq!['.']);
    assert(child_path_text(path, slot, index) =~= path_below(path, slot, index));
}

proof fn lemma_regroup(
    a: Seq<SpecFinding>,
    b: Seq<SpecFinding>,
    c: Seq<SpecFinding>,
    d: Seq<SpecFinding>,
    e: Seq<SpecFinding>,
)
    ensures
        (a + b + c) + d + e == a + b + (c + d + e),
        e + (a + b + c) + d == (e + a) + b + (c + d),
{
    assert((a + b + c) + d + e =~= a + b + (c + d + e));
    assert(e + (a + b + c) + d =~= (e + a) + b + (c + d));
}

proof fn lemma_part(a: Seq<SpecFinding>, pre: Seq<SpecFinding>, post: Seq<SpecFinding>)
    ensures
        part_of(a, pre + a + post),
{
    let b = pre + a + post;
    assert(b.subrange(pre.len() as int, pre.len() as int + a.len()) =~= a);
}

proof fn lemma_part_on(a: Seq<SpecFinding>, b: Seq<SpecFinding>, pre: Seq<SpecFinding>, post: Seq<SpecFinding>)
    requires
        part_of(a, b),
    ensures
        part_of(a, pre + b + post),
{
    let i = choose|i: int|
        0 <= i && i + a.len() <= b.len() && #[trigger] b.subrange(i, i + a.len()) == a;
    let c = pre + b + post;
    assert(c.subrange(pre.len() + i, pre.len() + i + a.len()) =~= a);
}

proof fn lemma_parts_on(
    a: Seq<SpecFinding>,
    c: Seq<SpecFinding>,
    b: Seq<SpecFinding>,
    pre: Seq<SpecFinding>,
    post: Seq<SpecFinding>,
)
    requires
        parts_of(a, c, b),
    ensures
        parts_of(a, c, pre + b + post),
{
    let (i, j) = choose|i: int, j: int|
        0 <= i && i + a.len() <= j && j + c.len() <= b.len() && #[trigger] b.subrange(
            i,
            i + a.len(),
        ) == a && #[trigger] b.subrange(j, j + c.len()) == c;
    let d = pre + b + post;
    let m = pre.len() as int;
    assert(d.subrange(m + i, m + i + a.len()) =~= a);
    assert(d.subrange(m + j, m + j + c.len()) =~= c);
}

/// A part of one list and a part of the next are parts one behind the other.
proof fn lemma_parts_join(
    a: Seq<SpecFinding>,
    c: Seq<SpecFinding>,
    x: Seq<SpecFinding>,
    y: Seq<SpecFinding>,
)
    requires
        part_of(a, x),
        part_of(c, y),
    ensures
        parts_of(a, c, x + y),
{
    let i = choose|i: int|
        0 <= i && i + a.len() <= x.len() && #[trigger] x.subrange(i, i + a.len()) == a;
    let j = choose|j: int|
        0 <= j && j + c.len() <= y.len() && #[trigger] y.subrange(j, j + c.len()) == c;
    let b = x + y;
    let k = x.len() + j;
    assert(b.subrange(i, i + a.len()) =~= a);
    assert(b.subrange(k, k + c.len()) =~= c);
}

proof fn lemma_child_reported(
    ts: Seq<SpecTree>,
    slot: Seq<char>,
    path: Seq<char>,
    folding: bool,
    start: Option<SpecState>,
    p: SpecProgram,
    v: SpecVocabulary,
    n: nat,
    j: int,
)
    requires
        0 <= j < n <= ts.len(),
    ensures
        part_of(
            child_of(ts, slot, path, folding, start, p, v, j).findings,
            solved_children(ts, slot, path, folding, start, p, v, n).findings,
        ),
    decreases n,
{
    let m = (n - 1) as nat;
    let was = solved_children(ts, slot, path, folding, start, p, v, m).findings;
    let all = solved_children(ts, slot, path, folding, start, p, v, n).findings;
    let last = child_of(ts, slot, path, folding, start, p, v, m as int).findings;
    lemma_sees(ts, slot, path, folding, start, p, v, m);
    lemma_paths(path, slot, decimal(m));
    assert(all == was + last);
    if j == m {
        lemma_part(last, was, Seq::empty());
        assert(was + last + Seq::<SpecFinding>::empty() =~= all);
    } else {
        lemma_child_reported(ts, slot, path, folding, start, p, v, m, j);
        let one = child_of(ts, slot, path, folding, start, p, v, j).findings;
        lemma_part_on(one, was, Seq::empty(), last);
        assert(Seq::<SpecFinding>::empty() + was + last =~= all);
    }
}

proof fn lemma_children_in_order(
    ts: Seq<SpecTree>,
    slot: Seq<char>,
    path: Seq<char>,
    folding: bool,
    start: Option<SpecState>,
    p: SpecProgram,
    v: SpecVocabulary,
    n: nat,
    i: int,
    j: int,
)
    requires
        0 <= i < j < n <= ts.len(),
    ensures
        parts_of(
            child_of(ts, slot, path, folding, start, p, v, i).findings,
            child_of(ts, slot, path, folding, start, p, v, j).findings,
            solved_children(ts, slot, path, folding, start, p, v, n).findings,
        ),
    decreases n,
{
    let m = (n - 1) as nat;
    let was = solved_children(ts, slot, path, folding, start, p, v, m).findings;
    let all = solved_children(ts, slot, path, folding, start, p, v, n).findings;
    let last = child_of(ts, slot, path, folding, start, p, v, m as int).findings;
    let a = child_of(ts, slot, path, folding, start, p, v, i).findings;
    let c = child_of(ts, slot, path, folding, start, p, v, j).findings;
    lemma_sees(ts, slot, path, folding, start, p, v, m);
    lemma_paths(path, slot, decimal(m));
    assert(all == was + last);
    if j == m {
        lemma_child_reported(ts, slot, path, folding, start, p, v, m, i);
        lemma_part(last, Seq::empty(), Seq::empty());
        assert(Seq::<SpecFinding>::empty() + last + Seq::<SpecFinding>::empty() =~= last);
        lemma_parts_join(a, c, was, last);
    } else {
        lemma_children_in_order(ts, slot, path, folding, start, p, v, m, i, j);
        lemma_parts_on(a, c, was, Seq::empty(), last);
        assert(Seq::<SpecFinding>::empty() + was + last =~= all);
    }
}

/// Whether a slot is declared as a fold, and the fact it starts from: what the
/// first declaration for it says.
pub open spec fn fold_of(
    ds: Seq<SpecSeqSlot>,
    variant: Seq<char>,
    slot: Seq<char>,
    d: SpecSeqSlot,
) -> bool {
    exists|i: int|
        0 <= i < ds.len() && #[trigger] ds[i] == d && d.variant == variant && d.slot == slot
            && forall|j: int|
            0 <= j < i ==> !((#[trigger] ds[j]).variant == variant && ds[j].slot == slot)
}

proof fn lemma_first_declaration(ds: Seq<SpecSeqSlot>, variant: Seq<char>, slot: Seq<char>)
    ensures
        match slot_decl(ds, variant, slot) {
            Some(d) => fold_of(ds, variant, slot, d),
            None => forall|j: int|
                0 <= j < ds.len() ==> !((#[trigger] ds[j]).variant == variant && ds[j].slot
                    == slot),
        },
    decreases ds.len(),
{
    if ds.len() > 0 && !(ds[0].variant == variant && ds[0].slot == slot) {
        let rest = ds.skip(1);
        lemma_first_declaration(rest, variant, slot);
        match slot_decl(rest, variant, slot) {
            Some(d) => {
                let i = choose|i: int|
                    0 <= i < rest.len() && #[trigger] rest[i] == d && d.variant == variant
                        && d.slot == slot && forall|j: int|
                        0 <= j < i ==> !((#[trigger] rest[j]).variant == variant && rest[j].slot
                            == slot);
                assert(ds[i + 1] == d);
                assert forall|j: int| 0 <= j < i + 1 implies !((#[trigger] ds[j]).variant == variant
                    && ds[j].slot == slot) by {
                    if j > 0 {
                        assert(rest[j - 1] == ds[j]);
                    }
                }
            },
            None => {
                assert forall|j: int| 0 <= j < ds.len() implies !((#[trigger] ds[j]).variant
                    == variant && ds[j].slot == slot) by {
                    if j > 0 {
                        assert(rest[j - 1] == ds[j]);
                    }
                }
            },
        }
    } else if ds.len() > 0 {
        assert(ds[0] == ds[0]);
    }
}

/// A slot is a fold exactly where the first declaration for it says so. Then
/// its first child sees the declared fact, as one that the declaration set;
/// elsewhere it sees the state that reaches the node.
pub proof fn law_a_slot_starts_as_it_is_first_declared(
    p: SpecProgram,
    variant: Seq<char>,
    slot: Seq<char>,
    state: Option<SpecState>,
    d: SpecSeqSlot,
)
    ensures
        fold_of(p.seq_slots, variant, slot, d) && d.mode == SeqMode::Fold ==> slot_start(
            p,
            variant,
            slot,
            state,
        ) == (true, Some(SpecState { fact: d.initial, prov: initial_provenance() })),
        fold_of(p.seq_slots, variant, slot, d) && d.mode != SeqMode::Fold ==> slot_start(
            p,
            variant,
            slot,
            state,
        ) == (false, state),
        (forall|j: int|
            0 <= j < p.seq_slots.len() ==> !((#[trigger] p.seq_slots[j]).variant == variant
                && p.seq_slots[j].slot == slot)) ==> slot_start(p, variant, slot, state) == (
            false,
            state,
        ),
{
    let ds = p.seq_slots;
    lemma_first_declaration(ds, variant, slot);
    if fold_of(ds, variant, slot, d) {
        let i = choose|i: int|
            0 <= i < ds.len() && #[trigger] ds[i] == d && d.variant == variant && d.slot == slot
                && forall|j: int|
                0 <= j < i ==> !((#[trigger] ds[j]).variant == variant && ds[j].slot == slot);
        assert(ds[i].variant == variant);
        let e = slot_decl(ds, variant, slot)->Some_0;
        let k = choose|k: int|
            0 <= k < ds.len() && #[trigger] ds[k] == e && e.variant == variant && e.slot == slot
                && forall|j: int|
                0 <= j < k ==> !((#[trigger] ds[j]).variant == variant && ds[j].slot == slot);
        if i < k {
            assert(ds[i].variant == variant && ds[i].slot == slot);
        } else if k < i {
            assert(ds[k].variant == variant && ds[k].slot == slot);
        }
    }
}

/// Every child of every positional slot is evaluated, in the state it sees and
/// at its own path, and what it has to report is reported; the children of a
/// slot one after the other, one slot after the other.
pub proof fn law_every_child_is_reported_in_order(
    node: SpecTree,
    path: Seq<char>,
    state: Option<SpecState>,
    p: SpecProgram,
    v: SpecVocabulary,
    i: int,
    j: int,
    k: int,
)
    requires
        0 <= i < node.children.len(),
        0 <= j < node.children[i].1.len(),
    ensures
        ({
            let (slot, ts) = node.children[i];
            let (folding, start) = slot_start(p, node.variant, slot, state);
            let all = solved(node, path, state, p, v).findings;
            let one = child_of(ts, slot, path, folding, start, p, v, j).findings;
            &&& part_of(one, all)
            &&& j < k < ts.len() ==> parts_of(
                one,
                child_of(ts, slot, path, folding, start, p, v, k).findings,
                all,
            )
        }),
{
    let (slot, ts) = node.children[i];
    let (folding, start) = slot_start(p, node.variant, slot, state);
    let n = node.children.len();
    lemma_child_reported(ts, slot, path, folding, start, p, v, ts.len(), j);
    let here = solved_children(ts, slot, path, folding, start, p, v, ts.len()).findings;
    let one = child_of(ts, slot, path, folding, start, p, v, j).findings;
    let (slots1, f1) = solved_slots(node.children, node.variant, path, state, p, v, n);
    let (slots2, f2) = solved_keyed(
        node.keyed_children,
        path,
        state,
        p,
        v,
        slots1,
        node.keyed_children.len(),
    );
    let own = judged(node, path, state, slots2, p, v).findings;
    let (pre, post) = lemma_slot_block(
        node.children,
        node.variant,
        path,
        state,
        p,
        v,
        n,
        i,
    );
    let all = solved(node, path, state, p, v).findings;
    assert(all == f1 + f2 + own);
    lemma_regroup(pre, here, post, f2, own);
    lemma_part_on(one, here, pre, post + f2 + own);
    if j < k < ts.len() {
        lemma_children_in_order(ts, slot, path, folding, start, p, v, ts.len(), j, k);
        lemma_parts_on(
            one,
            child_of(ts, slot, path, folding, start, p, v, k).findings,
            here,
            pre,
            post + f2 + own,
        );
    }
}

/// What stands before and behind a slot's findings.
proof fn lemma_slot_block(
    cs: Seq<(Seq<char>, Seq<SpecTree>)>,
    variant: Seq<char>,
    path: Seq<char>,
    state: Option<SpecState>,
    p: SpecProgram,
    v: SpecVocabulary,
    n: nat,
    i: int,
) -> (out: (Seq<SpecFinding>, Seq<SpecFinding>))
    requires
        0 <= i < n <= cs.len(),
    ensures
        ({
            let (slot, ts) = cs[i];
            let (folding, start) = slot_start(p, variant, slot, state);
            solved_slots(cs, variant, path, state, p, v, n).1 == out.0 + solved_children(
                ts,
                slot,
                path,
                folding,
                start,
                p,
                v,
                ts.len(),
            ).findings + out.1
        }),
    decreases n,
{
    let m = (n - 1) as nat;
    let was = solved_slots(cs, variant, path, state, p, v, m).1;
    let all = solved_slots(cs, variant, path, state, p, v, n).1;
    let (slot, ts) = cs[m as int];
    let (folding, start) = slot_start(p, variant, slot, state);
    let last = solved_children(ts, slot, path, folding, start, p, v, ts.len()).findings;
    assert(all == was + last);
    if i == m {
        assert(all =~= was + last + Seq::<SpecFinding>::empty());
        (was, Seq::empty())
    } else {
        let (pre, post) = lemma_slot_block(cs, variant, path, state, p, v, m, i);
        let (slot1, ts1) = cs[i];
        let (folding1, start1) = slot_start(p, variant, slot1, state);
        let mid = solved_children(ts1, slot1, path, folding1, start1, p, v, ts1.len()).findings;
        assert(all =~= pre + mid + (post + last));
        (pre, post + last)
    }
}

/// What an entry of a keyed slot comes to, in the state that reaches the node.
pub open spec fn entry_of(
    es: Seq<(Seq<char>, SpecTree)>,
    slot: Seq<char>,
    path: Seq<char>,
    state: Option<SpecState>,
    p: SpecProgram,
    v: SpecVocabulary,
    j: int,
) -> SpecSolved {
    solved(es[j].1, path_below(path, slot, es[j].0), state, p, v)
}

proof fn lemma_entry_reported(
    es: Seq<(Seq<char>, SpecTree)>,
    slot: Seq<char>,
    path: Seq<char>,
    state: Option<SpecState>,
    p: SpecProgram,
    v: SpecVocabulary,
    n: nat,
    j: int,
)
    requires
        0 <= j < n <= es.len(),
    ensures
        part_of(
            entry_of(es, slot, path, state, p, v, j).findings,
            solved_entries(es, slot, path, state, p, v, n).findings,
        ),
    decreases n,
{
    let m = (n - 1) as nat;
    let was = solved_entries(es, slot, path, state, p, v, m).findings;
    let all = solved_entries(es, slot, path, state, p, v, n).findings;
    let last = entry_of(es, slot, path, state, p, v, m as int).findings;
    lemma_paths(path, slot, es[m as int].0);
    assert(all == was + last);
    if j == m {
        lemma_part(last, was, Seq::empty());
        assert(was + last + Seq::<SpecFinding>::empty() =~= all);
    } else {
        lemma_entry_reported(es, slot, path, state, p, v, m, j);
        lemma_part_on(
            entry_of(es, slot, path, state, p, v, j).findings,
            was,
            Seq::empty(),
            last,
        );
        assert(Seq::<SpecFinding>::empty() + was + last =~= all);
    }
}

proof fn lemma_keyed_block(
    ks: Seq<(Seq<char>, Seq<(Seq<char>, SpecTree)>)>,
    path: Seq<char>,
    state: Option<SpecState>,
    p: SpecProgram,
    v: SpecVocabulary,
    slots: SlotMap,
    n: nat,
    i: int,
) -> (out: (Seq<SpecFinding>, Seq<SpecFinding>))
    requires
        0 <= i < n <= ks.len(),
    ensures
        solved_keyed(ks, path, state, p, v, slots, n).1 == out.0 + solved_entries(
            ks[i].1,
            ks[i].0,
            path,
            state,
            p,
            v,
            ks[i].1.len(),
        ).findings + out.1,
    decreases n,
{
    let m = (n - 1) as nat;
    let was = solved_keyed(ks, path, state, p, v, slots, m).1;
    let all = solved_keyed(ks, path, state, p, v, slots, n).1;
    let (slot, es) = ks[m as int];
    let last = solved_entries(es, slot, path, state, p, v, es.len()).findings;
    assert(all == was + last);
    if i == m {
        assert(all =~= was + last + Seq::<SpecFinding>::empty());
        (was, Seq::empty())
    } else {
        let (pre, post) = lemma_keyed_block(ks, path, state, p, v, slots, m, i);
        let mid = solved_entries(ks[i].1, ks[i].0, path, state, p, v, ks[i].1.len()).findings;
        assert(all =~= pre + mid + (post + last));
        (pre, post + last)
    }
}

/// Every entry of every keyed slot is evaluated, in the state that reaches the
/// node and at its own path, and what it has to report is reported.
pub proof fn law_every_entry_is_reported(
    node: SpecTree,
    path: Seq<char>,
    state: Option<SpecState>,
    p: SpecProgram,
    v: SpecVocabulary,
    i: int,
    j: int,
)
    requires
        0 <= i < node.keyed_children.len(),
        0 <= j < node.keyed_children[i].1.len(),
    ensures
        part_of(
            entry_of(
                node.keyed_children[i].1,
                node.keyed_children[i].0,
                path,
                state,
                p,
                v,
                j,
            ).findings,
            solved(node, path, state, p, v).findings,
        ),
{
    let (slot, es) = node.keyed_children[i];
    let (slots1, f1) = solved_slots(
        node.children,
        node.variant,
        path,
        state,
        p,
        v,
        node.children.len(),
    );
    let m = node.keyed_children.len();
    let (slots2, f2) = solved_keyed(node.keyed_children, path, state, p, v, slots1, m);
    let own = judged(node, path, state, slots2, p, v).findings;
    let here = solved_entries(es, slot, path, state, p, v, es.len()).findings;
    lemma_entry_reported(es, slot, path, state, p, v, es.len(), j);
    let (pre, post) = lemma_keyed_block(node.keyed_children, path, state, p, v, slots1, m, i);
    let all = solved(node, path, state, p, v).findings;
    assert(all == f1 + f2 + own);
    lemma_regroup(pre, here, post, own, f1);
    lemma_part_on(
        entry_of(es, slot, path, state, p, v, j).findings,
        here,
        f1 + pre,
        post + own,
    );
}

/// Whether a table of slots holds, for the positional slots of a node, what
/// their children concluded, and for its keyed slots what their entries did.
pub open spec fn reflects(
    m: SlotMap,
    node: SpecTree,
    path: Seq<char>,
    state: Option<SpecState>,
    p: SpecProgram,
    v: SpecVocabulary,
) -> bool {
    &&& forall|i: int|
        0 <= i < node.children.len() ==> ({
            let (slot, ts) = #[trigger] node.children[i];
            let (folding, start) = slot_start(p, node.variant, slot, state);
            m.contains_key(slot) && m[slot].len() == ts.len() && forall|j: int|
                0 <= j < ts.len() ==> (#[trigger] m[slot][j]).conclusion == child_of(
                    ts,
                    slot,
                    path,
                    folding,
                    start,
                    p,
                    v,
                    j,
                ).conclusion
        })
    &&& forall|i: int|
        0 <= i < node.keyed_children.len() ==> ({
            let (slot, es) = #[trigger] node.keyed_children[i];
            m.contains_key(slot) && m[slot].len() == es.len() && forall|j: int|
                0 <= j < es.len() ==> (#[trigger] m[slot][j]).conclusion == entry_of(
                    es,
                    slot,
                    path,
                    state,
                    p,
                    v,
                    j,
                ).conclusion
        })
}

/// Whether no two slots of a node have one name.
pub open spec fn slots_differ(node: SpecTree) -> bool {
    &&& forall|i: int, j: int|
        0 <= i < j < node.children.len() ==> (#[trigger] node.children[i]).0 != (
        #[trigger] node.children[j]).0
    &&& forall|i: int, j: int|
        0 <= i < j < node.keyed_children.len() ==> (#[trigger] node.keyed_children[i]).0 != (
        #[trigger] node.keyed_children[j]).0
    &&& forall|i: int, j: int|
        0 <= i < node.children.len() && 0 <= j < node.keyed_children.len() ==> (
        #[trigger] node.children[i]).0 != (#[trigger] node.keyed_children[j]).0
}

proof fn lemma_slots_reflect(
    cs: Seq<(Seq<char>, Seq<SpecTree>)>,
    variant: Seq<char>,
    path: Seq<char>,
    state: Option<SpecState>,
    p: SpecProgram,
    v: SpecVocabulary,
    n: nat,
    i: int,
)
    requires
        0 <= i < n <= cs.len(),
        forall|a: int, b: int| 0 <= a < b < cs.len() ==> (#[trigger] cs[a]).0 != (#[trigger] cs[b]).0,
    ensures
        ({
            let (slot, ts) = cs[i];
            let (folding, start) = slot_start(p, variant, slot, state);
            let m = solved_slots(cs, variant, path, state, p, v, n).0;
            m.contains_key(slot) && m[slot] == solved_children(
                ts,
                slot,
                path,
                folding,
                start,
                p,
                v,
                ts.len(),
            ).vals
        }),
    decreases n,
{
    if i < n - 1 {
        lemma_slots_reflect(cs, variant, path, state, p, v, (n - 1) as nat, i);
        assert(cs[i].0 != cs[n - 1].0);
    }
}

proof fn lemma_keyed_keeps(
    ks: Seq<(Seq<char>, Seq<(Seq<char>, SpecTree)>)>,
    path: Seq<char>,
    state: Option<SpecState>,
    p: SpecProgram,
    v: SpecVocabulary,
    slots: SlotMap,
    n: nat,
    slot: Seq<char>,
)
    requires
        n <= ks.len(),
        slots.contains_key(slot),
        forall|i: int| 0 <= i < ks.len() ==> (#[trigger] ks[i]).0 != slot,
    ensures
        solved_keyed(ks, path, state, p, v, slots, n).0.contains_key(slot),
        solved_keyed(ks, path, state, p, v, slots, n).0[slot] == slots[slot],
    decreases n,
{
    if n > 0 {
        lemma_keyed_keeps(ks, path, state, p, v, slots, (n - 1) as nat, slot);
        assert(ks[n - 1].0 != slot);
    }
}

proof fn lemma_keyed_reflect(
    ks: Seq<(Seq<char>, Seq<(Seq<char>, SpecTree)>)>,
    path: Seq<char>,
    state: Option<SpecState>,
    p: SpecProgram,
    v: SpecVocabulary,
    slots: SlotMap,
    n: nat,
    i: int,
)
    requires
        0 <= i < n <= ks.len(),
        forall|a: int, b: int| 0 <= a < b < ks.len() ==> (#[trigger] ks[a]).0 != (#[trigger] ks[b]).0,
    ensures
        ({
            let (slot, es) = ks[i];
            let m = solved_keyed(ks, path, state, p, v, slots, n).0;
            m.contains_key(slot) && m[slot] == solved_entries(
                es,
                slot,
                path,
                state,
                p,
                v,
                es.len(),
            ).vals
        }),
    decreases n,
{
    if i < n - 1 {
        lemma_keyed_reflect(ks, path, state, p, v, slots, (n - 1) as nat, i);
        assert(ks[i].0 != ks[n - 1].0);
    }
}

proof fn lemma_entry_vals(
    es: Seq<(Seq<char>, SpecTree)>,
    slot: Seq<char>,
    path: Seq<char>,
    state: Option<SpecState>,
    p: SpecProgram,
    v: SpecVocabulary,
    n: nat,
)
    requires
        n <= es.len(),
    ensures
        solved_entries(es, slot, path, state, p, v, n).vals.len() == n,
        forall|j: int|
            0 <= j < n ==> (#[trigger] solved_entries(
                es,
                slot,
                path,
                state,
                p,
                v,
                n,
            ).vals[j]).conclusion == entry_of(es, slot, path, state, p, v, j).conclusion,
    decreases n,
{
    if n > 0 {
        let m = (n - 1) as nat;
        lemma_entry_vals(es, slot, path, state, p, v, m);
        lemma_paths(path, slot, es[m as int].0);
        let was = solved_entries(es, slot, path, state, p, v, m).vals;
        let all = solved_entries(es, slot, path, state, p, v, n).vals;
        assert forall|j: int| 0 <= j < n implies (#[trigger] all[j]).conclusion == entry_of(
            es,
            slot,
            path,
            state,
            p,
            v,
            j,
        ).conclusion by {
            if j < m {
                assert(all[j] == was[j]);
            }
        }
    }
}

/// A node is judged by what its children concluded, behind all that they have
/// to report: its conclusion, the state it leaves and its own finding are those
/// of the judgement over a table that holds, slot by slot, the conclusions of
/// all children. Where slots share a name, one of them stands for all; such
/// nodes are left out.
pub proof fn law_a_node_is_judged_by_its_childrens_conclusions(
    node: SpecTree,
    path: Seq<char>,
    state: Option<SpecState>,
    p: SpecProgram,
    v: SpecVocabulary,
)
    requires
        slots_differ(node),
    ensures
        exists|m: SlotMap|
            #![trigger judged(node, path, state, m, p, v)]
            reflects(m, node, path, state, p, v) && ({
                let own = judged(node, path, state, m, p, v);
                let all = solved(node, path, state, p, v);
                &&& all.conclusion == own.conclusion
                &&& all.state_out == own.state_out
                &&& own.findings.len() <= all.findings.len()
                &&& all.findings.skip(all.findings.len() - own.findings.len()) == own.findings
            }),
{
    let n = node.children.len();
    let k = node.keyed_children.len();
    let (slots1, f1) = solved_slots(node.children, node.variant, path, state, p, v, n);
    let (m, f2) = solved_keyed(node.keyed_children, path, state, p, v, slots1, k);
    assert forall|i: int| 0 <= i < n implies ({
        let (slot, ts) = #[trigger] node.children[i];
        let (folding, start) = slot_start(p, node.variant, slot, state);
        m.contains_key(slot) && m[slot].len() == ts.len() && forall|j: int|
            0 <= j < ts.len() ==> (#[trigger] m[slot][j]).conclusion == child_of(
                ts,
                slot,
                path,
                folding,
                start,
                p,
                v,
                j,
            ).conclusion
    }) by {
        let (slot, ts) = node.children[i];
        let (folding, start) = slot_start(p, node.variant, slot, state);
        lemma_slots_reflect(node.children, node.variant, path, state, p, v, n, i);
        lemma_keyed_keeps(node.keyed_children, path, state, p, v, slots1, k, slot);
        lemma_sees(ts, slot, path, folding, start, p, v, ts.len());
    }
    assert forall|i: int| 0 <= i < k implies ({
        let (slot, es) = #[trigger] node.keyed_children[i];
        m.contains_key(slot) && m[slot].len() == es.len() && forall|j: int|
            0 <= j < es.len() ==> (#[trigger] m[slot][j]).conclusion == entry_of(
                es,
                slot,
                path,
                state,
                p,
                v,
                j,
            ).conclusion
    }) by {
        let (slot, es) = node.keyed_children[i];
        lemma_keyed_reflect(node.keyed_children, path, state, p, v, slots1, k, i);
        lemma_entry_vals(es, slot, path, state, p, v, es.len());
    }
    assert(reflects(m, node, path, state, p, v));
    let own = judged(node, path, state, m, p, v);
    let all = solved(node, path, state, p, v);
    assert(all.findings.skip(all.findings.len() - own.findings.len()) =~= own.findings);
}

proof fn lemma_rules_on(rs: Seq<SpecRule>, variant: Seq<char>, i: int)
    requires
        0 <= i < rs.len(),
        rs[i].variant == variant,
    ensures
        rules_on(rs, variant).contains(rs[i]),
    decreases rs.len(),
{
    let front = rs.drop_last();
    let all = rules_on(rs, variant);
    let was = rules_on(front, variant);
    if i == rs.len() - 1 {
        assert(all[was.len() as int] == rs[i]);
    } else {
        assert(front[i] == rs[i]);
        lemma_rules_on(front, variant, i);
        let k = choose|k: int| 0 <= k < was.len() && was[k] == rs[i];
        assert(all[k] == rs[i]);
    }
}

proof fn lemma_rules_on_only(rs: Seq<SpecRule>, variant: Seq<char>)
    ensures
        forall|k: int|
            0 <= k < rules_on(rs, variant).len() ==> (#[trigger] rules_on(rs, variant)[k]).variant
                == variant && rs.contains(rules_on(rs, variant)[k]),
    decreases rs.len(),
{
    if rs.len() > 0 {
        let front = rs.drop_last();
        lemma_rules_on_only(front, variant);
        let was = rules_on(front, variant);
        let all = rules_on(rs, variant);
        assert forall|k: int| 0 <= k < all.len() implies (#[trigger] all[k]).variant == variant
            && rs.contains(all[k]) by {
            if k < was.len() {
                assert(all[k] == was[k]);
                let i = choose|i: int| 0 <= i < front.len() && front[i] == was[k];
                assert(rs[i] == all[k]);
            } else {
                assert(rs[rs.len() - 1] == all[k]);
            }
        }
    }
}

/// A node fails exactly where its variant has rules and none of them holds;
/// then it reports the code of one of them, at its own position. Where one
/// holds, or where there is none, it has nothing to report.
pub proof fn law_a_node_fails_where_no_rule_of_its_variant_holds(
    node: SpecTree,
    path: Seq<char>,
    state: Option<SpecState>,
    slots: SlotMap,
    p: SpecProgram,
    v: SpecVocabulary,
)
    ensures
        judged(node, path, state, slots, p, v).findings.len() > 0 <==> (exists|i: int|
            0 <= i < p.rules.len() && (#[trigger] p.rules[i]).variant == node.variant) && (forall|
            i: int,
        |
            0 <= i < p.rules.len() && (#[trigger] p.rules[i]).variant == node.variant ==> attempt(
                p.rules[i],
                node,
                slots,
                state,
            ) is Err),
        forall|k: int|
            0 <= k < judged(node, path, state, slots, p, v).findings.len() ==> ({
                let f = #[trigger] judged(node, path, state, slots, p, v).findings[k];
                f.span == node.span && exists|i: int|
                    0 <= i < p.rules.len() && (#[trigger] p.rules[i]).variant == node.variant
                        && f.code == p.rules[i].message.code
            }),
{
    let rules = rules_on(p.rules, node.variant);
    let n = rules.len();
    crate::check::laws::law_first_rule_that_holds_wins(rules, node, slots, state, n);
    lemma_rules_on_only(p.rules, node.variant);
    let choice = crate::check::solver::choose_rule(rules, node, slots, state, n);
    let found = judged(node, path, state, slots, p, v).findings;
    match choice {
        crate::check::solver::SpecChoice::Fired(a) => {
            let i = choose|i: int|
                0 <= i < n && crate::check::laws::fires_at(rules, node, slots, state, i, a);
            assert(rules[i].variant == node.variant && p.rules.contains(rules[i]));
            let k = choose|k: int| 0 <= k < p.rules.len() && p.rules[k] == rules[i];
            assert(p.rules[k].variant == node.variant);
        },
        crate::check::solver::SpecChoice::Failed(None) => {
            if exists|i: int|
                0 <= i < p.rules.len() && (#[trigger] p.rules[i]).variant == node.variant {
                let i = choose|i: int|
                    0 <= i < p.rules.len() && (#[trigger] p.rules[i]).variant == node.variant;
                lemma_rules_on(p.rules, node.variant, i);
            }
        },
        crate::check::solver::SpecChoice::Failed(Some(f)) => {
            let i = choose|i: int|
                0 <= i < n && crate::check::laws::fails_at(
                    rules,
                    node,
                    slots,
                    state,
                    i,
                    n as int,
                    f,
                );
            assert(rules[i].variant == node.variant && p.rules.contains(rules[i]));
            let k = choose|k: int| 0 <= k < p.rules.len() && p.rules[k] == rules[i];
            assert(p.rules[k].variant == node.variant);
            assert forall|j: int|
                0 <= j < p.rules.len() && (#[trigger] p.rules[j]).variant
                    == node.variant implies attempt(p.rules[j], node, slots, state) is Err by {
                lemma_rules_on(p.rules, node.variant, j);
                let l = choose|l: int| 0 <= l < rules.len() && rules[l] == p.rules[j];
                assert(attempt(rules[l], node, slots, state) is Err);
            }
            lemma_failure_rule(rules[i], node, slots, state, rules[i].premises.len());
            assert(found[0].code == p.rules[k].message.code);
        },
    }
}

/// A failed attempt names its rule.
proof fn lemma_failure_rule(
    rule: SpecRule,
    node: SpecTree,
    slots: SlotMap,
    state: Option<SpecState>,
    n: nat,
)
    ensures
        crate::check::solver::check_premises(rule, node, slots, state, n) matches Err(f) ==> f.rule
            == rule,
    decreases n,
{
    if 0 < n <= rule.premises.len() {
        lemma_failure_rule(rule, node, slots, state, (n - 1) as nat);
    }
}

/// A payload reference in a pattern stands for the value of the first field of
/// its name, and for itself where the node has none; everything else stands
/// for itself, and the parts of a shape each for what they stand for.
pub proof fn law_references_stand_for_fields(
    name: Seq<char>,
    value: SpecRaw,
    fields: Seq<(Seq<char>, SpecRaw)>,
    i: int,
    ctor: Seq<char>,
    args: Seq<SpecTerm>,
)
    ensures
        0 <= i < fields.len() && fields[i] == (name, value) && (forall|j: int|
            0 <= j < i ==> (#[trigger] fields[j]).0 != name) ==> grounded(
            SpecTerm::FieldRef(name),
            fields,
        ) == SpecTerm::Atom(raw_text(value)),
        (forall|j: int| 0 <= j < fields.len() ==> (#[trigger] fields[j]).0 != name) ==> grounded(
            SpecTerm::FieldRef(name),
            fields,
        ) == SpecTerm::FieldRef(name),
        grounded(SpecTerm::Atom(name), fields) == SpecTerm::Atom(name),
        grounded(SpecTerm::Var(name), fields) == SpecTerm::Var(name),
        grounded(SpecTerm::Ctor(ctor, args), fields) matches SpecTerm::Ctor(c, gs) && c == ctor
            && gs.len() == args.len() && forall|k: int|
            0 <= k < gs.len() ==> #[trigger] gs[k] == grounded(args[k], fields),
{
    lemma_field_value(fields, name);
    if 0 <= i < fields.len() && fields[i] == (name, value) && (forall|j: int|
        0 <= j < i ==> (#[trigger] fields[j]).0 != name) {
        assert(fields[i].0 == name);
        let v = field_of(fields, name)->Some_0;
        let k = choose|k: int|
            0 <= k < fields.len() && #[trigger] fields[k] == (name, v) && forall|j: int|
                0 <= j < k ==> (#[trigger] fields[j]).0 != name;
        if k < i {
            assert(fields[k].0 == name);
        } else if i < k {
            assert(fields[i].0 == name);
        }
    }
}

proof fn lemma_field_value(fields: Seq<(Seq<char>, SpecRaw)>, name: Seq<char>)
    ensures
        match field_of(fields, name) {
            Some(v) => exists|i: int|
                0 <= i < fields.len() && #[trigger] fields[i] == (name, v) && forall|j: int|
                    0 <= j < i ==> (#[trigger] fields[j]).0 != name,
            None => forall|j: int| 0 <= j < fields.len() ==> (#[trigger] fields[j]).0 != name,
        },
    decreases fields.len(),
{
    if fields.len() > 0 && fields[0].0 != name {
        let rest = fields.skip(1);
        lemma_field_value(rest, name);
        match field_of(rest, name) {
            Some(v) => {
                let i = choose|i: int|
                    0 <= i < rest.len() && #[trigger] rest[i] == (name, v) && forall|j: int|
                        0 <= j < i ==> (#[trigger] rest[j]).0 != name;
                assert(fields[i + 1] == (name, v));
                assert forall|j: int| 0 <= j < i + 1 implies (#[trigger] fields[j]).0 != name by {
                    if j > 0 {
                        assert(rest[j - 1] == fields[j]);
                    }
                }
            },
            None => {
                assert forall|j: int| 0 <= j < fields.len() implies (#[trigger] fields[j]).0
                    != name by {
                    if j > 0 {
                        assert(rest[j - 1] == fields[j]);
                    }
                }
            },
        }
    } else if fields.len() > 0 {
        assert(fields[0] == (name, fields[0].1));
    }
}

} // verus!
