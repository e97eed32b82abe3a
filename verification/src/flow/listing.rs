//! Listings, repeated identities and runs up to the next yield.
use vstd::prelude::*;

use crate::flow::stepper::{
    flow_bp_stepped, flow_yielded, stack_steps, SpecFlowOutcome, SpecStepper,
};
use crate::flow::{
    first_repeat, flow_id, flow_listing, flow_summary, indent, listing_line, repeats, Flow,
};
use crate::breakpoint::SpecBreakpoints;
use crate::ids::NodeId;
use crate::places::{
    countable, law_the_list_of_nodes_is_the_tree, node_at, place, size,
};
use crate::refdsl::{ref_id, ref_listing, ref_summary, Ref};
use crate::text::decimal;
use crate::walk::levels;

verus! {

/// Texts one behind the other.
pub open spec fn run_on(lines: Seq<Seq<char>>) -> Seq<char>
    decreases lines.len(),
{
    if lines.len() == 0 {
        Seq::empty()
    } else {
        run_on(lines.drop_last()) + lines.last()
    }
}

/// As many spaces.
pub open spec fn spaces(n: nat) -> Seq<char> {
    Seq::new(n, |i: int| ' ')
}

/// The line for a node: two spaces for every step that leads to it, its
/// identity and its summary.
pub open spec fn node_line(steps: nat, id: NodeId, summary: Seq<char>) -> Seq<char> {
    spaces(2 * steps) + "n"@ + decimal(id.0 as nat) + " "@ + summary + "\n"@
}

proof fn lemma_indent(d: nat)
    ensures
        indent(d) == spaces(2 * d),
    decreases d,
{
    reveal_strlit("  ");
    if d > 0 {
        lemma_indent((d - 1) as nat);
    }
    assert(indent(d) =~= spaces(2 * d));
}

proof fn lemma_line(id: NodeId, summary: Seq<char>, d: nat)
    ensures
        listing_line(id, summary, d) == node_line(d, id, summary),
{
    lemma_indent(d);
    assert(listing_line(id, summary, d) =~= node_line(d, id, summary));
}

proof fn lemma_flow_lines(ls: Seq<(Flow, usize)>, n: nat)
    requires
        n <= ls.len(),
    ensures
        flow_listing(ls, n) == run_on(
            Seq::new(
                n,
                |i: int| node_line(ls[i].1 as nat, flow_id(ls[i].0), flow_summary(ls[i].0)),
            ),
        ),
    decreases n,
{
    let f = |i: int| node_line(ls[i].1 as nat, flow_id(ls[i].0), flow_summary(ls[i].0));
    let lines = Seq::new(n, f);
    if n > 0 {
        lemma_flow_lines(ls, (n - 1) as nat);
        assert(lines.drop_last() =~= Seq::new((n - 1) as nat, f));
        lemma_line(flow_id(ls[n - 1].0), flow_summary(ls[n - 1].0), ls[n - 1].1 as nat);
    }
}

proof fn lemma_ref_lines(ls: Seq<(Ref, usize)>, n: nat)
    requires
        n <= ls.len(),
    ensures
        ref_listing(ls, n) == run_on(
            Seq::new(
                n,
                |i: int| node_line(ls[i].1 as nat, ref_id(ls[i].0), ref_summary(ls[i].0)),
            ),
        ),
    decreases n,
{
    let f = |i: int| node_line(ls[i].1 as nat, ref_id(ls[i].0), ref_summary(ls[i].0));
    let lines = Seq::new(n, f);
    if n > 0 {
        lemma_ref_lines(ls, (n - 1) as nat);
        assert(lines.drop_last() =~= Seq::new((n - 1) as nat, f));
        lemma_line(ref_id(ls[n - 1].0), ref_summary(ls[n - 1].0), ls[n - 1].1 as nat);
    }
}

/// The listing of a flow has one line for every node, in walking order,
/// indented by the steps that lead to it.
pub proof fn law_every_node_of_a_flow_is_listed(root: Flow)
    requires
        countable(root),
    ensures
        exists|lines: Seq<Seq<char>>| #[trigger]
            run_on(lines) == flow_listing(levels(root, 0), levels(root, 0).len()) && lines.len()
                == size(root) && forall|way: Seq<int>|
                (#[trigger] node_at(root, way) matches Some(m) ==> lines[place(root, way)]
                    == node_line(way.len(), flow_id(m), flow_summary(m))),
{
    let ls = levels(root, 0);
    let f = |i: int| node_line(ls[i].1 as nat, flow_id(ls[i].0), flow_summary(ls[i].0));
    let lines = Seq::new(ls.len(), f);
    lemma_flow_lines(ls, ls.len());
    law_the_list_of_nodes_is_the_tree(root, Seq::empty(), 0);
    assert forall|way: Seq<int>|
        (#[trigger] node_at(root, way) matches Some(m) ==> lines[place(root, way)] == node_line(
            way.len(),
            flow_id(m),
            flow_summary(m),
        )) by {
        if node_at(root, way) is Some {
            law_the_list_of_nodes_is_the_tree(root, way, 0);
        }
    }
    assert(run_on(lines) == flow_listing(ls, ls.len()));
}

/// The listing of a program has one line for every node, in walking order,
/// indented by the steps that lead to it.
pub proof fn law_every_node_of_a_program_is_listed(root: Ref)
    requires
        countable(root),
    ensures
        exists|lines: Seq<Seq<char>>| #[trigger]
            run_on(lines) == ref_listing(levels(root, 0), levels(root, 0).len()) && lines.len()
                == size(root) && forall|way: Seq<int>|
                (#[trigger] node_at(root, way) matches Some(m) ==> lines[place(root, way)]
                    == node_line(way.len(), ref_id(m), ref_summary(m))),
{
    let ls = levels(root, 0);
    let f = |i: int| node_line(ls[i].1 as nat, ref_id(ls[i].0), ref_summary(ls[i].0));
    let lines = Seq::new(ls.len(), f);
    lemma_ref_lines(ls, ls.len());
    law_the_list_of_nodes_is_the_tree(root, Seq::empty(), 0);
    assert forall|way: Seq<int>|
        (#[trigger] node_at(root, way) matches Some(m) ==> lines[place(root, way)] == node_line(
            way.len(),
            ref_id(m),
            ref_summary(m),
        )) by {
        if node_at(root, way) is Some {
            law_the_list_of_nodes_is_the_tree(root, way, 0);
        }
    }
    assert(run_on(lines) == ref_listing(ls, ls.len()));
}

proof fn lemma_first_repeat(ls: Seq<(Flow, usize)>, i: int) -> (k: int)
    requires
        0 <= i <= ls.len(),
    ensures
        match first_repeat(ls, i) {
            Some(id) => i <= k < ls.len() && repeats(ls, k) && flow_id(ls[k].0) == id && forall|
                j: int,
            |
                i <= j < k ==> !repeats(ls, j),
            None => forall|j: int| i <= j < ls.len() ==> !repeats(ls, j),
        },
    decreases ls.len() - i,
{
    if i < ls.len() && !repeats(ls, i) {
        lemma_first_repeat(ls, i + 1)
    } else {
        i
    }
}

/// A flow is refused exactly where two ways lead to the same identity, and it
/// is refused for an identity that stands at two places.
pub proof fn law_flows_with_repeated_identities_are_refused(root: Flow)
    requires
        countable(root),
    ensures
        first_repeat(levels(root, 0), 0) is None <==> forall|a: Seq<int>, b: Seq<int>|
            #![trigger node_at(root, a), node_at(root, b)]
            a != b && node_at(root, a) is Some && node_at(root, b) is Some ==> flow_id(
                node_at(root, a)->0,
            ) != flow_id(node_at(root, b)->0),
        first_repeat(levels(root, 0), 0) matches Some(id) ==> exists|a: Seq<int>, b: Seq<int>|
            #![trigger node_at(root, a), node_at(root, b)]
            a != b && node_at(root, a) is Some && node_at(root, b) is Some && flow_id(
                node_at(root, a)->0,
            ) == id && flow_id(node_at(root, b)->0) == id,
{
    let ls = levels(root, 0);
    let k = lemma_first_repeat(ls, 0);
    if first_repeat(ls, 0) is Some {
        let j = choose|j: int| 0 <= j < k && flow_id((#[trigger] ls[j]).0) == flow_id(ls[k].0);
        law_the_list_of_nodes_is_the_tree(root, Seq::empty(), j);
        law_the_list_of_nodes_is_the_tree(root, Seq::empty(), k);
        let a = choose|w: Seq<int>|
            #![trigger node_at(root, w)]
            node_at(root, w) == Some(ls[j].0) && ls[j].1 == w.len() && place(root, w) == j;
        let b = choose|w: Seq<int>|
            #![trigger node_at(root, w)]
            node_at(root, w) == Some(ls[k].0) && ls[k].1 == w.len() && place(root, w) == k;
        assert(node_at(root, a) is Some && node_at(root, b) is Some && a != b);
    } else {
        assert forall|a: Seq<int>, b: Seq<int>|
            #![trigger node_at(root, a), node_at(root, b)]
            a != b && node_at(root, a) is Some && node_at(root, b) is Some implies flow_id(
            node_at(root, a)->0,
        ) != flow_id(node_at(root, b)->0) by {
            law_the_list_of_nodes_is_the_tree(root, a, 0);
            law_the_list_of_nodes_is_the_tree(root, b, 0);
            crate::places::law_places_are_in_walking_order(root, a, b);
            let i = place(root, a);
            let j = place(root, b);
            if i < j {
                assert(!repeats(ls, j));
                assert(flow_id(ls[i].0) != flow_id(ls[j].0));
            } else {
                assert(!repeats(ls, i));
                assert(flow_id(ls[j].0) != flow_id(ls[i].0));
            }
        }
    }
}

/// A stepper and the last outcome after some steps under breakpoints.
pub open spec fn stepped(s: SpecStepper, bps: SpecBreakpoints, n: nat) -> (
    SpecStepper,
    SpecFlowOutcome,
)
    decreases n,
{
    if n == 0 {
        (s, SpecFlowOutcome::Advanced)
    } else {
        flow_bp_stepped(stepped(s, bps, (n - 1) as nat).0, bps)
    }
}

proof fn lemma_stepped_on(s: SpecStepper, bps: SpecBreakpoints, n: nat)
    requires
        n > 0,
    ensures
        stepped(s, bps, n) == (if n == 1 {
            flow_bp_stepped(s, bps)
        } else {
            stepped(flow_bp_stepped(s, bps).0, bps, (n - 1) as nat)
        }),
    decreases n,
{
    reveal_with_fuel(stepped, 2);
    if n > 1 {
        lemma_stepped_on(s, bps, (n - 1) as nat);
    }
}

/// A run up to the next yield is so many single steps: all but the last
/// advance, and the last does not.
pub proof fn law_a_run_stops_at_the_first_yield(s: SpecStepper, bps: SpecBreakpoints)
    ensures
        !(flow_yielded(s, bps).1 is Advanced),
        exists|n: nat|
            n > 0 && #[trigger] stepped(s, bps, n) == flow_yielded(s, bps) && forall|k: nat|
                0 < k < n ==> (#[trigger] stepped(s, bps, k)).1 is Advanced,
    decreases stack_steps(s.stack),
{
    let (after, outcome) = flow_bp_stepped(s, bps);
    reveal_with_fuel(stepped, 2);
    if outcome is Advanced {
        crate::flow::stepper::lemma_bp_advancing(s, bps);
        law_a_run_stops_at_the_first_yield(after, bps);
        let n = choose|n: nat|
            n > 0 && #[trigger] stepped(after, bps, n) == flow_yielded(after, bps) && forall|k: nat|
                0 < k < n ==> (#[trigger] stepped(after, bps, k)).1 is Advanced;
        lemma_stepped_on(s, bps, n + 1);
        assert(stepped(s, bps, n + 1) == flow_yielded(s, bps));
        assert forall|k: nat| 0 < k < n + 1 implies (#[trigger] stepped(
            s,
            bps,
            k,
        )).1 is Advanced by {
            lemma_stepped_on(s, bps, k);
            if k > 1 {
                assert(stepped(after, bps, (k - 1) as nat).1 is Advanced);
            }
        }
    } else {
        assert(stepped(s, bps, 1) == flow_yielded(s, bps));
    }
}

} // verus!
