//! Where the nodes of a tree stand.
use vstd::prelude::*;

use crate::ids::NodeId;
use crate::walk::{
    answers, child_levels, child_visits, deeper, first_answer, found, found_below, levels,
    silent_until, visits, Phase, Walk,
};

verus! {

/// The node that a way leads to: at each step, which child to go to.
pub open spec fn node_at<N: Walk>(n: N, way: Seq<int>) -> Option<N>
    decreases way.len(),
{
    if way.len() == 0 {
        Some(n)
    } else if 0 <= way[0] < n.children_spec().len() {
        node_at(n.children_spec()[way[0]], way.skip(1))
    } else {
        None
    }
}


/// How many nodes a tree has that meet a condition, which may look at how
/// deep a node stands below depth `d`.
pub open spec fn tally<N: Walk>(n: N, d: nat, p: spec_fn(N, nat) -> bool) -> nat
    decreases n.height(), n.children_spec().len() + 1,
{
    (if p(n, d) {
        1nat
    } else {
        0
    }) + child_tally(n, d + 1, p, n.children_spec().len())
}

/// The same below the first `k` children of a node.
pub open spec fn child_tally<N: Walk>(n: N, d: nat, p: spec_fn(N, nat) -> bool, k: nat) -> nat
    decreases n.height(), k,
    via child_tally_decreases::<N>
{
    if k == 0 || k > n.children_spec().len() {
        0
    } else {
        child_tally(n, d, p, (k - 1) as nat) + tally(n.children_spec()[k - 1], d, p)
    }
}

#[via_fn]
proof fn child_tally_decreases<N: Walk>(n: N, d: nat, p: spec_fn(N, nat) -> bool, k: nat) {
    if 0 < k <= n.children_spec().len() {
        n.children_are_lower(k - 1);
    }
}

/// How many nodes a tree has.
pub open spec fn size<N: Walk>(n: N) -> nat
    decreases n.height(), n.children_spec().len() + 1,
{
    1 + sizes(n, n.children_spec().len())
}

/// How many nodes stand below the first `k` children of a node, those
/// included.
pub open spec fn sizes<N: Walk>(n: N, k: nat) -> nat
    decreases n.height(), k,
    via sizes_decreases::<N>
{
    if k == 0 || k > n.children_spec().len() {
        0
    } else {
        sizes(n, (k - 1) as nat) + size(n.children_spec()[k - 1])
    }
}

#[via_fn]
proof fn sizes_decreases<N: Walk>(n: N, k: nat) {
    if 0 < k <= n.children_spec().len() {
        n.children_are_lower(k - 1);
    }
}

/// How many nodes come before the one a way leads to, when every node comes
/// before its children and these come in order.
pub open spec fn place<N: Walk>(n: N, way: Seq<int>) -> int
    decreases way.len(),
{
    if way.len() == 0 || !(0 <= way[0] < n.children_spec().len()) {
        0
    } else {
        1 + sizes(n, way[0] as nat) + place(n.children_spec()[way[0]], way.skip(1))
    }
}

proof fn lemma_levels_size<N: Walk>(n: N, d: usize)
    ensures
        levels(n, d).len() == size(n),
    decreases n.height(), n.children_spec().len() + 1,
{
    lemma_child_levels_size(n, deeper(d), n.children_spec().len());
}

proof fn lemma_child_levels_size<N: Walk>(n: N, d: usize, k: nat)
    ensures
        child_levels(n, d, k).len() == sizes(n, k),
    decreases n.height(), k,
{
    if 0 < k <= n.children_spec().len() {
        n.children_are_lower(k - 1);
        lemma_child_levels_size(n, d, (k - 1) as nat);
        lemma_levels_size(n.children_spec()[k - 1], d);
    }
}

/// The block of a child among the nodes below the first `k` children.
proof fn lemma_block<N: Walk>(n: N, d: usize, k: nat, j: nat, i: int)
    requires
        j < k <= n.children_spec().len(),
        0 <= i < size(n.children_spec()[j as int]),
    ensures
        sizes(n, j) + i < sizes(n, k),
        child_levels(n, d, k)[sizes(n, j) + i] == levels(n.children_spec()[j as int], d)[i],
    decreases k,
{
    let m = (k - 1) as nat;
    lemma_child_levels_size(n, d, m);
    lemma_levels_size(n.children_spec()[k - 1], d);
    if j < m {
        lemma_block(n, d, m, j, i);
    }
}

proof fn lemma_place<N: Walk>(n: N, d: usize, way: Seq<int>)
    requires
        node_at(n, way) is Some,
        d + way.len() <= usize::MAX,
    ensures
        0 <= place(n, way) < size(n),
        levels(n, d)[place(n, way)] == (node_at(n, way)->0, (d + way.len()) as usize),
    decreases way.len(),
{
    lemma_levels_size(n, d);
    if way.len() > 0 {
        let kid = n.children_spec()[way[0]];
        let rest = way.skip(1);
        lemma_place(kid, deeper(d), rest);
        lemma_block(n, deeper(d), n.children_spec().len(), way[0] as nat, place(kid, rest));
    }
}

/// The child in whose block a position lies.
proof fn lemma_block_of<N: Walk>(n: N, k: nat, i: int) -> (j: nat)
    requires
        k <= n.children_spec().len(),
        0 <= i < sizes(n, k),
    ensures
        j < k,
        sizes(n, j) <= i < sizes(n, j) + size(n.children_spec()[j as int]),
    decreases k,
{
    let m = (k - 1) as nat;
    if i < sizes(n, m) {
        lemma_block_of(n, m, i)
    } else {
        m
    }
}

/// The way to the node at a position.
proof fn lemma_way_to<N: Walk>(n: N, i: int) -> (way: Seq<int>)
    requires
        0 <= i < size(n),
    ensures
        node_at(n, way) is Some,
        place(n, way) == i,
    decreases n.height(),
{
    if i == 0 {
        Seq::empty()
    } else {
        let j = lemma_block_of(n, n.children_spec().len(), i - 1);
        n.children_are_lower(j as int);
        let rest = lemma_way_to(n.children_spec()[j as int], i - 1 - sizes(n, j));
        let way = seq![j as int] + rest;
        assert(way.skip(1) =~= rest);
        way
    }
}

proof fn lemma_sizes_grow<N: Walk>(n: N, j: nat, k: nat)
    requires
        j < k <= n.children_spec().len(),
    ensures
        sizes(n, j) + size(n.children_spec()[j as int]) <= sizes(n, k),
    decreases k,
{
    if j < k - 1 {
        lemma_sizes_grow(n, j, (k - 1) as nat);
    }
}

/// A place lies in its tree.
proof fn lemma_place_range<N: Walk>(n: N, way: Seq<int>)
    requires
        node_at(n, way) is Some,
    ensures
        0 <= place(n, way) < size(n),
    decreases way.len(),
{
    if way.len() > 0 {
        lemma_place_range(n.children_spec()[way[0]], way.skip(1));
        lemma_sizes_grow(n, way[0] as nat, n.children_spec().len());
    }
}

/// Two ways to one place are one way.
proof fn lemma_one_way<N: Walk>(n: N, a: Seq<int>, b: Seq<int>)
    requires
        node_at(n, a) is Some,
        node_at(n, b) is Some,
        place(n, a) == place(n, b),
    ensures
        a == b,
    decreases a.len(),
{
    if a.len() > 0 {
        lemma_place_range(n.children_spec()[a[0]], a.skip(1));
    }
    if b.len() > 0 {
        lemma_place_range(n.children_spec()[b[0]], b.skip(1));
    }
    if a.len() > 0 && b.len() > 0 {
        if a[0] < b[0] {
            lemma_sizes_grow(n, a[0] as nat, b[0] as nat);
        } else if b[0] < a[0] {
            lemma_sizes_grow(n, b[0] as nat, a[0] as nat);
        }
        lemma_one_way(n.children_spec()[a[0]], a.skip(1), b.skip(1));
        assert(a =~= seq![a[0]] + a.skip(1));
        assert(b =~= seq![b[0]] + b.skip(1));
    } else if a.len() == 0 && b.len() == 0 {
        assert(a =~= b);
    }
}

/// How deep a tree is: the longest way in it. Trees deeper than can be
/// counted are left out of the laws below.
pub open spec fn countable<N: Walk>(n: N) -> bool {
    forall|way: Seq<int>| #[trigger] node_at(n, way) is Some ==> way.len() <= usize::MAX
}

/// The list of a tree's nodes holds the node that each way leads to once, at
/// its place and with the length of the way as its depth, and it holds
/// nothing else.
pub proof fn law_the_list_of_nodes_is_the_tree<N: Walk>(n: N, way: Seq<int>, i: int)
    requires
        countable(n),
    ensures
        levels(n, 0).len() == size(n),
        node_at(n, way) matches Some(m) ==> 0 <= place(n, way) < size(n) && levels(n, 0)[place(
            n,
            way,
        )] == (m, way.len() as usize),
        0 <= i < levels(n, 0).len() ==> exists|w: Seq<int>|
            #![trigger node_at(n, w)]
            node_at(n, w) == Some(levels(n, 0)[i].0) && levels(n, 0)[i].1 == w.len() && place(n, w)
                == i,
{
    lemma_levels_size(n, 0);
    if node_at(n, way) is Some {
        lemma_place(n, 0, way);
    }
    if 0 <= i < levels(n, 0).len() {
        let w = lemma_way_to(n, i);
        assert(w.len() <= usize::MAX);
        lemma_place(n, 0, w);
        assert(node_at(n, w) == Some(levels(n, 0)[i].0));
    }
}

/// Places are in the order of a walk: different ways have different places, a
/// node comes before everything below it, and what is below one child comes
/// before what is below a later one.
pub proof fn law_places_are_in_walking_order<N: Walk>(n: N, a: Seq<int>, b: Seq<int>)
    requires
        node_at(n, a) is Some,
        node_at(n, b) is Some,
    ensures
        place(n, a) == place(n, b) <==> a == b,
        a.len() == 0 && b.len() > 0 ==> place(n, a) < place(n, b),
        a.len() > 0 && b.len() > 0 && a[0] < b[0] ==> place(n, a) < place(n, b),
        a.len() > 0 && b.len() > 0 && a[0] == b[0] ==> (place(n, a) < place(n, b) <==> place(
            n.children_spec()[a[0]],
            a.skip(1),
        ) < place(n.children_spec()[a[0]], b.skip(1))),
{
    if place(n, a) == place(n, b) {
        lemma_one_way(n, a, b);
    }
    lemma_place_range(n, a);
    lemma_place_range(n, b);
    if a.len() > 0 {
        lemma_place_range(n.children_spec()[a[0]], a.skip(1));
    }
    if b.len() > 0 {
        lemma_place_range(n.children_spec()[b[0]], b.skip(1));
    }
    if a.len() > 0 && b.len() > 0 && a[0] < b[0] {
        lemma_sizes_grow(n, a[0] as nat, b[0] as nat);
    }
}

/// How many positions of a list meet a condition.
pub open spec fn count_in<N>(
    ls: Seq<(N, usize)>,
    n: nat,
    p: spec_fn(N, nat) -> bool,
) -> nat
    decreases n,
{
    if n == 0 || n > ls.len() {
        0
    } else {
        count_in(ls, (n - 1) as nat, p) + if p(ls[n - 1].0, ls[n - 1].1 as nat) {
            1nat
        } else {
            0
        }
    }
}

proof fn lemma_count_sum<N>(
    a: Seq<(N, usize)>,
    b: Seq<(N, usize)>,
    m: nat,
    p: spec_fn(N, nat) -> bool,
)
    requires
        m <= b.len(),
    ensures
        count_in(a + b, a.len() + m, p) == count_in(a, a.len(), p) + count_in(b, m, p),
    decreases a.len() + m,
{
    if m > 0 {
        lemma_count_sum(a, b, (m - 1) as nat, p);
        assert((a + b)[a.len() + m - 1] == b[m - 1]);
    } else {
        lemma_count_front(a, b, a.len(), p);
    }
}

proof fn lemma_count_front<N>(
    a: Seq<(N, usize)>,
    b: Seq<(N, usize)>,
    m: nat,
    p: spec_fn(N, nat) -> bool,
)
    requires
        m <= a.len(),
    ensures
        count_in(a + b, m, p) == count_in(a, m, p),
    decreases m,
{
    if m > 0 {
        lemma_count_front(a, b, (m - 1) as nat, p);
        assert((a + b)[m - 1] == a[m - 1]);
    }
}

/// Whether no way from here is longer than can be counted from depth `d` on.
spec fn fits<N: Walk>(n: N, d: nat) -> bool {
    forall|way: Seq<int>| #[trigger] node_at(n, way) is Some ==> d + way.len() <= usize::MAX
}

proof fn lemma_kid_fits<N: Walk>(n: N, d: nat, k: int)
    requires
        fits(n, d),
        0 <= k < n.children_spec().len(),
    ensures
        d < usize::MAX,
        fits(n.children_spec()[k], d + 1),
{
    let kid = n.children_spec()[k];
    assert forall|way: Seq<int>| #[trigger] node_at(kid, way) is Some implies d + 1 + way.len()
        <= usize::MAX by {
        let longer = seq![k] + way;
        assert(longer.skip(1) =~= way);
        assert(node_at(n, longer) is Some);
    }
    assert(node_at(kid, Seq::empty()) is Some);
}

proof fn lemma_count_levels<N: Walk>(n: N, d: usize, p: spec_fn(N, nat) -> bool)
    requires
        fits(n, d as nat),
    ensures
        count_in(levels(n, d), levels(n, d).len(), p) == tally(n, d as nat, p),
    decreases n.height(), n.children_spec().len() + 1,
{
    let first = seq![(n, d)];
    let k = n.children_spec().len();
    let below = child_levels(n, deeper(d), k);
    reveal_with_fuel(count_in, 2);
    assert(count_in(first, 1, p) == if p(n, d as nat) {
        1nat
    } else {
        0
    });
    if k > 0 {
        lemma_kid_fits(n, d as nat, 0);
        lemma_count_child_levels(n, deeper(d), p, k);
    } else {
        assert(below =~= Seq::empty());
    }
    lemma_count_sum(first, below, below.len(), p);
    assert(levels(n, d).len() == first.len() + below.len());
}

proof fn lemma_count_child_levels<N: Walk>(n: N, d: usize, p: spec_fn(N, nat) -> bool, k: nat)
    requires
        d > 0,
        fits(n, (d - 1) as nat),
        k <= n.children_spec().len(),
    ensures
        count_in(child_levels(n, d, k), child_levels(n, d, k).len(), p) == child_tally(
            n,
            d as nat,
            p,
            k,
        ),
    decreases n.height(), k,
{
    if k > 0 {
        n.children_are_lower(k - 1);
        lemma_kid_fits(n, (d - 1) as nat, k - 1);
        let before = child_levels(n, d, (k - 1) as nat);
        let here = levels(n.children_spec()[k - 1], d);
        lemma_count_child_levels(n, d, p, (k - 1) as nat);
        lemma_count_levels(n.children_spec()[k - 1], d, p);
        lemma_count_sum(before, here, here.len(), p);
    }
}

/// As many positions of the list of a tree's nodes meet a condition as nodes
/// of the tree do.
pub proof fn lemma_count_is_tally<N: Walk>(n: N, p: spec_fn(N, nat) -> bool)
    requires
        countable(n),
    ensures
        count_in(levels(n, 0), levels(n, 0).len(), p) == tally(n, 0, p),
{
    assert(fits(n, 0)) by {
        assert forall|way: Seq<int>| #[trigger] node_at(n, way) is Some implies 0 + way.len()
            <= usize::MAX by {}
    }
    lemma_count_levels(n, 0, p);
}

proof fn lemma_visits_size<N: Walk>(n: N)
    ensures
        visits(n).len() == 2 * size(n),
    decreases n.height(), n.children_spec().len() + 1,
{
    lemma_child_visits_size(n, n.children_spec().len());
}

proof fn lemma_child_visits_size<N: Walk>(n: N, k: nat)
    ensures
        child_visits(n, k).len() == 2 * sizes(n, k),
    decreases n.height(), k,
{
    if 0 < k <= n.children_spec().len() {
        n.children_are_lower(k - 1);
        lemma_child_visits_size(n, (k - 1) as nat);
        lemma_visits_size(n.children_spec()[k - 1]);
    }
}

proof fn lemma_visits_block<N: Walk>(n: N, k: nat, j: nat, i: int)
    requires
        j < k <= n.children_spec().len(),
        0 <= i < 2 * size(n.children_spec()[j as int]),
    ensures
        2 * sizes(n, j) + i < 2 * sizes(n, k),
        child_visits(n, k)[2 * sizes(n, j) + i] == visits(n.children_spec()[j as int])[i],
    decreases k,
{
    let m = (k - 1) as nat;
    lemma_child_visits_size(n, m);
    lemma_visits_size(n.children_spec()[k - 1]);
    if j < m {
        lemma_visits_block(n, m, j, i);
    }
}

/// How many nodes stand in the tree below a place, that place included,
/// counted to the end of it, is less than what is left of the whole.
proof fn lemma_place_span<N: Walk>(n: N, way: Seq<int>)
    requires
        node_at(n, way) is Some,
    ensures
        0 <= place(n, way),
        place(n, way) >= way.len(),
        place(n, way) + size(node_at(n, way)->0) <= size(n),
    decreases way.len(),
{
    if way.len() > 0 {
        let kid = n.children_spec()[way[0]];
        lemma_place_span(kid, way.skip(1));
        lemma_sizes_grow(n, way[0] as nat, n.children_spec().len());
    }
}

/// A walk visits every node twice and nothing else. Before the first visit of
/// the node at a place come both visits of everything before it, but only the
/// first visit of what it stands below; between its own two visits come those
/// of everything below it.
pub proof fn law_a_walk_opens_and_closes_every_node<N: Walk>(n: N, way: Seq<int>)
    requires
        node_at(n, way) is Some,
    ensures
        visits(n).len() == 2 * size(n),
        ({
            let m = node_at(n, way)->0;
            let opening = 2 * place(n, way) - way.len();
            &&& 0 <= opening && opening + 2 * size(m) <= visits(n).len()
            &&& visits(n)[opening] == (m, Phase::Pre)
            &&& visits(n)[opening + 2 * size(m) - 1] == (m, Phase::Post)
        }),
    decreases way.len(),
{
    lemma_visits_size(n);
    lemma_child_visits_size(n, n.children_spec().len());
    lemma_place_span(n, way);
    if way.len() > 0 {
        let kid = n.children_spec()[way[0]];
        let rest = way.skip(1);
        let m = node_at(n, way)->0;
        let inner = 2 * place(kid, rest) - rest.len();
        lemma_place_span(kid, rest);
        law_a_walk_opens_and_closes_every_node(kid, rest);
        lemma_visits_size(kid);
        let k = n.children_spec().len();
        lemma_visits_block(n, k, way[0] as nat, inner);
        lemma_visits_block(n, k, way[0] as nat, inner + 2 * size(m) - 1);
    }
}

/// Whether a way leads to the first node of an identity.
pub open spec fn leads_to_first<N: Walk>(n: N, way: Seq<int>, target: NodeId) -> bool {
    &&& node_at(n, way) matches Some(m) && m.id_spec() == target
    &&& forall|o: Seq<int>|
        #![trigger node_at(n, o)]
        (node_at(n, o) matches Some(m) && m.id_spec() == target) ==> place(n, way) <= place(n, o)
}

/// A search by identity gives the first node that has it, and gives none only
/// where no node has it.
pub proof fn law_a_search_finds_the_first<N: Walk>(n: N, target: NodeId)
    ensures
        match found(n, target) {
            Some(m) => exists|way: Seq<int>|
                #![trigger node_at(n, way)]
                node_at(n, way) == Some(m) && leads_to_first(n, way, target),
            None => forall|way: Seq<int>|
                (#[trigger] node_at(n, way) matches Some(m) ==> m.id_spec() != target),
        },
    decreases n.height(), n.children_spec().len() + 1,
{
    if n.id_spec() == target {
        let way = Seq::<int>::empty();
        assert forall|o: Seq<int>|
            #![trigger node_at(n, o)]
            (node_at(n, o) matches Some(m) && m.id_spec() == target) implies place(n, way) <= place(
            n,
            o,
        ) by {
            lemma_place_range(n, o);
        }
        assert(node_at(n, way) == Some(n));
        assert(leads_to_first(n, way, target));
    } else {
        let k = n.children_spec().len();
        lemma_found_below(n, target, k);
        match found_below(n, target, k) {
            Some(m) => {
                let way = choose|way: Seq<int>|
                    #![trigger node_at(n, way)]
                    node_at(n, way) == Some(m) && way.len() > 0 && first_below(n, way, target, k);
                assert forall|o: Seq<int>|
                    #![trigger node_at(n, o)]
                    (node_at(n, o) matches Some(x) && x.id_spec() == target) implies place(n, way)
                    <= place(n, o) by {
                    assert(o.len() > 0);
                }
                assert(leads_to_first(n, way, target));
            },
            None => {
                assert forall|way: Seq<int>|
                    (#[trigger] node_at(n, way) matches Some(m) ==> m.id_spec() != target) by {
                    if way.len() > 0 && node_at(n, way) is Some {
                        assert(way[0] < k);
                    }
                }
            },
        }
    }
}

/// The same of the ways below the first `k` children.
spec fn first_below<N: Walk>(n: N, way: Seq<int>, target: NodeId, k: nat) -> bool {
    &&& node_at(n, way) matches Some(m) && m.id_spec() == target
    &&& forall|o: Seq<int>|
        #![trigger node_at(n, o)]
        o.len() > 0 && o[0] < k && (node_at(n, o) matches Some(m) && m.id_spec() == target)
            ==> place(n, way) <= place(n, o)
}

proof fn lemma_found_below<N: Walk>(n: N, target: NodeId, k: nat)
    requires
        k <= n.children_spec().len(),
    ensures
        match found_below(n, target, k) {
            Some(m) => exists|way: Seq<int>|
                #![trigger node_at(n, way)]
                node_at(n, way) == Some(m) && way.len() > 0 && way[0] < k && first_below(
                    n,
                    way,
                    target,
                    k,
                ),
            None => forall|way: Seq<int>|
                way.len() > 0 && way[0] < k ==> (#[trigger] node_at(n, way) matches Some(m)
                    ==> m.id_spec() != target),
        },
    decreases n.height(), k,
{
    if k > 0 {
        let j = (k - 1) as nat;
        let kid = n.children_spec()[j as int];
        n.children_are_lower(j as int);
        lemma_found_below(n, target, j);
        if let Some(m) = found_below(n, target, j) {
            let way = choose|way: Seq<int>|
                #![trigger node_at(n, way)]
                node_at(n, way) == Some(m) && way.len() > 0 && way[0] < j && first_below(
                    n,
                    way,
                    target,
                    j,
                );
            assert forall|o: Seq<int>|
                #![trigger node_at(n, o)]
                o.len() > 0 && o[0] < k && (node_at(n, o) matches Some(x) && x.id_spec()
                    == target) implies place(n, way) <= place(n, o) by {
                law_places_are_in_walking_order(n, way, o);
            }
            assert(first_below(n, way, target, k));
        } else {
            law_a_search_finds_the_first(kid, target);
            match found(kid, target) {
                Some(m) => {
                    let rest = choose|way: Seq<int>|
                        #![trigger node_at(kid, way)]
                        node_at(kid, way) == Some(m) && leads_to_first(kid, way, target);
                    let way = seq![j as int] + rest;
                    assert(way.skip(1) =~= rest);
                    assert(node_at(n, way) == Some(m));
                    assert forall|o: Seq<int>|
                        #![trigger node_at(n, o)]
                        o.len() > 0 && o[0] < k && (node_at(n, o) matches Some(x) && x.id_spec()
                            == target) implies place(n, way) <= place(n, o) by {
                        assert(o[0] == j);
                        assert(node_at(kid, o.skip(1)) == node_at(n, o));
                        assert(place(kid, rest) <= place(kid, o.skip(1)));
                    }
                    assert(first_below(n, way, target, k));
                },
                None => {
                    assert forall|way: Seq<int>|
                        way.len() > 0 && way[0] < k implies (#[trigger] node_at(n, way) matches Some(
                        m,
                    ) ==> m.id_spec() != target) by {
                        if node_at(n, way) is Some && way[0] == j {
                            assert(node_at(kid, way.skip(1)) == node_at(n, way));
                        }
                    }
                },
            }
        }
    }
}

/// A walk gives the first answer it gets: where a visitor has nothing to say
/// anywhere the walk has none, where it cannot but answer at some visit the
/// walk has one, from that visit or an earlier one at which the visitor can
/// give it.
pub proof fn law_a_walk_gives_the_first_answer<N, T, F: Fn(&N, Phase) -> Option<T>>(
    f: F,
    vs: Seq<(N, Phase)>,
    out: Option<T>,
    k: int,
)
    requires
        first_answer(f, vs, out),
    ensures
        (forall|j: int, o: Option<T>|
            0 <= j < vs.len() && #[trigger] answers(f, vs[j], o) ==> o is None) ==> out is None,
        0 <= k < vs.len() && !answers(f, vs[k], None::<T>) ==> out is Some && exists|j: int|
            0 <= j <= k && #[trigger] answers(f, vs[j], out) && forall|i: int|
                0 <= i < j ==> #[trigger] answers(f, vs[i], None::<T>),
{
    if 0 <= k < vs.len() && !answers(f, vs[k], None::<T>) {
        assert(out is Some);
        let j = choose|j: int|
            0 <= j < vs.len() && #[trigger] answers(f, vs[j], out) && silent_until(f, vs, j);
        if k < j {
            assert(answers(f, vs[k], None::<T>));
        }
    }
}

} // verus!
