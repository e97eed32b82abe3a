//! What the built-in rules are silent on, and what they name.
use vstd::prelude::*;

use crate::ids::NodeId;
use crate::lint::{
    declared_slots, depth_flag, empty_flag, empty_slots, gathered, needed_slots, redundant_wraps,
    repeat_flag, repeated_ids, seen_before, too_deep, too_wide, width_flag, wrap_flag, SpecLint,
};
use crate::places::{
    count_in, countable, law_the_list_of_nodes_is_the_tree, lemma_count_is_tally, node_at, place,
    tally,
};
use crate::schema::{DslSchema, SpecChildSchema, SpecVariantSchema};
use crate::walk::{levels, Walk};

verus! {

/// Whether a finding is about a node.
pub open spec fn names_node(d: SpecLint, id: NodeId) -> bool {
    d.node == id
}

/// Whether some finding is about a node.
pub open spec fn named(found: Seq<SpecLint>, id: NodeId) -> bool {
    exists|i: int| 0 <= i < found.len() && names_node(#[trigger] found[i], id)
}

/// Whether findings name each node of a tree that meets a condition, as often
/// as it stands there, and no other node.
pub open spec fn names_exactly<A: Walk>(
    ast: A,
    found: Seq<SpecLint>,
    p: spec_fn(A, nat) -> bool,
) -> bool {
    &&& found.len() == tally(ast, 0, p)
    &&& found.len() == 0 <==> forall|way: Seq<int>|
        (#[trigger] node_at(ast, way) matches Some(m) ==> !p(m, way.len()))
    &&& forall|way: Seq<int>|
        (#[trigger] node_at(ast, way) matches Some(m) ==> p(m, way.len()) ==> named(
            found,
            m.id_spec(),
        ))
    &&& forall|i: int|
        0 <= i < found.len() ==> exists|way: Seq<int>|
            #![trigger node_at(ast, way)]
            node_at(ast, way) matches Some(m) && p(m, way.len()) && names_node(
                #[trigger] found[i],
                m.id_spec(),
            )
}

proof fn lemma_gathered<A: Walk>(
    ls: Seq<(A, usize)>,
    n: nat,
    flag: spec_fn(int) -> Option<SpecLint>,
    p: spec_fn(A, nat) -> bool,
)
    requires
        n <= ls.len(),
        forall|i: int|
            0 <= i < n ==> match #[trigger] flag(i) {
                Some(d) => p(ls[i].0, ls[i].1 as nat) && d.node == ls[i].0.id_spec(),
                None => !p(ls[i].0, ls[i].1 as nat),
            },
    ensures
        gathered(n, flag).len() == count_in(ls, n, p),
        forall|i: int|
            0 <= i < n && p((#[trigger] ls[i]).0, ls[i].1 as nat) ==> named(
                gathered(n, flag),
                ls[i].0.id_spec(),
            ),
        forall|k: int|
            0 <= k < gathered(n, flag).len() ==> exists|i: int|
                0 <= i < n && p((#[trigger] ls[i]).0, ls[i].1 as nat) && names_node(
                    #[trigger] gathered(n, flag)[k],
                    ls[i].0.id_spec(),
                ),
    decreases n,
{
    if n > 0 {
        let m = (n - 1) as nat;
        lemma_gathered(ls, m, flag, p);
        let before = gathered(m, flag);
        let all = gathered(n, flag);
        assert(flag(n - 1) is Some <==> p(ls[n - 1].0, ls[n - 1].1 as nat));
        assert forall|i: int|
            0 <= i < n && p((#[trigger] ls[i]).0, ls[i].1 as nat) implies named(
            all,
            ls[i].0.id_spec(),
        ) by {
            if i < m {
                let k = choose|k: int|
                    0 <= k < before.len() && names_node(#[trigger] before[k], ls[i].0.id_spec());
                assert(names_node(all[k], ls[i].0.id_spec()));
            } else {
                assert(names_node(all[all.len() - 1], ls[i].0.id_spec()));
            }
        }
        assert forall|k: int| 0 <= k < all.len() implies exists|i: int|
            0 <= i < n && p((#[trigger] ls[i]).0, ls[i].1 as nat) && names_node(
                #[trigger] all[k],
                ls[i].0.id_spec(),
            ) by {
            if k < before.len() {
                assert(all[k] == before[k]);
                let i = choose|i: int|
                    0 <= i < m && p((#[trigger] ls[i]).0, ls[i].1 as nat) && names_node(
                        before[k],
                        ls[i].0.id_spec(),
                    );
                assert(p(ls[i].0, ls[i].1 as nat) && names_node(all[k], ls[i].0.id_spec()));
            } else {
                assert(p(ls[n - 1].0, ls[n - 1].1 as nat) && names_node(
                    all[k],
                    ls[n - 1].0.id_spec(),
                ));
            }
        }
    }
}

proof fn lemma_names_exactly<A: Walk>(
    ast: A,
    flag: spec_fn(int) -> Option<SpecLint>,
    p: spec_fn(A, nat) -> bool,
)
    requires
        countable(ast),
        forall|i: int|
            0 <= i < levels(ast, 0).len() ==> match #[trigger] flag(i) {
                Some(d) => p(levels(ast, 0)[i].0, levels(ast, 0)[i].1 as nat) && d.node == levels(
                    ast,
                    0,
                )[i].0.id_spec(),
                None => !p(levels(ast, 0)[i].0, levels(ast, 0)[i].1 as nat),
            },
    ensures
        names_exactly(ast, gathered(levels(ast, 0).len(), flag), p),
{
    let ls = levels(ast, 0);
    let found = gathered(ls.len(), flag);
    lemma_gathered(ls, ls.len(), flag, p);
    lemma_count_is_tally(ast, p);
    assert forall|way: Seq<int>|
        (#[trigger] node_at(ast, way) matches Some(m) ==> p(m, way.len()) ==> named(
            found,
            m.id_spec(),
        )) by {
        if node_at(ast, way) is Some {
            law_the_list_of_nodes_is_the_tree(ast, way, 0);
            let i = place(ast, way);
            assert(ls[i].0 == node_at(ast, way)->0);
        }
    }
    assert forall|k: int| 0 <= k < found.len() implies exists|way: Seq<int>|
        #![trigger node_at(ast, way)]
        node_at(ast, way) matches Some(m) && p(m, way.len()) && names_node(
            #[trigger] found[k],
            m.id_spec(),
        ) by {
        let i = choose|i: int|
            0 <= i < ls.len() && p((#[trigger] ls[i]).0, ls[i].1 as nat) && names_node(
                found[k],
                ls[i].0.id_spec(),
            );
        law_the_list_of_nodes_is_the_tree(ast, Seq::empty(), i);
        let w = choose|w: Seq<int>|
            #![trigger node_at(ast, w)]
            node_at(ast, w) == Some(ls[i].0) && ls[i].1 == w.len() && place(ast, w) == i;
        assert(node_at(ast, w) is Some);
    }
    if found.len() > 0 {
        assert(names_node(found[0], found[0].node));
        let way = choose|way: Seq<int>|
            #![trigger node_at(ast, way)]
            node_at(ast, way) matches Some(m) && p(m, way.len()) && names_node(
                found[0],
                m.id_spec(),
            );
        assert(node_at(ast, way) matches Some(m) && p(m, way.len()));
    }
    if found.len() == 0 {
        assert forall|way: Seq<int>|
            (#[trigger] node_at(ast, way) matches Some(m) ==> !p(m, way.len())) by {
            if node_at(ast, way) matches Some(m) && p(m, way.len()) {
                assert(named(found, node_at(ast, way)->0.id_spec()));
            }
        }
    }
}

/// The fan-out rule names every node, at whatever depth, that has more direct
/// children than the limit, once, and no other; so it is silent exactly where
/// none has.
pub proof fn law_too_many_children_are_found_everywhere<A: Walk>(ast: A, limit: usize)
    requires
        countable(ast),
    ensures
        names_exactly(ast, too_wide(ast, limit), |m: A, d: nat| m.children_spec().len() > limit),
{
    let ls = levels(ast, 0);
    lemma_names_exactly(
        ast,
        width_flag(ls, limit),
        |m: A, d: nat| m.children_spec().len() > limit,
    );
}

/// The depth rule names every node that more steps lead to from the root than
/// the limit, once, and no other; so it is silent exactly where no way is
/// longer.
pub proof fn law_depth_is_the_length_of_the_way<A: Walk>(ast: A, limit: usize)
    requires
        countable(ast),
    ensures
        names_exactly(ast, too_deep(ast, limit), |m: A, d: nat| d > limit),
{
    let ls = levels(ast, 0);
    lemma_names_exactly(ast, depth_flag(ls, limit), |m: A, d: nat| d > limit);
}

/// The wrap rule names every node whose one child is of its own variant, once,
/// and no other.
pub proof fn law_wraps_of_their_like_are_found_everywhere<A: Walk>(ast: A)
    requires
        countable(ast),
    ensures
        names_exactly(
            ast,
            redundant_wraps(ast),
            |m: A, d: nat|
                m.children_spec().len() == 1 && m.children_spec()[0].variant_spec()
                    == m.variant_spec(),
        ),
{
    let ls = levels(ast, 0);
    lemma_names_exactly(
        ast,
        wrap_flag(ls),
        |m: A, d: nat|
            m.children_spec().len() == 1 && m.children_spec()[0].variant_spec()
                == m.variant_spec(),
    );
}

/// Whether a schema declares a slot of a variant that must not be empty.
pub open spec fn declares_non_empty(vs: Seq<SpecVariantSchema>, name: Seq<char>) -> bool {
    exists|i: int, j: int|
        0 <= i < vs.len() && (#[trigger] vs[i]).name == name && 0 <= j < vs[i].children.len() && (
        #[trigger] vs[i].children[j]).non_empty
}

proof fn lemma_needed(cs: Seq<SpecChildSchema>, n: nat)
    requires
        n <= cs.len(),
    ensures
        needed_slots(cs, n).len() > 0 <==> (exists|j: int|
            0 <= j < n && (#[trigger] cs[j]).non_empty),
    decreases n,
{
    if n > 0 {
        lemma_needed(cs, (n - 1) as nat);
        if cs[n - 1].non_empty {
            assert(0 <= n - 1 < n && cs[n - 1].non_empty);
        }
    }
}

proof fn lemma_declared(vs: Seq<SpecVariantSchema>, name: Seq<char>, n: nat)
    requires
        n <= vs.len(),
    ensures
        declared_slots(vs, name, n) is Some <==> (exists|i: int, j: int|
            0 <= i < n && (#[trigger] vs[i]).name == name && 0 <= j < vs[i].children.len() && (
            #[trigger] vs[i].children[j]).non_empty),
    decreases n,
{
    if n > 0 {
        let v = vs[n - 1];
        lemma_declared(vs, name, (n - 1) as nat);
        lemma_needed(v.children, v.children.len());
        if v.name == name && needed_slots(v.children, v.children.len()).len() > 0 {
            let j = choose|j: int| 0 <= j < v.children.len() && (#[trigger] v.children[j]).non_empty;
            assert(vs[n - 1].name == name && vs[n - 1].children[j].non_empty);
        }
    }
}

/// The slot rule names every node without children whose variant the schema
/// declares with a slot that must not be empty, once, and no other.
pub proof fn law_missing_children_are_found_everywhere<A: Walk + DslSchema>(ast: A)
    requires
        countable(ast),
    ensures
        names_exactly(
            ast,
            empty_slots(ast),
            |m: A, d: nat|
                m.children_spec().len() == 0 && declares_non_empty(
                    A::schema_spec().variants,
                    m.variant_spec(),
                ),
        ),
{
    let ls = levels(ast, 0);
    let vs = A::schema_spec().variants;
    let flag = empty_flag(ls, vs);
    let p = |m: A, d: nat|
        m.children_spec().len() == 0 && declares_non_empty(vs, m.variant_spec());
    assert forall|i: int| 0 <= i < ls.len() implies match #[trigger] flag(i) {
        Some(d) => p(ls[i].0, ls[i].1 as nat) && d.node == ls[i].0.id_spec(),
        None => !p(ls[i].0, ls[i].1 as nat),
    } by {
        lemma_declared(vs, ls[i].0.variant_spec(), vs.len());
    }
    lemma_names_exactly(ast, flag, p);
}

/// Whether an identity stands at an earlier place too.
pub open spec fn repeats<A: Walk>(ast: A, way: Seq<int>) -> bool {
    exists|o: Seq<int>|
        #![trigger node_at(ast, o)]
        (node_at(ast, o) matches Some(m) && m.id_spec() == node_at(ast, way)->0.id_spec()) && place(
            ast,
            o,
        ) < place(ast, way)
}

/// The identity rule names every identity that stands at two places, and no
/// other: it is silent exactly where different ways lead to different
/// identities.
pub proof fn law_repeated_identities_are_found_everywhere<A: Walk>(ast: A)
    requires
        countable(ast),
    ensures
        repeated_ids(ast).len() == 0 <==> forall|a: Seq<int>, b: Seq<int>|
            #![trigger node_at(ast, a), node_at(ast, b)]
            a != b && node_at(ast, a) is Some && node_at(ast, b) is Some ==> node_at(
                ast,
                a,
            )->0.id_spec() != node_at(ast, b)->0.id_spec(),
        forall|way: Seq<int>|
            #[trigger] node_at(ast, way) is Some && repeats(ast, way) ==> named(
                repeated_ids(ast),
                node_at(ast, way)->0.id_spec(),
            ),
{
    let ls = levels(ast, 0);
    let flag = repeat_flag(ls);
    let found = repeated_ids(ast);
    lemma_repeats(ls, ls.len());
    assert forall|way: Seq<int>|
        #[trigger] node_at(ast, way) is Some && repeats(ast, way) implies named(
        found,
        node_at(ast, way)->0.id_spec(),
    ) by {
        let o = choose|o: Seq<int>|
            #![trigger node_at(ast, o)]
            (node_at(ast, o) matches Some(m) && m.id_spec() == node_at(ast, way)->0.id_spec())
                && place(ast, o) < place(ast, way);
        law_the_list_of_nodes_is_the_tree(ast, way, 0);
        law_the_list_of_nodes_is_the_tree(ast, o, 0);
        let (i, j) = (place(ast, o), place(ast, way));
        assert(ls[i].0.id_spec() == ls[j].0.id_spec());
        assert(seen_before(ls, j));
        assert(named(found, ls[j].0.id_spec()));
    }
    if found.len() == 0 {
        assert forall|a: Seq<int>, b: Seq<int>|
            #![trigger node_at(ast, a), node_at(ast, b)]
            a != b && node_at(ast, a) is Some && node_at(ast, b) is Some implies node_at(
            ast,
            a,
        )->0.id_spec() != node_at(ast, b)->0.id_spec() by {
            crate::places::law_places_are_in_walking_order(ast, a, b);
            if node_at(ast, a)->0.id_spec() == node_at(ast, b)->0.id_spec() {
                if place(ast, a) < place(ast, b) {
                    assert(repeats(ast, b));
                } else {
                    assert(repeats(ast, a));
                }
            }
        }
    } else {
        let k = choose|k: int| 0 <= k < ls.len() && #[trigger] seen_before(ls, k);
        let j = choose|j: int| 0 <= j < k && (#[trigger] ls[j]).0.id_spec() == ls[k].0.id_spec();
        law_the_list_of_nodes_is_the_tree(ast, Seq::empty(), k);
        law_the_list_of_nodes_is_the_tree(ast, Seq::empty(), j);
        let a = choose|w: Seq<int>|
            #![trigger node_at(ast, w)]
            node_at(ast, w) == Some(ls[k].0) && ls[k].1 == w.len() && place(ast, w) == k;
        let b = choose|w: Seq<int>|
            #![trigger node_at(ast, w)]
            node_at(ast, w) == Some(ls[j].0) && ls[j].1 == w.len() && place(ast, w) == j;
        assert(a != b);
        assert(node_at(ast, a)->0.id_spec() == node_at(ast, b)->0.id_spec());
    }
}

proof fn lemma_repeats<A: Walk>(ls: Seq<(A, usize)>, n: nat)
    requires
        n <= ls.len(),
    ensures
        forall|k: int|
            0 <= k < n && #[trigger] seen_before(ls, k) ==> named(
                gathered(n, repeat_flag(ls)),
                ls[k].0.id_spec(),
            ),
        gathered(n, repeat_flag(ls)).len() > 0 ==> exists|k: int|
            0 <= k < n && #[trigger] seen_before(ls, k),
    decreases n,
{
    if n > 0 {
        let m = (n - 1) as nat;
        lemma_repeats(ls, m);
        let before = gathered(m, repeat_flag(ls));
        let all = gathered(n, repeat_flag(ls));
        let flag = repeat_flag(ls);
        assert(flag(n - 1) is Some <==> seen_before(ls, n - 1));
        assert forall|k: int| 0 <= k < n && #[trigger] seen_before(ls, k) implies named(
            all,
            ls[k].0.id_spec(),
        ) by {
            if k < m {
                let i = choose|i: int|
                    0 <= i < before.len() && names_node(#[trigger] before[i], ls[k].0.id_spec());
                assert(names_node(all[i], ls[k].0.id_spec()));
            } else {
                assert(names_node(all[all.len() - 1], ls[k].0.id_spec()));
            }
        }
    }
}

} // verus!
