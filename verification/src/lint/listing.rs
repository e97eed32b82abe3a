//! What the built-in rules report, in what order and in what words.
use vstd::prelude::*;

use crate::ids::{tagged, NodeId};
use crate::lint::laws::repeats;
use crate::lint::{
    dead_names, declared_slots, depth_flag, empty_flag, found_decl, gathered, joined,
    may_find_labels, needed_slots, repeat_flag, seen_before, uses, variant_names, width_flag,
    wrap_flag, Applicability, DeadVariants, MaxDepth, MaxFanOut, NoEmptyChildSlots, NoRedundantWrap,
    Rule, Severity, SpecFix, SpecLint, SpecLintDecl, SpecPatchPart, TypoHint, UniqueNodeIds,
};
use crate::places::{
    countable, law_places_are_in_walking_order, law_the_list_of_nodes_is_the_tree, node_at, place,
};
use crate::schema::{DslSchema, SpecChildSchema, SpecVariantSchema};
use crate::text::{ascending, decimal, join_spec, lemma_insert_name};
use crate::walk::{levels, Walk};

verus! {

/// A report without a fix.
pub open spec fn reported(
    rule: Seq<char>,
    severity: Severity,
    node: NodeId,
    message: Seq<char>,
) -> SpecLint {
    SpecLint { rule, severity, node, message, suggestion: None }
}

/// Whether ways are all those with some property, in walking order.
pub open spec fn walks_all<A: Walk>(
    ast: A,
    ways: Seq<Seq<int>>,
    p: spec_fn(A, Seq<int>) -> bool,
) -> bool {
    &&& forall|a: int, b: int|
        0 <= a < b < ways.len() ==> place(ast, #[trigger] ways[a]) < place(ast, #[trigger] ways[b])
    &&& forall|k: int|
        0 <= k < ways.len() ==> (node_at(ast, #[trigger] ways[k]) matches Some(m) && p(m, ways[k]))
    &&& forall|way: Seq<int>|
        (#[trigger] node_at(ast, way) matches Some(m) ==> p(m, way) ==> ways.contains(way))
}

/// Whether findings are one for each way with some property, in walking
/// order, each in the words for what stands there.
pub open spec fn lists_all<A: Walk>(
    ast: A,
    found: Seq<SpecLint>,
    p: spec_fn(A, Seq<int>) -> bool,
    said: spec_fn(A, Seq<int>) -> SpecLint,
) -> bool {
    exists|ways: Seq<Seq<int>>| #[trigger]
        walks_all(ast, ways, p) && ways.len() == found.len() && forall|k: int|
            0 <= k < found.len() ==> #[trigger] found[k] == said(node_at(ast, ways[k])->0, ways[k])
}

/// The way to a position of the list.
pub open spec fn way_to<A: Walk>(ast: A, i: int) -> Seq<int> {
    choose|w: Seq<int>|
        #![trigger node_at(ast, w)]
        node_at(ast, w) == Some(levels(ast, 0)[i].0) && levels(ast, 0)[i].1 == w.len() && place(
            ast,
            w,
        ) == i
}

proof fn lemma_way_to<A: Walk>(ast: A, i: int)
    requires
        countable(ast),
        0 <= i < levels(ast, 0).len(),
    ensures
        node_at(ast, way_to(ast, i)) == Some(levels(ast, 0)[i].0),
        levels(ast, 0)[i].1 == way_to(ast, i).len(),
        place(ast, way_to(ast, i)) == i,
{
    law_the_list_of_nodes_is_the_tree(ast, Seq::empty(), i);
}

/// Whether a flag is up exactly where a way has some property, in the words
/// for what stands there.
pub open spec fn flags_all<A: Walk>(
    ast: A,
    flag: spec_fn(int) -> Option<SpecLint>,
    p: spec_fn(A, Seq<int>) -> bool,
    said: spec_fn(A, Seq<int>) -> SpecLint,
) -> bool {
    forall|i: int|
        0 <= i < levels(ast, 0).len() ==> #[trigger] flag(i) == (if p(
            levels(ast, 0)[i].0,
            way_to(ast, i),
        ) {
            Some(said(levels(ast, 0)[i].0, way_to(ast, i)))
        } else {
            None
        })
}

proof fn lemma_gathered_ways<A: Walk>(
    ast: A,
    n: nat,
    flag: spec_fn(int) -> Option<SpecLint>,
    p: spec_fn(A, Seq<int>) -> bool,
    said: spec_fn(A, Seq<int>) -> SpecLint,
) -> (ways: Seq<Seq<int>>)
    requires
        countable(ast),
        n <= levels(ast, 0).len(),
        flags_all(ast, flag, p, said),
    ensures
        ways.len() == gathered(n, flag).len(),
        forall|a: int, b: int|
            0 <= a < b < ways.len() ==> place(ast, #[trigger] ways[a]) < place(
                ast,
                #[trigger] ways[b],
            ),
        forall|k: int|
            0 <= k < ways.len() ==> (node_at(ast, #[trigger] ways[k]) matches Some(m) && p(
                m,
                ways[k],
            ) && place(ast, ways[k]) < n && gathered(n, flag)[k] == said(m, ways[k])),
        forall|i: int|
            0 <= i < n && p(levels(ast, 0)[i].0, #[trigger] way_to(ast, i)) ==> ways.contains(
                way_to(ast, i),
            ),
    decreases n,
{
    if n == 0 {
        Seq::empty()
    } else {
        let ls = levels(ast, 0);
        let m = (n - 1) as nat;
        let before = lemma_gathered_ways(ast, m, flag, p, said);
        let w = way_to(ast, m as int);
        lemma_way_to(ast, m as int);
        assert(flag(m as int) == (if p(ls[m as int].0, w) {
            Some(said(ls[m as int].0, w))
        } else {
            None
        }));
        if p(ls[m as int].0, w) {
            let ways = before.push(w);
            assert forall|i: int|
                0 <= i < n && p(ls[i].0, #[trigger] way_to(ast, i)) implies ways.contains(
                way_to(ast, i),
            ) by {
                if i < m {
                    let k = choose|k: int| 0 <= k < before.len() && before[k] == way_to(ast, i);
                    assert(ways[k] == way_to(ast, i));
                } else {
                    assert(ways[before.len() as int] == way_to(ast, i));
                }
            }
            ways
        } else {
            before
        }
    }
}

proof fn lemma_lists_all<A: Walk>(
    ast: A,
    flag: spec_fn(int) -> Option<SpecLint>,
    p: spec_fn(A, Seq<int>) -> bool,
    said: spec_fn(A, Seq<int>) -> SpecLint,
)
    requires
        countable(ast),
        flags_all(ast, flag, p, said),
    ensures
        lists_all(ast, gathered(levels(ast, 0).len(), flag), p, said),
{
    let ls = levels(ast, 0);
    let ways = lemma_gathered_ways(ast, ls.len(), flag, p, said);
    assert(walks_all(ast, ways, p)) by {
        assert forall|way: Seq<int>|
            (#[trigger] node_at(ast, way) matches Some(m) ==> p(m, way) ==> ways.contains(
                way,
            )) by {
            if node_at(ast, way) is Some {
                law_the_list_of_nodes_is_the_tree(ast, way, 0);
                let i = place(ast, way);
                lemma_way_to(ast, i);
                law_places_are_in_walking_order(ast, way, way_to(ast, i));
                assert(way_to(ast, i) == way);
            }
        }
    }
}

/// The fan-out rule reports every node with more direct children than its
/// limit, at whatever depth, in walking order, with the number and the limit.
pub proof fn law_fan_outs_are_reported<A: Walk>(rule: MaxFanOut, ast: A, found: Seq<SpecLint>)
    requires
        countable(ast),
        rule.may_find(ast, found),
    ensures
        lists_all(
            ast,
            found,
            |m: A, way: Seq<int>| m.children_spec().len() > rule.limit,
            |m: A, way: Seq<int>|
                reported(
                    "max-fan-out"@,
                    Severity::Warn,
                    m.id_spec(),
                    "node has "@ + decimal(m.children_spec().len())
                        + " direct children, above limit "@ + decimal(rule.limit as nat),
                ),
        ),
{
    let ls = levels(ast, 0);
    let p = |m: A, way: Seq<int>| m.children_spec().len() > rule.limit;
    let said = |m: A, way: Seq<int>|
        reported(
            "max-fan-out"@,
            Severity::Warn,
            m.id_spec(),
            "node has "@ + decimal(m.children_spec().len()) + " direct children, above limit "@
                + decimal(rule.limit as nat),
        );
    lemma_lists_all(ast, width_flag(ls, rule.limit), p, said);
}

/// The depth rule reports every node that more steps lead to than its limit,
/// in walking order, with the number of steps and the limit.
pub proof fn law_depths_are_reported<A: Walk>(rule: MaxDepth, ast: A, found: Seq<SpecLint>)
    requires
        countable(ast),
        rule.may_find(ast, found),
    ensures
        lists_all(
            ast,
            found,
            |m: A, way: Seq<int>| way.len() > rule.limit,
            |m: A, way: Seq<int>|
                reported(
                    "max-depth"@,
                    Severity::Error,
                    m.id_spec(),
                    "node depth "@ + decimal(way.len()) + " exceeds limit "@ + decimal(
                        rule.limit as nat,
                    ),
                ),
        ),
{
    let ls = levels(ast, 0);
    let p = |m: A, way: Seq<int>| way.len() > rule.limit;
    let said = |m: A, way: Seq<int>|
        reported(
            "max-depth"@,
            Severity::Error,
            m.id_spec(),
            "node depth "@ + decimal(way.len()) + " exceeds limit "@ + decimal(rule.limit as nat),
        );
    let flag = depth_flag(ls, rule.limit);
    assert(flags_all(ast, flag, p, said)) by {
        assert forall|i: int| 0 <= i < ls.len() implies #[trigger] flag(i) == (if p(
            ls[i].0,
            way_to(ast, i),
        ) {
            Some(said(ls[i].0, way_to(ast, i)))
        } else {
            None
        }) by {
            lemma_way_to(ast, i);
        }
    }
    lemma_lists_all(ast, flag, p, said);
}

/// The wrap rule reports every node whose one child is of its own variant, in
/// walking order.
pub proof fn law_wraps_are_reported<A: Walk>(rule: NoRedundantWrap, ast: A, found: Seq<SpecLint>)
    requires
        countable(ast),
        rule.may_find(ast, found),
    ensures
        lists_all(
            ast,
            found,
            |m: A, way: Seq<int>|
                m.children_spec().len() == 1 && m.children_spec()[0].variant_spec()
                    == m.variant_spec(),
            |m: A, way: Seq<int>|
                reported(
                    "no-redundant-wrap"@,
                    Severity::Warn,
                    m.id_spec(),
                    m.variant_spec() + " wraps a single "@ + m.variant_spec()
                        + "; the outer wrap can be inlined"@,
                ),
        ),
{
    let ls = levels(ast, 0);
    let p = |m: A, way: Seq<int>|
        m.children_spec().len() == 1 && m.children_spec()[0].variant_spec() == m.variant_spec();
    let said = |m: A, way: Seq<int>|
        reported(
            "no-redundant-wrap"@,
            Severity::Warn,
            m.id_spec(),
            m.variant_spec() + " wraps a single "@ + m.variant_spec()
                + "; the outer wrap can be inlined"@,
        );
    lemma_lists_all(ast, wrap_flag(ls), p, said);
}

/// The identity rule reports every place whose identity stands at an earlier
/// place too, in walking order.
pub proof fn law_repetitions_are_reported<A: Walk>(
    rule: UniqueNodeIds,
    ast: A,
    found: Seq<SpecLint>,
)
    requires
        countable(ast),
        rule.may_find(ast, found),
    ensures
        lists_all(
            ast,
            found,
            |m: A, way: Seq<int>| repeats(ast, way),
            |m: A, way: Seq<int>|
                reported(
                    "unique-node-ids"@,
                    Severity::Error,
                    m.id_spec(),
                    "node id n"@ + decimal(m.id_spec().0 as nat) + " appears more than once"@,
                ),
        ),
{
    let ls = levels(ast, 0);
    let p = |m: A, way: Seq<int>| repeats(ast, way);
    let said = |m: A, way: Seq<int>|
        reported(
            "unique-node-ids"@,
            Severity::Error,
            m.id_spec(),
            "node id n"@ + decimal(m.id_spec().0 as nat) + " appears more than once"@,
        );
    let flag = repeat_flag(ls);
    assert(flags_all(ast, flag, p, said)) by {
        assert forall|i: int| 0 <= i < ls.len() implies #[trigger] flag(i) == (if p(
            ls[i].0,
            way_to(ast, i),
        ) {
            Some(said(ls[i].0, way_to(ast, i)))
        } else {
            None
        }) by {
            let way = way_to(ast, i);
            lemma_way_to(ast, i);
            if seen_before(ls, i) {
                let j = choose|j: int|
                    0 <= j < i && (#[trigger] ls[j]).0.id_spec() == ls[i].0.id_spec();
                lemma_way_to(ast, j);
                assert(node_at(ast, way_to(ast, j)) is Some);
                assert(repeats(ast, way));
            }
            if repeats(ast, way) {
                let o = choose|o: Seq<int>|
                    #![trigger node_at(ast, o)]
                    (node_at(ast, o) matches Some(m) && m.id_spec() == node_at(
                        ast,
                        way,
                    )->0.id_spec()) && place(ast, o) < place(ast, way);
                law_the_list_of_nodes_is_the_tree(ast, o, 0);
                assert(ls[place(ast, o)].0.id_spec() == ls[i].0.id_spec());
            }
            reveal_strlit("node id n");
            reveal_strlit("node id ");
            reveal_strlit("n");
            let d = decimal(ls[i].0.id_spec().0 as nat);
            assert("node id n"@ =~= "node id "@ + "n"@);
            assert("node id "@ + tagged("n"@, ls[i].0.id_spec().0) =~= "node id n"@ + d);
        }
    }
    lemma_lists_all(ast, flag, p, said);
}

/// The quoted names of the slots that must not be empty, in order.
pub open spec fn slot_names(cs: Seq<SpecChildSchema>) -> Seq<Seq<char>> {
    cs.filter(|c: SpecChildSchema| c.non_empty).map_values(
        |c: SpecChildSchema| "`"@ + c.name + "`"@,
    )
}

/// Whether a variant schema is the last of its name with a slot that must not
/// be empty.
pub open spec fn last_with_slots(vs: Seq<SpecVariantSchema>, name: Seq<char>, i: int) -> bool {
    &&& 0 <= i < vs.len() && vs[i].name == name && slot_names(vs[i].children).len() > 0
    &&& forall|j: int|
        i < j < vs.len() && (#[trigger] vs[j]).name == name ==> slot_names(vs[j].children).len()
            == 0
}

proof fn lemma_slot_names(cs: Seq<SpecChildSchema>, n: nat)
    requires
        n <= cs.len(),
    ensures
        needed_slots(cs, n) == slot_names(cs.take(n as int)),
    decreases n,
{
    reveal(Seq::filter);
    let needed = |c: SpecChildSchema| c.non_empty;
    let name = |c: SpecChildSchema| "`"@ + c.name + "`"@;
    if n > 0 {
        lemma_slot_names(cs, (n - 1) as nat);
        let front = cs.take(n - 1);
        let all = cs.take(n as int);
        assert(all.drop_last() =~= front);
        assert(all.last() == cs[n - 1]);
        let kept = front.filter(needed);
        if cs[n - 1].non_empty {
            assert(all.filter(needed) == kept.push(cs[n - 1]));
            assert(kept.push(cs[n - 1]).map_values(name) =~= kept.map_values(name).push(
                name(cs[n - 1]),
            ));
        }
        assert(needed_slots(cs, n) =~= slot_names(all));
    } else {
        assert(needed_slots(cs, n) =~= slot_names(cs.take(0)));
    }
}

proof fn lemma_declared_slots(vs: Seq<SpecVariantSchema>, name: Seq<char>, n: nat)
    requires
        n <= vs.len(),
        forall|j: int|
            n <= j < vs.len() && (#[trigger] vs[j]).name == name ==> slot_names(
                vs[j].children,
            ).len() == 0,
    ensures
        match declared_slots(vs, name, n) {
            Some(slots) => exists|i: int|
                #![trigger vs[i]]
                last_with_slots(vs, name, i) && slots == slot_names(vs[i].children),
            None => forall|i: int| !last_with_slots(vs, name, i),
        },
    decreases n,
{
    if n > 0 {
        let v = vs[n - 1];
        lemma_slot_names(v.children, v.children.len());
        assert(v.children.take(v.children.len() as int) =~= v.children);
        if v.name == name && slot_names(v.children).len() > 0 {
            assert(last_with_slots(vs, name, n - 1));
        } else {
            assert(!last_with_slots(vs, name, n - 1));
            lemma_declared_slots(vs, name, (n - 1) as nat);
        }
    }
}

/// The variant schema that a name's slots are taken from.
pub open spec fn slot_owner(vs: Seq<SpecVariantSchema>, name: Seq<char>) -> int {
    choose|i: int| last_with_slots(vs, name, i)
}

/// The slot rule reports every node without children whose variant has slots
/// that must not be empty, in walking order, and names those slots in order.
pub proof fn law_missing_children_are_reported<A: Walk + DslSchema>(
    rule: NoEmptyChildSlots,
    ast: A,
    found: Seq<SpecLint>,
)
    requires
        countable(ast),
        rule.may_find(ast, found),
    ensures
        lists_all(
            ast,
            found,
            |m: A, way: Seq<int>|
                m.children_spec().len() == 0 && exists|i: int|
                    last_with_slots(A::schema_spec().variants, m.variant_spec(), i),
            |m: A, way: Seq<int>|
                reported(
                    "no-empty-child-slots"@,
                    Severity::Error,
                    m.id_spec(),
                    m.variant_spec() + " declares non-empty slot(s) "@ + join_spec(
                        slot_names(
                            A::schema_spec().variants[slot_owner(
                                A::schema_spec().variants,
                                m.variant_spec(),
                            )].children,
                        ),
                        ", "@,
                    ) + " but was built with no children"@,
                ),
        ),
{
    let ls = levels(ast, 0);
    let vs = A::schema_spec().variants;
    let p = |m: A, way: Seq<int>|
        m.children_spec().len() == 0 && exists|i: int| last_with_slots(vs, m.variant_spec(), i);
    let said = |m: A, way: Seq<int>|
        reported(
            "no-empty-child-slots"@,
            Severity::Error,
            m.id_spec(),
            m.variant_spec() + " declares non-empty slot(s) "@ + join_spec(
                slot_names(vs[slot_owner(vs, m.variant_spec())].children),
                ", "@,
            ) + " but was built with no children"@,
        );
    let flag = empty_flag(ls, vs);
    assert(flags_all(ast, flag, p, said)) by {
        assert forall|i: int| 0 <= i < ls.len() implies #[trigger] flag(i) == (if p(
            ls[i].0,
            way_to(ast, i),
        ) {
            Some(said(ls[i].0, way_to(ast, i)))
        } else {
            None
        }) by {
            let name = ls[i].0.variant_spec();
            lemma_declared_slots(vs, name, vs.len());
            if declared_slots(vs, name, vs.len()) is Some {
                let k = choose|k: int|
                    #![trigger vs[k]]
                    last_with_slots(vs, name, k) && declared_slots(vs, name, vs.len())->Some_0
                        == slot_names(vs[k].children);
                let o = slot_owner(vs, name);
                assert(last_with_slots(vs, name, o));
                assert(o == k) by {
                    if o < k {
                        assert(vs[k].name == name);
                    }
                    if k < o {
                        assert(vs[o].name == name);
                    }
                }
            }
        }
    }
    lemma_lists_all(ast, flag, p, said);
}

/// Whether names are those of a schema that no node of a tree has, each once
/// and in order of their text.
pub open spec fn absent_names<A: Walk>(
    ast: A,
    vs: Seq<SpecVariantSchema>,
    names: Seq<Seq<char>>,
) -> bool {
    &&& ascending(names)
    &&& forall|x: Seq<char>| #[trigger]
        names.contains(x) <==> (exists|i: int| 0 <= i < vs.len() && (#[trigger] vs[i]).name == x)
            && (forall|way: Seq<int>|
            (#[trigger] node_at(ast, way) matches Some(m) ==> m.variant_spec() != x))
}

proof fn lemma_dead<A: Walk>(ls: Seq<(A, usize)>, vs: Seq<SpecVariantSchema>, n: nat)
    requires
        n <= vs.len(),
    ensures
        ascending(dead_names(ls, vs, n)),
        forall|x: Seq<char>| #[trigger]
            dead_names(ls, vs, n).contains(x) <==> (exists|i: int|
                0 <= i < n && (#[trigger] vs[i]).name == x) && !uses(ls, x),
    decreases n,
{
    if n > 0 {
        lemma_dead(ls, vs, (n - 1) as nat);
        let before = dead_names(ls, vs, (n - 1) as nat);
        lemma_insert_name(before, vs[n - 1].name);
        assert forall|x: Seq<char>| #[trigger] dead_names(ls, vs, n).contains(x) <==> (exists|
            i: int,
        |
            0 <= i < n && (#[trigger] vs[i]).name == x) && !uses(ls, x) by {
            assert(before.contains(x) <==> (exists|i: int|
                0 <= i < n - 1 && (#[trigger] vs[i]).name == x) && !uses(ls, x));
            if vs[n - 1].name == x {
                assert(0 <= n - 1 < n && vs[n - 1].name == x);
            }
        }
    }
}

/// The variant rule reports, at the root, every variant of the schema that no
/// node of the tree has, each once and in order of their text.
pub proof fn law_absent_variants_are_reported<A: Walk + DslSchema>(
    rule: DeadVariants,
    ast: A,
    found: Seq<SpecLint>,
)
    requires
        countable(ast),
        rule.may_find(ast, found),
    ensures
        exists|names: Seq<Seq<char>>| #[trigger]
            absent_names(ast, A::schema_spec().variants, names) && names.len() == found.len()
                && forall|k: int|
                0 <= k < found.len() ==> #[trigger] found[k] == reported(
                    "dead-variants"@,
                    Severity::Info,
                    ast.id_spec(),
                    "schema variant "@ + names[k] + " is not present in the AST"@,
                ),
{
    let ls = levels(ast, 0);
    let vs = A::schema_spec().variants;
    let names = dead_names(ls, vs, vs.len());
    lemma_dead(ls, vs, vs.len());
    assert(absent_names(ast, vs, names)) by {
        assert forall|x: Seq<char>| #[trigger] names.contains(x) <==> (exists|i: int|
            0 <= i < vs.len() && (#[trigger] vs[i]).name == x) && (forall|way: Seq<int>|
            (#[trigger] node_at(ast, way) matches Some(m) ==> m.variant_spec() != x)) by {
            assert(names.contains(x) <==> (exists|i: int|
                0 <= i < vs.len() && (#[trigger] vs[i]).name == x) && !uses(ls, x));
            if uses(ls, x) {
                let i = choose|i: int|
                    0 <= i < ls.len() && (#[trigger] ls[i]).0.variant_spec() == x;
                lemma_way_to(ast, i);
                assert(node_at(ast, way_to(ast, i)) is Some);
            } else {
                assert forall|way: Seq<int>|
                    (#[trigger] node_at(ast, way) matches Some(m) ==> m.variant_spec() != x) by {
                    if node_at(ast, way) is Some {
                        law_the_list_of_nodes_is_the_tree(ast, way, 0);
                        assert(ls[place(ast, way)].0 == node_at(ast, way)->0);
                    }
                }
            }
        }
    }
    assert forall|k: int| 0 <= k < found.len() implies #[trigger] found[k] == reported(
        "dead-variants"@,
        Severity::Info,
        ast.id_spec(),
        "schema variant "@ + names[k] + " is not present in the AST"@,
    ) by {}
}

/// Whether a finding is about a label that is no variant name: in the
/// suggester's words, and with the first of what it suggests as the fix.
pub open spec fn about_label<A: Walk + DslSchema>(
    rule: TypoHint<A>,
    names: Seq<Seq<char>>,
    at: (NodeId, Seq<char>),
    d: SpecLint,
) -> bool {
    &&& !names.contains(at.1)
    &&& d.rule == "typo-hint"@ && d.severity == Severity::Info && d.node == at.0
    &&& exists|hint: Seq<char>| #[trigger]
        rule.may_say(at.1, names, Some(hint)) && d.message == "`"@ + at.1
            + "` looks like a schema variant name; "@ + hint
    &&& exists|ss: Seq<crate::suggest::SpecSuggestion>| #[trigger]
        rule.may_suggest(at.1, names, ss) && match d.suggestion {
            None => ss.len() == 0,
            Some(fix) => ss.len() > 0 && fix == (SpecFix {
                message: "replace `"@ + at.1 + "` with `"@ + ss[0].candidate + "`"@,
                patch: seq![
                    SpecPatchPart { node: at.0, path: None, replacement: ss[0].candidate },
                ],
                applicability: Applicability::MaybeIncorrect,
            }),
        }
}

proof fn lemma_joined_typos<A: Walk + DslSchema>(
    rule: TypoHint<A>,
    names: Seq<Seq<char>>,
    labels: Seq<(NodeId, Seq<char>)>,
    parts: Seq<Seq<SpecLint>>,
)
    requires
        parts.len() <= labels.len(),
        forall|i: int|
            0 <= i < parts.len() ==> rule.may_find_label(
                names,
                labels[i].0,
                labels[i].1,
                #[trigger] parts[i],
            ),
    ensures
        joined(parts).len() <= parts.len(),
        forall|k: int|
            0 <= k < joined(parts).len() ==> exists|i: int|
                0 <= i < parts.len() && about_label(
                    rule,
                    names,
                    #[trigger] labels[i],
                    #[trigger] joined(parts)[k],
                ),
        forall|i: int|
            0 <= i < parts.len() && !names.contains((#[trigger] labels[i]).1) && (forall|
                ss: Seq<crate::suggest::SpecSuggestion>,
            | #[trigger]
                rule.may_suggest(labels[i].1, names, ss) ==> ss.len() > 0) ==> exists|k: int|
                0 <= k < joined(parts).len() && about_label(
                    rule,
                    names,
                    labels[i],
                    #[trigger] joined(parts)[k],
                ),
    decreases parts.len(),
{
    if parts.len() > 0 {
        let front = parts.drop_last();
        let n = front.len() as int;
        let part = parts[n];
        let at = labels[n];
        assert forall|i: int| 0 <= i < front.len() implies rule.may_find_label(
            names,
            labels[i].0,
            labels[i].1,
            #[trigger] front[i],
        ) by {
            assert(front[i] == parts[i]);
        }
        lemma_joined_typos(rule, names, labels, front);
        let before = joined(front);
        let all = joined(parts);
        assert(all == before + part);
        assert(rule.may_find_label(names, at.0, at.1, parts[n]));
        assert(part.len() <= 1);
        assert(part.len() == 1 ==> about_label(rule, names, at, part[0]));
        assert forall|k: int| 0 <= k < all.len() implies exists|i: int|
            0 <= i < parts.len() && about_label(
                rule,
                names,
                #[trigger] labels[i],
                #[trigger] all[k],
            ) by {
            if k < before.len() {
                assert(all[k] == before[k]);
                let i = choose|i: int|
                    0 <= i < front.len() && about_label(rule, names, #[trigger] labels[i], before[k]);
                assert(about_label(rule, names, labels[i], all[k]));
            } else {
                assert(all[k] == part[0]);
                assert(about_label(rule, names, labels[n], all[k]));
            }
        }
        assert forall|i: int|
            0 <= i < parts.len() && !names.contains((#[trigger] labels[i]).1) && (forall|
                ss: Seq<crate::suggest::SpecSuggestion>,
            | #[trigger]
                rule.may_suggest(labels[i].1, names, ss) ==> ss.len() > 0) implies exists|k: int|
            0 <= k < all.len() && about_label(rule, names, labels[i], #[trigger] all[k]) by {
            if i < n {
                let k = choose|k: int|
                    0 <= k < before.len() && about_label(
                        rule,
                        names,
                        labels[i],
                        #[trigger] before[k],
                    );
                assert(all[k] == before[k]);
            } else {
                assert(part.len() == 1);
                assert(all[before.len() as int] == part[0]);
            }
        }
    }
}

/// The typo rule reports no label that is a variant name and each label at
/// most once; and it reports every other label for which the suggester cannot
/// but suggest something.
pub proof fn law_mistyped_labels_are_reported<A: Walk + DslSchema>(
    rule: TypoHint<A>,
    ast: A,
    found: Seq<SpecLint>,
)
    requires
        rule.may_find(ast, found),
    ensures
        found.len() <= rule.labels_of(ast).len(),
        forall|k: int|
            0 <= k < found.len() ==> exists|i: int|
                0 <= i < rule.labels_of(ast).len() && about_label(
                    rule,
                    variant_names(A::schema_spec().variants),
                    #[trigger] rule.labels_of(ast)[i],
                    #[trigger] found[k],
                ),
        forall|i: int|
            0 <= i < rule.labels_of(ast).len() && !variant_names(
                A::schema_spec().variants,
            ).contains((#[trigger] rule.labels_of(ast)[i]).1) && (forall|
                ss: Seq<crate::suggest::SpecSuggestion>,
            | #[trigger]
                rule.may_suggest(
                    rule.labels_of(ast)[i].1,
                    variant_names(A::schema_spec().variants),
                    ss,
                ) ==> ss.len() > 0) ==> exists|k: int|
                0 <= k < found.len() && about_label(
                    rule,
                    variant_names(A::schema_spec().variants),
                    rule.labels_of(ast)[i],
                    #[trigger] found[k],
                ),
{
    let parts = choose|parts: Seq<Seq<SpecLint>>| #[trigger]
        may_find_labels(rule, ast, parts) && found == joined(parts);
    lemma_joined_typos(
        rule,
        variant_names(A::schema_spec().variants),
        rule.labels_of(ast),
        parts,
    );
}

/// A declaration is found by its name or its code: the first that has either,
/// and none only where none has.
pub proof fn law_declarations_are_found_by_name_or_code(
    ds: Seq<SpecLintDecl>,
    text: Seq<char>,
    from: int,
)
    requires
        0 <= from <= ds.len(),
    ensures
        match found_decl(ds, text, from) {
            Some(d) => exists|k: int|
                from <= k < ds.len() && #[trigger] ds[k] == d && (d.name == text || d.code == text)
                    && forall|j: int|
                    from <= j < k ==> (#[trigger] ds[j]).name != text && ds[j].code != text,
            None => forall|j: int|
                from <= j < ds.len() ==> (#[trigger] ds[j]).name != text && ds[j].code != text,
        },
    decreases ds.len() - from,
{
    if from < ds.len() {
        if ds[from].name == text || ds[from].code == text {
            assert(ds[from] == found_decl(ds, text, from)->Some_0);
        } else {
            law_declarations_are_found_by_name_or_code(ds, text, from + 1);
            if found_decl(ds, text, from) is Some {
                let d = found_decl(ds, text, from)->Some_0;
                let k = choose|k: int|
                    from + 1 <= k < ds.len() && #[trigger] ds[k] == d && (d.name == text || d.code
                        == text) && forall|j: int|
                        from + 1 <= j < k ==> (#[trigger] ds[j]).name != text && ds[j].code
                            != text;
                assert(ds[k] == d);
            }
        }
    }
}

} // verus!
