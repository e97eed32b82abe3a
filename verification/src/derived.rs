//! Trees whose classification and semantics come from two halves.
use std::collections::HashMap;

use vstd::prelude::*;

use crate::engine::ast::{Ast, NodeKind, SpecKind};
use crate::ids::NodeId;
use crate::places::{countable, law_the_list_of_nodes_is_the_tree, node_at, place};
use crate::walk::{child_levels, deeper, levels, Walk};

verus! {

/// Whether a loop goes on.
#[derive(Debug, Clone, Copy, PartialEq, Eq, Structural)]
pub enum LoopDecision {
    /// Run the body again.
    Continue,
    /// Leave the loop.
    Break,
}

/// The mechanical half of a tree: which kind each node is.
pub trait DslExec: Walk {
    /// Payload of literal nodes.
    type LitValue;

    /// The classification of this node.
    spec fn exec_kind_spec(&self) -> SpecKind;

    /// The payload of this node, if it is a literal.
    spec fn exec_literal_spec(&self) -> Option<Self::LitValue>;

    /// Classifies this node.
    fn exec_kind(&self) -> (out: NodeKind)
        ensures
            out@ == self.exec_kind_spec(),
    ;

    /// The payload of a literal node.
    fn exec_literal(&self) -> (out: Option<Self::LitValue>)
        ensures
            out == self.exec_literal_spec(),
    ;
}

/// The semantic half of a tree: its values and what they mean.
pub trait DslSemantics {
    /// Runtime value type.
    type Value: Clone;

    /// State delta of one child of a fan-out.
    type Delta: Clone + Default;

    /// Failure the host reports.
    type EffectError: Clone;

    /// Cursor shown in the frame tree.
    type Cursor: Clone + Default;

    /// The value of an empty branch.
    spec fn unit_spec(&self) -> Self::Value;

    /// The default delta.
    spec fn blank_delta() -> Self::Delta;

    /// The default cursor.
    spec fn blank_cursor() -> Self::Cursor;

    /// A cloned value is the value.
    proof fn value_clone_is_equal(a: Self::Value, b: Self::Value)
        requires
            call_ensures(<Self::Value as Clone>::clone, (&a,), b),
        ensures
            a == b,
    ;

    /// A cloned failure is the failure.
    proof fn error_clone_is_equal(a: Self::EffectError, b: Self::EffectError)
        requires
            call_ensures(<Self::EffectError as Clone>::clone, (&a,), b),
        ensures
            a == b,
    ;

    /// A default delta is the blank one.
    proof fn default_delta_is_blank(d: Self::Delta)
        requires
            call_ensures(<Self::Delta as Default>::default, (), d),
        ensures
            d == Self::blank_delta(),
    ;

    /// A default cursor is the blank one.
    proof fn default_cursor_is_blank(c: Self::Cursor)
        requires
            call_ensures(<Self::Cursor as Default>::default, (), c),
        ensures
            c == Self::blank_cursor(),
    ;

    /// Value of an empty branch.
    fn unit_value(&self) -> (out: Self::Value)
        ensures
            out == self.unit_spec(),
    ;

    /// Whether a value counts as true, if it is a truth value at all. By
    /// default no value is.
    fn truthy(&self, _value: &Self::Value) -> (out: Option<bool>)
        default_ensures
            out is None,
    {
        None
    }

    /// Whether a loop goes on. By default it does not.
    fn continue_loop(&self, _node: NodeId, _last: &Self::Value, _iteration: usize) -> (out:
        LoopDecision)
        default_ensures
            out == LoopDecision::Break,
    {
        LoopDecision::Break
    }

    /// The delta that binds a name to a value. By default none does.
    fn bind_delta(&self, _name: &str, _value: &Self::Value) -> (out: Option<Self::Delta>)
        default_ensures
            out is None,
    {
        None
    }

    /// The value bound to a name in a delta. By default none is.
    fn lookup(&self, _delta: &Self::Delta, _name: &str) -> (out: Option<Self::Value>)
        default_ensures
            out is None,
    {
        None
    }
}

/// The nodes of a tree by identity: a later node of one identity replaces an
/// earlier one, parents come before their children.
pub open spec fn index_tree<N: Walk>(n: N, map: Map<u64, N>) -> Map<u64, N>
    decreases n.height(), n.children_spec().len() + 1,
{
    index_children(n, n.children_spec().len(), map.insert(n.id_spec().0, n))
}

/// The nodes below the first `k` children, by identity.
pub open spec fn index_children<N: Walk>(n: N, k: nat, map: Map<u64, N>) -> Map<u64, N>
    decreases n.height(), k,
    via index_children_decreases::<N>
{
    if k == 0 || k > n.children_spec().len() {
        map
    } else {
        index_tree(n.children_spec()[k - 1], index_children(n, (k - 1) as nat, map))
    }
}

#[via_fn]
proof fn index_children_decreases<N: Walk>(n: N, k: nat, map: Map<u64, N>) {
    if 0 < k <= n.children_spec().len() {
        n.children_are_lower(k - 1);
    }
}

/// A map with the nodes of a list put in, in order.
spec fn put_all<N: Walk>(ls: Seq<(N, usize)>, map: Map<u64, N>) -> Map<u64, N>
    decreases ls.len(),
{
    if ls.len() == 0 {
        map
    } else {
        put_all(ls.drop_last(), map).insert(ls.last().0.id_spec().0, ls.last().0)
    }
}

proof fn lemma_put_sum<N: Walk>(a: Seq<(N, usize)>, b: Seq<(N, usize)>, map: Map<u64, N>)
    ensures
        put_all(a + b, map) == put_all(b, put_all(a, map)),
    decreases b.len(),
{
    if b.len() == 0 {
        assert(a + b =~= a);
    } else {
        assert((a + b).drop_last() =~= a + b.drop_last());
        assert((a + b).last() == b.last());
        lemma_put_sum(a, b.drop_last(), map);
    }
}

proof fn lemma_index_is_put<N: Walk>(n: N, d: usize, map: Map<u64, N>)
    ensures
        index_tree(n, map) == put_all(levels(n, d), map),
    decreases n.height(), n.children_spec().len() + 1,
{
    let first = seq![(n, d)];
    assert(first.drop_last() =~= Seq::empty());
    reveal_with_fuel(put_all, 2);
    assert(put_all(first, map) == map.insert(n.id_spec().0, n));
    lemma_index_children_is_put(n, deeper(d), n.children_spec().len(), put_all(first, map));
    lemma_put_sum(first, child_levels(n, deeper(d), n.children_spec().len()), map);
}

proof fn lemma_index_children_is_put<N: Walk>(n: N, d: usize, k: nat, map: Map<u64, N>)
    ensures
        index_children(n, k, map) == put_all(child_levels(n, d, k), map),
    decreases n.height(), k,
{
    if 0 < k <= n.children_spec().len() {
        n.children_are_lower(k - 1);
        let before = child_levels(n, d, (k - 1) as nat);
        let kid = n.children_spec()[k - 1];
        lemma_index_children_is_put(n, d, (k - 1) as nat, map);
        lemma_index_is_put(kid, d, put_all(before, map));
        lemma_put_sum(before, levels(kid, d), map);
    }
}

proof fn lemma_put_finds<N: Walk>(ls: Seq<(N, usize)>, map: Map<u64, N>, i: int)
    requires
        0 <= i < ls.len(),
        forall|a: int, b: int|
            0 <= a < b < ls.len() ==> (#[trigger] ls[a]).0.id_spec() != (#[trigger]
            ls[b]).0.id_spec(),
    ensures
        put_all(ls, map).contains_key(ls[i].0.id_spec().0),
        put_all(ls, map)[ls[i].0.id_spec().0] == ls[i].0,
    decreases ls.len(),
{
    if i < ls.len() - 1 {
        let front = ls.drop_last();
        assert forall|a: int, b: int| 0 <= a < b < front.len() implies (
        #[trigger] front[a]).0.id_spec() != (#[trigger] front[b]).0.id_spec() by {
            assert(ls[a].0.id_spec() != ls[b].0.id_spec());
        }
        lemma_put_finds(front, map, i);
        assert(front[i] == ls[i]);
        assert(ls[i].0.id_spec() != ls[ls.len() - 1].0.id_spec());
    }
}

/// Every node of a tree with distinct identities is found under its own: a
/// tree assembled from it gives each node's classification and payload.
pub proof fn law_every_node_is_found<'a, N: DslExec, S: DslSemantics>(
    root: N,
    ast: DerivedAst<'a, N, S>,
    i: int,
)
    requires
        ast.root_node() == root,
        ast.index() == index_tree(root, Map::empty()),
        0 <= i < levels(root, 0).len(),
        forall|a: int, b: int|
            0 <= a < b < levels(root, 0).len() ==> (#[trigger] levels(root, 0)[a]).0.id_spec() != (
            #[trigger] levels(root, 0)[b]).0.id_spec(),
    ensures
        ast.root_spec() == root.id_spec(),
        ({
            let node = levels(root, 0)[i].0;
            &&& ast.index().contains_key(node.id_spec().0)
            &&& ast.index()[node.id_spec().0] == node
            &&& ast.kind_spec(node.id_spec()) == node.exec_kind_spec()
            &&& ast.payload_at(node.id_spec()) == node.exec_literal_spec()
        }),
{
    lemma_index_is_put(root, 0, Map::empty());
    lemma_put_finds(levels(root, 0), Map::empty(), i);
}

proof fn lemma_put_last<N: Walk>(ls: Seq<(N, usize)>, key: u64, i: int)
    ensures
        put_all(ls, Map::empty()).contains_key(key) <==> exists|k: int|
            0 <= k < ls.len() && (#[trigger] ls[k]).0.id_spec().0 == key,
        0 <= i < ls.len() && ls[i].0.id_spec().0 == key && (forall|k: int|
            i < k < ls.len() ==> (#[trigger] ls[k]).0.id_spec().0 != key) ==> put_all(
            ls,
            Map::empty(),
        )[key] == ls[i].0,
    decreases ls.len(),
{
    if ls.len() > 0 {
        let front = ls.drop_last();
        let last = ls.len() - 1;
        lemma_put_last(front, key, i);
        if exists|k: int| 0 <= k < ls.len() && (#[trigger] ls[k]).0.id_spec().0 == key {
            let k = choose|k: int| 0 <= k < ls.len() && (#[trigger] ls[k]).0.id_spec().0 == key;
            if k < last {
                assert(front[k].0.id_spec().0 == key);
            }
        }
        if put_all(front, Map::empty()).contains_key(key) {
            let k = choose|k: int|
                0 <= k < front.len() && (#[trigger] front[k]).0.id_spec().0 == key;
            assert(ls[k].0.id_spec().0 == key);
        }
        assert(ls[last] == ls.last());
        if 0 <= i < last && ls[i].0.id_spec().0 == key && (forall|k: int|
            i < k < ls.len() ==> (#[trigger] ls[k]).0.id_spec().0 != key) {
            assert(front[i] == ls[i]);
            assert(ls[last].0.id_spec().0 != key);
            assert forall|k: int| i < k < front.len() implies (
            #[trigger] front[k]).0.id_spec().0 != key by {
                assert(ls[k].0.id_spec().0 != key);
            }
        }
    }
}

/// An identity is found in a tree exactly where some way leads to a node that
/// has it; where several do, the one that a walk meets last is found.
pub proof fn law_the_last_node_of_an_identity_is_found<N: Walk>(root: N, way: Seq<int>, key: u64)
    requires
        countable(root),
    ensures
        index_tree(root, Map::empty()).contains_key(key) <==> exists|w: Seq<int>|
            #![trigger node_at(root, w)]
            node_at(root, w) matches Some(m) && m.id_spec().0 == key,
        (node_at(root, way) matches Some(m) && m.id_spec().0 == key) && (forall|o: Seq<int>|
            #![trigger node_at(root, o)]
            (node_at(root, o) matches Some(m) && m.id_spec().0 == key) ==> place(root, o) <= place(
                root,
                way,
            )) ==> index_tree(root, Map::empty())[key] == node_at(root, way)->0,
{
    let ls = levels(root, 0);
    let i = place(root, way);
    lemma_index_is_put(root, 0, Map::empty());
    lemma_put_last(ls, key, i);
    if exists|k: int| 0 <= k < ls.len() && (#[trigger] ls[k]).0.id_spec().0 == key {
        let k = choose|k: int| 0 <= k < ls.len() && (#[trigger] ls[k]).0.id_spec().0 == key;
        law_the_list_of_nodes_is_the_tree(root, Seq::empty(), k);
        let w = choose|w: Seq<int>|
            #![trigger node_at(root, w)]
            node_at(root, w) == Some(ls[k].0) && ls[k].1 == w.len() && place(root, w) == k;
        assert(node_at(root, w) matches Some(m) && m.id_spec().0 == key);
    }
    if exists|w: Seq<int>|
        #![trigger node_at(root, w)]
        node_at(root, w) matches Some(m) && m.id_spec().0 == key {
        let w = choose|w: Seq<int>|
            #![trigger node_at(root, w)]
            node_at(root, w) matches Some(m) && m.id_spec().0 == key;
        law_the_list_of_nodes_is_the_tree(root, w, 0);
        assert(ls[place(root, w)].0.id_spec().0 == key);
    }
    if (node_at(root, way) matches Some(m) && m.id_spec().0 == key) && (forall|o: Seq<int>|
        #![trigger node_at(root, o)]
        (node_at(root, o) matches Some(m) && m.id_spec().0 == key) ==> place(root, o) <= place(
            root,
            way,
        )) {
        law_the_list_of_nodes_is_the_tree(root, way, 0);
        assert forall|k: int| i < k < ls.len() implies (#[trigger] ls[k]).0.id_spec().0 != key by {
            law_the_list_of_nodes_is_the_tree(root, Seq::empty(), k);
            let w = choose|w: Seq<int>|
                #![trigger node_at(root, w)]
                node_at(root, w) == Some(ls[k].0) && ls[k].1 == w.len() && place(root, w) == k;
            assert(node_at(root, w) is Some);
        }
    }
}

/// The nodes behind a map of references.
pub open spec fn nodes_of<'a, N>(map: Map<u64, &'a N>) -> Map<u64, N> {
    Map::new(|k: u64| map.contains_key(k), |k: u64| *map[k])
}

/// A tree assembled from nodes and semantics.
#[verifier::reject_recursive_types(N)]
#[verifier::reject_recursive_types(S)]
pub struct DerivedAst<'a, N, S> {
    root: &'a N,
    by_id: HashMap<u64, &'a N>,
    sem: S,
}

fn collect<'a, N: Walk>(node: &'a N, map: &mut HashMap<u64, &'a N>)
    ensures
        nodes_of(final(map)@) == index_tree(*node, nodes_of(old(map)@)),
    decreases node.height(),
{
    broadcast use vstd::std_specs::hash::group_hash_axioms;

    let ghost before = map@;
    let id = node.node_id();
    map.insert(id.0, node);
    assert(nodes_of(map@) =~= nodes_of(before).insert(id.0, *node));
    let ghost start = nodes_of(map@);
    let kids = node.children();
    let n: usize = kids.len();
    for i in 0..n
        invariant
            n == kids@.len(),
            n == node.children_spec().len(),
            forall|j: int| 0 <= j < n ==> *(#[trigger] kids@[j]) == node.children_spec()[j],
            nodes_of(map@) == index_children(*node, i as nat, start),
    {
        proof {
            node.children_are_lower(i as int);
        }
        collect(kids[i], map);
    }
}

impl<'a, N: DslExec, S> DerivedAst<'a, N, S> {
    /// The root node.
    pub closed spec fn root_node(&self) -> N {
        *self.root
    }

    /// The nodes by identity.
    pub closed spec fn index(&self) -> Map<u64, N> {
        nodes_of(self.by_id@)
    }

    /// The semantics.
    pub closed spec fn semantics(&self) -> S {
        self.sem
    }

    /// Indexes the tree and attaches the semantics.
    pub fn new(root: &'a N, sem: S) -> (out: Self)
        ensures
            out.root_node() == *root,
            out.semantics() == sem,
            out.index() == index_tree(*root, Map::empty()),
    {
        broadcast use vstd::std_specs::hash::group_hash_axioms;

        let mut by_id: HashMap<u64, &'a N> = HashMap::new();
        assert(nodes_of(by_id@) =~= Map::empty());
        collect(root, &mut by_id);
        DerivedAst { root, by_id, sem }
    }

    fn node(&self, id: NodeId) -> (out: Option<&'a N>)
        ensures
            match out {
                Some(n) => self.index().contains_key(id.0) && self.index()[id.0] == *n,
                None => !self.index().contains_key(id.0),
            },
    {
        broadcast use vstd::std_specs::hash::group_hash_axioms;

        match self.by_id.get(&id.0) {
            Some(n) => Some(*n),
            None => None,
        }
    }

    /// The classification of a node; an identity the tree does not hold is
    /// an absent body.
    pub open spec fn kind_at(&self, id: NodeId) -> SpecKind {
        if self.index().contains_key(id.0) {
            self.index()[id.0].exec_kind_spec()
        } else {
            SpecKind::Maybe { body: None }
        }
    }

    /// The payload of a node; an identity the tree does not hold has none.
    pub open spec fn payload_at(&self, id: NodeId) -> Option<N::LitValue> {
        if self.index().contains_key(id.0) {
            self.index()[id.0].exec_literal_spec()
        } else {
            None
        }
    }

    /// The payload of a literal node.
    pub fn literal_payload(&self, node: NodeId) -> (out: Option<N::LitValue>)
        ensures
            out == self.payload_at(node),
    {
        match self.node(node) {
            Some(n) => n.exec_literal(),
            None => None,
        }
    }
}

impl<'a, N: DslExec, S: DslSemantics> DerivedAst<'a, N, S> {
    /// See [`DslSemantics::truthy`].
    pub fn truthy(&self, value: &S::Value) -> (out: Option<bool>)
        ensures
            call_ensures(S::truthy, (&self.semantics(), value), out),
    {
        self.sem.truthy(value)
    }

    /// See [`DslSemantics::continue_loop`].
    pub fn continue_loop(&self, node: NodeId, last: &S::Value, iteration: usize) -> (out:
        LoopDecision)
        ensures
            call_ensures(S::continue_loop, (&self.semantics(), node, last, iteration), out),
    {
        self.sem.continue_loop(node, last, iteration)
    }

    /// See [`DslSemantics::bind_delta`].
    pub fn bind_delta(&self, name: &str, value: &S::Value) -> (out: Option<S::Delta>)
        ensures
            call_ensures(S::bind_delta, (&self.semantics(), name, value), out),
    {
        self.sem.bind_delta(name, value)
    }

    /// See [`DslSemantics::lookup`].
    pub fn lookup(&self, delta: &S::Delta, name: &str) -> (out: Option<S::Value>)
        ensures
            call_ensures(S::lookup, (&self.semantics(), delta, name), out),
    {
        self.sem.lookup(delta, name)
    }
}

impl<'a, N: DslExec, S: DslSemantics> DerivedAst<'a, N, S> where S::Value: From<N::LitValue> {
    /// The value of a literal node.
    pub fn literal(&self, node: NodeId) -> (out: Option<S::Value>)
        ensures
            match (out, self.payload_at(node)) {
                (Some(v), Some(lit)) => call_ensures(
                    <S::Value as From<N::LitValue>>::from,
                    (lit,),
                    v,
                ),
                (None, None) => true,
                _ => false,
            },
    {
        match self.literal_payload(node) {
            Some(lit) => Some(<S::Value as From<N::LitValue>>::from(lit)),
            None => None,
        }
    }
}

impl<'a, N: DslExec, S: DslSemantics> Ast for DerivedAst<'a, N, S> {
    type Value = S::Value;

    type Delta = S::Delta;

    type EffectError = S::EffectError;

    type Cursor = S::Cursor;

    open spec fn root_spec(&self) -> NodeId {
        self.root_node().id_spec()
    }

    open spec fn kind_spec(&self, id: NodeId) -> SpecKind {
        self.kind_at(id)
    }

    open spec fn unit_spec(&self) -> S::Value {
        self.semantics().unit_spec()
    }

    open spec fn blank_delta() -> S::Delta {
        S::blank_delta()
    }

    open spec fn blank_cursor() -> S::Cursor {
        S::blank_cursor()
    }

    proof fn value_clone_is_equal(a: S::Value, b: S::Value) {
        S::value_clone_is_equal(a, b);
    }

    proof fn error_clone_is_equal(a: S::EffectError, b: S::EffectError) {
        S::error_clone_is_equal(a, b);
    }

    proof fn default_delta_is_blank(d: S::Delta) {
        S::default_delta_is_blank(d);
    }

    proof fn default_cursor_is_blank(c: S::Cursor) {
        S::default_cursor_is_blank(c);
    }

    fn root(&self) -> (out: NodeId) {
        self.root.node_id()
    }

    fn node_kind(&self, id: NodeId) -> (out: NodeKind) {
        match self.node(id) {
            Some(n) => n.exec_kind(),
            None => NodeKind::Maybe { body: None },
        }
    }

    fn unit_value(&self) -> (out: S::Value) {
        self.sem.unit_value()
    }
}

} // verus!
