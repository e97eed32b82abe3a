//! Trees of identified nodes, and walking them.
use vstd::prelude::*;

use crate::ids::NodeId;

verus! {

/// A node with a stable identity and a variant name.
pub trait DslNode {
    /// The node's identity.
    spec fn id_spec(&self) -> NodeId;

    /// The node's variant name.
    spec fn variant_spec(&self) -> Seq<char>;

    /// The stable identity assigned to this node.
    fn node_id(&self) -> (out: NodeId)
        ensures
            out == self.id_spec(),
    ;

    /// The variant name of this node, such as `Seq` or `Call`.
    fn variant_name(&self) -> (out: &'static str)
        ensures
            out@ == self.variant_spec(),
    ;
}

/// Which side of a node's walk a visitor is on.
#[derive(Debug, Clone, Copy, PartialEq, Eq, Structural)]
pub enum Phase {
    /// Before the node's children.
    Pre,
    /// After the node's children.
    Post,
}

/// A tree that can be walked.
pub trait Walk: DslNode + Sized {
    /// Direct children, in walking order.
    spec fn children_spec(&self) -> Seq<Self>;

    /// How many levels of nodes there are from here down.
    spec fn height(&self) -> nat;

    /// Children have fewer levels than their parent.
    proof fn children_are_lower(&self, i: int)
        requires
            0 <= i < self.children_spec().len(),
        ensures
            self.children_spec()[i].height() < self.height(),
    ;

    /// Direct children of this node, in walking order.
    fn children<'a>(&'a self) -> (out: Vec<&'a Self>)
        ensures
            out@.len() == self.children_spec().len(),
            forall|i: int|
                0 <= i < out@.len() ==> *(#[trigger] out@[i]) == self.children_spec()[i],
    ;
}

/// Mutable counterpart of [`Walk`].
pub trait WalkMut: DslNode + Sized {
    /// Direct children of this node, mutably, in walking order.
    fn children_mut(&mut self) -> Vec<&mut Self>;
}

/// The visits of a walk: each node before and after its children.
pub open spec fn visits<N: Walk>(n: N) -> Seq<(N, Phase)>
    decreases n.height(), n.children_spec().len() + 1,
{
    seq![(n, Phase::Pre)] + child_visits(n, n.children_spec().len()) + seq![(n, Phase::Post)]
}

/// The visits below the first `k` children of a node.
pub open spec fn child_visits<N: Walk>(n: N, k: nat) -> Seq<(N, Phase)>
    decreases n.height(), k,
    via child_visits_decreases::<N>
{
    if k == 0 || k > n.children_spec().len() {
        Seq::empty()
    } else {
        child_visits(n, (k - 1) as nat) + visits(n.children_spec()[k - 1])
    }
}

#[via_fn]
proof fn child_visits_decreases<N: Walk>(n: N, k: nat) {
    if 0 < k <= n.children_spec().len() {
        n.children_are_lower(k - 1);
    }
}

/// Something that visits nodes and remembers which.
pub trait Visitor<N> {
    /// The visits so far.
    spec fn visited(&self) -> Seq<(N, Phase)>;

    /// Visits a node.
    fn visit(&mut self, node: &N, phase: Phase)
        ensures
            final(self).visited() == old(self).visited().push((*node, phase)),
    ;
}

/// Walks a tree depth first; every node is visited before and after its
/// children.
pub fn walk<N: Walk, T: Visitor<N>>(node: &N, visitor: &mut T)
    ensures
        final(visitor).visited() == old(visitor).visited() + visits(*node),
    decreases node.height(),
{
    let ghost before = visitor.visited();
    visitor.visit(node, Phase::Pre);
    let kids = node.children();
    let n: usize = kids.len();
    assert(visitor.visited() =~= before + seq![(*node, Phase::Pre)] + child_visits(*node, 0));
    for i in 0..n
        invariant
            n == kids@.len(),
            n == node.children_spec().len(),
            forall|j: int| 0 <= j < n ==> *(#[trigger] kids@[j]) == node.children_spec()[j],
            visitor.visited() == before + seq![(*node, Phase::Pre)] + child_visits(
                *node,
                i as nat,
            ),
    {
        proof {
            node.children_are_lower(i as int);
        }
        walk(kids[i], visitor);
        assert(visitor.visited() =~= before + seq![(*node, Phase::Pre)] + child_visits(
            *node,
            (i + 1) as nat,
        ));
    }
    visitor.visit(node, Phase::Post);
    assert(visitor.visited() =~= before + visits(*node));
}

/// Whether `out` is what `f` may answer on a visit.
pub open spec fn answers<N, T, F: Fn(&N, Phase) -> Option<T>>(
    f: F,
    v: (N, Phase),
    out: Option<T>,
) -> bool {
    f.ensures((&v.0, v.1), out)
}

/// Whether `f` answers nothing on the first `k` visits.
pub open spec fn silent_until<N, T, F: Fn(&N, Phase) -> Option<T>>(
    f: F,
    vs: Seq<(N, Phase)>,
    k: int,
) -> bool {
    forall|j: int| 0 <= j < k ==> #[trigger] answers(f, vs[j], None::<T>)
}

/// Whether `out` is what `f` answers first on a list of visits.
pub open spec fn first_answer<N, T, F: Fn(&N, Phase) -> Option<T>>(
    f: F,
    vs: Seq<(N, Phase)>,
    out: Option<T>,
) -> bool {
    match out {
        None => silent_until(f, vs, vs.len() as int),
        Some(_) => exists|k: int|
            0 <= k < vs.len() && #[trigger] answers(f, vs[k], out) && silent_until(f, vs, k),
    }
}

proof fn lemma_first_answer<N, T, F: Fn(&N, Phase) -> Option<T>>(
    f: F,
    a: Seq<(N, Phase)>,
    b: Seq<(N, Phase)>,
    out: Option<T>,
)
    requires
        silent_until(f, a, a.len() as int) && first_answer(f, b, out) || out is Some
            && first_answer(f, a, out),
    ensures
        first_answer(f, a + b, out),
{
    let ab = a + b;
    assert(forall|j: int| 0 <= j < a.len() ==> #[trigger] ab[j] == a[j]);
    assert(forall|j: int| 0 <= j < b.len() ==> ab[a.len() + j] == #[trigger] b[j]);
    if out is Some && first_answer(f, a, out) {
        let k = choose|k: int|
            0 <= k < a.len() && #[trigger] answers(f, a[k], out) && silent_until(
                f,
                a,
                k,
            );
        assert(ab[k] == a[k]);
        assert(answers(f, ab[k], out));
        assert(silent_until(f, ab, k)) by {
            assert forall|j: int| 0 <= j < k implies #[trigger] answers(f, ab[j], None::<T>) by {
                assert(ab[j] == a[j]);
                assert(answers(f, a[j], None::<T>));
            }
        }
    } else {
        let upto = match out {
            None => b.len() as int,
            Some(t) => choose|k: int|
                0 <= k < b.len() && #[trigger] answers(f, b[k], out) && silent_until(
                    f,
                    b,
                    k,
                ),
        };
        assert(silent_until(f, ab, a.len() + upto)) by {
            assert forall|j: int| 0 <= j < a.len() + upto implies #[trigger] answers(f, ab[j], None::<T>) by {
                if j < a.len() {
                    assert(ab[j] == a[j]);
                    assert(answers(f, a[j], None::<T>));
                } else {
                    let i = j - a.len();
                    assert(ab[a.len() + i] == b[i]);
                    assert(answers(f, b[i], None::<T>));
                }
            }
        }
        if out is Some {
            assert(ab[a.len() + upto] == b[upto]);
            assert(answers(f, ab[a.len() + upto], out));
        }
    }
}

/// Walks a tree depth first until the visitor answers.
pub fn walk_until<N: Walk, T, F: Fn(&N, Phase) -> Option<T>>(node: &N, visitor: &F) -> (out: Option<
    T,
>)
    requires
        forall|n: &N, p: Phase| visitor.requires((n, p)),
    ensures
        first_answer(*visitor, visits(*node), out),
    decreases node.height(),
{
    let ghost all = visits(*node);
    let ghost pre = seq![(*node, Phase::Pre)];
    let ghost post = seq![(*node, Phase::Post)];
    let ghost inner = child_visits(*node, node.children_spec().len());
    let first = visitor(node, Phase::Pre);
    if first.is_some() {
        proof {
            assert(pre[0] == (*node, Phase::Pre));
            assert(answers(*visitor, pre[0], first));
            assert(silent_until(*visitor, pre, 0));
            assert(first_answer(*visitor, pre, first));
            lemma_first_answer(*visitor, pre, inner + post, first);
            assert(pre + (inner + post) =~= all);
        }
        return first;
    }
    let kids = node.children();
    let n: usize = kids.len();
    proof {
        assert(silent_until(*visitor, pre, 1)) by {
            assert forall|j: int| 0 <= j < 1 implies #[trigger] answers(*visitor, pre[j], None::<T>) by {
                assert(pre[j] == (*node, Phase::Pre));
            }
        }
        assert(pre + child_visits(*node, 0) =~= pre);
    }
    for i in 0..n
        invariant
            forall|n: &N, p: Phase| visitor.requires((n, p)),
            n == kids@.len(),
            n == node.children_spec().len(),
            forall|j: int| 0 <= j < n ==> *(#[trigger] kids@[j]) == node.children_spec()[j],
            all == visits(*node),
            pre == seq![(*node, Phase::Pre)],
            post == seq![(*node, Phase::Post)],
            inner == child_visits(*node, node.children_spec().len()),
            silent_until(
                *visitor,
                pre + child_visits(*node, i as nat),
                (pre + child_visits(*node, i as nat)).len() as int,
            ),
    {
        proof {
            node.children_are_lower(i as int);
        }
        let found = walk_until(kids[i], visitor);
        proof {
            let sofar = pre + child_visits(*node, i as nat);
            let here = visits(*kids@[i as int]);
            lemma_first_answer(*visitor, sofar, here, found);
            assert(sofar + here =~= pre + child_visits(*node, (i + 1) as nat));
            if found is Some {
                lemma_child_visits_split(*node, (i + 1) as nat, n as nat);
                let tail = child_visits_from(*node, (i + 1) as nat, n as nat);
                lemma_first_answer(*visitor, sofar + here, tail + post, found);
                assert((sofar + here) + (tail + post) =~= all);
            }
        }
        if found.is_some() {
            return found;
        }
    }
    let last = visitor(node, Phase::Post);
    proof {
        assert(post[0] == (*node, Phase::Post));
        assert(answers(*visitor, post[0], last));
        assert(silent_until(*visitor, post, 0));
        if last is None {
            assert forall|j: int| 0 <= j < 1 implies #[trigger] answers(*visitor, post[j], None::<T>) by {
                assert(post[j] == (*node, Phase::Post));
            }
        }
        assert(first_answer(*visitor, post, last));
        lemma_first_answer(*visitor, pre + inner, post, last);
    }
    last
}

/// The visits below the children from `from` to `to`.
spec fn child_visits_from<N: Walk>(n: N, from: nat, to: nat) -> Seq<(N, Phase)>
    decreases to,
{
    if to <= from {
        Seq::empty()
    } else {
        child_visits_from(n, from, (to - 1) as nat) + visits(n.children_spec()[to - 1])
    }
}

proof fn lemma_child_visits_split<N: Walk>(n: N, from: nat, to: nat)
    requires
        from <= to <= n.children_spec().len(),
    ensures
        child_visits(n, to) == child_visits(n, from) + child_visits_from(n, from, to),
    decreases to,
{
    if from < to {
        lemma_child_visits_split(n, from, (to - 1) as nat);
        assert(child_visits(n, to) =~= child_visits(n, from) + child_visits_from(n, from, to));
    } else {
        assert(child_visits(n, to) =~= child_visits(n, from) + child_visits_from(n, from, to));
    }
}

/// The first node with an identity, each node before its children.
pub open spec fn found<N: Walk>(n: N, target: NodeId) -> Option<N>
    decreases n.height(), n.children_spec().len() + 1,
{
    if n.id_spec() == target {
        Some(n)
    } else {
        found_below(n, target, n.children_spec().len())
    }
}

/// The first node with an identity below the first `k` children.
pub open spec fn found_below<N: Walk>(n: N, target: NodeId, k: nat) -> Option<N>
    decreases n.height(), k,
    via found_below_decreases::<N>
{
    if k == 0 || k > n.children_spec().len() {
        None
    } else {
        match found_below(n, target, (k - 1) as nat) {
            Some(m) => Some(m),
            None => found(n.children_spec()[k - 1], target),
        }
    }
}

#[via_fn]
proof fn found_below_decreases<N: Walk>(n: N, target: NodeId, k: nat) {
    if 0 < k <= n.children_spec().len() {
        n.children_are_lower(k - 1);
    }
}

proof fn lemma_found_below_grows<N: Walk>(n: N, target: NodeId, k: nat, m: nat)
    requires
        k <= m <= n.children_spec().len(),
        found_below(n, target, k) is Some,
    ensures
        found_below(n, target, m) == found_below(n, target, k),
    decreases m,
{
    if k < m {
        lemma_found_below_grows(n, target, k, (m - 1) as nat);
    }
}

/// Locates a node by its identity.
pub fn find_by_id<'a, N: Walk>(node: &'a N, target: NodeId) -> (out: Option<&'a N>)
    ensures
        match out {
            Some(n) => found(*node, target) == Some(*n),
            None => found(*node, target) is None,
        },
    decreases node.height(),
{
    if node.node_id() == target {
        return Some(node);
    }
    let kids = node.children();
    let n: usize = kids.len();
    for i in 0..n
        invariant
            n == kids@.len(),
            n == node.children_spec().len(),
            forall|j: int| 0 <= j < n ==> *(#[trigger] kids@[j]) == node.children_spec()[j],
            found_below(*node, target, i as nat) is None,
            node.id_spec() != target,
    {
        proof {
            node.children_are_lower(i as int);
        }
        let hit = find_by_id(kids[i], target);
        if let Some(h) = hit {
            proof {
                lemma_found_below_grows(*node, target, (i + 1) as nat, n as nat);
            }
            return Some(h);
        }
    }
    None
}

/// One level further down, as far as levels can be counted.
pub open spec fn deeper(d: usize) -> usize {
    if d == usize::MAX {
        d
    } else {
        (d + 1) as usize
    }
}

/// The nodes of a tree and how deep they stand, each node before its
/// children.
pub open spec fn levels<N: Walk>(n: N, d: usize) -> Seq<(N, usize)>
    decreases n.height(), n.children_spec().len() + 1,
{
    seq![(n, d)] + child_levels(n, deeper(d), n.children_spec().len())
}

/// The nodes below the first `k` children and how deep they stand.
pub open spec fn child_levels<N: Walk>(n: N, d: usize, k: nat) -> Seq<(N, usize)>
    decreases n.height(), k,
    via child_levels_decreases::<N>
{
    if k == 0 || k > n.children_spec().len() {
        Seq::empty()
    } else {
        child_levels(n, d, (k - 1) as nat) + levels(n.children_spec()[k - 1], d)
    }
}

#[via_fn]
proof fn child_levels_decreases<N: Walk>(n: N, d: usize, k: nat) {
    if 0 < k <= n.children_spec().len() {
        n.children_are_lower(k - 1);
    }
}

/// The nodes behind a list of references, with their depths.
pub open spec fn levels_view<'a, N>(ls: Seq<(&'a N, usize)>) -> Seq<(N, usize)> {
    Seq::new(ls.len(), |i: int| (*ls[i].0, ls[i].1))
}

fn push_levels<'a, N: Walk>(node: &'a N, d: usize, out: &mut Vec<(&'a N, usize)>)
    ensures
        levels_view(final(out)@) == levels_view(old(out)@) + levels(*node, d),
    decreases node.height(),
{
    let ghost before = levels_view(out@);
    out.push((node, d));
    let next: usize = if d == usize::MAX {
        d
    } else {
        d + 1
    };
    assert(levels_view(out@) =~= before + seq![(*node, d)] + child_levels(*node, next, 0));
    let kids = node.children();
    let n: usize = kids.len();
    for i in 0..n
        invariant
            n == kids@.len(),
            n == node.children_spec().len(),
            next == deeper(d),
            forall|j: int| 0 <= j < n ==> *(#[trigger] kids@[j]) == node.children_spec()[j],
            levels_view(out@) == before + seq![(*node, d)] + child_levels(*node, next, i as nat),
    {
        proof {
            node.children_are_lower(i as int);
        }
        push_levels(kids[i], next, out);
        assert(levels_view(out@) =~= before + seq![(*node, d)] + child_levels(
            *node,
            next,
            (i + 1) as nat,
        ));
    }
    assert(levels_view(out@) =~= before + levels(*node, d));
}

/// The nodes of a tree and how deep they stand below the root, each node
/// before its children.
pub fn all_levels<'a, N: Walk>(node: &'a N) -> (out: Vec<(&'a N, usize)>)
    ensures
        levels_view(out@) == levels(*node, 0),
{
    let mut out: Vec<(&'a N, usize)> = Vec::new();
    push_levels(node, 0, &mut out);
    assert(levels_view(out@) =~= levels(*node, 0));
    out
}

} // verus!
