//! Identities and positions that every observation is anchored to.
use vstd::prelude::*;
use vstd::string::*;

use crate::text::{decimal, push_decimal};

pub mod laws;

verus! {

/// Stable identifier assigned to every AST node when the tree is built.
#[derive(Debug, Clone, Copy, PartialEq, Eq, Hash, Structural)]
pub struct NodeId(pub u64);

/// Identifier for a single activation of a function-like node.
#[derive(Debug, Clone, Copy, PartialEq, Eq, Hash, Structural)]
pub struct CallFrameId(pub u64);

/// Position within the current iteration of a loop-shaped node.
#[derive(Debug, Clone, Copy, PartialEq, Eq, Hash, Structural)]
pub struct Iteration(pub u64);

/// Stable identifier for one in-flight suspension.
#[derive(Debug, Clone, Copy, PartialEq, Eq, Hash, Structural)]
pub struct SuspensionId(pub u64);

/// Identifier assigned by a breakpoint set to each added condition.
#[derive(Debug, Clone, Copy, PartialEq, Eq, Hash, Structural)]
pub struct BreakpointId(pub u64);

/// A one- or two-letter prefix followed by a number.
pub open spec fn tagged(prefix: Seq<char>, n: u64) -> Seq<char> {
    prefix + decimal(n as nat)
}

fn tagged_text(prefix: &str, n: u64) -> (out: String)
    ensures
        out@ == tagged(prefix@, n),
{
    let mut out = prefix.to_owned();
    push_decimal(&mut out, n);
    out
}

impl NodeId {
    /// `n7`.
    pub fn to_text(&self) -> (out: String)
        ensures
            out@ == tagged("n"@, self.0),
    {
        tagged_text("n", self.0)
    }
}

impl CallFrameId {
    /// `f7`.
    pub fn to_text(&self) -> (out: String)
        ensures
            out@ == tagged("f"@, self.0),
    {
        tagged_text("f", self.0)
    }
}

impl SuspensionId {
    /// `s7`.
    pub fn to_text(&self) -> (out: String)
        ensures
            out@ == tagged("s"@, self.0),
    {
        tagged_text("s", self.0)
    }
}

impl BreakpointId {
    /// `bp7`.
    pub fn to_text(&self) -> (out: String)
        ensures
            out@ == tagged("bp"@, self.0),
    {
        tagged_text("bp", self.0)
    }
}

/// Root-to-node identifier chain.
#[derive(Debug, PartialEq, Eq, Hash)]
pub struct Path(pub Vec<NodeId>);

impl View for Path {
    type V = Seq<NodeId>;

    open spec fn view(&self) -> Seq<NodeId> {
        self.0@
    }
}

impl Clone for Path {
    fn clone(&self) -> (out: Self)
        ensures
            out@ == self@,
    {
        Path(clone_nodes(&self.0))
    }
}

impl Default for Path {
    fn default() -> (out: Self)
        ensures
            out@ == Seq::<NodeId>::empty(),
    {
        Path::root()
    }
}

/// Clones a list of node ids.
pub fn clone_nodes(ids: &Vec<NodeId>) -> (out: Vec<NodeId>)
    ensures
        out@ == ids@,
{
    let mut out: Vec<NodeId> = Vec::new();
    for i in 0..ids.len()
        invariant
            out@ == ids@.take(i as int),
    {
        out.push(ids[i]);
        assert(out@ =~= ids@.take(i + 1));
    }
    assert(ids@.take(ids@.len() as int) =~= ids@);
    out
}

/// Whether two lists hold the same node ids in the same order.
pub fn same_nodes(a: &Vec<NodeId>, b: &Vec<NodeId>) -> (same: bool)
    ensures
        same == (a@ == b@),
{
    if a.len() != b.len() {
        return false;
    }
    for i in 0..a.len()
        invariant
            a.len() == b.len(),
            forall|j: int| 0 <= j < i ==> a@[j] == b@[j],
    {
        if a[i].0 != b[i].0 {
            return false;
        }
    }
    assert(a@ =~= b@);
    true
}

/// The text a path is shown as: `/` for the root, `/n1/n2` below it.
pub open spec fn path_text(path: Seq<NodeId>) -> Seq<char> {
    if path.len() == 0 {
        "/"@
    } else {
        steps_text(path)
    }
}

/// `/n1/n2` for the steps `n1` and `n2`.
pub open spec fn steps_text(path: Seq<NodeId>) -> Seq<char>
    decreases path.len(),
{
    if path.len() == 0 {
        Seq::empty()
    } else {
        steps_text(path.drop_last()) + "/"@ + tagged("n"@, path.last().0)
    }
}

impl Path {
    /// The empty path, that is, the root.
    pub fn root() -> (out: Self)
        ensures
            out@ == Seq::<NodeId>::empty(),
    {
        Path(Vec::new())
    }

    /// A new path with `node` pushed onto the end.
    pub fn push(&self, node: NodeId) -> (out: Self)
        ensures
            out@ == self@.push(node),
    {
        let mut next = clone_nodes(&self.0);
        next.push(node);
        Path(next)
    }

    /// Number of node ids on the path.
    pub fn depth(&self) -> (out: usize)
        ensures
            out == self@.len(),
    {
        self.0.len()
    }

    /// The node id at the tip of the path, if any.
    pub fn tip(&self) -> (out: Option<NodeId>)
        ensures
            out == (if self@.len() == 0 {
                None
            } else {
                Some(self@.last())
            }),
    {
        if self.0.len() == 0 {
            None
        } else {
            Some(self.0[self.0.len() - 1])
        }
    }

    /// `/` for the root, `/n1/n2` below it.
    pub fn to_text(&self) -> (out: String)
        ensures
            out@ == path_text(self@),
    {
        if self.0.len() == 0 {
            return "/".to_owned();
        }
        let mut out = String::new();
        let ghost all = self@;
        assert(all.take(0) =~= Seq::empty());
        for i in 0..self.0.len()
            invariant
                all == self@,
                out@ == steps_text(all.take(i as int)),
        {
            out.append("/");
            out.append("n");
            push_decimal(&mut out, self.0[i].0);
            proof {
                let done = all.take(i + 1);
                assert(done.drop_last() =~= all.take(i as int));
                assert(out@ =~= steps_text(done));
            }
        }
        assert(all.take(all.len() as int) =~= all);
        out
    }
}

/// Monotonic generator of node and call-frame ids.
#[derive(Debug)]
pub struct IdGen {
    next: u64,
}

impl View for IdGen {
    type V = u64;

    /// The number that the next id will carry.
    closed spec fn view(&self) -> u64 {
        self.next
    }
}

/// The number after `n`, starting over past the largest one.
pub open spec fn successor(n: u64) -> u64 {
    if n == u64::MAX {
        0
    } else {
        (n + 1) as u64
    }
}

/// The number after `n`, starting over past the largest one.
pub fn next_number(n: u64) -> (out: u64)
    ensures
        out == successor(n),
{
    if n == u64::MAX {
        0
    } else {
        n + 1
    }
}

impl Default for IdGen {
    fn default() -> (out: Self)
        ensures
            out@ == 0,
    {
        IdGen::new()
    }
}

impl IdGen {
    /// A fresh generator that starts at zero.
    pub fn new() -> (out: Self)
        ensures
            out@ == 0,
    {
        IdGen { next: 0 }
    }

    /// Allocates a fresh `NodeId`.
    pub fn node(&mut self) -> (out: NodeId)
        ensures
            out == NodeId(old(self)@),
            final(self)@ == successor(old(self)@),
    {
        let id = NodeId(self.next);
        self.next = next_number(self.next);
        id
    }

    /// Allocates a fresh `CallFrameId`.
    pub fn frame(&mut self) -> (out: CallFrameId)
        ensures
            out == CallFrameId(old(self)@),
            final(self)@ == successor(old(self)@),
    {
        let id = CallFrameId(self.next);
        self.next = next_number(self.next);
        id
    }
}

/// The number handed out after `k` more allocations from `start`.
pub open spec fn nth_number(start: u64, k: nat) -> u64
    decreases k,
{
    if k == 0 {
        start
    } else {
        successor(nth_number(start, (k - 1) as nat))
    }
}

/// Two allocations of one generator never hand out the same number, as long
/// as fewer than 2^64 lie between them.
pub proof fn law_allocated_numbers_differ(start: u64, i: nat, j: nat)
    requires
        i < j,
        j - i <= u64::MAX,
    ensures
        nth_number(start, i) != nth_number(start, j),
{
    lemma_nth_number(start, i);
    lemma_nth_number(start, j);
    let m: int = u64::MAX + 1;
    let a: int = (start + i) as int;
    let b: int = (start + j) as int;
    if a % m == b % m {
        vstd::arithmetic::div_mod::lemma_fundamental_div_mod(a, m);
        vstd::arithmetic::div_mod::lemma_fundamental_div_mod(b, m);
        let q: int = b / m - a / m;
        assert(m * (b / m) - m * (a / m) == m * q) by (nonlinear_arith)
            requires
                q == b / m - a / m,
        ;
        assert(m * q == j - i);
        assert(false) by (nonlinear_arith)
            requires
                m * q == j - i,
                0 < j - i < m,
        ;
    }
}

proof fn lemma_nth_number(start: u64, k: nat)
    ensures
        nth_number(start, k) == (start + k) % (u64::MAX + 1),
    decreases k,
{
    let m: int = u64::MAX + 1;
    if k > 0 {
        lemma_nth_number(start, (k - 1) as nat);
        let before: int = start + k - 1;
        if before % m == u64::MAX {
            assert((before + 1) % m == 0);
        } else {
            assert((before + 1) % m == before % m + 1);
        }
    }
}

} // verus!
