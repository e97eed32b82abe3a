//! Conditions that halt an evaluation, and the set they are registered in.
use vstd::prelude::*;

use crate::context::{NodeContext, SpecContext};
use crate::ids::{
    next_number, same_nodes, successor, BreakpointId, CallFrameId, Iteration, NodeId, Path,
};

pub mod laws;

verus! {

/// A boolean predicate over [`NodeContext`].
#[derive(Debug, PartialEq, Eq)]
pub enum BreakCondition {
    /// The node id is exactly this one.
    Node(NodeId),
    /// The current path starts with this one.
    PathPrefix(Path),
    /// The current path is exactly this one.
    PathExact(Path),
    /// The current depth is at least this.
    DepthAtLeast(u32),
    /// The current depth is at most this.
    DepthAtMost(u32),
    /// The current depth is exactly this.
    DepthEquals(u32),
    /// The iteration counter is exactly this.
    Iteration(u64),
    /// The current call frame is exactly this one.
    CallFrame(CallFrameId),
    /// One of the conditions holds.
    Any(Vec<BreakCondition>),
    /// Every one of the conditions holds.
    All(Vec<BreakCondition>),
    /// The inner condition does not hold.
    Not(Box<BreakCondition>),
    /// Always holds.
    Always,
    /// Never holds.
    Never,
}

impl Clone for BreakCondition {
    fn clone(&self) -> (out: Self)
        ensures
            out@ == self@,
        decreases self, 0nat,
    {
        match self {
            BreakCondition::Node(n) => BreakCondition::Node(*n),
            BreakCondition::PathPrefix(p) => BreakCondition::PathPrefix(p.clone()),
            BreakCondition::PathExact(p) => BreakCondition::PathExact(p.clone()),
            BreakCondition::DepthAtLeast(d) => BreakCondition::DepthAtLeast(*d),
            BreakCondition::DepthAtMost(d) => BreakCondition::DepthAtMost(*d),
            BreakCondition::DepthEquals(d) => BreakCondition::DepthEquals(*d),
            BreakCondition::Iteration(i) => BreakCondition::Iteration(*i),
            BreakCondition::CallFrame(f) => BreakCondition::CallFrame(*f),
            BreakCondition::Any(cs) => BreakCondition::Any(copy_conditions(cs)),
            BreakCondition::All(cs) => BreakCondition::All(copy_conditions(cs)),
            BreakCondition::Not(c) => BreakCondition::Not(Box::new((**c).clone())),
            BreakCondition::Always => BreakCondition::Always,
            BreakCondition::Never => BreakCondition::Never,
        }
    }
}

fn copy_conditions(cs: &Vec<BreakCondition>) -> (out: Vec<BreakCondition>)
    ensures
        conditions_view(out@) == conditions_view(cs@),
    decreases cs, 1nat,
{
    let mut out: Vec<BreakCondition> = Vec::new();
    let n: usize = cs.len();
    for i in 0..n
        invariant
            n == cs@.len(),
            out@.len() == i,
            forall|j: int| 0 <= j < i ==> (#[trigger] out@[j])@ == cs@[j]@,
        decreases n - i,
    {
        out.push(cs[i].clone());
    }
    assert(conditions_view(out@) =~= conditions_view(cs@));
    out
}

/// The mathematical shape of a [`BreakCondition`].
pub enum SpecCondition {
    Node(NodeId),
    PathPrefix(Seq<NodeId>),
    PathExact(Seq<NodeId>),
    DepthAtLeast(u32),
    DepthAtMost(u32),
    DepthEquals(u32),
    Iteration(u64),
    CallFrame(CallFrameId),
    Any(Seq<SpecCondition>),
    All(Seq<SpecCondition>),
    Not(Box<SpecCondition>),
    Always,
    Never,
}

pub open spec fn condition_view(c: BreakCondition) -> SpecCondition
    decreases c, 0nat,
{
    match c {
        BreakCondition::Node(id) => SpecCondition::Node(id),
        BreakCondition::PathPrefix(p) => SpecCondition::PathPrefix(p@),
        BreakCondition::PathExact(p) => SpecCondition::PathExact(p@),
        BreakCondition::DepthAtLeast(n) => SpecCondition::DepthAtLeast(n),
        BreakCondition::DepthAtMost(n) => SpecCondition::DepthAtMost(n),
        BreakCondition::DepthEquals(n) => SpecCondition::DepthEquals(n),
        BreakCondition::Iteration(n) => SpecCondition::Iteration(n),
        BreakCondition::CallFrame(f) => SpecCondition::CallFrame(f),
        BreakCondition::Any(cs) => SpecCondition::Any(conditions_view(cs@)),
        BreakCondition::All(cs) => SpecCondition::All(conditions_view(cs@)),
        BreakCondition::Not(inner) => SpecCondition::Not(Box::new(condition_view(*inner))),
        BreakCondition::Always => SpecCondition::Always,
        BreakCondition::Never => SpecCondition::Never,
    }
}

/// The views of a list of conditions.
pub open spec fn conditions_view(cs: Seq<BreakCondition>) -> Seq<SpecCondition>
    decreases cs, 1nat,
{
    Seq::new(
        cs.len(),
        |i: int|
            if 0 <= i < cs.len() {
                condition_view(cs[i])
            } else {
                SpecCondition::Never
            },
    )
}

impl View for BreakCondition {
    type V = SpecCondition;

    open spec fn view(&self) -> SpecCondition {
        condition_view(*self)
    }
}

/// Whether a condition holds in a context.
pub open spec fn holds(c: SpecCondition, ctx: SpecContext) -> bool
    decreases c,
{
    match c {
        SpecCondition::Node(id) => ctx.node == id,
        SpecCondition::PathPrefix(p) => p.len() <= ctx.path.len() && ctx.path.take(p.len() as int)
            == p,
        SpecCondition::PathExact(p) => ctx.path == p,
        SpecCondition::DepthAtLeast(n) => ctx.depth >= n,
        SpecCondition::DepthAtMost(n) => ctx.depth <= n,
        SpecCondition::DepthEquals(n) => ctx.depth == n,
        SpecCondition::Iteration(n) => ctx.iteration == Some(Iteration(n)),
        SpecCondition::CallFrame(f) => ctx.frame == Some(f),
        SpecCondition::Any(cs) => exists|i: int| 0 <= i < cs.len() && holds(#[trigger] cs[i], ctx),
        SpecCondition::All(cs) => forall|i: int| 0 <= i < cs.len() ==> holds(#[trigger] cs[i], ctx),
        SpecCondition::Not(inner) => !holds(*inner, ctx),
        SpecCondition::Always => true,
        SpecCondition::Never => false,
    }
}

/// The conjunction of two conditions. Conjunctions are kept flat.
pub open spec fn both(a: SpecCondition, b: SpecCondition) -> SpecCondition {
    match (a, b) {
        (SpecCondition::All(xs), SpecCondition::All(ys)) => SpecCondition::All(xs + ys),
        (SpecCondition::All(xs), _) => SpecCondition::All(xs.push(b)),
        (_, SpecCondition::All(ys)) => SpecCondition::All(seq![a] + ys),
        _ => SpecCondition::All(seq![a, b]),
    }
}

/// The disjunction of two conditions. Disjunctions are kept flat.
pub open spec fn either(a: SpecCondition, b: SpecCondition) -> SpecCondition {
    match (a, b) {
        (SpecCondition::Any(xs), SpecCondition::Any(ys)) => SpecCondition::Any(xs + ys),
        (SpecCondition::Any(xs), _) => SpecCondition::Any(xs.push(b)),
        (_, SpecCondition::Any(ys)) => SpecCondition::Any(seq![a] + ys),
        _ => SpecCondition::Any(seq![a, b]),
    }
}

proof fn lemma_all(cs: Seq<SpecCondition>, ctx: SpecContext)
    ensures
        holds(SpecCondition::All(cs), ctx) <==> forall|i: int|
            0 <= i < cs.len() ==> holds(#[trigger] cs[i], ctx),
{
    let c = SpecCondition::All(cs);
    assert(c->All_0 == cs);
    if !holds(c, ctx) {
        let i = choose|i: int| 0 <= i < c->All_0.len() && !holds(#[trigger] c->All_0[i], ctx);
        assert(!holds(cs[i], ctx));
    } else {
        assert forall|i: int| 0 <= i < cs.len() implies holds(#[trigger] cs[i], ctx) by {
            assert(c->All_0[i] == cs[i]);
        }
    }
}

proof fn lemma_any(cs: Seq<SpecCondition>, ctx: SpecContext)
    ensures
        holds(SpecCondition::Any(cs), ctx) <==> exists|i: int|
            0 <= i < cs.len() && holds(#[trigger] cs[i], ctx),
{
    let c = SpecCondition::Any(cs);
    assert(c->Any_0 == cs);
    if holds(c, ctx) {
        let i = choose|i: int| 0 <= i < c->Any_0.len() && holds(#[trigger] c->Any_0[i], ctx);
        assert(holds(cs[i], ctx));
    }
    if exists|i: int| 0 <= i < cs.len() && holds(#[trigger] cs[i], ctx) {
        let i = choose|i: int| 0 <= i < cs.len() && holds(#[trigger] cs[i], ctx);
        assert(c->Any_0[i] == cs[i]);
    }
}

/// The conjunction holds exactly where both conditions do.
pub proof fn law_both_holds(a: SpecCondition, b: SpecCondition, ctx: SpecContext)
    ensures
        holds(both(a, b), ctx) <==> holds(a, ctx) && holds(b, ctx),
{
    match (a, b) {
        (SpecCondition::All(xs), SpecCondition::All(ys)) => {
            let zs = xs + ys;
            lemma_all(xs, ctx);
            lemma_all(ys, ctx);
            lemma_all(zs, ctx);
            assert forall|i: int| 0 <= i < xs.len() implies zs[i] == #[trigger] xs[i] by {}
            assert forall|i: int| 0 <= i < ys.len() implies zs[xs.len() + i] == #[trigger] ys[i] by {}
            assert forall|i: int| 0 <= i < zs.len() implies #[trigger] zs[i] == (if i < xs.len() {
                xs[i]
            } else {
                ys[i - xs.len()]
            }) by {}
        },
        (SpecCondition::All(xs), _) => {
            let zs = xs.push(b);
            lemma_all(xs, ctx);
            lemma_all(zs, ctx);
            assert(zs[xs.len() as int] == b);
            assert forall|i: int| 0 <= i < xs.len() implies zs[i] == #[trigger] xs[i] by {}
        },
        (_, SpecCondition::All(ys)) => {
            let zs = seq![a] + ys;
            lemma_all(ys, ctx);
            lemma_all(zs, ctx);
            assert(zs[0] == a);
            assert forall|i: int| 0 <= i < ys.len() implies zs[1 + i] == #[trigger] ys[i] by {}
            assert forall|i: int| 0 < i < zs.len() implies #[trigger] zs[i] == ys[i - 1] by {}
        },
        _ => {
            let zs = seq![a, b];
            lemma_all(zs, ctx);
            assert(zs[0] == a && zs[1] == b);
        },
    }
}

/// The disjunction holds exactly where one of the conditions does.
pub proof fn law_either_holds(a: SpecCondition, b: SpecCondition, ctx: SpecContext)
    ensures
        holds(either(a, b), ctx) <==> holds(a, ctx) || holds(b, ctx),
{
    match (a, b) {
        (SpecCondition::Any(xs), SpecCondition::Any(ys)) => {
            let zs = xs + ys;
            lemma_any(xs, ctx);
            lemma_any(ys, ctx);
            lemma_any(zs, ctx);
            assert forall|i: int| 0 <= i < xs.len() implies zs[i] == #[trigger] xs[i] by {}
            assert forall|i: int| 0 <= i < ys.len() implies zs[xs.len() + i] == #[trigger] ys[i] by {}
            assert forall|i: int| 0 <= i < zs.len() implies #[trigger] zs[i] == (if i < xs.len() {
                xs[i]
            } else {
                ys[i - xs.len()]
            }) by {}
        },
        (SpecCondition::Any(xs), _) => {
            let zs = xs.push(b);
            lemma_any(xs, ctx);
            lemma_any(zs, ctx);
            assert(zs[xs.len() as int] == b);
            assert forall|i: int| 0 <= i < xs.len() implies zs[i] == #[trigger] xs[i] by {}
        },
        (_, SpecCondition::Any(ys)) => {
            let zs = seq![a] + ys;
            lemma_any(ys, ctx);
            lemma_any(zs, ctx);
            assert(zs[0] == a);
            assert forall|i: int| 0 <= i < ys.len() implies zs[1 + i] == #[trigger] ys[i] by {}
            assert forall|i: int| 0 < i < zs.len() implies #[trigger] zs[i] == ys[i - 1] by {}
        },
        _ => {
            let zs = seq![a, b];
            lemma_any(zs, ctx);
            assert(zs[0] == a && zs[1] == b);
        },
    }
}

fn starts_with(path: &Path, prefix: &Path) -> (out: bool)
    ensures
        out == (prefix@.len() <= path@.len() && path@.take(prefix@.len() as int) == prefix@),
{
    if path.0.len() < prefix.0.len() {
        return false;
    }
    for i in 0..prefix.0.len()
        invariant
            prefix@.len() <= path@.len(),
            forall|j: int| 0 <= j < i ==> path@[j] == prefix@[j],
    {
        if path.0[i].0 != prefix.0[i].0 {
            assert(path@.take(prefix@.len() as int)[i as int] != prefix@[i as int]);
            return false;
        }
    }
    assert(path@.take(prefix@.len() as int) =~= prefix@);
    true
}

impl BreakCondition {
    /// Halts at one node.
    pub fn at_node(id: NodeId) -> (out: Self)
        ensures
            out@ == SpecCondition::Node(id),
    {
        BreakCondition::Node(id)
    }

    /// Halts anywhere under a path.
    pub fn under_path(path: Path) -> (out: Self)
        ensures
            out@ == SpecCondition::PathPrefix(path@),
    {
        BreakCondition::PathPrefix(path)
    }

    /// Halts exactly at a path.
    pub fn at_path(path: Path) -> (out: Self)
        ensures
            out@ == SpecCondition::PathExact(path@),
    {
        BreakCondition::PathExact(path)
    }

    /// Halts at this depth and below.
    pub fn at_depth_at_least(n: u32) -> (out: Self)
        ensures
            out@ == SpecCondition::DepthAtLeast(n),
    {
        BreakCondition::DepthAtLeast(n)
    }

    /// Halts at this depth and above.
    pub fn at_depth_at_most(n: u32) -> (out: Self)
        ensures
            out@ == SpecCondition::DepthAtMost(n),
    {
        BreakCondition::DepthAtMost(n)
    }

    /// Halts exactly at this depth.
    pub fn at_depth(n: u32) -> (out: Self)
        ensures
            out@ == SpecCondition::DepthEquals(n),
    {
        BreakCondition::DepthEquals(n)
    }

    /// Halts at this iteration.
    pub fn at_iteration(n: u64) -> (out: Self)
        ensures
            out@ == SpecCondition::Iteration(n),
    {
        BreakCondition::Iteration(n)
    }

    /// Halts in this call frame.
    pub fn in_call_frame(frame: CallFrameId) -> (out: Self)
        ensures
            out@ == SpecCondition::CallFrame(frame),
    {
        BreakCondition::CallFrame(frame)
    }

    /// Logical AND.
    pub fn and(self, other: Self) -> (out: Self)
        ensures
            out@ == both(self@, other@),
    {
        match (self, other) {
            (BreakCondition::All(mut xs), BreakCondition::All(mut ys)) => {
                let ghost xv = conditions_view(xs@);
                let ghost yv = conditions_view(ys@);
                xs.append(&mut ys);
                assert(conditions_view(xs@) =~= xv + yv);
                BreakCondition::All(xs)
            },
            (BreakCondition::All(mut xs), other) => {
                let ghost xv = conditions_view(xs@);
                let ghost ov = other@;
                xs.push(other);
                assert(conditions_view(xs@) =~= xv.push(ov));
                BreakCondition::All(xs)
            },
            (this, BreakCondition::All(mut ys)) => {
                let ghost tv = this@;
                let ghost yv = conditions_view(ys@);
                ys.insert(0, this);
                assert(conditions_view(ys@) =~= seq![tv] + yv);
                BreakCondition::All(ys)
            },
            (this, other) => {
                let ghost tv = this@;
                let ghost ov = other@;
                let mut cs: Vec<BreakCondition> = Vec::new();
                cs.push(this);
                cs.push(other);
                assert(conditions_view(cs@) =~= seq![tv, ov]);
                BreakCondition::All(cs)
            },
        }
    }

    /// Logical OR.
    pub fn or(self, other: Self) -> (out: Self)
        ensures
            out@ == either(self@, other@),
    {
        match (self, other) {
            (BreakCondition::Any(mut xs), BreakCondition::Any(mut ys)) => {
                let ghost xv = conditions_view(xs@);
                let ghost yv = conditions_view(ys@);
                xs.append(&mut ys);
                assert(conditions_view(xs@) =~= xv + yv);
                BreakCondition::Any(xs)
            },
            (BreakCondition::Any(mut xs), other) => {
                let ghost xv = conditions_view(xs@);
                let ghost ov = other@;
                xs.push(other);
                assert(conditions_view(xs@) =~= xv.push(ov));
                BreakCondition::Any(xs)
            },
            (this, BreakCondition::Any(mut ys)) => {
                let ghost tv = this@;
                let ghost yv = conditions_view(ys@);
                ys.insert(0, this);
                assert(conditions_view(ys@) =~= seq![tv] + yv);
                BreakCondition::Any(ys)
            },
            (this, other) => {
                let ghost tv = this@;
                let ghost ov = other@;
                let mut cs: Vec<BreakCondition> = Vec::new();
                cs.push(this);
                cs.push(other);
                assert(conditions_view(cs@) =~= seq![tv, ov]);
                BreakCondition::Any(cs)
            },
        }
    }

    /// Evaluates the condition against a context.
    pub fn matches(&self, ctx: &NodeContext) -> (out: bool)
        ensures
            out == holds(self@, ctx@),
        decreases self,
    {
        match self {
            BreakCondition::Node(id) => ctx.node.0 == id.0,
            BreakCondition::PathPrefix(prefix) => starts_with(&ctx.path, prefix),
            BreakCondition::PathExact(path) => same_nodes(&ctx.path.0, &path.0),
            BreakCondition::DepthAtLeast(n) => ctx.depth >= *n,
            BreakCondition::DepthAtMost(n) => ctx.depth <= *n,
            BreakCondition::DepthEquals(n) => ctx.depth == *n,
            BreakCondition::Iteration(n) => match ctx.iteration {
                Some(it) => it.0 == *n,
                None => false,
            },
            BreakCondition::CallFrame(frame) => match ctx.frame {
                Some(f) => f.0 == frame.0,
                None => false,
            },
            BreakCondition::Any(cs) => {
                proof {
                    lemma_any(conditions_view(cs@), ctx@);
                }
                for i in 0..cs.len()
                    invariant
                        self matches BreakCondition::Any(xs) && xs == cs,
                        holds(self@, ctx@) <==> exists|j: int|
                            0 <= j < conditions_view(cs@).len() && holds(
                                #[trigger] conditions_view(cs@)[j],
                                ctx@,
                            ),
                        forall|j: int|
                            0 <= j < i ==> !holds(#[trigger] conditions_view(cs@)[j], ctx@),
                {
                    if cs[i].matches(ctx) {
                        assert(holds(conditions_view(cs@)[i as int], ctx@));
                        return true;
                    }
                }
                false
            },
            BreakCondition::All(cs) => {
                proof {
                    lemma_all(conditions_view(cs@), ctx@);
                }
                for i in 0..cs.len()
                    invariant
                        self matches BreakCondition::All(xs) && xs == cs,
                        holds(self@, ctx@) <==> forall|j: int|
                            0 <= j < conditions_view(cs@).len() ==> holds(
                                #[trigger] conditions_view(cs@)[j],
                                ctx@,
                            ),
                        forall|j: int|
                            0 <= j < i ==> holds(#[trigger] conditions_view(cs@)[j], ctx@),
                {
                    if !cs[i].matches(ctx) {
                        assert(!holds(conditions_view(cs@)[i as int], ctx@));
                        return false;
                    }
                }
                true
            },
            BreakCondition::Not(inner) => !inner.matches(ctx),
            BreakCondition::Always => true,
            BreakCondition::Never => false,
        }
    }
}

impl vstd::std_specs::ops::NotSpecImpl for BreakCondition {
    open spec fn obeys_not_spec() -> bool {
        true
    }

    open spec fn not_req(self) -> bool {
        true
    }

    open spec fn not_spec(self) -> BreakCondition {
        BreakCondition::Not(Box::new(self))
    }
}

impl std::ops::Not for BreakCondition {
    type Output = BreakCondition;

    /// Logical NOT: the negation holds exactly where the condition does not.
    fn not(self) -> (out: BreakCondition)
        ensures
            out@ == SpecCondition::Not(Box::new(self@)),
    {
        BreakCondition::Not(Box::new(self))
    }
}

/// A registry of breakpoint conditions and their assigned ids.
#[derive(Debug)]
pub struct BreakpointSet {
    next: u64,
    entries: Vec<(BreakpointId, BreakCondition)>,
}

/// The mathematical shape of a [`BreakpointSet`].
pub struct SpecBreakpoints {
    pub next: u64,
    pub entries: Seq<(BreakpointId, SpecCondition)>,
}

impl View for BreakpointSet {
    type V = SpecBreakpoints;

    closed spec fn view(&self) -> SpecBreakpoints {
        SpecBreakpoints {
            next: self.next,
            entries: Seq::new(
                self.entries@.len(),
                |i: int| (self.entries@[i].0, self.entries@[i].1@),
            ),
        }
    }
}

/// The entries that carry another id.
pub open spec fn entries_without(es: Seq<(BreakpointId, SpecCondition)>, id: BreakpointId) -> Seq<
    (BreakpointId, SpecCondition),
>
    decreases es.len(),
{
    if es.len() == 0 {
        Seq::empty()
    } else if es.last().0 == id {
        entries_without(es.drop_last(), id)
    } else {
        entries_without(es.drop_last(), id).push(es.last())
    }
}

/// The ids of the entries whose condition holds, in order.
pub open spec fn hits(es: Seq<(BreakpointId, SpecCondition)>, ctx: SpecContext) -> Seq<BreakpointId>
    decreases es.len(),
{
    if es.len() == 0 {
        Seq::empty()
    } else if holds(es.last().1, ctx) {
        hits(es.drop_last(), ctx).push(es.last().0)
    } else {
        hits(es.drop_last(), ctx)
    }
}

/// An id is hit exactly where an entry of that id holds.
pub proof fn lemma_hits(es: Seq<(BreakpointId, SpecCondition)>, ctx: SpecContext)
    ensures
        hits(es, ctx).len() > 0 <==> exists|i: int|
            0 <= i < es.len() && holds((#[trigger] es[i]).1, ctx),
    decreases es.len(),
{
    if es.len() > 0 {
        let init = es.drop_last();
        lemma_hits(init, ctx);
        if exists|i: int| 0 <= i < init.len() && holds((#[trigger] init[i]).1, ctx) {
            let i = choose|i: int| 0 <= i < init.len() && holds((#[trigger] init[i]).1, ctx);
            assert(es[i] == init[i]);
        }
        if holds(es.last().1, ctx) {
            assert(holds(es[es.len() - 1].1, ctx));
        }
        if exists|i: int| 0 <= i < es.len() && holds((#[trigger] es[i]).1, ctx) {
            let i = choose|i: int| 0 <= i < es.len() && holds((#[trigger] es[i]).1, ctx);
            if i < init.len() {
                assert(init[i] == es[i]);
            }
        }
    }
}

impl Default for BreakpointSet {
    fn default() -> (out: Self)
        ensures
            out@.next == 0,
            out@.entries == Seq::<(BreakpointId, SpecCondition)>::empty(),
    {
        let out = BreakpointSet { next: 0, entries: Vec::new() };
        assert(out@.entries =~= Seq::empty());
        out
    }
}

impl BreakpointSet {
    /// An empty set whose first id will be 1.
    pub fn new() -> (out: Self)
        ensures
            out@.next == 1,
            out@.entries == Seq::<(BreakpointId, SpecCondition)>::empty(),
    {
        let out = BreakpointSet { next: 1, entries: Vec::new() };
        assert(out@.entries =~= Seq::empty());
        out
    }

    /// Adds a condition and returns its assigned id.
    pub fn add(&mut self, condition: BreakCondition) -> (id: BreakpointId)
        ensures
            id == BreakpointId(old(self)@.next),
            final(self)@.next == successor(old(self)@.next),
            final(self)@.entries == old(self)@.entries.push((id, condition@)),
    {
        let ghost before = self@.entries;
        let id = BreakpointId(self.next);
        self.next = next_number(self.next);
        self.entries.push((id, condition));
        assert(self@.entries =~= before.push((id, condition@)));
        id
    }

    /// Removes an entry by id. Returns whether an entry was found.
    pub fn remove(&mut self, id: BreakpointId) -> (found: bool)
        ensures
            final(self)@.next == old(self)@.next,
            final(self)@.entries == entries_without(old(self)@.entries, id),
            found == (exists|i: int|
                0 <= i < old(self)@.entries.len() && (#[trigger] old(self)@.entries[i]).0 == id),
    {
        let ghost all = self@.entries;
        let mut entries: Vec<(BreakpointId, BreakCondition)> = Vec::new();
        std::mem::swap(&mut entries, &mut self.entries);
        let ghost moved = entries@;
        let mut found = false;
        assert(self@.entries =~= entries_without(all.take(0), id));
        let ghost n = moved.len();
        while entries.len() > 0
            invariant
                all.len() == n,
                n == moved.len(),
                forall|i: int| 0 <= i < n ==> #[trigger] all[i] == (moved[i].0, moved[i].1@),
                entries@.len() <= n,
                entries@ == moved.skip(n - entries@.len()),
                self@.next == old(self)@.next,
                self@.entries == entries_without(all.take(n - entries@.len()), id),
                found == (exists|i: int|
                    0 <= i < n - entries@.len() && (#[trigger] all[i]).0 == id),
            decreases entries.len(),
        {
            let ghost at = n - entries@.len();
            let ghost seen = found;
            let entry = entries.remove(0);
            proof {
                assert(entry == moved[at]);
                assert(entries@ =~= moved.skip(at + 1));
                assert(all.take(at + 1).drop_last() =~= all.take(at));
                assert(all.take(at + 1).last() == all[at]);
            }
            if entry.0.0 == id.0 {
                found = true;
                assert(all[at].0 == id);
            } else {
                let ghost before = self@.entries;
                self.entries.push(entry);
                assert(self@.entries =~= before.push(all[at]));
                proof {
                    if seen {
                        let i = choose|i: int| 0 <= i < at && (#[trigger] all[i]).0 == id;
                        assert(all[i].0 == id);
                    }
                }
            }
        }
        assert(all.take(n as int) =~= all);
        found
    }

    /// The ids of all entries whose condition holds in `ctx`, in order.
    pub fn matches(&self, ctx: &NodeContext) -> (out: Vec<BreakpointId>)
        ensures
            out@ == hits(self@.entries, ctx@),
    {
        let mut out: Vec<BreakpointId> = Vec::new();
        let ghost all = self@.entries;
        assert(out@ =~= hits(all.take(0), ctx@));
        for i in 0..self.entries.len()
            invariant
                all == self@.entries,
                out@ == hits(all.take(i as int), ctx@),
        {
            proof {
                assert(all.take(i + 1).drop_last() =~= all.take(i as int));
                assert(all.take(i + 1).last() == (
                    self.entries@[i as int].0,
                    self.entries@[i as int].1@,
                ));
            }
            if self.entries[i].1.matches(ctx) {
                out.push(self.entries[i].0);
            }
        }
        assert(all.take(all.len() as int) =~= all);
        out
    }

    /// Whether the set has no entries.
    pub fn is_empty(&self) -> (out: bool)
        ensures
            out == (self@.entries.len() == 0),
    {
        self.entries.len() == 0
    }

    /// Number of entries currently registered.
    pub fn len(&self) -> (out: usize)
        ensures
            out == self@.entries.len(),
    {
        self.entries.len()
    }

    /// The registered `(id, condition)` pairs, in order.
    pub fn iter<'a>(&'a self) -> (out: Vec<(BreakpointId, &'a BreakCondition)>)
        ensures
            out@.len() == self@.entries.len(),
            forall|i: int|
                0 <= i < out@.len() ==> ((#[trigger] out@[i]).0, out@[i].1@) == self@.entries[i],
    {
        let mut out: Vec<(BreakpointId, &'a BreakCondition)> = Vec::new();
        for i in 0..self.entries.len()
            invariant
                out@.len() == i,
                forall|j: int|
                    0 <= j < i ==> ((#[trigger] out@[j]).0, out@[j].1@) == self@.entries[j],
        {
            out.push((self.entries[i].0, &self.entries[i].1));
        }
        out
    }
}

/// A removed breakpoint no longer hits anything, and every other one hits as
/// before.
pub proof fn law_removed_breakpoint_is_gone(
    es: Seq<(BreakpointId, SpecCondition)>,
    id: BreakpointId,
    ctx: SpecContext,
)
    ensures
        !hits(entries_without(es, id), ctx).contains(id),
        forall|other: BreakpointId|
            other != id ==> (#[trigger] hits(entries_without(es, id), ctx).contains(other) <==> hits(
                es,
                ctx,
            ).contains(other)),
    decreases es.len(),
{
    if es.len() > 0 {
        let init = es.drop_last();
        law_removed_breakpoint_is_gone(init, id, ctx);
        let kept = entries_without(init, id);
        let a = hits(kept, ctx);
        let b = hits(init, ctx);
        let last = es.last();
        if last.0 != id {
            assert(kept.push(last).drop_last() =~= kept);
        }
        assert forall|other: BreakpointId| other != id implies (#[trigger] hits(
            entries_without(es, id),
            ctx,
        ).contains(other) <==> hits(es, ctx).contains(other)) by {
            lemma_push_contains(a, last.0, other);
            lemma_push_contains(b, last.0, other);
            assert(a.contains(other) <==> b.contains(other));
        }
        lemma_push_contains(a, last.0, id);
    }
}

proof fn lemma_push_contains(s: Seq<BreakpointId>, x: BreakpointId, y: BreakpointId)
    ensures
        s.push(x).contains(y) <==> (s.contains(y) || x == y),
{
    if s.contains(y) {
        let i = choose|i: int| 0 <= i < s.len() && s[i] == y;
        assert(s.push(x)[i] == y);
    }
    if x == y {
        assert(s.push(x)[s.len() as int] == y);
    }
}

} // verus!
