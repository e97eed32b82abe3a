//! What conditions mean, and what a set of them hits.
use vstd::prelude::*;

use crate::breakpoint::{
    both, either, entries_without, hits, holds, law_both_holds, law_either_holds, SpecCondition,
};
use crate::context::SpecContext;
use crate::ids::{BreakpointId, CallFrameId, Iteration, NodeId};
use crate::picking::{lemma_made_of_more, lemma_made_of_none, lemma_made_of_same, made_of};

verus! {

/// Each simple condition holds exactly where the context has what it names.
pub proof fn law_conditions_look_at_the_context(
    ctx: SpecContext,
    node: NodeId,
    path: Seq<NodeId>,
    depth: u32,
    round: u64,
    frame: CallFrameId,
)
    ensures
        holds(SpecCondition::Node(node), ctx) <==> ctx.node == node,
        holds(SpecCondition::PathExact(path), ctx) <==> ctx.path == path,
        holds(SpecCondition::PathPrefix(path), ctx) <==> exists|rest: Seq<NodeId>|
            ctx.path == #[trigger] (path + rest),
        holds(SpecCondition::DepthAtLeast(depth), ctx) <==> !(ctx.depth < depth),
        holds(SpecCondition::DepthAtMost(depth), ctx) <==> !(depth < ctx.depth),
        holds(SpecCondition::DepthEquals(depth), ctx) <==> holds(
            SpecCondition::DepthAtLeast(depth),
            ctx,
        ) && holds(SpecCondition::DepthAtMost(depth), ctx),
        holds(SpecCondition::Iteration(round), ctx) <==> (ctx.iteration matches Some(i) && i.0
            == round),
        holds(SpecCondition::CallFrame(frame), ctx) <==> (ctx.frame matches Some(f) && f == frame),
        holds(SpecCondition::Always, ctx),
        !holds(SpecCondition::Never, ctx),
{
    if holds(SpecCondition::PathPrefix(path), ctx) {
        let rest = ctx.path.skip(path.len() as int);
        assert(ctx.path =~= path + rest);
    }
    if exists|rest: Seq<NodeId>| ctx.path == #[trigger] (path + rest) {
        let rest = choose|rest: Seq<NodeId>| ctx.path == #[trigger] (path + rest);
        assert(ctx.path.take(path.len() as int) =~= path);
    }
}

/// Where a condition looks at the path, the root is under the empty path and
/// whatever is under a path is under all paths that lead there.
pub proof fn law_longer_prefixes_are_narrower(
    ctx: SpecContext,
    path: Seq<NodeId>,
    more: Seq<NodeId>,
)
    ensures
        holds(SpecCondition::PathPrefix(Seq::empty()), ctx),
        holds(SpecCondition::PathPrefix(path + more), ctx) ==> holds(
            SpecCondition::PathPrefix(path),
            ctx,
        ),
        holds(SpecCondition::PathExact(path), ctx) ==> holds(SpecCondition::PathPrefix(path), ctx),
{
    assert(ctx.path.take(0) =~= Seq::empty());
    if holds(SpecCondition::PathPrefix(path + more), ctx) {
        assert(ctx.path.take(path.len() as int) =~= path) by {
            let whole = path + more;
            assert forall|i: int| 0 <= i < path.len() implies ctx.path[i] == path[i] by {
                assert(ctx.path.take(whole.len() as int)[i] == whole[i]);
            }
        }
    }
    assert(path.take(path.len() as int) =~= path);
}

/// Negation swaps the two ways to combine conditions.
pub proof fn law_negation_swaps_both_and_either(
    a: SpecCondition,
    b: SpecCondition,
    ctx: SpecContext,
)
    ensures
        holds(SpecCondition::Not(Box::new(a)), ctx) <==> !holds(a, ctx),
        holds(SpecCondition::Not(Box::new(both(a, b))), ctx) <==> holds(
            either(SpecCondition::Not(Box::new(a)), SpecCondition::Not(Box::new(b))),
            ctx,
        ),
        holds(SpecCondition::Not(Box::new(either(a, b))), ctx) <==> holds(
            both(SpecCondition::Not(Box::new(a)), SpecCondition::Not(Box::new(b))),
            ctx,
        ),
{
    let na = SpecCondition::Not(Box::new(a));
    let nb = SpecCondition::Not(Box::new(b));
    law_both_holds(a, b, ctx);
    law_either_holds(a, b, ctx);
    law_both_holds(na, nb, ctx);
    law_either_holds(na, nb, ctx);
    assert(holds(na, ctx) <==> !holds(a, ctx));
    assert(holds(nb, ctx) <==> !holds(b, ctx));
    assert(holds(SpecCondition::Not(Box::new(both(a, b))), ctx) <==> !holds(both(a, b), ctx));
    assert(holds(SpecCondition::Not(Box::new(either(a, b))), ctx) <==> !holds(either(a, b), ctx));
}

/// A list of conditions holds as a whole where each does, and as a choice
/// where one does.
pub proof fn law_lists_of_conditions(cs: Seq<SpecCondition>, ctx: SpecContext, i: int)
    ensures
        0 <= i < cs.len() && holds(SpecCondition::All(cs), ctx) ==> holds(cs[i], ctx),
        0 <= i < cs.len() && holds(cs[i], ctx) ==> holds(SpecCondition::Any(cs), ctx),
        holds(SpecCondition::Any(Seq::empty()), ctx) <==> holds(SpecCondition::Never, ctx),
        holds(SpecCondition::All(Seq::empty()), ctx) <==> holds(SpecCondition::Always, ctx),
        (forall|k: int| 0 <= k < cs.len() ==> holds(#[trigger] cs[k], ctx)) ==> holds(
            SpecCondition::All(cs),
            ctx,
        ),
        (forall|k: int| 0 <= k < cs.len() ==> !holds(#[trigger] cs[k], ctx)) ==> !holds(
            SpecCondition::Any(cs),
            ctx,
        ),
{
    let all = SpecCondition::All(cs);
    let any = SpecCondition::Any(cs);
    if 0 <= i < cs.len() {
        assert(all->All_0[i] == cs[i]);
        assert(any->Any_0[i] == cs[i]);
    }
    if forall|k: int| 0 <= k < cs.len() ==> holds(#[trigger] cs[k], ctx) {
        assert forall|k: int| 0 <= k < all->All_0.len() implies holds(
            #[trigger] all->All_0[k],
            ctx,
        ) by {
            assert(all->All_0[k] == cs[k]);
        }
    }
    if forall|k: int| 0 <= k < cs.len() ==> !holds(#[trigger] cs[k], ctx) {
        assert forall|k: int| 0 <= k < any->Any_0.len() implies !holds(
            #[trigger] any->Any_0[k],
            ctx,
        ) by {
            assert(any->Any_0[k] == cs[k]);
        }
    }
}

/// The breakpoints that are hit are those whose condition holds, all of them,
/// in the order they were added.
pub proof fn law_hits_are_those_that_hold(
    es: Seq<(BreakpointId, SpecCondition)>,
    ctx: SpecContext,
)
    ensures
        made_of(
            hits(es, ctx),
            es,
            es.len() as int,
            |e: (BreakpointId, SpecCondition)| holds(e.1, ctx),
            |e: (BreakpointId, SpecCondition)| e.0,
        ),
    decreases es.len(),
{
    let p = |e: (BreakpointId, SpecCondition)| holds(e.1, ctx);
    let f = |e: (BreakpointId, SpecCondition)| e.0;
    if es.len() == 0 {
        lemma_made_of_none(es, p, f);
    } else {
        let init = es.drop_last();
        law_hits_are_those_that_hold(init, ctx);
        lemma_made_of_same(hits(init, ctx), init, es, es.len() - 1, p, f);
        lemma_made_of_more(hits(init, ctx), es, es.len() - 1, p, f);
    }
}

/// Removing a breakpoint keeps all others, in their order.
pub proof fn law_removal_keeps_the_others(
    es: Seq<(BreakpointId, SpecCondition)>,
    id: BreakpointId,
)
    ensures
        made_of(
            entries_without(es, id),
            es,
            es.len() as int,
            |e: (BreakpointId, SpecCondition)| e.0 != id,
            |e: (BreakpointId, SpecCondition)| e,
        ),
    decreases es.len(),
{
    let p = |e: (BreakpointId, SpecCondition)| e.0 != id;
    let f = |e: (BreakpointId, SpecCondition)| e;
    if es.len() == 0 {
        lemma_made_of_none(es, p, f);
    } else {
        let init = es.drop_last();
        law_removal_keeps_the_others(init, id);
        lemma_made_of_same(entries_without(init, id), init, es, es.len() - 1, p, f);
        lemma_made_of_more(entries_without(init, id), es, es.len() - 1, p, f);
    }
}

} // verus!
