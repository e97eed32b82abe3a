//! What a driver, a debugger and a host see of an engine.
use vstd::prelude::*;

use crate::breakpoint::SpecCondition;
use crate::engine::ast::{Ast, SpecExecError, SpecKind};
use crate::engine::drive::{
    collected_notices, driven, drops, next_action, SpecDrive, SpecNextCall, SpecNote,
};
use crate::engine::laws::{law_construction_checks_every_node, reachable, sids};
use crate::engine::live::{
    all_suspensions, awaits, collected, first_true, lemma_first_true_range, suspensions, waits,
    SpecLive,
};
use crate::engine::project::{all_shown, shown};
use crate::engine::settle::settled;
use crate::engine::spawn::started;
use crate::engine::step::{
    bp_stepped, live_pending, ran, resolved, yielded, SpecEngine, SpecMove, MOVE_LIMIT,
};
use crate::engine::validate::{fault, surveyed};
use crate::engine::winners::value_in;
use crate::engine::world::SpecWorld;
use crate::error::SpecEngineError;
use crate::event::{counted_up, CountingSink, SpecPending};
use crate::frame::{SpecFrame, SpecFrameTree, SpecOutcome};
use crate::ids::{BreakpointId, NodeId, SuspensionId};
use crate::join::{JoinShape, ReducerRegistry};

verus! {

/// A driver answers the first call that waits, as long as nothing but calls
/// does; otherwise it hands all that waits back, and it fails only where
/// nothing waits at all.
pub proof fn law_a_driver_answers_the_first_call<E>(root: NodeId, live: Seq<SpecPending>)
    ensures
        match next_action::<E>(root, live) {
            Ok(SpecNextCall::Resolve(p)) => live.len() > 0 && p == live[0] && forall|i: int|
                0 <= i < live.len() ==> (#[trigger] live[i]).reason is Call,
            Ok(SpecNextCall::Break(at)) => at == live && exists|i: int|
                0 <= i < live.len() && !((#[trigger] live[i]).reason is Call),
            Err(_) => live.len() == 0,
        },
{
}

/// The questions among what a backend was told.
pub open spec fn questions<V, E>(notes: Seq<SpecNote<V, E>>) -> Seq<(SpecPending, Result<V, E>)>
    decreases notes.len(),
{
    if notes.len() == 0 {
        Seq::empty()
    } else {
        match notes.last() {
            SpecNote::Asked { pending, reply } => questions(notes.drop_last()).push(
                (pending, reply),
            ),
            SpecNote::Dropped { .. } => questions(notes.drop_last()),
        }
    }
}

proof fn lemma_questions_sum<V, E>(a: Seq<SpecNote<V, E>>, b: Seq<SpecNote<V, E>>)
    ensures
        questions(a + b) == questions(a) + questions(b),
    decreases b.len(),
{
    if b.len() == 0 {
        assert(a + b =~= a);
        assert(questions(a) + questions(b) =~= questions(a));
    } else {
        assert((a + b).drop_last() =~= a + b.drop_last());
        lemma_questions_sum(a, b.drop_last());
        assert(questions(a + b) =~= questions(a) + questions(b));
    }
}

proof fn lemma_no_questions<V, E>(sids: Seq<SuspensionId>)
    ensures
        questions(drops::<V, E>(sids)) == Seq::<(SpecPending, Result<V, E>)>::empty(),
    decreases sids.len(),
{
    if sids.len() > 0 {
        assert(drops::<V, E>(sids).drop_last() =~= drops::<V, E>(sids.drop_last()));
        lemma_no_questions::<V, E>(sids.drop_last());
    }
}

proof fn lemma_yield_is_done<A: Ast>(
    ast: A,
    registry: ReducerRegistry<A::Value, A::Delta, A::EffectError>,
    e: SpecEngine<A::Value, A::EffectError>,
    entries: Seq<(BreakpointId, SpecCondition)>,
    fuel: nat,
)
    ensures
        ({
            let (e1, out) = yielded(ast, registry, e, entries, fuel);
            &&& out matches Ok(SpecOutcome::Done(v)) ==> e1.done && e1.result == Some(v)
            &&& out matches Err(SpecExecError::Effect(_)) ==> e1.done
        }),
    decreases fuel,
{
    let from = SpecEngine { halt: None, ..e };
    let skip = crate::engine::step::resumes(ast, e);
    if !e.done && !(e.root matches Some(SpecLive::Value { .. })) {
        lemma_run_is_done(ast, registry, from, Some(entries), skip, MOVE_LIMIT as nat);
    }
    let (e1, out) = bp_stepped(ast, registry, e, entries);
    if fuel > 0 && out == Ok::<SpecOutcome<A::Value>, SpecExecError<A::EffectError>>(
        SpecOutcome::Ready,
    ) {
        lemma_yield_is_done(ast, registry, e1, entries, (fuel - 1) as nat);
    }
}

proof fn lemma_run_is_done<A: Ast>(
    ast: A,
    registry: ReducerRegistry<A::Value, A::Delta, A::EffectError>,
    e: SpecEngine<A::Value, A::EffectError>,
    bps: Option<Seq<(BreakpointId, SpecCondition)>>,
    skip: bool,
    fuel: nat,
)
    ensures
        ({
            let (e1, out) = ran(ast, registry, e, bps, skip, fuel);
            &&& out matches Ok(SpecOutcome::Done(v)) ==> e1.done && e1.result == Some(v)
            &&& out matches Err(SpecExecError::Effect(_)) ==> e1.done
        }),
    decreases fuel,
{
    if let SpecMove::Moved(t, w) = crate::engine::step::next_move(
        ast,
        registry,
        e.root,
        e.world,
    ) {
        if fuel > 0 {
            let e1 = SpecEngine { root: Some(t), world: w, ..e };
            lemma_run_is_done(ast, registry, e1, bps, false, (fuel - 1) as nat);
        }
    }
}

/// Whether each of the questions asked for a call, and the replies were those
/// given, in their order.
pub open spec fn asked_in_order<V, E>(
    qs: Seq<(SpecPending, Result<V, E>)>,
    replies: Seq<Result<V, E>>,
) -> bool {
    qs.len() == replies.len() && forall|i: int|
        0 <= i < qs.len() ==> (#[trigger] qs[i]).0.reason is Call && qs[i].1 == replies[i]
}

/// However the host answers, a drive asks for calls only, once for each answer
/// and in their order. It ends with the value of an engine that is done, with
/// the failure of one that is over, or, handing back all that waits, at
/// something that is no call; and whatever was cancelled on the way has been
/// collected.
pub proof fn law_a_drive_asks_once_for_each_answer<A: Ast>(
    ast: A,
    registry: ReducerRegistry<A::Value, A::Delta, A::EffectError>,
    e: SpecEngine<A::Value, A::EffectError>,
    entries: Seq<(BreakpointId, SpecCondition)>,
    replies: Seq<Result<A::Value, A::EffectError>>,
    fuel: nat,
)
    ensures
        driven(ast, registry, e, entries, replies, fuel) matches Some(d) ==> {
            &&& asked_in_order(questions(d.notes), replies)
            &&& d.engine.world.cancelled.len() == 0
            &&& match d.out {
                Ok(SpecDrive::Done(v)) => d.engine.done && d.engine.result == Some(v),
                Ok(SpecDrive::Break { at }) => at == live_pending(d.engine) && exists|i: int|
                    0 <= i < at.len() && !((#[trigger] at[i]).reason is Call),
                Err(SpecExecError::Effect(_)) => d.engine.done,
                Err(SpecExecError::Engine(_)) => true,
            }
        },
    decreases fuel,
{
    let (e1, out) = yielded(ast, registry, e, entries, MOVE_LIMIT as nat);
    let e2 = collected_notices(e1);
    let gone = drops(e1.world.cancelled);
    lemma_yield_is_done(ast, registry, e, entries, MOVE_LIMIT as nat);
    lemma_no_questions::<A::Value, A::EffectError>(e1.world.cancelled);
    if let Ok(SpecOutcome::Blocked { .. }) = out {
        law_a_driver_answers_the_first_call::<A::EffectError>(ast.root_spec(), live_pending(e2));
        if let Ok(SpecNextCall::Resolve(p)) = next_action::<A::EffectError>(
            ast.root_spec(),
            live_pending(e2),
        ) {
            if replies.len() > 0 {
                let asked = gone.push(SpecNote::Asked { pending: p, reply: replies[0] });
                assert(asked.drop_last() =~= gone);
                assert(questions(asked) =~= seq![(p, replies[0])]);
                if let Some(t) = e2.root {
                    if awaits(t, p.id) {
                        let settled_ = resolved(e2, t, p.id, replies[0]);
                        let e3 = collected_notices(settled_);
                        let more = drops(settled_.world.cancelled);
                        let told = asked + more;
                        lemma_no_questions::<A::Value, A::EffectError>(
                            settled_.world.cancelled,
                        );
                        lemma_questions_sum(asked, more);
                        assert(questions(told) =~= seq![(p, replies[0])]);
                        if fuel > 0 {
                            let rest = replies.drop_first();
                            law_a_drive_asks_once_for_each_answer(
                                ast,
                                registry,
                                e3,
                                entries,
                                rest,
                                (fuel - 1) as nat,
                            );
                            if let Some(d) = driven(
                                ast,
                                registry,
                                e3,
                                entries,
                                rest,
                                (fuel - 1) as nat,
                            ) {
                                lemma_questions_sum(told, d.notes);
                                let qs = questions(told + d.notes);
                                assert forall|i: int| 0 <= i < qs.len() implies (
                                #[trigger] qs[i]).0.reason is Call && qs[i].1 == replies[i] by {
                                    if i > 0 {
                                        assert(qs[i] == questions(d.notes)[i - 1]);
                                        assert(rest[i - 1] == replies[i]);
                                    }
                                }
                            }
                        }
                    }
                }
            }
        }
    }
}

/// The suspensions that a frame tree shows, depth first.
pub open spec fn shown_waiting<V, C, D, EE>(t: SpecFrameTree<V, C, D, EE>) -> Seq<SuspensionId>
    decreases t, 0int,
{
    (match t.root {
        SpecFrame::PendingEffect { id } => seq![id],
        _ => Seq::empty(),
    }) + all_shown_waiting(t.kids, t.kids.len())
}

/// The suspensions that the first `n` frame trees show.
pub open spec fn all_shown_waiting<V, C, D, EE>(
    ts: Seq<SpecFrameTree<V, C, D, EE>>,
    n: nat,
) -> Seq<SuspensionId>
    decreases ts, n,
{
    if n == 0 || n > ts.len() {
        Seq::empty()
    } else {
        all_shown_waiting(ts, (n - 1) as nat) + shown_waiting(ts[n - 1])
    }
}

/// A frame tree shows exactly the suspensions that wait, in the order in which
/// they are listed.
pub proof fn law_a_frame_tree_shows_what_waits<A: Ast>(
    registry: ReducerRegistry<A::Value, A::Delta, A::EffectError>,
    t: SpecLive<A::Value, A::EffectError>,
)
    ensures
        shown_waiting(shown::<A>(registry, t)) == sids(suspensions(t)),
    decreases t, 0int,
{
    let tree = shown::<A>(registry, t);
    match t {
        SpecLive::Steps { current: Some(c), .. } => {
            law_a_frame_tree_shows_what_waits::<A>(registry, *c);
            lemma_one_kid(tree, shown::<A>(registry, *c));
        },
        SpecLive::Scope { body: Some(b), .. } => {
            law_a_frame_tree_shows_what_waits::<A>(registry, *b);
            lemma_one_kid(tree, shown::<A>(registry, *b));
        },
        SpecLive::Fan { kids, .. } => {
            lemma_kids_shown::<A>(registry, kids, kids.len());
            assert(shown_waiting(tree) =~= sids(suspensions(t)));
        },
        _ => {
            assert(all_shown_waiting(tree.kids, 0) =~= Seq::empty());
            assert(shown_waiting(tree) =~= sids(suspensions(t)));
        },
    }
}

proof fn lemma_one_kid<V, C, D, EE>(
    t: SpecFrameTree<V, C, D, EE>,
    kid: SpecFrameTree<V, C, D, EE>,
)
    requires
        t.kids == seq![kid],
        !(t.root is PendingEffect),
    ensures
        shown_waiting(t) == shown_waiting(kid),
{
    assert(t.kids[0] == kid);
    assert(all_shown_waiting(t.kids, 0) =~= Seq::empty());
    assert(all_shown_waiting(t.kids, 1) =~= shown_waiting(kid));
    assert(shown_waiting(t) =~= shown_waiting(kid));
}

proof fn lemma_kids_shown<A: Ast>(
    registry: ReducerRegistry<A::Value, A::Delta, A::EffectError>,
    ts: Seq<SpecLive<A::Value, A::EffectError>>,
    n: nat,
)
    requires
        n <= ts.len(),
    ensures
        all_shown_waiting(all_shown::<A>(registry, ts), n) == sids(all_suspensions(ts, n)),
    decreases ts, n,
{
    if n > 0 {
        lemma_kids_shown::<A>(registry, ts, (n - 1) as nat);
        law_a_frame_tree_shows_what_waits::<A>(registry, ts[n - 1]);
        assert(sids(all_suspensions(ts, n)) =~= sids(all_suspensions(ts, (n - 1) as nat)) + sids(
            suspensions(ts[n - 1]),
        ));
    } else {
        assert(all_shown_waiting(all_shown::<A>(registry, ts), n) =~= sids(
            all_suspensions(ts, n),
        ));
    }
}

/// A frame tree has, below a fan-out, one tree for each child that has started,
/// in order; below a sequence or section, that of what runs there. A running
/// fan-out shows a slot for each declared child with its value, its collected
/// failure or neither, and the order in which children completed; a value
/// shows itself.
pub proof fn law_a_frame_tree_has_the_shape_of_the_frames<A: Ast>(
    registry: ReducerRegistry<A::Value, A::Delta, A::EffectError>,
    t: SpecLive<A::Value, A::EffectError>,
    i: int,
)
    ensures
        match t {
            SpecLive::Fan { policy, reducer, ids, kids, order, .. } => {
                &&& shown::<A>(registry, t).kids.len() == kids.len()
                &&& 0 <= i < kids.len() ==> shown::<A>(registry, t).kids[i] == shown::<A>(
                    registry,
                    kids[i],
                )
                &&& registry.resolved(reducer, policy.fail) is Some ==> (shown::<A>(
                    registry,
                    t,
                ).root matches SpecFrame::Par(f) && f.policy == policy && f.slots.len()
                    == ids.len() && f.failures.len() == ids.len() && f.completion_order == order
                    && f.reducer_id == reducer && !f.joined && (0 <= i < kids.len() && i
                    < ids.len() ==> f.slots[i] == value_in(kids[i]) && f.failures[i]
                    == collected(kids[i])) && (kids.len() <= i < ids.len() ==> f.slots[i] is None
                    && f.failures[i] is None))
            },
            SpecLive::Steps { node, current, .. } => (shown::<A>(
                registry,
                t,
            ).root matches SpecFrame::Node { node: n, .. } && n == node) && match current {
                Some(c) => shown::<A>(registry, t).kids == seq![shown::<A>(registry, *c)],
                None => shown::<A>(registry, t).kids.len() == 0,
            },
            SpecLive::Scope { label, body, .. } => (shown::<A>(
                registry,
                t,
            ).root matches SpecFrame::Scope { label: l, .. } && l == label) && match body {
                Some(b) => shown::<A>(registry, t).kids == seq![shown::<A>(registry, *b)],
                None => shown::<A>(registry, t).kids.len() == 0,
            },
            SpecLive::Value { value, .. } => shown::<A>(registry, t).root
                == SpecFrame::<A::Value, A::Cursor, A::Delta, A::EffectError>::Value(value)
                && shown::<A>(registry, t).kids.len() == 0,
            SpecLive::Pending { sid, .. } => shown::<A>(registry, t).root == SpecFrame::<
                A::Value,
                A::Cursor,
                A::Delta,
                A::EffectError,
            >::PendingEffect { id: sid } && shown::<A>(registry, t).kids.len() == 0,
            SpecLive::Cancelled { reason, .. } => shown::<A>(registry, t).root == SpecFrame::<
                A::Value,
                A::Cursor,
                A::Delta,
                A::EffectError,
            >::Cancelled { reason } && shown::<A>(registry, t).kids.len() == 0,
            _ => shown::<A>(registry, t).kids.len() == 0,
        },
{
    if let SpecLive::Fan { policy, reducer, ids, kids, order, .. } = t {
        let tree = shown::<A>(registry, t);
        assert(tree.kids == all_shown::<A>(registry, kids));
        if registry.resolved(reducer, policy.fail) is Some {
            let f = tree.root->Par_0;
            if 0 <= i < kids.len() && i < ids.len() {
                assert(f.slots[i] == crate::engine::fire::slot(kids[i]));
            }
        }
    }
}

/// Whether a node is a fan-out that cannot be joined: an `Any` of nothing, more
/// winners than children, or a reducer that is not registered for how it
/// handles failures.
pub open spec fn cannot_join<A: Ast>(
    ast: A,
    registry: ReducerRegistry<A::Value, A::Delta, A::EffectError>,
    id: NodeId,
) -> bool {
    ast.kind_spec(id) matches SpecKind::Par { children, policy, reducer_id } && (match policy.shape {
        JoinShape::All => false,
        JoinShape::Any => children.len() == 0,
        JoinShape::FirstK(k) => children.len() < k,
    } || registry.resolved(reducer_id, policy.fail) is None)
}

/// A tree is accepted only if every fan-out in it can be joined, and refused
/// only for one that cannot.
pub proof fn law_trees_are_refused_for_fan_outs_that_cannot_join<A: Ast>(
    ast: A,
    registry: ReducerRegistry<A::Value, A::Delta, A::EffectError>,
    id: NodeId,
    e: SpecEngineError,
)
    ensures
        surveyed(ast, registry, None) && reachable(ast, id) ==> !cannot_join(ast, registry, id),
        surveyed(ast, registry, Some(e)) ==> exists|bad: NodeId| #[trigger]
            reachable(ast, bad) && cannot_join(ast, registry, bad) && match e {
                SpecEngineError::Malformed { at, .. } => at.node == bad,
                SpecEngineError::UnknownReducer { id: name } => ast.kind_spec(
                    bad,
                ) matches SpecKind::Par { reducer_id, .. } && reducer_id == name,
                _ => false,
            },
{
    law_construction_checks_every_node(ast, registry, id, e);
    if surveyed(ast, registry, Some(e)) {
        let bad = choose|bad: NodeId| #[trigger] reachable(ast, bad) && fault(ast, registry, bad)
            == Some(e);
        assert(cannot_join(ast, registry, bad));
    }
}

/// What an answer counts: a resumption, a frame left and a visit closed where
/// it is a value; where it is a failure, a frame left and nothing else.
pub proof fn law_answers_are_counted<V, E>(
    t: SpecLive<V, E>,
    id: SuspensionId,
    answer: Result<V, E>,
    w: SpecWorld,
)
    requires
        awaits(t, id),
    ensures
        settled(t, id, answer, w).1.counts == match answer {
            Ok(_) => CountingSink {
                resume: counted_up(w.counts.resume),
                frame_leave: counted_up(w.counts.frame_leave),
                visit_post: counted_up(w.counts.visit_post),
                ..w.counts
            },
            Err(_) => CountingSink { frame_leave: counted_up(w.counts.frame_leave), ..w.counts },
        },
    decreases t,
{
    match t {
        SpecLive::Steps { current: Some(c), .. } => law_answers_are_counted(*c, id, answer, w),
        SpecLive::Fan { kids, .. } => {
            let i = first_true(waits(kids, id));
            lemma_first_true_range(waits(kids, id));
            assert(waits(kids, id)[i]);
            law_answers_are_counted(kids[i], id, answer, w);
        },
        SpecLive::Scope { body: Some(b), .. } => law_answers_are_counted(*b, id, answer, w),
        _ => {},
    }
}

/// What a start counts: a visit, and for a call a frame and a suspension too,
/// which the next report lists.
pub proof fn law_starts_are_counted<A: Ast>(
    ast: A,
    id: NodeId,
    path: Seq<NodeId>,
    w: SpecWorld,
)
    ensures
        ({
            let (t, w1) = started(ast, id, path, w);
            if ast.kind_spec(id) is Call {
                &&& w1.counts == CountingSink {
                    visit_pre: counted_up(w.counts.visit_pre),
                    frame_enter: counted_up(w.counts.frame_enter),
                    suspend: counted_up(w.counts.suspend),
                    ..w.counts
                }
                &&& w1.newly.len() == w.newly.len() + 1
                &&& w1.newly.take(w.newly.len() as int) == w.newly
                &&& suspensions(t) == seq![w1.newly[w.newly.len() as int]]
                &&& suspensions(t)[0].at.node == id
                &&& suspensions(t)[0].at.path == path
            } else {
                &&& w1.counts == CountingSink {
                    visit_pre: counted_up(w.counts.visit_pre),
                    ..w.counts
                }
                &&& w1.newly == w.newly
            }
        }),
{
    let (t, w1) = started(ast, id, path, w);
    if ast.kind_spec(id) is Call {
        assert(w1.newly.take(w.newly.len() as int) =~= w.newly);
        assert(suspensions(t) =~= seq![w1.newly[w.newly.len() as int]]);
    }
}

} // verus!
