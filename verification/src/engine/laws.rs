//! What holds of every interpretation.
use vstd::prelude::*;

use crate::breakpoint::SpecCondition;
use crate::engine::advance::advanced;
use crate::engine::ast::{Ast, SpecExecError, SpecKind};
use crate::engine::cancel::{
    cancel_others, cancel_world, cancel_worlds, cancelled, caught, failed_up, failure,
};
use crate::engine::fire::fired;
use crate::engine::live::{
    advances, all_suspensions, awaits, catches, fails, fires, first_true, gaps, joins,
    lemma_first_true_range, moves, node_of, suspensions, waits, SpecLive,
};
use crate::engine::settle::{settled, taken};
use crate::engine::spawn::{filled, spawned, started};
use crate::engine::step::{
    fresh_engine, next_move, ran, resolved, stepped, stops_at, SpecEngine, SpecMove,
};
use crate::engine::validate::{below, fault, par_fault, survey, surveyed};
use crate::engine::world::{told, SpecWorld};
use crate::error::SpecEngineError;
use crate::event::{SpecEvent, SpecPending};
use crate::frame::{CancelReason, SpecOutcome};
use crate::ids::{BreakpointId, NodeId, SuspensionId};
use crate::join::{FailPolicy, ReducerRegistry};

verus! {

/// The identifiers of a list of suspensions.
pub open spec fn sids(ps: Seq<SpecPending>) -> Seq<SuspensionId> {
    Seq::new(ps.len(), |i: int| ps[i].id)
}

/// Whether a list of suspensions holds an identifier.
pub open spec fn lists(ps: Seq<SpecPending>, id: SuspensionId) -> bool {
    exists|i: int| 0 <= i < ps.len() && (#[trigger] ps[i]).id == id
}

proof fn lemma_lists_sum(a: Seq<SpecPending>, b: Seq<SpecPending>, id: SuspensionId)
    ensures
        lists(a + b, id) == (lists(a, id) || lists(b, id)),
{
    let ab = a + b;
    if lists(a, id) {
        let i = choose|i: int| 0 <= i < a.len() && (#[trigger] a[i]).id == id;
        assert(ab[i] == a[i]);
    }
    if lists(b, id) {
        let i = choose|i: int| 0 <= i < b.len() && (#[trigger] b[i]).id == id;
        assert(ab[a.len() + i] == b[i]);
    }
    if lists(ab, id) {
        let i = choose|i: int| 0 <= i < ab.len() && (#[trigger] ab[i]).id == id;
        if i < a.len() {
            assert(a[i].id == id);
        } else {
            assert(b[i - a.len()].id == id);
        }
    }
}

/// A suspension can be answered exactly while it is listed as pending.
pub proof fn law_answerable_iff_pending<V, E>(t: SpecLive<V, E>, id: SuspensionId)
    ensures
        awaits(t, id) == lists(suspensions(t), id),
    decreases t, 0nat,
{
    match t {
        SpecLive::Steps { current: Some(c), .. } => law_answerable_iff_pending(*c, id),
        SpecLive::Fan { kids, .. } => {
            lemma_kids_answerable(kids, kids.len(), id);
            lemma_first_true_range(waits(kids, id));
        },
        SpecLive::Scope { body: Some(b), .. } => law_answerable_iff_pending(*b, id),
        SpecLive::Pending { node, path, sid, call, frame } => {
            assert(suspensions(t)[0].id == sid);
        },
        _ => {},
    }
}

proof fn lemma_kids_answerable<V, E>(ts: Seq<SpecLive<V, E>>, n: nat, id: SuspensionId)
    requires
        n <= ts.len(),
    ensures
        lists(all_suspensions(ts, n), id) == (exists|i: int|
            0 <= i < n && #[trigger] waits(ts, id)[i]),
    decreases ts, n,
{
    if n > 0 {
        lemma_kids_answerable(ts, (n - 1) as nat, id);
        law_answerable_iff_pending(ts[n - 1], id);
        lemma_lists_sum(all_suspensions(ts, (n - 1) as nat), suspensions(ts[n - 1]), id);
        assert(waits(ts, id)[n - 1] == awaits(ts[n - 1], id));
    }
}

/// Answering one suspension leaves every other one as it is, so the host may
/// answer in any order.
pub proof fn law_answering_one_keeps_the_others<V, E>(
    t: SpecLive<V, E>,
    id: SuspensionId,
    other: SuspensionId,
    answer: Result<V, E>,
    w: SpecWorld,
)
    requires
        id != other,
    ensures
        awaits(settled(t, id, answer, w).0, other) == awaits(t, other),
    decreases t,
{
    match t {
        SpecLive::Steps { current: Some(c), .. } => {
            law_answering_one_keeps_the_others(*c, id, other, answer, w);
        },
        SpecLive::Fan { policy, kids, .. } => {
            let i = first_true(waits(kids, id));
            if 0 <= i < kids.len() {
                law_answering_one_keeps_the_others(kids[i], id, other, answer, w);
                let k1 = taken(policy.fail, settled(kids[i], id, answer, w).0);
                assert(waits(kids.update(i, k1), other) =~= waits(kids, other));
            }
        },
        SpecLive::Scope { body: Some(b), .. } => {
            law_answering_one_keeps_the_others(*b, id, other, answer, w);
        },
        _ => {},
    }
}

/// Cancelling a frame reports each of its suspensions, in order, and nothing
/// else.
pub proof fn law_cancelling_reports_every_suspension<V, E>(t: SpecLive<V, E>, w: SpecWorld)
    ensures
        cancel_world(t, w).cancelled == w.cancelled + sids(suspensions(t)),
    decreases t, 0nat,
{
    match t {
        SpecLive::Steps { current: Some(c), .. } => law_cancelling_reports_every_suspension(*c, w),
        SpecLive::Fan { kids, .. } => lemma_kids_reported(kids, kids.len(), w),
        SpecLive::Scope { body: Some(b), .. } => law_cancelling_reports_every_suspension(*b, w),
        SpecLive::Pending { node, path, sid, call, frame } => {
            assert(sids(suspensions(t)) =~= seq![sid]);
            assert(w.cancelled.push(sid) =~= w.cancelled + seq![sid]);
        },
        _ => {
            assert(w.cancelled + sids(suspensions(t)) =~= w.cancelled);
        },
    }
}

proof fn lemma_kids_reported<V, E>(ts: Seq<SpecLive<V, E>>, n: nat, w: SpecWorld)
    requires
        n <= ts.len(),
    ensures
        cancel_worlds(ts, n, w).cancelled == w.cancelled + sids(all_suspensions(ts, n)),
    decreases ts, n,
{
    if n > 0 {
        let w1 = cancel_worlds(ts, (n - 1) as nat, w);
        lemma_kids_reported(ts, (n - 1) as nat, w);
        law_cancelling_reports_every_suspension(ts[n - 1], w1);
        assert(sids(all_suspensions(ts, n)) =~= sids(all_suspensions(ts, (n - 1) as nat)) + sids(
            suspensions(ts[n - 1]),
        ));
        assert(cancel_worlds(ts, n, w).cancelled =~= w.cancelled + sids(all_suspensions(ts, n)));
    } else {
        assert(w.cancelled + sids(all_suspensions(ts, n)) =~= w.cancelled);
    }
}

/// A cancelled frame waits for nothing: a late answer is an unknown
/// suspension.
pub proof fn law_cancelled_frames_cannot_be_answered<V, E>(
    t: SpecLive<V, E>,
    reason: CancelReason,
    id: SuspensionId,
)
    ensures
        !awaits(cancelled(t, reason), id),
        suspensions(cancelled(t, reason)) == Seq::<SpecPending>::empty(),
{
}

/// Whether the call frames entered and not left number `n`, as far as the
/// counters can tell.
pub open spec fn open_frames(w: SpecWorld, n: int) -> bool {
    (w.counts.frame_enter - w.counts.frame_leave - n) % 0x1_0000_0000 == 0
}

/// How many calls wait in a frame.
pub open spec fn waiting<V, E>(t: SpecLive<V, E>) -> int {
    suspensions(t).len() as int
}

proof fn lemma_same_suspensions<V, E>(ts: Seq<SpecLive<V, E>>, us: Seq<SpecLive<V, E>>, n: nat)
    requires
        n <= ts.len(),
        n <= us.len(),
        forall|i: int| 0 <= i < n ==> ts[i] == us[i],
    ensures
        all_suspensions(ts, n) == all_suspensions(us, n),
    decreases n,
{
    if n > 0 {
        lemma_same_suspensions(ts, us, (n - 1) as nat);
    }
}

proof fn lemma_waiting_update<V, E>(ts: Seq<SpecLive<V, E>>, i: int, k: SpecLive<V, E>, n: nat)
    requires
        0 <= i < n <= ts.len(),
    ensures
        all_suspensions(ts.update(i, k), n).len() == all_suspensions(ts, n).len() - waiting(ts[i])
            + waiting(k),
    decreases n,
{
    let m = (n - 1) as nat;
    if i == m {
        lemma_same_suspensions(ts, ts.update(i, k), m);
    } else {
        lemma_waiting_update(ts, i, k, m);
    }
}

proof fn lemma_cancel_balance<V, E>(t: SpecLive<V, E>, w: SpecWorld, n: int)
    requires
        open_frames(w, n),
    ensures
        open_frames(cancel_world(t, w), n - waiting(t)),
    decreases t, 0nat,
{
    match t {
        SpecLive::Steps { current: Some(c), .. } => lemma_cancel_balance(*c, w, n),
        SpecLive::Fan { kids, .. } => lemma_cancel_all_balance(kids, kids.len(), w, n),
        SpecLive::Scope { body: Some(b), .. } => lemma_cancel_balance(*b, w, n),
        _ => {},
    }
}

proof fn lemma_cancel_all_balance<V, E>(ts: Seq<SpecLive<V, E>>, m: nat, w: SpecWorld, n: int)
    requires
        m <= ts.len(),
        open_frames(w, n),
    ensures
        open_frames(cancel_worlds(ts, m, w), n - all_suspensions(ts, m).len()),
    decreases ts, m,
{
    if m > 0 {
        lemma_cancel_all_balance(ts, (m - 1) as nat, w, n);
        lemma_cancel_balance(
            ts[m - 1],
            cancel_worlds(ts, (m - 1) as nat, w),
            n - all_suspensions(ts, (m - 1) as nat).len(),
        );
    }
}

proof fn lemma_spawn_balance<V, E>(
    kind: SpecKind,
    unit: V,
    node: NodeId,
    path: Seq<NodeId>,
    w: SpecWorld,
    n: int,
)
    requires
        open_frames(w, n),
    ensures
        open_frames(
            spawned::<V, E>(kind, unit, node, path, w).1,
            n + waiting(spawned::<V, E>(kind, unit, node, path, w).0),
        ),
{
    let t = spawned::<V, E>(kind, unit, node, path, w).0;
    if let SpecLive::Fan { kids, .. } = t {
        assert(all_suspensions(kids, kids.len()).len() == 0);
    }
    if let SpecLive::Pending { .. } = t {
        assert(waiting(t) == 1);
    } else {
        assert(waiting(t) == 0);
    }
}

proof fn lemma_fill_balance<A: Ast>(
    ast: A,
    t: SpecLive<A::Value, A::EffectError>,
    w: SpecWorld,
    n: int,
)
    requires
        open_frames(w, n),
    ensures
        open_frames(filled(ast, t, w).1, n - waiting(t) + waiting(filled(ast, t, w).0)),
    decreases t,
{
    match t {
        SpecLive::Steps { current: Some(c), .. } => lemma_fill_balance(ast, *c, w, n),
        SpecLive::Fan { path, ids, kids, .. } => {
            let i = first_true(gaps(kids));
            if 0 <= i < kids.len() {
                lemma_fill_balance(ast, kids[i], w, n);
                lemma_waiting_update(kids, i, filled(ast, kids[i], w).0, kids.len());
            } else {
                let id = ids[kids.len() as int];
                lemma_spawn_balance::<A::Value, A::EffectError>(
                    ast.kind_spec(id),
                    ast.unit_spec(),
                    id,
                    path.push(id),
                    w,
                    n,
                );
                let k1 = started(ast, id, path.push(id), w).0;
                lemma_same_suspensions(kids, kids.push(k1), kids.len());
                assert(all_suspensions(kids.push(k1), (kids.len() + 1) as nat) == all_suspensions(
                    kids.push(k1),
                    kids.len(),
                ) + suspensions(k1));
            }
        },
        SpecLive::Scope { path, body_id, body, .. } => {
            match body {
                Some(b) => lemma_fill_balance(ast, *b, w, n),
                None => lemma_spawn_balance::<A::Value, A::EffectError>(
                    ast.kind_spec(body_id),
                    ast.unit_spec(),
                    body_id,
                    path.push(body_id),
                    w,
                    n,
                ),
            }
        },
        _ => {},
    }
}

proof fn lemma_advance_balance<A: Ast>(
    ast: A,
    t: SpecLive<A::Value, A::EffectError>,
    w: SpecWorld,
    n: int,
)
    requires
        open_frames(w, n),
    ensures
        open_frames(advanced(ast, t, w).1, n - waiting(t) + waiting(advanced(ast, t, w).0)),
    decreases t,
{
    match t {
        SpecLive::Steps { node, path, ids, next, current, last } => {
            let rests = match current {
                Some(c) => !advances(*c),
                None => true,
            };
            if rests {
                if 0 <= next < ids.len() {
                    let ticked = told(
                        w,
                        SpecEvent::IterationTick {
                            at: crate::engine::world::place(node, path, None),
                        },
                    );
                    lemma_spawn_balance::<A::Value, A::EffectError>(
                        ast.kind_spec(ids[next]),
                        ast.unit_spec(),
                        ids[next],
                        path.push(ids[next]),
                        ticked,
                        n,
                    );
                }
                if let Some(c) = current {
                    if *c is Value {
                        assert(waiting(*c) == 0);
                    }
                }
            } else {
                lemma_advance_balance(ast, *current->0, w, n);
            }
        },
        SpecLive::Fan { kids, .. } => {
            let i = first_true(moves(kids));
            if 0 <= i < kids.len() {
                lemma_advance_balance(ast, kids[i], w, n);
                lemma_waiting_update(kids, i, advanced(ast, kids[i], w).0, kids.len());
            }
        },
        SpecLive::Scope { body: Some(b), .. } => {
            if advances(*b) {
                lemma_advance_balance(ast, *b, w, n);
            } else if *b is Value {
                assert(waiting(*b) == 0);
            }
        },
        _ => {},
    }
}

proof fn lemma_fire_balance<V, D, E>(
    registry: ReducerRegistry<V, D, E>,
    t: SpecLive<V, E>,
    w: SpecWorld,
    n: int,
)
    requires
        open_frames(w, n),
    ensures
        fired(registry, t, w) matches Ok(p) ==> open_frames(p.1, n - waiting(t) + waiting(p.0)),
    decreases t,
{
    match t {
        SpecLive::Steps { current: Some(c), .. } => lemma_fire_balance(registry, *c, w, n),
        SpecLive::Fan { policy, ids, kids, order, .. } => {
            if joins(policy, ids, kids, order) {
                lemma_cancel_all_balance(kids, kids.len(), w, n);
            } else {
                let i = first_true(fires(kids));
                if 0 <= i < kids.len() {
                    lemma_fire_balance(registry, kids[i], w, n);
                    if fired(registry, kids[i], w) is Ok {
                        lemma_waiting_update(
                            kids,
                            i,
                            fired(registry, kids[i], w)->Ok_0.0,
                            kids.len(),
                        );
                    }
                }
            }
        },
        SpecLive::Scope { body: Some(b), .. } => lemma_fire_balance(registry, *b, w, n),
        _ => {},
    }
}

proof fn lemma_cancel_others_balance<V, E>(
    ts: Seq<SpecLive<V, E>>,
    keep: int,
    reason: CancelReason,
    m: nat,
    w: SpecWorld,
    n: int,
)
    requires
        m <= ts.len(),
        open_frames(w, n),
    ensures
        ({
            let (ts1, w1) = cancel_others(ts, keep, reason, m, w);
            &&& ts1.len() == ts.len()
            &&& forall|i: int| m <= i < ts.len() ==> ts1[i] == ts[i]
            &&& open_frames(
                w1,
                n - all_suspensions(ts, ts.len()).len() + all_suspensions(ts1, ts.len()).len(),
            )
        }),
    decreases m,
{
    if m > 0 {
        let j = m - 1;
        lemma_cancel_others_balance(ts, keep, reason, (m - 1) as nat, w, n);
        let (ts1, w1) = cancel_others(ts, keep, reason, (m - 1) as nat, w);
        if j != keep {
            let n1 = n - all_suspensions(ts, ts.len()).len() + all_suspensions(
                ts1,
                ts.len(),
            ).len();
            lemma_cancel_balance(ts[j], w1, n1);
            lemma_waiting_update(ts1, j, cancelled(ts[j], reason), ts.len());
            assert(waiting(cancelled(ts[j], reason)) == 0);
        }
    }
}

proof fn lemma_fail_balance<V, E>(t: SpecLive<V, E>, w: SpecWorld, n: int)
    requires
        open_frames(w, n),
    ensures
        open_frames(failed_up(t, w).1, n - waiting(t) + waiting(failed_up(t, w).0)),
    decreases t,
{
    match t {
        SpecLive::Steps { current: Some(c), .. } => lemma_fail_balance(*c, w, n),
        SpecLive::Fan { kids, .. } => {
            let i = first_true(fails(kids));
            if 0 <= i < kids.len() {
                lemma_fail_balance(kids[i], w, n);
                let (k1, w1) = failed_up(kids[i], w);
                lemma_waiting_update(kids, i, k1, kids.len());
                lemma_cancel_others_balance(
                    kids.update(i, k1),
                    i,
                    CancelReason::SiblingFailed,
                    kids.len(),
                    w1,
                    n - waiting(kids[i]) + waiting(k1),
                );
            }
        },
        SpecLive::Scope { body: Some(b), .. } => lemma_fail_balance(*b, w, n),
        _ => {},
    }
}

proof fn lemma_settle_balance<V, E>(
    t: SpecLive<V, E>,
    id: SuspensionId,
    answer: Result<V, E>,
    w: SpecWorld,
    n: int,
)
    requires
        open_frames(w, n),
    ensures
        open_frames(
            settled(t, id, answer, w).1,
            n - waiting(t) + waiting(settled(t, id, answer, w).0),
        ),
    decreases t,
{
    match t {
        SpecLive::Steps { current: Some(c), .. } => lemma_settle_balance(
            *c,
            id,
            answer,
            w,
            n,
        ),
        SpecLive::Fan { policy, kids, .. } => {
            let i = first_true(waits(kids, id));
            if 0 <= i < kids.len() {
                lemma_settle_balance(kids[i], id, answer, w, n);
                let k0 = settled(kids[i], id, answer, w).0;
                assert(waiting(taken(policy.fail, k0)) == waiting(k0));
                lemma_waiting_update(kids, i, taken(policy.fail, k0), kids.len());
            }
        },
        SpecLive::Scope { body: Some(b), .. } => lemma_settle_balance(
            *b,
            id,
            answer,
            w,
            n,
        ),
        _ => {},
    }
}

proof fn lemma_catch_balance<V, E>(t: SpecLive<V, E>, w: SpecWorld, n: int)
    requires
        open_frames(w, n),
    ensures
        open_frames(caught(t, w).1, n - waiting(t) + waiting(caught(t, w).0)),
    decreases t,
{
    match t {
        SpecLive::Steps { current: Some(c), .. } => lemma_catch_balance(*c, w, n),
        SpecLive::Fan { policy, kids, .. } => {
            let i = first_true(fails(kids));
            let j = first_true(catches(kids));
            if policy.fail == FailPolicy::CollectAll && 0 <= i < kids.len() {
                lemma_fail_balance(kids[i], w, n);
                let (k1, w1) = failed_up(kids[i], w);
                lemma_cancel_balance(k1, w1, n - waiting(kids[i]) + waiting(k1));
                let k2 = SpecLive::Cancelled {
                    node: node_of(kids[i]),
                    reason: CancelReason::SiblingFailed,
                    failure: Some(failure(kids[i])),
                };
                assert(waiting(k2) == 0);
                lemma_waiting_update(kids, i, k2, kids.len());
            } else if 0 <= j < kids.len() {
                lemma_catch_balance(kids[j], w, n);
                lemma_waiting_update(kids, j, caught(kids[j], w).0, kids.len());
            }
        },
        SpecLive::Scope { body: Some(b), .. } => lemma_catch_balance(*b, w, n),
        _ => {},
    }
}

/// Whether the call frames an engine has entered and not left are those of
/// its waiting calls.
pub open spec fn frames_paired<V, E>(e: SpecEngine<V, E>) -> bool {
    open_frames(
        e.world,
        match e.root {
            Some(t) => waiting(t),
            None => 0,
        },
    )
}

proof fn lemma_run_pairs_frames<A: Ast>(
    ast: A,
    registry: ReducerRegistry<A::Value, A::Delta, A::EffectError>,
    e: SpecEngine<A::Value, A::EffectError>,
    bps: Option<Seq<(BreakpointId, SpecCondition)>>,
    skip: bool,
    fuel: nat,
)
    requires
        frames_paired(e),
    ensures
        frames_paired(ran(ast, registry, e, bps, skip, fuel).0),
    decreases fuel,
{
    let n = match e.root {
        Some(t) => waiting(t),
        None => 0,
    };
    if !skip && stops_at(ast, e.root, bps) is Some {
    } else {
        match e.root {
            None => {
                let id = ast.root_spec();
                lemma_spawn_balance::<A::Value, A::EffectError>(
                    ast.kind_spec(id),
                    ast.unit_spec(),
                    id,
                    seq![id],
                    e.world,
                    n,
                );
            },
            Some(t) => {
                lemma_fail_balance(t, e.world, n);
                lemma_catch_balance(t, e.world, n);
                lemma_fill_balance(ast, t, e.world, n);
                lemma_fire_balance(registry, t, e.world, n);
                lemma_advance_balance(ast, t, e.world, n);
            },
        }
        match next_move(ast, registry, e.root, e.world) {
            SpecMove::Moved(t, w) => {
                let e1 = SpecEngine { root: Some(t), world: w, ..e };
                if fuel > 0 && !(t is Value) {
                    lemma_run_pairs_frames(ast, registry, e1, bps, false, (fuel - 1) as nat);
                }
            },
            _ => {},
        }
    }
}

/// Every call frame that is entered is left again: a fresh engine has
/// entered none, and stepping or answering keeps the counters in step with
/// the waiting calls.
pub proof fn law_call_frames_are_paired<A: Ast>(
    ast: A,
    registry: ReducerRegistry<A::Value, A::Delta, A::EffectError>,
    e: SpecEngine<A::Value, A::EffectError>,
    bps: Option<Seq<(BreakpointId, SpecCondition)>>,
    skip: bool,
    id: SuspensionId,
    answer: Result<A::Value, A::EffectError>,
)
    ensures
        frames_paired(fresh_engine::<A::Value, A::EffectError>()),
        frames_paired(e) ==> frames_paired(stepped(ast, registry, e, bps, skip).0),
        frames_paired(e) && e.root is Some ==> frames_paired(resolved(e, e.root->0, id, answer)),
{
    if frames_paired(e) {
        lemma_run_pairs_frames(
            ast,
            registry,
            e,
            bps,
            skip,
            crate::engine::step::MOVE_LIMIT as nat,
        );
        if let Some(t) = e.root {
            lemma_settle_balance(
                t,
                id,
                answer,
                e.world,
                waiting(t),
            );
        }
    }
}

/// An engine that is over stays as it is and repeats its report.
pub proof fn law_over_is_final<A: Ast>(
    ast: A,
    registry: ReducerRegistry<A::Value, A::Delta, A::EffectError>,
    e: SpecEngine<A::Value, A::EffectError>,
    bps: Option<Seq<(BreakpointId, SpecCondition)>>,
    skip: bool,
)
    ensures
        e.done ==> stepped(ast, registry, e, bps, skip).0 == e,
        ({
            let (e1, out) = stepped(ast, registry, e, bps, skip);
            out matches Ok(SpecOutcome::Done(v)) ==> e1.done && stepped(
                ast,
                registry,
                e1,
                bps,
                skip,
            ) == (e1, Ok::<SpecOutcome<A::Value>, SpecExecError<A::EffectError>>(
                SpecOutcome::Done(v),
            ))
        }),
{
    if !e.done && !(e.root matches Some(SpecLive::Value { .. })) {
        lemma_done_means_over(
            ast,
            registry,
            e,
            bps,
            skip,
            crate::engine::step::MOVE_LIMIT as nat,
        );
    }
}

proof fn lemma_done_means_over<A: Ast>(
    ast: A,
    registry: ReducerRegistry<A::Value, A::Delta, A::EffectError>,
    e: SpecEngine<A::Value, A::EffectError>,
    bps: Option<Seq<(BreakpointId, SpecCondition)>>,
    skip: bool,
    fuel: nat,
)
    ensures
        ({
            let (e1, out) = ran(ast, registry, e, bps, skip, fuel);
            out matches Ok(SpecOutcome::Done(v)) ==> e1.done && e1.result == Some(v)
        }),
    decreases fuel,
{
    if let SpecMove::Moved(t, w) = next_move(ast, registry, e.root, e.world) {
        if fuel > 0 {
            let e1 = SpecEngine { root: Some(t), world: w, ..e };
            lemma_done_means_over(ast, registry, e1, bps, false, (fuel - 1) as nat);
        }
    }
}

/// Stepping a blocked engine again changes nothing and reports nothing new:
/// only the host can make it go on.
pub proof fn law_blocked_until_answered<A: Ast>(
    ast: A,
    registry: ReducerRegistry<A::Value, A::Delta, A::EffectError>,
    e: SpecEngine<A::Value, A::EffectError>,
)
    ensures
        ({
            let (e1, out) = stepped(ast, registry, e, None, false);
            out matches Ok(SpecOutcome::Blocked { .. }) ==> stepped(
                ast,
                registry,
                e1,
                None,
                false,
            ) == (e1, Ok::<SpecOutcome<A::Value>, SpecExecError<A::EffectError>>(
                SpecOutcome::Blocked { newly_pending: Seq::empty() },
            ))
        }),
{
    if !e.done && !(e.root matches Some(SpecLive::Value { .. })) {
        lemma_stuck_stays_stuck(
            ast,
            registry,
            e,
            crate::engine::step::MOVE_LIMIT as nat,
            crate::engine::step::MOVE_LIMIT as nat,
        );
    }
}

proof fn lemma_stuck_stays_stuck<A: Ast>(
    ast: A,
    registry: ReducerRegistry<A::Value, A::Delta, A::EffectError>,
    e: SpecEngine<A::Value, A::EffectError>,
    fuel: nat,
    more: nat,
)
    requires
        !e.done,
        !(e.root matches Some(SpecLive::Value { .. })),
    ensures
        ({
            let (e1, out) = ran(ast, registry, e, None, false, fuel);
            out matches Ok(SpecOutcome::Blocked { .. }) ==> !e1.done && !(e1.root matches Some(
                SpecLive::Value { .. },
            )) && ran(ast, registry, e1, None, false, more) == (e1, Ok::<
                SpecOutcome<A::Value>,
                SpecExecError<A::EffectError>,
            >(SpecOutcome::Blocked { newly_pending: Seq::empty() }))
        }),
    decreases fuel,
{
    match next_move(ast, registry, e.root, e.world) {
        SpecMove::Moved(t, w) => {
            if fuel > 0 && !(t is Value) {
                let e1 = SpecEngine { root: Some(t), world: w, ..e };
                lemma_stuck_stays_stuck(ast, registry, e1, (fuel - 1) as nat, more);
            }
        },
        SpecMove::Stuck => {
            let e1 = ran(ast, registry, e, None, false, fuel).0;
            assert(next_move(ast, registry, e1.root, e1.world) is Stuck);
        },
        _ => {},
    }
}

/// Whether each node of a chain stands directly below the one before, from
/// the root on.
pub open spec fn descends<A: Ast>(ast: A, chain: Seq<NodeId>) -> bool {
    chain.len() > 0 && chain[0] == ast.root_spec() && forall|i: int|
        0 <= i < chain.len() - 1 ==> below(ast.kind_spec(#[trigger] chain[i])).contains(
            chain[i + 1],
        )
}

/// Whether a node belongs to the tree.
pub open spec fn reachable<A: Ast>(ast: A, id: NodeId) -> bool {
    exists|chain: Seq<NodeId>| #[trigger] descends(ast, chain) && chain.last() == id
}

proof fn lemma_root_reachable<A: Ast>(ast: A)
    ensures
        reachable(ast, ast.root_spec()),
{
    let chain = seq![ast.root_spec()];
    assert(descends(ast, chain));
    assert(chain.last() == ast.root_spec());
}

proof fn lemma_below_reachable<A: Ast>(ast: A, id: NodeId, j: int)
    requires
        reachable(ast, id),
        0 <= j < below(ast.kind_spec(id)).len(),
    ensures
        reachable(ast, below(ast.kind_spec(id))[j]),
{
    let chain = choose|chain: Seq<NodeId>|
        #[trigger] descends(ast, chain) && chain.last() == id;
    let kid = below(ast.kind_spec(id))[j];
    let longer = chain.push(kid);
    assert forall|i: int| 0 <= i < longer.len() - 1 implies below(
        ast.kind_spec(#[trigger] longer[i]),
    ).contains(longer[i + 1]) by {
        if i < chain.len() - 1 {
            assert(longer[i] == chain[i]);
            assert(longer[i + 1] == chain[i + 1]);
        } else {
            assert(longer[i] == id);
            assert(longer[i + 1] == kid);
        }
    }
    assert(descends(ast, longer));
    assert(longer.last() == kid);
}

/// The nodes a clean walk has seen.
spec fn walked<A: Ast>(ast: A, todo: Seq<NodeId>, seen: Set<u64>, fuel: nat) -> Set<u64>
    decreases fuel,
{
    if todo.len() == 0 || fuel == 0 {
        seen
    } else if seen.contains(todo.last().0) {
        walked(ast, todo.drop_last(), seen, (fuel - 1) as nat)
    } else {
        walked(
            ast,
            todo.drop_last() + below(ast.kind_spec(todo.last())),
            seen.insert(todo.last().0),
            (fuel - 1) as nat,
        )
    }
}

proof fn lemma_clean_walk<A: Ast>(
    ast: A,
    registry: ReducerRegistry<A::Value, A::Delta, A::EffectError>,
    todo: Seq<NodeId>,
    seen: Set<u64>,
    fuel: nat,
)
    requires
        survey(ast, registry, todo, seen, fuel) == Some(None::<SpecEngineError>),
    ensures
        ({
            let all = walked(ast, todo, seen, fuel);
            &&& forall|n: u64| seen.contains(n) ==> #[trigger] all.contains(n)
            &&& forall|i: int| 0 <= i < todo.len() ==> all.contains((#[trigger] todo[i]).0)
            &&& forall|n: u64|
                #[trigger] all.contains(n) && !seen.contains(n) ==> fault(
                    ast,
                    registry,
                    NodeId(n),
                ) is None && forall|j: int|
                    0 <= j < below(ast.kind_spec(NodeId(n))).len() ==> all.contains(
                        (#[trigger] below(ast.kind_spec(NodeId(n)))[j]).0,
                    )
        }),
    decreases fuel,
{
    let all = walked(ast, todo, seen, fuel);
    if todo.len() > 0 {
        let id = todo.last();
        let rest = todo.drop_last();
        assert forall|i: int| 0 <= i < todo.len() - 1 implies (#[trigger] todo[i]) == rest[i] by {}
        if seen.contains(id.0) {
            lemma_clean_walk(ast, registry, rest, seen, (fuel - 1) as nat);
            assert forall|i: int| 0 <= i < todo.len() implies all.contains(
                (#[trigger] todo[i]).0,
            ) by {
                if i < todo.len() - 1 {
                    assert(todo[i] == rest[i]);
                }
            }
        } else {
            let kids = below(ast.kind_spec(id));
            let next = rest + kids;
            let more = seen.insert(id.0);
            lemma_clean_walk(ast, registry, next, more, (fuel - 1) as nat);
            assert forall|i: int| 0 <= i < todo.len() implies all.contains(
                (#[trigger] todo[i]).0,
            ) by {
                if i < todo.len() - 1 {
                    assert(todo[i] == next[i]);
                } else {
                    assert(more.contains(id.0));
                }
            }
            assert(NodeId(id.0) == id);
            assert forall|j: int| 0 <= j < kids.len() implies all.contains(
                (#[trigger] kids[j]).0,
            ) by {
                assert(next[rest.len() + j] == kids[j]);
            }
            assert forall|n: u64| seen.contains(n) implies #[trigger] all.contains(n) by {
                assert(more.contains(n));
            }
        }
    }
}

proof fn lemma_walk_covers_chain<A: Ast>(
    ast: A,
    registry: ReducerRegistry<A::Value, A::Delta, A::EffectError>,
    fuel: nat,
    chain: Seq<NodeId>,
    i: int,
)
    requires
        survey(ast, registry, seq![ast.root_spec()], Set::empty(), fuel) == Some(
            None::<SpecEngineError>,
        ),
        descends(ast, chain),
        0 <= i < chain.len(),
    ensures
        walked(ast, seq![ast.root_spec()], Set::empty(), fuel).contains(chain[i].0),
        fault(ast, registry, chain[i]) is None,
    decreases i,
{
    let todo = seq![ast.root_spec()];
    let all = walked(ast, todo, Set::empty(), fuel);
    lemma_clean_walk(ast, registry, todo, Set::empty(), fuel);
    if i == 0 {
        assert(todo[0] == ast.root_spec());
    } else {
        lemma_walk_covers_chain(ast, registry, fuel, chain, i - 1);
        let kids = below(ast.kind_spec(chain[i - 1]));
        assert(NodeId(chain[i - 1].0) == chain[i - 1]);
        assert(kids.contains(chain[(i - 1) + 1]));
        let j = choose|j: int| 0 <= j < kids.len() && kids[j] == chain[i];
        assert(all.contains(kids[j].0));
    }
    assert(NodeId(chain[i].0) == chain[i]);
}

proof fn lemma_fault_found<A: Ast>(
    ast: A,
    registry: ReducerRegistry<A::Value, A::Delta, A::EffectError>,
    todo: Seq<NodeId>,
    seen: Set<u64>,
    fuel: nat,
    e: SpecEngineError,
)
    requires
        survey(ast, registry, todo, seen, fuel) == Some(Some(e)),
        forall|i: int| 0 <= i < todo.len() ==> reachable(ast, #[trigger] todo[i]),
    ensures
        exists|id: NodeId|
            reachable(ast, id) && #[trigger] fault(ast, registry, id) == Some(e),
    decreases fuel,
{
    let id = todo.last();
    let rest = todo.drop_last();
    assert(reachable(ast, todo[todo.len() - 1]));
    assert forall|i: int| 0 <= i < rest.len() implies reachable(ast, #[trigger] rest[i]) by {
        assert(rest[i] == todo[i]);
    }
    if seen.contains(id.0) {
        lemma_fault_found(ast, registry, rest, seen, (fuel - 1) as nat, e);
    } else if fault(ast, registry, id) is None {
        let kids = below(ast.kind_spec(id));
        let next = rest + kids;
        assert forall|i: int| 0 <= i < next.len() implies reachable(ast, #[trigger] next[i]) by {
            if i < rest.len() {
                assert(next[i] == rest[i]);
            } else {
                lemma_below_reachable(ast, id, i - rest.len());
                assert(next[i] == kids[i - rest.len()]);
            }
        }
        lemma_fault_found(ast, registry, next, seen.insert(id.0), (fuel - 1) as nat, e);
    }
}

/// Construction checks the whole tree: it succeeds only if no node that
/// belongs to the tree has a fault, and what it refuses is the fault of such
/// a node.
pub proof fn law_construction_checks_every_node<A: Ast>(
    ast: A,
    registry: ReducerRegistry<A::Value, A::Delta, A::EffectError>,
    id: NodeId,
    e: SpecEngineError,
)
    ensures
        surveyed(ast, registry, None) && reachable(ast, id) ==> fault(ast, registry, id) is None,
        surveyed(ast, registry, Some(e)) ==> exists|at: NodeId|
            reachable(ast, at) && #[trigger] fault(ast, registry, at) == Some(e),
{
    let todo = seq![ast.root_spec()];
    if surveyed(ast, registry, None) && reachable(ast, id) {
        let fuel = choose|fuel: nat|
            #[trigger] survey(ast, registry, todo, Set::empty(), fuel) == Some(
                None::<SpecEngineError>,
            );
        let chain = choose|chain: Seq<NodeId>|
            #[trigger] descends(ast, chain) && chain.last() == id;
        lemma_walk_covers_chain(ast, registry, fuel, chain, chain.len() - 1);
    }
    if surveyed(ast, registry, Some(e)) {
        let fuel = choose|fuel: nat|
            #[trigger] survey(ast, registry, todo, Set::empty(), fuel) == Some(Some(e));
        lemma_root_reachable(ast);
        assert forall|i: int| 0 <= i < todo.len() implies reachable(ast, #[trigger] todo[i]) by {
            assert(todo[i] == ast.root_spec());
        }
        lemma_fault_found(ast, registry, todo, Set::empty(), fuel, e);
    }
}

proof fn lemma_survey_grows<A: Ast>(
    ast: A,
    registry: ReducerRegistry<A::Value, A::Delta, A::EffectError>,
    todo: Seq<NodeId>,
    seen: Set<u64>,
    fuel: nat,
    more: nat,
)
    requires
        fuel <= more,
        survey(ast, registry, todo, seen, fuel) is Some,
    ensures
        survey(ast, registry, todo, seen, more) == survey(ast, registry, todo, seen, fuel),
    decreases fuel,
{
    if todo.len() > 0 {
        let id = todo.last();
        let rest = todo.drop_last();
        if seen.contains(id.0) {
            lemma_survey_grows(ast, registry, rest, seen, (fuel - 1) as nat, (more - 1) as nat);
        } else if fault(ast, registry, id) is None {
            lemma_survey_grows(
                ast,
                registry,
                rest + below(ast.kind_spec(id)),
                seen.insert(id.0),
                (fuel - 1) as nat,
                (more - 1) as nat,
            );
        }
    }
}

/// The outcome of a construction depends on the tree and the registry alone.
pub proof fn law_construction_has_one_outcome<A: Ast>(
    ast: A,
    registry: ReducerRegistry<A::Value, A::Delta, A::EffectError>,
    a: Option<SpecEngineError>,
    b: Option<SpecEngineError>,
)
    requires
        surveyed(ast, registry, a),
        surveyed(ast, registry, b),
    ensures
        a == b,
{
    let todo = seq![ast.root_spec()];
    let f = choose|fuel: nat|
        #[trigger] survey(ast, registry, todo, Set::empty(), fuel) == Some(a);
    let g = choose|fuel: nat|
        #[trigger] survey(ast, registry, todo, Set::empty(), fuel) == Some(b);
    if f <= g {
        lemma_survey_grows(ast, registry, todo, Set::empty(), f, g);
    } else {
        lemma_survey_grows(ast, registry, todo, Set::empty(), g, f);
    }
}

/// Whether every node of a list belongs to the tree.
pub open spec fn all_reachable<A: Ast>(ast: A, ids: Seq<NodeId>) -> bool {
    forall|i: int| 0 <= i < ids.len() ==> reachable(ast, #[trigger] ids[i])
}

/// Whether every fan-out among the frames has a shape its children can meet
/// and a registered reducer, and everything still to start belongs to the
/// tree.
pub open spec fn sound<A: Ast>(
    ast: A,
    registry: ReducerRegistry<A::Value, A::Delta, A::EffectError>,
    t: SpecLive<A::Value, A::EffectError>,
) -> bool
    decreases t,
{
    match t {
        SpecLive::Steps { ids, current, .. } => all_reachable(ast, ids) && match current {
            Some(c) => sound(ast, registry, *c),
            None => true,
        },
        SpecLive::Fan { node, policy, reducer, ids, kids, .. } => all_reachable(ast, ids)
            && par_fault(node, ids.len(), policy) is None && registry.resolved(
            reducer,
            policy.fail,
        ) is Some && all_sound(ast, registry, kids, kids.len()),
        SpecLive::Scope { body_id, body, .. } => reachable(ast, body_id) && match body {
            Some(b) => sound(ast, registry, *b),
            None => true,
        },
        _ => true,
    }
}

/// Whether the first `n` frames are sound.
pub open spec fn all_sound<A: Ast>(
    ast: A,
    registry: ReducerRegistry<A::Value, A::Delta, A::EffectError>,
    ts: Seq<SpecLive<A::Value, A::EffectError>>,
    n: nat,
) -> bool
    decreases ts, n,
{
    if n == 0 || n > ts.len() {
        true
    } else {
        all_sound(ast, registry, ts, (n - 1) as nat) && sound(ast, registry, ts[n - 1])
    }
}

pub(crate) proof fn lemma_all_sound<A: Ast>(
    ast: A,
    registry: ReducerRegistry<A::Value, A::Delta, A::EffectError>,
    ts: Seq<SpecLive<A::Value, A::EffectError>>,
    n: nat,
)
    requires
        n <= ts.len(),
    ensures
        all_sound(ast, registry, ts, n) <==> (forall|i: int|
            0 <= i < n ==> sound(ast, registry, #[trigger] ts[i])),
    decreases n,
{
    if n > 0 {
        lemma_all_sound(ast, registry, ts, (n - 1) as nat);
        if all_sound(ast, registry, ts, n) {
            assert forall|i: int| 0 <= i < n implies sound(ast, registry, #[trigger] ts[i]) by {
                if i == n - 1 {
                }
            }
        }
        if forall|i: int| 0 <= i < n ==> sound(ast, registry, #[trigger] ts[i]) {
            assert(sound(ast, registry, ts[n - 1]));
        }
    }
}

proof fn lemma_sound_update<A: Ast>(
    ast: A,
    registry: ReducerRegistry<A::Value, A::Delta, A::EffectError>,
    ts: Seq<SpecLive<A::Value, A::EffectError>>,
    i: int,
    k: SpecLive<A::Value, A::EffectError>,
)
    requires
        0 <= i < ts.len(),
        all_sound(ast, registry, ts, ts.len()),
        sound(ast, registry, k),
    ensures
        all_sound(ast, registry, ts.update(i, k), ts.len()),
{
    lemma_all_sound(ast, registry, ts, ts.len());
    lemma_all_sound(ast, registry, ts.update(i, k), ts.len());
}

proof fn lemma_start_sound<A: Ast>(
    ast: A,
    registry: ReducerRegistry<A::Value, A::Delta, A::EffectError>,
    id: NodeId,
    path: Seq<NodeId>,
    w: SpecWorld,
)
    requires
        surveyed(ast, registry, None),
        reachable(ast, id),
    ensures
        sound(ast, registry, started(ast, id, path, w).0),
{
    law_construction_checks_every_node(ast, registry, id, arbitrary());
    let kids = below(ast.kind_spec(id));
    assert forall|j: int| 0 <= j < kids.len() implies reachable(ast, #[trigger] kids[j]) by {
        lemma_below_reachable(ast, id, j);
    }
    match ast.kind_spec(id) {
        SpecKind::Par { .. } => {
            assert(all_sound(ast, registry, Seq::empty(), 0));
        },
        SpecKind::Scope { body, .. } => {
            assert(kids[0] == body);
        },
        SpecKind::Maybe { body: Some(body) } => {
            assert(kids[0] == body);
        },
        _ => {},
    }
}

proof fn lemma_fill_sound<A: Ast>(
    ast: A,
    registry: ReducerRegistry<A::Value, A::Delta, A::EffectError>,
    t: SpecLive<A::Value, A::EffectError>,
    w: SpecWorld,
)
    requires
        surveyed(ast, registry, None),
        sound(ast, registry, t),
        crate::engine::live::has_gap(t),
    ensures
        sound(ast, registry, filled(ast, t, w).0),
    decreases t,
{
    match t {
        SpecLive::Steps { current: Some(c), .. } => lemma_fill_sound(ast, registry, *c, w),
        SpecLive::Fan { path, ids, kids, .. } => {
            let i = first_true(gaps(kids));
            lemma_first_true_range(gaps(kids));
            if 0 <= i < kids.len() {
                lemma_all_sound(ast, registry, kids, kids.len());
                assert(gaps(kids)[i]);
                lemma_fill_sound(ast, registry, kids[i], w);
                lemma_sound_update(ast, registry, kids, i, filled(ast, kids[i], w).0);
            } else {
                let id = ids[kids.len() as int];
                lemma_start_sound(ast, registry, id, path.push(id), w);
                let k1 = started(ast, id, path.push(id), w).0;
                lemma_all_sound(ast, registry, kids, kids.len());
                lemma_all_sound(ast, registry, kids.push(k1), (kids.len() + 1) as nat);
            }
        },
        SpecLive::Scope { path, body_id, body, .. } => {
            match body {
                Some(b) => lemma_fill_sound(ast, registry, *b, w),
                None => lemma_start_sound(ast, registry, body_id, path.push(body_id), w),
            }
        },
        _ => {},
    }
}

proof fn lemma_advance_sound<A: Ast>(
    ast: A,
    registry: ReducerRegistry<A::Value, A::Delta, A::EffectError>,
    t: SpecLive<A::Value, A::EffectError>,
    w: SpecWorld,
)
    requires
        surveyed(ast, registry, None),
        sound(ast, registry, t),
    ensures
        sound(ast, registry, advanced(ast, t, w).0),
    decreases t,
{
    match t {
        SpecLive::Steps { node, path, ids, next, current, last } => {
            if 0 <= next < ids.len() {
                let ticked = told(
                    w,
                    SpecEvent::IterationTick { at: crate::engine::world::place(node, path, None) },
                );
                lemma_start_sound(ast, registry, ids[next], path.push(ids[next]), ticked);
            }
            if let Some(c) = current {
                lemma_advance_sound(ast, registry, *c, w);
            }
        },
        SpecLive::Fan { kids, .. } => {
            let i = first_true(moves(kids));
            if 0 <= i < kids.len() {
                lemma_all_sound(ast, registry, kids, kids.len());
                lemma_advance_sound(ast, registry, kids[i], w);
                lemma_sound_update(ast, registry, kids, i, advanced(ast, kids[i], w).0);
            }
        },
        SpecLive::Scope { body: Some(b), .. } => lemma_advance_sound(ast, registry, *b, w),
        _ => {},
    }
}

proof fn lemma_fire_sound<A: Ast>(
    ast: A,
    registry: ReducerRegistry<A::Value, A::Delta, A::EffectError>,
    t: SpecLive<A::Value, A::EffectError>,
    w: SpecWorld,
)
    requires
        sound(ast, registry, t),
    ensures
        fired(registry, t, w) matches Ok(p) ==> sound(ast, registry, p.0),
    decreases t,
{
    match t {
        SpecLive::Steps { current: Some(c), .. } => lemma_fire_sound(ast, registry, *c, w),
        SpecLive::Fan { policy, ids, kids, order, .. } => {
            let i = first_true(fires(kids));
            if !joins(policy, ids, kids, order) && 0 <= i < kids.len() {
                lemma_all_sound(ast, registry, kids, kids.len());
                lemma_fire_sound(ast, registry, kids[i], w);
                if fired(registry, kids[i], w) is Ok {
                    lemma_sound_update(
                        ast,
                        registry,
                        kids,
                        i,
                        fired(registry, kids[i], w)->Ok_0.0,
                    );
                }
            }
        },
        SpecLive::Scope { body: Some(b), .. } => lemma_fire_sound(ast, registry, *b, w),
        _ => {},
    }
}

proof fn lemma_cancel_others_sound<A: Ast>(
    ast: A,
    registry: ReducerRegistry<A::Value, A::Delta, A::EffectError>,
    ts: Seq<SpecLive<A::Value, A::EffectError>>,
    keep: int,
    reason: CancelReason,
    m: nat,
    w: SpecWorld,
)
    requires
        m <= ts.len(),
        all_sound(ast, registry, ts, ts.len()),
    ensures
        cancel_others(ts, keep, reason, m, w).0.len() == ts.len(),
        all_sound(ast, registry, cancel_others(ts, keep, reason, m, w).0, ts.len()),
    decreases m,
{
    if m > 0 {
        lemma_cancel_others_sound(ast, registry, ts, keep, reason, (m - 1) as nat, w);
        let j = m - 1;
        if j != keep {
            lemma_all_sound(ast, registry, ts, ts.len());
            lemma_sound_update(
                ast,
                registry,
                cancel_others(ts, keep, reason, (m - 1) as nat, w).0,
                j,
                cancelled(ts[j], reason),
            );
        }
    }
}

proof fn lemma_fail_sound<A: Ast>(
    ast: A,
    registry: ReducerRegistry<A::Value, A::Delta, A::EffectError>,
    t: SpecLive<A::Value, A::EffectError>,
    w: SpecWorld,
)
    requires
        sound(ast, registry, t),
    ensures
        sound(ast, registry, failed_up(t, w).0),
    decreases t,
{
    match t {
        SpecLive::Steps { current: Some(c), .. } => lemma_fail_sound(ast, registry, *c, w),
        SpecLive::Fan { kids, .. } => {
            let i = first_true(fails(kids));
            if 0 <= i < kids.len() {
                lemma_all_sound(ast, registry, kids, kids.len());
                lemma_fail_sound(ast, registry, kids[i], w);
                let (k1, w1) = failed_up(kids[i], w);
                lemma_sound_update(ast, registry, kids, i, k1);
                lemma_cancel_others_sound(
                    ast,
                    registry,
                    kids.update(i, k1),
                    i,
                    CancelReason::SiblingFailed,
                    kids.len(),
                    w1,
                );
            }
        },
        SpecLive::Scope { body: Some(b), .. } => lemma_fail_sound(ast, registry, *b, w),
        _ => {},
    }
}

proof fn lemma_settle_sound<A: Ast>(
    ast: A,
    registry: ReducerRegistry<A::Value, A::Delta, A::EffectError>,
    t: SpecLive<A::Value, A::EffectError>,
    id: SuspensionId,
    answer: Result<A::Value, A::EffectError>,
    w: SpecWorld,
)
    requires
        sound(ast, registry, t),
    ensures
        sound(ast, registry, settled(t, id, answer, w).0),
    decreases t,
{
    match t {
        SpecLive::Steps { current: Some(c), .. } => lemma_settle_sound(
            ast,
            registry,
            *c,
            id,
            answer,
            w,
        ),
        SpecLive::Fan { policy, kids, .. } => {
            let i = first_true(waits(kids, id));
            if 0 <= i < kids.len() {
                lemma_all_sound(ast, registry, kids, kids.len());
                lemma_settle_sound(ast, registry, kids[i], id, answer, w);
                lemma_sound_update(
                    ast,
                    registry,
                    kids,
                    i,
                    taken(policy.fail, settled(kids[i], id, answer, w).0),
                );
            }
        },
        SpecLive::Scope { body: Some(b), .. } => lemma_settle_sound(
            ast,
            registry,
            *b,
            id,
            answer,
            w,
        ),
        _ => {},
    }
}

proof fn lemma_catch_sound<A: Ast>(
    ast: A,
    registry: ReducerRegistry<A::Value, A::Delta, A::EffectError>,
    t: SpecLive<A::Value, A::EffectError>,
    w: SpecWorld,
)
    requires
        sound(ast, registry, t),
    ensures
        sound(ast, registry, caught(t, w).0),
    decreases t,
{
    match t {
        SpecLive::Steps { current: Some(c), .. } => lemma_catch_sound(ast, registry, *c, w),
        SpecLive::Fan { policy, kids, .. } => {
            let i = first_true(fails(kids));
            let j = first_true(catches(kids));
            lemma_all_sound(ast, registry, kids, kids.len());
            if policy.fail == FailPolicy::CollectAll && 0 <= i < kids.len() {
                let k2 = SpecLive::Cancelled {
                    node: node_of(kids[i]),
                    reason: CancelReason::SiblingFailed,
                    failure: Some(failure(kids[i])),
                };
                lemma_sound_update(ast, registry, kids, i, k2);
            } else if 0 <= j < kids.len() {
                lemma_catch_sound(ast, registry, kids[j], w);
                lemma_sound_update(ast, registry, kids, j, caught(kids[j], w).0);
            }
        },
        SpecLive::Scope { body: Some(b), .. } => lemma_catch_sound(ast, registry, *b, w),
        _ => {},
    }
}

/// Whether every running fan-out of an engine is valid.
pub open spec fn engine_sound<A: Ast>(
    ast: A,
    registry: ReducerRegistry<A::Value, A::Delta, A::EffectError>,
    e: SpecEngine<A::Value, A::EffectError>,
) -> bool {
    match e.root {
        Some(t) => sound(ast, registry, t),
        None => true,
    }
}

pub(crate) proof fn lemma_move_sound<A: Ast>(
    ast: A,
    registry: ReducerRegistry<A::Value, A::Delta, A::EffectError>,
    root: Option<SpecLive<A::Value, A::EffectError>>,
    w: SpecWorld,
)
    requires
        surveyed(ast, registry, None),
        root matches Some(t) ==> sound(ast, registry, t),
    ensures
        next_move(ast, registry, root, w) matches SpecMove::Moved(t, _) ==> sound(ast, registry, t),
        next_move(ast, registry, root, w) matches SpecMove::Failed(t, _, _) ==> sound(
            ast,
            registry,
            t,
        ),
{
    match root {
        None => {
            lemma_root_reachable(ast);
            lemma_start_sound(ast, registry, ast.root_spec(), seq![ast.root_spec()], w);
        },
        Some(t) => {
            lemma_fail_sound(ast, registry, t, w);
            lemma_catch_sound(ast, registry, t, w);
            if crate::engine::live::has_gap(t) {
                lemma_fill_sound(ast, registry, t, w);
            }
            lemma_fire_sound(ast, registry, t, w);
            lemma_advance_sound(ast, registry, t, w);
        },
    }
}

proof fn lemma_run_sound<A: Ast>(
    ast: A,
    registry: ReducerRegistry<A::Value, A::Delta, A::EffectError>,
    e: SpecEngine<A::Value, A::EffectError>,
    bps: Option<Seq<(BreakpointId, SpecCondition)>>,
    skip: bool,
    fuel: nat,
)
    requires
        surveyed(ast, registry, None),
        engine_sound(ast, registry, e),
    ensures
        engine_sound(ast, registry, ran(ast, registry, e, bps, skip, fuel).0),
    decreases fuel,
{
    if !skip && stops_at(ast, e.root, bps) is Some {
    } else {
        lemma_move_sound(ast, registry, e.root, e.world);
        if let SpecMove::Moved(t, w) = next_move(ast, registry, e.root, e.world) {
            if fuel > 0 && !(t is Value) {
                let e1 = SpecEngine { root: Some(t), world: w, ..e };
                lemma_run_sound(ast, registry, e1, bps, false, (fuel - 1) as nat);
            }
        }
    }
}

/// A tree that passed construction never runs a malformed fan-out: a fresh
/// engine runs none, and stepping or answering keeps every running fan-out
/// valid.
pub proof fn law_running_fan_outs_are_valid<A: Ast>(
    ast: A,
    registry: ReducerRegistry<A::Value, A::Delta, A::EffectError>,
    e: SpecEngine<A::Value, A::EffectError>,
    bps: Option<Seq<(BreakpointId, SpecCondition)>>,
    skip: bool,
    id: SuspensionId,
    answer: Result<A::Value, A::EffectError>,
)
    requires
        surveyed(ast, registry, None),
    ensures
        engine_sound(ast, registry, fresh_engine::<A::Value, A::EffectError>()),
        engine_sound(ast, registry, e) ==> engine_sound(
            ast,
            registry,
            stepped(ast, registry, e, bps, skip).0,
        ),
        engine_sound(ast, registry, e) && e.root is Some ==> engine_sound(
            ast,
            registry,
            resolved(e, e.root->0, id, answer),
        ),
{
    if engine_sound(ast, registry, e) {
        lemma_run_sound(ast, registry, e, bps, skip, crate::engine::step::MOVE_LIMIT as nat);
        if let Some(t) = e.root {
            lemma_settle_sound(
                ast,
                registry,
                t,
                id,
                answer,
                e.world,
            );
        }
    }
}

} // verus!
