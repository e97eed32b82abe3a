//! The run loop that alternates the engine with the host's effects.
use vstd::prelude::*;
use vstd::string::*;

use crate::breakpoint::{BreakpointSet, SpecCondition};
use crate::context::{NodeContext, SpecContext};
use crate::engine::ast::{Ast, ExecError, SpecExecError};
use crate::engine::live::awaits;
use crate::engine::step::{live_pending, resolved, yielded, Engine, SpecEngine, MOVE_LIMIT};
use crate::engine::world::SpecWorld;
use crate::error::{EngineError, SpecEngineError};
use crate::event::{pendings_view, Pending, SpecPending, SuspendReason};
use crate::frame::{SpecOutcome, StepOutcome, Stepper};
use crate::ids::{BreakpointId, NodeId, Path, SuspensionId};
use crate::join::ReducerRegistry;

verus! {

/// How a drive loop ended while the interpretation is still healthy.
#[derive(Debug)]
pub enum DriveOutcome<V> {
    /// The interpretation completed.
    Done(V),
    /// The engine stopped at something other than a call. Driving it again
    /// resumes past the stop.
    Break {
        /// Suspensions live at the stop.
        at: Vec<Pending>,
    },
}

/// The mathematical shape of a [`DriveOutcome`].
pub enum SpecDrive<V> {
    Done(V),
    Break { at: Seq<SpecPending> },
}

impl<V> View for DriveOutcome<V> {
    type V = SpecDrive<V>;

    open spec fn view(&self) -> SpecDrive<V> {
        match self {
            DriveOutcome::Done(v) => SpecDrive::Done(*v),
            DriveOutcome::Break { at } => SpecDrive::Break { at: pendings_view(at@) },
        }
    }
}

/// One thing an effect backend was told.
pub enum SpecNote<V, E> {
    /// It was asked for the result of a call, and gave this one.
    Asked { pending: SpecPending, reply: Result<V, E> },
    /// It was told that a suspension was cancelled.
    Dropped { sid: SuspensionId },
}

/// Effect backend that answers one call at a time.
pub trait EffectResolver<A: Ast> {
    /// What the backend was told so far.
    spec fn notes(&self) -> Seq<SpecNote<A::Value, A::EffectError>>;

    /// The result of one suspended call.
    fn resolve(&mut self, pending: &Pending) -> (reply: Result<A::Value, A::EffectError>)
        ensures
            final(self).notes() == old(self).notes().push(
                SpecNote::Asked { pending: pending@, reply },
            ),
    ;

    /// Notice that a suspension was cancelled.
    fn cancelled(&mut self, sid: SuspensionId)
        ensures
            final(self).notes() == old(self).notes().push(SpecNote::Dropped { sid }),
    ;
}

/// The notices of a list of cancelled suspensions.
pub open spec fn drops<V, E>(sids: Seq<SuspensionId>) -> Seq<SpecNote<V, E>> {
    Seq::new(sids.len(), |i: int| SpecNote::Dropped { sid: sids[i] })
}

/// What a driver does next for a blocked engine.
pub enum NextCall {
    /// Hand control back.
    Break(Vec<Pending>),
    /// Answer this call and go on.
    Resolve(Pending),
}

/// The mathematical shape of a [`NextCall`].
pub enum SpecNextCall {
    Break(Seq<SpecPending>),
    Resolve(SpecPending),
}

impl View for NextCall {
    type V = SpecNextCall;

    open spec fn view(&self) -> SpecNextCall {
        match self {
            NextCall::Break(ps) => SpecNextCall::Break(pendings_view(ps@)),
            NextCall::Resolve(p) => SpecNextCall::Resolve(p@),
        }
    }
}

/// A breach of the step contract, reported at the root.
pub open spec fn breach<E>(root: NodeId, detail: Seq<char>) -> SpecExecError<E> {
    SpecExecError::Engine(
        SpecEngineError::StepperProtocol {
            at: SpecContext {
                node: root,
                path: seq![root],
                frame: None,
                depth: 0,
                iteration: None,
            },
            detail,
        },
    )
}

/// What a driver does next for a blocked engine: it breaks on anything but
/// calls, and otherwise answers the first call.
pub open spec fn next_action<E>(root: NodeId, live: Seq<SpecPending>) -> Result<
    SpecNextCall,
    SpecExecError<E>,
> {
    if exists|i: int| 0 <= i < live.len() && !((#[trigger] live[i]).reason is Call) {
        Ok(SpecNextCall::Break(live))
    } else if live.len() > 0 {
        Ok(SpecNextCall::Resolve(live[0]))
    } else {
        Err(breach(root, "engine blocked with no pending suspensions"@))
    }
}

/// An engine whose cancelled suspensions have been collected.
pub open spec fn collected_notices<V, E>(e: SpecEngine<V, E>) -> SpecEngine<V, E> {
    SpecEngine { world: SpecWorld { cancelled: Seq::empty(), ..e.world }, ..e }
}

/// How a drive ended: the engine, the outcome, and what the backend was told
/// on the way.
pub struct SpecDriven<V, E> {
    pub engine: SpecEngine<V, E>,
    pub out: Result<SpecDrive<V>, SpecExecError<E>>,
    pub notes: Seq<SpecNote<V, E>>,
}

/// The same drive, after other things the backend was told.
pub open spec fn following<V, E>(
    notes: Seq<SpecNote<V, E>>,
    rest: Option<SpecDriven<V, E>>,
) -> Option<SpecDriven<V, E>> {
    match rest {
        Some(d) => Some(SpecDriven { notes: notes + d.notes, ..d }),
        None => None,
    }
}

/// A drive that ends here, if no reply is left over.
pub open spec fn ended<V, E>(
    engine: SpecEngine<V, E>,
    out: Result<SpecDrive<V>, SpecExecError<E>>,
    notes: Seq<SpecNote<V, E>>,
    left: nat,
) -> Option<SpecDriven<V, E>> {
    if left == 0 {
        Some(SpecDriven { engine, out, notes })
    } else {
        None
    }
}

/// How driving an engine ends when the calls are answered with `replies` in
/// turn, if all of them and no others are asked for within `fuel` rounds.
pub open spec fn driven<A: Ast>(
    ast: A,
    registry: ReducerRegistry<A::Value, A::Delta, A::EffectError>,
    e: SpecEngine<A::Value, A::EffectError>,
    entries: Seq<(BreakpointId, SpecCondition)>,
    replies: Seq<Result<A::Value, A::EffectError>>,
    fuel: nat,
) -> Option<SpecDriven<A::Value, A::EffectError>>
    decreases fuel,
{
    let (e1, out) = yielded(ast, registry, e, entries, MOVE_LIMIT as nat);
    let e2 = collected_notices(e1);
    let gone = drops(e1.world.cancelled);
    match out {
        Err(x) => ended(e2, Err(x), gone, replies.len()),
        Ok(SpecOutcome::Done(v)) => ended(e2, Ok(SpecDrive::Done(v)), gone, replies.len()),
        Ok(SpecOutcome::Ready) => ended(
            e2,
            Err(breach(ast.root_spec(), "engine did not yield"@)),
            gone,
            replies.len(),
        ),
        Ok(SpecOutcome::Blocked { .. }) => match next_action::<A::EffectError>(
            ast.root_spec(),
            live_pending(e2),
        ) {
            Err(x) => ended(e2, Err(x), gone, replies.len()),
            Ok(SpecNextCall::Break(at)) => ended(
                e2,
                Ok(SpecDrive::Break { at }),
                gone,
                replies.len(),
            ),
            Ok(SpecNextCall::Resolve(p)) => if replies.len() == 0 {
                None
            } else {
                let asked = gone.push(SpecNote::Asked { pending: p, reply: replies[0] });
                match e2.root {
                    Some(t) if awaits(t, p.id) => {
                        let settled = resolved(e2, t, p.id, replies[0]);
                        let e3 = collected_notices(settled);
                        let told = asked + drops(settled.world.cancelled);
                        if fuel == 0 {
                            ended(
                                e3,
                                Err(breach(ast.root_spec(), "engine did not yield"@)),
                                told,
                                (replies.len() - 1) as nat,
                            )
                        } else {
                            following(
                                told,
                                driven(
                                    ast,
                                    registry,
                                    e3,
                                    entries,
                                    replies.drop_first(),
                                    (fuel - 1) as nat,
                                ),
                            )
                        }
                    },
                    _ => ended(
                        e2,
                        Err(SpecExecError::Engine(SpecEngineError::UnknownSuspension { id: p.id })),
                        asked,
                        (replies.len() - 1) as nat,
                    ),
                }
            },
        },
    }
}

/// The view of how a drive ended.
pub open spec fn drive_view<V, E>(out: Result<DriveOutcome<V>, ExecError<E>>) -> Result<
    SpecDrive<V>,
    SpecExecError<E>,
> {
    match out {
        Ok(o) => Ok(o@),
        Err(e) => Err(e@),
    }
}

fn protocol_breach<A: Ast>(engine: &Engine<A>, detail: &str) -> (out: ExecError<A::EffectError>)
    ensures
        out@ == breach::<A::EffectError>(engine.tree().root_spec(), detail@),
{
    let root = engine.root_node();
    let at = NodeContext::at(root, Path::root().push(root));
    assert(at@.path =~= seq![root]);
    ExecError::Engine(EngineError::StepperProtocol { at, detail: detail.to_owned() })
}

/// Picks what to do next for a blocked engine.
pub fn next_call<A: Ast>(engine: &Engine<A>) -> (out: Result<NextCall, ExecError<A::EffectError>>)
    ensures
        match out {
            Ok(call) => next_action::<A::EffectError>(
                engine.tree().root_spec(),
                live_pending(engine@),
            ) == Ok::<SpecNextCall, SpecExecError<A::EffectError>>(call@),
            Err(e) => next_action::<A::EffectError>(
                engine.tree().root_spec(),
                live_pending(engine@),
            ) == Err::<SpecNextCall, SpecExecError<A::EffectError>>(e@),
        },
{
    let live = engine.pending();
    let ghost seen = pendings_view(live@);
    let n: usize = live.len();
    for i in 0..n
        invariant
            n == live@.len(),
            seen == pendings_view(live@),
            seen == live_pending(engine@),
            forall|j: int| 0 <= j < i ==> (#[trigger] seen[j]).reason is Call,
    {
        assert(seen[i as int] == live@[i as int]@);
        let call: bool = match &live[i].reason {
            SuspendReason::Call { .. } => true,
            _ => false,
        };
        if !call {
            return Ok(NextCall::Break(live));
        }
    }
    if n > 0 {
        assert(seen[0] == live@[0]@);
        Ok(NextCall::Resolve(live[0].clone()))
    } else {
        Err(protocol_breach(engine, "engine blocked with no pending suspensions"))
    }
}

/// Hands every cancelled suspension to the resolver.
fn notify_cancellations<A: Ast, R: EffectResolver<A>>(engine: &mut Engine<A>, resolver: &mut R)
    ensures
        final(engine).tree() == old(engine).tree(),
        final(engine).reducers() == old(engine).reducers(),
        final(engine)@ == collected_notices(old(engine)@),
        final(resolver).notes() == old(resolver).notes() + drops(old(engine)@.world.cancelled),
{
    let ghost before = resolver.notes();
    let ghost all = engine@.world.cancelled;
    let gone = engine.take_cancellations();
    assert(before + drops(all.take(0)) =~= before);
    for i in 0..gone.len()
        invariant
            all == gone@,
            resolver.notes() == before + drops(all.take(i as int)),
    {
        resolver.cancelled(gone[i]);
        assert(resolver.notes() =~= before + drops(all.take(i + 1)));
    }
    assert(all.take(all.len() as int) =~= all);
}

/// Drives an engine to completion or to a stop, answering every call through
/// the resolver, one at a time. What the engine discards is reported as
/// cancelled and never answered.
pub fn drive<A: Ast, R: EffectResolver<A>>(
    engine: &mut Engine<A>,
    resolver: &mut R,
    bps: &BreakpointSet,
) -> (out: Result<DriveOutcome<A::Value>, ExecError<A::EffectError>>)
    ensures
        final(engine).tree() == old(engine).tree(),
        final(engine).reducers() == old(engine).reducers(),
        exists|
            replies: Seq<Result<A::Value, A::EffectError>>,
            notes: Seq<SpecNote<A::Value, A::EffectError>>,
        |
            {
                &&& #[trigger] driven(
                    old(engine).tree(),
                    old(engine).reducers(),
                    old(engine)@,
                    bps@.entries,
                    replies,
                    MOVE_LIMIT as nat,
                ) == Some(SpecDriven { engine: final(engine)@, out: drive_view(out), notes })
                &&& final(resolver).notes() == #[trigger] (old(resolver).notes() + notes)
            },
{
    let ghost tree = engine.tree();
    let ghost reducers = engine.reducers();
    let ghost from = engine@;
    let ghost start = resolver.notes();
    let ghost mut given: Seq<Result<A::Value, A::EffectError>> = Seq::empty();
    let ghost mut past: Seq<SpecNote<A::Value, A::EffectError>> = Seq::empty();
    let ghost none: Seq<Result<A::Value, A::EffectError>> = Seq::empty();
    let mut fuel: u64 = MOVE_LIMIT;
    proof {
        assert(start + past =~= start);
        assert forall|more: Seq<Result<A::Value, A::EffectError>>|
            #![trigger driven(tree, reducers, from, bps@.entries, more, fuel as nat)]
            driven(tree, reducers, from, bps@.entries, given + more, MOVE_LIMIT as nat)
                == following(
                past,
                driven(tree, reducers, from, bps@.entries, more, fuel as nat),
            ) by {
            assert(given + more =~= more);
            if let Some(d) = driven(tree, reducers, from, bps@.entries, more, fuel as nat) {
                assert(past + d.notes =~= d.notes);
            }
        }
    }
    loop
        invariant
            tree == old(engine).tree(),
            reducers == old(engine).reducers(),
            from == old(engine)@,
            start == old(resolver).notes(),
            resolver.notes() == start + past,
            engine.tree() == tree,
            engine.reducers() == reducers,
            none.len() == 0,
            forall|more: Seq<Result<A::Value, A::EffectError>>|
                #![trigger driven(tree, reducers, engine@, bps@.entries, more, fuel as nat)]
                driven(tree, reducers, from, bps@.entries, given + more, MOVE_LIMIT as nat)
                    == following(
                    past,
                    driven(tree, reducers, engine@, bps@.entries, more, fuel as nat),
                ),
        decreases fuel,
    {
        let ghost here = engine@;
        let ghost left = fuel as nat;
        let ghost sofar = given;
        let ghost heard = past;
        let report = engine.run_to_yield_with_breakpoints(bps);
        let ghost ran = engine@;
        notify_cancellations(engine, resolver);
        let ghost there = engine@;
        let ghost gone = drops::<A::Value, A::EffectError>(ran.world.cancelled);
        assert(resolver.notes() =~= start + (heard + gone));
        let outcome = match report {
            Err(e) => {
                proof {
                    let d = SpecDriven { engine: there, out: Err(e@), notes: gone };
                    assert(driven(tree, reducers, here, bps@.entries, none, left) == Some(d));
                    assert(sofar + none =~= sofar);
                }
                return Err(e);
            },
            Ok(outcome) => outcome,
        };
        match outcome {
            StepOutcome::Done(v) => {
                proof {
                    let d = SpecDriven {
                        engine: there,
                        out: Ok::<_, SpecExecError<A::EffectError>>(SpecDrive::Done(v)),
                        notes: gone,
                    };
                    assert(driven(tree, reducers, here, bps@.entries, none, left) == Some(d));
                    assert(sofar + none =~= sofar);
                }
                return Ok(DriveOutcome::Done(v));
            },
            StepOutcome::Ready => {
                let e = protocol_breach(engine, "engine did not yield");
                proof {
                    let d = SpecDriven { engine: there, out: Err(e@), notes: gone };
                    assert(driven(tree, reducers, here, bps@.entries, none, left) == Some(d));
                    assert(sofar + none =~= sofar);
                }
                return Err(e);
            },
            StepOutcome::Blocked { .. } => {
                match next_call(engine) {
                    Err(e) => {
                        proof {
                            let d = SpecDriven { engine: there, out: Err(e@), notes: gone };
                            assert(driven(tree, reducers, here, bps@.entries, none, left) == Some(
                                d,
                            ));
                            assert(sofar + none =~= sofar);
                        }
                        return Err(e);
                    },
                    Ok(NextCall::Break(at)) => {
                        let stop: Result<DriveOutcome<A::Value>, ExecError<A::EffectError>> = Ok(
                            DriveOutcome::Break { at },
                        );
                        proof {
                            let d = SpecDriven {
                                engine: there,
                                out: drive_view(stop),
                                notes: gone,
                            };
                            assert(driven(tree, reducers, here, bps@.entries, none, left) == Some(
                                d,
                            ));
                            assert(sofar + none =~= sofar);
                        }
                        return stop;
                    },
                    Ok(NextCall::Resolve(p)) => {
                        let reply = resolver.resolve(&p);
                        let ghost one = seq![reply];
                        let ghost asked = gone.push(SpecNote::Asked { pending: p@, reply });
                        assert(resolver.notes() =~= start + (heard + asked));
                        let settled = engine.resolve(p.id, reply);
                        let ghost after = engine@;
                        match settled {
                            Err(e) => {
                                proof {
                                    assert(one.len() == 1);
                                    let d = SpecDriven { engine: there, out: Err(e@), notes: asked };
                                    assert(driven(tree, reducers, here, bps@.entries, one, left)
                                        == Some(d));
                                    assert(driven(
                                        tree,
                                        reducers,
                                        from,
                                        bps@.entries,
                                        sofar + one,
                                        MOVE_LIMIT as nat,
                                    ) == following(heard, Some(d)));
                                }
                                return Err(e);
                            },
                            Ok(()) => {},
                        }
                        notify_cancellations(engine, resolver);
                        let ghost told = asked + drops::<A::Value, A::EffectError>(
                            after.world.cancelled,
                        );
                        assert(resolver.notes() =~= start + (heard + told));
                        if fuel == 0 {
                            let e = protocol_breach(engine, "engine did not yield");
                            proof {
                                assert(one.len() == 1);
                                assert(one[0] == reply);
                                let d = SpecDriven { engine: engine@, out: Err(e@), notes: told };
                                assert(driven(tree, reducers, here, bps@.entries, one, left)
                                    == Some(d));
                                assert(driven(
                                    tree,
                                    reducers,
                                    from,
                                    bps@.entries,
                                    sofar + one,
                                    MOVE_LIMIT as nat,
                                ) == following(heard, Some(d)));
                            }
                            return Err(e);
                        }
                        fuel -= 1;
                        proof {
                            given = sofar.push(reply);
                            past = heard + told;
                            assert forall|more: Seq<Result<A::Value, A::EffectError>>|
                                #![trigger driven(
                                    tree,
                                    reducers,
                                    engine@,
                                    bps@.entries,
                                    more,
                                    fuel as nat,
                                )]
                                driven(
                                    tree,
                                    reducers,
                                    from,
                                    bps@.entries,
                                    given + more,
                                    MOVE_LIMIT as nat,
                                ) == following(
                                    past,
                                    driven(
                                        tree,
                                        reducers,
                                        engine@,
                                        bps@.entries,
                                        more,
                                        fuel as nat,
                                    ),
                                ) by {
                                let longer = one + more;
                                let rest = driven(
                                    tree,
                                    reducers,
                                    engine@,
                                    bps@.entries,
                                    more,
                                    fuel as nat,
                                );
                                assert(given + more =~= sofar + longer);
                                assert(longer.drop_first() =~= more);
                                assert(longer[0] == reply);
                                assert(driven(
                                    tree,
                                    reducers,
                                    here,
                                    bps@.entries,
                                    longer,
                                    left,
                                ) == following(told, rest));
                                if let Some(d) = rest {
                                    assert(heard + (told + d.notes) =~= past + d.notes);
                                }
                            }
                        }
                    },
                }
            },
        }
    }
}

} // verus!
