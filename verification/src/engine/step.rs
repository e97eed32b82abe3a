//! The engine itself: stepping, answering and reading an interpretation.
use std::sync::Arc;

use vstd::prelude::*;
use vstd::string::*;

use crate::breakpoint::{hits, BreakpointSet, SpecCondition};
use crate::context::SpecContext;
use crate::engine::advance::{advance, advanced};
use crate::engine::ast::{copy_value, Ast, ExecError, SpecExecError};
use crate::engine::cancel::{
    catch_failure, caught, failed_up, failure, send_failure_up, travelling_failure,
};
use crate::engine::fire::{fire, fired};
use crate::engine::live::{
    advances, awaits, catching, failing, fireable, gap, has_gap, starting, suspensions, upcoming,
    Live, SpecLive,
};
use crate::engine::project::{bare_node, show, show_node, shown};
use crate::engine::settle::{settle, settled};
use crate::engine::spawn::{fill, filled, start, started};
use crate::engine::validate::{surveyed, validate_ast};
use crate::engine::world::{
    first_world, place, place_at, sink_heard, told, Heard, SpecWorld, World,
};
use crate::error::{EngineError, SpecEngineError};
use crate::event::{
    pendings_view, summary_text, CountingSink, Event, EventSink, Pending, SpecEvent, SpecPending,
    SpecReason, SuspendReason,
};
use crate::frame::{FrameTree, PendingList, SpecFrameTree, SpecOutcome, StepOutcome, Stepper};
use crate::ids::{same_nodes, successor, BreakpointId, NodeId, Path, SuspensionId};
use crate::join::ReducerRegistry;

verus! {

/// How many moves one step makes at most before it reports [`StepOutcome::Ready`].
pub const MOVE_LIMIT: u64 = 0xffff_ffff_ffff_ffff;

/// One interpretation of a tree.
#[verifier::reject_recursive_types(A)]
pub struct Engine<A: Ast> {
    ast: A,
    registry: Arc<ReducerRegistry<A::Value, A::Delta, A::EffectError>>,
    root: Option<Live<A::Value, A::EffectError>>,
    world: World,
    done: bool,
    result: Option<A::Value>,
    halt: Option<Pending>,
}

/// The mathematical shape of an [`Engine`]'s state.
pub struct SpecEngine<V, E> {
    /// The frames, once the root has started.
    pub root: Option<SpecLive<V, E>>,
    /// Fresh numbers, notices and events.
    pub world: SpecWorld,
    /// Whether the interpretation is over.
    pub done: bool,
    /// Its value, if it has one.
    pub result: Option<V>,
    /// The breakpoint it stands at.
    pub halt: Option<SpecPending>,
}

/// An engine before its first step.
pub open spec fn fresh_engine<V, E>() -> SpecEngine<V, E> {
    SpecEngine { root: None, world: first_world(), done: false, result: None, halt: None }
}

/// What one move does.
pub enum SpecMove<V, E> {
    /// The frames and the world changed.
    Moved(SpecLive<V, E>, SpecWorld),
    /// Only the host can go on.
    Stuck,
    /// A failure reached the root.
    Failed(SpecLive<V, E>, SpecWorld, E),
    /// A reducer refused.
    Broken(SpecEngineError),
}

/// The next move: a failure travels up before anything else, to the root or
/// to a fan-out that collects it, then declared children start one at a
/// time, then a complete fan-out joins, then a value moves up.
pub open spec fn next_move<A: Ast>(
    ast: A,
    registry: ReducerRegistry<A::Value, A::Delta, A::EffectError>,
    root: Option<SpecLive<A::Value, A::EffectError>>,
    w: SpecWorld,
) -> SpecMove<A::Value, A::EffectError> {
    match root {
        None => {
            let (t1, w1) = started(ast, ast.root_spec(), seq![ast.root_spec()], w);
            SpecMove::Moved(t1, w1)
        },
        Some(t) => if failing(t) {
            let (t1, w1) = failed_up(t, w);
            SpecMove::Failed(t1, w1, failure(t))
        } else if catching(t) {
            let (t1, w1) = caught(t, w);
            SpecMove::Moved(t1, w1)
        } else if has_gap(t) {
            let (t1, w1) = filled(ast, t, w);
            SpecMove::Moved(t1, w1)
        } else if fireable(t) {
            match fired(registry, t, w) {
                Ok((t1, w1)) => SpecMove::Moved(t1, w1),
                Err(e) => SpecMove::Broken(e),
            }
        } else if advances(t) {
            let (t1, w1) = advanced(ast, t, w);
            SpecMove::Moved(t1, w1)
        } else {
            SpecMove::Stuck
        },
    }
}

/// Where the next move starts a frame, if that is what it does. A failure that
/// travels up and a fan-out that joins go first.
pub open spec fn next_start<A: Ast>(
    ast: A,
    root: Option<SpecLive<A::Value, A::EffectError>>,
) -> Option<(NodeId, Seq<NodeId>)> {
    match root {
        None => Some((ast.root_spec(), seq![ast.root_spec()])),
        Some(t) => if failing(t) || catching(t) {
            None
        } else if has_gap(t) {
            Some(gap(t))
        } else if fireable(t) {
            None
        } else {
            starting(t)
        },
    }
}

/// The first place where a frame has yet to start, whatever has to happen
/// before it can.
pub open spec fn ahead<A: Ast>(
    ast: A,
    root: Option<SpecLive<A::Value, A::EffectError>>,
) -> Option<(NodeId, Seq<NodeId>)> {
    match root {
        None => Some((ast.root_spec(), seq![ast.root_spec()])),
        Some(t) => if has_gap(t) {
            Some(gap(t))
        } else {
            upcoming(t)
        },
    }
}

/// The context a breakpoint stops at: that of the frame the next move starts.
pub open spec fn stops_at<A: Ast>(
    ast: A,
    root: Option<SpecLive<A::Value, A::EffectError>>,
    bps: Option<Seq<(BreakpointId, SpecCondition)>>,
) -> Option<SpecContext> {
    match (bps, next_start(ast, root)) {
        (Some(entries), Some(at)) => if hits(entries, place(at.0, at.1, None)).len() > 0 {
            Some(place(at.0, at.1, None))
        } else {
            None
        },
        _ => None,
    }
}

/// An engine that stops at a breakpoint, and what it reports.
pub open spec fn halted<V, E>(e: SpecEngine<V, E>, at: SpecContext) -> (
    SpecEngine<V, E>,
    Result<SpecOutcome<V>, SpecExecError<E>>,
) {
    let mark = SpecPending {
        id: SuspensionId(e.world.next_sid),
        reason: SpecReason::Breakpoint,
        at,
    };
    let told_world = told(
        SpecWorld { next_sid: successor(e.world.next_sid), ..e.world },
        SpecEvent::Suspend { at, reason: SpecReason::Breakpoint },
    );
    (
        SpecEngine {
            halt: Some(mark),
            world: SpecWorld { newly: Seq::empty(), ..told_world },
            ..e
        },
        Ok(SpecOutcome::Blocked { newly_pending: e.world.newly.push(mark) }),
    )
}

/// An engine whose root has a value, and what it reports.
pub open spec fn finished<V, E>(e: SpecEngine<V, E>, value: V) -> (
    SpecEngine<V, E>,
    Result<SpecOutcome<V>, SpecExecError<E>>,
) {
    (
        SpecEngine {
            done: true,
            result: Some(value),
            world: SpecWorld { newly: Seq::empty(), ..e.world },
            ..e
        },
        Ok(SpecOutcome::Done(value)),
    )
}

/// An engine that moves until it is done, blocked, halted or failed, and
/// what it reports.
pub open spec fn ran<A: Ast>(
    ast: A,
    registry: ReducerRegistry<A::Value, A::Delta, A::EffectError>,
    e: SpecEngine<A::Value, A::EffectError>,
    bps: Option<Seq<(BreakpointId, SpecCondition)>>,
    skip: bool,
    fuel: nat,
) -> (
    SpecEngine<A::Value, A::EffectError>,
    Result<SpecOutcome<A::Value>, SpecExecError<A::EffectError>>,
)
    decreases fuel,
{
    if !skip && stops_at(ast, e.root, bps) is Some {
        halted(e, stops_at(ast, e.root, bps)->0)
    } else {
        match next_move(ast, registry, e.root, e.world) {
            SpecMove::Moved(t, w) => {
                let e1 = SpecEngine { root: Some(t), world: w, ..e };
                match t {
                    SpecLive::Value { value, .. } => finished(e1, value),
                    _ => if fuel == 0 {
                        (e1, Ok(SpecOutcome::Ready))
                    } else {
                        ran(ast, registry, e1, bps, false, (fuel - 1) as nat)
                    },
                }
            },
            SpecMove::Stuck => (
                SpecEngine { world: SpecWorld { newly: Seq::empty(), ..e.world }, ..e },
                Ok(SpecOutcome::Blocked { newly_pending: e.world.newly }),
            ),
            SpecMove::Failed(t, w, error) => (
                SpecEngine { root: Some(t), world: w, done: true, ..e },
                Err(SpecExecError::Effect(error)),
            ),
            SpecMove::Broken(error) => (e, Err(SpecExecError::Engine(error))),
        }
    }
}

/// One step of an engine. An engine that is over stays as it is.
pub open spec fn stepped<A: Ast>(
    ast: A,
    registry: ReducerRegistry<A::Value, A::Delta, A::EffectError>,
    e: SpecEngine<A::Value, A::EffectError>,
    bps: Option<Seq<(BreakpointId, SpecCondition)>>,
    skip: bool,
) -> (
    SpecEngine<A::Value, A::EffectError>,
    Result<SpecOutcome<A::Value>, SpecExecError<A::EffectError>>,
) {
    if e.done {
        match e.result {
            Some(v) => (e, Ok(SpecOutcome::Done(v))),
            None => (e, Ok(SpecOutcome::Blocked { newly_pending: Seq::empty() })),
        }
    } else {
        match e.root {
            Some(SpecLive::Value { value, .. }) => finished(e, value),
            _ => ran(ast, registry, e, bps, skip, MOVE_LIMIT as nat),
        }
    }
}

/// Whether an engine stands at a breakpoint before the frame that its next
/// move starts.
pub open spec fn resumes<A: Ast>(
    ast: A,
    e: SpecEngine<A::Value, A::EffectError>,
) -> bool {
    e.halt matches Some(mark) && next_start(ast, e.root) == Some((mark.at.node, mark.at.path))
}

/// One step of an engine that stops at breakpoints. The frame it stands at
/// starts unchecked; where something else has come up since, that is checked.
pub open spec fn bp_stepped<A: Ast>(
    ast: A,
    registry: ReducerRegistry<A::Value, A::Delta, A::EffectError>,
    e: SpecEngine<A::Value, A::EffectError>,
    entries: Seq<(BreakpointId, SpecCondition)>,
) -> (
    SpecEngine<A::Value, A::EffectError>,
    Result<SpecOutcome<A::Value>, SpecExecError<A::EffectError>>,
) {
    stepped(ast, registry, SpecEngine { halt: None, ..e }, Some(entries), resumes(ast, e))
}

/// Steps until the report is anything but `Ready`, `fuel + 1` steps at most.
pub open spec fn yielded<A: Ast>(
    ast: A,
    registry: ReducerRegistry<A::Value, A::Delta, A::EffectError>,
    e: SpecEngine<A::Value, A::EffectError>,
    entries: Seq<(BreakpointId, SpecCondition)>,
    fuel: nat,
) -> (
    SpecEngine<A::Value, A::EffectError>,
    Result<SpecOutcome<A::Value>, SpecExecError<A::EffectError>>,
)
    decreases fuel,
{
    let (e1, out) = bp_stepped(ast, registry, e, entries);
    if fuel > 0 && out == Ok::<SpecOutcome<A::Value>, SpecExecError<A::EffectError>>(
        SpecOutcome::Ready,
    ) {
        yielded(ast, registry, e1, entries, (fuel - 1) as nat)
    } else {
        (e1, out)
    }
}

/// The live suspensions of an engine: those of its frames, depth first, then
/// the breakpoint it stands at.
pub open spec fn live_pending<V, E>(e: SpecEngine<V, E>) -> Seq<SpecPending> {
    let calls = match e.root {
        Some(t) => suspensions(t),
        None => Seq::empty(),
    };
    match e.halt {
        Some(mark) => calls.push(mark),
        None => calls,
    }
}

/// The path of the node an engine is at: that of the first live suspension,
/// or of the first frame that has yet to start.
pub open spec fn active_path<A: Ast>(
    ast: A,
    e: SpecEngine<A::Value, A::EffectError>,
) -> Option<Seq<NodeId>> {
    if live_pending(e).len() > 0 {
        Some(live_pending(e)[0].at.path)
    } else if e.done {
        None
    } else {
        match ahead(ast, e.root) {
            Some(at) => Some(at.1),
            None => None,
        }
    }
}

/// What one move did.
enum Moved<E> {
    Moved,
    Stuck,
    Failed(E),
    Broken(EngineError),
}

/// The view of a report.
pub open spec fn report_view<V, E>(out: Result<StepOutcome<V>, ExecError<E>>) -> Result<
    SpecOutcome<V>,
    SpecExecError<E>,
> {
    match out {
        Ok(o) => Ok(o@),
        Err(e) => Err(e@),
    }
}

impl<A: Ast> View for Engine<A> {
    type V = SpecEngine<A::Value, A::EffectError>;

    closed spec fn view(&self) -> SpecEngine<A::Value, A::EffectError> {
        SpecEngine {
            root: match self.root {
                Some(t) => Some(t@),
                None => None,
            },
            world: self.world@,
            done: self.done,
            result: self.result,
            halt: match self.halt {
                Some(p) => Some(p@),
                None => None,
            },
        }
    }
}

impl<A: Ast> Engine<A> {
    /// The tree.
    pub closed spec fn tree(&self) -> A {
        self.ast
    }

    /// The reducers.
    pub closed spec fn reducers(&self) -> ReducerRegistry<A::Value, A::Delta, A::EffectError> {
        *self.registry
    }

    /// The attached sink, if there is one.
    pub closed spec fn sink(&self) -> Option<Box<dyn EventSink>> {
        self.world.sink
    }

    /// What the attached sink has heard is what the state says was heard.
    pub proof fn law_the_attached_sink_hears_the_events(&self)
        ensures
            self@.world.heard == sink_heard(self.sink()),
    {
    }

    /// An engine at the root of `ast`. Every node is checked first; nothing
    /// starts and no event is emitted before the first step.
    pub fn new(
        ast: A,
        registry: Arc<ReducerRegistry<A::Value, A::Delta, A::EffectError>>,
    ) -> (out: Result<Self, EngineError>)
        ensures
            match out {
                Ok(engine) => surveyed(ast, *registry, None) && engine.tree() == ast
                    && engine.reducers() == *registry && engine.sink() is None && engine@
                    == fresh_engine::<A::Value, A::EffectError>(),
                Err(e) => surveyed(ast, *registry, Some(e@)),
            },
    {
        match validate_ast(&ast, &*registry) {
            Err(e) => Err(e),
            Ok(()) => Ok(
                Engine {
                    ast,
                    registry,
                    root: None,
                    world: World::new(),
                    done: false,
                    result: None,
                    halt: None,
                },
            ),
        }
    }

    /// The root node, known before the first step.
    pub fn root_node(&self) -> (out: NodeId)
        ensures
            out == self.tree().root_spec(),
    {
        self.ast.root()
    }

    /// The event counters.
    pub fn events<'a>(&'a self) -> (out: &'a CountingSink)
        ensures
            *out == self@.world.counts,
    {
        &self.world.counts
    }

    /// The event counters in one line.
    pub fn event_summary(&self) -> (out: String)
        ensures
            out@ == summary_text(self@.world.counts),
    {
        self.world.counts.summarise()
    }

    /// Attaches a sink that receives every later event, and gives back the
    /// one it replaces.
    pub fn attach_sink(&mut self, sink: Box<dyn EventSink>) -> (out: Option<Box<dyn EventSink>>)
        ensures
            out == old(self).sink(),
            final(self).sink() == Some(sink),
            sink_heard(out) == old(self)@.world.heard,
            final(self)@ == (SpecEngine {
                world: SpecWorld {
                    heard: Some(Heard { keeps: sink.keeps(), memory: sink.memory() }),
                    ..old(self)@.world
                },
                ..old(self)@
            }),
            final(self).tree() == old(self).tree(),
            final(self).reducers() == old(self).reducers(),
    {
        let mut other = Some(sink);
        std::mem::swap(&mut other, &mut self.world.sink);
        other
    }

    /// Detaches the sink, if there is one.
    pub fn detach_sink(&mut self) -> (out: Option<Box<dyn EventSink>>)
        ensures
            out == old(self).sink(),
            final(self).sink() is None,
            sink_heard(out) == old(self)@.world.heard,
            final(self)@ == (SpecEngine {
                world: SpecWorld { heard: None, ..old(self)@.world },
                ..old(self)@
            }),
            final(self).tree() == old(self).tree(),
            final(self).reducers() == old(self).reducers(),
    {
        let mut other: Option<Box<dyn EventSink>> = None;
        std::mem::swap(&mut other, &mut self.world.sink);
        other
    }

    /// The live suspensions.
    fn live(&self) -> (out: Vec<Pending>)
        ensures
            pendings_view(out@) == live_pending(self@),
    {
        let mut out: Vec<Pending> = match &self.root {
            Some(t) => t.suspensions(),
            None => Vec::new(),
        };
        assert(self@.root is None ==> pendings_view(out@) =~= Seq::empty());
        let ghost calls = pendings_view(out@);
        if let Some(mark) = &self.halt {
            out.push(mark.clone());
            assert(pendings_view(out@) =~= calls.push(mark@));
        }
        out
    }

    /// Where the next move starts a frame.
    fn next_start(&self) -> (out: Option<(NodeId, Path)>)
        ensures
            match out {
                Some(at) => next_start(self.tree(), self@.root) == Some((at.0, at.1@)),
                None => next_start(self.tree(), self@.root) is None,
            },
    {
        match &self.root {
            None => {
                let id = self.ast.root();
                let path = Path::root().push(id);
                assert(path@ =~= seq![id]);
                Some((id, path))
            },
            Some(t) => if t.failing() || t.catching() {
                None
            } else if t.has_gap() {
                Some(t.gap())
            } else if t.fireable() {
                None
            } else {
                t.starting()
            },
        }
    }

    /// The first place where a frame has yet to start.
    fn ahead(&self) -> (out: Option<(NodeId, Path)>)
        ensures
            match out {
                Some(at) => ahead(self.tree(), self@.root) == Some((at.0, at.1@)),
                None => ahead(self.tree(), self@.root) is None,
            },
    {
        match &self.root {
            None => self.next_start(),
            Some(t) => if t.has_gap() {
                Some(t.gap())
            } else {
                t.upcoming()
            },
        }
    }

    /// The path of the node the engine is at: that of the first live
    /// suspension, or of the first frame that has yet to start.
    pub fn current_path(&self) -> (out: Option<Path>)
        ensures
            match out {
                Some(path) => active_path(self.tree(), self@) == Some(path@),
                None => active_path(self.tree(), self@) is None,
            },
    {
        let live = self.live();
        assert(pendings_view(live@).len() == live@.len());
        if live.len() > 0 {
            assert(pendings_view(live@)[0] == live@[0]@);
            return Some(live[0].at.path.clone());
        }
        if self.done {
            return None;
        }
        match self.ahead() {
            Some(at) => Some(at.1),
            None => None,
        }
    }

    /// Depth of [`Engine::current_path`], `0` without one.
    pub fn depth(&self) -> (out: usize)
        ensures
            out == match active_path(self.tree(), self@) {
                Some(path) => path.len(),
                None => 0,
            },
    {
        match self.current_path() {
            Some(path) => path.depth(),
            None => 0,
        }
    }

    /// Suspension, node and label of the only live suspension, if it is a
    /// call.
    pub fn suspended_call(&self) -> (out: Option<(SuspensionId, NodeId, String)>)
        ensures
            match out {
                Some(c) => live_pending(self@).len() == 1 && live_pending(self@)[0].id == c.0
                    && live_pending(self@)[0].at.node == c.1 && (live_pending(self@)[0].reason
                    matches SpecReason::Call { spec } && spec.label == c.2@),
                None => live_pending(self@).len() != 1 || !(live_pending(self@)[0].reason is Call),
            },
    {
        let live = self.live();
        assert(pendings_view(live@).len() == live@.len());
        if live.len() != 1 {
            return None;
        }
        assert(pendings_view(live@)[0] == live@[0]@);
        let p = &live[0];
        match &p.reason {
            SuspendReason::Call { spec } => Some((p.id, p.at.node, spec.label.clone())),
            _ => None,
        }
    }

    /// Makes one move.
    fn make_move(&mut self) -> (out: Moved<A::EffectError>)
        ensures
            final(self).tree() == old(self).tree(),
            final(self).reducers() == old(self).reducers(),
            match next_move(
                old(self).tree(),
                old(self).reducers(),
                old(self)@.root,
                old(self)@.world,
            ) {
                SpecMove::Moved(t, w) => out is Moved && final(self)@ == (SpecEngine {
                    root: Some(t),
                    world: w,
                    ..old(self)@
                }),
                SpecMove::Stuck => out is Stuck && final(self)@ == old(self)@,
                SpecMove::Failed(t, w, e) => out == Moved::Failed(e) && final(self)@ == (
                SpecEngine { root: Some(t), world: w, ..old(self)@ }),
                SpecMove::Broken(e) => (out matches Moved::Broken(found) && found@ == e)
                    && final(self)@ == old(self)@,
            },
    {
        match &mut self.root {
            None => {
                let id = self.ast.root();
                let path = Path::root().push(id);
                assert(path@ =~= seq![id]);
                let t = start(&self.ast, id, path, &mut self.world);
                self.root = Some(t);
                Moved::Moved
            },
            Some(t) => {
                let travelling = travelling_failure::<A>(t);
                if let Some(e) = travelling {
                    send_failure_up(t, &mut self.world);
                    return Moved::Failed(e);
                }
                if t.catching() {
                    catch_failure::<A>(t, &mut self.world);
                    return Moved::Moved;
                }
                if t.has_gap() {
                    fill(&self.ast, t, &mut self.world);
                    return Moved::Moved;
                }
                if t.fireable() {
                    return match fire::<A>(&*self.registry, t, &mut self.world) {
                        Ok(()) => Moved::Moved,
                        Err(e) => Moved::Broken(e),
                    };
                }
                if t.advances() {
                    advance(&self.ast, t, &mut self.world);
                    return Moved::Moved;
                }
                Moved::Stuck
            },
        }
    }

    /// The value of the root, if it has one.
    fn root_value(&self) -> (out: Option<A::Value>)
        ensures
            match self@.root {
                Some(SpecLive::Value { value, .. }) => out == Some(value),
                _ => out is None,
            },
    {
        match &self.root {
            Some(Live::Value { value, .. }) => Some(copy_value::<A>(value)),
            _ => None,
        }
    }

    /// Ends the interpretation with a value.
    fn finish(&mut self, value: A::Value) -> (out: Result<
        StepOutcome<A::Value>,
        ExecError<A::EffectError>,
    >)
        ensures
            final(self).tree() == old(self).tree(),
            final(self).reducers() == old(self).reducers(),
            (final(self)@, report_view(out)) == finished(old(self)@, value),
    {
        self.done = true;
        self.result = Some(copy_value::<A>(&value));
        let _ = self.world.take_newly();
        Ok(StepOutcome::Done(value))
    }

    /// Where a breakpoint stops the engine.
    fn stop(&self, bps: Option<&BreakpointSet>) -> (out: Option<(NodeId, Path)>)
        ensures
            match out {
                Some(at) => stops_at(self.tree(), self@.root, entries_of(bps)) == Some(
                    place(at.0, at.1@, None),
                ),
                None => stops_at(self.tree(), self@.root, entries_of(bps)) is None,
            },
    {
        match bps {
            None => None,
            Some(set) => match self.next_start() {
                None => None,
                Some(at) => if set.matches(&place_at(at.0, &at.1, None)).len() > 0 {
                    Some(at)
                } else {
                    None
                },
            },
        }
    }

    /// Stops at a breakpoint.
    fn halt_at(&mut self, node: NodeId, path: &Path) -> (out: Result<
        StepOutcome<A::Value>,
        ExecError<A::EffectError>,
    >)
        ensures
            final(self).tree() == old(self).tree(),
            final(self).reducers() == old(self).reducers(),
            (final(self)@, report_view(out)) == halted(old(self)@, place(node, path@, None)),
    {
        let at = place_at(node, path, None);
        let id = self.world.fresh_sid();
        let mark = Pending { id, reason: SuspendReason::Breakpoint, at: at.clone() };
        self.world.tell(&Event::Suspend { at, reason: SuspendReason::Breakpoint });
        let mut newly = self.world.take_newly();
        let ghost before = pendings_view(newly@);
        newly.push(mark.clone());
        assert(pendings_view(newly@) =~= before.push(mark@));
        self.halt = Some(mark);
        Ok(StepOutcome::Blocked { newly_pending: PendingList::of(newly) })
    }

    /// Reports what is new and waits for the host.
    fn block(&mut self) -> (out: Result<StepOutcome<A::Value>, ExecError<A::EffectError>>)
        ensures
            final(self).tree() == old(self).tree(),
            final(self).reducers() == old(self).reducers(),
            final(self)@ == (SpecEngine {
                world: SpecWorld { newly: Seq::empty(), ..old(self)@.world },
                ..old(self)@
            }),
            report_view(out) == Ok::<SpecOutcome<A::Value>, SpecExecError<A::EffectError>>(
                SpecOutcome::Blocked { newly_pending: old(self)@.world.newly },
            ),
    {
        let newly = self.world.take_newly();
        Ok(StepOutcome::Blocked { newly_pending: PendingList::of(newly) })
    }

    /// One step, with or without breakpoints.
    fn step_inner(&mut self, bps: Option<&BreakpointSet>, skip_first: bool) -> (out: Result<
        StepOutcome<A::Value>,
        ExecError<A::EffectError>,
    >)
        ensures
            final(self).tree() == old(self).tree(),
            final(self).reducers() == old(self).reducers(),
            (final(self)@, report_view(out)) == stepped(
                old(self).tree(),
                old(self).reducers(),
                old(self)@,
                entries_of(bps),
                skip_first,
            ),
    {
        if self.done {
            return match &self.result {
                Some(v) => Ok(StepOutcome::Done(copy_value::<A>(v))),
                None => {
                    let none: Vec<Pending> = Vec::new();
                    assert(pendings_view(none@) =~= Seq::empty());
                    Ok(StepOutcome::Blocked { newly_pending: PendingList::of(none) })
                },
            };
        }
        if let Some(v) = self.root_value() {
            return self.finish(v);
        }
        let ghost tree = self.tree();
        let ghost reducers = self.reducers();
        let ghost from = self@;
        let ghost entries = entries_of(bps);
        let mut skip: bool = skip_first;
        let mut fuel: u64 = MOVE_LIMIT;
        loop
            invariant
                self.tree() == tree,
                self.reducers() == reducers,
                entries == entries_of(bps),
                ran(tree, reducers, from, entries, skip_first, MOVE_LIMIT as nat) == ran(
                    tree,
                    reducers,
                    self@,
                    entries,
                    skip,
                    fuel as nat,
                ),
                tree == old(self).tree(),
                reducers == old(self).reducers(),
                stepped(tree, reducers, old(self)@, entries, skip_first) == ran(
                    tree,
                    reducers,
                    from,
                    entries,
                    skip_first,
                    MOVE_LIMIT as nat,
                ),
            decreases fuel,
        {
            if !skip {
                if let Some(at) = self.stop(bps) {
                    return self.halt_at(at.0, &at.1);
                }
            }
            match self.make_move() {
                Moved::Moved => {
                    if let Some(v) = self.root_value() {
                        return self.finish(v);
                    }
                    if fuel == 0 {
                        return Ok(StepOutcome::Ready);
                    }
                    skip = false;
                    fuel -= 1;
                },
                Moved::Stuck => {
                    return self.block();
                },
                Moved::Failed(e) => {
                    self.done = true;
                    return Err(ExecError::Effect(e));
                },
                Moved::Broken(e) => {
                    return Err(ExecError::Engine(e));
                },
            }
        }
    }

    /// Whether the engine stands at a breakpoint before the frame that its
    /// next move starts.
    fn resumes(&self) -> (out: bool)
        ensures
            out == resumes(self.tree(), self@),
    {
        match (&self.halt, self.next_start()) {
            (Some(mark), Some(at)) => mark.at.node.0 == at.0.0 && same_nodes(
                &mark.at.path.0,
                &at.1.0,
            ),
            _ => false,
        }
    }

    /// Like a plain step, but stops before a frame starts whose context meets
    /// a breakpoint. Calling it again starts the frame it stands at unchecked
    /// and checks what comes after; where an answer has brought up something
    /// else in the meantime, that is checked first.
    pub fn step_with_breakpoints(&mut self, bps: &BreakpointSet) -> (out: Result<
        StepOutcome<A::Value>,
        ExecError<A::EffectError>,
    >)
        ensures
            final(self).tree() == old(self).tree(),
            final(self).reducers() == old(self).reducers(),
            (final(self)@, report_view(out)) == bp_stepped(
                old(self).tree(),
                old(self).reducers(),
                old(self)@,
                bps@.entries,
            ),
    {
        let resumed: bool = self.resumes();
        self.halt = None;
        self.step_inner(Some(bps), resumed)
    }

    /// Steps with breakpoints until the report is anything but `Ready`.
    pub fn run_to_yield_with_breakpoints(&mut self, bps: &BreakpointSet) -> (out: Result<
        StepOutcome<A::Value>,
        ExecError<A::EffectError>,
    >)
        ensures
            final(self).tree() == old(self).tree(),
            final(self).reducers() == old(self).reducers(),
            (final(self)@, report_view(out)) == yielded(
                old(self).tree(),
                old(self).reducers(),
                old(self)@,
                bps@.entries,
                MOVE_LIMIT as nat,
            ),
    {
        let ghost tree = self.tree();
        let ghost reducers = self.reducers();
        let mut fuel: u64 = MOVE_LIMIT;
        loop
            invariant
                tree == old(self).tree(),
                reducers == old(self).reducers(),
                self.tree() == tree,
                self.reducers() == reducers,
                yielded(tree, reducers, old(self)@, bps@.entries, MOVE_LIMIT as nat) == yielded(
                    tree,
                    reducers,
                    self@,
                    bps@.entries,
                    fuel as nat,
                ),
            decreases fuel,
        {
            match self.step_with_breakpoints(bps) {
                Ok(StepOutcome::Ready) => {
                    if fuel == 0 {
                        return Ok(StepOutcome::Ready);
                    }
                    fuel -= 1;
                },
                other => {
                    return other;
                },
            }
        }
    }
}

/// The entries of an optional set of breakpoints.
pub open spec fn entries_of(bps: Option<&BreakpointSet>) -> Option<
    Seq<(BreakpointId, SpecCondition)>,
> {
    match bps {
        Some(set) => Some(set@.entries),
        None => None,
    }
}

impl<A: Ast> Stepper for Engine<A> {
    type Value = A::Value;

    type Cursor = A::Cursor;

    type Delta = A::Delta;

    type EffectError = A::EffectError;

    type Error = ExecError<A::EffectError>;

    fn step(&mut self) -> (out: Result<StepOutcome<A::Value>, ExecError<A::EffectError>>)
        ensures
            final(self).tree() == old(self).tree(),
            final(self).reducers() == old(self).reducers(),
            (final(self)@, report_view(out)) == stepped(
                old(self).tree(),
                old(self).reducers(),
                old(self)@,
                None,
                false,
            ),
    {
        self.step_inner(None, false)
    }

    fn resolve(&mut self, id: SuspensionId, result: Result<A::Value, A::EffectError>) -> (out:
        Result<(), ExecError<A::EffectError>>)
        ensures
            final(self).tree() == old(self).tree(),
            final(self).reducers() == old(self).reducers(),
            match old(self)@.root {
                Some(t) if awaits(t, id) => out is Ok && final(self)@ == resolved(
                    old(self)@,
                    t,
                    id,
                    result,
                ),
                _ => (out matches Err(e) && e@ == SpecExecError::<A::EffectError>::Engine(
                    SpecEngineError::UnknownSuspension { id },
                )) && final(self)@ == old(self)@ && final(self).sink() == old(self).sink(),
            },
    {
        match &mut self.root {
            Some(t) => {
                if t.awaits(id) {
                    settle(t, id, result, &mut self.world);
                    return Ok(());
                }
            },
            None => {},
        }
        Err(ExecError::Engine(EngineError::UnknownSuspension { id }))
    }

    fn pending(&self) -> (out: Vec<Pending>)
        ensures
            pendings_view(out@) == live_pending(self@),
    {
        self.live()
    }

    fn take_cancellations(&mut self) -> (out: Vec<SuspensionId>)
        ensures
            final(self).tree() == old(self).tree(),
            final(self).reducers() == old(self).reducers(),
            final(self).sink() == old(self).sink(),
            out@ == old(self)@.world.cancelled,
            final(self)@ == (SpecEngine {
                world: SpecWorld { cancelled: Seq::empty(), ..old(self)@.world },
                ..old(self)@
            }),
    {
        self.world.take_cancelled()
    }

    fn frame_tree(&self) -> (out: FrameTree<A::Value, A::Cursor, A::Delta, A::EffectError>)
        ensures
            out@ == engine_tree(self.tree(), self.reducers(), self@.root),
    {
        match &self.root {
            Some(t) => show::<A>(&*self.registry, t),
            None => {
                let out = FrameTree { root: show_node::<A>(self.ast.root()), kids: Vec::new() };
                assert(out@.kids =~= Seq::empty());
                out
            },
        }
    }

    fn is_done(&self) -> (out: bool)
        ensures
            out == (self@.done && self@.result is Some),
    {
        self.done && self.result.is_some()
    }
}

/// An engine after a live suspension has been answered.
pub open spec fn resolved<V, E>(
    e: SpecEngine<V, E>,
    t: SpecLive<V, E>,
    id: SuspensionId,
    answer: Result<V, E>,
) -> SpecEngine<V, E> {
    let (t1, w1) = settled(t, id, answer, e.world);
    SpecEngine { root: Some(t1), world: w1, ..e }
}

/// The frame tree of an engine: that of its frames, or a bare node before
/// the root has started.
pub open spec fn engine_tree<A: Ast>(
    ast: A,
    registry: ReducerRegistry<A::Value, A::Delta, A::EffectError>,
    root: Option<SpecLive<A::Value, A::EffectError>>,
) -> SpecFrameTree<A::Value, A::Cursor, A::Delta, A::EffectError> {
    match root {
        Some(t) => shown::<A>(registry, t),
        None => SpecFrameTree { root: bare_node::<A>(ast.root_spec()), kids: Seq::empty() },
    }
}

} // verus!
