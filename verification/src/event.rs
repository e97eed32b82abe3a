//! The event stream of an evaluation and the sinks that observe it.
use vstd::prelude::*;
use vstd::string::*;

use crate::context::{NodeContext, SpecContext};
use crate::ids::SuspensionId;
use crate::text::{decimal, push_decimal};

pub mod laws;

verus! {

/// An arbitrary JSON value, carried through untouched.
#[verifier::external_type_specification]
#[verifier::external_body]
pub struct ExJsonValue(serde_json::Value);

/// `serde_json::Value::clone` copies the whole value.
pub assume_specification[ <serde_json::Value as Clone>::clone ](v: &serde_json::Value) -> (out:
    serde_json::Value)
    ensures
        out == *v,
;

/// Host-defined effect descriptor. Opaque to the engine.
#[derive(Debug)]
pub struct CallSpec {
    /// Short human-readable label.
    pub label: String,
    /// Effect payload, handed to the host verbatim.
    pub payload: serde_json::Value,
}

/// The mathematical shape of a [`CallSpec`].
pub struct SpecCall {
    pub label: Seq<char>,
    pub payload: serde_json::Value,
}

impl View for CallSpec {
    type V = SpecCall;

    open spec fn view(&self) -> SpecCall {
        SpecCall { label: self.label@, payload: self.payload }
    }
}

impl Clone for CallSpec {
    fn clone(&self) -> (out: Self)
        ensures
            out@ == self@,
    {
        CallSpec { label: self.label.clone(), payload: self.payload.clone() }
    }
}

/// Why the engine yielded control.
#[derive(Debug)]
pub enum SuspendReason {
    /// A first-class external effect.
    Call {
        /// Host-defined effect descriptor.
        spec: CallSpec,
    },
    /// A registered breakpoint fired.
    Breakpoint,
    /// The scheduler chose to yield cooperatively.
    Cooperative,
    /// Host-defined effect beyond `Call`.
    User {
        /// Short tag identifying the effect kind.
        tag: String,
    },
}

/// The mathematical shape of a [`SuspendReason`].
pub enum SpecReason {
    Call { spec: SpecCall },
    Breakpoint,
    Cooperative,
    User { tag: Seq<char> },
}

impl View for SuspendReason {
    type V = SpecReason;

    open spec fn view(&self) -> SpecReason {
        match self {
            SuspendReason::Call { spec } => SpecReason::Call { spec: spec@ },
            SuspendReason::Breakpoint => SpecReason::Breakpoint,
            SuspendReason::Cooperative => SpecReason::Cooperative,
            SuspendReason::User { tag } => SpecReason::User { tag: tag@ },
        }
    }
}

impl Clone for SuspendReason {
    fn clone(&self) -> (out: Self)
        ensures
            out@ == self@,
    {
        match self {
            SuspendReason::Call { spec } => SuspendReason::Call { spec: spec.clone() },
            SuspendReason::Breakpoint => SuspendReason::Breakpoint,
            SuspendReason::Cooperative => SuspendReason::Cooperative,
            SuspendReason::User { tag } => SuspendReason::User { tag: tag.clone() },
        }
    }
}

/// The text a reason is shown as.
pub open spec fn reason_text(r: SpecReason) -> Seq<char> {
    match r {
        SpecReason::Call { spec } => "call("@ + spec.label + ")"@,
        SpecReason::Breakpoint => "breakpoint"@,
        SpecReason::Cooperative => "cooperative"@,
        SpecReason::User { tag } => "user("@ + tag + ")"@,
    }
}

impl SuspendReason {
    /// `call(label)`, `breakpoint`, `cooperative` or `user(tag)`.
    pub fn to_text(&self) -> (out: String)
        ensures
            out@ == reason_text(self@),
    {
        match self {
            SuspendReason::Call { spec } => {
                let mut out = "call(".to_owned();
                out.append(spec.label.as_str());
                out.append(")");
                out
            },
            SuspendReason::Breakpoint => "breakpoint".to_owned(),
            SuspendReason::Cooperative => "cooperative".to_owned(),
            SuspendReason::User { tag } => {
                let mut out = "user(".to_owned();
                out.append(tag.as_str());
                out.append(")");
                out
            },
        }
    }
}

/// One live suspension.
#[derive(Debug)]
pub struct Pending {
    /// Stable identifier.
    pub id: SuspensionId,
    /// Why the engine yielded.
    pub reason: SuspendReason,
    /// Where the suspension happened.
    pub at: NodeContext,
}

/// The mathematical shape of a [`Pending`].
pub struct SpecPending {
    pub id: SuspensionId,
    pub reason: SpecReason,
    pub at: SpecContext,
}

impl View for Pending {
    type V = SpecPending;

    open spec fn view(&self) -> SpecPending {
        SpecPending { id: self.id, reason: self.reason@, at: self.at@ }
    }
}

impl Clone for Pending {
    fn clone(&self) -> (out: Self)
        ensures
            out@ == self@,
    {
        Pending { id: self.id, reason: self.reason.clone(), at: self.at.clone() }
    }
}

/// The views of a list of suspensions.
pub open spec fn pendings_view(ps: Seq<Pending>) -> Seq<SpecPending> {
    Seq::new(ps.len(), |i: int| ps[i]@)
}

/// One observation from the evaluator.
#[derive(Debug)]
pub enum Event {
    /// Before a node's semantics run.
    VisitPre {
        /// Where the observation happened.
        at: NodeContext,
    },
    /// After a node's semantics complete.
    VisitPost {
        /// Where the observation happened.
        at: NodeContext,
    },
    /// A function-like node started a new call frame.
    FrameEnter {
        /// Where the observation happened.
        at: NodeContext,
    },
    /// A function-like node's frame ended.
    FrameLeave {
        /// Where the observation happened.
        at: NodeContext,
    },
    /// A loop node advanced to a new iteration.
    IterationTick {
        /// Where the observation happened.
        at: NodeContext,
    },
    /// The stepper is about to yield to the outside world.
    Suspend {
        /// Where the observation happened.
        at: NodeContext,
        /// Why the stepper is yielding.
        reason: SuspendReason,
    },
    /// The stepper resumed after a yield.
    Resume {
        /// Where the observation happened.
        at: NodeContext,
    },
    /// A suspension was cancelled.
    Cancel {
        /// The cancelled suspension.
        id: SuspensionId,
    },
}

/// The mathematical shape of an [`Event`].
pub enum SpecEvent {
    VisitPre { at: SpecContext },
    VisitPost { at: SpecContext },
    FrameEnter { at: SpecContext },
    FrameLeave { at: SpecContext },
    IterationTick { at: SpecContext },
    Suspend { at: SpecContext, reason: SpecReason },
    Resume { at: SpecContext },
    Cancel { id: SuspensionId },
}

impl View for Event {
    type V = SpecEvent;

    open spec fn view(&self) -> SpecEvent {
        match self {
            Event::VisitPre { at } => SpecEvent::VisitPre { at: at@ },
            Event::VisitPost { at } => SpecEvent::VisitPost { at: at@ },
            Event::FrameEnter { at } => SpecEvent::FrameEnter { at: at@ },
            Event::FrameLeave { at } => SpecEvent::FrameLeave { at: at@ },
            Event::IterationTick { at } => SpecEvent::IterationTick { at: at@ },
            Event::Suspend { at, reason } => SpecEvent::Suspend { at: at@, reason: reason@ },
            Event::Resume { at } => SpecEvent::Resume { at: at@ },
            Event::Cancel { id } => SpecEvent::Cancel { id: *id },
        }
    }
}

impl Clone for Event {
    fn clone(&self) -> (out: Self)
        ensures
            out@ == self@,
    {
        match self {
            Event::VisitPre { at } => Event::VisitPre { at: at.clone() },
            Event::VisitPost { at } => Event::VisitPost { at: at.clone() },
            Event::FrameEnter { at } => Event::FrameEnter { at: at.clone() },
            Event::FrameLeave { at } => Event::FrameLeave { at: at.clone() },
            Event::IterationTick { at } => Event::IterationTick { at: at.clone() },
            Event::Suspend { at, reason } => Event::Suspend {
                at: at.clone(),
                reason: reason.clone(),
            },
            Event::Resume { at } => Event::Resume { at: at.clone() },
            Event::Cancel { id } => Event::Cancel { id: *id },
        }
    }
}

/// The views of a list of events.
pub open spec fn events_view(es: Seq<Event>) -> Seq<SpecEvent> {
    Seq::new(es.len(), |i: int| es[i]@)
}

/// Sink for the event stream.
pub trait EventSink {
    /// Whether the sink remembers what it is given.
    spec fn keeps(&self) -> bool;

    /// What a remembering sink was given, oldest first.
    spec fn memory(&self) -> Seq<SpecEvent>;

    /// Consumes one event.
    fn emit(&mut self, event: &Event)
        ensures
            final(self).keeps() == old(self).keeps(),
            final(self).memory() == remembered(old(self).keeps(), old(self).memory(), event@),
    ;
}

/// What a sink holds after one more event.
pub open spec fn remembered(keeps: bool, memory: Seq<SpecEvent>, e: SpecEvent) -> Seq<SpecEvent> {
    if keeps {
        memory.push(e)
    } else {
        memory
    }
}

/// A sink that ignores everything.
#[derive(Debug, Clone, Copy, PartialEq, Eq, Structural)]
pub struct NullSink;

impl Default for NullSink {
    fn default() -> (out: Self)
        ensures
            out == NullSink,
    {
        NullSink
    }
}

impl EventSink for NullSink {
    open spec fn keeps(&self) -> bool {
        false
    }

    open spec fn memory(&self) -> Seq<SpecEvent> {
        Seq::empty()
    }

    fn emit(&mut self, _event: &Event)
        ensures
            *final(self) == *old(self),
    {
    }
}

/// Silent sink that counts each kind of event. Counters start over past
/// their largest value; cancellations are not counted.
#[derive(Debug, Clone, Copy, PartialEq, Eq, Structural)]
pub struct CountingSink {
    /// Number of `VisitPre` events observed.
    pub visit_pre: u32,
    /// Number of `VisitPost` events observed.
    pub visit_post: u32,
    /// Number of `FrameEnter` events observed.
    pub frame_enter: u32,
    /// Number of `FrameLeave` events observed.
    pub frame_leave: u32,
    /// Number of `IterationTick` events observed.
    pub iteration_tick: u32,
    /// Number of `Suspend` events observed.
    pub suspend: u32,
    /// Number of `Resume` events observed.
    pub resume: u32,
}

/// Counters at zero.
pub open spec fn zero_counts() -> CountingSink {
    CountingSink {
        visit_pre: 0,
        visit_post: 0,
        frame_enter: 0,
        frame_leave: 0,
        iteration_tick: 0,
        suspend: 0,
        resume: 0,
    }
}

/// The count after `n`, starting over past the largest one.
pub open spec fn counted_up(n: u32) -> u32 {
    if n == u32::MAX {
        0
    } else {
        (n + 1) as u32
    }
}

fn count_up(n: u32) -> (out: u32)
    ensures
        out == counted_up(n),
{
    if n == u32::MAX {
        0
    } else {
        n + 1
    }
}

/// The counters after one more event.
pub open spec fn counting(c: CountingSink, e: SpecEvent) -> CountingSink {
    match e {
        SpecEvent::VisitPre { at } => CountingSink { visit_pre: counted_up(c.visit_pre), ..c },
        SpecEvent::VisitPost { at } => CountingSink { visit_post: counted_up(c.visit_post), ..c },
        SpecEvent::FrameEnter { at } => CountingSink {
            frame_enter: counted_up(c.frame_enter),
            ..c
        },
        SpecEvent::FrameLeave { at } => CountingSink {
            frame_leave: counted_up(c.frame_leave),
            ..c
        },
        SpecEvent::IterationTick { at } => CountingSink {
            iteration_tick: counted_up(c.iteration_tick),
            ..c
        },
        SpecEvent::Suspend { at, reason } => CountingSink { suspend: counted_up(c.suspend), ..c },
        SpecEvent::Resume { at } => CountingSink { resume: counted_up(c.resume), ..c },
        SpecEvent::Cancel { id } => c,
    }
}

/// The counters after a whole history of events.
pub open spec fn tally(log: Seq<SpecEvent>) -> CountingSink
    decreases log.len(),
{
    if log.len() == 0 {
        zero_counts()
    } else {
        counting(tally(log.drop_last()), log.last())
    }
}

impl Default for CountingSink {
    fn default() -> (out: Self)
        ensures
            out == zero_counts(),
    {
        CountingSink {
            visit_pre: 0,
            visit_post: 0,
            frame_enter: 0,
            frame_leave: 0,
            iteration_tick: 0,
            suspend: 0,
            resume: 0,
        }
    }
}

impl EventSink for CountingSink {
    open spec fn keeps(&self) -> bool {
        false
    }

    open spec fn memory(&self) -> Seq<SpecEvent> {
        Seq::empty()
    }

    fn emit(&mut self, event: &Event)
        ensures
            *final(self) == counting(*old(self), event@),
    {
        match event {
            Event::VisitPre { at: _ } => {
                self.visit_pre = count_up(self.visit_pre);
            },
            Event::VisitPost { at: _ } => {
                self.visit_post = count_up(self.visit_post);
            },
            Event::FrameEnter { at: _ } => {
                self.frame_enter = count_up(self.frame_enter);
            },
            Event::FrameLeave { at: _ } => {
                self.frame_leave = count_up(self.frame_leave);
            },
            Event::IterationTick { at: _ } => {
                self.iteration_tick = count_up(self.iteration_tick);
            },
            Event::Suspend { at: _, reason: _ } => {
                self.suspend = count_up(self.suspend);
            },
            Event::Resume { at: _ } => {
                self.resume = count_up(self.resume);
            },
            Event::Cancel { id: _ } => {},
        }
    }
}

/// The one-line histogram of a set of counters.
pub open spec fn summary_text(c: CountingSink) -> Seq<char> {
    "pre="@ + decimal(c.visit_pre as nat) + " post="@ + decimal(c.visit_post as nat)
        + " frame_enter="@ + decimal(c.frame_enter as nat) + " frame_leave="@ + decimal(
        c.frame_leave as nat,
    ) + " iter="@ + decimal(c.iteration_tick as nat) + " suspend="@ + decimal(c.suspend as nat)
        + " resume="@ + decimal(c.resume as nat)
}

impl CountingSink {
    /// A single-line human-readable event histogram.
    pub fn summarise(&self) -> (out: String)
        ensures
            out@ == summary_text(*self),
    {
        let mut out = "pre=".to_owned();
        push_decimal(&mut out, self.visit_pre as u64);
        out.append(" post=");
        push_decimal(&mut out, self.visit_post as u64);
        out.append(" frame_enter=");
        push_decimal(&mut out, self.frame_enter as u64);
        out.append(" frame_leave=");
        push_decimal(&mut out, self.frame_leave as u64);
        out.append(" iter=");
        push_decimal(&mut out, self.iteration_tick as u64);
        out.append(" suspend=");
        push_decimal(&mut out, self.suspend as u64);
        out.append(" resume=");
        push_decimal(&mut out, self.resume as u64);
        assert(out@ =~= summary_text(*self));
        out
    }
}

/// Recording sink that keeps every observed event in order.
#[derive(Debug)]
pub struct BufferingSink {
    events: Vec<Event>,
}

impl View for BufferingSink {
    type V = Seq<SpecEvent>;

    closed spec fn view(&self) -> Seq<SpecEvent> {
        events_view(self.events@)
    }
}

impl Clone for BufferingSink {
    fn clone(&self) -> (out: Self)
        ensures
            out@ == self@,
    {
        let mut events: Vec<Event> = Vec::new();
        for i in 0..self.events.len()
            invariant
                events@.len() == i,
                forall|j: int| 0 <= j < i ==> (#[trigger] events@[j])@ == self.events@[j]@,
        {
            events.push(self.events[i].clone());
        }
        let out = BufferingSink { events };
        assert(out@ =~= self@);
        out
    }
}

impl Default for BufferingSink {
    fn default() -> (out: Self)
        ensures
            out@ == Seq::<SpecEvent>::empty(),
    {
        BufferingSink::new()
    }
}

impl BufferingSink {
    /// An empty buffer.
    pub fn new() -> (out: Self)
        ensures
            out@ == Seq::<SpecEvent>::empty(),
    {
        let out = BufferingSink { events: Vec::new() };
        assert(out@ =~= Seq::empty());
        out
    }

    /// An empty buffer with room for `cap` events before it reallocates.
    pub fn with_capacity(cap: usize) -> (out: Self)
        ensures
            out@ == Seq::<SpecEvent>::empty(),
    {
        let out = BufferingSink { events: Vec::with_capacity(cap) };
        assert(out@ =~= Seq::empty());
        out
    }

    /// The recorded events, which stay in the buffer.
    pub fn snapshot<'a>(&'a self) -> (out: &'a [Event])
        ensures
            events_view(out@) == self@,
    {
        self.events.as_slice()
    }

    /// Takes every recorded event and clears the buffer.
    pub fn drain(&mut self) -> (out: Vec<Event>)
        ensures
            events_view(out@) == old(self)@,
            final(self)@ == Seq::<SpecEvent>::empty(),
    {
        let mut out: Vec<Event> = Vec::new();
        std::mem::swap(&mut out, &mut self.events);
        assert(self@ =~= Seq::empty());
        out
    }

    /// Discards every recorded event.
    pub fn clear(&mut self)
        ensures
            final(self)@ == Seq::<SpecEvent>::empty(),
    {
        self.events.clear();
        assert(self@ =~= Seq::empty());
    }

    /// Number of recorded events.
    pub fn len(&self) -> (out: usize)
        ensures
            out == self@.len(),
    {
        self.events.len()
    }

    /// Whether nothing is recorded.
    pub fn is_empty(&self) -> (out: bool)
        ensures
            out == (self@.len() == 0),
    {
        self.events.len() == 0
    }
}

impl EventSink for BufferingSink {
    open spec fn keeps(&self) -> bool {
        true
    }

    open spec fn memory(&self) -> Seq<SpecEvent> {
        self@
    }

    fn emit(&mut self, event: &Event)
        ensures
            final(self)@ == old(self)@.push(event@),
    {
        self.events.push(event.clone());
        assert(self@ =~= old(self)@.push(event@));
    }
}

} // verus!
