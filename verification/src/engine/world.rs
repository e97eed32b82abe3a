//! What an interpretation keeps besides its frames: fresh numbers, queued
//! notices and the event channel.
use vstd::prelude::*;

use crate::context::{NodeContext, SpecContext};
use crate::event::{
    counting, pendings_view, remembered, zero_counts, CountingSink, Event, EventSink, Pending,
    SpecEvent, SpecPending,
};
use crate::ids::{next_number, successor, CallFrameId, NodeId, Path, SuspensionId};

verus! {

/// State shared by all frames of one interpretation.
pub struct World {
    /// Suspensions created since the last report.
    pub newly: Vec<Pending>,
    /// Cancelled suspensions nobody has collected yet.
    pub cancelled: Vec<SuspensionId>,
    /// Number of the next suspension.
    pub next_sid: u64,
    /// Number of the next call frame.
    pub next_frame: u64,
    /// Event counters.
    pub counts: CountingSink,
    /// Attached sink, if any.
    pub sink: Option<Box<dyn EventSink>>,
}

/// What a sink has heard: whether it remembers, and what.
pub struct Heard {
    pub keeps: bool,
    pub memory: Seq<SpecEvent>,
}

/// The mathematical shape of a [`World`].
pub struct SpecWorld {
    pub newly: Seq<SpecPending>,
    pub cancelled: Seq<SuspensionId>,
    pub next_sid: u64,
    pub next_frame: u64,
    pub counts: CountingSink,
    pub heard: Option<Heard>,
}

/// What an attached sink has heard.
pub open spec fn sink_heard(sink: Option<Box<dyn EventSink>>) -> Option<Heard> {
    match sink {
        Some(s) => Some(Heard { keeps: s.keeps(), memory: s.memory() }),
        None => None,
    }
}

impl View for World {
    type V = SpecWorld;

    open spec fn view(&self) -> SpecWorld {
        SpecWorld {
            newly: pendings_view(self.newly@),
            cancelled: self.cancelled@,
            next_sid: self.next_sid,
            next_frame: self.next_frame,
            counts: self.counts,
            heard: sink_heard(self.sink),
        }
    }
}

/// The world before anything has happened.
pub open spec fn first_world() -> SpecWorld {
    SpecWorld {
        newly: Seq::empty(),
        cancelled: Seq::empty(),
        next_sid: 1,
        next_frame: 1,
        counts: zero_counts(),
        heard: None,
    }
}

/// The world after one event.
pub open spec fn told(w: SpecWorld, e: SpecEvent) -> SpecWorld {
    SpecWorld {
        counts: counting(w.counts, e),
        heard: match w.heard {
            Some(h) => Some(Heard { keeps: h.keeps, memory: remembered(h.keeps, h.memory, e) }),
            None => None,
        },
        ..w
    }
}

/// The suspensions other than `id`.
pub open spec fn others(ps: Seq<SpecPending>, id: SuspensionId) -> Seq<SpecPending>
    decreases ps.len(),
{
    if ps.len() == 0 {
        ps
    } else if ps.last().id == id {
        others(ps.drop_last(), id)
    } else {
        others(ps.drop_last(), id).push(ps.last())
    }
}

/// The context of a node, deep as its path.
pub open spec fn place(node: NodeId, path: Seq<NodeId>, frame: Option<CallFrameId>) -> SpecContext {
    SpecContext { node, path, frame, depth: path.len() as u32, iteration: None }
}

/// The context of a node, deep as its path.
pub fn place_at(node: NodeId, path: &Path, frame: Option<CallFrameId>) -> (out: NodeContext)
    ensures
        out@ == place(node, path@, frame),
{
    let depth: u32 = #[verifier::truncate] (path.depth() as u32);
    NodeContext { node, path: path.clone(), frame, depth, iteration: None }
}

impl World {
    /// The world before anything has happened.
    pub fn new() -> (out: Self)
        ensures
            out@ == first_world(),
    {
        let out = World {
            newly: Vec::new(),
            cancelled: Vec::new(),
            next_sid: 1,
            next_frame: 1,
            counts: CountingSink::default(),
            sink: None,
        };
        assert(out@.newly =~= Seq::empty());
        assert(out@.cancelled =~= Seq::empty());
        out
    }

    /// Counts an event and hands it to the attached sink.
    pub fn tell(&mut self, e: &Event)
        ensures
            final(self)@ == told(old(self)@, e@),
    {
        self.counts.emit(e);
        match &mut self.sink {
            Some(s) => {
                s.emit(e);
            },
            None => {},
        }
    }

    /// A fresh suspension number.
    pub fn fresh_sid(&mut self) -> (id: SuspensionId)
        ensures
            id == SuspensionId(old(self)@.next_sid),
            final(self)@ == (SpecWorld {
                next_sid: successor(old(self)@.next_sid),
                ..old(self)@
            }),
    {
        let id = SuspensionId(self.next_sid);
        self.next_sid = next_number(self.next_sid);
        id
    }

    /// A fresh call frame number.
    pub fn fresh_frame(&mut self) -> (id: CallFrameId)
        ensures
            id == CallFrameId(old(self)@.next_frame),
            final(self)@ == (SpecWorld {
                next_frame: successor(old(self)@.next_frame),
                ..old(self)@
            }),
    {
        let id = CallFrameId(self.next_frame);
        self.next_frame = next_number(self.next_frame);
        id
    }

    /// Queues a suspension for the next report.
    pub fn report(&mut self, p: Pending)
        ensures
            final(self)@ == (SpecWorld { newly: old(self)@.newly.push(p@), ..old(self)@ }),
    {
        let ghost before = pendings_view(self.newly@);
        self.newly.push(p);
        assert(pendings_view(self.newly@) =~= before.push(p@));
    }

    /// Takes the suspensions queued for the next report.
    pub fn take_newly(&mut self) -> (out: Vec<Pending>)
        ensures
            pendings_view(out@) == old(self)@.newly,
            final(self)@ == (SpecWorld { newly: Seq::empty(), ..old(self)@ }),
    {
        let mut out: Vec<Pending> = Vec::new();
        std::mem::swap(&mut out, &mut self.newly);
        assert(pendings_view(self.newly@) =~= Seq::empty());
        out
    }

    /// Takes the cancelled suspensions.
    pub fn take_cancelled(&mut self) -> (out: Vec<SuspensionId>)
        ensures
            out@ == old(self)@.cancelled,
            final(self).sink == old(self).sink,
            final(self)@ == (SpecWorld { cancelled: Seq::empty(), ..old(self)@ }),
    {
        let mut out: Vec<SuspensionId> = Vec::new();
        std::mem::swap(&mut out, &mut self.cancelled);
        assert(self.cancelled@ =~= Seq::empty());
        out
    }

    /// Strikes a suspension off the next report.
    pub fn withdraw(&mut self, id: SuspensionId)
        ensures
            final(self)@ == (SpecWorld { newly: others(old(self)@.newly, id), ..old(self)@ }),
    {
        let ghost all = pendings_view(self.newly@);
        let mut taken: Vec<Pending> = Vec::new();
        std::mem::swap(&mut taken, &mut self.newly);
        let mut kept: Vec<Pending> = Vec::new();
        let n: usize = taken.len();
        for i in 0..n
            invariant
                n == taken@.len(),
                all == pendings_view(taken@),
                pendings_view(kept@) == others(all.take(i as int), id),
        {
            let p = &taken[i];
            proof {
                let front = all.take(i + 1);
                assert(front.drop_last() =~= all.take(i as int));
                assert(front.last() == p@);
            }
            if p.id.0 != id.0 {
                let ghost before = pendings_view(kept@);
                kept.push(p.clone());
                assert(pendings_view(kept@) =~= before.push(p@));
            }
        }
        assert(all.take(all.len() as int) =~= all);
        self.newly = kept;
    }
}

} // verus!
