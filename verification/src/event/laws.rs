//! What counting and recording sinks know of a history.
use vstd::prelude::*;

use crate::event::{counting, remembered, tally, CountingSink, SpecEvent};

verus! {

/// How many events of a history meet a condition.
pub open spec fn how_many(log: Seq<SpecEvent>, p: spec_fn(SpecEvent) -> bool) -> nat
    decreases log.len(),
{
    if log.len() == 0 {
        0
    } else {
        how_many(log.skip(1), p) + if p(log[0]) {
            1nat
        } else {
            0nat
        }
    }
}

proof fn lemma_one_more(log: Seq<SpecEvent>, p: spec_fn(SpecEvent) -> bool)
    requires
        log.len() > 0,
    ensures
        how_many(log, p) == how_many(log.drop_last(), p) + if p(log.last()) {
            1nat
        } else {
            0nat
        },
    decreases log.len(),
{
    if log.len() > 1 {
        lemma_one_more(log.skip(1), p);
        assert(log.skip(1).drop_last() =~= log.drop_last().skip(1));
        assert(log.drop_last()[0] == log[0]);
    } else {
        reveal_with_fuel(how_many, 2);
        assert(log.skip(1) =~= Seq::empty());
        assert(log.drop_last() =~= Seq::empty());
    }
}

/// Every counter says how often events of its own kind occurred, counted
/// modulo 2^32, whatever else occurred between them.
pub proof fn law_every_kind_is_counted_by_itself(log: Seq<SpecEvent>)
    ensures
        tally(log).visit_pre == how_many(log, |e: SpecEvent| e is VisitPre) % 0x1_0000_0000,
        tally(log).visit_post == how_many(log, |e: SpecEvent| e is VisitPost) % 0x1_0000_0000,
        tally(log).frame_enter == how_many(log, |e: SpecEvent| e is FrameEnter) % 0x1_0000_0000,
        tally(log).frame_leave == how_many(log, |e: SpecEvent| e is FrameLeave) % 0x1_0000_0000,
        tally(log).iteration_tick == how_many(log, |e: SpecEvent| e is IterationTick)
            % 0x1_0000_0000,
        tally(log).suspend == how_many(log, |e: SpecEvent| e is Suspend) % 0x1_0000_0000,
        tally(log).resume == how_many(log, |e: SpecEvent| e is Resume) % 0x1_0000_0000,
    decreases log.len(),
{
    if log.len() > 0 {
        law_every_kind_is_counted_by_itself(log.drop_last());
        lemma_one_more(log, |e: SpecEvent| e is VisitPre);
        lemma_one_more(log, |e: SpecEvent| e is VisitPost);
        lemma_one_more(log, |e: SpecEvent| e is FrameEnter);
        lemma_one_more(log, |e: SpecEvent| e is FrameLeave);
        lemma_one_more(log, |e: SpecEvent| e is IterationTick);
        lemma_one_more(log, |e: SpecEvent| e is Suspend);
        lemma_one_more(log, |e: SpecEvent| e is Resume);
    }
}

/// One more event moves no counter but that of its kind.
pub proof fn law_an_event_moves_one_counter(c: CountingSink, e: SpecEvent)
    ensures
        e is Cancel ==> counting(c, e) == c,
        !(e is VisitPre) ==> counting(c, e).visit_pre == c.visit_pre,
        !(e is VisitPost) ==> counting(c, e).visit_post == c.visit_post,
        !(e is FrameEnter) ==> counting(c, e).frame_enter == c.frame_enter,
        !(e is FrameLeave) ==> counting(c, e).frame_leave == c.frame_leave,
        !(e is IterationTick) ==> counting(c, e).iteration_tick == c.iteration_tick,
        !(e is Suspend) ==> counting(c, e).suspend == c.suspend,
        !(e is Resume) ==> counting(c, e).resume == c.resume,
        !(e is Cancel) ==> counting(c, e) != c,
{
}

/// A sink that remembers holds what it held and then the event; another holds
/// what it held.
pub proof fn law_remembering_appends(memory: Seq<SpecEvent>, e: SpecEvent)
    ensures
        remembered(true, memory, e).len() == memory.len() + 1,
        remembered(true, memory, e).last() == e,
        remembered(true, memory, e).drop_last() == memory,
        remembered(false, memory, e) == memory,
{
    assert(remembered(true, memory, e).drop_last() =~= memory);
}

} // verus!
