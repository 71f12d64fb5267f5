//! The queue of pending events, ordered by firing time and then by order of scheduling.
use crate::scheduler::EventKind;
use crate::time::SimTime;
use vstd::prelude::*;

verus! {

/// An event that waits for its time.
#[derive(Debug, Clone, Copy, PartialEq, Eq, Structural)]
pub struct ScheduledEvent {
    pub time: SimTime,
    /// Number of events that were scheduled before this one.
    pub seq: u64,
    pub kind: EventKind,
}

impl ScheduledEvent {
    /// `self` fires before `other`: earlier, or at the same time and scheduled first.
    pub open spec fn precedes(self, other: ScheduledEvent) -> bool {
        self.time < other.time || (self.time == other.time && self.seq < other.seq)
    }

    fn fires_before(&self, other: &ScheduledEvent) -> (r: bool)
        ensures
            r == self.precedes(*other),
    {
        self.time < other.time || (self.time == other.time && self.seq < other.seq)
    }
}

/// Every event precedes all that follow it.
pub open spec fn in_firing_order(events: Seq<ScheduledEvent>) -> bool {
    forall|i: int, j: int|
        0 <= i < j < events.len() ==> (#[trigger] events[i]).precedes(#[trigger] events[j])
}

/// `events` with `event` behind all those that precede it.
pub open spec fn enqueue(
    events: Seq<ScheduledEvent>,
    event: ScheduledEvent,
) -> Seq<ScheduledEvent> {
    events.insert(
        events.filter(|e: ScheduledEvent| e.precedes(event)).len() as int,
        event,
    )
}

/// Pending events.
pub(crate) struct EventQueue {
    /// The event that fires next stands last.
    events: Vec<ScheduledEvent>,
}

impl View for EventQueue {
    type V = Seq<ScheduledEvent>;

    closed spec fn view(&self) -> Seq<ScheduledEvent> {
        self.events@.reverse()
    }
}

impl EventQueue {
    pub(crate) fn new() -> (queue: Self)
        ensures
            queue@ == Seq::<ScheduledEvent>::empty(),
    {
        let queue = EventQueue { events: Vec::new() };
        assert(queue@ =~= Seq::<ScheduledEvent>::empty());
        queue
    }

    /// Add `event`, which must differ from all pending events in its place in the firing order.
    pub(crate) fn push(&mut self, event: ScheduledEvent)
        requires
            in_firing_order(old(self)@),
            forall|i: int|
                0 <= i < old(self)@.len() ==> (#[trigger] old(self)@[i]).seq != event.seq,
        ensures
            in_firing_order(final(self)@),
            final(self)@ == enqueue(old(self)@, event),
    {
        let ghost before = self@;
        let ghost n = self.events@.len() as int;
        assert forall|p: int| 0 <= p < n implies #[trigger] self.events@[p] == before[n - 1 - p] by {
            assert(before[n - 1 - p] == self.events@[p]);
        }
        let mut lo: usize = 0;
        let mut hi: usize = self.events.len();
        while lo < hi
            invariant
                n == self.events@.len(),
                before.len() == n,
                *self == *old(self),
                in_firing_order(before),
                forall|p: int| 0 <= p < n ==> #[trigger] self.events@[p] == before[n - 1 - p],
                lo <= hi <= n,
                forall|p: int| 0 <= p < lo ==> !(#[trigger] self.events@[p]).precedes(event),
                forall|p: int| hi <= p < n ==> (#[trigger] self.events@[p]).precedes(event),
            decreases hi - lo,
        {
            let mid: usize = lo + (hi - lo) / 2;
            if self.events[mid].fires_before(&event) {
                assert forall|p: int| mid <= p < n implies (
                #[trigger] self.events@[p]).precedes(event) by {
                    if p > mid {
                        assert(before[n - 1 - p].precedes(before[n - 1 - mid]));
                    }
                }
                hi = mid;
            } else {
                assert forall|p: int| 0 <= p <= mid implies !(
                #[trigger] self.events@[p]).precedes(event) by {
                    if p < mid {
                        assert(before[n - 1 - mid].precedes(before[n - 1 - p]));
                    }
                }
                lo = mid + 1;
            }
        }
        self.events.insert(lo, event);
        proof {
            let at = n - lo;
            assert forall|i: int| 0 <= i < n implies ((#[trigger] before[i]).precedes(event)
                <==> i < at) by {
                assert(old(self).events@[n - 1 - i] == before[i]);
            }
            lemma_split_rank(before, event, at);
            assert(self@ =~= before.insert(at, event));
            lemma_insert_keeps_order(before, event, at);
        }
    }

    /// Take out the event that fires next.
    pub(crate) fn pop(&mut self) -> (event: Option<ScheduledEvent>)
        ensures
            old(self)@.len() == 0 ==> event is None && final(self)@ == old(self)@,
            old(self)@.len() > 0 ==> event == Some(old(self)@[0]) && final(self)@
                == old(self)@.drop_first(),
    {
        let ghost before = self@;
        let event = self.events.pop();
        assert(before.len() > 0 ==> self@ =~= before.drop_first());
        event
    }
}

/// If exactly the first `at` events precede `event`, that is its place.
proof fn lemma_split_rank(events: Seq<ScheduledEvent>, event: ScheduledEvent, at: int)
    requires
        0 <= at <= events.len(),
        forall|i: int|
            0 <= i < events.len() ==> ((#[trigger] events[i]).precedes(event) <==> i < at),
    ensures
        events.filter(|e: ScheduledEvent| e.precedes(event)).len() == at,
    decreases events.len(),
{
    reveal(Seq::filter);
    if events.len() > 0 {
        let shorter = events.drop_last();
        assert(events.last() == events[events.len() - 1]);
        assert forall|i: int| 0 <= i < shorter.len() implies ((#[trigger] shorter[i]).precedes(
            event,
        ) <==> i < at) by {
            assert(shorter[i] == events[i]);
        }
        if at == events.len() {
            lemma_split_rank(shorter, event, at - 1);
        } else {
            lemma_split_rank(shorter, event, at);
        }
    }
}

/// In a queue in firing order, exactly the events up to its place precede a new event.
pub proof fn lemma_rank_splits(events: Seq<ScheduledEvent>, event: ScheduledEvent)
    requires
        in_firing_order(events),
    ensures
        ({
            let at = events.filter(|e: ScheduledEvent| e.precedes(event)).len();
            &&& at <= events.len()
            &&& forall|i: int|
                0 <= i < events.len() ==> ((#[trigger] events[i]).precedes(event) <==> i < at)
        }),
    decreases events.len(),
{
    let precedes = |e: ScheduledEvent| e.precedes(event);
    reveal(Seq::filter);
    if events.len() > 0 {
        let shorter = events.drop_last();
        let n = shorter.len() as int;
        assert(in_firing_order(shorter)) by {
            assert forall|i: int, j: int| 0 <= i < j < shorter.len() implies (
            #[trigger] shorter[i]).precedes(#[trigger] shorter[j]) by {
                assert(shorter[i] == events[i] && shorter[j] == events[j]);
            }
        }
        lemma_rank_splits(shorter, event);
        let at = shorter.filter(precedes).len() as int;
        assert forall|i: int| 0 <= i < n implies #[trigger] events[i] == shorter[i] by {}
        if events[n].precedes(event) {
            assert(at == n) by {
                if at < n {
                    assert(!shorter[at].precedes(event));
                    assert(events[at].precedes(events[n]));
                }
            }
        }
    }
}

pub proof fn lemma_insert_keeps_order(events: Seq<ScheduledEvent>, event: ScheduledEvent, at: int)
    requires
        in_firing_order(events),
        0 <= at <= events.len(),
        forall|i: int| 0 <= i < events.len() ==> (#[trigger] events[i]).seq != event.seq,
        forall|i: int|
            0 <= i < events.len() ==> ((#[trigger] events[i]).precedes(event) <==> i < at),
    ensures
        in_firing_order(events.insert(at, event)),
{
    let after = events.insert(at, event);
    assert forall|i: int, j: int| 0 <= i < j < after.len() implies (
    #[trigger] after[i]).precedes(#[trigger] after[j]) by {
        if i != at {
            assert(after[i] == if i < at { events[i] } else { events[i - 1] });
        }
        if j != at {
            assert(after[j] == if j < at { events[j] } else { events[j - 1] });
        }
    }
}

} // verus!
