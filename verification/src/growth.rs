//! How a simulation can grow: what each of its operations adds to the queue, the log and the
//! books, and what it leaves alone.
use crate::accounts::idle_call;
use crate::channel::{OnAir, Outcome};
use crate::queue::ScheduledEvent;
use crate::scheduler::EventKind;
use crate::simulation::{begins, Call, Sim};
use crate::time::SimTime;
use crate::types::{Burst, ChannelEvent, Frame, NodeId};
use vstd::prelude::*;

verus! {

/// The end of a transmission at `end` is in the queue.
pub open spec fn has_completion(queue: Seq<ScheduledEvent>, end: SimTime) -> bool {
    exists|e: ScheduledEvent| #[trigger]
        queue.contains(e) && e.kind is TxComplete && e.time == end
}

impl Sim {
    /// Every transmission on the air that ends after `time` has its end in the queue.
    pub open spec fn covered(self, time: int) -> bool {
        forall|i: int|
            0 <= i < self.channel.active.len() && (#[trigger] self.channel.active[i]).end > time
                ==> has_completion(self.queue, self.channel.active[i].end)
    }

    /// No call that `later` has logged since `self` asks to be repeated in the past.
    pub open spec fn punctual_until(self, later: Sim) -> bool {
        forall|i: int|
            self.log.len() <= i < later.log.len() ==> (#[trigger] later.log[i]).punctual()
    }

    /// Every event that was scheduled since `self` and waits in `later` fires at `time` or after.
    pub open spec fn timely_until(self, later: Sim, time: SimTime) -> bool {
        forall|e: ScheduledEvent| #[trigger]
            later.queue.contains(e) && e.seq >= self.seq ==> e.time >= time
    }

    /// `later` follows from `self` by what an event at `time` can do.
    pub open spec fn grows_to(self, later: Sim, time: SimTime) -> bool {
        &&& begins(self.log, later.log)
        &&& later.ids == self.ids
        &&& later.interferers == self.interferers
        &&& later.end_time == self.end_time
        &&& later.now == self.now
        &&& later.channel.config == self.channel.config
        &&& self.halted ==> later.halted
        &&& self.seq <= later.seq
        &&& later.queue.len() - later.seq == self.queue.len() - self.seq
        &&& forall|e: ScheduledEvent| #[trigger]
            self.queue.contains(e) ==> later.queue.contains(e)
        &&& forall|e: ScheduledEvent| #[trigger]
            later.queue.contains(e) && e.seq < self.seq ==> self.queue.contains(e)
        &&& forall|i: int|
            self.log.len() <= i < later.log.len() ==> (#[trigger] later.log[i]).time() == time
                && later.log[i].on_one_of(self.ids.len())
        &&& self.wf() ==> later.wf()
        &&& self.metrics.balanced() ==> later.metrics.balanced()
        &&& forall|t: int| #[trigger] self.covered(t) ==> later.covered(t)
    }

    /// Every wake-up that a node has asked for since `self` waits in `later`.
    pub open spec fn wakes_wait_in(self, later: Sim) -> bool {
        forall|i: int|
            self.log.len() <= i < later.log.len() ==> ((
            #[trigger] later.log[i]).wake_request() matches Some((node, t)) ==> has_kind(
                later.queue,
                t,
                EventKind::Wake { node_id: later.ids[node] },
            ))
    }

    /// Since `self` no node was updated and no interferer was polled, and no poll of an
    /// interferer was scheduled.
    pub open spec fn calm_until(self, later: Sim) -> bool {
        &&& forall|i: int|
            self.log.len() <= i < later.log.len() ==> (#[trigger] later.log[i]).is_calm()
        &&& forall|e: ScheduledEvent| #[trigger]
            later.queue.contains(e) && e.kind is InterferencePoll ==> self.queue.contains(e)
    }

    /// If the books are in order in `self`, with `settled` pending
    /// transmissions fewer.
    pub open spec fn books_to(self, later: Sim, settled: nat) -> bool {
        forall|p: nat| #[trigger]
            self.accounted(p + settled) && !later.halted ==> later.accounted(p)
    }
}

pub proof fn lemma_grows_transitive(a: Sim, b: Sim, c: Sim, time: SimTime)
    requires
        a.grows_to(b, time),
        b.grows_to(c, time),
    ensures
        a.grows_to(c, time),
        a.books_to(b, 0) && b.books_to(c, 0) ==> a.books_to(c, 0),
        a.wakes_wait_in(b) && b.wakes_wait_in(c) ==> a.wakes_wait_in(c),
        a.calm_until(b) && b.calm_until(c) ==> a.calm_until(c),
        a.punctual_until(c) ==> a.punctual_until(b) && b.punctual_until(c),
        a.timely_until(b, time) && b.timely_until(c, time) ==> a.timely_until(c, time),
{
    assert forall|i: int| a.log.len() <= i < c.log.len() implies (#[trigger] c.log[i]).time()
        == time && c.log[i].on_one_of(a.ids.len()) by {
        if i < b.log.len() {
            assert(c.log[i] == b.log[i]);
        }
    }
    assert forall|i: int| 0 <= i < a.log.len() implies #[trigger] c.log[i] == a.log[i] by {
        assert(c.log[i] == b.log[i]);
    }
    if a.punctual_until(c) {
        assert forall|i: int| a.log.len() <= i < b.log.len() implies (
        #[trigger] b.log[i]).punctual() by {
            assert(c.log[i] == b.log[i]);
        }
    }
    if a.wakes_wait_in(b) && b.wakes_wait_in(c) {
        assert forall|i: int| a.log.len() <= i < c.log.len() implies ((
        #[trigger] c.log[i]).wake_request() matches Some((node, t)) ==> has_kind(
            c.queue,
            t,
            EventKind::Wake { node_id: c.ids[node] },
        )) by {
            if i < b.log.len() {
                assert(c.log[i] == b.log[i]);
                if let Some((node, t)) = b.log[i].wake_request() {
                    lemma_kind_stays(
                        b.queue,
                        c.queue,
                        t,
                        EventKind::Wake { node_id: b.ids[node] },
                    );
                }
            }
        }
    }
    if a.calm_until(b) && b.calm_until(c) {
        assert forall|i: int| a.log.len() <= i < c.log.len() implies (
        #[trigger] c.log[i]).is_calm() by {
            if i < b.log.len() {
                assert(c.log[i] == b.log[i]);
            }
        }
    }
    if a.books_to(b, 0) && b.books_to(c, 0) {
        assert forall|p: nat| #[trigger] a.accounted(p + 0) && !c.halted implies c.accounted(p) by {
            assert(b.accounted(p + 0));
        }
    }
    assert forall|t: int| #[trigger] a.covered(t) implies c.covered(t) by {
        assert(b.covered(t));
    }
}

/// More events still hold what waited before.
proof fn lemma_kind_stays(
    queue: Seq<ScheduledEvent>,
    more: Seq<ScheduledEvent>,
    time: SimTime,
    kind: EventKind,
)
    requires
        has_kind(queue, time, kind),
        forall|e: ScheduledEvent| #[trigger] queue.contains(e) ==> more.contains(e),
    ensures
        has_kind(more, time, kind),
{
    let e = choose|e: ScheduledEvent| #[trigger]
        queue.contains(e) && e.time == time && e.kind == kind;
    assert(more.contains(e));
}

pub proof fn lemma_grows_reflexive(a: Sim, time: SimTime)
    ensures
        a.grows_to(a, time),
        a.wakes_wait_in(a),
        a.calm_until(a),
        a.books_to(a, 0),
        a.punctual_until(a),
        a.wf() ==> a.timely_until(a, time),
{
    if a.wf() {
        assert forall|e: ScheduledEvent| #[trigger]
            a.queue.contains(e) && e.seq >= a.seq implies e.time >= time by {
            let i = choose|i: int| 0 <= i < a.queue.len() && a.queue[i] == e;
            assert(a.queue[i].seq < a.seq);
        }
    }
}

pub proof fn lemma_enqueue_contains(queue: Seq<ScheduledEvent>, event: ScheduledEvent)
    ensures
        crate::queue::enqueue(queue, event).len() == queue.len() + 1,
        forall|e: ScheduledEvent| #[trigger]
            crate::queue::enqueue(queue, event).contains(e) <==> queue.contains(e) || e == event,
{
    let after = crate::queue::enqueue(queue, event);
    let precedes = |e: ScheduledEvent| e.precedes(event);
    let at = queue.filter(precedes).len() as int;
    queue.lemma_filter_len(precedes);
    assert(after == queue.insert(at, event));
    assert forall|e: ScheduledEvent| #[trigger] after.contains(e) implies queue.contains(e) || e
        == event by {
        let i = choose|i: int| 0 <= i < after.len() && after[i] == e;
        if i < at {
            assert(queue[i] == e);
        } else if i > at {
            assert(queue[i - 1] == e);
        }
    }
    assert forall|e: ScheduledEvent| queue.contains(e) || e == event implies #[trigger] after.contains(
        e,
    ) by {
        if e == event {
            assert(after[at] == e);
        } else {
            let i = choose|i: int| 0 <= i < queue.len() && queue[i] == e;
            if i < at {
                assert(after[i] == e);
            } else {
                assert(after[i + 1] == e);
            }
        }
    }
}

/// Entering a new event keeps the queue in order.
proof fn lemma_enqueue_keeps_order(queue: Seq<ScheduledEvent>, event: ScheduledEvent)
    requires
        crate::queue::in_firing_order(queue),
        forall|i: int| 0 <= i < queue.len() ==> (#[trigger] queue[i]).seq < event.seq,
    ensures
        crate::queue::in_firing_order(crate::queue::enqueue(queue, event)),
    decreases queue.len(),
{
    let precedes = |e: ScheduledEvent| e.precedes(event);
    let at = queue.filter(precedes).len() as int;
    crate::queue::lemma_rank_splits(queue, event);
    crate::queue::lemma_insert_keeps_order(queue, event, at);
}

/// More events cover the same transmissions.
proof fn lemma_covered_by_more(s: Sim, later: Sim)
    requires
        later.channel.active == s.channel.active,
        forall|e: ScheduledEvent| #[trigger] s.queue.contains(e) ==> later.queue.contains(e),
    ensures
        forall|t: int| #[trigger] s.covered(t) ==> later.covered(t),
{
    assert forall|t: int| #[trigger] s.covered(t) implies later.covered(t) by {
        assert forall|i: int|
            0 <= i < later.channel.active.len() && (#[trigger] later.channel.active[i]).end
                > t implies has_completion(later.queue, later.channel.active[i].end) by {
            let end = s.channel.active[i].end;
            let e = choose|e: ScheduledEvent| #[trigger]
                s.queue.contains(e) && e.kind is TxComplete && e.time == end;
            assert(has_completion(s.queue, end));
            assert(later.queue.contains(e));
        }
    }
}

pub proof fn lemma_schedule_grows(s: Sim, at: SimTime, kind: EventKind, time: SimTime)
    requires
        s.can_schedule(kind),
    ensures
        s.grows_to(s.schedule(at, kind), time),
        s.books_to(s.schedule(at, kind), 0),
        s.wakes_wait_in(s.schedule(at, kind)),
        !(kind is InterferencePoll) ==> s.calm_until(s.schedule(at, kind)),
        s.wf() && at >= time ==> s.timely_until(s.schedule(at, kind), time),
        s.schedule(at, kind).log == s.log,
        s.schedule(at, kind).channel == s.channel,
        s.schedule(at, kind).metrics == s.metrics,
        !s.schedule(at, kind).halted ==> has_kind(s.schedule(at, kind).queue, at, kind),
{
    let later = s.schedule(at, kind);
    if !s.halted && s.seq < u64::MAX {
        let event = ScheduledEvent { time: at, seq: s.seq, kind };
        lemma_enqueue_contains(s.queue, event);
        if s.wf() {
            lemma_enqueue_keeps_order(s.queue, event);
            assert forall|i: int| 0 <= i < later.queue.len() implies (
            #[trigger] later.queue[i]).seq < later.seq && later.can_schedule(
                later.queue[i].kind,
            ) by {
                assert(later.queue.contains(later.queue[i]));
                if later.queue[i] != event {
                    let j = choose|j: int| 0 <= j < s.queue.len() && s.queue[j] == later.queue[i];
                    assert(s.queue[j].seq < s.seq);
                    assert(s.can_schedule(s.queue[j].kind));
                }
            }
            assert forall|e: ScheduledEvent| #[trigger]
                later.queue.contains(e) && e.seq >= s.seq && at >= time implies e.time >= time by {
                if s.queue.contains(e) {
                    let i = choose|i: int| 0 <= i < s.queue.len() && s.queue[i] == e;
                    assert(s.queue[i].seq < s.seq);
                }
            }
        }
        lemma_covered_by_more(s, later);
        assert(later.queue.contains(event));
    } else {
        lemma_grows_reflexive(s, time);
        assert(s.wf() ==> s.timely_until(later, time));
    }
}

/// Logging calls that are no transmissions and no receptions.
proof fn lemma_idle_calls_grow(s: Sim, more: Seq<Call>, time: SimTime)
    requires
        forall|i: int|
            0 <= i < more.len() ==> idle_call(#[trigger] more[i]) && more[i].on_one_of(s.ids.len())
                && more[i].time() == time,
    ensures
        s.grows_to(Sim { log: s.log + more, ..s }, time),
        s.books_to(Sim { log: s.log + more, ..s }, 0),
        s.wf() ==> s.timely_until(Sim { log: s.log + more, ..s }, time),
        (forall|i: int| 0 <= i < more.len() ==> (#[trigger] more[i]).wake_request() is None)
            ==> s.wakes_wait_in(Sim { log: s.log + more, ..s }),
        (forall|i: int| 0 <= i < more.len() ==> (#[trigger] more[i]).is_calm()) ==> s.calm_until(
            Sim { log: s.log + more, ..s },
        ),
{
    let later = Sim { log: s.log + more, ..s };
    if forall|i: int| 0 <= i < more.len() ==> (#[trigger] more[i]).wake_request() is None {
        assert forall|i: int| s.log.len() <= i < later.log.len() implies (
        #[trigger] later.log[i]).wake_request() is None by {
            assert(later.log[i] == more[i - s.log.len()]);
        }
    }
    if forall|i: int| 0 <= i < more.len() ==> (#[trigger] more[i]).is_calm() {
        assert forall|i: int| s.log.len() <= i < later.log.len() implies (
        #[trigger] later.log[i]).is_calm() by {
            assert(later.log[i] == more[i - s.log.len()]);
        }
    }
    lemma_grows_reflexive(s, time);
    lemma_covered_by_more(s, later);
    assert forall|i: int| s.log.len() <= i < later.log.len() implies (
    #[trigger] later.log[i]).time() == time && later.log[i].on_one_of(s.ids.len()) by {
        assert(later.log[i] == more[i - s.log.len()]);
    }
    assert forall|p: nat| #[trigger] s.accounted(p + 0) && !later.halted implies later.accounted(
        p,
    ) by {
        crate::accounts::lemma_idle_calls_keep_accounts(s, more, p);
    }
}

/// Logging one call that is no transmission and no reception.
pub proof fn lemma_idle_call_grows(s: Sim, c: Call)
    requires
        idle_call(c),
        c.on_one_of(s.ids.len()),
    ensures
        s.grows_to(s.call(c), c.time()),
        s.books_to(s.call(c), 0),
        s.wf() ==> s.timely_until(s.call(c), c.time()),
        c.wake_request() is None ==> s.wakes_wait_in(s.call(c)),
        c.is_calm() ==> s.calm_until(s.call(c)),
{
    lemma_idle_calls_grow(s, seq![c], c.time());
    assert(s.log.push(c) =~= s.log + seq![c]);
}

proof fn lemma_announce_grows(s: Sim, event: ChannelEvent, time: SimTime)
    ensures
        s.grows_to(s.announce(event, time), time),
        s.books_to(s.announce(event, time), 0),
        s.wf() ==> s.timely_until(s.announce(event, time), time),
        s.punctual_until(s.announce(event, time)),
        s.wakes_wait_in(s.announce(event, time)),
        s.calm_until(s.announce(event, time)),
{
    let more = Seq::new(
        s.interferers,
        |i: int| Call::Observe { interferer: i, event, time },
    );
    lemma_idle_calls_grow(s, more, time);
    let later = s.announce(event, time);
    assert forall|i: int| s.log.len() <= i < later.log.len() implies (
    #[trigger] later.log[i]).punctual() by {
        assert(later.log[i] == more[i - s.log.len()]);
    }
}

/// A call `c` that is answered with a transmission is the one that `sender` makes: as a node if
/// `by_node`, or as an interferer.
pub open spec fn sends(s: Sim, c: Call, sender: NodeId, by_node: bool) -> bool {
    if by_node {
        c is PollTransmit && c.on_one_of(s.ids.len()) && s.ids[c->PollTransmit_node] == sender
    } else {
        c is PollInject
    }
}

pub proof fn lemma_transmit_grows(s: Sim, c: Call, sender: NodeId, tx: Burst, by_node: bool)
    requires
        !s.halted,
        c.tx_answer() == Some(tx),
        sends(s, c, sender, by_node),
    ensures
        s.grows_to(s.call(c).transmit(sender, tx, c.time(), by_node), c.time()),
        s.books_to(s.call(c).transmit(sender, tx, c.time(), by_node), 0),
        s.wf() ==> s.timely_until(s.call(c).transmit(sender, tx, c.time(), by_node), c.time()),
        s.wakes_wait_in(s.call(c).transmit(sender, tx, c.time(), by_node)),
        by_node ==> s.calm_until(s.call(c).transmit(sender, tx, c.time(), by_node)),
        s.call(c).transmit(sender, tx, c.time(), by_node).metrics.total_collisions
            == s.metrics.total_collisions,
        s.call(c).transmit(sender, tx, c.time(), by_node).metrics.total_captures
            == s.metrics.total_captures,
        s.call(c).calm_until(s.call(c).transmit(sender, tx, c.time(), by_node)),
{
    let time = c.time();
    let asked = s.call(c);
    let later = asked.transmit(sender, tx, time, by_node);
    lemma_grows_reflexive(s, time);
    if !asked.has_room_for(sender, tx, time, by_node) {
        lemma_covered_by_more(s, later);
        assert(later.log[s.log.len() as int] == c);
    } else {
        let end = (time + tx.duration_us) as SimTime;
        let counted = if by_node {
            s.metrics.plus_tx(sender)
        } else {
            s.metrics
        };
        let started = ChannelEvent::TransmissionStarted {
            sender,
            sf: tx.sf,
            frequency: tx.frequency,
            time,
        };
        let on_air = Sim {
            channel: asked.channel.begin(sender, tx, time),
            metrics: counted.plus_airtime(tx.duration_us),
            ..asked
        };
        let announced = on_air.announce(started, time);
        if s.metrics.balanced() {
            crate::metrics::law_recording_keeps_balance(s.metrics, sender, tx.duration_us);
            crate::metrics::law_recording_keeps_balance(counted, sender, tx.duration_us);
        }
        let event = ScheduledEvent { time: end, seq: s.seq, kind: EventKind::TxComplete { sender } };
        lemma_announce_grows(on_air, started, time);
        lemma_schedule_grows(announced, end, EventKind::TxComplete { sender }, time);
        lemma_enqueue_contains(s.queue, event);
        assert(later == announced.schedule(end, EventKind::TxComplete { sender }));
        assert(later.queue == crate::queue::enqueue(s.queue, event));
        assert forall|i: int| s.log.len() <= i < later.log.len() implies (
        #[trigger] later.log[i]).time() == time && later.log[i].on_one_of(s.ids.len()) by {
            assert(later.log[i] == announced.log[i]);
            if i == s.log.len() {
                assert(on_air.log[i] == c);
                assert(announced.log[i] == on_air.log[i]);
            }
        }
        assert forall|i: int| 0 <= i < s.log.len() implies #[trigger] later.log[i] == s.log[i] by {
            assert(on_air.log[i] == s.log[i]);
            assert(announced.log[i] == on_air.log[i]);
        }
        assert forall|t: int| #[trigger] s.covered(t) implies later.covered(t) by {
            assert forall|i: int|
                0 <= i < later.channel.active.len() && (
                #[trigger] later.channel.active[i]).end > t implies has_completion(
                later.queue,
                later.channel.active[i].end,
            ) by {
                if i < s.channel.active.len() {
                    let old_end = s.channel.active[i].end;
                    assert(later.channel.active[i].end == old_end);
                    assert(has_completion(s.queue, old_end));
                    let e = choose|e: ScheduledEvent| #[trigger]
                        s.queue.contains(e) && e.kind is TxComplete && e.time == old_end;
                    assert(later.queue.contains(e));
                } else {
                    assert(later.channel.active[i].end == end);
                    assert(later.queue.contains(event));
                }
            }
        }
        assert forall|i: int| s.log.len() <= i < later.log.len() implies (
        #[trigger] later.log[i]).wake_request() is None && (i > s.log.len() || by_node
            ==> later.log[i].is_calm()) by {
            assert(later.log[i] == announced.log[i]);
            if i == s.log.len() {
                assert(on_air.log[i] == c);
                assert(announced.log[i] == on_air.log[i]);
            } else {
                assert(announced.log[i].is_calm());
                assert(announced.log[i] is Observe) by {
                    assert(announced.log == on_air.log + Seq::new(
                        on_air.interferers,
                        |j: int| Call::Observe { interferer: j, event: started, time },
                    ));
                }
            }
        }
        assert(s.wf() ==> on_air.wf());
        assert(s.wf() ==> announced.wf());
        assert(s.wf() ==> s.timely_until(later, time)) by {
            if s.wf() {
                assert(announced.timely_until(later, time));
                assert(announced.seq == s.seq);
            }
        }
        assert forall|p: nat| #[trigger]
            s.accounted(p + 0) && !later.halted implies later.accounted(p) by {
            if by_node {
                crate::accounts::lemma_node_transmission_keeps_accounts(
                    s,
                    c->PollTransmit_node,
                    time,
                    tx,
                    p,
                );
                assert(on_air.accounted(p + 0));
            } else {
                crate::accounts::lemma_injection_keeps_accounts(
                    s,
                    c->PollInject_interferer,
                    sender,
                    time,
                    tx,
                    p,
                );
                assert(on_air.accounted(p + 0));
            }
            assert(announced.accounted(p + 0));
        }
    }
}

/// Putting something on the air adds to the log and takes nothing from it.
pub proof fn lemma_transmit_logs(
    s: Sim,
    sender: NodeId,
    tx: Burst,
    time: SimTime,
    by_node: bool,
)
    ensures
        begins(s.log, s.transmit(sender, tx, time, by_node).log),
{
}

pub proof fn lemma_poll_grows(s: Sim, script: Seq<Call>, node: int, time: SimTime)
    requires
        0 <= node < s.ids.len(),
    ensures
        s.grows_to(s.poll(script, node, time), time),
        s.books_to(s.poll(script, node, time), 0),
        s.wf() ==> s.timely_until(s.poll(script, node, time), time),
        s.wakes_wait_in(s.poll(script, node, time)),
        s.calm_until(s.poll(script, node, time)),
        s.poll(script, node, time).metrics.total_collisions == s.metrics.total_collisions,
        s.poll(script, node, time).metrics.total_captures == s.metrics.total_captures,
{
    lemma_grows_reflexive(s, time);
    if !s.halted {
        let tx = s.next_tx(script);
        let c = Call::PollTransmit { node, time, tx };
        match tx {
            Some(tx) => {
                lemma_transmit_grows(s, c, s.ids[node], tx, true);
            },
            None => {
                lemma_idle_call_grows(s, c);
            },
        }
    }
}

pub proof fn lemma_poll_others_grows(
    s: Sim,
    script: Seq<Call>,
    sender: NodeId,
    time: SimTime,
    n: nat,
)
    requires
        n <= s.ids.len(),
    ensures
        s.grows_to(s.poll_others(script, sender, time, n), time),
        s.books_to(s.poll_others(script, sender, time, n), 0),
        s.wf() ==> s.timely_until(s.poll_others(script, sender, time, n), time),
        s.wakes_wait_in(s.poll_others(script, sender, time, n)),
        s.calm_until(s.poll_others(script, sender, time, n)),
        s.poll_others(script, sender, time, n).metrics.total_collisions
            == s.metrics.total_collisions,
        s.poll_others(script, sender, time, n).metrics.total_captures == s.metrics.total_captures,
    decreases n,
{
    lemma_grows_reflexive(s, time);
    if n > 0 {
        lemma_poll_others_grows(s, script, sender, time, (n - 1) as nat);
        let mid = s.poll_others(script, sender, time, (n - 1) as nat);
        if s.ids[n - 1] != sender {
            lemma_poll_grows(mid, script, n - 1, time);
            lemma_grows_transitive(s, mid, mid.poll(script, n - 1, time), time);
        }
    }
}

/// All of `wakes` ask for `time` or later.
pub open spec fn wakes_from(wakes: Seq<(NodeId, SimTime)>, time: SimTime) -> bool {
    forall|i: int| 0 <= i < wakes.len() ==> (#[trigger] wakes[i]).1 >= time
}

/// Every wake-up that a node has asked for since `s` is one of `wakes`.
pub open spec fn wakes_listed(s: Sim, later: Sim, wakes: Seq<(NodeId, SimTime)>) -> bool {
    forall|i: int|
        s.log.len() <= i < later.log.len() ==> ((#[trigger] later.log[i]).wake_request() matches
            Some((node, t)) ==> wakes.contains((later.ids[node], t)))
}

pub proof fn lemma_hand_out_grows(
    s: Sim,
    script: Seq<Call>,
    sender: NodeId,
    frame: Frame,
    time: SimTime,
    n: nat,
)
    requires
        n <= s.ids.len(),
    ensures
        ({
            let (later, wakes) = s.hand_out(script, sender, frame, time, n);
            &&& s.grows_to(later, time)
            &&& s.books_to(later, 0)
            &&& s.wf() ==> s.timely_until(later, time)
            &&& s.punctual_until(later) ==> wakes_from(wakes, time)
            &&& s.calm_until(later)
            &&& wakes_listed(s, later, wakes)
            &&& later.metrics.total_collisions == s.metrics.total_collisions
            &&& later.metrics.total_captures == s.metrics.total_captures
        }),
    decreases n,
{
    lemma_grows_reflexive(s, time);
    if n > 0 {
        lemma_hand_out_grows(s, script, sender, frame, time, (n - 1) as nat);
        let (mid, wakes) = s.hand_out(script, sender, frame, time, (n - 1) as nat);
        let (later, more) = s.hand_out(script, sender, frame, time, n);
        let id = s.ids[n - 1];
        if !mid.halted && id != sender {
            lemma_grows_reflexive(mid, time);
            lemma_covered_by_more(mid, later);
            if mid.metrics.has_room_for_rx(id) {
                let wake = mid.next_time(script);
                let c = Call::OnReceive { node: n - 1, frame, time, wake };
                assert(later.log == mid.log.push(c));
                if mid.metrics.balanced() {
                    crate::metrics::law_recording_keeps_balance(mid.metrics, id, 0);
                }
                assert forall|p: nat| #[trigger]
                    mid.accounted(p + 0) && !later.halted implies later.accounted(p) by {
                    crate::accounts::lemma_reception_keeps_accounts(mid, c, p);
                }
                assert(mid.grows_to(later, time));
                lemma_grows_transitive(s, mid, later, time);
                if s.punctual_until(later) {
                    assert(later.log[mid.log.len() as int].punctual());
                }
                assert(wakes_listed(s, later, more)) by {
                    assert forall|i: int| s.log.len() <= i < later.log.len() implies ((
                    #[trigger] later.log[i]).wake_request() matches Some((node, t))
                        ==> more.contains((later.ids[node], t))) by {
                        if i < mid.log.len() {
                            assert(later.log[i] == mid.log[i]);
                            if let Some((node, t)) = mid.log[i].wake_request() {
                                let w = (mid.ids[node], t);
                                let k = choose|k: int| 0 <= k < wakes.len() && wakes[k] == w;
                                assert(wakes.contains(w));
                                assert(more[k] == w);
                            }
                        } else if let Some((node, t)) = later.log[i].wake_request() {
                            assert(more[wakes.len() as int] == (id, t));
                        }
                    }
                }
            } else {
                assert(mid.grows_to(later, time));
                lemma_grows_transitive(s, mid, later, time);
            }
        }
    }
}

pub proof fn lemma_schedule_wakes_grows(
    s: Sim,
    wakes: Seq<(NodeId, SimTime)>,
    time: SimTime,
    n: nat,
)
    requires
        n <= wakes.len(),
    ensures
        s.grows_to(s.schedule_wakes(wakes, n), time),
        s.books_to(s.schedule_wakes(wakes, n), 0),
        s.wf() && wakes_from(wakes, time) ==> s.timely_until(s.schedule_wakes(wakes, n), time),
        s.schedule_wakes(wakes, n).log == s.log,
        s.calm_until(s.schedule_wakes(wakes, n)),
        s.schedule_wakes(wakes, n).metrics == s.metrics,
        !s.schedule_wakes(wakes, n).halted ==> forall|i: int|
            0 <= i < n ==> has_kind(
                s.schedule_wakes(wakes, n).queue,
                (#[trigger] wakes[i]).1,
                EventKind::Wake { node_id: wakes[i].0 },
            ),
    decreases n,
{
    lemma_grows_reflexive(s, time);
    if n > 0 {
        lemma_schedule_wakes_grows(s, wakes, time, (n - 1) as nat);
        let mid = s.schedule_wakes(wakes, (n - 1) as nat);
        let (node_id, t) = wakes[n - 1];
        lemma_schedule_grows(mid, t, EventKind::Wake { node_id }, time);
        let later = mid.schedule(t, EventKind::Wake { node_id });
        lemma_grows_transitive(s, mid, later, time);
        if !later.halted {
            assert forall|i: int| 0 <= i < n implies has_kind(
                later.queue,
                (#[trigger] wakes[i]).1,
                EventKind::Wake { node_id: wakes[i].0 },
            ) by {
                if i < n - 1 {
                    lemma_kind_stays(
                        mid.queue,
                        later.queue,
                        wakes[i].1,
                        EventKind::Wake { node_id: wakes[i].0 },
                    );
                }
            }
        }
    }
}

pub proof fn lemma_broadcast_grows(
    s: Sim,
    script: Seq<Call>,
    sender: NodeId,
    frame: Frame,
    time: SimTime,
)
    ensures
        ({
            let later = s.broadcast_frame(script, sender, frame, time);
            &&& s.grows_to(later, time)
            &&& s.books_to(later, 0)
            &&& s.wf() && s.punctual_until(later) ==> s.timely_until(later, time)
            &&& !later.halted ==> s.wakes_wait_in(later)
            &&& s.calm_until(later)
            &&& later.metrics.total_collisions == s.metrics.total_collisions
            &&& later.metrics.total_captures == s.metrics.total_captures
        }),
{
    let n = s.ids.len();
    let (heard, wakes) = s.hand_out(script, sender, frame, time, n);
    let woken = heard.schedule_wakes(wakes, wakes.len());
    let later = s.broadcast_frame(script, sender, frame, time);
    lemma_hand_out_grows(s, script, sender, frame, time, n);
    lemma_schedule_wakes_grows(heard, wakes, time, wakes.len());
    lemma_poll_others_grows(woken, script, sender, time, n);
    lemma_grows_transitive(s, heard, woken, time);
    lemma_grows_transitive(s, woken, later, time);
    if !later.halted {
        assert(s.wakes_wait_in(woken)) by {
            assert forall|i: int| s.log.len() <= i < woken.log.len() implies ((
            #[trigger] woken.log[i]).wake_request() matches Some((node, t)) ==> has_kind(
                woken.queue,
                t,
                EventKind::Wake { node_id: woken.ids[node] },
            )) by {
                assert(woken.log[i] == heard.log[i]);
                if let Some((node, t)) = heard.log[i].wake_request() {
                    let w = (heard.ids[node], t);
                    assert(wakes.contains(w));
                    let k = choose|k: int| 0 <= k < wakes.len() && wakes[k] == w;
                    assert(has_kind(woken.queue, wakes[k].1, EventKind::Wake { node_id: wakes[k].0 }));
                }
            }
        }
    }
}

pub proof fn lemma_deliver_grows(s: Sim, script: Seq<Call>, outcome: Outcome, time: SimTime)
    ensures
        ({
            let later = s.deliver(script, outcome, time);
            &&& s.grows_to(later, time)
            &&& s.books_to(later, 1)
            &&& s.wf() && s.punctual_until(later) ==> s.timely_until(later, time)
            &&& !later.halted ==> s.wakes_wait_in(later)
            &&& s.calm_until(later)
        }),
{
    let later = s.deliver(script, outcome, time);
    lemma_grows_reflexive(s, time);
    if s.metrics.balanced() {
        crate::metrics::law_recording_keeps_balance(s.metrics, outcome.sender, 0);
    }
    if !s.halted {
        if outcome.collided {
            lemma_covered_by_more(s, later);
        } else {
            let counted = if outcome.captured {
                s.count_capture()
            } else {
                s
            };
            lemma_covered_by_more(s, counted);
            assert(s.grows_to(counted, time));
            assert(s.books_to(counted, 1));
            if !counted.halted {
                lemma_broadcast_grows(counted, script, outcome.sender, outcome.frame, time);
                lemma_grows_transitive(s, counted, later, time);
                assert forall|p: nat| #[trigger]
                    s.accounted(p + 1) && !later.halted implies later.accounted(p) by {
                    assert(counted.accounted(p + 0));
                }
            }
        }
    }
}

proof fn lemma_deliver_all_grows(
    s: Sim,
    script: Seq<Call>,
    outcomes: Seq<Outcome>,
    time: SimTime,
    n: nat,
)
    requires
        n <= outcomes.len(),
    ensures
        ({
            let later = s.deliver_all(script, outcomes, time, n);
            &&& s.grows_to(later, time)
            &&& s.books_to(later, n)
            &&& s.wf() && s.punctual_until(later) ==> s.timely_until(later, time)
            &&& !later.halted ==> s.wakes_wait_in(later)
            &&& s.calm_until(later)
        }),
    decreases n,
{
    lemma_grows_reflexive(s, time);
    if n > 0 {
        lemma_deliver_all_grows(s, script, outcomes, time, (n - 1) as nat);
        let mid = s.deliver_all(script, outcomes, time, (n - 1) as nat);
        let later = mid.deliver(script, outcomes[n - 1], time);
        lemma_deliver_grows(mid, script, outcomes[n - 1], time);
        lemma_grows_transitive(s, mid, later, time);
        assert forall|p: nat| #[trigger]
            s.accounted(p + n) && !later.halted implies later.accounted(p) by {
            assert(s.accounted((p + 1) as nat + (n - 1) as nat));
            assert(mid.accounted(p + 1));
        }
    }
}

pub proof fn lemma_announce_all_grows(s: Sim, events: Seq<ChannelEvent>, time: SimTime, n: nat)
    requires
        n <= events.len(),
    ensures
        s.grows_to(s.announce_all(events, time, n), time),
        s.books_to(s.announce_all(events, time, n), 0),
        s.wf() ==> s.timely_until(s.announce_all(events, time, n), time),
        s.announce_all(events, time, n).channel == s.channel,
        s.announce_all(events, time, n).queue == s.queue,
        s.announce_all(events, time, n).halted == s.halted,
        s.wakes_wait_in(s.announce_all(events, time, n)),
        s.calm_until(s.announce_all(events, time, n)),
    decreases n,
{
    lemma_grows_reflexive(s, time);
    if n > 0 {
        lemma_announce_all_grows(s, events, time, (n - 1) as nat);
        let mid = s.announce_all(events, time, (n - 1) as nat);
        lemma_announce_grows(mid, events[n - 1], time);
        lemma_grows_transitive(s, mid, mid.announce(events[n - 1], time), time);
    }
}

/// After resolving, everything that is still on the air is covered if what ends later was.
proof fn lemma_resolve_grows(s: Sim, time: SimTime)
    ensures
        ({
            let later = Sim { channel: s.channel.resolve(time), ..s };
            &&& s.grows_to(later, time)
            &&& s.books_to(later, 0)
            &&& s.wf() ==> s.timely_until(later, time)
            &&& s.covered(time as int) ==> later.covered(-1)
            &&& s.wakes_wait_in(later)
            &&& s.calm_until(later)
        }),
{
    let later = Sim { channel: s.channel.resolve(time), ..s };
    let live = |t: OnAir| t.end > time;
    lemma_grows_reflexive(s, time);
    crate::channel_laws::law_resolve_conserves(s.channel, time);
    crate::channel_laws::law_resolve_separates_by_end(s.channel, time);
    assert forall|i: int| 0 <= i < later.channel.active.len() implies s.channel.active.contains(
        #[trigger] later.channel.active[i],
    ) by {
        assert(s.channel.active.filter(live).contains(later.channel.active[i]));
        s.channel.active.lemma_filter_contains_rev(live, later.channel.active[i]);
    }
    assert forall|t: int| #[trigger] s.covered(t) implies later.covered(t) by {
        assert forall|i: int|
            0 <= i < later.channel.active.len() && (#[trigger] later.channel.active[i]).end
                > t implies has_completion(later.queue, later.channel.active[i].end) by {
            let a = later.channel.active[i];
            let j = choose|j: int| 0 <= j < s.channel.active.len() && s.channel.active[j] == a;
            assert(s.channel.active[j].end > t);
        }
    }
    if s.covered(time as int) {
        assert(later.covered(time as int));
        assert forall|i: int|
            0 <= i < later.channel.active.len() && (#[trigger] later.channel.active[i]).end
                > -1 implies has_completion(later.queue, later.channel.active[i].end) by {
            assert(later.channel.active[i].end > time);
        }
    }
    assert forall|p: nat| #[trigger] s.accounted(p + 0) && !later.halted implies later.accounted(
        p,
    ) by {}
}

pub proof fn lemma_deliver_completed_grows(s: Sim, script: Seq<Call>, time: SimTime)
    ensures
        ({
            let later = s.deliver_completed(script, time);
            &&& s.grows_to(later, time)
            &&& s.books_to(later, 0)
            &&& s.wf() && s.punctual_until(later) ==> s.timely_until(later, time)
            &&& !later.halted ==> s.wakes_wait_in(later)
            &&& s.calm_until(later)
        }),
{
    let outcomes = s.channel.outcomes();
    let drained = Sim { channel: s.channel.drained(), ..s };
    let later = s.deliver_completed(script, time);
    lemma_grows_reflexive(s, time);
    lemma_covered_by_more(s, drained);
    assert(s.grows_to(drained, time));
    lemma_deliver_all_grows(drained, script, outcomes, time, outcomes.len());
    lemma_grows_transitive(s, drained, later, time);
    assert forall|p: nat| #[trigger] s.accounted(p + 0) && !later.halted implies later.accounted(
        p,
    ) by {
        assert(drained.accounted(p + outcomes.len()));
    }
}

proof fn lemma_complete_grows(s: Sim, script: Seq<Call>, time: SimTime)
    ensures
        ({
            let later = s.complete(script, time);
            &&& s.grows_to(later, time)
            &&& s.books_to(later, 0)
            &&& s.wf() && s.punctual_until(later) ==> s.timely_until(later, time)
            &&& s.covered(time as int) ==> later.covered(-1)
            &&& !later.halted ==> s.wakes_wait_in(later)
            &&& s.calm_until(later)
        }),
{
    let events = s.channel.completions(time);
    let resolved = Sim { channel: s.channel.resolve(time), ..s };
    let announced = resolved.announce_all(events, time, events.len());
    let later = s.complete(script, time);
    lemma_resolve_grows(s, time);
    lemma_announce_all_grows(resolved, events, time, events.len());
    lemma_deliver_completed_grows(announced, script, time);
    lemma_grows_transitive(s, resolved, announced, time);
    lemma_grows_transitive(s, announced, later, time);
}

/// Since `s` at most `node` was updated, no interferer was polled, and no poll was scheduled.
pub open spec fn wakes_one(s: Sim, later: Sim, node: Option<int>) -> bool {
    &&& forall|i: int|
        s.log.len() <= i < later.log.len() ==> (#[trigger] later.log[i]).is_calm() || (
        later.log[i] is Update && node == Some(later.log[i]->Update_node))
    &&& forall|e: ScheduledEvent| #[trigger]
        later.queue.contains(e) && e.kind is InterferencePoll ==> s.queue.contains(e)
}

/// Since `s` no node was updated, at most interferer `idx` was polled, and at most one more poll
/// of it was scheduled.
pub open spec fn polls_one(s: Sim, later: Sim, idx: usize) -> bool {
    &&& forall|i: int|
        s.log.len() <= i < later.log.len() ==> (#[trigger] later.log[i]).is_calm() || (
        later.log[i] is PollInject && later.log[i]->PollInject_interferer == idx) || (
        later.log[i] is NextPollTime && later.log[i]->NextPollTime_interferer == idx)
    &&& forall|e: ScheduledEvent| #[trigger]
        later.queue.contains(e) && e.kind is InterferencePoll ==> s.queue.contains(e) || (e.kind
            == (EventKind::InterferencePoll { interferer_idx: idx }) && shows_next_poll(
            s,
            later,
            idx,
            e.time,
        ))
    &&& forall|e: ScheduledEvent, f: ScheduledEvent|
        #![trigger later.queue.contains(e), later.queue.contains(f)]
        later.queue.contains(e) && later.queue.contains(f) && e.kind is InterferencePoll && f.kind
            is InterferencePoll && !s.queue.contains(e) && !s.queue.contains(f) ==> e == f
}

/// Since `s` the interferer `idx` has asked to be polled again at `time`.
pub open spec fn shows_next_poll(s: Sim, later: Sim, idx: usize, time: SimTime) -> bool {
    exists|i: int|
        s.log.len() <= i < later.log.len() && (#[trigger] later.log[i] matches
            Call::NextPollTime { interferer, next, .. } && interferer == idx && next == Some(time))
}

pub proof fn lemma_wake_grows(s: Sim, script: Seq<Call>, node_id: NodeId, time: SimTime)
    requires
        !s.halted,
    ensures
        ({
            let later = s.wake(script, node_id, time);
            &&& s.grows_to(later, time)
            &&& s.books_to(later, 0)
            &&& s.wf() && s.punctual_until(later) ==> s.timely_until(later, time)
            &&& !later.halted ==> s.wakes_wait_in(later)
            &&& wakes_one(s, later, s.ids.index_of_first(node_id))
        }),
{
    lemma_grows_reflexive(s, time);
    s.ids.index_of_first_ensures(node_id);
    match s.ids.index_of_first(node_id) {
        Some(node) => {
            let wake = s.next_time(script);
            let c = Call::Update { node, time, wake };
            let asked = s.call(c);
            let scheduled = asked.schedule_if(wake, EventKind::Wake { node_id });
            let later = scheduled.poll(script, node, time);
            lemma_idle_call_grows(s, c);
            lemma_grows_reflexive(asked, time);
            match wake {
                Some(t) => {
                    lemma_schedule_grows(asked, t, EventKind::Wake { node_id }, time);
                },
                None => {},
            }
            lemma_poll_grows(scheduled, script, node, time);
            lemma_grows_transitive(s, asked, scheduled, time);
            lemma_grows_transitive(s, scheduled, later, time);
            assert(later.log[s.log.len() as int] == scheduled.log[s.log.len() as int]);
            if s.punctual_until(later) {
                assert(c.punctual());
            }
            assert(!scheduled.halted ==> s.wakes_wait_in(scheduled));
            assert forall|i: int| s.log.len() <= i < later.log.len() implies (
            #[trigger] later.log[i]).is_calm() || (later.log[i] is Update && node
                == later.log[i]->Update_node) by {
                if i > s.log.len() {
                    assert(i >= scheduled.log.len());
                }
            }
        },
        None => {},
    }
}

pub proof fn lemma_interfere_grows(s: Sim, script: Seq<Call>, idx: usize, time: SimTime)
    requires
        !s.halted,
        idx < s.interferers,
    ensures
        ({
            let later = s.interfere(script, idx, time);
            &&& s.grows_to(later, time)
            &&& s.books_to(later, 0)
            &&& s.wf() && s.punctual_until(later) ==> s.timely_until(later, time)
            &&& s.wakes_wait_in(later)
            &&& polls_one(s, later, idx)
        }),
{
    let tx = s.next_tx(script);
    let c = Call::PollInject { interferer: idx as int, time, tx };
    let asked = s.call(c);
    let sender = crate::simulation::interferer_id(idx as int);
    let injected = match tx {
        Some(tx) => asked.transmit(sender, tx, time, false),
        None => asked,
    };
    let later = s.interfere(script, idx, time);
    match tx {
        Some(tx) => {
            lemma_transmit_grows(s, c, sender, tx, false);
        },
        None => {
            lemma_idle_call_grows(s, c);
        },
    }
    if !injected.halted {
        let next = injected.next_time(script);
        let d = Call::NextPollTime { interferer: idx as int, time, next };
        let asked_again = injected.call(d);
        let kind = EventKind::InterferencePoll { interferer_idx: idx };
        lemma_idle_call_grows(injected, d);
        lemma_grows_reflexive(asked_again, time);
        match next {
            Some(t) => {
                lemma_schedule_grows(asked_again, t, kind, time);
            },
            None => {},
        }
        lemma_grows_transitive(s, injected, asked_again, time);
        lemma_grows_transitive(s, asked_again, later, time);
        assert forall|i: int| s.log.len() <= i < later.log.len() implies (
        #[trigger] later.log[i]).is_calm() || (later.log[i] is PollInject
            && later.log[i]->PollInject_interferer == idx) || (later.log[i] is NextPollTime
            && later.log[i]->NextPollTime_interferer == idx) by {
            if i < injected.log.len() {
                assert(later.log[i] == injected.log[i]);
                if i > s.log.len() {
                    assert(injected.log[i].is_calm());
                } else {
                    assert(injected.log[i] == c);
                }
            } else {
                assert(later.log[i] == d);
            }
        }
        match next {
            Some(t) => {
                let event = ScheduledEvent { time: t, seq: asked_again.seq, kind };
                lemma_enqueue_contains(asked_again.queue, event);
                assert(later.log[injected.log.len() as int] == d);
                assert forall|e: ScheduledEvent| #[trigger]
                    later.queue.contains(e) && e.kind is InterferencePoll && !s.queue.contains(
                        e,
                    ) implies e == event && shows_next_poll(s, later, idx, e.time) by {}
            },
            None => {},
        }
        if s.punctual_until(later) {
            assert(later.log[injected.log.len() as int] == d);
            assert(d.punctual());
        }
    }
}

impl Sim {
    /// `self` as its next event is about to fire.
    pub open spec fn about_to_fire(self) -> Sim {
        Sim { queue: self.queue.drop_first(), now: self.queue[0].time, ..self }
    }
}

pub proof fn lemma_pop_keeps_wf(s: Sim)
    requires
        s.wf(),
        s.queue.len() > 0,
    ensures
        s.about_to_fire().wf(),
        forall|e: ScheduledEvent| #[trigger]
            s.about_to_fire().queue.contains(e) ==> s.queue.contains(e) && s.queue[0].precedes(e),
        forall|e: ScheduledEvent| #[trigger]
            s.queue.contains(e) && e != s.queue[0] ==> s.about_to_fire().queue.contains(e),
{
    let popped = s.about_to_fire();
    assert forall|i: int| 0 <= i < popped.queue.len() implies #[trigger] popped.queue[i]
        == s.queue[i + 1] by {}
    assert forall|e: ScheduledEvent| #[trigger]
        popped.queue.contains(e) implies s.queue.contains(e) && s.queue[0].precedes(e) by {
        let i = choose|i: int| 0 <= i < popped.queue.len() && popped.queue[i] == e;
        assert(s.queue[i + 1] == e);
    }
    assert forall|e: ScheduledEvent| #[trigger]
        s.queue.contains(e) && e != s.queue[0] implies popped.queue.contains(e) by {
        let i = choose|i: int| 0 <= i < s.queue.len() && s.queue[i] == e;
        assert(popped.queue[i - 1] == e);
    }
}

/// What one step does: the first event leaves the queue, the clock shows its time, and the rest
/// grows from there.
pub proof fn lemma_step_grows(s: Sim, script: Seq<Call>)
    requires
        s.wf(),
        !s.idle(),
    ensures
        ({
            let base = s.about_to_fire();
            let later = s.step(script);
            &&& base.grows_to(later, s.queue[0].time)
            &&& base.books_to(later, 0)
            &&& base.punctual_until(later) ==> base.timely_until(later, s.queue[0].time)
            &&& s.covered(-1) ==> later.covered(-1)
            &&& base.wf()
            &&& later.wf()
            &&& !later.halted ==> base.wakes_wait_in(later)
            &&& match s.queue[0].kind {
                EventKind::Wake { node_id } => wakes_one(
                    base,
                    later,
                    s.ids.index_of_first(node_id),
                ),
                EventKind::TxComplete { .. } => base.calm_until(later),
                EventKind::InterferencePoll { interferer_idx } => polls_one(
                    base,
                    later,
                    interferer_idx,
                ),
            }
        }),
{
    let base = s.about_to_fire();
    let later = s.step(script);
    let event = s.queue[0];
    let time = event.time;
    lemma_pop_keeps_wf(s);
    assert(s.can_schedule(event.kind));
    assert(s.covered(-1) ==> base.covered(time as int)) by {
        if s.covered(-1) {
            assert forall|i: int|
                0 <= i < base.channel.active.len() && (#[trigger] base.channel.active[i]).end
                    > time implies has_completion(base.queue, base.channel.active[i].end) by {
                let end = s.channel.active[i].end;
                assert(s.channel.active[i].end > -1);
                assert(has_completion(s.queue, end));
                let e = choose|e: ScheduledEvent| #[trigger]
                    s.queue.contains(e) && e.kind is TxComplete && e.time == end;
                assert(base.queue.contains(e));
            }
        }
    }
    assert(s.covered(-1) && !(event.kind is TxComplete) ==> base.covered(-1)) by {
        if s.covered(-1) && !(event.kind is TxComplete) {
            assert forall|i: int|
                0 <= i < base.channel.active.len() && (#[trigger] base.channel.active[i]).end
                    > -1 implies has_completion(base.queue, base.channel.active[i].end) by {
                let end = s.channel.active[i].end;
                assert(s.channel.active[i].end > -1);
                assert(has_completion(s.queue, end));
                let e = choose|e: ScheduledEvent| #[trigger]
                    s.queue.contains(e) && e.kind is TxComplete && e.time == end;
                assert(base.queue.contains(e));
            }
        }
    }
    match event.kind {
        EventKind::Wake { node_id } => {
            lemma_wake_grows(base, script, node_id, time);
        },
        EventKind::TxComplete { sender } => {
            lemma_complete_grows(base, script, time);
        },
        EventKind::InterferencePoll { interferer_idx } => {
            lemma_interfere_grows(base, script, interferer_idx, time);
        },
    }
}

/// An event of this kind waits for this time.
pub open spec fn has_kind(queue: Seq<ScheduledEvent>, time: SimTime, kind: EventKind) -> bool {
    exists|e: ScheduledEvent| #[trigger] queue.contains(e) && e.time == time && e.kind == kind
}

} // verus!
