//! Events are scheduled as they are called for: each answer that calls for an event brings exactly
//! that event about, numbered in the order of the answers.
use crate::channel::Outcome;
use crate::queue::ScheduledEvent;
use crate::scheduler::EventKind;
use crate::simulation::{begins, interferer_id, Call, Sim};
use crate::time::SimTime;
use crate::types::{Burst, ChannelEvent, Frame, NodeId};
use vstd::prelude::*;

verus! {

/// The event that the answer to `c` calls for, if any: a node is woken when it asks to be, an
/// interferer is polled when it asks to be, and a transmission ends when its time is over.
pub open spec fn called_for(c: Call, ids: Seq<NodeId>) -> Seq<(SimTime, EventKind)> {
    match c {
        Call::Update { node, wake: Some(t), .. } => seq![
            (t, EventKind::Wake { node_id: ids[node] }),
        ],
        Call::OnReceive { node, wake: Some(t), .. } => seq![
            (t, EventKind::Wake { node_id: ids[node] }),
        ],
        Call::NextPollTime { interferer, next: Some(t), .. } => seq![
            (t, EventKind::InterferencePoll { interferer_idx: interferer as usize }),
        ],
        Call::PollTransmit { node, time, tx: Some(tx) } => seq![
            ((time + tx.duration_us) as SimTime, EventKind::TxComplete { sender: ids[node] }),
        ],
        Call::PollInject { interferer, time, tx: Some(tx) } => seq![
            (
                (time + tx.duration_us) as SimTime,
                EventKind::TxComplete { sender: NodeId((u32::MAX - interferer) as u32) },
            ),
        ],
        _ => Seq::empty(),
    }
}

/// The events that the answers in `log` call for, in their order.
pub open spec fn all_called_for(log: Seq<Call>, ids: Seq<NodeId>) -> Seq<(SimTime, EventKind)>
    decreases log.len(),
{
    if log.len() == 0 {
        Seq::empty()
    } else {
        all_called_for(log.drop_last(), ids) + called_for(log.last(), ids)
    }
}

/// Of the events numbered from `first` on, as many are scheduled as were called for since the log
/// was `from` long, less those in `pending`; and each that waits is the one that was called for at
/// its number.
pub open spec fn numbered(
    s: Sim,
    from: int,
    first: u64,
    pending: Seq<(SimTime, EventKind)>,
) -> bool {
    let all = all_called_for(s.log.skip(from), s.ids);
    &&& 0 <= from <= s.log.len()
    &&& first <= s.seq
    &&& all.len() == s.seq - first + pending.len()
    &&& all.skip(s.seq - first) == pending
    &&& forall|e: ScheduledEvent| #[trigger]
        s.queue.contains(e) && e.seq >= first ==> e.seq < s.seq && (e.time, e.kind) == all[e.seq
            - first]
}

proof fn lemma_called_for_push(log: Seq<Call>, c: Call, ids: Seq<NodeId>)
    ensures
        all_called_for(log.push(c), ids) == all_called_for(log, ids) + called_for(c, ids),
{
    assert(log.push(c).drop_last() =~= log);
}

proof fn lemma_call_numbered(
    s: Sim,
    from: int,
    first: u64,
    pending: Seq<(SimTime, EventKind)>,
    c: Call,
)
    requires
        numbered(s, from, first, pending),
    ensures
        numbered(s.call(c), from, first, pending + called_for(c, s.ids)),
{
    let later = s.call(c);
    assert(later.log.skip(from) =~= s.log.skip(from).push(c));
    lemma_called_for_push(s.log.skip(from), c, s.ids);
    let all = all_called_for(s.log.skip(from), s.ids);
    let more = all + called_for(c, s.ids);
    assert(more.skip(s.seq - first) =~= pending + called_for(c, s.ids));
}

proof fn lemma_shown_numbered(
    s: Sim,
    from: int,
    first: u64,
    pending: Seq<(SimTime, EventKind)>,
    k: nat,
    event: ChannelEvent,
    time: SimTime,
)
    requires
        numbered(s, from, first, pending),
    ensures
        numbered(
            Sim {
                log: s.log + Seq::new(k, |j: int| Call::Observe { interferer: j, event, time }),
                ..s
            },
            from,
            first,
            pending,
        ),
    decreases k,
{
    let shown = Seq::new(k, |j: int| Call::Observe { interferer: j, event, time });
    if k == 0 {
        assert(s.log + shown =~= s.log);
    } else {
        let fewer = Seq::new(
            (k - 1) as nat,
            |j: int| Call::Observe { interferer: j, event, time },
        );
        let mid = Sim { log: s.log + fewer, ..s };
        let c = Call::Observe { interferer: k - 1, event, time };
        lemma_shown_numbered(s, from, first, pending, (k - 1) as nat, event, time);
        lemma_call_numbered(mid, from, first, pending, c);
        assert(pending + called_for(c, s.ids) =~= pending);
        assert(s.log + shown =~= (s.log + fewer).push(c));
        assert(mid.call(c) == (Sim { log: s.log + shown, ..s }));
    }
}

proof fn lemma_schedule_numbered(
    s: Sim,
    from: int,
    first: u64,
    pending: Seq<(SimTime, EventKind)>,
    at: SimTime,
    kind: EventKind,
)
    requires
        numbered(s, from, first, pending),
        pending.len() > 0,
        pending[0] == (at, kind),
    ensures
        !s.schedule(at, kind).halted ==> numbered(
            s.schedule(at, kind),
            from,
            first,
            pending.drop_first(),
        ),
{
    let later = s.schedule(at, kind);
    if !later.halted {
        let event = ScheduledEvent { time: at, seq: s.seq, kind };
        crate::growth::lemma_enqueue_contains(s.queue, event);
        let all = all_called_for(s.log.skip(from), s.ids);
        let k = s.seq - first;
        assert(all.skip(k)[0] == all[k]);
        assert(all.skip(k + 1) =~= pending.drop_first());
    }
}

proof fn lemma_sending_numbered(
    s: Sim,
    from: int,
    first: u64,
    c: Call,
    sender: NodeId,
    tx: Burst,
    by_node: bool,
)
    requires
        numbered(s, from, first, Seq::empty()),
        c.tx_answer() == Some(tx),
        c.sender(s.ids) == Some(sender),
    ensures
        ({
            let later = s.call(c).transmit(sender, tx, c.time(), by_node);
            !later.halted ==> numbered(later, from, first, Seq::empty())
        }),
{
    let time = c.time();
    let asked = s.call(c);
    let later = asked.transmit(sender, tx, time, by_node);
    if !later.halted {
        let pending = called_for(c, s.ids);
        let started = ChannelEvent::TransmissionStarted {
            sender,
            sf: tx.sf,
            frequency: tx.frequency,
            time,
        };
        let counted = if by_node {
            asked.metrics.plus_tx(sender)
        } else {
            asked.metrics
        };
        let on_air = Sim {
            channel: asked.channel.begin(sender, tx, time),
            metrics: counted.plus_airtime(tx.duration_us),
            ..asked
        };
        lemma_call_numbered(s, from, first, Seq::empty(), c);
        assert(Seq::<(SimTime, EventKind)>::empty() + pending =~= pending);
        assert(numbered(on_air, from, first, pending));
        lemma_shown_numbered(on_air, from, first, pending, s.interferers, started, time);
        lemma_schedule_numbered(
            on_air.announce(started, time),
            from,
            first,
            pending,
            (time + tx.duration_us) as SimTime,
            EventKind::TxComplete { sender },
        );
        assert(pending.drop_first() =~= Seq::empty());
    }
}

proof fn lemma_poll_numbered(
    s: Sim,
    from: int,
    first: u64,
    script: Seq<Call>,
    node: int,
    time: SimTime,
)
    requires
        numbered(s, from, first, Seq::empty()),
    ensures
        !s.poll(script, node, time).halted ==> numbered(
            s.poll(script, node, time),
            from,
            first,
            Seq::empty(),
        ),
{
    if !s.halted {
        let tx = s.next_tx(script);
        let c = Call::PollTransmit { node, time, tx };
        match tx {
            Some(tx) => {
                lemma_sending_numbered(s, from, first, c, s.ids[node], tx, true);
            },
            None => {
                lemma_call_numbered(s, from, first, Seq::empty(), c);
                assert(Seq::<(SimTime, EventKind)>::empty() + called_for(c, s.ids)
                    =~= Seq::empty());
            },
        }
    }
}

proof fn lemma_poll_others_numbered(
    s: Sim,
    from: int,
    first: u64,
    script: Seq<Call>,
    sender: NodeId,
    time: SimTime,
    n: nat,
)
    requires
        numbered(s, from, first, Seq::empty()),
    ensures
        s.halted ==> s.poll_others(script, sender, time, n).halted,
        !s.poll_others(script, sender, time, n).halted ==> numbered(
            s.poll_others(script, sender, time, n),
            from,
            first,
            Seq::empty(),
        ),
    decreases n,
{
    if n > 0 {
        lemma_poll_others_numbered(s, from, first, script, sender, time, (n - 1) as nat);
        let mid = s.poll_others(script, sender, time, (n - 1) as nat);
        if !mid.halted {
            lemma_poll_numbered(mid, from, first, script, n - 1, time);
        }
    }
}

/// The events that wake-ups stand for.
spec fn as_events(wakes: Seq<(NodeId, SimTime)>) -> Seq<(SimTime, EventKind)> {
    wakes.map_values(|w: (NodeId, SimTime)| (w.1, EventKind::Wake { node_id: w.0 }))
}

proof fn lemma_hand_out_numbered(
    s: Sim,
    from: int,
    first: u64,
    script: Seq<Call>,
    sender: NodeId,
    frame: Frame,
    time: SimTime,
    n: nat,
)
    requires
        numbered(s, from, first, Seq::empty()),
    ensures
        ({
            let (later, wakes) = s.hand_out(script, sender, frame, time, n);
            &&& later.ids == s.ids
            &&& !later.halted ==> numbered(later, from, first, as_events(wakes))
        }),
    decreases n,
{
    if n == 0 {
        assert(as_events(Seq::empty()) =~= Seq::empty());
    } else {
        lemma_hand_out_numbered(s, from, first, script, sender, frame, time, (n - 1) as nat);
        let (mid, fewer) = s.hand_out(script, sender, frame, time, (n - 1) as nat);
        let (later, wakes) = s.hand_out(script, sender, frame, time, n);
        if !later.halted && s.ids[n - 1] != sender {
            let wake = mid.next_time(script);
            let c = Call::OnReceive { node: n - 1, frame, time, wake };
            lemma_call_numbered(mid, from, first, as_events(fewer), c);
            assert(as_events(wakes) =~= as_events(fewer) + called_for(c, s.ids));
            assert(numbered(mid.call(c), from, first, as_events(wakes)));
        }
    }
}

proof fn lemma_schedule_wakes_numbered(
    s: Sim,
    from: int,
    first: u64,
    wakes: Seq<(NodeId, SimTime)>,
    n: nat,
)
    requires
        numbered(s, from, first, as_events(wakes)),
        n <= wakes.len(),
    ensures
        s.halted ==> s.schedule_wakes(wakes, n).halted,
        !s.schedule_wakes(wakes, n).halted ==> numbered(
            s.schedule_wakes(wakes, n),
            from,
            first,
            as_events(wakes).skip(n as int),
        ),
    decreases n,
{
    let all = as_events(wakes);
    if n == 0 {
        assert(all.skip(0) =~= all);
    } else {
        lemma_schedule_wakes_numbered(s, from, first, wakes, (n - 1) as nat);
        let mid = s.schedule_wakes(wakes, (n - 1) as nat);
        let (node_id, t) = wakes[n - 1];
        if !mid.halted {
            assert(all.skip(n - 1)[0] == all[n - 1]);
            lemma_schedule_numbered(
                mid,
                from,
                first,
                all.skip(n - 1),
                t,
                EventKind::Wake { node_id },
            );
            assert(all.skip(n - 1).drop_first() =~= all.skip(n as int));
        }
    }
}

proof fn lemma_deliver_numbered(
    s: Sim,
    from: int,
    first: u64,
    script: Seq<Call>,
    outcome: Outcome,
    time: SimTime,
)
    requires
        numbered(s, from, first, Seq::empty()),
    ensures
        !s.deliver(script, outcome, time).halted ==> numbered(
            s.deliver(script, outcome, time),
            from,
            first,
            Seq::empty(),
        ),
{
    let later = s.deliver(script, outcome, time);
    if !later.halted && !outcome.collided {
        let counted = if outcome.captured {
            s.count_capture()
        } else {
            s
        };
        let n = s.ids.len();
        let (heard, wakes) = counted.hand_out(script, outcome.sender, outcome.frame, time, n);
        let woken = heard.schedule_wakes(wakes, wakes.len());
        assert(numbered(counted, from, first, Seq::empty()));
        crate::growth::lemma_hand_out_grows(
            counted,
            script,
            outcome.sender,
            outcome.frame,
            time,
            n,
        );
        crate::growth::lemma_schedule_wakes_grows(heard, wakes, time, wakes.len());
        crate::growth::lemma_poll_others_grows(woken, script, outcome.sender, time, n);
        lemma_hand_out_numbered(
            counted,
            from,
            first,
            script,
            outcome.sender,
            outcome.frame,
            time,
            n,
        );
        lemma_schedule_wakes_numbered(heard, from, first, wakes, wakes.len());
        assert(as_events(wakes).skip(wakes.len() as int) =~= Seq::empty());
        lemma_poll_others_numbered(woken, from, first, script, outcome.sender, time, n);
    }
}

proof fn lemma_deliver_all_numbered(
    s: Sim,
    from: int,
    first: u64,
    script: Seq<Call>,
    outcomes: Seq<Outcome>,
    time: SimTime,
    n: nat,
)
    requires
        numbered(s, from, first, Seq::empty()),
    ensures
        !s.deliver_all(script, outcomes, time, n).halted ==> numbered(
            s.deliver_all(script, outcomes, time, n),
            from,
            first,
            Seq::empty(),
        ),
    decreases n,
{
    if n > 0 {
        lemma_deliver_all_numbered(s, from, first, script, outcomes, time, (n - 1) as nat);
        let mid = s.deliver_all(script, outcomes, time, (n - 1) as nat);
        if !mid.halted {
            lemma_deliver_numbered(mid, from, first, script, outcomes[n - 1], time);
        }
    }
}

proof fn lemma_announce_all_numbered(
    s: Sim,
    from: int,
    first: u64,
    events: Seq<ChannelEvent>,
    time: SimTime,
    n: nat,
)
    requires
        numbered(s, from, first, Seq::empty()),
    ensures
        numbered(s.announce_all(events, time, n), from, first, Seq::empty()),
        s.announce_all(events, time, n).interferers == s.interferers,
    decreases n,
{
    if n > 0 {
        lemma_announce_all_numbered(s, from, first, events, time, (n - 1) as nat);
        let mid = s.announce_all(events, time, (n - 1) as nat);
        lemma_shown_numbered(
            mid,
            from,
            first,
            Seq::empty(),
            mid.interferers,
            events[n - 1],
            time,
        );
    }
}

proof fn lemma_step_numbered(s: Sim, from: int, first: u64, script: Seq<Call>)
    requires
        s.wf(),
        numbered(s, from, first, Seq::empty()),
        !s.step(script).halted,
    ensures
        numbered(s.step(script), from, first, Seq::empty()),
{
    if !s.idle() {
        let base = s.about_to_fire();
        let event = s.queue[0];
        let time = event.time;
        let later = s.step(script);
        crate::growth::lemma_pop_keeps_wf(s);
        let none = Seq::<(SimTime, EventKind)>::empty();
        assert(numbered(base, from, first, none));
        assert(s.can_schedule(event.kind));
        match event.kind {
            EventKind::Wake { node_id } => {
                s.ids.index_of_first_ensures(node_id);
                if let Some(node) = s.ids.index_of_first(node_id) {
                    let wake = base.next_time(script);
                    let c = Call::Update { node, time, wake };
                    let asked = base.call(c);
                    let scheduled = asked.schedule_if(wake, EventKind::Wake { node_id });
                    lemma_call_numbered(base, from, first, none, c);
                    assert(none + called_for(c, s.ids) =~= called_for(c, s.ids));
                    crate::growth::lemma_poll_grows(scheduled, script, node, time);
                    match wake {
                        Some(t) => {
                            lemma_schedule_numbered(
                                asked,
                                from,
                                first,
                                called_for(c, s.ids),
                                t,
                                EventKind::Wake { node_id },
                            );
                            assert(called_for(c, s.ids).drop_first() =~= none);
                        },
                        None => {},
                    }
                    lemma_poll_numbered(scheduled, from, first, script, node, time);
                }
            },
            EventKind::TxComplete { sender } => {
                let events = base.channel.completions(time);
                let resolved = Sim { channel: base.channel.resolve(time), ..base };
                let announced = resolved.announce_all(events, time, events.len());
                let outcomes = announced.channel.outcomes();
                let drained = Sim { channel: announced.channel.drained(), ..announced };
                assert(numbered(resolved, from, first, none));
                lemma_announce_all_numbered(resolved, from, first, events, time, events.len());
                assert(numbered(drained, from, first, none));
                lemma_deliver_all_numbered(
                    drained,
                    from,
                    first,
                    script,
                    outcomes,
                    time,
                    outcomes.len(),
                );
            },
            EventKind::InterferencePoll { interferer_idx } => {
                let tx = base.next_tx(script);
                let c = Call::PollInject { interferer: interferer_idx as int, time, tx };
                let asked = base.call(c);
                let sender = interferer_id(interferer_idx as int);
                let injected = match tx {
                    Some(tx) => asked.transmit(sender, tx, time, false),
                    None => asked,
                };
                match tx {
                    Some(tx) => {
                        lemma_sending_numbered(base, from, first, c, sender, tx, false);
                    },
                    None => {
                        lemma_call_numbered(base, from, first, none, c);
                        assert(none + called_for(c, s.ids) =~= none);
                    },
                }
                let next = injected.next_time(script);
                let d = Call::NextPollTime { interferer: interferer_idx as int, time, next };
                let again = injected.call(d);
                lemma_call_numbered(injected, from, first, none, d);
                assert(none + called_for(d, s.ids) =~= called_for(d, s.ids));
                match next {
                    Some(t) => {
                        lemma_schedule_numbered(
                            again,
                            from,
                            first,
                            called_for(d, s.ids),
                            t,
                            EventKind::InterferencePoll { interferer_idx },
                        );
                        assert(called_for(d, s.ids).drop_first() =~= none);
                    },
                    None => {},
                }
            },
        }
    }
}

/// At every point of a run, as many events have been scheduled since its start as the answers in
/// the log call for, and each event that was scheduled since then and still waits is the one that
/// was called for at its number: events are numbered in the order of the answers that call for
/// them, and each waits for exactly the time, and does exactly what, was called for.
pub proof fn law_events_are_scheduled_as_called_for(start: Sim, script: Seq<Call>, n: nat)
    requires
        start.wf(),
        !start.after(script, n).halted,
    ensures
        numbered(
            start.after(script, n),
            start.log.len() as int,
            start.seq,
            Seq::empty(),
        ),
    decreases n,
{
    let from = start.log.len() as int;
    if n == 0 {
        assert(start.log.skip(from) =~= Seq::empty());
        assert(all_called_for(start.log.skip(from), start.ids).skip(0) =~= Seq::empty());
        assert forall|e: ScheduledEvent| #[trigger] start.queue.contains(e) implies e.seq
            < start.seq by {
            let i = choose|i: int| 0 <= i < start.queue.len() && start.queue[i] == e;
            assert(start.queue[i].seq < start.seq);
        }
    } else {
        let mid = start.after(script, (n - 1) as nat);
        crate::simulation_laws::lemma_after_keeps_wf(start, script, (n - 1) as nat);
        law_events_are_scheduled_as_called_for(start, script, (n - 1) as nat);
        lemma_step_numbered(mid, from, start.seq, script);
    }
}

/// The same at the end of a finished run.
pub proof fn law_run_schedules_as_called_for(start: Sim, end: Sim)
    requires
        start.wf(),
        end.ends_run(start),
        !end.halted,
    ensures
        numbered(end, start.log.len() as int, start.seq, Seq::empty()),
{
    let n = choose|n: nat| end.ends_run_after(start, n);
    let script = end.log;
    assert(begins(end.log, script));
    let last = start.after(script, n);
    law_events_are_scheduled_as_called_for(start, script, n);
    crate::simulation_laws::lemma_after_keeps_wf(start, script, n);
    crate::simulation_laws::lemma_idle_queue_is_late(last);
}

} // verus!
