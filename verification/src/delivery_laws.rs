//! Who hears a transmission, who observes it, and how it is counted.
use crate::channel::Outcome;
use crate::growth::has_kind;
use crate::metrics::Tally;
use crate::scheduler::EventKind;
use crate::simulation::{begins, interferer_id, Call, Sim};
use crate::time::SimTime;
use crate::types::{Burst, ChannelEvent, Frame, NodeId};
use vstd::prelude::*;

verus! {

/// The first `n` nodes that hear a frame of `sender`: all but those with its identifier.
pub open spec fn listeners(ids: Seq<NodeId>, sender: NodeId, n: nat) -> Seq<int>
    decreases n,
{
    if n == 0 {
        Seq::empty()
    } else {
        let fewer = listeners(ids, sender, (n - 1) as nat);
        if ids[n - 1] == sender {
            fewer
        } else {
            fewer.push(n - 1)
        }
    }
}

/// Unless the simulation halts, each node but the sender hears a frame exactly once, with exactly
/// the frame that was sent, in the order of registration, and nothing else is called meanwhile.
/// Every reception is counted.
pub proof fn law_everyone_else_hears_once(
    s: Sim,
    script: Seq<Call>,
    sender: NodeId,
    frame: Frame,
    time: SimTime,
    n: nat,
)
    requires
        n <= s.ids.len(),
        !s.hand_out(script, sender, frame, time, n).0.halted,
    ensures
        ({
            let later = s.hand_out(script, sender, frame, time, n).0;
            let hearing = listeners(s.ids, sender, n);
            &&& later.log.len() == s.log.len() + hearing.len()
            &&& begins(s.log, later.log)
            &&& forall|i: int|
                0 <= i < hearing.len() ==> (#[trigger] later.log[s.log.len() + i] matches
                    Call::OnReceive { node, frame: f, time: t, .. } && node == hearing[i] && f
                    == frame && t == time)
            &&& later.metrics.total_rx == s.metrics.total_rx + hearing.len()
            &&& later.queue == s.queue
            &&& later.channel == s.channel
        }),
    decreases n,
{
    if n > 0 {
        let (mid, _) = s.hand_out(script, sender, frame, time, (n - 1) as nat);
        let later = s.hand_out(script, sender, frame, time, n).0;
        law_everyone_else_hears_once(s, script, sender, frame, time, (n - 1) as nat);
        let fewer = listeners(s.ids, sender, (n - 1) as nat);
        let hearing = listeners(s.ids, sender, n);
        if s.ids[n - 1] != sender {
            assert forall|i: int| 0 <= i < hearing.len() implies (
            #[trigger] later.log[s.log.len() + i] matches Call::OnReceive {
                node,
                frame: f,
                time: t,
                ..
            } && node == hearing[i] && f == frame && t == time) by {
                if i < fewer.len() {
                    assert(later.log[s.log.len() + i] == mid.log[s.log.len() + i]);
                }
            }
            assert forall|i: int| 0 <= i < s.log.len() implies #[trigger] later.log[i]
                == s.log[i] by {
                assert(mid.log[i] == s.log[i]);
            }
        }
    }
}

/// Those who hear a frame do not include its sender, are all different, and include every other
/// node.
pub proof fn law_sender_does_not_hear_itself(ids: Seq<NodeId>, sender: NodeId, n: nat)
    requires
        n <= ids.len(),
    ensures
        forall|i: int|
            0 <= i < listeners(ids, sender, n).len() ==> 0 <= (#[trigger] listeners(
                ids,
                sender,
                n,
            )[i]) < n && ids[listeners(ids, sender, n)[i]] != sender,
        forall|i: int, j: int|
            0 <= i < j < listeners(ids, sender, n).len() ==> (#[trigger] listeners(
                ids,
                sender,
                n,
            )[i]) < (#[trigger] listeners(ids, sender, n)[j]),
        forall|node: int|
            0 <= node < n && #[trigger] ids[node] != sender ==> listeners(
                ids,
                sender,
                n,
            ).contains(node),
    decreases n,
{
    if n > 0 {
        law_sender_does_not_hear_itself(ids, sender, (n - 1) as nat);
        let fewer = listeners(ids, sender, (n - 1) as nat);
        let hearing = listeners(ids, sender, n);
        assert forall|node: int|
            0 <= node < n && #[trigger] ids[node] != sender implies hearing.contains(node) by {
            if node == n - 1 {
                assert(hearing[fewer.len() as int] == node);
            } else {
                assert(fewer.contains(node));
                let i = choose|i: int| 0 <= i < fewer.len() && fewer[i] == node;
                assert(hearing[i] == node);
            }
        }
    }
}

/// A transmission that collided is counted and not delivered: no node or interferer is called,
/// nothing is scheduled, and no other counter changes.
pub proof fn law_collided_is_only_counted(
    s: Sim,
    script: Seq<Call>,
    outcome: Outcome,
    time: SimTime,
)
    requires
        !s.halted,
        outcome.collided,
        s.metrics.total_collisions < u64::MAX,
    ensures
        s.deliver(script, outcome, time) == (Sim { metrics: s.metrics.plus_collision(), ..s }),
{
}

/// Completed transmissions that have all collided leave the channel and are counted, and nothing
/// else happens.
pub proof fn law_collided_are_only_counted(s: Sim, script: Seq<Call>, time: SimTime)
    requires
        !s.halted,
        forall|i: int|
            0 <= i < s.channel.completed.len() ==> (#[trigger] s.channel.completed[i]).collided,
        s.metrics.total_collisions + s.channel.completed.len() <= u64::MAX,
    ensures
        s.deliver_completed(script, time) == (Sim {
            channel: s.channel.drained(),
            metrics: Tally {
                total_collisions: (s.metrics.total_collisions
                    + s.channel.completed.len()) as u64,
                ..s.metrics
            },
            ..s
        }),
{
    let outcomes = s.channel.outcomes();
    let drained = Sim { channel: s.channel.drained(), ..s };
    assert forall|i: int| 0 <= i < outcomes.len() implies (#[trigger] outcomes[i]).collided by {
        assert(s.channel.completed[i].collided);
    }
    lemma_collided_add_up(drained, script, outcomes, time, outcomes.len());
}

proof fn lemma_collided_add_up(
    s: Sim,
    script: Seq<Call>,
    outcomes: Seq<Outcome>,
    time: SimTime,
    n: nat,
)
    requires
        !s.halted,
        n <= outcomes.len(),
        forall|i: int| 0 <= i < outcomes.len() ==> (#[trigger] outcomes[i]).collided,
        s.metrics.total_collisions + n <= u64::MAX,
    ensures
        s.deliver_all(script, outcomes, time, n) == (Sim {
            metrics: Tally {
                total_collisions: (s.metrics.total_collisions + n) as u64,
                ..s.metrics
            },
            ..s
        }),
    decreases n,
{
    if n > 0 {
        lemma_collided_add_up(s, script, outcomes, time, (n - 1) as nat);
        assert(outcomes[n - 1].collided);
    }
}

/// The only completed transmission, if it has not collided, leaves the channel, is counted as a
/// capture if it survived a contender, and is handed to every node but its sender.
pub proof fn law_single_intact_is_broadcast(s: Sim, script: Seq<Call>, time: SimTime)
    requires
        !s.halted,
        s.channel.completed.len() == 1,
        !s.channel.completed[0].collided,
        s.metrics.total_captures < u64::MAX,
    ensures
        s.deliver_completed(script, time) == (Sim {
            channel: s.channel.drained(),
            metrics: if s.channel.completed[0].captured {
                s.metrics.plus_capture()
            } else {
                s.metrics
            },
            ..s
        }).broadcast_frame(
            script,
            s.channel.completed[0].sender,
            s.channel.completed[0].frame(s.channel.config),
            time,
        ),
{
    let outcomes = s.channel.outcomes();
    let drained = Sim { channel: s.channel.drained(), ..s };
    assert(outcomes[0] == s.channel.completed[0].outcome(s.channel.config));
    reveal_with_fuel(Sim::deliver_all, 2);
    assert(drained.deliver_all(script, outcomes, time, 1) == drained.deliver(
        script,
        outcomes[0],
        time,
    ));
}

/// A transmission that did not collide is not counted as a collision; it is counted as a capture
/// exactly if it survived a contender; and it is handed to every node but its sender.
pub proof fn law_intact_is_delivered(
    s: Sim,
    script: Seq<Call>,
    outcome: Outcome,
    time: SimTime,
)
    requires
        !s.halted,
        !outcome.collided,
        s.metrics.total_captures < u64::MAX,
    ensures
        s.deliver(script, outcome, time) == (Sim {
            metrics: if outcome.captured {
                s.metrics.plus_capture()
            } else {
                s.metrics
            },
            ..s
        }).broadcast_frame(script, outcome.sender, outcome.frame, time),
{
}

/// Every interferer observes an event that is announced, in the order of registration.
pub proof fn law_every_interferer_observes(s: Sim, event: ChannelEvent, time: SimTime)
    ensures
        s.announce(event, time).log.len() == s.log.len() + s.interferers,
        forall|i: int|
            0 <= i < s.interferers ==> #[trigger] s.announce(event, time).log[s.log.len() + i]
                == (Call::Observe { interferer: i, event, time }),
        forall|i: int| 0 <= i < s.log.len() ==> #[trigger] s.announce(event, time).log[i] == s.log[i],
{
}

/// A transmission that there is room for goes on the air, is announced to every interferer, has
/// its airtime counted, and is counted as a transmission only if a node sends it. Its end is
/// scheduled.
pub proof fn law_transmission_is_accounted_for(
    s: Sim,
    sender: NodeId,
    tx: Burst,
    time: SimTime,
    by_node: bool,
)
    requires
        !s.halted,
        s.has_room_for(sender, tx, time, by_node),
    ensures
        ({
            let later = s.transmit(sender, tx, time, by_node);
            &&& !later.halted
            &&& later.channel == s.channel.begin(sender, tx, time)
            &&& later.log == s.announce(
                ChannelEvent::TransmissionStarted {
                    sender,
                    sf: tx.sf,
                    frequency: tx.frequency,
                    time,
                },
                time,
            ).log
            &&& later.metrics.total_airtime_us == s.metrics.total_airtime_us + tx.duration_us
            &&& later.metrics.total_tx == s.metrics.total_tx + if by_node {
                1int
            } else {
                0
            }
            &&& later.metrics.total_rx == s.metrics.total_rx
            &&& later.metrics.total_collisions == s.metrics.total_collisions
            &&& later.metrics.total_captures == s.metrics.total_captures
            &&& has_kind(
                later.queue,
                (time + tx.duration_us) as SimTime,
                EventKind::TxComplete { sender },
            )
        }),
{
    let started = ChannelEvent::TransmissionStarted {
        sender,
        sf: tx.sf,
        frequency: tx.frequency,
        time,
    };
    let counted = if by_node {
        s.metrics.plus_tx(sender)
    } else {
        s.metrics
    };
    let announced = Sim {
        channel: s.channel.begin(sender, tx, time),
        metrics: counted.plus_airtime(tx.duration_us),
        ..s
    }.announce(started, time);
    let end = (time + tx.duration_us) as SimTime;
    crate::growth::lemma_schedule_grows(announced, end, EventKind::TxComplete { sender }, time);
}

/// Where identifiers are kept apart, every node hears what an interferer sends.
pub proof fn law_interference_is_heard_by_all(s: Sim, idx: int, n: nat)
    requires
        s.ids_apart(),
        0 <= idx < s.interferers,
        n <= s.ids.len(),
    ensures
        listeners(s.ids, interferer_id(idx), n) == Seq::new(n, |i: int| i),
    decreases n,
{
    if n > 0 {
        law_interference_is_heard_by_all(s, idx, (n - 1) as nat);
        assert(s.ids[n - 1] != interferer_id(idx));
    }
    assert(listeners(s.ids, interferer_id(idx), n) =~= Seq::new(n, |i: int| i));
}

/// While a frame is handed out and answered, no collision and no capture is counted: a captured
/// transmission counts once, however many nodes hear it.
pub proof fn law_broadcast_counts_no_collisions(
    s: Sim,
    script: Seq<Call>,
    sender: NodeId,
    frame: Frame,
    time: SimTime,
)
    ensures
        s.broadcast_frame(script, sender, frame, time).metrics.total_collisions
            == s.metrics.total_collisions,
        s.broadcast_frame(script, sender, frame, time).metrics.total_captures
            == s.metrics.total_captures,
{
    crate::growth::lemma_broadcast_grows(s, script, sender, frame, time);
}

/// The log shows since `s` that `node` was asked for a transmission at `time`.
pub open spec fn shows_poll(s: Sim, later: Sim, node: int, time: SimTime) -> bool {
    exists|i: int|
        s.log.len() <= i < later.log.len() && (#[trigger] later.log[i] matches
            Call::PollTransmit { node: n, time: t, .. } && n == node && t == time)
}

/// Unless the simulation halts, every node that has heard a frame is asked for a transmission at
/// the same time: a reply needs no further event.
pub proof fn law_every_listener_is_polled(
    s: Sim,
    script: Seq<Call>,
    sender: NodeId,
    time: SimTime,
    n: nat,
    node: int,
)
    requires
        n <= s.ids.len(),
        !s.poll_others(script, sender, time, n).halted,
        0 <= node < n,
        s.ids[node] != sender,
    ensures
        shows_poll(s, s.poll_others(script, sender, time, n), node, time),
    decreases n,
{
    let mid = s.poll_others(script, sender, time, (n - 1) as nat);
    let later = s.poll_others(script, sender, time, n);
    crate::growth::lemma_poll_others_grows(s, script, sender, time, (n - 1) as nat);
    if s.ids[n - 1] != sender {
        crate::growth::lemma_poll_grows(mid, script, n - 1, time);
        if node == n - 1 {
            let tx = mid.next_tx(script);
            let c = Call::PollTransmit { node, time, tx };
            let asked = mid.call(c);
            match tx {
                Some(tx) => {
                    crate::growth::lemma_transmit_logs(asked, s.ids[node], tx, time, true);
                },
                None => {},
            }
            assert(later.log[mid.log.len() as int] == asked.log[mid.log.len() as int]);
            assert(later.log[mid.log.len() as int] == c);
        } else {
            law_every_listener_is_polled(s, script, sender, time, (n - 1) as nat, node);
            let i = choose|i: int|
                s.log.len() <= i < mid.log.len() && (#[trigger] mid.log[i] matches
                    Call::PollTransmit { node: m, time: t, .. } && m == node && t == time);
            assert(later.log[i] == mid.log[i]);
        }
    } else {
        law_every_listener_is_polled(s, script, sender, time, (n - 1) as nat, node);
    }
}

/// The nodes that were asked for a transmission, call by call.
pub open spec fn polled_nodes(log: Seq<Call>) -> Seq<int>
    decreases log.len(),
{
    if log.len() == 0 {
        Seq::empty()
    } else {
        let before = polled_nodes(log.drop_last());
        match log.last() {
            Call::PollTransmit { node, .. } => before.push(node),
            _ => before,
        }
    }
}

proof fn lemma_no_more_polled(log: Seq<Call>, more: Seq<Call>)
    requires
        forall|i: int| 0 <= i < more.len() ==> !(#[trigger] more[i] is PollTransmit),
    ensures
        polled_nodes(log + more) == polled_nodes(log),
    decreases more.len(),
{
    if more.len() == 0 {
        assert(log + more =~= log);
    } else {
        assert((log + more).drop_last() =~= log + more.drop_last());
        assert((log + more).last() == more[more.len() - 1]);
        assert forall|i: int| 0 <= i < more.drop_last().len() implies !(
        #[trigger] more.drop_last()[i] is PollTransmit) by {
            assert(more.drop_last()[i] == more[i]);
        }
        lemma_no_more_polled(log, more.drop_last());
    }
}

/// Unless the simulation halts, those who have heard a frame, and nobody else, are asked for a
/// transmission, once each and in the order of registration.
pub proof fn law_listeners_are_polled_in_order(
    s: Sim,
    script: Seq<Call>,
    sender: NodeId,
    time: SimTime,
    n: nat,
)
    requires
        n <= s.ids.len(),
        !s.poll_others(script, sender, time, n).halted,
    ensures
        polled_nodes(s.poll_others(script, sender, time, n).log) == polled_nodes(s.log)
            + listeners(s.ids, sender, n),
    decreases n,
{
    let hearing = listeners(s.ids, sender, n);
    if n > 0 {
        let mid = s.poll_others(script, sender, time, (n - 1) as nat);
        let later = s.poll_others(script, sender, time, n);
        let fewer = listeners(s.ids, sender, (n - 1) as nat);
        crate::growth::lemma_poll_others_grows(s, script, sender, time, (n - 1) as nat);
        if s.ids[n - 1] != sender {
            crate::growth::lemma_poll_grows(mid, script, n - 1, time);
            law_listeners_are_polled_in_order(s, script, sender, time, (n - 1) as nat);
            let tx = mid.next_tx(script);
            let c = Call::PollTransmit { node: n - 1, time, tx };
            let asked = mid.log.push(c);
            assert(asked.drop_last() =~= mid.log);
            match tx {
                Some(tx) => {
                    let started = ChannelEvent::TransmissionStarted {
                        sender: s.ids[n - 1],
                        sf: tx.sf,
                        frequency: tx.frequency,
                        time,
                    };
                    let shown = Seq::new(
                        mid.interferers,
                        |i: int| Call::Observe { interferer: i, event: started, time },
                    );
                    assert(later.log == asked + shown);
                    lemma_no_more_polled(asked, shown);
                },
                None => {},
            }
            assert(polled_nodes(s.log) + fewer.push(n - 1) =~= (polled_nodes(s.log)
                + fewer).push(n - 1));
        } else {
            law_listeners_are_polled_in_order(s, script, sender, time, (n - 1) as nat);
        }
    } else {
        assert(polled_nodes(s.log) + hearing =~= polled_nodes(s.log));
    }
}

/// The log shows since `s` that `interferer` has observed `event` at `time`.
pub open spec fn shows_observation(
    s: Sim,
    later: Sim,
    interferer: int,
    event: ChannelEvent,
    time: SimTime,
) -> bool {
    exists|i: int|
        s.log.len() <= i < later.log.len() && #[trigger] later.log[i] == (Call::Observe {
            interferer,
            event,
            time,
        })
}

proof fn lemma_every_event_is_observed(
    s: Sim,
    events: Seq<ChannelEvent>,
    time: SimTime,
    n: nat,
    k: int,
    interferer: int,
)
    requires
        n <= events.len(),
        0 <= k < n,
        0 <= interferer < s.interferers,
    ensures
        shows_observation(s, s.announce_all(events, time, n), interferer, events[k], time),
    decreases n,
{
    let mid = s.announce_all(events, time, (n - 1) as nat);
    let later = s.announce_all(events, time, n);
    crate::growth::lemma_announce_all_grows(s, events, time, (n - 1) as nat);
    law_every_interferer_observes(mid, events[n - 1], time);
    if k == n - 1 {
        assert(later.log[mid.log.len() + interferer] == (Call::Observe {
            interferer,
            event: events[k],
            time,
        }));
    } else {
        lemma_every_event_is_observed(s, events, time, (n - 1) as nat, k, interferer);
        let i = choose|i: int|
            s.log.len() <= i < mid.log.len() && #[trigger] mid.log[i] == (Call::Observe {
                interferer,
                event: events[k],
                time,
            });
        assert(later.log[i] == mid.log[i]);
    }
}

/// When transmissions end, every interferer observes the completion of each, with its sender, the
/// time at which it ended and whether it collided.
pub proof fn law_every_completion_is_observed(
    s: Sim,
    script: Seq<Call>,
    time: SimTime,
    k: int,
    interferer: int,
)
    requires
        0 <= k < s.channel.ended(time).len(),
        0 <= interferer < s.interferers,
    ensures
        shows_observation(
            s,
            s.complete(script, time),
            interferer,
            s.channel.ended(time)[k].completion(),
            time,
        ),
{
    let events = s.channel.completions(time);
    let resolved = Sim { channel: s.channel.resolve(time), ..s };
    let announced = resolved.announce_all(events, time, events.len());
    let later = s.complete(script, time);
    lemma_every_event_is_observed(resolved, events, time, events.len(), k, interferer);
    crate::growth::lemma_deliver_completed_grows(announced, script, time);
    let i = choose|i: int|
        resolved.log.len() <= i < announced.log.len() && #[trigger] announced.log[i] == (
        Call::Observe { interferer, event: events[k], time });
    assert(later.log[i] == announced.log[i]);
}

/// Interferers transmit under different identifiers.
pub proof fn law_interferer_ids_are_distinct(i: int, j: int)
    requires
        0 <= i < j < 0x1_0000_0000,
    ensures
        interferer_id(i) != interferer_id(j),
{
}

} // verus!
