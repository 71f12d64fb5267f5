//! What is sent goes on the air, once each and in its order, and nothing else does.
use crate::channel::{Air, Outcome};
use crate::scheduler::EventKind;
use crate::simulation::{begins, interferer_id, Call, Sim};
use crate::time::SimTime;
use crate::types::{Burst, ChannelEvent, Frame, NodeId};
use vstd::prelude::*;

verus! {

/// The channel after everything that `calls` were answered with has gone on the air, each when it
/// was asked for, under the identifier of the one who was asked.
pub open spec fn with_sent(air: Air, calls: Seq<Call>, ids: Seq<NodeId>) -> Air
    decreases calls.len(),
{
    if calls.len() == 0 {
        air
    } else {
        let before = with_sent(air, calls.drop_last(), ids);
        match calls.last().tx_answer() {
            Some(tx) => before.begin(calls.last().sender(ids)->0, tx, calls.last().time()),
            None => before,
        }
    }
}

impl Sim {
    /// Unless `later` has halted, its channel is that of `self` after what was sent since.
    spec fn airs(self, later: Sim) -> bool {
        &&& begins(self.log, later.log)
        &&& later.ids == self.ids
        &&& later.interferers == self.interferers
        &&& self.halted ==> later.halted
        &&& !later.halted ==> later.channel == with_sent(
            self.channel,
            later.log.skip(self.log.len() as int),
            self.ids,
        )
    }
}

proof fn lemma_with_sent_both(air: Air, x: Seq<Call>, y: Seq<Call>, ids: Seq<NodeId>)
    ensures
        with_sent(air, x + y, ids) == with_sent(with_sent(air, x, ids), y, ids),
    decreases y.len(),
{
    if y.len() == 0 {
        assert(x + y =~= x);
    } else {
        lemma_with_sent_both(air, x, y.drop_last(), ids);
        assert((x + y).drop_last() =~= x + y.drop_last());
        assert((x + y).last() == y.last());
    }
}

proof fn lemma_airs_chain(a: Sim, b: Sim, c: Sim)
    requires
        a.airs(b),
        b.airs(c),
    ensures
        a.airs(c),
{
    assert forall|i: int| 0 <= i < a.log.len() implies #[trigger] c.log[i] == a.log[i] by {
        assert(c.log[i] == b.log[i]);
    }
    let x = b.log.skip(a.log.len() as int);
    let y = c.log.skip(b.log.len() as int);
    assert(c.log.skip(a.log.len() as int) =~= x + y);
    lemma_with_sent_both(a.channel, x, y, a.ids);
}

/// Calls that are answered with no transmission, and a channel that stays as it is.
proof fn lemma_quiet_airs(a: Sim, b: Sim)
    requires
        begins(a.log, b.log),
        b.ids == a.ids,
        b.interferers == a.interferers,
        a.halted ==> b.halted,
        b.channel == a.channel,
        forall|i: int|
            a.log.len() <= i < b.log.len() ==> (#[trigger] b.log[i]).tx_answer() is None,
    ensures
        a.airs(b),
{
    let more = b.log.skip(a.log.len() as int);
    assert forall|i: int| 0 <= i < more.len() implies (#[trigger] more[i]).tx_answer() is None by {
        assert(more[i] == b.log[a.log.len() + i]);
    }
    lemma_quiet_sends_nothing(a.channel, more, a.ids);
}

proof fn lemma_quiet_sends_nothing(air: Air, calls: Seq<Call>, ids: Seq<NodeId>)
    requires
        forall|i: int| 0 <= i < calls.len() ==> (#[trigger] calls[i]).tx_answer() is None,
    ensures
        with_sent(air, calls, ids) == air,
    decreases calls.len(),
{
    if calls.len() > 0 {
        assert forall|i: int| 0 <= i < calls.drop_last().len() implies (
        #[trigger] calls.drop_last()[i]).tx_answer() is None by {
            assert(calls.drop_last()[i] == calls[i]);
        }
        lemma_quiet_sends_nothing(air, calls.drop_last(), ids);
        assert(calls.last() == calls[calls.len() - 1]);
    }
}

proof fn lemma_sending_airs(s: Sim, c: Call, sender: NodeId, tx: Burst, by_node: bool)
    requires
        c.tx_answer() == Some(tx),
        c.sender(s.ids) == Some(sender),
    ensures
        s.airs(s.call(c).transmit(sender, tx, c.time(), by_node)),
{
    let time = c.time();
    let asked = s.call(c);
    let later = asked.transmit(sender, tx, time, by_node);
    crate::growth::lemma_transmit_logs(asked, sender, tx, time, by_node);
    assert forall|i: int| 0 <= i < s.log.len() implies #[trigger] later.log[i] == s.log[i] by {
        assert(asked.log[i] == s.log[i]);
        assert(later.log[i] == asked.log[i]);
    }
    if !later.halted {
        let started = ChannelEvent::TransmissionStarted {
            sender,
            sf: tx.sf,
            frequency: tx.frequency,
            time,
        };
        let shown = Seq::new(
            s.interferers,
            |j: int| Call::Observe { interferer: j, event: started, time },
        );
        let more = later.log.skip(s.log.len() as int);
        assert(more =~= seq![c] + shown);
        lemma_with_sent_both(s.channel, seq![c], shown, s.ids);
        assert(seq![c].drop_last() =~= Seq::empty());
        assert(seq![c].last() == c);
        assert(with_sent(s.channel, Seq::empty(), s.ids) == s.channel);
        assert(with_sent(s.channel, seq![c], s.ids) == s.channel.begin(sender, tx, time));
        lemma_quiet_sends_nothing(with_sent(s.channel, seq![c], s.ids), shown, s.ids);
    }
}

proof fn lemma_poll_airs(s: Sim, script: Seq<Call>, node: int, time: SimTime)
    ensures
        s.airs(s.poll(script, node, time)),
{
    if s.halted {
        lemma_quiet_airs(s, s);
    } else {
        let tx = s.next_tx(script);
        let c = Call::PollTransmit { node, time, tx };
        match tx {
            Some(tx) => {
                lemma_sending_airs(s, c, s.ids[node], tx, true);
            },
            None => {
                lemma_quiet_airs(s, s.call(c));
            },
        }
    }
}

proof fn lemma_poll_others_airs(s: Sim, script: Seq<Call>, sender: NodeId, time: SimTime, n: nat)
    ensures
        s.airs(s.poll_others(script, sender, time, n)),
    decreases n,
{
    if n == 0 {
        lemma_quiet_airs(s, s);
    } else {
        lemma_poll_others_airs(s, script, sender, time, (n - 1) as nat);
        let mid = s.poll_others(script, sender, time, (n - 1) as nat);
        lemma_poll_airs(mid, script, n - 1, time);
        lemma_airs_chain(s, mid, mid.poll(script, n - 1, time));
    }
}

proof fn lemma_hand_out_airs(
    s: Sim,
    script: Seq<Call>,
    sender: NodeId,
    frame: Frame,
    time: SimTime,
    n: nat,
)
    ensures
        s.airs(s.hand_out(script, sender, frame, time, n).0),
    decreases n,
{
    if n == 0 {
        lemma_quiet_airs(s, s);
    } else {
        lemma_hand_out_airs(s, script, sender, frame, time, (n - 1) as nat);
        let (mid, _) = s.hand_out(script, sender, frame, time, (n - 1) as nat);
        let (later, _) = s.hand_out(script, sender, frame, time, n);
        lemma_quiet_airs(mid, later);
        lemma_airs_chain(s, mid, later);
    }
}

proof fn lemma_schedule_wakes_airs(s: Sim, wakes: Seq<(NodeId, SimTime)>, n: nat)
    ensures
        s.airs(s.schedule_wakes(wakes, n)),
    decreases n,
{
    if n == 0 {
        lemma_quiet_airs(s, s);
    } else {
        lemma_schedule_wakes_airs(s, wakes, (n - 1) as nat);
        let mid = s.schedule_wakes(wakes, (n - 1) as nat);
        let later = s.schedule_wakes(wakes, n);
        lemma_quiet_airs(mid, later);
        lemma_airs_chain(s, mid, later);
    }
}

proof fn lemma_deliver_airs(s: Sim, script: Seq<Call>, outcome: Outcome, time: SimTime)
    ensures
        s.airs(s.deliver(script, outcome, time)),
{
    let later = s.deliver(script, outcome, time);
    if s.halted || outcome.collided {
        lemma_quiet_airs(s, later);
    } else {
        let counted = if outcome.captured {
            s.count_capture()
        } else {
            s
        };
        lemma_quiet_airs(s, counted);
        if !counted.halted {
            let n = s.ids.len();
            let (heard, asked) = counted.hand_out(script, outcome.sender, outcome.frame, time, n);
            let woken = heard.schedule_wakes(asked, asked.len());
            lemma_hand_out_airs(counted, script, outcome.sender, outcome.frame, time, n);
            lemma_schedule_wakes_airs(heard, asked, asked.len());
            lemma_poll_others_airs(woken, script, outcome.sender, time, n);
            lemma_airs_chain(s, counted, heard);
            lemma_airs_chain(s, heard, woken);
            lemma_airs_chain(s, woken, later);
        }
    }
}

proof fn lemma_deliver_all_airs(
    s: Sim,
    script: Seq<Call>,
    outcomes: Seq<Outcome>,
    time: SimTime,
    n: nat,
)
    ensures
        s.airs(s.deliver_all(script, outcomes, time, n)),
    decreases n,
{
    if n == 0 {
        lemma_quiet_airs(s, s);
    } else {
        lemma_deliver_all_airs(s, script, outcomes, time, (n - 1) as nat);
        let mid = s.deliver_all(script, outcomes, time, (n - 1) as nat);
        lemma_deliver_airs(mid, script, outcomes[n - 1], time);
        lemma_airs_chain(s, mid, mid.deliver(script, outcomes[n - 1], time));
    }
}

proof fn lemma_announce_all_airs(s: Sim, events: Seq<ChannelEvent>, time: SimTime, n: nat)
    ensures
        s.airs(s.announce_all(events, time, n)),
        s.announce_all(events, time, n).channel == s.channel,
    decreases n,
{
    if n == 0 {
        lemma_quiet_airs(s, s);
    } else {
        lemma_announce_all_airs(s, events, time, (n - 1) as nat);
        let mid = s.announce_all(events, time, (n - 1) as nat);
        let later = s.announce_all(events, time, n);
        lemma_quiet_airs(mid, later);
        lemma_airs_chain(s, mid, later);
    }
}

/// Whatever event fires, in whatever state: everything that a node or an interferer hands over
/// goes on the air, at once and in the order in which it is handed over, beside what was on the
/// air before; and nothing else does. Only when the end of a transmission fires, whatever has
/// ended by then leaves the air first.
pub proof fn law_exactly_what_is_sent_goes_on_the_air(s: Sim, script: Seq<Call>)
    requires
        s.wf(),
        !s.idle(),
        !s.step(script).halted,
    ensures
        begins(s.log, s.step(script).log),
        s.step(script).channel == with_sent(
            if s.queue[0].kind is TxComplete {
                s.channel.resolve(s.queue[0].time).drained()
            } else {
                s.channel
            },
            s.step(script).log.skip(s.log.len() as int),
            s.ids,
        ),
{
    let base = s.about_to_fire();
    let event = s.queue[0];
    let time = event.time;
    let later = s.step(script);
    assert(s.can_schedule(event.kind));
    match event.kind {
        EventKind::Wake { node_id } => {
            match s.ids.index_of_first(node_id) {
                Some(node) => {
                    let wake = base.next_time(script);
                    let asked = base.call(Call::Update { node, time, wake });
                    let scheduled = asked.schedule_if(wake, EventKind::Wake { node_id });
                    lemma_quiet_airs(base, scheduled);
                    lemma_poll_airs(scheduled, script, node, time);
                    lemma_airs_chain(base, scheduled, later);
                },
                None => {
                    lemma_quiet_airs(base, later);
                },
            }
        },
        EventKind::TxComplete { sender } => {
            let events = base.channel.completions(time);
            let resolved = Sim { channel: base.channel.resolve(time), ..base };
            let announced = resolved.announce_all(events, time, events.len());
            let outcomes = announced.channel.outcomes();
            let drained = Sim { channel: announced.channel.drained(), ..announced };
            lemma_announce_all_airs(resolved, events, time, events.len());
            lemma_deliver_all_airs(drained, script, outcomes, time, outcomes.len());
            let first = Sim { channel: drained.channel, ..resolved };
            lemma_announce_all_quiet(resolved, events, time, events.len());
            lemma_quiet_airs(first, drained);
            lemma_airs_chain(first, drained, later);
        },
        EventKind::InterferencePoll { interferer_idx } => {
            let tx = base.next_tx(script);
            let c = Call::PollInject { interferer: interferer_idx as int, time, tx };
            let asked = base.call(c);
            let sender = interferer_id(interferer_idx as int);
            let injected = match tx {
                Some(tx) => asked.transmit(sender, tx, time, false),
                None => asked,
            };
            match tx {
                Some(tx) => {
                    lemma_sending_airs(base, c, sender, tx, false);
                },
                None => {
                    lemma_quiet_airs(base, asked);
                },
            }
            lemma_quiet_airs(injected, later);
            lemma_airs_chain(base, injected, later);
        },
    }
}

proof fn lemma_announce_all_quiet(s: Sim, events: Seq<ChannelEvent>, time: SimTime, n: nat)
    ensures
        ({
            let later = s.announce_all(events, time, n);
            &&& later == (Sim { log: later.log, ..s })
            &&& begins(s.log, later.log)
            &&& forall|i: int|
                s.log.len() <= i < later.log.len() ==> (#[trigger] later.log[i]).tx_answer() is None
        }),
    decreases n,
{
    if n > 0 {
        lemma_announce_all_quiet(s, events, time, (n - 1) as nat);
    }
}

} // verus!
