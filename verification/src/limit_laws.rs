//! A simulation halts only where a number has reached its limit.
use crate::channel::Outcome;
use crate::metrics::count_of;
use crate::scheduler::EventKind;
use crate::simulation::{begins, interferer_id, Call, Sim};
use crate::time::SimTime;
use crate::types::{Burst, Frame, NodeId};
use vstd::prelude::*;

verus! {

/// Some number can take no more: the event numbering or a counter is at its largest value, or a
/// transmission that was handed over since the log was `from` long would end after the clock does
/// or take more airtime than can be counted.
pub open spec fn at_a_limit(s: Sim, from: int) -> bool {
    ||| s.seq == u64::MAX
    ||| s.metrics.total_tx == u64::MAX
    ||| s.metrics.total_rx == u64::MAX
    ||| s.metrics.total_collisions == u64::MAX
    ||| s.metrics.total_captures == u64::MAX
    ||| exists|id: NodeId| #[trigger] count_of(s.metrics.node_tx, id) == u64::MAX
    ||| exists|id: NodeId| #[trigger] count_of(s.metrics.node_rx, id) == u64::MAX
    ||| exists|j: int|
        from <= j < s.log.len() && ((#[trigger] s.log[j]).tx_answer() matches Some(tx)
            && s.log[j].time() + tx.duration_us > u64::MAX)
    ||| exists|j: int|
        from <= j < s.log.len() && ((#[trigger] s.log[j]).tx_answer() matches Some(tx)
            && s.metrics.total_airtime_us + tx.duration_us > u64::MAX)
}

impl Sim {
    /// If `self` has halted, so has `later`, in the same state; if only `later` has halted, it is
    /// at a limit.
    spec fn halts_rightly(self, later: Sim) -> bool {
        &&& begins(self.log, later.log)
        &&& later.ids == self.ids
        &&& later.interferers == self.interferers
        &&& self.halted ==> later == self
        &&& !self.halted && later.halted ==> at_a_limit(later, self.log.len() as int)
    }
}

proof fn lemma_limits_chain(a: Sim, b: Sim, c: Sim)
    requires
        a.halts_rightly(b),
        b.halts_rightly(c),
    ensures
        a.halts_rightly(c),
{
    assert forall|i: int| 0 <= i < a.log.len() implies #[trigger] c.log[i] == a.log[i] by {
        assert(c.log[i] == b.log[i]);
    }
}

proof fn lemma_unhalted_is_right(a: Sim, b: Sim)
    requires
        begins(a.log, b.log),
        b.ids == a.ids,
        b.interferers == a.interferers,
        !a.halted,
        !b.halted,
    ensures
        a.halts_rightly(b),
{
}

proof fn lemma_schedule_halts_rightly(s: Sim, at: SimTime, kind: EventKind)
    ensures
        s.halts_rightly(s.schedule(at, kind)),
{
}

proof fn lemma_sending_halts_rightly(s: Sim, c: Call, sender: NodeId, tx: Burst, by_node: bool)
    requires
        !s.halted,
        c.tx_answer() == Some(tx),
    ensures
        s.halts_rightly(s.call(c).transmit(sender, tx, c.time(), by_node)),
{
    let asked = s.call(c);
    let later = asked.transmit(sender, tx, c.time(), by_node);
    crate::growth::lemma_transmit_logs(asked, sender, tx, c.time(), by_node);
    assert(asked.log[s.log.len() as int] == c);
    assert(later.log[s.log.len() as int] == c);
    if later.halted {
        assert(count_of(s.metrics.node_tx, sender) == count_of(later.metrics.node_tx, sender));
    }
}

proof fn lemma_poll_halts_rightly(s: Sim, script: Seq<Call>, node: int, time: SimTime)
    ensures
        s.halts_rightly(s.poll(script, node, time)),
{
    if !s.halted {
        let tx = s.next_tx(script);
        let c = Call::PollTransmit { node, time, tx };
        match tx {
            Some(tx) => {
                lemma_sending_halts_rightly(s, c, s.ids[node], tx, true);
            },
            None => {},
        }
    }
}

proof fn lemma_poll_others_halts_rightly(
    s: Sim,
    script: Seq<Call>,
    sender: NodeId,
    time: SimTime,
    n: nat,
)
    ensures
        s.halts_rightly(s.poll_others(script, sender, time, n)),
    decreases n,
{
    if n > 0 {
        lemma_poll_others_halts_rightly(s, script, sender, time, (n - 1) as nat);
        let mid = s.poll_others(script, sender, time, (n - 1) as nat);
        lemma_poll_halts_rightly(mid, script, n - 1, time);
        lemma_limits_chain(s, mid, mid.poll(script, n - 1, time));
    }
}

proof fn lemma_hand_out_halts_rightly(
    s: Sim,
    script: Seq<Call>,
    sender: NodeId,
    frame: Frame,
    time: SimTime,
    n: nat,
)
    ensures
        s.halts_rightly(s.hand_out(script, sender, frame, time, n).0),
        s.halted ==> s.hand_out(script, sender, frame, time, n).1.len() == 0,
    decreases n,
{
    if n > 0 {
        lemma_hand_out_halts_rightly(s, script, sender, frame, time, (n - 1) as nat);
        let (mid, _) = s.hand_out(script, sender, frame, time, (n - 1) as nat);
        let (later, _) = s.hand_out(script, sender, frame, time, n);
        let id = s.ids[n - 1];
        assert(mid.halts_rightly(later)) by {
            if !mid.halted && later.halted {
                assert(count_of(later.metrics.node_rx, id) == count_of(mid.metrics.node_rx, id));
            }
        }
        lemma_limits_chain(s, mid, later);
    }
}

proof fn lemma_schedule_wakes_halts_rightly(s: Sim, wakes: Seq<(NodeId, SimTime)>, n: nat)
    ensures
        s.halts_rightly(s.schedule_wakes(wakes, n)),
    decreases n,
{
    if n > 0 {
        lemma_schedule_wakes_halts_rightly(s, wakes, (n - 1) as nat);
        let mid = s.schedule_wakes(wakes, (n - 1) as nat);
        let (node_id, t) = wakes[n - 1];
        lemma_schedule_halts_rightly(mid, t, EventKind::Wake { node_id });
        lemma_limits_chain(s, mid, mid.schedule(t, EventKind::Wake { node_id }));
    }
}

proof fn lemma_deliver_halts_rightly(s: Sim, script: Seq<Call>, outcome: Outcome, time: SimTime)
    ensures
        s.halts_rightly(s.deliver(script, outcome, time)),
{
    if !s.halted && !outcome.collided {
        let counted = if outcome.captured {
            s.count_capture()
        } else {
            s
        };
        assert(s.halts_rightly(counted));
        if !counted.halted {
            let n = s.ids.len();
            let (heard, asked) = counted.hand_out(script, outcome.sender, outcome.frame, time, n);
            let woken = heard.schedule_wakes(asked, asked.len());
            lemma_hand_out_halts_rightly(counted, script, outcome.sender, outcome.frame, time, n);
            lemma_schedule_wakes_halts_rightly(heard, asked, asked.len());
            lemma_poll_others_halts_rightly(woken, script, outcome.sender, time, n);
            lemma_limits_chain(s, counted, heard);
            lemma_limits_chain(s, heard, woken);
            lemma_limits_chain(s, woken, s.deliver(script, outcome, time));
        }
    }
}

proof fn lemma_deliver_all_halts_rightly(
    s: Sim,
    script: Seq<Call>,
    outcomes: Seq<Outcome>,
    time: SimTime,
    n: nat,
)
    ensures
        s.halts_rightly(s.deliver_all(script, outcomes, time, n)),
    decreases n,
{
    if n > 0 {
        lemma_deliver_all_halts_rightly(s, script, outcomes, time, (n - 1) as nat);
        let mid = s.deliver_all(script, outcomes, time, (n - 1) as nat);
        lemma_deliver_halts_rightly(mid, script, outcomes[n - 1], time);
        lemma_limits_chain(s, mid, mid.deliver(script, outcomes[n - 1], time));
    }
}

/// A step that halts the simulation finds some number at its limit.
pub proof fn law_step_halts_only_at_a_limit(s: Sim, script: Seq<Call>)
    requires
        s.wf(),
        !s.halted,
        s.step(script).halted,
    ensures
        at_a_limit(s.step(script), s.log.len() as int),
{
    let base = s.about_to_fire();
    let event = s.queue[0];
    let time = event.time;
    let later = s.step(script);
    match event.kind {
        EventKind::Wake { node_id } => {
            if let Some(node) = s.ids.index_of_first(node_id) {
                let wake = base.next_time(script);
                let asked = base.call(Call::Update { node, time, wake });
                let scheduled = asked.schedule_if(wake, EventKind::Wake { node_id });
                lemma_unhalted_is_right(base, asked);
                match wake {
                    Some(t) => {
                        lemma_schedule_halts_rightly(asked, t, EventKind::Wake { node_id });
                    },
                    None => {},
                }
                lemma_poll_halts_rightly(scheduled, script, node, time);
                lemma_limits_chain(base, asked, scheduled);
                lemma_limits_chain(base, scheduled, later);
            }
        },
        EventKind::TxComplete { sender } => {
            let events = base.channel.completions(time);
            let resolved = Sim { channel: base.channel.resolve(time), ..base };
            let announced = resolved.announce_all(events, time, events.len());
            let outcomes = announced.channel.outcomes();
            let drained = Sim { channel: announced.channel.drained(), ..announced };
            crate::growth::lemma_announce_all_grows(resolved, events, time, events.len());
            lemma_unhalted_is_right(base, drained);
            lemma_deliver_all_halts_rightly(drained, script, outcomes, time, outcomes.len());
            lemma_limits_chain(base, drained, later);
        },
        EventKind::InterferencePoll { interferer_idx } => {
            let tx = base.next_tx(script);
            let c = Call::PollInject { interferer: interferer_idx as int, time, tx };
            let asked = base.call(c);
            let sender = interferer_id(interferer_idx as int);
            let injected = match tx {
                Some(tx) => asked.transmit(sender, tx, time, false),
                None => asked,
            };
            match tx {
                Some(tx) => {
                    lemma_sending_halts_rightly(base, c, sender, tx, false);
                },
                None => {
                    lemma_unhalted_is_right(base, asked);
                },
            }
            if !injected.halted {
                let next = injected.next_time(script);
                let d = Call::NextPollTime { interferer: interferer_idx as int, time, next };
                let again = injected.call(d);
                lemma_unhalted_is_right(injected, again);
                match next {
                    Some(t) => {
                        lemma_schedule_halts_rightly(
                            again,
                            t,
                            EventKind::InterferencePoll { interferer_idx },
                        );
                    },
                    None => {},
                }
                lemma_limits_chain(base, injected, again);
                lemma_limits_chain(base, again, later);
            }
        },
    }
}

proof fn lemma_after_halts_only_at_a_limit(start: Sim, script: Seq<Call>, n: nat)
    requires
        start.wf(),
        !start.halted,
        start.after(script, n).halted,
    ensures
        at_a_limit(start.after(script, n), start.log.len() as int),
    decreases n,
{
    if n > 0 {
        let mid = start.after(script, (n - 1) as nat);
        if mid.halted {
            lemma_after_halts_only_at_a_limit(start, script, (n - 1) as nat);
        } else {
            crate::simulation_laws::lemma_after_keeps_wf(start, script, (n - 1) as nat);
            law_step_halts_only_at_a_limit(mid, script);
        }
    }
}

/// A run that does not finish has brought some number to its limit.
pub proof fn law_run_halts_only_at_a_limit(start: Sim, end: Sim)
    requires
        start.wf(),
        !start.halted,
        end.ends_run(start),
        end.halted,
    ensures
        at_a_limit(end, start.log.len() as int),
{
    let n = choose|n: nat| end.ends_run_after(start, n);
    assert(begins(end.log, end.log));
    lemma_after_halts_only_at_a_limit(start, end.log, n);
}

} // verus!
