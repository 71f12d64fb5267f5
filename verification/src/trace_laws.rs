//! Every frame that a node hears was sent by another, arrives as it was sent, and arrives when
//! sending ends.
use crate::census::none_overdue;
use crate::channel::{Air, ChannelConfig, OnAir, Outcome};
use crate::growth::has_completion;
use crate::queue::ScheduledEvent;
use crate::scheduler::EventKind;
use crate::simulation::{begins, interferer_id, Call, Sim};
use crate::time::SimTime;
use crate::types::{Burst, ChannelEvent, Frame, NodeId};
use vstd::prelude::*;

verus! {

impl OnAir {
    /// The same signal, whatever became of it.
    pub open spec fn same_signal(self, other: OnAir) -> bool {
        self == (OnAir { collided: self.collided, captured: self.captured, ..other })
    }
}

impl Call {
    /// The identifier under which the callee transmits.
    pub open spec fn sender(self, ids: Seq<NodeId>) -> Option<NodeId> {
        match self {
            Call::PollTransmit { node, .. } => Some(ids[node]),
            Call::PollInject { interferer, .. } => Some(NodeId((u32::MAX - interferer) as u32)),
            _ => None,
        }
    }

    /// The call put the transmission `a` on the air.
    pub open spec fn puts_on_air(self, ids: Seq<NodeId>, a: OnAir) -> bool {
        &&& self.tx_answer() is Some
        &&& self.sender(ids) == Some(a.sender)
        &&& a.same_signal(OnAir::of(a.sender, self.tx_answer()->0, self.time()))
    }

    /// The call made `sender` send what is heard as `frame`.
    pub open spec fn sends_frame(
        self,
        ids: Seq<NodeId>,
        config: ChannelConfig,
        sender: NodeId,
        frame: Frame,
    ) -> bool {
        &&& self.tx_answer() is Some
        &&& self.sender(ids) == Some(sender)
        &&& frame == OnAir::of(sender, self.tx_answer()->0, self.time()).frame(config)
    }
}

/// Some call in `log` made `sender` send what is heard as `frame`.
pub open spec fn frame_was_sent(
    log: Seq<Call>,
    ids: Seq<NodeId>,
    config: ChannelConfig,
    sender: NodeId,
    frame: Frame,
) -> bool {
    exists|j: int| 0 <= j < log.len() && (#[trigger] log[j]).sends_frame(ids, config, sender, frame)
}

/// Some call in `log` put `a` on the air.
pub open spec fn was_sent(log: Seq<Call>, ids: Seq<NodeId>, a: OnAir) -> bool {
    exists|j: int| 0 <= j < log.len() && (#[trigger] log[j]).puts_on_air(ids, a)
}

/// A reception is faithful: another node or an interferer has sent exactly this frame, and it is
/// heard at the time at which sending ends.
pub open spec fn faithful(
    log: Seq<Call>,
    ids: Seq<NodeId>,
    config: ChannelConfig,
    node: int,
    frame: Frame,
    time: SimTime,
) -> bool {
    &&& frame.time == time
    &&& exists|sender: NodeId|
        sender != ids[node] && #[trigger] frame_was_sent(log, ids, config, sender, frame)
}

impl Sim {
    /// Everything on the air or completed was sent, and every reception in the log is faithful.
    pub open spec fn traced(self) -> bool {
        &&& forall|i: int|
            0 <= i < self.channel.active.len() ==> was_sent(
                self.log,
                self.ids,
                #[trigger] self.channel.active[i],
            )
        &&& forall|i: int|
            0 <= i < self.channel.completed.len() ==> was_sent(
                self.log,
                self.ids,
                #[trigger] self.channel.completed[i],
            )
        &&& forall|i: int|
            0 <= i < self.log.len() ==> (#[trigger] self.log[i] matches Call::OnReceive {
                node,
                frame,
                time,
                ..
            } ==> faithful(self.log, self.ids, self.channel.config, node, frame, time))
    }

    /// `later` is traced if `self` is, and has the same completed transmissions.
    spec fn traces_to(self, later: Sim) -> bool {
        &&& begins(self.log, later.log)
        &&& later.ids == self.ids
        &&& later.channel.config == self.channel.config
        &&& later.channel.completed == self.channel.completed
        &&& self.traced() ==> later.traced()
    }

    /// `sender` has sent what is heard as `frame`, and sending ends at `time`.
    spec fn can_hand_out(self, sender: NodeId, frame: Frame, time: SimTime) -> bool {
        frame.time == time && frame_was_sent(
            self.log,
            self.ids,
            self.channel.config,
            sender,
            frame,
        )
    }
}

proof fn lemma_sent_stays_sent(log: Seq<Call>, more: Seq<Call>, ids: Seq<NodeId>, a: OnAir)
    requires
        begins(log, more),
        was_sent(log, ids, a),
    ensures
        was_sent(more, ids, a),
{
    let j = choose|j: int| 0 <= j < log.len() && (#[trigger] log[j]).puts_on_air(ids, a);
    assert(more[j] == log[j]);
}

proof fn lemma_frame_stays_sent(
    log: Seq<Call>,
    more: Seq<Call>,
    ids: Seq<NodeId>,
    config: ChannelConfig,
    sender: NodeId,
    frame: Frame,
)
    requires
        begins(log, more),
        frame_was_sent(log, ids, config, sender, frame),
    ensures
        frame_was_sent(more, ids, config, sender, frame),
{
    let j = choose|j: int|
        0 <= j < log.len() && (#[trigger] log[j]).sends_frame(ids, config, sender, frame);
    assert(more[j] == log[j]);
}

proof fn lemma_faithful_stays(
    log: Seq<Call>,
    more: Seq<Call>,
    ids: Seq<NodeId>,
    config: ChannelConfig,
    node: int,
    frame: Frame,
    time: SimTime,
)
    requires
        begins(log, more),
        faithful(log, ids, config, node, frame, time),
    ensures
        faithful(more, ids, config, node, frame, time),
{
    let sender = choose|sender: NodeId|
        sender != ids[node] && #[trigger] frame_was_sent(log, ids, config, sender, frame);
    lemma_frame_stays_sent(log, more, ids, config, sender, frame);
}

/// Calls that are no receptions, and a channel that keeps its signals, keep the trace.
proof fn lemma_traces_without_reception(s: Sim, later: Sim)
    requires
        begins(s.log, later.log),
        later.ids == s.ids,
        later.channel == s.channel,
        forall|i: int|
            s.log.len() <= i < later.log.len() ==> !(#[trigger] later.log[i] is OnReceive),
    ensures
        s.traces_to(later),
{
    if s.traced() {
        lemma_channel_stays_traced(s, later);
        lemma_receptions_stay_faithful(s, later);
    }
}

proof fn lemma_channel_stays_traced(s: Sim, later: Sim)
    requires
        s.traced(),
        begins(s.log, later.log),
        later.ids == s.ids,
    ensures
        forall|i: int|
            0 <= i < s.channel.active.len() ==> was_sent(
                later.log,
                later.ids,
                #[trigger] s.channel.active[i],
            ),
        forall|i: int|
            0 <= i < s.channel.completed.len() ==> was_sent(
                later.log,
                later.ids,
                #[trigger] s.channel.completed[i],
            ),
{
    assert forall|i: int| 0 <= i < s.channel.active.len() implies was_sent(
        later.log,
        later.ids,
        #[trigger] s.channel.active[i],
    ) by {
        lemma_sent_stays_sent(s.log, later.log, s.ids, s.channel.active[i]);
    }
    assert forall|i: int| 0 <= i < s.channel.completed.len() implies was_sent(
        later.log,
        later.ids,
        #[trigger] s.channel.completed[i],
    ) by {
        lemma_sent_stays_sent(s.log, later.log, s.ids, s.channel.completed[i]);
    }
}

proof fn lemma_receptions_stay_faithful(s: Sim, later: Sim)
    requires
        s.traced(),
        begins(s.log, later.log),
        later.ids == s.ids,
        later.channel.config == s.channel.config,
    ensures
        forall|i: int|
            0 <= i < s.log.len() ==> (#[trigger] later.log[i] matches Call::OnReceive {
                node,
                frame,
                time,
                ..
            } ==> faithful(later.log, later.ids, later.channel.config, node, frame, time)),
{
    assert forall|i: int| 0 <= i < s.log.len() implies (#[trigger] later.log[i] matches
        Call::OnReceive { node, frame, time, .. } ==> faithful(
        later.log,
        later.ids,
        later.channel.config,
        node,
        frame,
        time,
    )) by {
        assert(later.log[i] == s.log[i]);
        if let Call::OnReceive { node, frame, time, .. } = s.log[i] {
            lemma_faithful_stays(
                s.log,
                later.log,
                s.ids,
                s.channel.config,
                node,
                frame,
                time,
            );
        }
    }
}

proof fn lemma_traces_transitive(a: Sim, b: Sim, c: Sim)
    requires
        a.traces_to(b),
        b.traces_to(c),
    ensures
        a.traces_to(c),
{
    assert forall|i: int| 0 <= i < a.log.len() implies #[trigger] c.log[i] == a.log[i] by {
        assert(c.log[i] == b.log[i]);
    }
}

proof fn lemma_schedule_traces(s: Sim, time: SimTime, kind: EventKind)
    ensures
        s.traces_to(s.schedule(time, kind)),
{
    lemma_traces_without_reception(s, s.schedule(time, kind));
}

proof fn lemma_announce_traces(s: Sim, event: ChannelEvent, time: SimTime)
    ensures
        s.traces_to(s.announce(event, time)),
{
    lemma_traces_without_reception(s, s.announce(event, time));
}

proof fn lemma_transmit_traces(s: Sim, c: Call, sender: NodeId, tx: Burst, by_node: bool)
    requires
        !s.halted,
        c.tx_answer() == Some(tx),
        c.sender(s.ids) == Some(sender),
    ensures
        s.traces_to(s.call(c).transmit(sender, tx, c.time(), by_node)),
{
    let time = c.time();
    let asked = s.call(c);
    let later = asked.transmit(sender, tx, time, by_node);
    lemma_traces_without_reception(s, asked);
    if !asked.has_room_for(sender, tx, time, by_node) {
        lemma_traces_without_reception(asked, later);
        lemma_traces_transitive(s, asked, later);
    } else {
        let counted = if by_node {
            asked.metrics.plus_tx(sender)
        } else {
            asked.metrics
        };
        let on_air = Sim {
            channel: asked.channel.begin(sender, tx, time),
            metrics: counted.plus_airtime(tx.duration_us),
            ..asked
        };
        let started = ChannelEvent::TransmissionStarted {
            sender,
            sf: tx.sf,
            frequency: tx.frequency,
            time,
        };
        let announced = on_air.announce(started, time);
        assert(asked.traces_to(on_air)) by {
            if asked.traced() {
                assert forall|i: int| 0 <= i < on_air.channel.active.len() implies was_sent(
                    on_air.log,
                    on_air.ids,
                    #[trigger] on_air.channel.active[i],
                ) by {
                    let a = on_air.channel.active[i];
                    if i < asked.channel.active.len() {
                        let was = asked.channel.active[i];
                        assert(was_sent(asked.log, asked.ids, was));
                        let j = choose|j: int|
                            0 <= j < asked.log.len() && (#[trigger] asked.log[j]).puts_on_air(
                                asked.ids,
                                was,
                            );
                        assert(a.same_signal(was));
                        assert(on_air.log[j].puts_on_air(on_air.ids, a));
                    } else {
                        let j = s.log.len() as int;
                        assert(on_air.log[j] == c);
                        assert(a.same_signal(OnAir::of(sender, tx, time)));
                        assert(on_air.log[j].puts_on_air(on_air.ids, a));
                    }
                }
                assert forall|i: int| 0 <= i < on_air.channel.completed.len() implies was_sent(
                    on_air.log,
                    on_air.ids,
                    #[trigger] on_air.channel.completed[i],
                ) by {
                    assert(was_sent(asked.log, asked.ids, asked.channel.completed[i]));
                }
            }
        }
        lemma_announce_traces(on_air, started, time);
        lemma_schedule_traces(
            announced,
            (time + tx.duration_us) as SimTime,
            EventKind::TxComplete { sender },
        );
        lemma_traces_transitive(s, asked, on_air);
        lemma_traces_transitive(s, on_air, announced);
        lemma_traces_transitive(s, announced, later);
    }
}

proof fn lemma_poll_traces(s: Sim, script: Seq<Call>, node: int, time: SimTime)
    ensures
        s.traces_to(s.poll(script, node, time)),
{
    if s.halted {
        lemma_traces_without_reception(s, s);
    } else {
        let tx = s.next_tx(script);
        let c = Call::PollTransmit { node, time, tx };
        match tx {
            Some(tx) => {
                lemma_transmit_traces(s, c, s.ids[node], tx, true);
            },
            None => {
                lemma_traces_without_reception(s, s.call(c));
            },
        }
    }
}

proof fn lemma_poll_others_traces(
    s: Sim,
    script: Seq<Call>,
    sender: NodeId,
    time: SimTime,
    n: nat,
)
    ensures
        s.traces_to(s.poll_others(script, sender, time, n)),
    decreases n,
{
    if n == 0 {
        lemma_traces_without_reception(s, s);
    } else {
        lemma_poll_others_traces(s, script, sender, time, (n - 1) as nat);
        let mid = s.poll_others(script, sender, time, (n - 1) as nat);
        lemma_poll_traces(mid, script, n - 1, time);
        lemma_traces_transitive(s, mid, mid.poll(script, n - 1, time));
    }
}

proof fn lemma_hand_out_traces(
    s: Sim,
    script: Seq<Call>,
    sender: NodeId,
    frame: Frame,
    time: SimTime,
    n: nat,
)
    requires
        s.can_hand_out(sender, frame, time),
    ensures
        s.traces_to(s.hand_out(script, sender, frame, time, n).0),
    decreases n,
{
    if n == 0 {
        lemma_traces_without_reception(s, s);
    } else {
        lemma_hand_out_traces(s, script, sender, frame, time, (n - 1) as nat);
        let (mid, _) = s.hand_out(script, sender, frame, time, (n - 1) as nat);
        let later = s.hand_out(script, sender, frame, time, n).0;
        let id = s.ids[n - 1];
        if !mid.halted && id != sender && mid.metrics.has_room_for_rx(id) {
            let wake = mid.next_time(script);
            let c = Call::OnReceive { node: n - 1, frame, time, wake };
            assert(later.log == mid.log.push(c));
            assert(mid.traces_to(later)) by {
                if mid.traced() {
                    lemma_channel_stays_traced(mid, later);
                    lemma_receptions_stay_faithful(mid, later);
                    lemma_frame_stays_sent(
                        s.log,
                        later.log,
                        s.ids,
                        s.channel.config,
                        sender,
                        frame,
                    );
                    assert(faithful(
                        later.log,
                        later.ids,
                        later.channel.config,
                        n - 1,
                        frame,
                        time,
                    ));
                    assert forall|i: int| 0 <= i < later.log.len() implies (
                    #[trigger] later.log[i] matches Call::OnReceive {
                        node,
                        frame: f,
                        time: t,
                        ..
                    } ==> faithful(later.log, later.ids, later.channel.config, node, f, t)) by {
                        if i == mid.log.len() {
                            assert(later.log[i] == c);
                        }
                    }
                }
            }
            lemma_traces_transitive(s, mid, later);
        } else {
            lemma_traces_without_reception(mid, later);
            lemma_traces_transitive(s, mid, later);
        }
    }
}

proof fn lemma_schedule_wakes_traces(s: Sim, wakes: Seq<(NodeId, SimTime)>, n: nat)
    ensures
        s.traces_to(s.schedule_wakes(wakes, n)),
    decreases n,
{
    if n == 0 {
        lemma_traces_without_reception(s, s);
    } else {
        lemma_schedule_wakes_traces(s, wakes, (n - 1) as nat);
        let mid = s.schedule_wakes(wakes, (n - 1) as nat);
        let (node_id, t) = wakes[n - 1];
        lemma_schedule_traces(mid, t, EventKind::Wake { node_id });
        lemma_traces_transitive(s, mid, mid.schedule(t, EventKind::Wake { node_id }));
    }
}

/// The outcome is that of something which was sent and ends at `time`.
spec fn outcome_was_sent(s: Sim, outcome: Outcome, time: SimTime) -> bool {
    s.can_hand_out(outcome.sender, outcome.frame, time)
}

proof fn lemma_deliver_traces(s: Sim, script: Seq<Call>, outcome: Outcome, time: SimTime)
    requires
        outcome_was_sent(s, outcome, time),
    ensures
        s.traces_to(s.deliver(script, outcome, time)),
{
    let later = s.deliver(script, outcome, time);
    if s.halted || outcome.collided {
        lemma_traces_without_reception(s, later);
    } else {
        let counted = if outcome.captured {
            s.count_capture()
        } else {
            s
        };
        lemma_traces_without_reception(s, counted);
        if !counted.halted {
            let n = counted.ids.len();
            let (heard, wakes) = counted.hand_out(
                script,
                outcome.sender,
                outcome.frame,
                time,
                n,
            );
            let woken = heard.schedule_wakes(wakes, wakes.len());
            lemma_hand_out_traces(counted, script, outcome.sender, outcome.frame, time, n);
            lemma_schedule_wakes_traces(heard, wakes, wakes.len());
            lemma_poll_others_traces(woken, script, outcome.sender, time, n);
            lemma_traces_transitive(s, counted, heard);
            lemma_traces_transitive(s, heard, woken);
            lemma_traces_transitive(s, woken, later);
        }
    }
}

proof fn lemma_deliver_all_traces(
    s: Sim,
    script: Seq<Call>,
    outcomes: Seq<Outcome>,
    time: SimTime,
    n: nat,
)
    requires
        n <= outcomes.len(),
        forall|i: int|
            0 <= i < outcomes.len() ==> outcome_was_sent(s, #[trigger] outcomes[i], time),
    ensures
        s.traces_to(s.deliver_all(script, outcomes, time, n)),
    decreases n,
{
    if n == 0 {
        lemma_traces_without_reception(s, s);
    } else {
        lemma_deliver_all_traces(s, script, outcomes, time, (n - 1) as nat);
        let mid = s.deliver_all(script, outcomes, time, (n - 1) as nat);
        let outcome = outcomes[n - 1];
        assert(outcome_was_sent(s, outcome, time));
        lemma_frame_stays_sent(
            s.log,
            mid.log,
            s.ids,
            s.channel.config,
            outcome.sender,
            outcome.frame,
        );
        lemma_deliver_traces(mid, script, outcome, time);
        lemma_traces_transitive(s, mid, mid.deliver(script, outcome, time));
    }
}

proof fn lemma_announce_all_traces(s: Sim, events: Seq<ChannelEvent>, time: SimTime, n: nat)
    ensures
        s.traces_to(s.announce_all(events, time, n)),
        s.announce_all(events, time, n).channel == s.channel,
    decreases n,
{
    if n == 0 {
        lemma_traces_without_reception(s, s);
    } else {
        lemma_announce_all_traces(s, events, time, (n - 1) as nat);
        let mid = s.announce_all(events, time, (n - 1) as nat);
        lemma_announce_traces(mid, events[n - 1], time);
        lemma_traces_transitive(s, mid, mid.announce(events[n - 1], time));
    }
}

/// Delivering what has just ended keeps the trace and empties the list of completed
/// transmissions.
proof fn lemma_complete_traces(s: Sim, script: Seq<Call>, time: SimTime)
    requires
        s.traced(),
        s.channel.completed.len() == 0,
        none_overdue(s, time),
    ensures
        s.complete(script, time).traced(),
        s.complete(script, time).channel.completed.len() == 0,
{
    let events = s.channel.completions(time);
    let live = |t: OnAir| t.end > time;
    let done = |t: OnAir| t.end <= time;
    let resolved = Sim { channel: s.channel.resolve(time), ..s };
    let announced = resolved.announce_all(events, time, events.len());
    let outcomes = announced.channel.outcomes();
    let drained = Sim { channel: announced.channel.drained(), ..announced };
    broadcast use vstd::seq_lib::group_filter_ensures;

    assert(resolved.channel.completed =~= s.channel.active.filter(done));
    assert(resolved.traced()) by {
        assert forall|i: int| 0 <= i < resolved.channel.active.len() implies was_sent(
            resolved.log,
            resolved.ids,
            #[trigger] resolved.channel.active[i],
        ) by {
            let a = resolved.channel.active[i];
            assert(s.channel.active.filter(live).contains(a));
            s.channel.active.lemma_filter_contains_rev(live, a);
            let k = choose|k: int| 0 <= k < s.channel.active.len() && s.channel.active[k] == a;
            assert(was_sent(s.log, s.ids, s.channel.active[k]));
        }
        assert forall|i: int| 0 <= i < resolved.channel.completed.len() implies was_sent(
            resolved.log,
            resolved.ids,
            #[trigger] resolved.channel.completed[i],
        ) by {
            let a = resolved.channel.completed[i];
            assert(s.channel.active.filter(done).contains(a));
            s.channel.active.lemma_filter_contains_rev(done, a);
            let k = choose|k: int| 0 <= k < s.channel.active.len() && s.channel.active[k] == a;
            assert(was_sent(s.log, s.ids, s.channel.active[k]));
        }
    }
    lemma_announce_all_traces(resolved, events, time, events.len());
    assert(drained.traced()) by {
        assert forall|i: int| 0 <= i < drained.channel.active.len() implies was_sent(
            drained.log,
            drained.ids,
            #[trigger] drained.channel.active[i],
        ) by {
            assert(was_sent(announced.log, announced.ids, announced.channel.active[i]));
        }
    }
    assert forall|i: int| 0 <= i < outcomes.len() implies outcome_was_sent(
        drained,
        #[trigger] outcomes[i],
        time,
    ) by {
        let a = announced.channel.completed[i];
        assert(s.channel.active.filter(done).contains(a));
        s.channel.active.lemma_filter_contains_rev(done, a);
        let k = choose|k: int| 0 <= k < s.channel.active.len() && s.channel.active[k] == a;
        assert(done(s.channel.active.filter(done)[i]));
        assert(s.channel.active[k].end <= time);
        assert(was_sent(announced.log, announced.ids, announced.channel.completed[i]));
        let j = choose|j: int|
            0 <= j < announced.log.len() && (#[trigger] announced.log[j]).puts_on_air(
                announced.ids,
                a,
            );
        assert(outcomes[i] == a.outcome(announced.channel.config));
        assert(drained.log[j].sends_frame(
            drained.ids,
            drained.channel.config,
            a.sender,
            outcomes[i].frame,
        ));
    }
    lemma_deliver_all_traces(drained, script, outcomes, time, outcomes.len());
}

/// When an event fires, whatever has ended by then ends then.
pub proof fn lemma_none_overdue(s: Sim)
    requires
        s.wf(),
        s.covered(-1),
        s.queue.len() > 0,
    ensures
        none_overdue(s.about_to_fire(), s.queue[0].time),
{
    let base = s.about_to_fire();
    let time = s.queue[0].time;
    assert forall|i: int|
        0 <= i < base.channel.active.len() && (#[trigger] base.channel.active[i]).end
            <= time implies base.channel.active[i].end == time by {
        let end = s.channel.active[i].end;
        assert(s.channel.active[i].end > -1);
        assert(has_completion(s.queue, end));
        let e = choose|e: ScheduledEvent| #[trigger]
            s.queue.contains(e) && e.kind is TxComplete && e.time == end;
        let k = choose|k: int| 0 <= k < s.queue.len() && s.queue[k] == e;
        if k > 0 {
            assert(s.queue[0].precedes(s.queue[k]));
        }
    }
}

proof fn lemma_step_traces(s: Sim, script: Seq<Call>)
    requires
        s.wf(),
        s.covered(-1),
        s.traced(),
        s.channel.completed.len() == 0,
    ensures
        s.step(script).traced(),
        s.step(script).channel.completed.len() == 0,
{
    if !s.idle() {
        let base = s.about_to_fire();
        let event = s.queue[0];
        let time = event.time;
        let later = s.step(script);
        lemma_traces_without_reception(s, base);
        match event.kind {
            EventKind::Wake { node_id } => {
                match base.ids.index_of_first(node_id) {
                    Some(node) => {
                        let wake = base.next_time(script);
                        let asked = base.call(Call::Update { node, time, wake });
                        let scheduled = asked.schedule_if(wake, EventKind::Wake { node_id });
                        lemma_traces_without_reception(base, asked);
                        lemma_traces_without_reception(asked, scheduled);
                        lemma_poll_traces(scheduled, script, node, time);
                    },
                    None => {},
                }
            },
            EventKind::TxComplete { sender } => {
                lemma_none_overdue(s);
                lemma_complete_traces(base, script, time);
            },
            EventKind::InterferencePoll { interferer_idx } => {
                let tx = base.next_tx(script);
                let c = Call::PollInject { interferer: interferer_idx as int, time, tx };
                let asked = base.call(c);
                let sender = interferer_id(interferer_idx as int);
                let injected = match tx {
                    Some(tx) => asked.transmit(sender, tx, time, false),
                    None => asked,
                };
                match tx {
                    Some(tx) => {
                        lemma_transmit_traces(base, c, sender, tx, false);
                    },
                    None => {
                        lemma_traces_without_reception(base, asked);
                    },
                }
                if !injected.halted {
                    let next = injected.next_time(script);
                    let asked_again = injected.call(
                        Call::NextPollTime { interferer: interferer_idx as int, time, next },
                    );
                    lemma_traces_without_reception(injected, asked_again);
                    lemma_traces_without_reception(asked_again, later);
                }
            },
        }
    }
}

proof fn lemma_after_traces(start: Sim, script: Seq<Call>, n: nat)
    requires
        start.wf(),
        start.covered(-1),
        start.traced(),
        start.channel.completed.len() == 0,
    ensures
        start.after(script, n).traced(),
        start.after(script, n).channel.completed.len() == 0,
    decreases n,
{
    if n > 0 {
        lemma_after_traces(start, script, (n - 1) as nat);
        crate::simulation_laws::lemma_after_keeps_wf(start, script, (n - 1) as nat);
        crate::simulation_laws::lemma_after_stays_covered(start, script, (n - 1) as nat);
        lemma_step_traces(start.after(script, (n - 1) as nat), script);
    }
}

/// Every reception in a run is faithful: another node or an interferer has sent the frame, with
/// exactly this payload, spreading factor and frequency; its signal levels follow from the power
/// it was sent with and the parameters of the channel; and it is heard exactly when sending ends.
/// No node hears a frame that was sent under its own identifier.
pub proof fn law_receptions_are_faithful(start: Sim, end: Sim)
    requires
        start.wf(),
        start.covered(-1),
        start.traced(),
        start.channel.completed.len() == 0,
        end.ends_run(start),
    ensures
        end.traced(),
        end.channel.completed.len() == 0,
{
    let n = choose|n: nat| end.ends_run_after(start, n);
    assert(begins(end.log, end.log));
    let last = start.after(end.log, n);
    lemma_after_traces(start, end.log, n);
    lemma_traces_without_reception(last, end);
}

/// A simulation starts with nothing to trace, and registering nodes and interferers keeps the
/// trace.
pub proof fn law_trace_survives_setup(
    s: Sim,
    end_time: SimTime,
    config: ChannelConfig,
    id: NodeId,
    initial_wake: Option<SimTime>,
    first_poll: SimTime,
)
    requires
        s.traced(),
        forall|i: int| 0 <= i < s.log.len() ==> (#[trigger] s.log[i]).on_one_of(s.ids.len()),
    ensures
        Sim::start(end_time, Air::idle(config)).traced(),
        s.with_node(id, initial_wake).traced(),
        s.with_interferer(first_poll).traced(),
{
    let joined = s.with_node(id, initial_wake);
    lemma_traces_without_reception(s, s.with_interferer(first_poll));
    assert(joined.log == s.log);
    assert(joined.channel == s.channel);
    assert forall|i: int| 0 <= i < joined.channel.active.len() implies was_sent(
        joined.log,
        joined.ids,
        #[trigger] joined.channel.active[i],
    ) by {
        let a = s.channel.active[i];
        assert(was_sent(s.log, s.ids, a));
        let j = choose|j: int| 0 <= j < s.log.len() && (#[trigger] s.log[j]).puts_on_air(s.ids, a);
        assert(joined.log[j].puts_on_air(joined.ids, a));
    }
    assert forall|i: int| 0 <= i < joined.channel.completed.len() implies was_sent(
        joined.log,
        joined.ids,
        #[trigger] joined.channel.completed[i],
    ) by {
        let a = s.channel.completed[i];
        assert(was_sent(s.log, s.ids, a));
        let j = choose|j: int| 0 <= j < s.log.len() && (#[trigger] s.log[j]).puts_on_air(s.ids, a);
        assert(joined.log[j].puts_on_air(joined.ids, a));
    }
    assert forall|i: int| 0 <= i < joined.log.len() implies (#[trigger] joined.log[i] matches
        Call::OnReceive { node, frame, time, .. } ==> faithful(
        joined.log,
        joined.ids,
        joined.channel.config,
        node,
        frame,
        time,
    )) by {
        if let Call::OnReceive { node, frame, time, .. } = s.log[i] {
            assert(s.log[i].on_one_of(s.ids.len()));
            assert(faithful(s.log, s.ids, s.channel.config, node, frame, time));
            let sender = choose|sender: NodeId|
                sender != s.ids[node] && #[trigger] frame_was_sent(
                    s.log,
                    s.ids,
                    s.channel.config,
                    sender,
                    frame,
                );
            let j = choose|j: int|
                0 <= j < s.log.len() && (#[trigger] s.log[j]).sends_frame(
                    s.ids,
                    s.channel.config,
                    sender,
                    frame,
                );
            assert(joined.log[j].sends_frame(joined.ids, joined.channel.config, sender, frame));
            assert(frame_was_sent(
                joined.log,
                joined.ids,
                joined.channel.config,
                sender,
                frame,
            ));
        }
    }
}

} // verus!
