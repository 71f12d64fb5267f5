//! What a simulation run does, as mathematics.
//!
//! Nodes and interferers answer the scheduler as they like. A [`Sim`] therefore keeps a log of
//! every call that was made on them, with the arguments and the answer of each, and the
//! functions below take the answers from a script: the answer to the next call is the one that
//! the script holds at the position that the call will have in the log. Given the script,
//! everything else is determined.
//!
//! Counters, the event numbering and points in time are bounded. Where the next thing to do
//! would exceed a bound, the simulation halts in place.
use crate::channel::{Air, Outcome};
use crate::metrics::Tally;
use crate::queue::ScheduledEvent;
use crate::scheduler::EventKind;
use crate::time::SimTime;
use crate::types::{Burst, ChannelEvent, Frame, NodeId};
use vstd::prelude::*;

verus! {

/// A call on a node or an interferer, with its answer. Nodes and interferers are given by their
/// position in the order of registration.
#[verifier::ext_equal]
pub enum Call {
    Update { node: int, time: SimTime, wake: Option<SimTime> },
    OnReceive { node: int, frame: Frame, time: SimTime, wake: Option<SimTime> },
    PollTransmit { node: int, time: SimTime, tx: Option<Burst> },
    Observe { interferer: int, event: ChannelEvent, time: SimTime },
    PollInject { interferer: int, time: SimTime, tx: Option<Burst> },
    NextPollTime { interferer: int, time: SimTime, next: Option<SimTime> },
}

impl Call {
    /// The point in time that the call was answered with.
    pub open spec fn time_answer(self) -> Option<SimTime> {
        match self {
            Call::Update { wake, .. } => wake,
            Call::OnReceive { wake, .. } => wake,
            Call::NextPollTime { next, .. } => next,
            _ => None,
        }
    }

    /// The transmission that the call was answered with.
    pub open spec fn tx_answer(self) -> Option<Burst> {
        match self {
            Call::PollTransmit { tx, .. } => tx,
            Call::PollInject { tx, .. } => tx,
            _ => None,
        }
    }
}

/// `log` stands at the beginning of `script`.
pub open spec fn begins(log: Seq<Call>, script: Seq<Call>) -> bool {
    &&& log.len() <= script.len()
    &&& forall|i: int| 0 <= i < log.len() ==> #[trigger] script[i] == log[i]
}

/// The node number under which interferer `idx` transmits.
pub open spec fn interferer_id(idx: int) -> NodeId {
    NodeId((u32::MAX - idx) as u32)
}

/// The state of a simulation.
#[verifier::ext_equal]
pub struct Sim {
    /// Pending events in the order in which they will fire.
    pub queue: Seq<ScheduledEvent>,
    pub channel: Air,
    pub metrics: Tally,
    /// Identifiers of the nodes, in the order of registration.
    pub ids: Seq<NodeId>,
    /// Number of interferers.
    pub interferers: nat,
    /// Time of the event that fired last.
    pub now: SimTime,
    /// Number of events scheduled so far.
    pub seq: u64,
    /// Last point in time at which events fire.
    pub end_time: SimTime,
    /// A bound was reached: nothing happens any more.
    pub halted: bool,
    /// Every call made on nodes and interferers so far.
    pub log: Seq<Call>,
}

impl Sim {
    /// A simulation without nodes and interferers, before it starts.
    pub open spec fn start(end_time: SimTime, channel: Air) -> Sim {
        Sim {
            queue: Seq::empty(),
            channel,
            metrics: Tally::zero(),
            ids: Seq::empty(),
            interferers: 0,
            now: 0,
            seq: 0,
            end_time,
            halted: false,
            log: Seq::empty(),
        }
    }

    /// What every operation keeps.
    pub open spec fn wf(self) -> bool {
        &&& crate::queue::in_firing_order(self.queue)
        &&& forall|i: int| 0 <= i < self.queue.len() ==> (#[trigger] self.queue[i]).seq < self.seq
        &&& forall|i: int|
            0 <= i < self.queue.len() ==> self.can_schedule((#[trigger] self.queue[i]).kind)
        &&& self.interferers <= 0x1_0000_0000
    }

    /// `self` comes after `earlier` in the same run: the log has only grown, the cast is the
    /// same, and every event scheduled in between is in the queue.
    pub open spec fn continues(self, earlier: Sim) -> bool {
        &&& begins(earlier.log, self.log)
        &&& self.ids == earlier.ids
        &&& self.interferers == earlier.interferers
        &&& self.end_time == earlier.end_time
        &&& self.queue.len() - self.seq == earlier.queue.len() - earlier.seq
    }

    /// The calls logged since `earlier`.
    pub open spec fn logged_since(self, earlier: Sim) -> Seq<Call> {
        self.log.skip(earlier.log.len() as int)
    }

    /// `kind` names an interferer only if there is one.
    pub open spec fn can_schedule(self, kind: EventKind) -> bool {
        kind matches EventKind::InterferencePoll { interferer_idx } ==> interferer_idx
            < self.interferers
    }

    /// No node shares its identifier with an interferer.
    pub open spec fn ids_apart(self) -> bool {
        forall|n: int, i: int|
            0 <= n < self.ids.len() && 0 <= i < self.interferers ==> #[trigger] self.ids[n]
                != #[trigger] interferer_id(i)
    }

    /// The time that `script` answers the next call with.
    pub open spec fn next_time(self, script: Seq<Call>) -> Option<SimTime> {
        script[self.log.len() as int].time_answer()
    }

    /// The transmission that `script` answers the next call with.
    pub open spec fn next_tx(self, script: Seq<Call>) -> Option<Burst> {
        script[self.log.len() as int].tx_answer()
    }

    pub open spec fn halt(self) -> Sim {
        Sim { halted: true, ..self }
    }

    pub open spec fn call(self, call: Call) -> Sim {
        Sim { log: self.log.push(call), ..self }
    }

    /// Enter an event into the queue.
    pub open spec fn schedule(self, time: SimTime, kind: EventKind) -> Sim {
        if self.halted {
            self
        } else if self.seq == u64::MAX {
            self.halt()
        } else {
            Sim {
                queue: crate::queue::enqueue(
                    self.queue,
                    ScheduledEvent { time, seq: self.seq, kind },
                ),
                seq: (self.seq + 1) as u64,
                ..self
            }
        }
    }

    /// Enter an event into the queue if there is a time for it.
    pub open spec fn schedule_if(self, time: Option<SimTime>, kind: EventKind) -> Sim {
        match time {
            Some(t) => self.schedule(t, kind),
            None => self,
        }
    }

    /// Register a node.
    pub open spec fn with_node(self, id: NodeId, initial_wake: Option<SimTime>) -> Sim {
        let woken = self.schedule_if(initial_wake, EventKind::Wake { node_id: id });
        Sim { ids: self.ids.push(id), ..woken }
    }

    /// Register an interferer.
    pub open spec fn with_interferer(self, first_poll: SimTime) -> Sim {
        Sim { interferers: self.interferers + 1, ..self }.schedule(
            first_poll,
            EventKind::InterferencePoll { interferer_idx: self.interferers as usize },
        )
    }

    /// Show `event` to every interferer, in the order of registration.
    pub open spec fn announce(self, event: ChannelEvent, time: SimTime) -> Sim {
        Sim {
            log: self.log + Seq::new(
                self.interferers,
                |i: int| Call::Observe { interferer: i, event, time },
            ),
            ..self
        }
    }

    /// Show the first `n` of `events` to every interferer.
    pub open spec fn announce_all(self, events: Seq<ChannelEvent>, time: SimTime, n: nat) -> Sim
        decreases n,
    {
        if n == 0 {
            self
        } else {
            self.announce_all(events, time, (n - 1) as nat).announce(events[n - 1], time)
        }
    }

    /// `tx` can be put on the air at `time` and accounted for.
    pub open spec fn has_room_for(
        self,
        sender: NodeId,
        tx: Burst,
        time: SimTime,
        by_node: bool,
    ) -> bool {
        &&& time + tx.duration_us <= SimTime::MAX
        &&& self.metrics.has_room_for_airtime(tx.duration_us)
        &&& by_node ==> self.metrics.has_room_for_tx(sender)
        &&& self.seq < u64::MAX
    }

    /// Put `tx` on the air. Its airtime counts whoever sends it; as a transmission it counts
    /// only if a node sends it.
    pub open spec fn transmit(self, sender: NodeId, tx: Burst, time: SimTime, by_node: bool) -> Sim {
        if !self.has_room_for(sender, tx, time, by_node) {
            self.halt()
        } else {
            let counted = if by_node {
                self.metrics.plus_tx(sender)
            } else {
                self.metrics
            };
            let started = ChannelEvent::TransmissionStarted {
                sender,
                sf: tx.sf,
                frequency: tx.frequency,
                time,
            };
            Sim {
                channel: self.channel.begin(sender, tx, time),
                metrics: counted.plus_airtime(tx.duration_us),
                ..self
            }.announce(started, time).schedule(
                (time + tx.duration_us) as SimTime,
                EventKind::TxComplete { sender },
            )
        }
    }

    /// Let a node transmit if it wants to.
    pub open spec fn poll(self, script: Seq<Call>, node: int, time: SimTime) -> Sim {
        if self.halted {
            self
        } else {
            let tx = self.next_tx(script);
            let asked = self.call(Call::PollTransmit { node, time, tx });
            match tx {
                Some(tx) => asked.transmit(self.ids[node], tx, time, true),
                None => asked,
            }
        }
    }

    /// Let each of the first `n` nodes but `sender` transmit if it wants to.
    pub open spec fn poll_others(
        self,
        script: Seq<Call>,
        sender: NodeId,
        time: SimTime,
        n: nat,
    ) -> Sim
        decreases n,
    {
        if n == 0 {
            self
        } else {
            let s = self.poll_others(script, sender, time, (n - 1) as nat);
            if self.ids[n - 1] == sender {
                s
            } else {
                s.poll(script, n - 1, time)
            }
        }
    }

    /// Hand `frame` to each of the first `n` nodes but `sender`. The second part of the result
    /// holds the wake-ups that they asked for.
    pub open spec fn hand_out(
        self,
        script: Seq<Call>,
        sender: NodeId,
        frame: Frame,
        time: SimTime,
        n: nat,
    ) -> (Sim, Seq<(NodeId, SimTime)>)
        decreases n,
    {
        if n == 0 {
            (self, Seq::empty())
        } else {
            let (s, wakes) = self.hand_out(script, sender, frame, time, (n - 1) as nat);
            let id = self.ids[n - 1];
            if s.halted || id == sender {
                (s, wakes)
            } else if !s.metrics.has_room_for_rx(id) {
                (s.halt(), wakes)
            } else {
                let wake = s.next_time(script);
                let asked = s.call(Call::OnReceive { node: n - 1, frame, time, wake });
                let counted = Sim { metrics: s.metrics.plus_rx(id), ..asked };
                match wake {
                    Some(t) => (counted, wakes.push((id, t))),
                    None => (counted, wakes),
                }
            }
        }
    }

    /// Schedule the first `n` of `wakes`.
    pub open spec fn schedule_wakes(self, wakes: Seq<(NodeId, SimTime)>, n: nat) -> Sim
        decreases n,
    {
        if n == 0 {
            self
        } else {
            let (node_id, t) = wakes[n - 1];
            self.schedule_wakes(wakes, (n - 1) as nat).schedule(t, EventKind::Wake { node_id })
        }
    }

    /// The transmission was lost.
    pub open spec fn count_collision(self) -> Sim {
        if self.metrics.total_collisions == u64::MAX {
            self.halt()
        } else {
            Sim { metrics: self.metrics.plus_collision(), ..self }
        }
    }

    /// The transmission got through in spite of a contender.
    pub open spec fn count_capture(self) -> Sim {
        if self.metrics.total_captures == u64::MAX {
            self.halt()
        } else {
            Sim { metrics: self.metrics.plus_capture(), ..self }
        }
    }

    /// Every node but the sender hears `frame`; then their wake-ups are scheduled; then each of
    /// them may transmit.
    pub open spec fn broadcast_frame(
        self,
        script: Seq<Call>,
        sender: NodeId,
        frame: Frame,
        time: SimTime,
    ) -> Sim {
        let (heard, wakes) = self.hand_out(script, sender, frame, time, self.ids.len());
        heard.schedule_wakes(wakes, wakes.len()).poll_others(script, sender, time, self.ids.len())
    }

    /// A transmission has ended.
    pub open spec fn deliver(self, script: Seq<Call>, outcome: Outcome, time: SimTime) -> Sim {
        if self.halted {
            self
        } else if outcome.collided {
            self.count_collision()
        } else {
            let counted = if outcome.captured {
                self.count_capture()
            } else {
                self
            };
            if counted.halted {
                counted
            } else {
                counted.broadcast_frame(script, outcome.sender, outcome.frame, time)
            }
        }
    }

    /// The first `n` of `outcomes` are delivered.
    pub open spec fn deliver_all(
        self,
        script: Seq<Call>,
        outcomes: Seq<Outcome>,
        time: SimTime,
        n: nat,
    ) -> Sim
        decreases n,
    {
        if n == 0 {
            self
        } else {
            self.deliver_all(script, outcomes, time, (n - 1) as nat).deliver(
                script,
                outcomes[n - 1],
                time,
            )
        }
    }

    /// Everything that has completed leaves the channel and is delivered.
    pub open spec fn deliver_completed(self, script: Seq<Call>, time: SimTime) -> Sim {
        let outcomes = self.channel.outcomes();
        Sim { channel: self.channel.drained(), ..self }.deliver_all(
            script,
            outcomes,
            time,
            outcomes.len(),
        )
    }

    /// Some transmission ends.
    pub open spec fn complete(self, script: Seq<Call>, time: SimTime) -> Sim {
        let events = self.channel.completions(time);
        Sim { channel: self.channel.resolve(time), ..self }.announce_all(
            events,
            time,
            events.len(),
        ).deliver_completed(script, time)
    }

    /// A node wakes up.
    pub open spec fn wake(self, script: Seq<Call>, node_id: NodeId, time: SimTime) -> Sim {
        match self.ids.index_of_first(node_id) {
            Some(node) => {
                let wake = self.next_time(script);
                self.call(Call::Update { node, time, wake }).schedule_if(
                    wake,
                    EventKind::Wake { node_id },
                ).poll(script, node, time)
            },
            None => self,
        }
    }

    /// An interferer is polled.
    pub open spec fn interfere(self, script: Seq<Call>, idx: usize, time: SimTime) -> Sim {
        let tx = self.next_tx(script);
        let asked = self.call(Call::PollInject { interferer: idx as int, time, tx });
        let injected = match tx {
            Some(tx) => asked.transmit(interferer_id(idx as int), tx, time, false),
            None => asked,
        };
        if injected.halted {
            injected
        } else {
            let next = injected.next_time(script);
            injected.call(
                Call::NextPollTime { interferer: idx as int, time, next },
            ).schedule_if(next, EventKind::InterferencePoll { interferer_idx: idx })
        }
    }

    /// `event` fires.
    pub open spec fn fire(self, script: Seq<Call>, event: ScheduledEvent) -> Sim {
        let s = Sim { now: event.time, ..self };
        match event.kind {
            EventKind::Wake { node_id } => s.wake(script, node_id, event.time),
            EventKind::TxComplete { sender } => s.complete(script, event.time),
            EventKind::InterferencePoll { interferer_idx } => s.interfere(
                script,
                interferer_idx,
                event.time,
            ),
        }
    }

    /// No event is left to fire.
    pub open spec fn idle(self) -> bool {
        self.halted || self.queue.len() == 0 || self.queue[0].time > self.end_time
    }

    /// The next event fires, if there is one.
    pub open spec fn step(self, script: Seq<Call>) -> Sim {
        if self.idle() {
            self
        } else {
            Sim { queue: self.queue.drop_first(), ..self }.fire(script, self.queue[0])
        }
    }

    /// `n` events have fired.
    pub open spec fn after(self, script: Seq<Call>, n: nat) -> Sim
        decreases n,
    {
        if n == 0 {
            self
        } else {
            self.after(script, (n - 1) as nat).step(script)
        }
    }

    /// The first event past the end is taken out of the queue when a run stops at it.
    pub open spec fn stop(self) -> Sim {
        if self.halted || self.queue.len() == 0 {
            self
        } else {
            Sim { queue: self.queue.drop_first(), ..self }
        }
    }

    /// `self` is where a run ends that begins at `start`: some number of events have fired and
    /// none is left to fire, for every script that gives the answers in the log.
    pub open spec fn ends_run(self, start: Sim) -> bool {
        exists|n: nat| self.ends_run_after(start, n)
    }

    /// `self` is where a run ends that begins at `start` and lets `n` events fire.
    pub open spec fn ends_run_after(self, start: Sim, n: nat) -> bool {
        forall|script: Seq<Call>|
            #![trigger start.after(script, n)]
            begins(self.log, script) ==> start.after(script, n).idle() && self == start.after(
                script,
                n,
            ).stop()
    }
}

} // verus!
