//! The event loop that drives nodes and interferers over a shared channel.
use crate::cast::{Cast, Interferer, Member, Node};
use crate::channel::{Air, Channel, ChannelConfig, CompletedTx, Outcome};
use crate::metrics::MetricsCollector;
use crate::queue::{EventQueue, ScheduledEvent};
use crate::simulation::{Call, Sim};
use crate::time::SimTime;
use crate::traits::{InterferenceSource, NodeCall};
use crate::types::{ChannelEvent, NodeId, RxMetadata, Transmission};
use vstd::prelude::*;

verus! {

/// A handle to a simulation node, allowing the scheduler to drive it.
///
/// A node keeps its identifier and otherwise answers as it likes. Of each call: the answer is one
/// that the node can give, and what it can answer from then on is what it could answer after this
/// call.
pub trait NodeHandle {
    /// The identifier of this node.
    open spec fn id(&self) -> NodeId {
        arbitrary()
    }

    /// From here on this node can answer `calls`, made one after another, as they say.
    open spec fn behaves(&self, calls: Seq<NodeCall>) -> bool {
        true
    }

    fn node_id(&self) -> (id: NodeId)
        ensures
            id == self.id(),
    ;

    fn on_receive(&mut self, frame: RxMetadata, time: SimTime) -> (wake: Option<SimTime>)
        ensures
            final(self).id() == old(self).id(),
            old(self).behaves(seq![NodeCall::OnReceive { frame: frame@, time, wake }]),
            forall|later: Seq<NodeCall>| #[trigger]
                final(self).behaves(later) ==> old(self).behaves(
                    seq![NodeCall::OnReceive { frame: frame@, time, wake }] + later,
                ),
    ;

    fn poll_transmit(&mut self, time: SimTime) -> (tx: Option<Transmission>)
        ensures
            final(self).id() == old(self).id(),
            old(self).behaves(
                seq![NodeCall::PollTransmit { time, tx: crate::types::burst_of(tx) }],
            ),
            forall|later: Seq<NodeCall>| #[trigger]
                final(self).behaves(later) ==> old(self).behaves(
                    seq![NodeCall::PollTransmit { time, tx: crate::types::burst_of(tx) }] + later,
                ),
    ;

    fn update(&mut self, time: SimTime) -> (wake: Option<SimTime>)
        ensures
            final(self).id() == old(self).id(),
            old(self).behaves(seq![NodeCall::Update { time, wake }]),
            forall|later: Seq<NodeCall>| #[trigger]
                final(self).behaves(later) ==> old(self).behaves(
                    seq![NodeCall::Update { time, wake }] + later,
                ),
    ;
}

/// The kind of event processed by the scheduler.
#[derive(Debug, Clone, Copy, PartialEq, Eq, Structural)]
pub enum EventKind {
    Wake { node_id: NodeId },
    TxComplete { sender: NodeId },
    InterferencePoll { interferer_idx: usize },
}

/// How a run of the scheduler came to its end.
#[derive(Debug, Clone, Copy, PartialEq, Eq, Structural)]
pub enum RunOutcome {
    /// No event is left that fires by the end time.
    Finished,
    /// A counter, the event numbering or the clock cannot take what comes next.
    OutOfRange,
}

/// The simulation scheduler, which drives all nodes and interferers.
pub struct Scheduler {
    events: EventQueue,
    channel: Channel,
    nodes: Vec<Node>,
    interferers: Vec<Interferer>,
    pub metrics: MetricsCollector,
    current_time: SimTime,
    seq: u64,
    end_time: SimTime,
    halted: bool,
    log: Ghost<Seq<Call>>,
}

/// The state of the simulation. The nodes and interferers themselves are in
/// [`Scheduler::cast`].
impl View for Scheduler {
    type V = Sim;

    closed spec fn view(&self) -> Sim {
        Sim {
            queue: self.events@,
            channel: self.channel@,
            metrics: self.metrics@,
            ids: self.cast().ids(),
            interferers: self.interferers@.len(),
            now: self.current_time,
            seq: self.seq,
            end_time: self.end_time,
            halted: self.halted,
            log: self.log@,
        }
    }
}

/// The only call logged between two states was made as the log says.
proof fn lemma_called(before: Scheduler, after: Scheduler, call: Call)
    requires
        before.cast().answers(call, after.cast()),
        after@.log == before@.log.push(call),
    ensures
        after.called_as_logged(&before),
{
    assert(after@.logged_since(before@) =~= seq![call]);
    crate::cast::lemma_performs_one(before.cast(), call, after.cast());
}

proof fn lemma_nothing_called(before: Scheduler, after: Scheduler)
    requires
        after.cast() == before.cast(),
        after@.log == before@.log,
    ensures
        after.called_as_logged(&before),
{
    assert(after@.logged_since(before@) =~= Seq::<Call>::empty());
}

proof fn lemma_called_in_turn(first: Scheduler, mid: Scheduler, last: Scheduler)
    requires
        mid.called_as_logged(&first),
        last.called_as_logged(&mid),
        crate::simulation::begins(first@.log, mid@.log),
        crate::simulation::begins(mid@.log, last@.log),
    ensures
        last.called_as_logged(&first),
{
    assert(last@.logged_since(first@) =~= mid@.logged_since(first@) + last@.logged_since(mid@));
    crate::cast::lemma_performs_both(
        first.cast(),
        mid@.logged_since(first@),
        mid.cast(),
        last@.logged_since(mid@),
        last.cast(),
    );
}

impl Scheduler {
    /// The registered nodes and interferers, as they are now.
    pub closed spec fn cast(&self) -> Cast {
        Cast { nodes: self.nodes@, interferers: self.interferers@ }
    }

    /// What the log has gained since `earlier` is what was done: each call was made on the node
    /// or interferer that it names and answered as it says, in the order of the log, and nothing
    /// else has changed a node or interferer.
    pub open spec fn called_as_logged(&self, earlier: &Scheduler) -> bool {
        earlier.cast().performs(self@.logged_since(earlier@), self.cast())
    }

    /// The view names the nodes and counts the interferers of the cast.
    pub proof fn law_view_shows_the_cast(&self)
        ensures
            self@.ids == self.cast().ids(),
            self@.interferers == self.cast().interferers.len(),
    {
    }

    /// Create a new scheduler that will stop at `end_time` microseconds.
    ///
    /// Uses LoRa default channel parameters. To use a different protocol's
    /// physical-layer parameters, see [`Scheduler::with_channel`].
    pub fn new(end_time: SimTime) -> (scheduler: Self)
        ensures
            scheduler@ == Sim::start(end_time, Air::idle(ChannelConfig::lora())),
            scheduler@.wf(),
            scheduler.cast() == Cast::empty(),
    {
        Scheduler::with_channel(end_time, Channel::new())
    }

    /// Create a new scheduler with a custom [`Channel`].
    ///
    /// Use this to simulate protocols other than LoRa by supplying a
    /// [`Channel`] constructed with [`Channel::with_config`].
    pub fn with_channel(end_time: SimTime, channel: Channel) -> (scheduler: Self)
        ensures
            scheduler@ == Sim::start(end_time, channel@),
            scheduler@.wf(),
            scheduler.cast() == Cast::empty(),
    {
        let scheduler = Scheduler {
            events: EventQueue::new(),
            channel,
            nodes: Vec::new(),
            interferers: Vec::new(),
            metrics: MetricsCollector::new(),
            current_time: 0,
            seq: 0,
            end_time,
            halted: false,
            log: Ghost(Seq::empty()),
        };
        assert(scheduler.cast() =~= Cast::empty());
        assert(scheduler@ =~= Sim::start(end_time, channel@));
        scheduler
    }

    /// Register a node with an optional initial wake time.
    ///
    /// The node must not use an identifier under which a registered interferer transmits.
    pub fn add_node(&mut self, node: Box<dyn NodeHandle>, initial_wake: Option<SimTime>)
        requires
            old(self)@.wf(),
            forall|i: int|
                0 <= i < old(self)@.interferers ==> node.id()
                    != #[trigger] crate::simulation::interferer_id(i),
        ensures
            final(self)@ == old(self)@.with_node(node.id(), initial_wake),
            final(self)@.wf(),
            final(self).cast() == old(self).cast().with_node(final(self).cast().nodes.last()),
            final(self).cast().nodes.last().handle == node,
    {
        match initial_wake {
            Some(wake) => {
                let node_id = node.node_id();
                self.schedule(wake, EventKind::Wake { node_id });
            },
            None => {},
        }
        let member = Member { handle: node };
        self.push_node(member);
    }

    fn push_node(&mut self, node: Node)
        ensures
            final(self)@ == (Sim { ids: old(self)@.ids.push(node.handle.id()), ..old(self)@ }),
            final(self).cast() == old(self).cast().with_node(node),
    {
        self.nodes.push(node);
        assert(self@.ids =~= old(self)@.ids.push(node.handle.id()));
    }

    fn push_interferer(&mut self, interferer: Interferer)
        ensures
            final(self)@ == (Sim { interferers: old(self)@.interferers + 1, ..old(self)@ }),
            final(self).cast() == old(self).cast().with_interferer(interferer),
    {
        self.interferers.push(interferer);
        assert(self@.ids =~= old(self)@.ids);
    }

    /// Register an interferer that is first polled at `first_poll`.
    ///
    /// The interferer transmits under an identifier of its own, counted down from the largest;
    /// no registered node may use that identifier.
    pub fn add_interferer(&mut self, interferer: Box<dyn InterferenceSource>, first_poll: SimTime)
        requires
            old(self)@.wf(),
            old(self)@.interferers < 0x1_0000_0000,
            !old(self)@.ids.contains(
                crate::simulation::interferer_id(old(self)@.interferers as int),
            ),
        ensures
            final(self)@ == old(self)@.with_interferer(first_poll),
            final(self)@.wf(),
            final(self).cast() == old(self).cast().with_interferer(
                final(self).cast().interferers.last(),
            ),
            final(self).cast().interferers.last().handle == interferer,
    {
        let idx: usize = self.interferers.len();
        let member = Member { handle: interferer };
        self.push_interferer(member);
        self.schedule(first_poll, EventKind::InterferencePoll { interferer_idx: idx });
    }

    /// Return the counters of the simulation.
    pub fn metrics(&self) -> (metrics: &MetricsCollector)
        ensures
            metrics@ == self@.metrics,
    {
        &self.metrics
    }

    /// Return the current simulation time in microseconds.
    pub fn current_time(&self) -> (time: SimTime)
        ensures
            time == self@.now,
    {
        self.current_time
    }

    /// Call `update` on a node.
    fn call_update(&mut self, idx: usize, time: SimTime) -> (wake: Option<SimTime>)
        requires
            idx < old(self)@.ids.len(),
        ensures
            final(self)@ == old(self)@.call(Call::Update { node: idx as int, time, wake }),
            final(self).called_as_logged(old(self)),
    {
        let ghost before = *self;
        let wake = self.nodes[idx].handle.update(time);
        proof {
            let call = Call::Update { node: idx as int, time, wake };
            self.log@ = self.log@.push(call);
            lemma_called(before, *self, call);
        }
        wake
    }

    /// Call `on_receive` on a node.
    fn call_on_receive(&mut self, idx: usize, frame: RxMetadata, time: SimTime) -> (wake: Option<
        SimTime,
    >)
        requires
            idx < old(self)@.ids.len(),
        ensures
            final(self)@ == old(self)@.call(
                Call::OnReceive { node: idx as int, frame: frame@, time, wake },
            ),
            final(self).called_as_logged(old(self)),
    {
        let ghost before = *self;
        let ghost heard = frame@;
        let wake = self.nodes[idx].handle.on_receive(frame, time);
        proof {
            let call = Call::OnReceive { node: idx as int, frame: heard, time, wake };
            self.log@ = self.log@.push(call);
            lemma_called(before, *self, call);
        }
        wake
    }

    /// Call `poll_transmit` on a node.
    fn call_poll_transmit(&mut self, idx: usize, time: SimTime) -> (tx: Option<Transmission>)
        requires
            idx < old(self)@.ids.len(),
        ensures
            final(self)@ == old(self)@.call(
                Call::PollTransmit { node: idx as int, time, tx: crate::types::burst_of(tx) },
            ),
            final(self).called_as_logged(old(self)),
    {
        let ghost before = *self;
        let tx = self.nodes[idx].handle.poll_transmit(time);
        proof {
            let call = Call::PollTransmit {
                node: idx as int,
                time,
                tx: crate::types::burst_of(tx),
            };
            self.log@ = self.log@.push(call);
            lemma_called(before, *self, call);
        }
        tx
    }

    /// Call `poll_inject` on an interferer.
    fn call_poll_inject(&mut self, idx: usize, time: SimTime) -> (tx: Option<Transmission>)
        requires
            idx < old(self)@.interferers,
        ensures
            final(self)@ == old(self)@.call(
                Call::PollInject { interferer: idx as int, time, tx: crate::types::burst_of(tx) },
            ),
            final(self).called_as_logged(old(self)),
    {
        let ghost before = *self;
        let tx = self.interferers[idx].handle.poll_inject(time);
        proof {
            let call = Call::PollInject {
                interferer: idx as int,
                time,
                tx: crate::types::burst_of(tx),
            };
            self.log@ = self.log@.push(call);
            lemma_called(before, *self, call);
        }
        tx
    }

    /// Call `next_poll_time` on an interferer.
    fn call_next_poll_time(&mut self, idx: usize, time: SimTime) -> (next: Option<SimTime>)
        requires
            idx < old(self)@.interferers,
        ensures
            final(self)@ == old(self)@.call(
                Call::NextPollTime { interferer: idx as int, time, next },
            ),
            final(self).called_as_logged(old(self)),
    {
        let ghost before = *self;
        let next = self.interferers[idx].handle.next_poll_time(time);
        proof {
            let call = Call::NextPollTime { interferer: idx as int, time, next };
            self.log@ = self.log@.push(call);
            assert(self.interferers@ =~= before.interferers@.update(
                idx as int,
                self.interferers@[idx as int],
            ));
            lemma_called(before, *self, call);
        }
        next
    }

    /// Call `observe` on an interferer.
    fn call_observe(&mut self, idx: usize, event: &ChannelEvent, time: SimTime)
        requires
            idx < old(self)@.interferers,
        ensures
            final(self)@ == old(self)@.call(
                Call::Observe { interferer: idx as int, event: *event, time },
            ),
            final(self).called_as_logged(old(self)),
    {
        let ghost before = *self;
        self.interferers[idx].handle.observe(event, time);
        proof {
            let call = Call::Observe { interferer: idx as int, event: *event, time };
            self.log@ = self.log@.push(call);
            lemma_called(before, *self, call);
        }
    }

    /// Show `event` to every interferer.
    fn announce(&mut self, event: &ChannelEvent, time: SimTime)
        ensures
            final(self)@ == old(self)@.announce(*event, time),
            final(self)@.continues(old(self)@),
            final(self).called_as_logged(old(self)),
    {
        let ghost start = *self;
        let ghost before = self@;
        let ghost shown = Seq::new(
            before.interferers,
            |i: int| Call::Observe { interferer: i, event: *event, time },
        );
        assert(before.log =~= before.log + shown.take(0));
        proof {
            lemma_nothing_called(start, *self);
        }
        let mut i: usize = 0;
        while i < self.interferers.len()
            invariant
                start == *old(self),
                before == start@,
                i <= self@.interferers,
                self@.interferers == before.interferers,
                shown == Seq::new(
                    before.interferers,
                    |i: int| Call::Observe { interferer: i, event: *event, time },
                ),
                self@ == (Sim { log: before.log + shown.take(i as int), ..before }),
                self.called_as_logged(&start),
            decreases before.interferers - i,
        {
            let ghost mid = *self;
            self.call_observe(i, event, time);
            proof {
                assert(before.log + shown.take(i + 1) =~= (before.log + shown.take(i as int)).push(
                    shown[i as int],
                ));
                lemma_called_in_turn(start, mid, *self);
            }
            i += 1;
        }
        assert(shown.take(before.interferers as int) =~= shown);
    }

    fn schedule(&mut self, time: SimTime, kind: EventKind)
        requires
            old(self)@.wf(),
            old(self)@.can_schedule(kind),
        ensures
            final(self)@ == old(self)@.schedule(time, kind),
            final(self)@.wf(),
            final(self)@.continues(old(self)@),
            final(self).cast() == old(self).cast(),
    {
        let ghost before = self@;
        if self.halted {
            return;
        }
        if self.seq == u64::MAX {
            self.halted = true;
            return;
        }
        let event = ScheduledEvent { time, seq: self.seq, kind };
        self.events.push(event);
        self.seq += 1;
        proof {
            let at = before.queue.filter(|e: ScheduledEvent| e.precedes(event)).len() as int;
            before.queue.lemma_filter_len(|e: ScheduledEvent| e.precedes(event));
            assert(self@.queue == before.queue.insert(at, event));
            assert forall|i: int| 0 <= i < self@.queue.len() implies (
            #[trigger] self@.queue[i]).seq < self@.seq && self@.can_schedule(
                self@.queue[i].kind,
            ) by {
                if i < at {
                    assert(self@.queue[i] == before.queue[i]);
                } else if i > at {
                    assert(self@.queue[i] == before.queue[i - 1]);
                }
            }
        }
    }

    fn find_node_idx(&self, id: NodeId) -> (found: Option<usize>)
        ensures
            match found {
                Some(idx) => self@.ids.index_of_first(id) == Some(idx as int),
                None => self@.ids.index_of_first(id) is None,
            },
    {
        proof {
            self@.ids.index_of_first_ensures(id);
        }
        let mut i: usize = 0;
        while i < self.nodes.len()
            invariant
                i <= self.nodes.len(),
                forall|k: int| 0 <= k < i ==> #[trigger] self@.ids[k] != id,
            decreases self.nodes.len() - i,
        {
            if self.nodes[i].handle.node_id() == id {
                proof {
                    assert(self@.ids[i as int] == id);
                    self@.ids.index_of_first_ensures(id);
                }
                return Some(i);
            }
            i += 1;
        }
        proof {
            assert(!self@.ids.contains(id));
            self@.ids.index_of_first_ensures(id);
        }
        None
    }

    /// Put `tx` on the air, tell the interferers, account for it and schedule its end.
    fn transmit(&mut self, sender: NodeId, tx: &Transmission, time: SimTime, by_node: bool)
        requires
            old(self)@.wf(),
            !old(self)@.halted,
        ensures
            final(self)@ == old(self)@.transmit(sender, tx@, time, by_node),
            final(self)@.wf(),
            final(self)@.continues(old(self)@),
            final(self).called_as_logged(old(self)),
    {
        proof {
            lemma_nothing_called(*self, *self);
        }
        let duration: u64 = tx.duration_us;
        if duration > SimTime::MAX - time || !self.metrics.can_record_airtime(duration) || (by_node
            && !self.metrics.can_record_tx(sender)) || self.seq == u64::MAX {
            self.halted = true;
            return;
        }
        let event = self.channel.begin_transmission(sender, tx, time);
        self.announce(&event, time);
        if by_node {
            self.metrics.record_tx(sender);
        }
        self.metrics.record_airtime(duration);
        self.schedule(time + duration, EventKind::TxComplete { sender });
    }

    fn handle_poll_transmit(&mut self, node_idx: usize, time: SimTime)
        requires
            old(self)@.wf(),
            node_idx < old(self)@.ids.len(),
        ensures
            final(self)@.wf(),
            final(self)@.continues(old(self)@),
            final(self).called_as_logged(old(self)),
            forall|script: Seq<Call>|
                #![trigger old(self)@.poll(script, node_idx as int, time)]
                crate::simulation::begins(final(self)@.log, script) ==> final(self)@ == old(
                    self,
                )@.poll(script, node_idx as int, time),
    {
        let ghost first = *self;
        if self.halted {
            proof {
                lemma_nothing_called(first, *self);
            }
            return;
        }
        let ghost before = self@;
        let tx = self.call_poll_transmit(node_idx, time);
        let ghost mid = *self;
        let ghost asked = self@;
        match &tx {
            Some(tx) => {
                let sender = self.nodes[node_idx].handle.node_id();
                assert(sender == self@.ids[node_idx as int]);
                self.transmit(sender, tx, time, true);
                proof {
                    lemma_called_in_turn(first, mid, *self);
                }
            },
            None => {},
        }
        proof {
            assert forall|script: Seq<Call>|
                crate::simulation::begins(self@.log, script) implies self@ == #[trigger] before.poll(
                script,
                node_idx as int,
                time,
            ) by {
                assert(script[before.log.len() as int] == asked.log[before.log.len() as int]);
            }
        }
    }

    /// Let every node but `sender` transmit if it wants to.
    fn poll_others(&mut self, sender: NodeId, time: SimTime)
        requires
            old(self)@.wf(),
        ensures
            final(self)@.wf(),
            final(self)@.continues(old(self)@),
            final(self).called_as_logged(old(self)),
            forall|script: Seq<Call>|
                #![trigger old(self)@.poll_others(script, sender, time, old(self)@.ids.len())]
                crate::simulation::begins(final(self)@.log, script) ==> final(self)@ == old(
                    self,
                )@.poll_others(script, sender, time, old(self)@.ids.len()),
    {
        let ghost first = *self;
        let ghost before = self@;
        let count: usize = self.nodes.len();
        let mut i: usize = 0;
        proof {
            lemma_nothing_called(first, *self);
        }
        while i < count
            invariant
                i <= count,
                count == before.ids.len(),
                before == first@,
                self@.wf(),
                self@.continues(before),
                self.called_as_logged(&first),
                forall|script: Seq<Call>|
                    #![trigger before.poll_others(script, sender, time, i as nat)]
                    crate::simulation::begins(self@.log, script) ==> self@ == before.poll_others(
                        script,
                        sender,
                        time,
                        i as nat,
                    ),
            decreases count - i,
        {
            let ghost earlier = *self;
            let ghost mid = self@;
            assert(self.nodes@.len() == mid.ids.len());
            let id = self.nodes[i].handle.node_id();
            assert(id == mid.ids[i as int]);
            if id != sender {
                self.handle_poll_transmit(i, time);
                proof {
                    lemma_called_in_turn(first, earlier, *self);
                }
            }
            i += 1;
            proof {
                assert forall|script: Seq<Call>|
                    crate::simulation::begins(self@.log, script) implies self@
                    == #[trigger] before.poll_others(script, sender, time, i as nat) by {
                    assert(crate::simulation::begins(mid.log, script));
                    assert(mid == before.poll_others(script, sender, time, (i - 1) as nat));
                    assert(before.ids[i - 1] != sender ==> self@ == mid.poll(script, i - 1, time));
                }
            }
        }
    }

    /// Hand `frame` to every node but `sender`, returning the wake-ups that they ask for.
    fn hand_out(&mut self, sender: NodeId, frame: &RxMetadata, time: SimTime) -> (wakes: Vec<
        (NodeId, SimTime),
    >)
        requires
            old(self)@.wf(),
        ensures
            final(self)@.wf(),
            final(self)@.continues(old(self)@),
            final(self).called_as_logged(old(self)),
            forall|script: Seq<Call>|
                #![trigger old(self)@.hand_out(script, sender, frame@, time, old(self)@.ids.len())]
                crate::simulation::begins(final(self)@.log, script) ==> (final(self)@, wakes@) == old(
                    self,
                )@.hand_out(script, sender, frame@, time, old(self)@.ids.len()),
    {
        let ghost first = *self;
        let ghost before = self@;
        let mut wakes: Vec<(NodeId, SimTime)> = Vec::new();
        let count: usize = self.nodes.len();
        let mut i: usize = 0;
        proof {
            lemma_nothing_called(first, *self);
        }
        while i < count
            invariant
                i <= count,
                count == before.ids.len(),
                before == first@,
                self@.wf(),
                self@.continues(before),
                self.called_as_logged(&first),
                forall|script: Seq<Call>|
                    #![trigger before.hand_out(script, sender, frame@, time, i as nat)]
                    crate::simulation::begins(self@.log, script) ==> (self@, wakes@)
                        == before.hand_out(script, sender, frame@, time, i as nat),
            decreases count - i,
        {
            let ghost earlier = *self;
            let ghost mid = self@;
            assert(self.nodes@.len() == mid.ids.len());
            let ghost mid_wakes = wakes@;
            let id = self.nodes[i].handle.node_id();
            assert(id == mid.ids[i as int]);
            if !self.halted && id != sender {
                if self.metrics.can_record_rx(id) {
                    let next = self.call_on_receive(i, frame.clone(), time);
                    proof {
                        lemma_called_in_turn(first, earlier, *self);
                    }
                    let id = self.nodes[i].handle.node_id();
                    assert(id == self@.ids[i as int]);
                    self.metrics.record_rx(id);
                    match next {
                        Some(t) => {
                            wakes.push((id, t));
                        },
                        None => {},
                    }
                } else {
                    self.halted = true;
                }
            }
            i += 1;
            proof {
                assert forall|script: Seq<Call>|
                    crate::simulation::begins(self@.log, script) implies (self@, wakes@)
                    == #[trigger] before.hand_out(script, sender, frame@, time, i as nat) by {
                    assert(crate::simulation::begins(mid.log, script));
                    assert((mid, mid_wakes) == before.hand_out(
                        script,
                        sender,
                        frame@,
                        time,
                        (i - 1) as nat,
                    ));
                    if self@.log.len() > mid.log.len() {
                        assert(script[mid.log.len() as int] == self@.log[mid.log.len() as int]);
                    }
                }
            }
        }
        wakes
    }

    /// Schedule the wake-ups that nodes asked for.
    fn schedule_wakes(&mut self, wakes: &Vec<(NodeId, SimTime)>)
        requires
            old(self)@.wf(),
        ensures
            final(self)@ == old(self)@.schedule_wakes(wakes@, wakes@.len()),
            final(self)@.wf(),
            final(self)@.continues(old(self)@),
            final(self)@.log == old(self)@.log,
            final(self).cast() == old(self).cast(),
    {
        let ghost first = *self;
        let ghost before = self@;
        let mut i: usize = 0;
        while i < wakes.len()
            invariant
                first == *old(self),
                before == first@,
                i <= wakes.len(),
                self@ == before.schedule_wakes(wakes@, i as nat),
                self@.wf(),
                self@.continues(before),
                self@.log == before.log,
                self.cast() == first.cast(),
            decreases wakes.len() - i,
        {
            let (node_id, t) = wakes[i];
            self.schedule(t, EventKind::Wake { node_id });
            i += 1;
        }
    }

    /// Account for a completed transmission and, unless it collided, hand it to the nodes.
    fn deliver(
        &mut self,
        sender: NodeId,
        collided: bool,
        captured: bool,
        frame: &RxMetadata,
        time: SimTime,
    )
        requires
            old(self)@.wf(),
        ensures
            final(self)@.wf(),
            final(self)@.continues(old(self)@),
            final(self).called_as_logged(old(self)),
            forall|script: Seq<Call>|
                #![trigger old(self)@.deliver(
                    script,
                    (Outcome { sender, collided, captured, frame: frame@ }),
                    time,
                )]
                crate::simulation::begins(final(self)@.log, script) ==> final(self)@ == old(
                    self,
                )@.deliver(script, (Outcome { sender, collided, captured, frame: frame@ }), time),
    {
        let ghost first = *self;
        proof {
            lemma_nothing_called(first, *self);
        }
        if self.halted {
            return;
        }
        let ghost before = self@;
        if collided {
            if self.metrics.can_record_collision() {
                self.metrics.record_collision();
            } else {
                self.halted = true;
            }
            return;
        }
        if captured {
            if self.metrics.can_record_capture() {
                self.metrics.record_capture();
            } else {
                self.halted = true;
                return;
            }
        }
        let ghost counted = self@;
        let wakes = self.hand_out(sender, frame, time);
        let ghost heard = self@;
        self.schedule_wakes(&wakes);
        let ghost mid = *self;
        let ghost woken = self@;
        self.poll_others(sender, time);
        proof {
            lemma_called_in_turn(first, mid, *self);
            let outcome = Outcome { sender, collided, captured, frame: frame@ };
            assert forall|script: Seq<Call>|
                crate::simulation::begins(self@.log, script) implies self@
                == #[trigger] before.deliver(script, outcome, time) by {
                assert(crate::simulation::begins(heard.log, script));
                assert((heard, wakes@) == counted.hand_out(
                    script,
                    sender,
                    frame@,
                    time,
                    counted.ids.len(),
                ));
                assert(self@ == woken.poll_others(script, sender, time, woken.ids.len()));
                assert(self@ == counted.broadcast_frame(script, sender, frame@, time));
            }
        }
    }

    fn deliver_completed_to_nodes(&mut self, time: SimTime)
        requires
            old(self)@.wf(),
        ensures
            final(self)@.wf(),
            final(self)@.continues(old(self)@),
            final(self).called_as_logged(old(self)),
            forall|script: Seq<Call>|
                #![trigger old(self)@.deliver_completed(script, time)]
                crate::simulation::begins(final(self)@.log, script) ==> final(self)@ == old(
                    self,
                )@.deliver_completed(script, time),
    {
        let ghost first = *self;
        let ghost start = self@;
        let ghost outcomes = start.channel.outcomes();
        let completed: Vec<CompletedTx> = self.channel.drain_completed();
        let ghost before = self@;
        let mut i: usize = 0;
        proof {
            lemma_nothing_called(first, *self);
        }
        assert(completed@.len() == outcomes.len()) by {
            assert(completed@.map_values(
                |c: CompletedTx| crate::channel::completed_outcome(c),
            ).len() == completed@.len());
        }
        while i < completed.len()
            invariant
                i <= completed@.len(),
                completed@.map_values(|c: CompletedTx| crate::channel::completed_outcome(c))
                    == outcomes,
                before.log == first@.log,
                self@.wf(),
                self@.continues(before),
                self.called_as_logged(&first),
                forall|script: Seq<Call>|
                    #![trigger before.deliver_all(script, outcomes, time, i as nat)]
                    crate::simulation::begins(self@.log, script) ==> self@ == before.deliver_all(
                        script,
                        outcomes,
                        time,
                        i as nat,
                    ),
            decreases completed.len() - i,
        {
            let ghost earlier = *self;
            let ghost mid = self@;
            let tx = &completed[i];
            assert(outcomes[i as int] == crate::channel::completed_outcome(completed@[i as int]));
            self.deliver(tx.0, tx.1, tx.2, &tx.3, time);
            i += 1;
            proof {
                lemma_called_in_turn(first, earlier, *self);
                assert forall|script: Seq<Call>|
                    crate::simulation::begins(self@.log, script) implies self@
                    == #[trigger] before.deliver_all(script, outcomes, time, i as nat) by {
                    assert(crate::simulation::begins(mid.log, script));
                    assert(mid == before.deliver_all(script, outcomes, time, (i - 1) as nat));
                    assert(self@ == mid.deliver(script, outcomes[i - 1], time));
                }
            }
        }
        proof {
            assert forall|script: Seq<Call>|
                crate::simulation::begins(self@.log, script) implies self@
                == #[trigger] start.deliver_completed(script, time) by {
                assert(self@ == before.deliver_all(script, outcomes, time, outcomes.len()));
            }
        }
    }

    /// Some transmission ends.
    fn handle_tx_complete(&mut self, time: SimTime)
        requires
            old(self)@.wf(),
        ensures
            final(self)@.wf(),
            final(self)@.continues(old(self)@),
            final(self).called_as_logged(old(self)),
            forall|script: Seq<Call>|
                #![trigger old(self)@.complete(script, time)]
                crate::simulation::begins(final(self)@.log, script) ==> final(self)@ == old(
                    self,
                )@.complete(script, time),
    {
        let ghost first = *self;
        let ghost start = self@;
        let events: Vec<ChannelEvent> = self.channel.resolve_at(time);
        let ghost before = self@;
        let mut i: usize = 0;
        proof {
            lemma_nothing_called(first, *self);
        }
        while i < events.len()
            invariant
                i <= events.len(),
                before.log == first@.log,
                self@ == before.announce_all(events@, time, i as nat),
                self@.wf(),
                self@.continues(before),
                self.called_as_logged(&first),
            decreases events.len() - i,
        {
            let ghost mid = *self;
            self.announce(&events[i], time);
            proof {
                lemma_called_in_turn(first, mid, *self);
            }
            i += 1;
        }
        let ghost mid = *self;
        let ghost announced = self@;
        self.deliver_completed_to_nodes(time);
        proof {
            lemma_called_in_turn(first, mid, *self);
            assert forall|script: Seq<Call>|
                crate::simulation::begins(self@.log, script) implies self@
                == #[trigger] start.complete(script, time) by {
                assert(self@ == announced.deliver_completed(script, time));
            }
        }
    }

    /// A node wakes up.
    fn handle_wake(&mut self, node_id: NodeId, time: SimTime)
        requires
            old(self)@.wf(),
            !old(self)@.halted,
        ensures
            final(self)@.wf(),
            final(self)@.continues(old(self)@),
            final(self).called_as_logged(old(self)),
            forall|script: Seq<Call>|
                #![trigger old(self)@.wake(script, node_id, time)]
                crate::simulation::begins(final(self)@.log, script) ==> final(self)@ == old(
                    self,
                )@.wake(script, node_id, time),
    {
        let ghost first = *self;
        let ghost before = self@;
        match self.find_node_idx(node_id) {
            Some(idx) => {
                proof {
                    before.ids.index_of_first_ensures(node_id);
                }
                let next = self.call_update(idx, time);
                let ghost asked = self@;
                match next {
                    Some(t) => {
                        self.schedule(t, EventKind::Wake { node_id });
                    },
                    None => {},
                }
                let ghost mid = *self;
                let ghost scheduled = self@;
                self.handle_poll_transmit(idx, time);
                proof {
                    lemma_called_in_turn(first, mid, *self);
                    assert forall|script: Seq<Call>|
                        crate::simulation::begins(self@.log, script) implies self@
                        == #[trigger] before.wake(script, node_id, time) by {
                        assert(script[before.log.len() as int]
                            == asked.log[before.log.len() as int]);
                        assert(self@ == scheduled.poll(script, idx as int, time));
                    }
                }
            },
            None => {
                proof {
                    lemma_nothing_called(first, *self);
                }
            },
        }
    }

    /// An interferer is polled.
    fn handle_interference_poll(&mut self, interferer_idx: usize, time: SimTime)
        requires
            old(self)@.wf(),
            !old(self)@.halted,
            interferer_idx < old(self)@.interferers,
        ensures
            final(self)@.wf(),
            final(self)@.continues(old(self)@),
            final(self).called_as_logged(old(self)),
            forall|script: Seq<Call>|
                #![trigger old(self)@.interfere(script, interferer_idx, time)]
                crate::simulation::begins(final(self)@.log, script) ==> final(self)@ == old(
                    self,
                )@.interfere(script, interferer_idx, time),
    {
        let ghost first = *self;
        let ghost before = self@;
        let tx = self.call_poll_inject(interferer_idx, time);
        let ghost polled = *self;
        let ghost asked = self@;
        match &tx {
            Some(tx) => {
                let sender = NodeId(u32::MAX - interferer_idx as u32);
                self.transmit(sender, tx, time, false);
                proof {
                    lemma_called_in_turn(first, polled, *self);
                }
            },
            None => {},
        }
        let ghost mid = *self;
        let ghost injected = self@;
        if !self.halted {
            let next = self.call_next_poll_time(interferer_idx, time);
            proof {
                lemma_called_in_turn(first, mid, *self);
            }
            let ghost asked_again = self@;
            match next {
                Some(t) => {
                    self.schedule(t, EventKind::InterferencePoll { interferer_idx });
                },
                None => {},
            }
            proof {
                assert forall|script: Seq<Call>|
                    crate::simulation::begins(self@.log, script) implies self@
                    == #[trigger] before.interfere(script, interferer_idx, time) by {
                    assert(script[before.log.len() as int] == asked.log[before.log.len() as int]);
                    assert(script[injected.log.len() as int]
                        == asked_again.log[injected.log.len() as int]);
                }
            }
        } else {
            proof {
                assert forall|script: Seq<Call>|
                    crate::simulation::begins(self@.log, script) implies self@
                    == #[trigger] before.interfere(script, interferer_idx, time) by {
                    assert(script[before.log.len() as int] == asked.log[before.log.len() as int]);
                }
            }
        }
    }

    /// Let `event` fire.
    fn fire(&mut self, event: ScheduledEvent)
        requires
            old(self)@.wf(),
            !old(self)@.halted,
            old(self)@.can_schedule(event.kind),
        ensures
            final(self)@.wf(),
            final(self)@.continues(old(self)@),
            final(self).called_as_logged(old(self)),
            forall|script: Seq<Call>|
                #![trigger old(self)@.fire(script, event)]
                crate::simulation::begins(final(self)@.log, script) ==> final(self)@ == old(
                    self,
                )@.fire(script, event),
    {
        let ghost before = self@;
        self.current_time = event.time;
        let ghost timed = self@;
        match event.kind {
            EventKind::Wake { node_id } => {
                self.handle_wake(node_id, event.time);
                proof {
                    assert forall|script: Seq<Call>|
                        crate::simulation::begins(self@.log, script) implies self@
                        == #[trigger] before.fire(script, event) by {
                        assert(self@ == timed.wake(script, node_id, event.time));
                    }
                }
            },
            EventKind::TxComplete { sender: _ } => {
                self.handle_tx_complete(event.time);
                proof {
                    assert forall|script: Seq<Call>|
                        crate::simulation::begins(self@.log, script) implies self@
                        == #[trigger] before.fire(script, event) by {
                        assert(self@ == timed.complete(script, event.time));
                    }
                }
            },
            EventKind::InterferencePoll { interferer_idx } => {
                self.handle_interference_poll(interferer_idx, event.time);
                proof {
                    assert forall|script: Seq<Call>|
                        crate::simulation::begins(self@.log, script) implies self@
                        == #[trigger] before.fire(script, event) by {
                        assert(self@ == timed.interfere(script, interferer_idx, event.time));
                    }
                }
            },
        }
    }

    /// Run the simulation until `end_time` or until there are no more events.
    ///
    /// The run stops short if a counter, the event numbering or the clock cannot take what comes
    /// next.
    pub fn run(&mut self) -> (outcome: RunOutcome)
        requires
            old(self)@.wf(),
        ensures
            final(self)@.wf(),
            final(self)@.ends_run(old(self)@),
            crate::simulation::begins(old(self)@.log, final(self)@.log),
            final(self).called_as_logged(old(self)),
            final(self)@.ids == old(self)@.ids,
            final(self)@.interferers == old(self)@.interferers,
            final(self)@.end_time == old(self)@.end_time,
            outcome == (if final(self)@.halted {
                RunOutcome::OutOfRange
            } else {
                RunOutcome::Finished
            }),
    {
        let ghost first = *self;
        let ghost start = self@;
        let ghost mut fired: nat = 0;
        proof {
            lemma_nothing_called(first, *self);
        }
        while !self.halted
            invariant
                first == *old(self),
                start == first@,
                self@.wf(),
                crate::simulation::begins(start.log, self@.log),
                self.called_as_logged(&first),
                self@.ids == start.ids,
                self@.interferers == start.interferers,
                self@.end_time == start.end_time,
                forall|script: Seq<Call>|
                    #![trigger start.after(script, fired)]
                    crate::simulation::begins(self@.log, script) ==> self@ == start.after(
                        script,
                        fired,
                    ),
            decreases (u64::MAX - self.seq) + self@.queue.len(),
        {
            let ghost earlier = *self;
            let ghost before = self@;
            let next = self.events.pop();
            match next {
                Some(event) => {
                    let ghost popped = self@;
                    assert(popped =~= Sim { queue: before.queue.drop_first(), ..before });
                    if event.time > self.end_time {
                        assert(self@.ends_run_after(start, fired));
                        return RunOutcome::Finished;
                    }
                    assert(before.can_schedule(event.kind));
                    self.fire(event);
                    proof {
                        lemma_called_in_turn(first, earlier, *self);
                        fired = fired + 1;
                        assert forall|script: Seq<Call>|
                            crate::simulation::begins(self@.log, script) implies self@
                            == #[trigger] start.after(script, fired) by {
                            assert(crate::simulation::begins(before.log, script));
                            assert(before == start.after(script, (fired - 1) as nat));
                            assert(self@ == popped.fire(script, event));
                        }
                    }
                },
                None => {
                    assert(self@ =~= before);
                    assert(self@.ends_run_after(start, fired));
                    return RunOutcome::Finished;
                },
            }
        }
        assert(self@.ends_run_after(start, fired));
        RunOutcome::OutOfRange
    }
}

} // verus!
