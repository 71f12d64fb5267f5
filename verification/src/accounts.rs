//! The books of a simulation: what its counters say is what its log shows.
use crate::metrics::count_of;
use crate::simulation::{Call, Sim};
use crate::time::SimTime;
use crate::types::{Burst, NodeId};
use vstd::prelude::*;

verus! {

impl Call {
    /// When the call was made.
    pub open spec fn time(self) -> SimTime {
        match self {
            Call::Update { time, .. } => time,
            Call::OnReceive { time, .. } => time,
            Call::PollTransmit { time, .. } => time,
            Call::Observe { time, .. } => time,
            Call::PollInject { time, .. } => time,
            Call::NextPollTime { time, .. } => time,
        }
    }

    /// The call does not ask to be repeated in the past.
    pub open spec fn punctual(self) -> bool {
        self.time_answer() matches Some(t) ==> t >= self.time()
    }

    /// The node that the call was made on and when it asks to be woken, if it does.
    pub open spec fn wake_request(self) -> Option<(int, SimTime)> {
        match self {
            Call::Update { node, wake: Some(t), .. } => Some((node, t)),
            Call::OnReceive { node, wake: Some(t), .. } => Some((node, t)),
            _ => None,
        }
    }

    /// The call is neither an update of a node nor a poll of an interferer.
    pub open spec fn is_calm(self) -> bool {
        !(self is Update) && !(self is PollInject) && !(self is NextPollTime)
    }

    /// A node that the call is made on is one of the first `n`.
    pub open spec fn on_one_of(self, n: nat) -> bool {
        match self {
            Call::Update { node, .. } => 0 <= node < n,
            Call::OnReceive { node, .. } => 0 <= node < n,
            Call::PollTransmit { node, .. } => 0 <= node < n,
            _ => true,
        }
    }
}

/// The sum of `weight` over all calls in `log`.
pub open spec fn total(log: Seq<Call>, weight: spec_fn(Call) -> nat) -> nat
    decreases log.len(),
{
    if log.len() == 0 {
        0
    } else {
        total(log.drop_last(), weight) + weight(log.last())
    }
}

/// Counts transmissions by nodes.
pub open spec fn node_transmissions() -> spec_fn(Call) -> nat {
    |c: Call|
        match c {
            Call::PollTransmit { tx: Some(_), .. } => 1,
            _ => 0,
        }
}

/// Counts transmissions by nodes and interferers.
pub open spec fn transmissions() -> spec_fn(Call) -> nat {
    |c: Call|
        match c.tx_answer() {
            Some(_) => 1,
            None => 0,
        }
}

/// Adds up the airtime of transmissions by nodes and interferers.
pub open spec fn airtime() -> spec_fn(Call) -> nat {
    |c: Call|
        match c.tx_answer() {
            Some(tx) => tx.duration_us as nat,
            None => 0,
        }
}

/// Counts receptions.
pub open spec fn receptions() -> spec_fn(Call) -> nat {
    |c: Call|
        match c {
            Call::OnReceive { .. } => 1,
            _ => 0,
        }
}

/// Counts transmissions by nodes with identifier `id`.
pub open spec fn transmissions_by(ids: Seq<NodeId>, id: NodeId) -> spec_fn(Call) -> nat {
    |c: Call|
        match c {
            Call::PollTransmit { node, tx: Some(_), .. } => if ids[node] == id {
                1
            } else {
                0
            },
            _ => 0,
        }
}

/// Counts receptions by nodes with identifier `id`.
pub open spec fn receptions_by(ids: Seq<NodeId>, id: NodeId) -> spec_fn(Call) -> nat {
    |c: Call|
        match c {
            Call::OnReceive { node, .. } => if ids[node] == id {
                1
            } else {
                0
            },
            _ => 0,
        }
}

/// The call is no transmission and no reception.
pub open spec fn idle_call(c: Call) -> bool {
    !(c is OnReceive) && c.tx_answer() is None
}

impl Sim {
    /// The counters agree with the log; transmissions that are on the air, or completed and not
    /// drained, or among `pending` others, are not counted as collided or captured yet.
    pub open spec fn accounted(self, pending: nat) -> bool {
        &&& self.metrics.total_tx == total(self.log, node_transmissions())
        &&& self.metrics.total_rx == total(self.log, receptions())
        &&& self.metrics.total_airtime_us == total(self.log, airtime())
        &&& self.metrics.total_collisions + self.metrics.total_captures
            + self.channel.active.len() + self.channel.completed.len() + pending <= total(
            self.log,
            transmissions(),
        )
        &&& forall|id: NodeId|
            count_of(self.metrics.node_tx, id) == #[trigger] total(
                self.log,
                transmissions_by(self.ids, id),
            )
        &&& forall|id: NodeId|
            count_of(self.metrics.node_rx, id) == #[trigger] total(
                self.log,
                receptions_by(self.ids, id),
            )
        &&& forall|i: int|
            0 <= i < self.log.len() ==> (#[trigger] self.log[i]).on_one_of(self.ids.len())
    }
}

pub proof fn lemma_total_push(log: Seq<Call>, c: Call, weight: spec_fn(Call) -> nat)
    ensures
        total(log.push(c), weight) == total(log, weight) + weight(c),
{
    assert(log.push(c).drop_last() =~= log);
}

pub proof fn lemma_total_weightless(
    log: Seq<Call>,
    more: Seq<Call>,
    weight: spec_fn(Call) -> nat,
)
    requires
        forall|i: int| 0 <= i < more.len() ==> weight(#[trigger] more[i]) == 0,
    ensures
        total(log + more, weight) == total(log, weight),
    decreases more.len(),
{
    if more.len() == 0 {
        assert(log + more =~= log);
    } else {
        assert((log + more).drop_last() =~= log + more.drop_last());
        assert((log + more).last() == more[more.len() - 1]);
        assert forall|i: int| 0 <= i < more.drop_last().len() implies weight(
            #[trigger] more.drop_last()[i],
        ) == 0 by {
            assert(more.drop_last()[i] == more[i]);
        }
        lemma_total_weightless(log, more.drop_last(), weight);
    }
}

/// The books stay in order when calls are logged that are no transmissions and no receptions.
pub proof fn lemma_idle_calls_keep_accounts(s: Sim, more: Seq<Call>, pending: nat)
    requires
        s.accounted(pending),
        forall|i: int|
            0 <= i < more.len() ==> idle_call(#[trigger] more[i]) && more[i].on_one_of(s.ids.len()),
    ensures
        (Sim { log: s.log + more, ..s }).accounted(pending),
{
    let after = Sim { log: s.log + more, ..s };
    lemma_total_weightless(s.log, more, node_transmissions());
    lemma_total_weightless(s.log, more, receptions());
    lemma_total_weightless(s.log, more, airtime());
    lemma_total_weightless(s.log, more, transmissions());
    assert forall|id: NodeId|
        count_of(after.metrics.node_tx, id) == #[trigger] total(
            after.log,
            transmissions_by(after.ids, id),
        ) by {
        lemma_total_weightless(s.log, more, transmissions_by(s.ids, id));
        assert(count_of(s.metrics.node_tx, id) == total(s.log, transmissions_by(s.ids, id)));
    }
    assert forall|id: NodeId|
        count_of(after.metrics.node_rx, id) == #[trigger] total(
            after.log,
            receptions_by(after.ids, id),
        ) by {
        lemma_total_weightless(s.log, more, receptions_by(s.ids, id));
        assert(count_of(s.metrics.node_rx, id) == total(s.log, receptions_by(s.ids, id)));
    }
}

/// A transmission by a node is entered correctly.
pub proof fn lemma_node_transmission_keeps_accounts(
    s: Sim,
    node: int,
    time: SimTime,
    tx: Burst,
    pending: nat,
)
    requires
        s.accounted(pending),
        0 <= node < s.ids.len(),
        s.metrics.has_room_for_tx(s.ids[node]),
        s.metrics.has_room_for_airtime(tx.duration_us),
        time + tx.duration_us <= SimTime::MAX,
    ensures
        (Sim {
            log: s.log.push(Call::PollTransmit { node, time, tx: Some(tx) }),
            channel: s.channel.begin(s.ids[node], tx, time),
            metrics: s.metrics.plus_tx(s.ids[node]).plus_airtime(tx.duration_us),
            ..s
        }).accounted(pending),
{
    let c = Call::PollTransmit { node, time, tx: Some(tx) };
    let sender = s.ids[node];
    let after = Sim {
        log: s.log.push(c),
        channel: s.channel.begin(sender, tx, time),
        metrics: s.metrics.plus_tx(sender).plus_airtime(tx.duration_us),
        ..s
    };
    lemma_total_push(s.log, c, node_transmissions());
    lemma_total_push(s.log, c, receptions());
    lemma_total_push(s.log, c, airtime());
    lemma_total_push(s.log, c, transmissions());
    assert forall|id: NodeId|
        count_of(after.metrics.node_tx, id) == #[trigger] total(
            after.log,
            transmissions_by(after.ids, id),
        ) by {
        lemma_total_push(s.log, c, transmissions_by(s.ids, id));
        assert(count_of(s.metrics.node_tx, id) == total(s.log, transmissions_by(s.ids, id)));
    }
    assert forall|id: NodeId|
        count_of(after.metrics.node_rx, id) == #[trigger] total(
            after.log,
            receptions_by(after.ids, id),
        ) by {
        lemma_total_push(s.log, c, receptions_by(s.ids, id));
        assert(count_of(s.metrics.node_rx, id) == total(s.log, receptions_by(s.ids, id)));
    }
}

/// A transmission by an interferer is entered correctly.
pub proof fn lemma_injection_keeps_accounts(
    s: Sim,
    interferer: int,
    sender: NodeId,
    time: SimTime,
    tx: Burst,
    pending: nat,
)
    requires
        s.accounted(pending),
        s.metrics.has_room_for_airtime(tx.duration_us),
    ensures
        (Sim {
            log: s.log.push(Call::PollInject { interferer, time, tx: Some(tx) }),
            channel: s.channel.begin(sender, tx, time),
            metrics: s.metrics.plus_airtime(tx.duration_us),
            ..s
        }).accounted(pending),
{
    let c = Call::PollInject { interferer, time, tx: Some(tx) };
    let after = Sim {
        log: s.log.push(c),
        channel: s.channel.begin(sender, tx, time),
        metrics: s.metrics.plus_airtime(tx.duration_us),
        ..s
    };
    lemma_total_push(s.log, c, node_transmissions());
    lemma_total_push(s.log, c, receptions());
    lemma_total_push(s.log, c, airtime());
    lemma_total_push(s.log, c, transmissions());
    assert forall|id: NodeId|
        count_of(after.metrics.node_tx, id) == #[trigger] total(
            after.log,
            transmissions_by(after.ids, id),
        ) by {
        lemma_total_push(s.log, c, transmissions_by(s.ids, id));
        assert(count_of(s.metrics.node_tx, id) == total(s.log, transmissions_by(s.ids, id)));
    }
    assert forall|id: NodeId|
        count_of(after.metrics.node_rx, id) == #[trigger] total(
            after.log,
            receptions_by(after.ids, id),
        ) by {
        lemma_total_push(s.log, c, receptions_by(s.ids, id));
        assert(count_of(s.metrics.node_rx, id) == total(s.log, receptions_by(s.ids, id)));
    }
}

/// A reception is entered correctly.
pub proof fn lemma_reception_keeps_accounts(s: Sim, c: Call, pending: nat)
    requires
        s.accounted(pending),
        c is OnReceive,
        c.on_one_of(s.ids.len()),
        s.metrics.has_room_for_rx(s.ids[c->OnReceive_node]),
    ensures
        (Sim {
            log: s.log.push(c),
            metrics: s.metrics.plus_rx(s.ids[c->OnReceive_node]),
            ..s
        }).accounted(pending),
{
    let after = Sim {
        log: s.log.push(c),
        metrics: s.metrics.plus_rx(s.ids[c->OnReceive_node]),
        ..s
    };
    lemma_total_push(s.log, c, node_transmissions());
    lemma_total_push(s.log, c, receptions());
    lemma_total_push(s.log, c, airtime());
    lemma_total_push(s.log, c, transmissions());
    assert forall|id: NodeId|
        count_of(after.metrics.node_tx, id) == #[trigger] total(
            after.log,
            transmissions_by(after.ids, id),
        ) by {
        lemma_total_push(s.log, c, transmissions_by(s.ids, id));
        assert(count_of(s.metrics.node_tx, id) == total(s.log, transmissions_by(s.ids, id)));
    }
    assert forall|id: NodeId|
        count_of(after.metrics.node_rx, id) == #[trigger] total(
            after.log,
            receptions_by(after.ids, id),
        ) by {
        lemma_total_push(s.log, c, receptions_by(s.ids, id));
        assert(count_of(s.metrics.node_rx, id) == total(s.log, receptions_by(s.ids, id)));
    }
}

} // verus!
