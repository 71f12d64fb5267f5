//! A simulation is reproducible: where everyone's answers are fixed, so is the run.
use crate::aloha::{AlohaNode, AlohaState, TrafficState, UniformInterarrivalTraffic};
use crate::cast::{calls_on_interferer, calls_on_node, Cast};
use crate::channel::Outcome;
use crate::scheduler::{EventKind, NodeHandle};
use crate::simulation::{begins, interferer_id, Call, Sim};
use crate::time::SimTime;
use crate::traits::{NodeCall, PayloadCall, SourceCall};
use crate::types::{Frame, NodeId};
use vstd::prelude::*;

verus! {

impl NodeCall {
    /// The same call, whatever the answer.
    pub open spec fn asks_like(self, other: NodeCall) -> bool {
        match self {
            NodeCall::Update { time, .. } => other matches NodeCall::Update { time: t, .. } && t
                == time,
            NodeCall::OnReceive { frame, time, .. } => other matches NodeCall::OnReceive {
                frame: f,
                time: t,
                ..
            } && f == frame && t == time,
            NodeCall::PollTransmit { time, .. } => other matches NodeCall::PollTransmit {
                time: t,
                ..
            } && t == time,
        }
    }
}

impl SourceCall {
    /// The same call, whatever the answer.
    pub open spec fn asks_like(self, other: SourceCall) -> bool {
        match self {
            SourceCall::Observe { .. } => other == self,
            SourceCall::PollInject { time, .. } => other matches SourceCall::PollInject {
                time: t,
                ..
            } && t == time,
            SourceCall::NextPollTime { time, .. } => other matches SourceCall::NextPollTime {
                time: t,
                ..
            } && t == time,
        }
    }
}

impl Call {
    /// The same call on the same node or interferer, whatever the answer.
    pub open spec fn asks_like(self, other: Call) -> bool {
        match (self.on_node(), other.on_node()) {
            (Some((n, heard)), Some((m, other_heard))) => n == m && heard.asks_like(other_heard),
            (None, None) => {
                let (i, heard) = self.on_interferer()->0;
                let (j, other_heard) = other.on_interferer()->0;
                i == j && heard.asks_like(other_heard)
            },
            _ => false,
        }
    }
}

impl Cast {
    /// The answer that each node and each interferer can give to a call is fixed by the calls
    /// that it has answered before.
    pub open spec fn answers_are_fixed(self) -> bool {
        &&& forall|n: int, before: Seq<NodeCall>, a: NodeCall, b: NodeCall|
            #![trigger
                self.nodes[n].handle.behaves(before.push(a)),
                self.nodes[n].handle.behaves(before.push(b))
            ]
            0 <= n < self.nodes.len() && self.nodes[n].handle.behaves(before.push(a))
                && self.nodes[n].handle.behaves(before.push(b)) && a.asks_like(b) ==> a == b
        &&& forall|i: int, before: Seq<SourceCall>, a: SourceCall, b: SourceCall|
            #![trigger
                self.interferers[i].handle.behaves(before.push(a)),
                self.interferers[i].handle.behaves(before.push(b))
            ]
            0 <= i < self.interferers.len() && self.interferers[i].handle.behaves(before.push(a))
                && self.interferers[i].handle.behaves(before.push(b)) && a.asks_like(b) ==> a == b
    }

    /// Each node and each interferer can give the same answers as the one in the same place of
    /// `other`.
    pub open spec fn behaves_like(self, other: Cast) -> bool {
        &&& self.nodes.len() == other.nodes.len()
        &&& self.interferers.len() == other.interferers.len()
        &&& forall|n: int, calls: Seq<NodeCall>|
            #![trigger self.nodes[n].handle.behaves(calls)]
            #![trigger other.nodes[n].handle.behaves(calls)]
            0 <= n < self.nodes.len() ==> self.nodes[n].handle.behaves(calls)
                == other.nodes[n].handle.behaves(calls)
        &&& forall|i: int, calls: Seq<SourceCall>|
            #![trigger self.interferers[i].handle.behaves(calls)]
            #![trigger other.interferers[i].handle.behaves(calls)]
            0 <= i < self.interferers.len() ==> self.interferers[i].handle.behaves(calls)
                == other.interferers[i].handle.behaves(calls)
    }
}

/// The two scripts give the same first `i` answers.
spec fn agree(p: Seq<Call>, q: Seq<Call>, i: int) -> bool {
    forall|j: int| 0 <= j < i ==> #[trigger] p[j] == q[j]
}

/// What follows from the first `i` answers is the same: the two states are, if they need no more
/// answers; and otherwise the next call is.
spec fn in_step(x: Sim, y: Sim, i: int) -> bool {
    ||| x == y && x.log.len() <= i
    ||| x.log.len() > i && y.log.len() > i && x.log[i].asks_like(y.log[i])
}

proof fn lemma_same_in_step(x: Sim, i: int)
    requires
        0 <= i,
    ensures
        in_step(x, x, i),
{
}

/// A call that is made stays made.
proof fn lemma_stays_in_step(x: Sim, y: Sim, later_x: Sim, later_y: Sim, i: int)
    requires
        0 <= i,
        in_step(x, y, i),
        x.log.len() > i,
        begins(x.log, later_x.log),
        begins(y.log, later_y.log),
    ensures
        in_step(later_x, later_y, i),
{
    assert(later_x.log[i] == x.log[i]);
    assert(later_y.log[i] == y.log[i]);
}

proof fn lemma_poll_in_step(
    s: Sim,
    p: Seq<Call>,
    q: Seq<Call>,
    i: int,
    node: int,
    time: SimTime,
)
    requires
        agree(p, q, i),
        s.log.len() <= i,
    ensures
        in_step(s.poll(p, node, time), s.poll(q, node, time), i),
{
    if !s.halted {
        if s.log.len() < i {
            assert(p[s.log.len() as int] == q[s.log.len() as int]);
        } else {
            lemma_poll_calls(s, p, node, time);
            lemma_poll_calls(s, q, node, time);
        }
    }
}

proof fn lemma_poll_calls(s: Sim, script: Seq<Call>, node: int, time: SimTime)
    requires
        !s.halted,
    ensures
        s.poll(script, node, time).log.len() > s.log.len(),
        s.poll(script, node, time).log[s.log.len() as int] == (Call::PollTransmit {
            node,
            time,
            tx: s.next_tx(script),
        }),
{
    let tx = s.next_tx(script);
    let c = Call::PollTransmit { node, time, tx };
    match tx {
        Some(tx) => {
            crate::growth::lemma_transmit_logs(s.call(c), s.ids[node], tx, time, true);
        },
        None => {},
    }
    assert(s.call(c).log[s.log.len() as int] == c);
}

proof fn lemma_poll_others_in_step(
    s: Sim,
    p: Seq<Call>,
    q: Seq<Call>,
    i: int,
    sender: NodeId,
    time: SimTime,
    n: nat,
)
    requires
        agree(p, q, i),
        s.log.len() <= i,
        n <= s.ids.len(),
    ensures
        in_step(s.poll_others(p, sender, time, n), s.poll_others(q, sender, time, n), i),
    decreases n,
{
    if n > 0 {
        let x = s.poll_others(p, sender, time, (n - 1) as nat);
        let y = s.poll_others(q, sender, time, (n - 1) as nat);
        lemma_poll_others_in_step(s, p, q, i, sender, time, (n - 1) as nat);
        crate::growth::lemma_poll_others_grows(s, p, sender, time, (n - 1) as nat);
        crate::growth::lemma_poll_others_grows(s, q, sender, time, (n - 1) as nat);
        if s.ids[n - 1] != sender {
            if x.log.len() <= i {
                lemma_poll_in_step(x, p, q, i, n - 1, time);
            } else {
                crate::growth::lemma_poll_grows(x, p, n - 1, time);
                crate::growth::lemma_poll_grows(y, q, n - 1, time);
                lemma_stays_in_step(x, y, x.poll(p, n - 1, time), y.poll(q, n - 1, time), i);
            }
        }
    }
}

proof fn lemma_hand_out_in_step(
    s: Sim,
    p: Seq<Call>,
    q: Seq<Call>,
    i: int,
    sender: NodeId,
    frame: Frame,
    time: SimTime,
    n: nat,
)
    requires
        agree(p, q, i),
        s.log.len() <= i,
    ensures
        ({
            let (x, x_wakes) = s.hand_out(p, sender, frame, time, n);
            let (y, y_wakes) = s.hand_out(q, sender, frame, time, n);
            &&& in_step(x, y, i)
            &&& x.log.len() <= i ==> x_wakes == y_wakes
            &&& x.ids == s.ids
            &&& y.ids == s.ids
        }),
    decreases n,
{
    if n > 0 {
        lemma_hand_out_in_step(s, p, q, i, sender, frame, time, (n - 1) as nat);
        let (x, _) = s.hand_out(p, sender, frame, time, (n - 1) as nat);
        let (y, _) = s.hand_out(q, sender, frame, time, (n - 1) as nat);
        let (later_x, _) = s.hand_out(p, sender, frame, time, n);
        let (later_y, _) = s.hand_out(q, sender, frame, time, n);
        if x.log.len() > i {
            lemma_stays_in_step(x, y, later_x, later_y, i);
        } else if x.log.len() < i {
            assert(p[x.log.len() as int] == q[x.log.len() as int]);
        }
    }
}

pub proof fn lemma_schedule_wakes_logs(s: Sim, wakes: Seq<(NodeId, SimTime)>, n: nat)
    ensures
        s.schedule_wakes(wakes, n).log == s.log,
        s.schedule_wakes(wakes, n).ids == s.ids,
    decreases n,
{
    if n > 0 {
        lemma_schedule_wakes_logs(s, wakes, (n - 1) as nat);
    }
}

proof fn lemma_broadcast_in_step(
    s: Sim,
    p: Seq<Call>,
    q: Seq<Call>,
    i: int,
    sender: NodeId,
    frame: Frame,
    time: SimTime,
)
    requires
        agree(p, q, i),
        s.log.len() <= i,
    ensures
        in_step(
            s.broadcast_frame(p, sender, frame, time),
            s.broadcast_frame(q, sender, frame, time),
            i,
        ),
{
    let n = s.ids.len();
    let (x, x_wakes) = s.hand_out(p, sender, frame, time, n);
    let (y, y_wakes) = s.hand_out(q, sender, frame, time, n);
    let x_woken = x.schedule_wakes(x_wakes, x_wakes.len());
    let y_woken = y.schedule_wakes(y_wakes, y_wakes.len());
    lemma_hand_out_in_step(s, p, q, i, sender, frame, time, n);
    lemma_schedule_wakes_logs(x, x_wakes, x_wakes.len());
    lemma_schedule_wakes_logs(y, y_wakes, y_wakes.len());
    if x.log.len() <= i {
        lemma_poll_others_in_step(x_woken, p, q, i, sender, time, n);
    } else {
        crate::growth::lemma_poll_others_grows(x_woken, p, sender, time, n);
        crate::growth::lemma_poll_others_grows(y_woken, q, sender, time, n);
        lemma_stays_in_step(
            x_woken,
            y_woken,
            x_woken.poll_others(p, sender, time, n),
            y_woken.poll_others(q, sender, time, n),
            i,
        );
    }
}

proof fn lemma_deliver_in_step(
    s: Sim,
    p: Seq<Call>,
    q: Seq<Call>,
    i: int,
    outcome: Outcome,
    time: SimTime,
)
    requires
        agree(p, q, i),
        s.log.len() <= i,
    ensures
        in_step(s.deliver(p, outcome, time), s.deliver(q, outcome, time), i),
{
    let counted = if outcome.captured {
        s.count_capture()
    } else {
        s
    };
    lemma_broadcast_in_step(counted, p, q, i, outcome.sender, outcome.frame, time);
}

proof fn lemma_deliver_all_in_step(
    s: Sim,
    p: Seq<Call>,
    q: Seq<Call>,
    i: int,
    outcomes: Seq<Outcome>,
    time: SimTime,
    n: nat,
)
    requires
        agree(p, q, i),
        s.log.len() <= i,
    ensures
        in_step(s.deliver_all(p, outcomes, time, n), s.deliver_all(q, outcomes, time, n), i),
    decreases n,
{
    if n > 0 {
        let x = s.deliver_all(p, outcomes, time, (n - 1) as nat);
        let y = s.deliver_all(q, outcomes, time, (n - 1) as nat);
        lemma_deliver_all_in_step(s, p, q, i, outcomes, time, (n - 1) as nat);
        if x.log.len() <= i {
            lemma_deliver_in_step(x, p, q, i, outcomes[n - 1], time);
        } else {
            crate::growth::lemma_deliver_grows(x, p, outcomes[n - 1], time);
            crate::growth::lemma_deliver_grows(y, q, outcomes[n - 1], time);
            lemma_stays_in_step(
                x,
                y,
                x.deliver(p, outcomes[n - 1], time),
                y.deliver(q, outcomes[n - 1], time),
                i,
            );
        }
    }
}

proof fn lemma_complete_in_step(s: Sim, p: Seq<Call>, q: Seq<Call>, i: int, time: SimTime)
    requires
        0 <= i,
        agree(p, q, i),
        s.log.len() <= i,
    ensures
        in_step(s.complete(p, time), s.complete(q, time), i),
{
    let events = s.channel.completions(time);
    let resolved = Sim { channel: s.channel.resolve(time), ..s };
    let announced = resolved.announce_all(events, time, events.len());
    let outcomes = announced.channel.outcomes();
    let drained = Sim { channel: announced.channel.drained(), ..announced };
    if announced.log.len() <= i {
        lemma_deliver_all_in_step(drained, p, q, i, outcomes, time, outcomes.len());
    } else {
        lemma_same_in_step(announced, i);
        crate::growth::lemma_deliver_completed_grows(announced, p, time);
        crate::growth::lemma_deliver_completed_grows(announced, q, time);
        lemma_stays_in_step(
            announced,
            announced,
            announced.deliver_completed(p, time),
            announced.deliver_completed(q, time),
            i,
        );
    }
}

proof fn lemma_wake_in_step(
    s: Sim,
    p: Seq<Call>,
    q: Seq<Call>,
    i: int,
    node_id: NodeId,
    time: SimTime,
)
    requires
        agree(p, q, i),
        s.log.len() <= i,
    ensures
        in_step(s.wake(p, node_id, time), s.wake(q, node_id, time), i),
{
    s.ids.index_of_first_ensures(node_id);
    if let Some(node) = s.ids.index_of_first(node_id) {
        let kind = EventKind::Wake { node_id };
        let x_wake = s.next_time(p);
        let y_wake = s.next_time(q);
        let x = s.call(Call::Update { node, time, wake: x_wake }).schedule_if(x_wake, kind);
        let y = s.call(Call::Update { node, time, wake: y_wake }).schedule_if(y_wake, kind);
        if s.log.len() < i {
            assert(p[s.log.len() as int] == q[s.log.len() as int]);
            assert(x == y);
            lemma_poll_in_step(x, p, q, i, node, time);
        } else {
            crate::growth::lemma_poll_grows(x, p, node, time);
            crate::growth::lemma_poll_grows(y, q, node, time);
            lemma_stays_in_step(x, y, x.poll(p, node, time), y.poll(q, node, time), i);
        }
    }
}

/// What an interferer injects, before it is asked when to be polled next.
spec fn injected(s: Sim, script: Seq<Call>, idx: usize, time: SimTime) -> Sim {
    let tx = s.next_tx(script);
    let asked = s.call(Call::PollInject { interferer: idx as int, time, tx });
    match tx {
        Some(tx) => asked.transmit(interferer_id(idx as int), tx, time, false),
        None => asked,
    }
}

proof fn lemma_injected_calls(s: Sim, script: Seq<Call>, idx: usize, time: SimTime)
    ensures
        injected(s, script, idx, time).log.len() > s.log.len(),
        injected(s, script, idx, time).log[s.log.len() as int] == (Call::PollInject {
            interferer: idx as int,
            time,
            tx: s.next_tx(script),
        }),
        begins(injected(s, script, idx, time).log, s.interfere(script, idx, time).log),
{
    let tx = s.next_tx(script);
    let c = Call::PollInject { interferer: idx as int, time, tx };
    match tx {
        Some(tx) => {
            crate::growth::lemma_transmit_logs(
                s.call(c),
                interferer_id(idx as int),
                tx,
                time,
                false,
            );
        },
        None => {},
    }
    assert(s.call(c).log[s.log.len() as int] == c);
}

proof fn lemma_interfere_in_step(
    s: Sim,
    p: Seq<Call>,
    q: Seq<Call>,
    i: int,
    idx: usize,
    time: SimTime,
)
    requires
        agree(p, q, i),
        s.log.len() <= i,
    ensures
        in_step(s.interfere(p, idx, time), s.interfere(q, idx, time), i),
{
    let x = injected(s, p, idx, time);
    let y = injected(s, q, idx, time);
    lemma_injected_calls(s, p, idx, time);
    lemma_injected_calls(s, q, idx, time);
    if s.log.len() < i {
        assert(p[s.log.len() as int] == q[s.log.len() as int]);
        assert(x == y);
        if x.log.len() > i {
            lemma_same_in_step(x, i);
            lemma_stays_in_step(x, x, s.interfere(p, idx, time), s.interfere(q, idx, time), i);
        } else if x.log.len() < i {
            assert(p[x.log.len() as int] == q[x.log.len() as int]);
        }
    } else {
        lemma_stays_in_step(x, y, s.interfere(p, idx, time), s.interfere(q, idx, time), i);
    }
}

proof fn lemma_step_in_step(s: Sim, p: Seq<Call>, q: Seq<Call>, i: int)
    requires
        0 <= i,
        agree(p, q, i),
        s.log.len() <= i,
    ensures
        in_step(s.step(p), s.step(q), i),
{
    if !s.idle() {
        let base = s.about_to_fire();
        let time = s.queue[0].time;
        match s.queue[0].kind {
            EventKind::Wake { node_id } => {
                lemma_wake_in_step(base, p, q, i, node_id, time);
            },
            EventKind::TxComplete { sender } => {
                lemma_complete_in_step(base, p, q, i, time);
            },
            EventKind::InterferencePoll { interferer_idx } => {
                lemma_interfere_in_step(base, p, q, i, interferer_idx, time);
            },
        }
    }
}

proof fn lemma_after_in_step(start: Sim, p: Seq<Call>, q: Seq<Call>, i: int, n: nat)
    requires
        start.wf(),
        agree(p, q, i),
        start.log.len() <= i,
    ensures
        in_step(start.after(p, n), start.after(q, n), i),
    decreases n,
{
    if n > 0 {
        let x = start.after(p, (n - 1) as nat);
        let y = start.after(q, (n - 1) as nat);
        lemma_after_in_step(start, p, q, i, (n - 1) as nat);
        if x.log.len() <= i {
            lemma_step_in_step(x, p, q, i);
        } else {
            crate::simulation_laws::lemma_after_keeps_wf(start, p, (n - 1) as nat);
            crate::simulation_laws::lemma_after_keeps_wf(start, q, (n - 1) as nat);
            crate::simulation_laws::law_calls_are_made_now(x, p);
            crate::simulation_laws::law_calls_are_made_now(y, q);
            lemma_stays_in_step(x, y, x.step(p), y.step(q), i);
        }
    }
}

/// In two runs from the same state, the call that follows the same answers is the same.
pub proof fn law_same_answers_lead_to_the_same_call(start: Sim, a: Sim, b: Sim, i: int)
    requires
        start.wf(),
        a.ends_run(start),
        b.ends_run(start),
        0 <= i < a.log.len(),
        i < b.log.len(),
        a.log.take(i) == b.log.take(i),
    ensures
        i < start.log.len() ==> a.log[i] == b.log[i],
        i >= start.log.len() ==> a.log[i].asks_like(b.log[i]),
{
    let n = choose|n: nat| a.ends_run_after(start, n);
    let m = choose|m: nat| b.ends_run_after(start, m);
    let p = a.log;
    let q = b.log;
    assert(begins(a.log, p));
    assert(begins(b.log, q));
    let steps = if n >= m {
        n
    } else {
        m
    };
    crate::simulation_laws::lemma_idle_stays(start, p, n, steps);
    crate::simulation_laws::lemma_idle_stays(start, q, m, steps);
    crate::simulation_laws::lemma_after_keeps_wf(start, p, steps);
    crate::simulation_laws::lemma_after_keeps_wf(start, q, steps);
    let x = start.after(p, steps);
    let y = start.after(q, steps);
    assert(x.log == a.log);
    assert(y.log == b.log);
    assert(agree(p, q, i)) by {
        assert forall|j: int| 0 <= j < i implies #[trigger] p[j] == q[j] by {
            assert(a.log.take(i)[j] == b.log.take(i)[j]);
        }
    }
    if i >= start.log.len() {
        lemma_after_in_step(start, p, q, i, steps);
    } else {
        assert(x.log[i] == start.log[i]);
        assert(y.log[i] == start.log[i]);
    }
}

proof fn lemma_logs_agree(
    start: Sim,
    a: Sim,
    b: Sim,
    cast_a: Cast,
    later_a: Cast,
    cast_b: Cast,
    later_b: Cast,
    i: int,
)
    requires
        start.wf(),
        cast_a.answers_are_fixed(),
        cast_b.behaves_like(cast_a),
        a.ends_run(start),
        b.ends_run(start),
        cast_a.performs(a.logged_since(start), later_a),
        cast_b.performs(b.logged_since(start), later_b),
        0 <= i <= a.log.len(),
        i <= b.log.len(),
    ensures
        a.log.take(i) == b.log.take(i),
    decreases i,
{
    if i > 0 {
        let k = i - 1;
        lemma_logs_agree(start, a, b, cast_a, later_a, cast_b, later_b, k);
        law_same_answers_lead_to_the_same_call(start, a, b, k);
        if k >= start.log.len() {
            let at = k - start.log.len();
            let since_a = a.logged_since(start);
            let since_b = b.logged_since(start);
            assert(since_a.take(at) =~= since_b.take(at)) by {
                assert forall|j: int| 0 <= j < at implies #[trigger] since_a[j] == since_b[j] by {
                    assert(a.log.take(k)[start.log.len() + j] == b.log.take(k)[start.log.len()
                        + j]);
                }
            }
            assert(since_a[at] == a.log[k]);
            assert(since_b[at] == b.log[k]);
            crate::cast::law_each_call_is_answered_by_whom_it_names(cast_a, since_a, later_a, at);
            crate::cast::law_each_call_is_answered_by_whom_it_names(cast_b, since_b, later_b, at);
            match a.log[k].on_node() {
                Some((n, heard)) => {
                    let (m, other) = b.log[k].on_node()->0;
                    let before = calls_on_node(since_a.take(at), n);
                    assert(cast_a.nodes[n].handle.behaves(before.push(heard)));
                    assert(cast_b.nodes[n].handle.behaves(before.push(other)));
                    assert(heard == other);
                },
                None => {
                    let (n, heard) = a.log[k].on_interferer()->0;
                    let (m, other) = b.log[k].on_interferer()->0;
                    let before = calls_on_interferer(since_a.take(at), n);
                    assert(cast_a.interferers[n].handle.behaves(before.push(heard)));
                    assert(cast_b.interferers[n].handle.behaves(before.push(other)));
                    assert(heard == other);
                },
            }
            assert(a.log[k] == b.log[k]);
        }
        assert(a.log.take(i) =~= a.log.take(k).push(a.log[k]));
        assert(b.log.take(i) =~= b.log.take(k).push(b.log[k]));
    }
}

/// Two runs from the same state, with nodes and interferers that can give the same answers and
/// whose answers are fixed by the calls before, make the same calls, get the same answers and end
/// in the same state.
pub proof fn law_reruns_are_alike(
    start: Sim,
    a: Sim,
    b: Sim,
    cast_a: Cast,
    later_a: Cast,
    cast_b: Cast,
    later_b: Cast,
)
    requires
        start.wf(),
        cast_a.answers_are_fixed(),
        cast_b.behaves_like(cast_a),
        a.ends_run(start),
        b.ends_run(start),
        cast_a.performs(a.logged_since(start), later_a),
        cast_b.performs(b.logged_since(start), later_b),
    ensures
        a == b,
{
    let i: int = if a.log.len() <= b.log.len() {
        a.log.len() as int
    } else {
        b.log.len() as int
    };
    lemma_logs_agree(start, a, b, cast_a, later_a, cast_b, later_b, i);
    if a.log.len() <= b.log.len() {
        assert forall|j: int| 0 <= j < a.log.len() implies #[trigger] b.log[j] == a.log[j] by {
            assert(a.log.take(i)[j] == b.log.take(i)[j]);
        }
        crate::simulation_laws::law_run_is_deterministic(start, a, b);
    } else {
        assert forall|j: int| 0 <= j < b.log.len() implies #[trigger] a.log[j] == b.log[j] by {
            assert(a.log.take(i)[j] == b.log.take(i)[j]);
        }
        crate::simulation_laws::law_run_is_deterministic(start, b, a);
    }
}

proof fn lemma_traffic_goes_one_way(
    s: TrafficState,
    time: SimTime,
    a: TrafficState,
    b: TrafficState,
)
    requires
        s.after_poll(time, a),
        s.after_poll(time, b),
    ensures
        a == b,
{
    if s.arrival is Unscheduled || s.ready(time) {
        let range = crate::aloha::window(s.mean_us);
        let x = choose|x: u64| #[trigger]
            crate::aloha::draw(s.rng, range, x, a.rng) && a.arrival == crate::aloha::arrival_at(
                time + s.mean_us / 2 + x,
            );
        let y = choose|y: u64| #[trigger]
            crate::aloha::draw(s.rng, range, y, b.rng) && b.arrival == crate::aloha::arrival_at(
                time + s.mean_us / 2 + y,
            );
        crate::aloha_laws::law_draw_is_unique(s.rng, range, x, a.rng, y, b.rng);
    }
}

proof fn lemma_backoff_goes_one_way(s: AlohaState, a: AlohaState, b: AlohaState)
    requires
        s.after_poll(a),
        s.after_poll(b),
    ensures
        a == b,
{
    if s.transmits() {
        let range = crate::aloha::window(s.backoff_range_us);
        let x = choose|x: u64| #[trigger]
            crate::aloha::draw(s.rng, range, x, a.rng) && a == (AlohaState {
                phase: crate::aloha::Phase::AwaitingBackoffStart { duration_us: x },
                pending: None,
                rng: a.rng,
                ..s
            });
        let y = choose|y: u64| #[trigger]
            crate::aloha::draw(s.rng, range, y, b.rng) && b == (AlohaState {
                phase: crate::aloha::Phase::AwaitingBackoffStart { duration_us: y },
                pending: None,
                rng: b.rng,
                ..s
            });
        crate::aloha_laws::law_draw_is_unique(s.rng, range, x, a.rng, y, b.rng);
    }
}

proof fn lemma_aloha_goes_one_way(
    s: AlohaState,
    t: TrafficState,
    before: Seq<NodeCall>,
    a: NodeCall,
    supply_a: Seq<PayloadCall>,
    b: NodeCall,
    supply_b: Seq<PayloadCall>,
)
    requires
        t.behaves(supply_a),
        t.behaves(supply_b),
        s.behaves(before.push(a), supply_a),
        s.behaves(before.push(b), supply_b),
        a.asks_like(b),
    ensures
        a == b,
    decreases before.len(),
{
    let calls_a = before.push(a);
    let calls_b = before.push(b);
    if before.len() > 0 {
        let rest = before.drop_first();
        assert(calls_a.drop_first() =~= rest.push(a));
        assert(calls_b.drop_first() =~= rest.push(b));
        assert(calls_a[0] == before[0] && calls_b[0] == before[0]);
        match before[0] {
            NodeCall::Update { time, .. } => {
                if s.wants_payload(time) {
                    let x = choose|x: TrafficState| #[trigger]
                        t.after_poll(supply_a[0].time, x) && x.behaves(supply_a.drop_first());
                    let y = choose|y: TrafficState| #[trigger]
                        t.after_poll(supply_b[0].time, y) && y.behaves(supply_b.drop_first());
                    lemma_traffic_goes_one_way(t, time, x, y);
                    let (next, _) = s.after_update(time, t.answer(time));
                    lemma_aloha_goes_one_way(
                        next,
                        x,
                        rest,
                        a,
                        supply_a.drop_first(),
                        b,
                        supply_b.drop_first(),
                    );
                } else {
                    let (next, _) = s.after_update(time, None);
                    lemma_aloha_goes_one_way(next, t, rest, a, supply_a, b, supply_b);
                }
            },
            NodeCall::OnReceive { .. } => {
                lemma_aloha_goes_one_way(s, t, rest, a, supply_a, b, supply_b);
            },
            NodeCall::PollTransmit { .. } => {
                let x = choose|x: AlohaState| #[trigger]
                    s.after_poll(x) && x.behaves(rest.push(a), supply_a);
                let y = choose|y: AlohaState| #[trigger]
                    s.after_poll(y) && y.behaves(rest.push(b), supply_b);
                lemma_backoff_goes_one_way(s, x, y);
                lemma_aloha_goes_one_way(x, t, rest, a, supply_a, b, supply_b);
            },
        }
    } else {
        assert(calls_a[0] == a && calls_b[0] == b);
    }
}

/// The answers of an ALOHA node with uniform inter-arrival times are fixed by the calls before:
/// the seeds determine all that it ever does.
pub proof fn law_aloha_answers_are_fixed(
    node: AlohaNode<UniformInterarrivalTraffic>,
    before: Seq<NodeCall>,
    a: NodeCall,
    b: NodeCall,
)
    requires
        node.behaves(before.push(a)),
        node.behaves(before.push(b)),
        a.asks_like(b),
    ensures
        a == b,
{
    let supply_a = choose|supply: Seq<PayloadCall>|
        node.can_supply(supply) && #[trigger] node@.behaves(before.push(a), supply);
    let supply_b = choose|supply: Seq<PayloadCall>|
        node.can_supply(supply) && #[trigger] node@.behaves(before.push(b), supply);
    let t = node.traffic_model()@;
    assert(t.behaves(supply_a));
    assert(t.behaves(supply_b));
    lemma_aloha_goes_one_way(node@, t, before, a, supply_a, b, supply_b);
}

} // verus!
