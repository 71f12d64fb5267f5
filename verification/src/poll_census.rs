//! Who is asked how often: ledgers of polls, and of what calls for them.
use crate::census::{count, lemma_count_first, lemma_count_insert, lemma_count_push, updates};
use crate::channel::Outcome;
use crate::queue::ScheduledEvent;
use crate::scheduler::EventKind;
use crate::simulation::{interferer_id, Call, Sim};
use crate::time::SimTime;
use crate::types::{Burst, ChannelEvent, Frame, NodeId};
use vstd::prelude::*;

verus! {

/// The call asked `interferer` for a transmission at `time`.
pub open spec fn injections(interferer: int, time: SimTime) -> spec_fn(Call) -> bool {
    |c: Call|
        c matches Call::PollInject { interferer: i, time: t, .. } && i == interferer && t == time
}

/// The call asked `interferer`, at `time`, when to poll it next.
pub open spec fn next_polls(interferer: int, time: SimTime) -> spec_fn(Call) -> bool {
    |c: Call|
        c matches Call::NextPollTime { interferer: i, time: t, .. } && i == interferer && t == time
}

/// In the call `interferer` asked to be polled at `time`.
pub open spec fn poll_requests(interferer: int, time: SimTime) -> spec_fn(Call) -> bool {
    |c: Call|
        c matches Call::NextPollTime { interferer: i, next, .. } && i == interferer && next == Some(
            time,
        )
}

/// The event polls `interferer` at `time`.
pub open spec fn poll_events(interferer: int, time: SimTime) -> spec_fn(ScheduledEvent) -> bool {
    |e: ScheduledEvent|
        e.time == time && (e.kind matches EventKind::InterferencePoll { interferer_idx }
            && interferer_idx == interferer)
}

/// The call asked `node` for a transmission at `time`.
pub open spec fn node_polls(node: int, time: SimTime) -> spec_fn(Call) -> bool {
    |c: Call| c matches Call::PollTransmit { node: n, time: t, .. } && n == node && t == time
}

/// In the call `node` heard a frame at `time`.
pub open spec fn hearings(node: int, time: SimTime) -> spec_fn(Call) -> bool {
    |c: Call| c matches Call::OnReceive { node: n, time: t, .. } && n == node && t == time
}

/// Who the ledgers are kept for, and for which point in time.
pub struct Asked {
    pub interferer: int,
    pub node: int,
    pub time: SimTime,
}

/// How much each ledger moves.
pub struct Moves {
    pub polls: int,
    pub nexts: int,
    pub replies: int,
}

pub open spec fn one_if(b: bool) -> int {
    if b {
        1
    } else {
        0
    }
}

impl Sim {
    /// Polls of the interferer, past and to come, that nobody has asked for.
    pub open spec fn unasked_polls(self, w: Asked) -> int {
        count(self.log, injections(w.interferer, w.time)) + count(
            self.queue,
            poll_events(w.interferer, w.time),
        ) - count(self.log, poll_requests(w.interferer, w.time))
    }

    /// Polls of the interferer after which it was not asked for the next.
    pub open spec fn unfinished_polls(self, w: Asked) -> int {
        count(self.log, injections(w.interferer, w.time)) - count(
            self.log,
            next_polls(w.interferer, w.time),
        )
    }

    /// Polls of the node beyond its updates and receptions.
    pub open spec fn spare_polls(self, w: Asked) -> int {
        count(self.log, node_polls(w.node, w.time)) - count(self.log, updates(w.node, w.time))
            - count(self.log, hearings(w.node, w.time))
    }

    /// Unless `later` has halted, the ledgers have moved by `m`.
    pub open spec fn moves_to(self, later: Sim, w: Asked, m: Moves) -> bool {
        &&& later.ids == self.ids
        &&& later.interferers == self.interferers
        &&& self.halted ==> later.halted
        &&& !later.halted ==> {
            &&& later.unasked_polls(w) == self.unasked_polls(w) + m.polls
            &&& later.unfinished_polls(w) == self.unfinished_polls(w) + m.nexts
            &&& later.spare_polls(w) == self.spare_polls(w) + m.replies
        }
    }
}

spec fn still() -> Moves {
    Moves { polls: 0, nexts: 0, replies: 0 }
}

/// How one call moves the ledgers.
spec fn moved_by(c: Call, w: Asked) -> Moves {
    Moves {
        polls: one_if(injections(w.interferer, w.time)(c)) - one_if(
            poll_requests(w.interferer, w.time)(c),
        ),
        nexts: one_if(injections(w.interferer, w.time)(c)) - one_if(
            next_polls(w.interferer, w.time)(c),
        ),
        replies: one_if(node_polls(w.node, w.time)(c)) - one_if(updates(w.node, w.time)(c))
            - one_if(hearings(w.node, w.time)(c)),
    }
}

proof fn lemma_call_moves(s: Sim, c: Call, w: Asked)
    ensures
        s.moves_to(s.call(c), w, moved_by(c, w)),
{
    lemma_count_push(s.log, c, injections(w.interferer, w.time));
    lemma_count_push(s.log, c, next_polls(w.interferer, w.time));
    lemma_count_push(s.log, c, poll_requests(w.interferer, w.time));
    lemma_count_push(s.log, c, node_polls(w.node, w.time));
    lemma_count_push(s.log, c, updates(w.node, w.time));
    lemma_count_push(s.log, c, hearings(w.node, w.time));
}

proof fn lemma_shown_moves(s: Sim, k: nat, event: ChannelEvent, time: SimTime, w: Asked)
    ensures
        s.moves_to(
            Sim {
                log: s.log + Seq::new(k, |j: int| Call::Observe { interferer: j, event, time }),
                ..s
            },
            w,
            still(),
        ),
    decreases k,
{
    let shown = Seq::new(k, |j: int| Call::Observe { interferer: j, event, time });
    if k == 0 {
        assert(s.log + shown =~= s.log);
    } else {
        let fewer = Seq::new(
            (k - 1) as nat,
            |j: int| Call::Observe { interferer: j, event, time },
        );
        let mid = Sim { log: s.log + fewer, ..s };
        let c = Call::Observe { interferer: k - 1, event, time };
        lemma_shown_moves(s, (k - 1) as nat, event, time, w);
        lemma_call_moves(mid, c, w);
        assert(s.log + shown =~= (s.log + fewer).push(c));
    }
}

proof fn lemma_announce_moves(s: Sim, event: ChannelEvent, time: SimTime, w: Asked)
    ensures
        s.moves_to(s.announce(event, time), w, still()),
{
    lemma_shown_moves(s, s.interferers, event, time, w);
}

proof fn lemma_announce_all_moves(
    s: Sim,
    events: Seq<ChannelEvent>,
    time: SimTime,
    n: nat,
    w: Asked,
)
    ensures
        s.moves_to(s.announce_all(events, time, n), w, still()),
    decreases n,
{
    if n > 0 {
        lemma_announce_all_moves(s, events, time, (n - 1) as nat, w);
        let mid = s.announce_all(events, time, (n - 1) as nat);
        lemma_announce_moves(mid, events[n - 1], time, w);
    }
}

proof fn lemma_schedule_moves(s: Sim, at: SimTime, kind: EventKind, w: Asked)
    ensures
        s.moves_to(
            s.schedule(at, kind),
            w,
            Moves {
                polls: one_if(
                    at == w.time && (kind matches EventKind::InterferencePoll { interferer_idx }
                        && interferer_idx == w.interferer),
                ),
                nexts: 0,
                replies: 0,
            },
        ),
{
    let later = s.schedule(at, kind);
    if !later.halted {
        let event = ScheduledEvent { time: at, seq: s.seq, kind };
        let precedes = |e: ScheduledEvent| e.precedes(event);
        let place = s.queue.filter(precedes).len() as int;
        s.queue.lemma_filter_len(precedes);
        assert(later.queue == s.queue.insert(place, event));
        lemma_count_insert(s.queue, place, event, poll_events(w.interferer, w.time));
    }
}

proof fn lemma_transmit_moves(
    s: Sim,
    sender: NodeId,
    tx: Burst,
    time: SimTime,
    by_node: bool,
    w: Asked,
)
    ensures
        s.moves_to(s.transmit(sender, tx, time, by_node), w, still()),
{
    let later = s.transmit(sender, tx, time, by_node);
    if !later.halted {
        let started = ChannelEvent::TransmissionStarted {
            sender,
            sf: tx.sf,
            frequency: tx.frequency,
            time,
        };
        let counted = if by_node {
            s.metrics.plus_tx(sender)
        } else {
            s.metrics
        };
        let on_air = Sim {
            channel: s.channel.begin(sender, tx, time),
            metrics: counted.plus_airtime(tx.duration_us),
            ..s
        };
        let announced = on_air.announce(started, time);
        lemma_announce_moves(on_air, started, time, w);
        lemma_schedule_moves(
            announced,
            (time + tx.duration_us) as SimTime,
            EventKind::TxComplete { sender },
            w,
        );
    }
}

proof fn lemma_poll_moves(s: Sim, script: Seq<Call>, node: int, time: SimTime, w: Asked)
    ensures
        s.moves_to(
            s.poll(script, node, time),
            w,
            Moves { polls: 0, nexts: 0, replies: one_if(node == w.node && time == w.time) },
        ),
{
    if !s.halted {
        let tx = s.next_tx(script);
        let c = Call::PollTransmit { node, time, tx };
        lemma_call_moves(s, c, w);
        match tx {
            Some(tx) => {
                lemma_transmit_moves(s.call(c), s.ids[node], tx, time, true, w);
            },
            None => {},
        }
    }
}

/// The watched node is one of the first `n` and hears a frame of `sender` at `time`.
spec fn listens(s: Sim, sender: NodeId, time: SimTime, n: nat, w: Asked) -> bool {
    0 <= w.node < n && s.ids[w.node] != sender && time == w.time
}

proof fn lemma_poll_others_moves(
    s: Sim,
    script: Seq<Call>,
    sender: NodeId,
    time: SimTime,
    n: nat,
    w: Asked,
)
    ensures
        s.moves_to(
            s.poll_others(script, sender, time, n),
            w,
            Moves { polls: 0, nexts: 0, replies: one_if(listens(s, sender, time, n, w)) },
        ),
    decreases n,
{
    if n > 0 {
        lemma_poll_others_moves(s, script, sender, time, (n - 1) as nat, w);
        let mid = s.poll_others(script, sender, time, (n - 1) as nat);
        lemma_poll_moves(mid, script, n - 1, time, w);
    }
}

proof fn lemma_hand_out_moves(
    s: Sim,
    script: Seq<Call>,
    sender: NodeId,
    frame: Frame,
    time: SimTime,
    n: nat,
    w: Asked,
)
    ensures
        s.moves_to(
            s.hand_out(script, sender, frame, time, n).0,
            w,
            Moves { polls: 0, nexts: 0, replies: -one_if(listens(s, sender, time, n, w)) },
        ),
    decreases n,
{
    if n > 0 {
        lemma_hand_out_moves(s, script, sender, frame, time, (n - 1) as nat, w);
        let (mid, _) = s.hand_out(script, sender, frame, time, (n - 1) as nat);
        let (later, _) = s.hand_out(script, sender, frame, time, n);
        let id = s.ids[n - 1];
        if !later.halted && id != sender {
            let wake = mid.next_time(script);
            let c = Call::OnReceive { node: n - 1, frame, time, wake };
            assert(later.log == mid.call(c).log);
            lemma_call_moves(mid, c, w);
        }
    }
}

proof fn lemma_schedule_wakes_moves(s: Sim, asked: Seq<(NodeId, SimTime)>, n: nat, w: Asked)
    ensures
        s.moves_to(s.schedule_wakes(asked, n), w, still()),
    decreases n,
{
    if n > 0 {
        lemma_schedule_wakes_moves(s, asked, (n - 1) as nat, w);
        let mid = s.schedule_wakes(asked, (n - 1) as nat);
        let (node_id, t) = asked[n - 1];
        lemma_schedule_moves(mid, t, EventKind::Wake { node_id }, w);
    }
}

proof fn lemma_deliver_moves(s: Sim, script: Seq<Call>, outcome: Outcome, time: SimTime, w: Asked)
    ensures
        s.moves_to(s.deliver(script, outcome, time), w, still()),
{
    if !s.halted && !outcome.collided {
        let counted = if outcome.captured {
            s.count_capture()
        } else {
            s
        };
        if !counted.halted {
            let n = s.ids.len();
            let (heard, asked) = counted.hand_out(script, outcome.sender, outcome.frame, time, n);
            let woken = heard.schedule_wakes(asked, asked.len());
            lemma_hand_out_moves(counted, script, outcome.sender, outcome.frame, time, n, w);
            lemma_schedule_wakes_moves(heard, asked, asked.len(), w);
            lemma_poll_others_moves(woken, script, outcome.sender, time, n, w);
        }
    }
}

proof fn lemma_deliver_all_moves(
    s: Sim,
    script: Seq<Call>,
    outcomes: Seq<Outcome>,
    time: SimTime,
    n: nat,
    w: Asked,
)
    ensures
        s.moves_to(s.deliver_all(script, outcomes, time, n), w, still()),
    decreases n,
{
    if n > 0 {
        lemma_deliver_all_moves(s, script, outcomes, time, (n - 1) as nat, w);
        let mid = s.deliver_all(script, outcomes, time, (n - 1) as nat);
        lemma_deliver_moves(mid, script, outcomes[n - 1], time, w);
    }
}

proof fn lemma_complete_moves(s: Sim, script: Seq<Call>, time: SimTime, w: Asked)
    ensures
        s.moves_to(s.complete(script, time), w, still()),
{
    let events = s.channel.completions(time);
    let resolved = Sim { channel: s.channel.resolve(time), ..s };
    let announced = resolved.announce_all(events, time, events.len());
    let outcomes = announced.channel.outcomes();
    let drained = Sim { channel: announced.channel.drained(), ..announced };
    lemma_announce_all_moves(resolved, events, time, events.len(), w);
    lemma_deliver_all_moves(drained, script, outcomes, time, outcomes.len(), w);
}

proof fn lemma_wake_moves(s: Sim, script: Seq<Call>, node_id: NodeId, time: SimTime, w: Asked)
    ensures
        s.moves_to(s.wake(script, node_id, time), w, still()),
{
    if let Some(node) = s.ids.index_of_first(node_id) {
        let wake = s.next_time(script);
        let c = Call::Update { node, time, wake };
        let asked = s.call(c);
        let scheduled = asked.schedule_if(wake, EventKind::Wake { node_id });
        lemma_call_moves(s, c, w);
        match wake {
            Some(t) => {
                lemma_schedule_moves(asked, t, EventKind::Wake { node_id }, w);
            },
            None => {},
        }
        lemma_poll_moves(scheduled, script, node, time, w);
    }
}

proof fn lemma_interfere_moves(s: Sim, script: Seq<Call>, idx: usize, time: SimTime, w: Asked)
    ensures
        s.moves_to(
            s.interfere(script, idx, time),
            w,
            Moves { polls: one_if(idx == w.interferer && time == w.time), nexts: 0, replies: 0 },
        ),
{
    let tx = s.next_tx(script);
    let c = Call::PollInject { interferer: idx as int, time, tx };
    let asked = s.call(c);
    let injected = match tx {
        Some(tx) => asked.transmit(interferer_id(idx as int), tx, time, false),
        None => asked,
    };
    lemma_call_moves(s, c, w);
    match tx {
        Some(tx) => {
            lemma_transmit_moves(asked, interferer_id(idx as int), tx, time, false, w);
        },
        None => {},
    }
    if !injected.halted {
        let next = injected.next_time(script);
        let d = Call::NextPollTime { interferer: idx as int, time, next };
        let asked_again = injected.call(d);
        lemma_call_moves(injected, d, w);
        match next {
            Some(t) => {
                lemma_schedule_moves(
                    asked_again,
                    t,
                    EventKind::InterferencePoll { interferer_idx: idx },
                    w,
                );
            },
            None => {},
        }
    }
}

proof fn lemma_step_moves(s: Sim, script: Seq<Call>, w: Asked)
    ensures
        s.moves_to(s.step(script), w, still()),
{
    if !s.idle() {
        let base = s.about_to_fire();
        let event = s.queue[0];
        lemma_count_first(s.queue, poll_events(w.interferer, w.time));
        match event.kind {
            EventKind::Wake { node_id } => {
                lemma_wake_moves(base, script, node_id, event.time, w);
            },
            EventKind::TxComplete { sender } => {
                lemma_complete_moves(base, script, event.time, w);
            },
            EventKind::InterferencePoll { interferer_idx } => {
                lemma_interfere_moves(base, script, interferer_idx, event.time, w);
            },
        }
    }
}

pub proof fn lemma_after_moves(start: Sim, script: Seq<Call>, n: nat, w: Asked)
    ensures
        start.moves_to(
            start.after(script, n),
            w,
            Moves { polls: 0, nexts: 0, replies: 0 },
        ),
    decreases n,
{
    if n > 0 {
        lemma_after_moves(start, script, (n - 1) as nat, w);
        lemma_step_moves(start.after(script, (n - 1) as nat), script, w);
    }
}

} // verus!
