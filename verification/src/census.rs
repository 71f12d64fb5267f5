//! What becomes of every transmission and of every request to be woken: ledgers that each
//! operation of a simulation keeps level.
use crate::channel::{OnAir, Outcome};
use crate::delivery_laws::listeners;
use crate::queue::ScheduledEvent;
use crate::scheduler::EventKind;
use crate::simulation::{interferer_id, Call, Sim};
use crate::time::SimTime;
use crate::types::{Burst, ChannelEvent, Frame, NodeId};
use vstd::prelude::*;

verus! {

/// How many elements of `s` satisfy `p`.
pub open spec fn count<A>(s: Seq<A>, p: spec_fn(A) -> bool) -> nat
    decreases s.len(),
{
    if s.len() == 0 {
        0
    } else {
        count(s.drop_last(), p) + if p(s.last()) {
            1nat
        } else {
            0
        }
    }
}

pub proof fn lemma_count_push<A>(s: Seq<A>, a: A, p: spec_fn(A) -> bool)
    ensures
        count(s.push(a), p) == count(s, p) + if p(a) {
            1nat
        } else {
            0
        },
{
    assert(s.push(a).drop_last() =~= s);
}

pub proof fn lemma_count_concat<A>(a: Seq<A>, b: Seq<A>, p: spec_fn(A) -> bool)
    ensures
        count(a + b, p) == count(a, p) + count(b, p),
    decreases b.len(),
{
    if b.len() == 0 {
        assert(a + b =~= a);
    } else {
        lemma_count_concat(a, b.drop_last(), p);
        assert((a + b).drop_last() =~= a + b.drop_last());
        assert((a + b).last() == b.last());
    }
}

pub proof fn lemma_count_one<A>(a: A, p: spec_fn(A) -> bool)
    ensures
        count(seq![a], p) == if p(a) {
            1nat
        } else {
            0
        },
{
    lemma_count_push(Seq::empty(), a, p);
    assert(Seq::<A>::empty().push(a) =~= seq![a]);
}

pub proof fn lemma_count_insert<A>(s: Seq<A>, at: int, a: A, p: spec_fn(A) -> bool)
    requires
        0 <= at <= s.len(),
    ensures
        count(s.insert(at, a), p) == count(s, p) + if p(a) {
            1nat
        } else {
            0
        },
{
    let front = s.take(at);
    let back = s.skip(at);
    assert(s =~= front + back);
    assert(s.insert(at, a) =~= front + (seq![a] + back));
    lemma_count_concat(front, back, p);
    lemma_count_concat(front, seq![a] + back, p);
    lemma_count_concat(seq![a], back, p);
    lemma_count_one(a, p);
}

pub proof fn lemma_count_first<A>(s: Seq<A>, p: spec_fn(A) -> bool)
    requires
        s.len() > 0,
    ensures
        count(s, p) == count(s.drop_first(), p) + if p(s[0]) {
            1nat
        } else {
            0
        },
{
    assert(s =~= seq![s[0]] + s.drop_first());
    lemma_count_concat(seq![s[0]], s.drop_first(), p);
    lemma_count_one(s[0], p);
}

/// Elements that look alike to `p` are counted alike.
pub proof fn lemma_count_alike<A, B>(
    s: Seq<A>,
    p: spec_fn(A) -> bool,
    r: Seq<B>,
    q: spec_fn(B) -> bool,
)
    requires
        s.len() == r.len(),
        forall|i: int| 0 <= i < s.len() ==> p(#[trigger] s[i]) == q(r[i]),
    ensures
        count(s, p) == count(r, q),
    decreases s.len(),
{
    if s.len() > 0 {
        assert forall|i: int| 0 <= i < s.drop_last().len() implies p(#[trigger] s.drop_last()[i])
            == q(r.drop_last()[i]) by {
            assert(s.drop_last()[i] == s[i]);
        }
        lemma_count_alike(s.drop_last(), p, r.drop_last(), q);
        assert(p(s[s.len() - 1]) == q(r[s.len() - 1]));
    }
}

pub proof fn lemma_count_none<A>(s: Seq<A>, p: spec_fn(A) -> bool)
    requires
        forall|i: int| 0 <= i < s.len() ==> !p(#[trigger] s[i]),
    ensures
        count(s, p) == 0,
    decreases s.len(),
{
    if s.len() > 0 {
        assert forall|i: int| 0 <= i < s.drop_last().len() implies !p(
            #[trigger] s.drop_last()[i],
        ) by {
            assert(s.drop_last()[i] == s[i]);
        }
        lemma_count_none(s.drop_last(), p);
        assert(!p(s[s.len() - 1]));
    }
}

/// What satisfies `p` is in one of the two halves that `keep` makes.
pub proof fn lemma_count_halves<A>(
    s: Seq<A>,
    keep: spec_fn(A) -> bool,
    rest: spec_fn(A) -> bool,
    p: spec_fn(A) -> bool,
)
    requires
        forall|a: A| #[trigger] keep(a) != rest(a),
    ensures
        count(s, p) == count(s.filter(keep), p) + count(s.filter(rest), p),
        s.len() == s.filter(keep).len() + s.filter(rest).len(),
    decreases s.len(),
{
    reveal(Seq::filter);
    if s.len() > 0 {
        lemma_count_halves(s.drop_last(), keep, rest, p);
        assert(keep(s.last()) != rest(s.last()));
        if keep(s.last()) {
            lemma_count_push(s.drop_last().filter(keep), s.last(), p);
        } else {
            lemma_count_push(s.drop_last().filter(rest), s.last(), p);
        }
    }
}

/// The event that announces the transmission that `call` was answered with.
pub open spec fn started_by(call: Call, ids: Seq<NodeId>) -> ChannelEvent {
    ChannelEvent::TransmissionStarted {
        sender: call.sender(ids)->0,
        sf: call.tx_answer()->0.sf,
        frequency: call.tx_answer()->0.frequency,
        time: call.time(),
    }
}

/// The call began a transmission that starts as `event` says.
pub open spec fn starts(ids: Seq<NodeId>, event: ChannelEvent) -> spec_fn(Call) -> bool {
    |c: Call| c.tx_answer() is Some && started_by(c, ids) == event
}

/// The call showed the start `event` to `interferer`, at the time of that start.
pub open spec fn start_observations(interferer: int, event: ChannelEvent) -> spec_fn(Call) -> bool {
    |c: Call|
        c matches Call::Observe { interferer: i, event: e, time } && i == interferer && e == event
            && (e matches ChannelEvent::TransmissionStarted { time: t, .. } && t == time)
}

/// The call began a transmission by `sender` that ends at `end`.
pub open spec fn endings(ids: Seq<NodeId>, sender: NodeId, end: SimTime) -> spec_fn(Call) -> bool {
    |c: Call|
        c.tx_answer() is Some && c.sender(ids) == Some(sender) && c.time()
            + c.tx_answer()->0.duration_us == end
}

/// The call showed `interferer`, at `end`, that a transmission by `sender` ended at `end`.
pub open spec fn end_observations(interferer: int, sender: NodeId, end: SimTime) -> spec_fn(
    Call,
) -> bool {
    |c: Call|
        c matches Call::Observe { interferer: i, event: e, time } && i == interferer && time == end
            && (e matches ChannelEvent::TransmissionCompleted { sender: s, time: t, .. } && s
            == sender && t == end)
}

/// The transmission is by `sender` and ends at `end`.
pub open spec fn ends_at(sender: NodeId, end: SimTime) -> spec_fn(OnAir) -> bool {
    |a: OnAir| a.sender == sender && a.end == end
}

/// In the call a node with identifier `id` asked to be woken at `time`.
pub open spec fn requests(ids: Seq<NodeId>, id: NodeId, time: SimTime) -> spec_fn(Call) -> bool {
    |c: Call| c.wake_request() matches Some((node, t)) && ids[node] == id && t == time
}

/// The call updated `node` at `time`.
pub open spec fn updates(node: int, time: SimTime) -> spec_fn(Call) -> bool {
    |c: Call| c matches Call::Update { node: n, time: t, .. } && n == node && t == time
}

/// The event wakes `id` at `time`.
pub open spec fn wakes(id: NodeId, time: SimTime) -> spec_fn(ScheduledEvent) -> bool {
    |e: ScheduledEvent| e.kind == (EventKind::Wake { node_id: id }) && e.time == time
}

spec fn wake_of(id: NodeId, time: SimTime) -> spec_fn((NodeId, SimTime)) -> bool {
    |w: (NodeId, SimTime)| w == (id, time)
}

/// Who and what the ledgers are kept for.
pub struct Watch {
    pub interferer: int,
    pub started: ChannelEvent,
    pub sender: NodeId,
    pub end: SimTime,
    pub id: NodeId,
    pub node: int,
    pub wake: SimTime,
}

impl Sim {
    /// Starts that were not observed.
    pub open spec fn open_starts(self, w: Watch) -> int {
        count(self.log, starts(self.ids, w.started)) - count(
            self.log,
            start_observations(w.interferer, w.started),
        )
    }

    /// Transmissions that are neither on the air nor have had their end observed.
    pub open spec fn open_ends(self, w: Watch) -> int {
        count(self.log, endings(self.ids, w.sender, w.end)) - count(
            self.log,
            end_observations(w.interferer, w.sender, w.end),
        ) - count(self.channel.active, ends_at(w.sender, w.end))
    }

    /// Updates, past and to come, that nobody has asked for.
    pub open spec fn open_wakes(self, w: Watch) -> int {
        count(self.log, updates(w.node, w.wake)) + count(self.queue, wakes(w.id, w.wake)) - count(
            self.log,
            requests(self.ids, w.id, w.wake),
        )
    }

    /// Only nodes transmit, each under an identifier of its own.
    pub open spec fn only_nodes_send(self) -> bool {
        &&& self.interferers == 0
        &&& self.ids.no_duplicates()
        &&& forall|i: int|
            0 <= i < self.channel.active.len() ==> self.ids.contains(
                (#[trigger] self.channel.active[i]).sender,
            )
        &&& forall|i: int|
            0 <= i < self.channel.completed.len() ==> self.ids.contains(
                (#[trigger] self.channel.completed[i]).sender,
            )
    }

    /// Receptions beyond those of the transmissions that were delivered, if each of these was
    /// heard by all nodes but one.
    pub open spec fn excess_receptions(self) -> int {
        self.metrics.total_rx + (self.metrics.total_collisions + self.channel.active.len()
            + self.channel.completed.len() - self.metrics.total_tx) * (self.ids.len() - 1)
    }

    /// `self` and `later` differ in nothing but what the ledgers are about; unless `later` has
    /// halted, the ledgers show the same.
    pub open spec fn settles(self, later: Sim, w: Watch) -> bool {
        &&& later.ids == self.ids
        &&& later.interferers == self.interferers
        &&& self.halted ==> later.halted
        &&& self.channel.completed.len() == 0 ==> later.channel.completed.len() == 0
        &&& !later.halted ==> {
            &&& 0 <= w.interferer < self.interferers ==> later.open_starts(w) == self.open_starts(w)
            &&& self.ids.index_of_first(w.id) == Some(w.node) ==> later.open_wakes(w)
                == self.open_wakes(w)
            &&& self.only_nodes_send() ==> later.only_nodes_send() && later.excess_receptions()
                == self.excess_receptions()
        }
    }

    /// Unless `later` has halted, the ledger of ends shows the same in `self` and `later`.
    pub open spec fn settles_ends(self, later: Sim, w: Watch) -> bool {
        !later.halted && 0 <= w.interferer < self.interferers ==> later.open_ends(w)
            == self.open_ends(w)
    }
}

/// A call that is no transmission, no observation, no update and no request to be woken.
spec fn unremarkable(c: Call) -> bool {
    c.tx_answer() is None && !(c is Observe) && !(c is Update) && c.wake_request() is None
}

proof fn lemma_call_counts(s: Sim, c: Call, w: Watch)
    ensures
        ({
            let later = s.call(c);
            &&& count(later.log, starts(s.ids, w.started)) == count(
                s.log,
                starts(s.ids, w.started),
            ) + if starts(s.ids, w.started)(c) {
                1nat
            } else {
                0
            }
            &&& count(later.log, endings(s.ids, w.sender, w.end)) == count(
                s.log,
                endings(s.ids, w.sender, w.end),
            ) + if endings(s.ids, w.sender, w.end)(c) {
                1nat
            } else {
                0
            }
            &&& !(c is Observe) ==> count(
                later.log,
                start_observations(w.interferer, w.started),
            ) == count(s.log, start_observations(w.interferer, w.started)) && count(
                later.log,
                end_observations(w.interferer, w.sender, w.end),
            ) == count(s.log, end_observations(w.interferer, w.sender, w.end))
            &&& count(later.log, updates(w.node, w.wake)) == count(s.log, updates(w.node, w.wake))
                + if updates(w.node, w.wake)(c) {
                1nat
            } else {
                0
            }
            &&& count(later.log, requests(s.ids, w.id, w.wake)) == count(
                s.log,
                requests(s.ids, w.id, w.wake),
            ) + if requests(s.ids, w.id, w.wake)(c) {
                1nat
            } else {
                0
            }
        }),
{
    lemma_count_push(s.log, c, starts(s.ids, w.started));
    lemma_count_push(s.log, c, endings(s.ids, w.sender, w.end));
    lemma_count_push(s.log, c, start_observations(w.interferer, w.started));
    lemma_count_push(s.log, c, end_observations(w.interferer, w.sender, w.end));
    lemma_count_push(s.log, c, updates(w.node, w.wake));
    lemma_count_push(s.log, c, requests(s.ids, w.id, w.wake));
}

proof fn lemma_unremarkable_settles(s: Sim, c: Call, w: Watch)
    requires
        unremarkable(c),
    ensures
        s.settles(s.call(c), w),
        s.settles_ends(s.call(c), w),
{
    lemma_call_counts(s, c, w);
}

/// Of the calls that show an event to every interferer, at most the one on `i` counts.
proof fn lemma_announcement_counts(
    log: Seq<Call>,
    k: nat,
    event: ChannelEvent,
    time: SimTime,
    p: spec_fn(Call) -> bool,
    i: int,
    counts: bool,
)
    requires
        forall|j: int| #[trigger]
            p(Call::Observe { interferer: j, event, time }) == (j == i && counts),
    ensures
        count(
            log + Seq::new(k, |j: int| Call::Observe { interferer: j, event, time }),
            p,
        ) == count(log, p) + if 0 <= i < k && counts {
            1nat
        } else {
            0
        },
    decreases k,
{
    let shown = Seq::new(k, |j: int| Call::Observe { interferer: j, event, time });
    if k == 0 {
        assert(log + shown =~= log);
    } else {
        let fewer = Seq::new(
            (k - 1) as nat,
            |j: int| Call::Observe { interferer: j, event, time },
        );
        lemma_announcement_counts(log, (k - 1) as nat, event, time, p, i, counts);
        assert(log + shown =~= (log + fewer).push(
            Call::Observe { interferer: k - 1, event, time },
        ));
        lemma_count_push(log + fewer, Call::Observe { interferer: k - 1, event, time }, p);
    }
}

proof fn lemma_announce_counts(s: Sim, event: ChannelEvent, time: SimTime, w: Watch)
    requires
        event matches ChannelEvent::TransmissionStarted { time: t, .. } ==> t == time,
    ensures
        ({
            let later = s.announce(event, time);
            &&& later.open_wakes(w) == s.open_wakes(w)
            &&& 0 <= w.interferer < s.interferers ==> {
                &&& later.open_starts(w) == s.open_starts(w) - if event is TransmissionStarted
                    && event == w.started {
                    1int
                } else {
                    0
                }
                &&& later.open_ends(w) == s.open_ends(w) - if event matches
                    ChannelEvent::TransmissionCompleted { sender, time: t, .. } && sender
                    == w.sender && t == w.end && t == time {
                    1int
                } else {
                    0
                }
            }
        }),
{
    let k = s.interferers;
    let is_start = event is TransmissionStarted && event == w.started;
    let is_end = event matches ChannelEvent::TransmissionCompleted { sender, time: t, .. } && sender
        == w.sender && t == w.end && t == time;
    lemma_announcement_counts(
        s.log,
        k,
        event,
        time,
        start_observations(w.interferer, w.started),
        w.interferer,
        is_start,
    );
    lemma_announcement_counts(
        s.log,
        k,
        event,
        time,
        end_observations(w.interferer, w.sender, w.end),
        w.interferer,
        is_end,
    );
    lemma_announcement_counts(s.log, k, event, time, starts(s.ids, w.started), -1, false);
    lemma_announcement_counts(s.log, k, event, time, endings(s.ids, w.sender, w.end), -1, false);
    lemma_announcement_counts(s.log, k, event, time, updates(w.node, w.wake), -1, false);
    lemma_announcement_counts(s.log, k, event, time, requests(s.ids, w.id, w.wake), -1, false);
}

proof fn lemma_schedule_counts(s: Sim, at: SimTime, kind: EventKind, w: Watch)
    ensures
        ({
            let later = s.schedule(at, kind);
            &&& later.open_starts(w) == s.open_starts(w)
            &&& later.open_ends(w) == s.open_ends(w)
            &&& !later.halted ==> later.open_wakes(w) == s.open_wakes(w) + if kind == (
            EventKind::Wake { node_id: w.id }) && at == w.wake {
                1int
            } else {
                0
            }
            &&& s.halted ==> later.halted
            &&& later.excess_receptions() == s.excess_receptions()
            &&& s.only_nodes_send() ==> later.only_nodes_send()
        }),
{
    let later = s.schedule(at, kind);
    if !later.halted {
        let event = ScheduledEvent { time: at, seq: s.seq, kind };
        let precedes = |e: ScheduledEvent| e.precedes(event);
        let place = s.queue.filter(precedes).len() as int;
        s.queue.lemma_filter_len(precedes);
        assert(later.queue == s.queue.insert(place, event));
        lemma_count_insert(s.queue, place, event, wakes(w.id, w.wake));
    }
}

proof fn lemma_transmit_settles(s: Sim, c: Call, sender: NodeId, tx: Burst, by_node: bool, w: Watch)
    requires
        c.tx_answer() == Some(tx),
        c.sender(s.ids) == Some(sender),
        by_node ==> s.ids.contains(sender),
        !by_node ==> s.interferers > 0,
    ensures
        s.settles(s.call(c).transmit(sender, tx, c.time(), by_node), w),
        s.settles_ends(s.call(c).transmit(sender, tx, c.time(), by_node), w),
{
    let time = c.time();
    let asked = s.call(c);
    let later = asked.transmit(sender, tx, time, by_node);
    if !later.halted {
        let new = OnAir::of(sender, tx, time);
        let started = ChannelEvent::TransmissionStarted {
            sender,
            sf: tx.sf,
            frequency: tx.frequency,
            time,
        };
        let counted = if by_node {
            asked.metrics.plus_tx(sender)
        } else {
            asked.metrics
        };
        let on_air = Sim {
            channel: asked.channel.begin(sender, tx, time),
            metrics: counted.plus_airtime(tx.duration_us),
            ..asked
        };
        let announced = on_air.announce(started, time);
        let end = (time + tx.duration_us) as SimTime;
        let p = ends_at(w.sender, w.end);
        let others = on_air.channel.active.drop_last();
        lemma_call_counts(s, c, w);
        assert(on_air.channel.active =~= others.push(s.channel.entering(new)));
        lemma_count_push(others, s.channel.entering(new), p);
        lemma_count_alike(s.channel.active, p, others, p);
        lemma_announce_counts(on_air, started, time, w);
        lemma_schedule_counts(announced, end, EventKind::TxComplete { sender }, w);
        assert(announced.excess_receptions() == on_air.excess_receptions());
        if s.only_nodes_send() {
            assert forall|i: int| 0 <= i < on_air.channel.active.len() implies s.ids.contains(
                (#[trigger] on_air.channel.active[i]).sender,
            ) by {
                if i < s.channel.active.len() {
                    assert(s.ids.contains(s.channel.active[i].sender));
                }
            }
            assert(announced.only_nodes_send());
        }
    }
}

proof fn lemma_poll_settles(s: Sim, script: Seq<Call>, node: int, time: SimTime, w: Watch)
    requires
        0 <= node < s.ids.len(),
    ensures
        s.settles(s.poll(script, node, time), w),
        s.settles_ends(s.poll(script, node, time), w),
{
    if !s.halted {
        let tx = s.next_tx(script);
        let c = Call::PollTransmit { node, time, tx };
        match tx {
            Some(tx) => {
                assert(s.ids.contains(s.ids[node]));
                lemma_transmit_settles(s, c, s.ids[node], tx, true, w);
            },
            None => {
                lemma_unremarkable_settles(s, c, w);
            },
        }
    }
}

proof fn lemma_poll_others_settles(
    s: Sim,
    script: Seq<Call>,
    sender: NodeId,
    time: SimTime,
    n: nat,
    w: Watch,
)
    requires
        n <= s.ids.len(),
    ensures
        s.settles(s.poll_others(script, sender, time, n), w),
        s.settles_ends(s.poll_others(script, sender, time, n), w),
    decreases n,
{
    if n > 0 {
        lemma_poll_others_settles(s, script, sender, time, (n - 1) as nat, w);
        let mid = s.poll_others(script, sender, time, (n - 1) as nat);
        if s.ids[n - 1] != sender {
            lemma_poll_settles(mid, script, n - 1, time, w);
        }
    }
}

/// Handing out a frame changes one ledger only: the wake-ups that are asked for are not scheduled
/// yet. It counts one reception for each that hears.
proof fn lemma_hand_out_counts(
    s: Sim,
    script: Seq<Call>,
    sender: NodeId,
    frame: Frame,
    time: SimTime,
    n: nat,
    w: Watch,
)
    requires
        n <= s.ids.len(),
    ensures
        ({
            let (later, asked) = s.hand_out(script, sender, frame, time, n);
            &&& later.ids == s.ids
            &&& later.interferers == s.interferers
            &&& later.channel == s.channel
            &&& s.halted ==> later.halted
            &&& !later.halted ==> {
                &&& later.open_starts(w) == s.open_starts(w)
                &&& later.open_ends(w) == s.open_ends(w)
                &&& later.open_wakes(w) + count(asked, wake_of(w.id, w.wake)) == s.open_wakes(w)
                &&& later.metrics.total_rx == s.metrics.total_rx + listeners(
                    s.ids,
                    sender,
                    n,
                ).len()
                &&& later.metrics.total_tx == s.metrics.total_tx
                &&& later.metrics.total_collisions == s.metrics.total_collisions
            }
        }),
    decreases n,
{
    if n > 0 {
        lemma_hand_out_counts(s, script, sender, frame, time, (n - 1) as nat, w);
        let (mid, fewer) = s.hand_out(script, sender, frame, time, (n - 1) as nat);
        let (later, asked) = s.hand_out(script, sender, frame, time, n);
        let id = s.ids[n - 1];
        if !later.halted && id != sender {
            let wake = mid.next_time(script);
            let c = Call::OnReceive { node: n - 1, frame, time, wake };
            assert(later.log == mid.call(c).log);
            lemma_call_counts(mid, c, w);
            match wake {
                Some(t) => {
                    lemma_count_push(fewer, (id, t), wake_of(w.id, w.wake));
                },
                None => {},
            }
        }
    }
}

proof fn lemma_schedule_wakes_counts(s: Sim, asked: Seq<(NodeId, SimTime)>, n: nat, w: Watch)
    requires
        n <= asked.len(),
    ensures
        ({
            let later = s.schedule_wakes(asked, n);
            &&& later.ids == s.ids
            &&& later.interferers == s.interferers
            &&& later.channel == s.channel
            &&& later.metrics == s.metrics
            &&& s.halted ==> later.halted
            &&& !later.halted ==> {
                &&& later.open_starts(w) == s.open_starts(w)
                &&& later.open_ends(w) == s.open_ends(w)
                &&& later.open_wakes(w) == s.open_wakes(w) + count(
                    asked.take(n as int),
                    wake_of(w.id, w.wake),
                )
            }
        }),
    decreases n,
{
    if n > 0 {
        lemma_schedule_wakes_counts(s, asked, (n - 1) as nat, w);
        let mid = s.schedule_wakes(asked, (n - 1) as nat);
        let (node_id, t) = asked[n - 1];
        lemma_schedule_counts(mid, t, EventKind::Wake { node_id }, w);
        assert(asked.take(n as int) =~= asked.take(n - 1).push(asked[n - 1]));
        lemma_count_push(asked.take(n - 1), asked[n - 1], wake_of(w.id, w.wake));
    } else {
        assert(asked.take(0) =~= Seq::empty());
    }
}

/// With identifiers that are all different, all nodes but one hear what one of them sends.
pub proof fn lemma_one_does_not_hear(ids: Seq<NodeId>, sender: NodeId, n: nat)
    requires
        n <= ids.len(),
        ids.no_duplicates(),
    ensures
        listeners(ids, sender, n).len() == n - if ids.take(n as int).contains(sender) {
            1int
        } else {
            0
        },
    decreases n,
{
    if n > 0 {
        lemma_one_does_not_hear(ids, sender, (n - 1) as nat);
        let more = ids.take(n as int);
        let fewer = ids.take(n - 1);
        if ids[n - 1] == sender {
            assert(more[n - 1] == sender);
            if fewer.contains(sender) {
                let i = choose|i: int| 0 <= i < fewer.len() && fewer[i] == sender;
                assert(ids[i] == ids[n - 1]);
            }
        } else if more.contains(sender) {
            let i = choose|i: int| 0 <= i < more.len() && more[i] == sender;
            assert(fewer[i] == sender);
        } else if fewer.contains(sender) {
            let i = choose|i: int| 0 <= i < fewer.len() && fewer[i] == sender;
            assert(more[i] == sender);
        }
    }
}

/// As in `settles`, but `settled` more transmissions are delivered, all sent by nodes if `known`.
spec fn delivers(s: Sim, later: Sim, settled: nat, known: bool, w: Watch) -> bool {
    &&& later.ids == s.ids
    &&& later.interferers == s.interferers
    &&& s.halted ==> later.halted
    &&& s.channel.completed.len() == 0 ==> later.channel.completed.len() == 0
    &&& !later.halted ==> {
        &&& 0 <= w.interferer < s.interferers ==> later.open_starts(w) == s.open_starts(w)
            && later.open_ends(w) == s.open_ends(w)
        &&& s.ids.index_of_first(w.id) == Some(w.node) ==> later.open_wakes(w) == s.open_wakes(w)
        &&& known && s.only_nodes_send() ==> later.only_nodes_send() && later.excess_receptions()
            == s.excess_receptions() + settled * (s.ids.len() - 1)
    }
}

proof fn lemma_deliver_settles(s: Sim, script: Seq<Call>, outcome: Outcome, time: SimTime, w: Watch)
    ensures
        delivers(s, s.deliver(script, outcome, time), 1, s.ids.contains(outcome.sender), w),
{
    let later = s.deliver(script, outcome, time);
    let others = s.ids.len() - 1;
    if !s.halted {
        if outcome.collided {
            let lost = s.metrics.total_collisions + s.channel.active.len()
                + s.channel.completed.len() - s.metrics.total_tx;
            assert((lost + 1) * others == lost * others + others) by (nonlinear_arith);
        } else {
            let counted = if outcome.captured {
                s.count_capture()
            } else {
                s
            };
            if !counted.halted {
                let n = s.ids.len();
                let (heard, asked) = counted.hand_out(
                    script,
                    outcome.sender,
                    outcome.frame,
                    time,
                    n,
                );
                let woken = heard.schedule_wakes(asked, asked.len());
                lemma_hand_out_counts(counted, script, outcome.sender, outcome.frame, time, n, w);
                lemma_schedule_wakes_counts(heard, asked, asked.len(), w);
                assert(asked.take(asked.len() as int) =~= asked);
                lemma_poll_others_settles(woken, script, outcome.sender, time, n, w);
                if s.only_nodes_send() && s.ids.contains(outcome.sender) {
                    lemma_one_does_not_hear(s.ids, outcome.sender, n);
                    assert(s.ids.take(n as int) =~= s.ids);
                    assert(woken.only_nodes_send());
                }
            }
        }
    }
}

/// Each of `outcomes` is that of a node's transmission.
spec fn sent_by_nodes(ids: Seq<NodeId>, outcomes: Seq<Outcome>) -> bool {
    forall|i: int| 0 <= i < outcomes.len() ==> ids.contains((#[trigger] outcomes[i]).sender)
}

proof fn lemma_deliver_all_settles(
    s: Sim,
    script: Seq<Call>,
    outcomes: Seq<Outcome>,
    time: SimTime,
    n: nat,
    w: Watch,
)
    requires
        n <= outcomes.len(),
    ensures
        delivers(
            s,
            s.deliver_all(script, outcomes, time, n),
            n,
            sent_by_nodes(s.ids, outcomes),
            w,
        ),
    decreases n,
{
    let others = s.ids.len() - 1;
    if n > 0 {
        lemma_deliver_all_settles(s, script, outcomes, time, (n - 1) as nat, w);
        let mid = s.deliver_all(script, outcomes, time, (n - 1) as nat);
        let later = mid.deliver(script, outcomes[n - 1], time);
        lemma_deliver_settles(mid, script, outcomes[n - 1], time, w);
        assert(n * others == (n - 1) * others + others) by (nonlinear_arith);
    } else {
        assert(0 * others == 0);
    }
}

proof fn lemma_deliver_completed_settles(s: Sim, script: Seq<Call>, time: SimTime, w: Watch)
    ensures
        s.settles(s.deliver_completed(script, time), w),
        s.settles_ends(s.deliver_completed(script, time), w),
        s.deliver_completed(script, time).channel.completed.len() == 0,
{
    let outcomes = s.channel.outcomes();
    let others = s.ids.len() - 1;
    let drained = Sim { channel: s.channel.drained(), ..s };
    let k = outcomes.len();
    let rest = s.metrics.total_collisions + s.channel.active.len() - s.metrics.total_tx;
    lemma_deliver_all_settles(drained, script, outcomes, time, k, w);
    assert((rest + k) * others == rest * others + k * others) by (nonlinear_arith);
    if s.only_nodes_send() {
        assert forall|i: int| 0 <= i < outcomes.len() implies s.ids.contains(
            (#[trigger] outcomes[i]).sender,
        ) by {
            assert(outcomes[i].sender == s.channel.completed[i].sender);
        }
        assert(drained.only_nodes_send());
    }
}

/// The event announces the end at `end` of a transmission by `sender`.
spec fn announces_end(sender: NodeId, end: SimTime) -> spec_fn(ChannelEvent) -> bool {
    |e: ChannelEvent|
        e matches ChannelEvent::TransmissionCompleted { sender: s, time: t, .. } && s == sender && t
            == end
}

/// Each of `events` announces an end at `time`.
spec fn all_end_at(events: Seq<ChannelEvent>, time: SimTime) -> bool {
    forall|i: int|
        0 <= i < events.len() ==> (#[trigger] events[i] matches
            ChannelEvent::TransmissionCompleted { time: t, .. } && t == time)
}

proof fn lemma_announce_all_counts(
    s: Sim,
    events: Seq<ChannelEvent>,
    time: SimTime,
    n: nat,
    w: Watch,
)
    requires
        n <= events.len(),
        forall|i: int| 0 <= i < events.len() ==> #[trigger] events[i] is TransmissionCompleted,
    ensures
        ({
            let later = s.announce_all(events, time, n);
            &&& later == (Sim { log: later.log, ..s })
            &&& later.open_wakes(w) == s.open_wakes(w)
            &&& 0 <= w.interferer < s.interferers ==> later.open_starts(w) == s.open_starts(w)
            &&& 0 <= w.interferer < s.interferers && all_end_at(events, time) ==> later.open_ends(w)
                == s.open_ends(w) - count(events.take(n as int), announces_end(w.sender, w.end))
        }),
    decreases n,
{
    if n > 0 {
        lemma_announce_all_counts(s, events, time, (n - 1) as nat, w);
        let mid = s.announce_all(events, time, (n - 1) as nat);
        assert(events[n - 1] is TransmissionCompleted);
        lemma_announce_counts(mid, events[n - 1], time, w);
        assert(events.take(n as int) =~= events.take(n - 1).push(events[n - 1]));
        lemma_count_push(events.take(n - 1), events[n - 1], announces_end(w.sender, w.end));
    } else {
        assert(events.take(0) =~= Seq::empty());
    }
}

/// Every transmission on the air that has ended by `time` ends at `time`.
pub open spec fn none_overdue(s: Sim, time: SimTime) -> bool {
    forall|i: int|
        0 <= i < s.channel.active.len() && (#[trigger] s.channel.active[i]).end <= time
            ==> s.channel.active[i].end == time
}

proof fn lemma_complete_settles(s: Sim, script: Seq<Call>, time: SimTime, w: Watch)
    ensures
        s.settles(s.complete(script, time), w),
        none_overdue(s, time) ==> s.settles_ends(s.complete(script, time), w),
{
    let events = s.channel.completions(time);
    let ended = s.channel.ended(time);
    let live = |t: OnAir| t.end > time;
    let done = |t: OnAir| t.end <= time;
    let resolved = Sim { channel: s.channel.resolve(time), ..s };
    let announced = resolved.announce_all(events, time, events.len());
    let p = ends_at(w.sender, w.end);
    broadcast use vstd::seq_lib::group_filter_ensures;

    assert(ended == s.channel.active.filter(done));
    assert(resolved.channel.active == s.channel.active.filter(live));
    lemma_count_halves(s.channel.active, live, done, p);
    lemma_count_alike(ended, p, events, announces_end(w.sender, w.end));
    assert forall|i: int| 0 <= i < events.len() implies #[trigger] events[i] is
        TransmissionCompleted by {
        assert(events[i] == ended[i].completion());
    }
    if none_overdue(s, time) {
        assert forall|i: int| 0 <= i < events.len() implies (#[trigger] events[i] matches
            ChannelEvent::TransmissionCompleted { time: t, .. } && t == time) by {
            assert(events[i] == ended[i].completion());
            assert(s.channel.active.filter(done).contains(ended[i]));
            s.channel.active.lemma_filter_contains_rev(done, ended[i]);
            let k = choose|k: int|
                0 <= k < s.channel.active.len() && s.channel.active[k] == ended[i];
            assert(done(s.channel.active.filter(done)[i]));
            assert(s.channel.active[k].end <= time);
        }
        assert(all_end_at(events, time));
    }
    lemma_announce_all_counts(resolved, events, time, events.len(), w);
    assert(events.take(events.len() as int) =~= events);
    lemma_deliver_completed_settles(announced, script, time, w);
    if s.only_nodes_send() {
        assert forall|i: int| 0 <= i < resolved.channel.active.len() implies s.ids.contains(
            (#[trigger] resolved.channel.active[i]).sender,
        ) by {
            let a = resolved.channel.active[i];
            assert(s.channel.active.filter(live).contains(a));
            s.channel.active.lemma_filter_contains_rev(live, a);
            let k = choose|k: int| 0 <= k < s.channel.active.len() && s.channel.active[k] == a;
            assert(s.ids.contains(s.channel.active[k].sender));
        }
        assert forall|i: int| 0 <= i < resolved.channel.completed.len() implies s.ids.contains(
            (#[trigger] resolved.channel.completed[i]).sender,
        ) by {
            let a = resolved.channel.completed[i];
            if i >= s.channel.completed.len() {
                assert(a == ended[i - s.channel.completed.len()]);
                assert(s.channel.active.filter(done).contains(a));
                s.channel.active.lemma_filter_contains_rev(done, a);
                let k = choose|k: int| 0 <= k < s.channel.active.len() && s.channel.active[k] == a;
                assert(s.ids.contains(s.channel.active[k].sender));
            } else {
                assert(s.ids.contains(s.channel.completed[i].sender));
            }
        }
        assert(announced.only_nodes_send());
        assert(announced.excess_receptions() == s.excess_receptions());
    }
}

/// A wake-up that fires turns into an update.
proof fn lemma_wake_settles(s: Sim, script: Seq<Call>, node_id: NodeId, time: SimTime, w: Watch)
    requires
        !s.halted,
    ensures
        ({
            let later = s.wake(script, node_id, time);
            &&& later.ids == s.ids
            &&& later.interferers == s.interferers
            &&& s.channel.completed.len() == 0 ==> later.channel.completed.len() == 0
            &&& !later.halted ==> {
                &&& 0 <= w.interferer < s.interferers ==> later.open_starts(w) == s.open_starts(w)
                    && later.open_ends(w) == s.open_ends(w)
                &&& s.ids.index_of_first(w.id) == Some(w.node) ==> later.open_wakes(w)
                    == s.open_wakes(w) + if node_id == w.id && time == w.wake {
                    1int
                } else {
                    0
                }
                &&& s.only_nodes_send() ==> later.only_nodes_send() && later.excess_receptions()
                    == s.excess_receptions()
            }
        }),
{
    s.ids.index_of_first_ensures(node_id);
    s.ids.index_of_first_ensures(w.id);
    match s.ids.index_of_first(node_id) {
        Some(node) => {
            let wake = s.next_time(script);
            let c = Call::Update { node, time, wake };
            let asked = s.call(c);
            let scheduled = asked.schedule_if(wake, EventKind::Wake { node_id });
            lemma_call_counts(s, c, w);
            match wake {
                Some(t) => {
                    lemma_schedule_counts(asked, t, EventKind::Wake { node_id }, w);
                },
                None => {},
            }
            assert(s.only_nodes_send() ==> asked.only_nodes_send());
            assert(asked.excess_receptions() == s.excess_receptions());
            lemma_poll_settles(scheduled, script, node, time, w);
        },
        None => {},
    }
}

proof fn lemma_interfere_settles(s: Sim, script: Seq<Call>, idx: usize, time: SimTime, w: Watch)
    requires
        !s.halted,
        idx < s.interferers,
    ensures
        s.settles(s.interfere(script, idx, time), w),
        s.settles_ends(s.interfere(script, idx, time), w),
{
    let tx = s.next_tx(script);
    let c = Call::PollInject { interferer: idx as int, time, tx };
    let asked = s.call(c);
    let sender = interferer_id(idx as int);
    let injected = match tx {
        Some(tx) => asked.transmit(sender, tx, time, false),
        None => asked,
    };
    match tx {
        Some(tx) => {
            lemma_transmit_settles(s, c, sender, tx, false, w);
        },
        None => {
            lemma_unremarkable_settles(s, c, w);
        },
    }
    if !injected.halted {
        let next = injected.next_time(script);
        let d = Call::NextPollTime { interferer: idx as int, time, next };
        let asked_again = injected.call(d);
        lemma_unremarkable_settles(injected, d, w);
        match next {
            Some(t) => {
                lemma_schedule_counts(
                    asked_again,
                    t,
                    EventKind::InterferencePoll { interferer_idx: idx },
                    w,
                );
            },
            None => {},
        }
    }
}

pub proof fn lemma_step_settles(s: Sim, script: Seq<Call>, w: Watch)
    requires
        s.wf(),
    ensures
        s.settles(s.step(script), w),
        s.covered(-1) ==> s.settles_ends(s.step(script), w),
{
    if !s.idle() {
        let base = s.about_to_fire();
        let event = s.queue[0];
        let time = event.time;
        lemma_count_first(s.queue, wakes(w.id, w.wake));
        assert(s.only_nodes_send() ==> base.only_nodes_send());
        assert(base.excess_receptions() == s.excess_receptions());
        assert(s.can_schedule(event.kind));
        match event.kind {
            EventKind::Wake { node_id } => {
                lemma_wake_settles(base, script, node_id, time, w);
            },
            EventKind::TxComplete { sender } => {
                if s.covered(-1) {
                    crate::trace_laws::lemma_none_overdue(s);
                }
                lemma_complete_settles(base, script, time, w);
            },
            EventKind::InterferencePoll { interferer_idx } => {
                lemma_interfere_settles(base, script, interferer_idx, time, w);
            },
        }
    }
}

pub proof fn lemma_after_settles(start: Sim, script: Seq<Call>, n: nat, w: Watch)
    requires
        start.wf(),
    ensures
        start.settles(start.after(script, n), w),
        start.covered(-1) ==> start.settles_ends(start.after(script, n), w),
    decreases n,
{
    if n > 0 {
        lemma_after_settles(start, script, (n - 1) as nat, w);
        crate::simulation_laws::lemma_after_keeps_wf(start, script, (n - 1) as nat);
        if start.covered(-1) {
            crate::simulation_laws::lemma_after_stays_covered(start, script, (n - 1) as nat);
        }
        lemma_step_settles(start.after(script, (n - 1) as nat), script, w);
    }
}

} // verus!
