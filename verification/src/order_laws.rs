//! In which order calls are made: what each call in the log follows from, and what follows it.
use crate::census::started_by;
use crate::channel::Outcome;
use crate::delivery_laws::{listeners, polled_nodes};
use crate::scheduler::EventKind;
use crate::simulation::{begins, interferer_id, Call, Sim};
use crate::time::SimTime;
use crate::types::{Burst, ChannelEvent, Frame, NodeId};
use vstd::prelude::*;

verus! {

/// The transmission that call `j` was answered with, if any, is shown at once to each of the `k`
/// interferers in turn, before `to`.
pub open spec fn shows_start(log: Seq<Call>, ids: Seq<NodeId>, k: nat, to: int, j: int) -> bool {
    log[j].tx_answer() is Some ==> j + k < to && forall|i: int|
        0 <= i < k ==> #[trigger] log[j + 1 + i] == (Call::Observe {
            interferer: i,
            event: started_by(log[j], ids),
            time: log[j].time(),
        })
}

/// Call `j` shows `event` to `interferer` as part of showing the start of a transmission that was
/// asked for no earlier than `from`.
pub open spec fn is_shown_start(
    log: Seq<Call>,
    ids: Seq<NodeId>,
    from: int,
    j: int,
    interferer: int,
    event: ChannelEvent,
) -> bool {
    let asked = j - 1 - interferer;
    from <= asked && log[asked].tx_answer() is Some && event == started_by(log[asked], ids)
}

/// Call `j` is part of asking nodes for transmissions at `time`, from `b` up to `c`: it asks one,
/// and what that one sends is shown at once; or it shows what one sends.
pub open spec fn is_reply(
    log: Seq<Call>,
    ids: Seq<NodeId>,
    k: nat,
    b: int,
    c: int,
    time: SimTime,
    j: int,
) -> bool {
    match log[j] {
        Call::PollTransmit { time: t, .. } => t == time && shows_start(log, ids, k, c, j),
        Call::Observe { interferer, event, time: t } => t == time && 0 <= interferer < k
            && is_shown_start(log, ids, b, j, interferer, event),
        _ => false,
    }
}

/// From `a` up to `b` one frame of `sender` is heard by every node with another identifier, once
/// each and in the order of registration; from `b` up to `c` the same nodes, and no others, are
/// asked for a transmission, once each, in the same order and at the same time.
pub open spec fn is_broadcast(
    log: Seq<Call>,
    ids: Seq<NodeId>,
    k: nat,
    a: int,
    b: int,
    c: int,
    sender: NodeId,
    frame: Frame,
    time: SimTime,
) -> bool {
    &&& 0 <= a <= b <= c <= log.len()
    &&& forall|j: int|
        a <= j < b ==> (#[trigger] log[j] matches Call::OnReceive { node, frame: f, time: t, .. }
            && 0 <= node < ids.len() && ids[node] != sender && f == frame && t == time)
    &&& forall|i: int, j: int|
        a <= i < j < b ==> (#[trigger] log[i])->OnReceive_node < (
        #[trigger] log[j])->OnReceive_node
    &&& forall|n: int|
        0 <= n < ids.len() && #[trigger] ids[n] != sender ==> exists|j: int|
            a <= j < b && (#[trigger] log[j])->OnReceive_node == n
    &&& forall|j: int| b <= j < c ==> #[trigger] is_reply(log, ids, k, b, c, time, j)
    &&& polled_nodes(log.subrange(b, c)) == Seq::new(
        (b - a) as nat,
        |i: int| log[a + i]->OnReceive_node,
    )
}

/// Call `j` is part of a broadcast that lies between `from` and `to`.
pub open spec fn in_broadcast(
    log: Seq<Call>,
    ids: Seq<NodeId>,
    k: nat,
    from: int,
    to: int,
    j: int,
) -> bool {
    exists|a: int, b: int, c: int, sender: NodeId, frame: Frame|
        from <= a <= j < c <= to && #[trigger] is_broadcast(
            log,
            ids,
            k,
            a,
            b,
            c,
            sender,
            frame,
            log[j].time(),
        )
}

/// Call `j` stands where it should, as far as the calls between `from` and `to` tell:
/// - an update is followed at once by asking the same node for a transmission;
/// - a node is asked for a transmission right after its update or as part of a broadcast, and
///   hears a frame as part of a broadcast;
/// - what a node or an interferer sends is shown at once to all interferers in turn;
/// - an interferer that is polled is asked for its next poll as soon as what it sends is shown;
/// - an interferer is shown a start as part of showing it to all, right after the transmission
///   was handed over, and an end as part of showing it to all.
pub open spec fn in_place(
    log: Seq<Call>,
    ids: Seq<NodeId>,
    k: nat,
    from: int,
    to: int,
    j: int,
) -> bool {
    match log[j] {
        Call::Update { node, time, .. } => j + 1 < to && (log[j + 1] matches Call::PollTransmit {
            node: n,
            time: t,
            ..
        } && n == node && t == time),
        Call::OnReceive { .. } => in_broadcast(log, ids, k, from, to, j),
        Call::PollTransmit { node, time, .. } => shows_start(log, ids, k, to, j) && ((from <= j - 1
            && (log[j - 1] matches Call::Update { node: n, time: t, .. } && n == node && t == time))
            || in_broadcast(log, ids, k, from, to, j)),
        Call::PollInject { interferer, time, tx } => {
            let next = j + 1 + if tx is Some {
                k as int
            } else {
                0
            };
            shows_start(log, ids, k, to, j) && next < to && (log[next] matches
                Call::NextPollTime { interferer: i, time: t, .. } && i == interferer && t == time)
        },
        Call::NextPollTime { interferer, time, .. } => {
            let plain = j - 1;
            let sent = j - 1 - k;
            (from <= plain && (log[plain] matches Call::PollInject {
                interferer: i,
                time: t,
                tx: None,
            } && i == interferer && t == time)) || (from <= sent && (log[sent] matches
                Call::PollInject { interferer: i, time: t, tx: Some(_) } && i == interferer && t
                == time))
        },
        Call::Observe { interferer, event, time } => 0 <= interferer < k && match event {
            ChannelEvent::TransmissionStarted { .. } => is_shown_start(
                log,
                ids,
                from,
                j,
                interferer,
                event,
            ),
            ChannelEvent::TransmissionCompleted { .. } => from <= j - interferer && j - interferer
                + k <= to && forall|i: int|
                0 <= i < k ==> #[trigger] log[j - interferer + i] == (Call::Observe {
                    interferer: i,
                    event,
                    time,
                }),
        },
    }
}

/// Every call from `from` up to `to` stands where it should.
pub open spec fn orderly(log: Seq<Call>, ids: Seq<NodeId>, k: nat, from: int, to: int) -> bool {
    forall|j: int| from <= j < to ==> #[trigger] in_place(log, ids, k, from, to, j)
}

proof fn lemma_broadcast_stays(
    log: Seq<Call>,
    more: Seq<Call>,
    ids: Seq<NodeId>,
    k: nat,
    a: int,
    b: int,
    c: int,
    sender: NodeId,
    frame: Frame,
    time: SimTime,
)
    requires
        begins(log, more),
        is_broadcast(log, ids, k, a, b, c, sender, frame, time),
    ensures
        is_broadcast(more, ids, k, a, b, c, sender, frame, time),
{
    assert(more.subrange(b, c) =~= log.subrange(b, c));
    assert(Seq::new((b - a) as nat, |i: int| more[a + i]->OnReceive_node) =~= Seq::new(
        (b - a) as nat,
        |i: int| log[a + i]->OnReceive_node,
    ));
    assert forall|j: int| b <= j < c implies #[trigger] is_reply(more, ids, k, b, c, time, j) by {
        assert(is_reply(log, ids, k, b, c, time, j));
        assert(more[j] == log[j]);
        if let Call::PollTransmit { .. } = log[j] {
            assert forall|i: int| 0 <= i < k && log[j].tx_answer() is Some implies #[trigger] more[j
                + 1 + i] == (Call::Observe {
                interferer: i,
                event: started_by(log[j], ids),
                time: log[j].time(),
            }) by {
                assert(log[j + 1 + i] == more[j + 1 + i]);
            }
        }
        if let Call::Observe { interferer, .. } = log[j] {
            assert(more[j - 1 - interferer] == log[j - 1 - interferer]);
        }
    }
    assert forall|n: int| 0 <= n < ids.len() && #[trigger] ids[n] != sender implies exists|j: int|
        a <= j < b && (#[trigger] more[j])->OnReceive_node == n by {
        let j = choose|j: int| a <= j < b && (#[trigger] log[j])->OnReceive_node == n;
        assert(more[j] == log[j]);
    }
    assert forall|i: int, j: int| a <= i < j < b implies (#[trigger] more[i])->OnReceive_node < (
    #[trigger] more[j])->OnReceive_node by {
        assert(log[i]->OnReceive_node < log[j]->OnReceive_node);
    }
}

/// More calls, before and after, leave every call in its place.
proof fn lemma_in_place_stays(
    log: Seq<Call>,
    more: Seq<Call>,
    ids: Seq<NodeId>,
    k: nat,
    from: int,
    to: int,
    j: int,
    earlier: int,
    later: int,
)
    requires
        begins(log, more),
        0 <= earlier <= from <= j < to <= later,
        to <= log.len(),
        in_place(log, ids, k, from, to, j),
    ensures
        in_place(more, ids, k, earlier, later, j),
{
    assert(more[j] == log[j]);
    if in_broadcast(log, ids, k, from, to, j) {
        let (a, b, c, sender, frame) = choose|a: int, b: int, c: int, sender: NodeId, frame: Frame|
            from <= a <= j < c <= to && #[trigger] is_broadcast(
                log,
                ids,
                k,
                a,
                b,
                c,
                sender,
                frame,
                log[j].time(),
            );
        lemma_broadcast_stays(log, more, ids, k, a, b, c, sender, frame, log[j].time());
    }
    assert(shows_start(log, ids, k, to, j) ==> shows_start(more, ids, k, later, j)) by {
        if shows_start(log, ids, k, to, j) && log[j].tx_answer() is Some {
            assert forall|i: int| 0 <= i < k implies #[trigger] more[j + 1 + i] == (Call::Observe {
                interferer: i,
                event: started_by(log[j], ids),
                time: log[j].time(),
            }) by {
                assert(log[j + 1 + i] == more[j + 1 + i]);
            }
        }
    }
    match log[j] {
        Call::Update { .. } => {
            assert(more[j + 1] == log[j + 1]);
        },
        Call::Observe { interferer, event, time } => {
            match event {
                ChannelEvent::TransmissionStarted { .. } => {
                    assert(more[j - 1 - interferer] == log[j - 1 - interferer]);
                },
                ChannelEvent::TransmissionCompleted { .. } => {
                    assert forall|i: int| 0 <= i < k implies #[trigger] more[j - interferer + i]
                        == (Call::Observe { interferer: i, event, time }) by {
                        assert(log[j - interferer + i] == more[j - interferer + i]);
                    }
                },
            }
        },
        _ => {},
    }
}

impl Sim {
    /// Unless `later` has halted, every call that it has logged since `self` stands where it
    /// should.
    spec fn goes_on_orderly(self, later: Sim) -> bool {
        &&& begins(self.log, later.log)
        &&& later.ids == self.ids
        &&& later.interferers == self.interferers
        &&& self.halted ==> later.halted
        &&& !later.halted ==> orderly(
            later.log,
            self.ids,
            self.interferers,
            self.log.len() as int,
            later.log.len() as int,
        )
    }
}

proof fn lemma_orderly_chains(a: Sim, b: Sim, c: Sim)
    requires
        a.goes_on_orderly(b),
        b.goes_on_orderly(c),
    ensures
        a.goes_on_orderly(c),
{
    assert forall|i: int| 0 <= i < a.log.len() implies #[trigger] c.log[i] == a.log[i] by {
        assert(c.log[i] == b.log[i]);
    }
    if !c.halted {
        let from = a.log.len() as int;
        let to = c.log.len() as int;
        let mid = b.log.len() as int;
        assert forall|j: int| from <= j < to implies #[trigger] in_place(
            c.log,
            a.ids,
            a.interferers,
            from,
            to,
            j,
        ) by {
            if j < mid {
                assert(in_place(b.log, a.ids, a.interferers, from, mid, j));
                lemma_in_place_stays(b.log, c.log, a.ids, a.interferers, from, mid, j, from, to);
            } else {
                assert(in_place(c.log, a.ids, a.interferers, mid, to, j));
                lemma_in_place_stays(c.log, c.log, a.ids, a.interferers, mid, to, j, from, to);
            }
        }
    }
}

/// An operation that makes no call.
proof fn lemma_silent_is_orderly(a: Sim, b: Sim)
    requires
        b.log == a.log,
        b.ids == a.ids,
        b.interferers == a.interferers,
        a.halted ==> b.halted,
    ensures
        a.goes_on_orderly(b),
{
}

/// The start of a transmission, as it is shown to all interferers.
spec fn shown(k: nat, event: ChannelEvent, time: SimTime) -> Seq<Call> {
    Seq::new(k, |i: int| Call::Observe { interferer: i, event, time })
}

/// What a call that may be answered with a transmission adds to the log.
spec fn sending(c: Call, ids: Seq<NodeId>, k: nat) -> Seq<Call> {
    if c.tx_answer() is Some {
        seq![c] + shown(k, started_by(c, ids), c.time())
    } else {
        seq![c]
    }
}

proof fn lemma_transmit_shape(s: Sim, c: Call, sender: NodeId, tx: Burst, by_node: bool)
    requires
        c.tx_answer() == Some(tx),
        c.sender(s.ids) == Some(sender),
        !s.call(c).transmit(sender, tx, c.time(), by_node).halted,
    ensures
        s.call(c).transmit(sender, tx, c.time(), by_node).log == s.log + sending(
            c,
            s.ids,
            s.interferers,
        ),
{
    let later = s.call(c).transmit(sender, tx, c.time(), by_node);
    assert(later.log =~= s.log + sending(c, s.ids, s.interferers));
}

proof fn lemma_poll_shape(s: Sim, script: Seq<Call>, node: int, time: SimTime)
    requires
        !s.poll(script, node, time).halted,
    ensures
        s.poll(script, node, time).log == s.log + sending(
            Call::PollTransmit { node, time, tx: s.next_tx(script) },
            s.ids,
            s.interferers,
        ),
        s.poll(script, node, time).ids == s.ids,
        s.poll(script, node, time).interferers == s.interferers,
        !s.halted,
{
    let tx = s.next_tx(script);
    let c = Call::PollTransmit { node, time, tx };
    match tx {
        Some(tx) => {
            lemma_transmit_shape(s, c, s.ids[node], tx, true);
        },
        None => {
            assert(s.log.push(c) =~= s.log + seq![c]);
        },
    }
}

/// The calls that a sending adds are a reply.
proof fn lemma_sending_is_reply(
    log: Seq<Call>,
    c: Call,
    ids: Seq<NodeId>,
    k: nat,
    b: int,
    j: int,
)
    requires
        c is PollTransmit,
        0 <= b <= log.len(),
        log.len() <= j < (log + sending(c, ids, k)).len(),
    ensures
        ({
            let more = log + sending(c, ids, k);
            is_reply(more, ids, k, b, more.len() as int, c.time(), j)
        }),
{
    let more = log + sending(c, ids, k);
    let n = log.len() as int;
    assert(more[n] == c);
    if j > n {
        assert(more[j] == shown(k, started_by(c, ids), c.time())[j - n - 1]);
    } else if c.tx_answer() is Some {
        assert forall|i: int| 0 <= i < k implies #[trigger] more[j + 1 + i] == (Call::Observe {
            interferer: i,
            event: started_by(c, ids),
            time: c.time(),
        }) by {
            assert(more[j + 1 + i] == shown(k, started_by(c, ids), c.time())[i]);
        }
    }
}

proof fn lemma_polled_concat(x: Seq<Call>, y: Seq<Call>)
    ensures
        polled_nodes(x + y) == polled_nodes(x) + polled_nodes(y),
    decreases y.len(),
{
    if y.len() == 0 {
        assert(x + y =~= x);
        assert(polled_nodes(x) + polled_nodes(y) =~= polled_nodes(x));
    } else {
        lemma_polled_concat(x, y.drop_last());
        assert((x + y).drop_last() =~= x + y.drop_last());
        assert((x + y).last() == y.last());
        assert(polled_nodes(x + y) =~= polled_nodes(x) + polled_nodes(y));
    }
}

/// Asking the listeners for transmissions adds replies, and asks each of them once.
proof fn lemma_poll_others_shape(
    s: Sim,
    script: Seq<Call>,
    sender: NodeId,
    time: SimTime,
    n: nat,
)
    requires
        n <= s.ids.len(),
        !s.poll_others(script, sender, time, n).halted,
    ensures
        ({
            let later = s.poll_others(script, sender, time, n);
            let b = s.log.len() as int;
            let c = later.log.len() as int;
            &&& begins(s.log, later.log)
            &&& later.ids == s.ids
            &&& later.interferers == s.interferers
            &&& forall|j: int|
                b <= j < c ==> #[trigger] is_reply(
                    later.log,
                    s.ids,
                    s.interferers,
                    b,
                    c,
                    time,
                    j,
                )
            &&& polled_nodes(later.log.subrange(b, c)) == listeners(s.ids, sender, n)
        }),
    decreases n,
{
    let later = s.poll_others(script, sender, time, n);
    let b = s.log.len() as int;
    let c = later.log.len() as int;
    crate::growth::lemma_poll_others_grows(s, script, sender, time, n);
    crate::delivery_laws::law_listeners_are_polled_in_order(s, script, sender, time, n);
    assert(later.log =~= s.log + later.log.subrange(b, c));
    lemma_polled_concat(s.log, later.log.subrange(b, c));
    assert(polled_nodes(later.log.subrange(b, c)) =~= listeners(s.ids, sender, n)) by {
        let p = polled_nodes(s.log);
        let q = polled_nodes(later.log.subrange(b, c));
        let r = listeners(s.ids, sender, n);
        assert(p + q == p + r);
        assert(q =~= (p + q).skip(p.len() as int));
        assert(r =~= (p + r).skip(p.len() as int));
    }
    if n > 0 {
        let mid = s.poll_others(script, sender, time, (n - 1) as nat);
        crate::growth::lemma_poll_others_grows(s, script, sender, time, (n - 1) as nat);
        if s.ids[n - 1] == sender {
            lemma_poll_others_shape(s, script, sender, time, (n - 1) as nat);
        } else {
            crate::growth::lemma_poll_grows(mid, script, n - 1, time);
            lemma_poll_others_shape(s, script, sender, time, (n - 1) as nat);
            lemma_poll_shape(mid, script, n - 1, time);
            let m = mid.log.len() as int;
            let call = Call::PollTransmit { node: n - 1, time, tx: mid.next_tx(script) };
            assert forall|j: int| b <= j < c implies #[trigger] is_reply(
                later.log,
                s.ids,
                s.interferers,
                b,
                c,
                time,
                j,
            ) by {
                if j >= m {
                    lemma_sending_is_reply(mid.log, call, s.ids, s.interferers, b, j);
                } else {
                    assert(is_reply(mid.log, s.ids, s.interferers, b, m, time, j));
                    assert(later.log[j] == mid.log[j]);
                    if let Call::PollTransmit { .. } = mid.log[j] {
                        assert forall|i: int|
                            0 <= i < s.interferers
                                && mid.log[j].tx_answer() is Some implies #[trigger] later.log[j + 1
                            + i] == (Call::Observe {
                            interferer: i,
                            event: started_by(mid.log[j], s.ids),
                            time: mid.log[j].time(),
                        }) by {
                            assert(mid.log[j + 1 + i] == later.log[j + 1 + i]);
                        }
                    }
                    if let Call::Observe { interferer, .. } = mid.log[j] {
                        assert(later.log[j - 1 - interferer] == mid.log[j - 1 - interferer]);
                    }
                }
            }
        }
    }
}

proof fn lemma_broadcast_is_orderly(
    s: Sim,
    script: Seq<Call>,
    sender: NodeId,
    frame: Frame,
    time: SimTime,
)
    ensures
        s.goes_on_orderly(s.broadcast_frame(script, sender, frame, time)),
{
    let n = s.ids.len();
    let k = s.interferers;
    let later = s.broadcast_frame(script, sender, frame, time);
    crate::growth::lemma_broadcast_grows(s, script, sender, frame, time);
    if !later.halted {
        let (heard, wakes) = s.hand_out(script, sender, frame, time, n);
        let woken = heard.schedule_wakes(wakes, wakes.len());
        crate::rerun_laws::lemma_schedule_wakes_logs(heard, wakes, wakes.len());
        crate::growth::lemma_hand_out_grows(s, script, sender, frame, time, n);
        crate::growth::lemma_schedule_wakes_grows(heard, wakes, time, wakes.len());
        crate::growth::lemma_poll_others_grows(woken, script, sender, time, n);
        crate::delivery_laws::law_everyone_else_hears_once(s, script, sender, frame, time, n);
        crate::delivery_laws::law_sender_does_not_hear_itself(s.ids, sender, n);
        lemma_poll_others_shape(woken, script, sender, time, n);
        let hearing = listeners(s.ids, sender, n);
        let a = s.log.len() as int;
        let b = woken.log.len() as int;
        let c = later.log.len() as int;
        assert forall|j: int| a <= j < b implies (#[trigger] later.log[j] matches
            Call::OnReceive { node, frame: f, time: t, .. } && node == hearing[j - a] && f == frame
            && t == time) by {
            assert(later.log[j] == heard.log[j]);
            assert(heard.log[s.log.len() + (j - a)] == heard.log[j]);
        }
        assert(Seq::new((b - a) as nat, |i: int| later.log[a + i]->OnReceive_node) =~= hearing);
        assert forall|m: int| 0 <= m < s.ids.len() && #[trigger] s.ids[m] != sender implies exists|
            j: int,
        |
            a <= j < b && (#[trigger] later.log[j])->OnReceive_node == m by {
            assert(hearing.contains(m));
            let i = choose|i: int| 0 <= i < hearing.len() && hearing[i] == m;
            assert(later.log[a + i]->OnReceive_node == m);
        }
        assert(is_broadcast(later.log, s.ids, k, a, b, c, sender, frame, time));
        assert forall|j: int| a <= j < c implies #[trigger] in_place(
            later.log,
            s.ids,
            k,
            a,
            c,
            j,
        ) by {
            if j >= b {
                assert(is_reply(later.log, s.ids, k, b, c, time, j));
            }
            if !(later.log[j] is Observe) {
                assert(in_broadcast(later.log, s.ids, k, a, c, j));
            }
        }
    }
}

proof fn lemma_deliver_is_orderly(s: Sim, script: Seq<Call>, outcome: Outcome, time: SimTime)
    ensures
        s.goes_on_orderly(s.deliver(script, outcome, time)),
{
    let later = s.deliver(script, outcome, time);
    if s.halted || outcome.collided {
        lemma_silent_is_orderly(s, later);
    } else {
        let counted = if outcome.captured {
            s.count_capture()
        } else {
            s
        };
        lemma_silent_is_orderly(s, counted);
        if !counted.halted {
            lemma_broadcast_is_orderly(counted, script, outcome.sender, outcome.frame, time);
            lemma_orderly_chains(s, counted, later);
        }
    }
}

proof fn lemma_deliver_all_is_orderly(
    s: Sim,
    script: Seq<Call>,
    outcomes: Seq<Outcome>,
    time: SimTime,
    n: nat,
)
    ensures
        s.goes_on_orderly(s.deliver_all(script, outcomes, time, n)),
    decreases n,
{
    if n == 0 {
        lemma_silent_is_orderly(s, s);
    } else {
        lemma_deliver_all_is_orderly(s, script, outcomes, time, (n - 1) as nat);
        let mid = s.deliver_all(script, outcomes, time, (n - 1) as nat);
        lemma_deliver_is_orderly(mid, script, outcomes[n - 1], time);
        lemma_orderly_chains(s, mid, mid.deliver(script, outcomes[n - 1], time));
    }
}

proof fn lemma_announce_end_is_orderly(s: Sim, event: ChannelEvent, time: SimTime)
    requires
        event is TransmissionCompleted,
    ensures
        s.goes_on_orderly(s.announce(event, time)),
{
    let later = s.announce(event, time);
    let k = s.interferers;
    let from = s.log.len() as int;
    let to = later.log.len() as int;
    assert(later.log == s.log + shown(k, event, time));
    assert forall|j: int| from <= j < to implies #[trigger] in_place(
        later.log,
        s.ids,
        k,
        from,
        to,
        j,
    ) by {
        assert(later.log[j] == shown(k, event, time)[j - from]);
        assert forall|i: int| 0 <= i < k implies #[trigger] later.log[j - (j - from) + i] == (
        Call::Observe { interferer: i, event, time }) by {
            assert(later.log[from + i] == shown(k, event, time)[i]);
        }
    }
}

proof fn lemma_announce_all_is_orderly(s: Sim, events: Seq<ChannelEvent>, time: SimTime, n: nat)
    requires
        n <= events.len(),
        forall|i: int| 0 <= i < events.len() ==> #[trigger] events[i] is TransmissionCompleted,
    ensures
        s.goes_on_orderly(s.announce_all(events, time, n)),
    decreases n,
{
    if n == 0 {
        lemma_silent_is_orderly(s, s);
    } else {
        lemma_announce_all_is_orderly(s, events, time, (n - 1) as nat);
        let mid = s.announce_all(events, time, (n - 1) as nat);
        assert(events[n - 1] is TransmissionCompleted);
        lemma_announce_end_is_orderly(mid, events[n - 1], time);
        lemma_orderly_chains(s, mid, mid.announce(events[n - 1], time));
    }
}

proof fn lemma_complete_is_orderly(s: Sim, script: Seq<Call>, time: SimTime)
    ensures
        s.goes_on_orderly(s.complete(script, time)),
{
    let events = s.channel.completions(time);
    let resolved = Sim { channel: s.channel.resolve(time), ..s };
    let announced = resolved.announce_all(events, time, events.len());
    let outcomes = announced.channel.outcomes();
    let drained = Sim { channel: announced.channel.drained(), ..announced };
    let later = s.complete(script, time);
    lemma_silent_is_orderly(s, resolved);
    assert forall|i: int| 0 <= i < events.len() implies #[trigger] events[i] is
        TransmissionCompleted by {
        assert(events[i] == s.channel.ended(time)[i].completion());
    }
    lemma_announce_all_is_orderly(resolved, events, time, events.len());
    lemma_silent_is_orderly(announced, drained);
    lemma_deliver_all_is_orderly(drained, script, outcomes, time, outcomes.len());
    lemma_orderly_chains(s, resolved, announced);
    lemma_orderly_chains(s, announced, drained);
    lemma_orderly_chains(s, drained, later);
}

proof fn lemma_wake_is_orderly(s: Sim, script: Seq<Call>, node_id: NodeId, time: SimTime)
    requires
        !s.halted,
    ensures
        s.goes_on_orderly(s.wake(script, node_id, time)),
{
    let later = s.wake(script, node_id, time);
    crate::growth::lemma_wake_grows(s, script, node_id, time);
    if !later.halted {
        if let Some(node) = s.ids.index_of_first(node_id) {
            let k = s.interferers;
            let wake = s.next_time(script);
            let u = Call::Update { node, time, wake };
            let asked = s.call(u);
            let scheduled = asked.schedule_if(wake, EventKind::Wake { node_id });
            lemma_poll_shape(scheduled, script, node, time);
            let c = Call::PollTransmit { node, time, tx: scheduled.next_tx(script) };
            let from = s.log.len() as int;
            let to = later.log.len() as int;
            assert(scheduled.log == asked.log);
            assert(later.log == asked.log + sending(c, s.ids, k));
            assert(later.log[from] == u);
            assert(later.log[from + 1] == c);
            assert forall|j: int| from <= j < to implies #[trigger] in_place(
                later.log,
                s.ids,
                k,
                from,
                to,
                j,
            ) by {
                if j > from {
                    lemma_sending_is_reply(asked.log, c, s.ids, k, from + 1, j);
                    if j > from + 1 {
                        assert(later.log[j] == shown(k, started_by(c, s.ids), time)[j - from - 2]);
                    }
                }
            }
        } else {
            lemma_silent_is_orderly(s, later);
        }
    }
}

proof fn lemma_interfere_is_orderly(s: Sim, script: Seq<Call>, idx: usize, time: SimTime)
    requires
        !s.halted,
        idx < s.interferers,
    ensures
        s.goes_on_orderly(s.interfere(script, idx, time)),
{
    let later = s.interfere(script, idx, time);
    crate::growth::lemma_interfere_grows(s, script, idx, time);
    if !later.halted {
        let k = s.interferers;
        let tx = s.next_tx(script);
        let c = Call::PollInject { interferer: idx as int, time, tx };
        let asked = s.call(c);
        let sender = interferer_id(idx as int);
        let injected = match tx {
            Some(tx) => asked.transmit(sender, tx, time, false),
            None => asked,
        };
        match tx {
            Some(tx) => {
                lemma_transmit_shape(s, c, sender, tx, false);
            },
            None => {
                assert(s.log.push(c) =~= s.log + seq![c]);
            },
        }
        assert(injected.log == s.log + sending(c, s.ids, k));
        let next = injected.next_time(script);
        let d = Call::NextPollTime { interferer: idx as int, time, next };
        assert(later.log == injected.log.push(d));
        let from = s.log.len() as int;
        let to = later.log.len() as int;
        assert(later.log[from] == c);
        assert(later.log[to - 1] == d);
        assert forall|j: int| from <= j < to implies #[trigger] in_place(
            later.log,
            s.ids,
            k,
            from,
            to,
            j,
        ) by {
            if from < j < to - 1 {
                assert(later.log[j] == shown(k, started_by(c, s.ids), time)[j - from - 1]);
            }
            if j == from && tx is Some {
                assert forall|i: int| 0 <= i < k implies #[trigger] later.log[j + 1 + i] == (
                Call::Observe { interferer: i, event: started_by(c, s.ids), time }) by {
                    assert(later.log[j + 1 + i] == shown(k, started_by(c, s.ids), time)[i]);
                }
            }
        }
    }
}

proof fn lemma_step_is_orderly(s: Sim, script: Seq<Call>)
    requires
        s.wf(),
    ensures
        s.goes_on_orderly(s.step(script)),
{
    let later = s.step(script);
    if s.idle() {
        lemma_silent_is_orderly(s, later);
    } else {
        let base = s.about_to_fire();
        let event = s.queue[0];
        lemma_silent_is_orderly(s, base);
        assert(s.can_schedule(event.kind));
        match event.kind {
            EventKind::Wake { node_id } => {
                lemma_wake_is_orderly(base, script, node_id, event.time);
            },
            EventKind::TxComplete { sender } => {
                lemma_complete_is_orderly(base, script, event.time);
            },
            EventKind::InterferencePoll { interferer_idx } => {
                lemma_interfere_is_orderly(base, script, interferer_idx, event.time);
            },
        }
        lemma_orderly_chains(s, base, later);
    }
}

proof fn lemma_after_is_orderly(start: Sim, script: Seq<Call>, n: nat)
    requires
        start.wf(),
    ensures
        start.goes_on_orderly(start.after(script, n)),
    decreases n,
{
    if n == 0 {
        lemma_silent_is_orderly(start, start);
    } else {
        lemma_after_is_orderly(start, script, (n - 1) as nat);
        crate::simulation_laws::lemma_after_keeps_wf(start, script, (n - 1) as nat);
        let mid = start.after(script, (n - 1) as nat);
        lemma_step_is_orderly(mid, script);
        lemma_orderly_chains(start, mid, mid.step(script));
    }
}

/// In a finished run every call stands where it should. In particular the receptions of one frame
/// are followed, at the same time and before anything else happens, by asking exactly those who
/// heard it for a transmission, once each and in the order of registration.
pub proof fn law_calls_are_in_order(start: Sim, end: Sim)
    requires
        start.wf(),
        end.ends_run(start),
        !end.halted,
    ensures
        orderly(
            end.log,
            start.ids,
            start.interferers,
            start.log.len() as int,
            end.log.len() as int,
        ),
{
    let n = choose|n: nat| end.ends_run_after(start, n);
    assert(begins(end.log, end.log));
    lemma_after_is_orderly(start, end.log, n);
}

} // verus!
