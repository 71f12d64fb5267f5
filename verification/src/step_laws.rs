//! What each event does, in whatever state it finds the simulation.
use crate::census::{count, lemma_count_alike, lemma_count_concat, lemma_count_push};
use crate::channel::{ChannelConfig, OnAir, Outcome};
use crate::channel_laws::is_heard_as;
use crate::medium_laws::hears;
use crate::scheduler::EventKind;
use crate::simulation::{interferer_id, Call, Sim};
use crate::time::SimTime;
use crate::types::{Burst, ChannelEvent, Frame, NodeId};
use vstd::prelude::*;

verus! {

/// The transmission did not collide, is not `id`'s own, and is heard as `frame`.
pub open spec fn reaches(id: NodeId, config: ChannelConfig, frame: Frame) -> spec_fn(
    OnAir,
) -> bool {
    |t: OnAir| !t.collided && t.sender != id && is_heard_as(t, config, frame)
}

pub open spec fn collided() -> spec_fn(OnAir) -> bool {
    |t: OnAir| t.collided
}

/// The transmission got through in spite of another.
pub open spec fn got_through() -> spec_fn(OnAir) -> bool {
    |t: OnAir| !t.collided && t.captured
}

/// The transmission satisfies `p` and ends by `time`.
pub open spec fn ended_by(time: SimTime, p: spec_fn(OnAir) -> bool) -> spec_fn(OnAir) -> bool {
    |t: OnAir| p(t) && t.end <= time
}

/// Who is watched: `node` hearing `frame` at `time`.
struct Watched {
    node: int,
    frame: Frame,
    time: SimTime,
}

impl Sim {
    spec fn heard(self, w: Watched) -> int {
        count(self.log, hears(w.node, w.frame, w.time)) as int
    }

    /// Unless `later` has halted: since `self` the watched frame was heard `heard` times, `lost`
    /// collisions were counted and `captured` captures.
    spec fn tells(self, later: Sim, w: Watched, heard: int, lost: int, captured: int) -> bool {
        &&& later.ids == self.ids
        &&& later.interferers == self.interferers
        &&& self.halted ==> later.halted
        &&& !later.halted ==> {
            &&& later.heard(w) == self.heard(w) + heard
            &&& later.metrics.total_collisions == self.metrics.total_collisions + lost
            &&& later.metrics.total_captures == self.metrics.total_captures + captured
        }
    }
}

spec fn tally_if(b: bool) -> int {
    if b {
        1
    } else {
        0
    }
}

proof fn lemma_call_tells(s: Sim, c: Call, w: Watched)
    ensures
        s.tells(s.call(c), w, tally_if(hears(w.node, w.frame, w.time)(c)), 0, 0),
{
    lemma_count_push(s.log, c, hears(w.node, w.frame, w.time));
}

proof fn lemma_announce_tells(s: Sim, event: ChannelEvent, time: SimTime, w: Watched)
    ensures
        s.tells(s.announce(event, time), w, 0, 0, 0),
{
    let shown = Seq::new(s.interferers, |j: int| Call::Observe { interferer: j, event, time });
    lemma_count_concat(s.log, shown, hears(w.node, w.frame, w.time));
    crate::census::lemma_count_none(shown, hears(w.node, w.frame, w.time));
}

proof fn lemma_announce_all_tells(
    s: Sim,
    events: Seq<ChannelEvent>,
    time: SimTime,
    n: nat,
    w: Watched,
)
    ensures
        s.tells(s.announce_all(events, time, n), w, 0, 0, 0),
        s.announce_all(events, time, n) == (Sim {
            log: s.announce_all(events, time, n).log,
            ..s
        }),
    decreases n,
{
    if n > 0 {
        lemma_announce_all_tells(s, events, time, (n - 1) as nat, w);
        let mid = s.announce_all(events, time, (n - 1) as nat);
        lemma_announce_tells(mid, events[n - 1], time, w);
    }
}

proof fn lemma_transmit_tells(
    s: Sim,
    sender: NodeId,
    tx: Burst,
    time: SimTime,
    by_node: bool,
    w: Watched,
)
    ensures
        s.tells(s.transmit(sender, tx, time, by_node), w, 0, 0, 0),
{
    let later = s.transmit(sender, tx, time, by_node);
    if !later.halted {
        let started = ChannelEvent::TransmissionStarted {
            sender,
            sf: tx.sf,
            frequency: tx.frequency,
            time,
        };
        lemma_announce_tells(s, started, time, w);
        assert(later.log == s.announce(started, time).log);
    }
}

proof fn lemma_poll_tells(s: Sim, script: Seq<Call>, node: int, time: SimTime, w: Watched)
    ensures
        s.tells(s.poll(script, node, time), w, 0, 0, 0),
{
    if !s.halted {
        let tx = s.next_tx(script);
        let c = Call::PollTransmit { node, time, tx };
        lemma_call_tells(s, c, w);
        match tx {
            Some(tx) => {
                lemma_transmit_tells(s.call(c), s.ids[node], tx, time, true, w);
            },
            None => {},
        }
    }
}

proof fn lemma_poll_others_tells(
    s: Sim,
    script: Seq<Call>,
    sender: NodeId,
    time: SimTime,
    n: nat,
    w: Watched,
)
    ensures
        s.tells(s.poll_others(script, sender, time, n), w, 0, 0, 0),
    decreases n,
{
    if n > 0 {
        lemma_poll_others_tells(s, script, sender, time, (n - 1) as nat, w);
        let mid = s.poll_others(script, sender, time, (n - 1) as nat);
        lemma_poll_tells(mid, script, n - 1, time, w);
    }
}

/// The watched node is one of the first `n` and hears this.
spec fn is_hit(
    ids: Seq<NodeId>,
    sender: NodeId,
    frame: Frame,
    time: SimTime,
    n: nat,
    w: Watched,
) -> bool {
    0 <= w.node < n && ids[w.node] != sender && frame == w.frame && time == w.time
}

proof fn lemma_hand_out_tells(
    s: Sim,
    script: Seq<Call>,
    sender: NodeId,
    frame: Frame,
    time: SimTime,
    n: nat,
    w: Watched,
)
    ensures
        s.tells(
            s.hand_out(script, sender, frame, time, n).0,
            w,
            tally_if(is_hit(s.ids, sender, frame, time, n, w)),
            0,
            0,
        ),
    decreases n,
{
    if n > 0 {
        lemma_hand_out_tells(s, script, sender, frame, time, (n - 1) as nat, w);
        let (mid, _) = s.hand_out(script, sender, frame, time, (n - 1) as nat);
        let (later, _) = s.hand_out(script, sender, frame, time, n);
        if !later.halted && s.ids[n - 1] != sender {
            let c = Call::OnReceive { node: n - 1, frame, time, wake: mid.next_time(script) };
            lemma_call_tells(mid, c, w);
            assert(later.log == mid.call(c).log);
        }
    }
}

proof fn lemma_schedule_wakes_tells(s: Sim, asked: Seq<(NodeId, SimTime)>, n: nat, w: Watched)
    ensures
        s.tells(s.schedule_wakes(asked, n), w, 0, 0, 0),
    decreases n,
{
    if n > 0 {
        lemma_schedule_wakes_tells(s, asked, (n - 1) as nat, w);
    }
}

spec fn hit(ids: Seq<NodeId>, time: SimTime, w: Watched) -> spec_fn(Outcome) -> bool {
    |o: Outcome| !o.collided && is_hit(ids, o.sender, o.frame, time, ids.len(), w)
}

spec fn miss() -> spec_fn(Outcome) -> bool {
    |o: Outcome| o.collided
}

spec fn capture() -> spec_fn(Outcome) -> bool {
    |o: Outcome| !o.collided && o.captured
}

proof fn lemma_deliver_tells(
    s: Sim,
    script: Seq<Call>,
    outcome: Outcome,
    time: SimTime,
    w: Watched,
)
    ensures
        s.tells(
            s.deliver(script, outcome, time),
            w,
            tally_if(hit(s.ids, time, w)(outcome)),
            tally_if(miss()(outcome)),
            tally_if(capture()(outcome)),
        ),
{
    if !s.halted && !outcome.collided {
        let counted = if outcome.captured {
            s.count_capture()
        } else {
            s
        };
        if !counted.halted {
            let n = s.ids.len();
            let (heard, asked) = counted.hand_out(script, outcome.sender, outcome.frame, time, n);
            let woken = heard.schedule_wakes(asked, asked.len());
            lemma_hand_out_tells(counted, script, outcome.sender, outcome.frame, time, n, w);
            lemma_schedule_wakes_tells(heard, asked, asked.len(), w);
            lemma_poll_others_tells(woken, script, outcome.sender, time, n, w);
        }
    }
}

proof fn lemma_deliver_all_tells(
    s: Sim,
    script: Seq<Call>,
    outcomes: Seq<Outcome>,
    time: SimTime,
    n: nat,
    w: Watched,
)
    requires
        n <= outcomes.len(),
    ensures
        s.tells(
            s.deliver_all(script, outcomes, time, n),
            w,
            count(outcomes.take(n as int), hit(s.ids, time, w)) as int,
            count(outcomes.take(n as int), miss()) as int,
            count(outcomes.take(n as int), capture()) as int,
        ),
    decreases n,
{
    if n == 0 {
        assert(outcomes.take(0) =~= Seq::empty());
    } else {
        lemma_deliver_all_tells(s, script, outcomes, time, (n - 1) as nat, w);
        let mid = s.deliver_all(script, outcomes, time, (n - 1) as nat);
        let o = outcomes[n - 1];
        lemma_deliver_tells(mid, script, o, time, w);
        assert(outcomes.take(n as int) =~= outcomes.take(n - 1).push(o));
        lemma_count_push(outcomes.take(n - 1), o, hit(s.ids, time, w));
        lemma_count_push(outcomes.take(n - 1), o, miss());
        lemma_count_push(outcomes.take(n - 1), o, capture());
    }
}

proof fn lemma_count_of_filter(s: Seq<OnAir>, time: SimTime, p: spec_fn(OnAir) -> bool)
    ensures
        count(s.filter(|t: OnAir| t.end <= time), p) == count(s, ended_by(time, p)),
    decreases s.len(),
{
    reveal(Seq::filter);
    let done = |t: OnAir| t.end <= time;
    if s.len() > 0 {
        lemma_count_of_filter(s.drop_last(), time, p);
        if done(s.last()) {
            lemma_count_push(s.drop_last().filter(done), s.last(), p);
        }
    }
}

proof fn lemma_complete_tells(s: Sim, script: Seq<Call>, time: SimTime, w: Watched)
    requires
        0 <= w.node < s.ids.len(),
        time == w.time,
    ensures
        ({
            let p = reaches(s.ids[w.node], s.channel.config, w.frame);
            let heard = count(s.channel.completed, p) + count(
                s.channel.active,
                ended_by(time, p),
            );
            let lost = count(s.channel.completed, collided()) + count(
                s.channel.active,
                ended_by(time, collided()),
            );
            let captured = count(s.channel.completed, got_through()) + count(
                s.channel.active,
                ended_by(time, got_through()),
            );
            s.tells(s.complete(script, time), w, heard as int, lost as int, captured as int)
        }),
{
    let p = reaches(s.ids[w.node], s.channel.config, w.frame);
    let config = s.channel.config;
    let events = s.channel.completions(time);
    let resolved = Sim { channel: s.channel.resolve(time), ..s };
    let announced = resolved.announce_all(events, time, events.len());
    let outcomes = announced.channel.outcomes();
    let drained = Sim { channel: announced.channel.drained(), ..announced };
    let done = resolved.channel.completed;
    lemma_announce_all_tells(resolved, events, time, events.len(), w);
    lemma_deliver_all_tells(drained, script, outcomes, time, outcomes.len(), w);
    assert(outcomes.take(outcomes.len() as int) =~= outcomes);
    lemma_count_of_filter(s.channel.active, time, p);
    lemma_count_of_filter(s.channel.active, time, collided());
    lemma_count_of_filter(s.channel.active, time, got_through());
    lemma_count_concat(s.channel.completed, s.channel.ended(time), p);
    lemma_count_concat(s.channel.completed, s.channel.ended(time), collided());
    lemma_count_concat(s.channel.completed, s.channel.ended(time), got_through());
    assert forall|i: int| 0 <= i < done.len() implies p(#[trigger] done[i]) == hit(
        s.ids,
        time,
        w,
    )(outcomes[i]) by {
        assert(outcomes[i] == done[i].outcome(config));
        assert(is_heard_as(done[i], config, outcomes[i].frame));
        if is_heard_as(done[i], config, w.frame) {
            assert(outcomes[i].frame =~= w.frame);
        }
    }
    lemma_count_alike(done, p, outcomes, hit(s.ids, time, w));
    assert forall|i: int| 0 <= i < done.len() implies collided()(#[trigger] done[i]) == miss()(
        outcomes[i],
    ) by {
        assert(outcomes[i] == done[i].outcome(config));
    }
    lemma_count_alike(done, collided(), outcomes, miss());
    assert forall|i: int| 0 <= i < done.len() implies got_through()(#[trigger] done[i])
        == capture()(outcomes[i]) by {
        assert(outcomes[i] == done[i].outcome(config));
    }
    lemma_count_alike(done, got_through(), outcomes, capture());
}

/// When the end of a transmission fires, everything on the air that has ended by then is done
/// with, and so is what was completed before: each of it that collided is counted as a collision,
/// each that got through in spite of another as a capture, and what each node hears as `frame` is
/// heard by it just as often as transmissions of others that did not collide are to be heard so.
/// Only what has not ended stays on the air, beside what is sent in reply.
pub proof fn law_everything_that_has_ended_is_dealt_with(
    s: Sim,
    script: Seq<Call>,
    node: int,
    frame: Frame,
)
    requires
        s.wf(),
        !s.idle(),
        s.queue[0].kind is TxComplete,
        !s.step(script).halted,
        0 <= node < s.ids.len(),
    ensures
        ({
            let later = s.step(script);
            let time = s.queue[0].time;
            let p = reaches(s.ids[node], s.channel.config, frame);
            &&& count(later.log, hears(node, frame, time)) == count(
                s.log,
                hears(node, frame, time),
            ) + count(s.channel.completed, p) + count(s.channel.active, ended_by(time, p))
            &&& later.metrics.total_collisions == s.metrics.total_collisions + count(
                s.channel.completed,
                collided(),
            ) + count(s.channel.active, ended_by(time, collided()))
            &&& later.metrics.total_captures == s.metrics.total_captures + count(
                s.channel.completed,
                got_through(),
            ) + count(s.channel.active, ended_by(time, got_through()))
        }),
{
    let w = Watched { node, frame, time: s.queue[0].time };
    lemma_complete_tells(s.about_to_fire(), script, s.queue[0].time, w);
}

/// Any other event delivers nothing: nobody hears anything, and no collision or capture is
/// counted.
pub proof fn law_other_events_deliver_nothing(
    s: Sim,
    script: Seq<Call>,
    node: int,
    frame: Frame,
    time: SimTime,
)
    requires
        s.wf(),
        !s.idle(),
        !(s.queue[0].kind is TxComplete),
        !s.step(script).halted,
    ensures
        count(s.step(script).log, hears(node, frame, time)) == count(
            s.log,
            hears(node, frame, time),
        ),
        s.step(script).metrics.total_rx == s.metrics.total_rx,
        s.step(script).metrics.total_collisions == s.metrics.total_collisions,
        s.step(script).metrics.total_captures == s.metrics.total_captures,
{
    let w = Watched { node, frame, time };
    let base = s.about_to_fire();
    let now = s.queue[0].time;
    match s.queue[0].kind {
        EventKind::Wake { node_id } => {
            if let Some(n) = s.ids.index_of_first(node_id) {
                let wake = base.next_time(script);
                let c = Call::Update { node: n, time: now, wake };
                let asked = base.call(c);
                let scheduled = asked.schedule_if(wake, EventKind::Wake { node_id });
                lemma_call_tells(base, c, w);
                lemma_poll_tells(scheduled, script, n, now, w);
            }
        },
        EventKind::InterferencePoll { interferer_idx } => {
            let tx = base.next_tx(script);
            let c = Call::PollInject { interferer: interferer_idx as int, time: now, tx };
            let asked = base.call(c);
            let sender = interferer_id(interferer_idx as int);
            let injected = match tx {
                Some(tx) => asked.transmit(sender, tx, now, false),
                None => asked,
            };
            lemma_call_tells(base, c, w);
            match tx {
                Some(tx) => {
                    lemma_transmit_tells(asked, sender, tx, now, false, w);
                },
                None => {},
            }
            if !injected.halted {
                let next = injected.next_time(script);
                let d = Call::NextPollTime {
                    interferer: interferer_idx as int,
                    time: now,
                    next,
                };
                lemma_call_tells(injected, d, w);
            }
        },
        _ => {},
    }
}

/// The frames that `node` hears in the calls of `log`, in their order.
pub open spec fn frames_heard(log: Seq<Call>, node: int) -> Seq<Frame>
    decreases log.len(),
{
    if log.len() == 0 {
        Seq::empty()
    } else {
        let before = frames_heard(log.drop_last(), node);
        match log.last() {
            Call::OnReceive { node: n, frame, .. } if n == node => before.push(frame),
            _ => before,
        }
    }
}

/// What is heard of those of `txs` that did not collide and are not `id`'s own, in their order.
pub open spec fn frames_due(txs: Seq<OnAir>, config: ChannelConfig, id: NodeId) -> Seq<Frame>
    decreases txs.len(),
{
    if txs.len() == 0 {
        Seq::empty()
    } else {
        let before = frames_due(txs.drop_last(), config, id);
        let t = txs.last();
        if t.collided || t.sender == id {
            before
        } else {
            before.push(
                Frame {
                    payload: t.payload,
                    rssi: (t.tx_power_dbm * 1_000 - config.path_loss_mdb) as i64,
                    snr: (t.tx_power_dbm * 1_000 - config.path_loss_mdb
                        - config.noise_floor_mdbm) as i64,
                    sf: t.sf,
                    frequency: t.frequency,
                    time: t.end,
                },
            )
        }
    }
}

proof fn lemma_frames_push(log: Seq<Call>, c: Call, node: int)
    ensures
        frames_heard(log.push(c), node) == match c {
            Call::OnReceive { node: n, frame, .. } if n == node => frames_heard(log, node).push(
                frame,
            ),
            _ => frames_heard(log, node),
        },
{
    assert(log.push(c).drop_last() =~= log);
}

proof fn lemma_frames_quiet(log: Seq<Call>, more: Seq<Call>, node: int)
    requires
        forall|i: int| 0 <= i < more.len() ==> !(#[trigger] more[i] is OnReceive),
    ensures
        frames_heard(log + more, node) == frames_heard(log, node),
    decreases more.len(),
{
    if more.len() == 0 {
        assert(log + more =~= log);
    } else {
        assert((log + more).drop_last() =~= log + more.drop_last());
        assert((log + more).last() == more[more.len() - 1]);
        assert forall|i: int| 0 <= i < more.drop_last().len() implies !(
        #[trigger] more.drop_last()[i] is OnReceive) by {
            assert(more.drop_last()[i] == more[i]);
        }
        lemma_frames_quiet(log, more.drop_last(), node);
    }
}

proof fn lemma_announce_all_frames(
    s: Sim,
    events: Seq<ChannelEvent>,
    time: SimTime,
    n: nat,
    node: int,
)
    ensures
        frames_heard(s.announce_all(events, time, n).log, node) == frames_heard(s.log, node),
        s.announce_all(events, time, n).interferers == s.interferers,
    decreases n,
{
    if n > 0 {
        lemma_announce_all_frames(s, events, time, (n - 1) as nat, node);
        let mid = s.announce_all(events, time, (n - 1) as nat);
        let shown = Seq::new(
            mid.interferers,
            |j: int| Call::Observe { interferer: j, event: events[n - 1], time },
        );
        lemma_frames_quiet(mid.log, shown, node);
    }
}

proof fn lemma_poll_frames(s: Sim, script: Seq<Call>, asked: int, time: SimTime, node: int)
    ensures
        !s.poll(script, asked, time).halted ==> !s.halted && frames_heard(
            s.poll(script, asked, time).log,
            node,
        ) == frames_heard(s.log, node),
{
    let later = s.poll(script, asked, time);
    if !later.halted {
        let tx = s.next_tx(script);
        let c = Call::PollTransmit { node: asked, time, tx };
        lemma_frames_push(s.log, c, node);
        match tx {
            Some(tx) => {
                let started = ChannelEvent::TransmissionStarted {
                    sender: s.ids[asked],
                    sf: tx.sf,
                    frequency: tx.frequency,
                    time,
                };
                let shown = Seq::new(
                    s.interferers,
                    |j: int| Call::Observe { interferer: j, event: started, time },
                );
                assert(later.log == s.log.push(c) + shown);
                lemma_frames_quiet(s.log.push(c), shown, node);
            },
            None => {},
        }
    }
}

proof fn lemma_poll_others_frames(
    s: Sim,
    script: Seq<Call>,
    sender: NodeId,
    time: SimTime,
    n: nat,
    node: int,
)
    ensures
        !s.poll_others(script, sender, time, n).halted ==> !s.halted && frames_heard(
            s.poll_others(script, sender, time, n).log,
            node,
        ) == frames_heard(s.log, node),
    decreases n,
{
    if n > 0 {
        lemma_poll_others_frames(s, script, sender, time, (n - 1) as nat, node);
        let mid = s.poll_others(script, sender, time, (n - 1) as nat);
        lemma_poll_frames(mid, script, n - 1, time, node);
    }
}

proof fn lemma_hand_out_frames(
    s: Sim,
    script: Seq<Call>,
    sender: NodeId,
    frame: Frame,
    time: SimTime,
    n: nat,
    node: int,
)
    ensures
        ({
            let later = s.hand_out(script, sender, frame, time, n).0;
            !later.halted ==> !s.halted && frames_heard(later.log, node) == if 0 <= node < n
                && s.ids[node] != sender {
                frames_heard(s.log, node).push(frame)
            } else {
                frames_heard(s.log, node)
            }
        }),
    decreases n,
{
    if n > 0 {
        lemma_hand_out_frames(s, script, sender, frame, time, (n - 1) as nat, node);
        let (mid, _) = s.hand_out(script, sender, frame, time, (n - 1) as nat);
        let (later, _) = s.hand_out(script, sender, frame, time, n);
        if !later.halted && s.ids[n - 1] != sender {
            let c = Call::OnReceive { node: n - 1, frame, time, wake: mid.next_time(script) };
            lemma_frames_push(mid.log, c, node);
            assert(later.log == mid.log.push(c));
        }
    }
}

proof fn lemma_deliver_frames(
    s: Sim,
    script: Seq<Call>,
    outcome: Outcome,
    time: SimTime,
    node: int,
)
    ensures
        ({
            let later = s.deliver(script, outcome, time);
            &&& later.ids == s.ids
            &&& !later.halted ==> !s.halted && frames_heard(later.log, node)
                == if !outcome.collided && 0 <= node < s.ids.len() && s.ids[node]
                != outcome.sender {
                frames_heard(s.log, node).push(outcome.frame)
            } else {
                frames_heard(s.log, node)
            }
        }),
{
    crate::growth::lemma_deliver_grows(s, script, outcome, time);
    let later = s.deliver(script, outcome, time);
    if !later.halted && !outcome.collided {
        let counted = if outcome.captured {
            s.count_capture()
        } else {
            s
        };
        let n = s.ids.len();
        let (heard, asked) = counted.hand_out(script, outcome.sender, outcome.frame, time, n);
        let woken = heard.schedule_wakes(asked, asked.len());
        crate::rerun_laws::lemma_schedule_wakes_logs(heard, asked, asked.len());
        crate::growth::lemma_schedule_wakes_grows(heard, asked, time, asked.len());
        lemma_poll_others_frames(woken, script, outcome.sender, time, n, node);
        lemma_hand_out_frames(counted, script, outcome.sender, outcome.frame, time, n, node);
    }
}

proof fn lemma_deliver_all_frames(
    s: Sim,
    script: Seq<Call>,
    txs: Seq<OnAir>,
    config: ChannelConfig,
    time: SimTime,
    n: nat,
    node: int,
)
    requires
        n <= txs.len(),
        0 <= node < s.ids.len(),
    ensures
        ({
            let outcomes = txs.map_values(|t: OnAir| t.outcome(config));
            let later = s.deliver_all(script, outcomes, time, n);
            &&& later.ids == s.ids
            &&& !later.halted ==> !s.halted && frames_heard(later.log, node) == frames_heard(
                s.log,
                node,
            ) + frames_due(txs.take(n as int), config, s.ids[node])
        }),
    decreases n,
{
    let outcomes = txs.map_values(|t: OnAir| t.outcome(config));
    let id = s.ids[node];
    if n == 0 {
        assert(txs.take(0) =~= Seq::empty());
        assert(frames_heard(s.log, node) + Seq::<Frame>::empty() =~= frames_heard(s.log, node));
    } else {
        lemma_deliver_all_frames(s, script, txs, config, time, (n - 1) as nat, node);
        let mid = s.deliver_all(script, outcomes, time, (n - 1) as nat);
        lemma_deliver_frames(mid, script, outcomes[n - 1], time, node);
        assert(txs.take(n as int).drop_last() =~= txs.take(n - 1));
        assert(txs.take(n as int).last() == txs[n - 1]);
        let before = frames_heard(s.log, node);
        let due = frames_due(txs.take(n - 1), config, id);
        let f = outcomes[n - 1].frame;
        assert(before + due.push(f) =~= (before + due).push(f));
    }
}

/// When the end of a transmission fires, each node hears what got through in the order in which it
/// was completed, which is the order in which it began.
pub proof fn law_frames_are_heard_in_order(s: Sim, script: Seq<Call>, node: int)
    requires
        s.wf(),
        !s.idle(),
        s.queue[0].kind is TxComplete,
        !s.step(script).halted,
        0 <= node < s.ids.len(),
    ensures
        frames_heard(s.step(script).log, node) == frames_heard(s.log, node) + frames_due(
            s.channel.resolve(s.queue[0].time).completed,
            s.channel.config,
            s.ids[node],
        ),
{
    let base = s.about_to_fire();
    let time = s.queue[0].time;
    let events = base.channel.completions(time);
    let resolved = Sim { channel: base.channel.resolve(time), ..base };
    let announced = resolved.announce_all(events, time, events.len());
    let drained = Sim { channel: announced.channel.drained(), ..announced };
    let txs = resolved.channel.completed;
    crate::growth::lemma_announce_all_grows(resolved, events, time, events.len());
    lemma_announce_all_frames(resolved, events, time, events.len(), node);
    lemma_deliver_all_frames(drained, script, txs, s.channel.config, time, txs.len(), node);
    assert(txs.take(txs.len() as int) =~= txs);
}

/// When the end of a transmission fires, the ends of all transmissions that have ended by then are
/// shown before anything else happens: one after another in the order in which they began, each to
/// all interferers in turn.
pub proof fn law_ends_are_shown_first(s: Sim, script: Seq<Call>, m: int, i: int)
    requires
        s.wf(),
        !s.idle(),
        s.queue[0].kind is TxComplete,
        0 <= i < s.interferers,
        0 <= m < s.channel.completions(s.queue[0].time).len(),
    ensures
        ({
            let at = s.log.len() + m * s.interferers + i;
            &&& at < s.step(script).log.len()
            &&& s.step(script).log[at] == (Call::Observe {
                interferer: i,
                event: s.channel.completions(s.queue[0].time)[m],
                time: s.queue[0].time,
            })
        }),
{
    let base = s.about_to_fire();
    let time = s.queue[0].time;
    let events = base.channel.completions(time);
    let resolved = Sim { channel: base.channel.resolve(time), ..base };
    let announced = resolved.announce_all(events, time, events.len());
    lemma_announced_at(resolved, events, time, events.len(), m, i);
    crate::growth::lemma_deliver_completed_grows(announced, script, time);
}

proof fn lemma_announced_at(
    s: Sim,
    events: Seq<ChannelEvent>,
    time: SimTime,
    n: nat,
    m: int,
    i: int,
)
    requires
        n <= events.len(),
        0 <= m < n,
        0 <= i < s.interferers,
    ensures
        ({
            let later = s.announce_all(events, time, n);
            let at = s.log.len() + m * s.interferers + i;
            &&& at < later.log.len()
            &&& later.log[at] == (Call::Observe { interferer: i, event: events[m], time })
        }),
    decreases n,
{
    let mid = s.announce_all(events, time, (n - 1) as nat);
    lemma_announced_length(s, events, time, (n - 1) as nat);
    if m == n - 1 {
        assert(mid.log.len() == s.log.len() + m * s.interferers);
    } else {
        lemma_announced_at(s, events, time, (n - 1) as nat, m, i);
    }
}

proof fn lemma_announced_length(s: Sim, events: Seq<ChannelEvent>, time: SimTime, n: nat)
    ensures
        s.announce_all(events, time, n).log.len() == s.log.len() + n * s.interferers,
        s.announce_all(events, time, n).interferers == s.interferers,
    decreases n,
{
    if n > 0 {
        lemma_announced_length(s, events, time, (n - 1) as nat);
        let k = s.interferers;
        assert(n * k == (n - 1) * k + k) by (nonlinear_arith);
    } else {
        assert(0 * s.interferers == 0);
    }
}

} // verus!
