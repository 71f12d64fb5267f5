//! What holds of every simulation, whatever its nodes and interferers do.
use crate::channel::{Air, ChannelConfig};
use crate::growth::has_completion;
use crate::queue::ScheduledEvent;
use crate::scheduler::EventKind;
use crate::simulation::{begins, interferer_id, Call, Sim};
use crate::time::SimTime;
use crate::types::NodeId;
use vstd::prelude::*;

verus! {

impl Sim {
    /// No event waits for a time that has passed.
    pub open spec fn timely(self) -> bool {
        forall|e: ScheduledEvent| #[trigger] self.queue.contains(e) ==> e.time >= self.now
    }

    /// The calls in the log were made one after another, none later than now.
    pub open spec fn chronological(self) -> bool {
        &&& forall|i: int, j: int|
            0 <= i <= j < self.log.len() ==> (#[trigger] self.log[i]).time() <= (
            #[trigger] self.log[j]).time()
        &&& forall|i: int| 0 <= i < self.log.len() ==> (#[trigger] self.log[i]).time() <= self.now
    }
}

pub proof fn lemma_after_keeps_wf(start: Sim, script: Seq<Call>, n: nat)
    requires
        start.wf(),
    ensures
        start.after(script, n).wf(),
        begins(start.log, start.after(script, n).log),
        start.after(script, n).ids == start.ids,
        start.after(script, n).interferers == start.interferers,
        start.after(script, n).end_time == start.end_time,
        start.after(script, n).channel.config == start.channel.config,
        start.halted ==> start.after(script, n).halted,
    decreases n,
{
    if n > 0 {
        lemma_after_keeps_wf(start, script, (n - 1) as nat);
        let mid = start.after(script, (n - 1) as nat);
        if !mid.idle() {
            crate::growth::lemma_step_grows(mid, script);
            assert forall|i: int| 0 <= i < start.log.len() implies #[trigger] mid.step(
                script,
            ).log[i] == start.log[i] by {
                assert(mid.log[i] == start.log[i]);
            }
        }
    }
}

pub proof fn lemma_idle_stays(start: Sim, script: Seq<Call>, n: nat, m: nat)
    requires
        start.after(script, n).idle(),
        n <= m,
    ensures
        start.after(script, m) == start.after(script, n),
    decreases m,
{
    if n < m {
        lemma_idle_stays(start, script, n, (m - 1) as nat);
    }
}

/// Two runs from the same state in which nodes and interferers answer alike end in the same
/// state.
pub proof fn law_run_is_deterministic(start: Sim, a: Sim, b: Sim)
    requires
        a.ends_run(start),
        b.ends_run(start),
        begins(a.log, b.log),
    ensures
        a == b,
{
    let n = choose|n: nat| a.ends_run_after(start, n);
    let m = choose|m: nat| b.ends_run_after(start, m);
    assert(begins(b.log, b.log));
    assert(start.after(b.log, n).idle());
    assert(start.after(b.log, m).idle());
    if n <= m {
        lemma_idle_stays(start, b.log, n, m);
    } else {
        lemma_idle_stays(start, b.log, m, n);
    }
}

/// A run that starts with nothing to fire ends at once.
pub proof fn law_idle_run_changes_nothing(start: Sim, end: Sim)
    requires
        start.idle(),
        end.ends_run(start),
    ensures
        end == start.stop(),
{
    let n = choose|n: nat| end.ends_run_after(start, n);
    assert(begins(end.log, end.log));
    assert(start.after(end.log, 0).idle());
    lemma_idle_stays(start, end.log, 0, n);
}

/// The clock never shows a time past the end.
pub proof fn law_never_past_end_time(start: Sim, script: Seq<Call>, n: nat)
    requires
        start.wf(),
        start.now <= start.end_time,
    ensures
        start.after(script, n).now <= start.end_time,
    decreases n,
{
    if n > 0 {
        law_never_past_end_time(start, script, (n - 1) as nat);
        lemma_after_keeps_wf(start, script, (n - 1) as nat);
        let mid = start.after(script, (n - 1) as nat);
        if !mid.idle() {
            crate::growth::lemma_step_grows(mid, script);
        }
    }
}

/// If no node or interferer asks to be called in the past, the clock never goes back.
pub proof fn law_time_never_goes_back(start: Sim, script: Seq<Call>, n: nat)
    requires
        start.wf(),
        start.timely(),
        start.punctual_until(start.after(script, n + 1)),
    ensures
        start.after(script, n).now <= start.after(script, n + 1).now,
        start.after(script, n + 1).timely(),
    decreases n,
{
    let mid = start.after(script, n);
    let later = start.after(script, n + 1);
    lemma_after_keeps_wf(start, script, n);
    lemma_after_keeps_wf(start, script, n + 1);
    assert(later == mid.step(script));
    if !mid.idle() {
        crate::growth::lemma_step_grows(mid, script);
        let base = mid.about_to_fire();
        assert(begins(mid.log, later.log));
        if n > 0 {
            assert(start.punctual_until(mid)) by {
                assert forall|i: int| start.log.len() <= i < mid.log.len() implies (
                #[trigger] mid.log[i]).punctual() by {
                    assert(later.log[i] == mid.log[i]);
                }
            }
            law_time_never_goes_back(start, script, (n - 1) as nat);
        }
        assert(mid.timely());
        assert(mid.queue.contains(mid.queue[0]));
        assert(base.punctual_until(later)) by {
            assert forall|i: int| base.log.len() <= i < later.log.len() implies (
            #[trigger] later.log[i]).punctual() by {
                assert(start.log.len() <= i);
            }
        }
        crate::growth::lemma_pop_keeps_wf(mid);
        assert forall|e: ScheduledEvent| #[trigger] later.queue.contains(e) implies e.time
            >= later.now by {
            if e.seq < base.seq {
                assert(base.queue.contains(e));
                assert(mid.queue[0].precedes(e));
            }
        }
    } else if n > 0 {
        law_time_never_goes_back(start, script, (n - 1) as nat);
    }
}

/// Every call that a step makes is made at the time of the event that fires.
pub proof fn law_calls_are_made_now(s: Sim, script: Seq<Call>)
    requires
        s.wf(),
    ensures
        begins(s.log, s.step(script).log),
        forall|i: int|
            s.log.len() <= i < s.step(script).log.len() ==> (#[trigger] s.step(
                script,
            ).log[i]).time() == s.step(script).now,
{
    if !s.idle() {
        crate::growth::lemma_step_grows(s, script);
    }
}

/// If no node or interferer asks to be called in the past, calls are made in the order of time.
/// In particular the events that an interferer observes come in the order of time.
pub proof fn law_log_is_chronological(start: Sim, script: Seq<Call>, n: nat)
    requires
        start.wf(),
        start.timely(),
        start.chronological(),
        start.punctual_until(start.after(script, n)),
    ensures
        start.after(script, n).chronological(),
    decreases n,
{
    if n > 0 {
        let mid = start.after(script, (n - 1) as nat);
        let later = start.after(script, n);
        lemma_after_keeps_wf(start, script, (n - 1) as nat);
        law_calls_are_made_now(mid, script);
        assert(start.punctual_until(mid)) by {
            assert forall|i: int| start.log.len() <= i < mid.log.len() implies (
            #[trigger] mid.log[i]).punctual() by {
                assert(later.log[i] == mid.log[i]);
            }
        }
        law_log_is_chronological(start, script, (n - 1) as nat);
        law_time_never_goes_back(start, script, (n - 1) as nat);
        assert forall|i: int| 0 <= i < later.log.len() implies (#[trigger] later.log[i]).time()
            <= later.now by {
            if i < mid.log.len() {
                assert(later.log[i] == mid.log[i]);
            }
        }
        assert forall|i: int, j: int| 0 <= i <= j < later.log.len() implies (
        #[trigger] later.log[i]).time() <= (#[trigger] later.log[j]).time() by {
            if j < mid.log.len() {
                assert(later.log[i] == mid.log[i]);
                assert(later.log[j] == mid.log[j]);
            }
        }
    }
}

/// Events that wait for the same time fire in the order in which they were scheduled, and no
/// event fires before one that waits for an earlier time.
pub proof fn law_events_fire_in_order(s: Sim, i: int, j: int)
    requires
        s.wf(),
        0 <= i < j < s.queue.len(),
    ensures
        s.queue[i].time <= s.queue[j].time,
        s.queue[i].time == s.queue[j].time ==> s.queue[i].seq < s.queue[j].seq,
{
}

/// Scheduling keeps every waiting event, adds the new one, and numbers it after all others.
pub proof fn law_scheduling_loses_nothing(s: Sim, time: SimTime, kind: EventKind)
    requires
        s.wf(),
        s.can_schedule(kind),
        !s.halted,
        s.seq < u64::MAX,
    ensures
        s.schedule(time, kind).wf(),
        forall|e: ScheduledEvent| #[trigger]
            s.schedule(time, kind).queue.contains(e) <==> s.queue.contains(e) || e == (
            ScheduledEvent { time, seq: s.seq, kind }),
{
    crate::growth::lemma_schedule_grows(s, time, kind, time);
    crate::growth::lemma_enqueue_contains(s.queue, ScheduledEvent { time, seq: s.seq, kind });
}

pub proof fn lemma_idle_queue_is_late(s: Sim)
    requires
        s.wf(),
        s.idle(),
        !s.halted,
    ensures
        forall|e: ScheduledEvent| #[trigger] s.queue.contains(e) ==> e.time > s.end_time,
        forall|e: ScheduledEvent| #[trigger] s.stop().queue.contains(e) ==> s.queue.contains(e),
{
    assert forall|e: ScheduledEvent| #[trigger] s.queue.contains(e) implies e.time > s.end_time by {
        let i = choose|i: int| 0 <= i < s.queue.len() && s.queue[i] == e;
        if i > 0 {
            assert(s.queue[0].precedes(s.queue[i]));
        }
    }
    assert forall|e: ScheduledEvent| #[trigger] s.stop().queue.contains(e) implies s.queue.contains(
        e,
    ) by {
        let i = choose|i: int| 0 <= i < s.stop().queue.len() && s.stop().queue[i] == e;
        if s.queue.len() > 0 {
            assert(s.queue[i + 1] == e);
        }
    }
}

/// A finished run leaves no event behind that waits for the end time or earlier.
pub proof fn law_finished_run_leaves_nothing_due(start: Sim, end: Sim)
    requires
        start.wf(),
        end.ends_run(start),
        !end.halted,
    ensures
        forall|e: ScheduledEvent| #[trigger] end.queue.contains(e) ==> e.time > end.end_time,
{
    let n = choose|n: nat| end.ends_run_after(start, n);
    assert(begins(end.log, end.log));
    let last = start.after(end.log, n);
    lemma_after_keeps_wf(start, end.log, n);
    lemma_idle_queue_is_late(last);
}

proof fn lemma_event_waits_or_fired(
    start: Sim,
    script: Seq<Call>,
    k: nat,
    n: nat,
    e: ScheduledEvent,
)
    requires
        start.wf(),
        k <= n,
        start.after(script, k).queue.contains(e),
    ensures
        start.after(script, n).queue.contains(e) || exists|m: nat|
            #![trigger start.after(script, m)]
            k <= m < n && !start.after(script, m).idle() && start.after(script, m).queue[0] == e,
    decreases n,
{
    if k < n {
        let mid = start.after(script, (n - 1) as nat);
        lemma_event_waits_or_fired(start, script, k, (n - 1) as nat, e);
        lemma_after_keeps_wf(start, script, (n - 1) as nat);
        if mid.queue.contains(e) && !mid.idle() {
            crate::growth::lemma_step_grows(mid, script);
            crate::growth::lemma_pop_keeps_wf(mid);
            if mid.queue[0] != e {
                assert(mid.about_to_fire().queue.contains(e));
            }
        }
    }
}

/// Every event that waits at some point of a finished run, for the end time or earlier, fires in
/// it.
pub proof fn law_due_event_fires(
    start: Sim,
    end: Sim,
    script: Seq<Call>,
    k: nat,
    n: nat,
    e: ScheduledEvent,
)
    requires
        start.wf(),
        end.ends_run_after(start, n),
        begins(end.log, script),
        !end.halted,
        k <= n,
        start.after(script, k).queue.contains(e),
        e.time <= start.end_time,
    ensures
        exists|m: nat|
            #![trigger start.after(script, m)]
            k <= m < n && !start.after(script, m).idle() && start.after(script, m).queue[0] == e,
{
    let last = start.after(script, n);
    lemma_event_waits_or_fired(start, script, k, n, e);
    lemma_after_keeps_wf(start, script, n);
    lemma_idle_queue_is_late(last);
}

pub proof fn lemma_after_stays_covered(start: Sim, script: Seq<Call>, n: nat)
    requires
        start.wf(),
        start.covered(-1),
    ensures
        start.after(script, n).covered(-1),
    decreases n,
{
    if n > 0 {
        lemma_after_stays_covered(start, script, (n - 1) as nat);
        lemma_after_keeps_wf(start, script, (n - 1) as nat);
        let mid = start.after(script, (n - 1) as nat);
        if !mid.idle() {
            crate::growth::lemma_step_grows(mid, script);
        }
    }
}

/// Every transmission that ends by the end time is completed by a finished run: what is still on
/// the air ends later.
pub proof fn law_due_transmissions_complete(start: Sim, end: Sim)
    requires
        start.wf(),
        start.covered(-1),
        end.ends_run(start),
        !end.halted,
    ensures
        forall|i: int|
            0 <= i < end.channel.active.len() ==> (#[trigger] end.channel.active[i]).end
                > end.end_time,
{
    let n = choose|n: nat| end.ends_run_after(start, n);
    assert(begins(end.log, end.log));
    let last = start.after(end.log, n);
    lemma_after_keeps_wf(start, end.log, n);
    lemma_after_stays_covered(start, end.log, n);
    lemma_idle_queue_is_late(last);
    assert forall|i: int| 0 <= i < end.channel.active.len() implies (
    #[trigger] end.channel.active[i]).end > end.end_time by {
        let t = last.channel.active[i].end;
        assert(has_completion(last.queue, t));
    }
}

/// The books stay in order through a finished run: the counters of transmissions, receptions and
/// airtime, in total and by node, are what the log of calls adds up to; and no more collisions
/// and captures are counted than transmissions have left the air.
pub proof fn law_books_stay_in_order(start: Sim, end: Sim)
    requires
        start.wf(),
        start.accounted(0),
        end.ends_run(start),
        !end.halted,
    ensures
        end.accounted(0),
{
    let n = choose|n: nat| end.ends_run_after(start, n);
    assert(begins(end.log, end.log));
    let last = start.after(end.log, n);
    lemma_after_stays_accounted(start, end.log, n);
    assert(last.accounted(0));
}

proof fn lemma_after_stays_balanced(start: Sim, script: Seq<Call>, n: nat)
    requires
        start.wf(),
        start.metrics.balanced(),
    ensures
        start.after(script, n).metrics.balanced(),
    decreases n,
{
    if n > 0 {
        lemma_after_stays_balanced(start, script, (n - 1) as nat);
        lemma_after_keeps_wf(start, script, (n - 1) as nat);
        let mid = start.after(script, (n - 1) as nat);
        if !mid.idle() {
            crate::growth::lemma_step_grows(mid, script);
        }
    }
}

/// A run keeps the totals of transmissions and receptions equal to the sums of the counts by
/// node.
pub proof fn law_run_keeps_balance(start: Sim, end: Sim)
    requires
        start.wf(),
        start.metrics.balanced(),
        end.ends_run(start),
    ensures
        end.metrics.balanced(),
{
    let n = choose|n: nat| end.ends_run_after(start, n);
    assert(begins(end.log, end.log));
    lemma_after_stays_balanced(start, end.log, n);
}

proof fn lemma_after_stays_accounted(start: Sim, script: Seq<Call>, n: nat)
    requires
        start.wf(),
        start.accounted(0),
        !start.after(script, n).halted,
    ensures
        start.after(script, n).accounted(0),
    decreases n,
{
    if n > 0 {
        let mid = start.after(script, (n - 1) as nat);
        lemma_after_keeps_wf(start, script, (n - 1) as nat);
        if !mid.idle() {
            crate::growth::lemma_step_grows(mid, script);
            lemma_after_stays_accounted(start, script, (n - 1) as nat);
            assert(mid.about_to_fire().accounted(0 + 0));
        } else {
            lemma_after_stays_accounted(start, script, (n - 1) as nat);
        }
    }
}

/// If the books are in order, collisions and captures together are no more than transmissions.
pub proof fn law_collisions_and_captures_are_bounded(s: Sim)
    requires
        s.accounted(0),
    ensures
        s.metrics.total_collisions + s.metrics.total_captures <= crate::accounts::total(
            s.log,
            crate::accounts::transmissions(),
        ),
{
}

proof fn lemma_total_of_equal_weights(
    log: Seq<Call>,
    f: spec_fn(Call) -> nat,
    g: spec_fn(Call) -> nat,
)
    requires
        forall|i: int| 0 <= i < log.len() ==> f(#[trigger] log[i]) == g(log[i]),
    ensures
        crate::accounts::total(log, f) == crate::accounts::total(log, g),
    decreases log.len(),
{
    if log.len() > 0 {
        assert forall|i: int| 0 <= i < log.drop_last().len() implies f(
            #[trigger] log.drop_last()[i],
        ) == g(log.drop_last()[i]) by {
            assert(log.drop_last()[i] == log[i]);
        }
        lemma_total_of_equal_weights(log.drop_last(), f, g);
        assert(log.last() == log[log.len() - 1]);
    }
}

/// Without interference, the transmissions in the log are those that `total_tx` counts: then
/// collisions and captures together never exceed it.
pub proof fn law_without_interference_counters_are_ordered(s: Sim)
    requires
        s.accounted(0),
        forall|i: int|
            0 <= i < s.log.len() ==> !(#[trigger] s.log[i] matches Call::PollInject {
                tx: Some(_),
                ..
            }),
    ensures
        s.metrics.total_collisions + s.metrics.total_captures <= s.metrics.total_tx,
{
    lemma_total_of_equal_weights(
        s.log,
        crate::accounts::transmissions(),
        crate::accounts::node_transmissions(),
    );
}

/// A simulation starts in order: nothing is due in the past, nothing is on the air without its
/// end being scheduled, and the books are in order.
pub proof fn law_start_is_in_order(end_time: SimTime, config: ChannelConfig)
    ensures
        Sim::start(end_time, Air::idle(config)).wf(),
        Sim::start(end_time, Air::idle(config)).timely(),
        Sim::start(end_time, Air::idle(config)).chronological(),
        Sim::start(end_time, Air::idle(config)).covered(-1),
        Sim::start(end_time, Air::idle(config)).accounted(0),
        Sim::start(end_time, Air::idle(config)).ids_apart(),
        Sim::start(end_time, Air::idle(config)).now <= end_time,
{
}

/// A simulation starts at time zero, with nobody registered, nothing waiting, nothing called and
/// nothing counted, on the channel that it is given.
pub proof fn law_start_is_blank(end_time: SimTime, channel: Air)
    ensures
        ({
            let s = Sim::start(end_time, channel);
            &&& s.queue.len() == 0
            &&& s.log.len() == 0
            &&& s.ids.len() == 0
            &&& s.interferers == 0
            &&& s.now == 0
            &&& s.seq == 0
            &&& s.end_time == end_time
            &&& !s.halted
            &&& s.channel == channel
            &&& s.metrics.total_tx == 0
            &&& s.metrics.total_rx == 0
            &&& s.metrics.total_collisions == 0
            &&& s.metrics.total_captures == 0
            &&& s.metrics.total_airtime_us == 0
            &&& forall|id: NodeId| #[trigger]
                crate::metrics::count_of(s.metrics.node_tx, id) == 0
            &&& forall|id: NodeId| #[trigger]
                crate::metrics::count_of(s.metrics.node_rx, id) == 0
        }),
{
}

/// A node that is registered comes last, under its identifier. If it is to be woken, one event is
/// added for that, at the time that is asked for and numbered behind all others; otherwise no
/// event is added. Nothing else changes.
pub proof fn law_node_is_registered_last(s: Sim, id: NodeId, initial_wake: Option<SimTime>)
    requires
        s.wf(),
        !s.halted,
        s.seq < u64::MAX,
    ensures
        ({
            let later = s.with_node(id, initial_wake);
            &&& later.ids.len() == s.ids.len() + 1
            &&& later.ids[s.ids.len() as int] == id
            &&& forall|i: int| 0 <= i < s.ids.len() ==> #[trigger] later.ids[i] == s.ids[i]
            &&& !later.halted
            &&& later.interferers == s.interferers
            &&& later.log == s.log
            &&& later.channel == s.channel
            &&& later.metrics == s.metrics
            &&& later.now == s.now
            &&& later.end_time == s.end_time
            &&& initial_wake is None ==> later.queue == s.queue
            &&& initial_wake matches Some(t) ==> forall|e: ScheduledEvent| #[trigger]
                later.queue.contains(e) <==> s.queue.contains(e) || e == (ScheduledEvent {
                    time: t,
                    seq: s.seq,
                    kind: EventKind::Wake { node_id: id },
                })
        }),
{
    match initial_wake {
        Some(t) => {
            law_scheduling_loses_nothing(s, t, EventKind::Wake { node_id: id });
        },
        None => {},
    }
}

/// An interferer that is registered comes last: its number is that of the interferers before it.
/// One event is added, which polls it at the time that is asked for and is numbered behind all
/// others. Nothing else changes.
pub proof fn law_interferer_is_registered_last(s: Sim, first_poll: SimTime)
    requires
        s.wf(),
        !s.halted,
        s.seq < u64::MAX,
        s.interferers < 0x1_0000_0000,
        s.interferers <= usize::MAX,
    ensures
        ({
            let later = s.with_interferer(first_poll);
            &&& later.interferers == s.interferers + 1
            &&& later.ids == s.ids
            &&& !later.halted
            &&& later.log == s.log
            &&& later.channel == s.channel
            &&& later.metrics == s.metrics
            &&& later.now == s.now
            &&& later.end_time == s.end_time
            &&& forall|e: ScheduledEvent| #[trigger]
                later.queue.contains(e) <==> s.queue.contains(e) || e == (ScheduledEvent {
                    time: first_poll,
                    seq: s.seq,
                    kind: EventKind::InterferencePoll { interferer_idx: s.interferers as usize },
                })
        }),
{
    let more = Sim { interferers: s.interferers + 1, ..s };
    let kind = EventKind::InterferencePoll { interferer_idx: s.interferers as usize };
    assert(more.wf()) by {
        assert forall|i: int| 0 <= i < more.queue.len() implies more.can_schedule(
            (#[trigger] more.queue[i]).kind,
        ) by {
            assert(s.can_schedule(s.queue[i].kind));
        }
    }
    law_scheduling_loses_nothing(more, first_poll, kind);
}

/// The identifiers of interferers count down from the largest.
pub proof fn law_interferer_ids_count_down(idx: int)
    requires
        0 <= idx <= u32::MAX,
    ensures
        interferer_id(idx).0 == u32::MAX - idx,
{
}

/// As long as the first event waits for the end time or earlier, a step lets it fire: it leaves
/// the queue, all others stay, and the clock shows its time. Otherwise a step changes nothing.
pub proof fn law_step_fires_the_first_event(s: Sim, script: Seq<Call>)
    requires
        s.wf(),
    ensures
        s.halted || s.queue.len() == 0 || s.queue[0].time > s.end_time ==> s.step(script) == s,
        !s.halted && s.queue.len() > 0 && s.queue[0].time <= s.end_time ==> {
            let later = s.step(script);
            &&& later.now == s.queue[0].time
            &&& !later.queue.contains(s.queue[0])
            &&& forall|i: int|
                0 < i < s.queue.len() ==> later.queue.contains(#[trigger] s.queue[i])
            &&& forall|e: ScheduledEvent| #[trigger]
                later.queue.contains(e) && e.seq < s.seq ==> s.queue.contains(e)
        },
{
    if !s.idle() {
        crate::growth::lemma_step_grows(s, script);
        crate::growth::lemma_pop_keeps_wf(s);
        let base = s.about_to_fire();
        let later = s.step(script);
        assert forall|i: int| 0 < i < s.queue.len() implies later.queue.contains(
            #[trigger] s.queue[i],
        ) by {
            assert(base.queue[i - 1] == s.queue[i]);
            assert(base.queue.contains(s.queue[i]));
        }
        if later.queue.contains(s.queue[0]) {
            assert(base.queue.contains(s.queue[0]));
            assert(s.queue[0].precedes(s.queue[0]));
        }
    }
}

/// If nobody asks to be called in the past, the clock ends at the time of the event that fired
/// last: no event that waited for the end time or earlier at the start lies ahead of it, nor does
/// any call, and if it has moved, an event fired at the time that it shows.
pub proof fn law_clock_shows_the_last_event(start: Sim, end: Sim)
    requires
        start.wf(),
        start.timely(),
        end.ends_run(start),
        start.punctual_until(end),
        !end.halted,
    ensures
        forall|e: ScheduledEvent| #[trigger]
            start.queue.contains(e) && e.time <= start.end_time ==> e.time <= end.now,
        forall|i: int|
            start.log.len() <= i < end.log.len() ==> (#[trigger] end.log[i]).time() <= end.now,
        end.now == start.now || exists|m: nat|
            #![trigger start.after(end.log, m)]
            !start.after(end.log, m).idle() && start.after(end.log, m).queue[0].time == end.now,
{
    let n = choose|n: nat| end.ends_run_after(start, n);
    let script = end.log;
    assert(begins(end.log, script));
    let last = start.after(script, n);
    assert(last.log == end.log && last.now == end.now);
    assert forall|e: ScheduledEvent| #[trigger]
        start.queue.contains(e) && e.time <= start.end_time implies e.time <= end.now by {
        assert(start.after(script, 0).queue.contains(e));
        law_due_event_fires(start, end, script, 0, n, e);
        let m = choose|m: nat|
            #![trigger start.after(script, m)]
            0 <= m < n && !start.after(script, m).idle() && start.after(script, m).queue[0] == e;
        lemma_after_keeps_wf(start, script, m);
        law_step_fires_the_first_event(start.after(script, m), script);
        lemma_clock_goes_on(start, script, m + 1, n);
    }
    lemma_calls_by_now(start, script, n);
    lemma_clock_source(start, script, n);
}

proof fn lemma_prefix_is_punctual(start: Sim, script: Seq<Call>, m: nat, n: nat)
    requires
        start.wf(),
        m <= n,
        start.punctual_until(start.after(script, n)),
    ensures
        start.punctual_until(start.after(script, m)),
    decreases n,
{
    if m < n {
        let mid = start.after(script, (n - 1) as nat);
        let later = start.after(script, n);
        lemma_after_keeps_wf(start, script, (n - 1) as nat);
        law_calls_are_made_now(mid, script);
        assert forall|i: int| start.log.len() <= i < mid.log.len() implies (
        #[trigger] mid.log[i]).punctual() by {
            assert(later.log[i] == mid.log[i]);
        }
        lemma_prefix_is_punctual(start, script, m, (n - 1) as nat);
    }
}

proof fn lemma_clock_goes_on(start: Sim, script: Seq<Call>, m: nat, n: nat)
    requires
        start.wf(),
        start.timely(),
        start.punctual_until(start.after(script, n)),
        m <= n,
    ensures
        start.after(script, m).now <= start.after(script, n).now,
    decreases n,
{
    if m < n {
        lemma_prefix_is_punctual(start, script, (n - 1) as nat, n);
        lemma_clock_goes_on(start, script, m, (n - 1) as nat);
        law_time_never_goes_back(start, script, (n - 1) as nat);
    }
}

proof fn lemma_calls_by_now(start: Sim, script: Seq<Call>, n: nat)
    requires
        start.wf(),
        start.timely(),
        start.punctual_until(start.after(script, n)),
    ensures
        forall|i: int|
            start.log.len() <= i < start.after(script, n).log.len() ==> (#[trigger] start.after(
                script,
                n,
            ).log[i]).time() <= start.after(script, n).now,
    decreases n,
{
    if n > 0 {
        let mid = start.after(script, (n - 1) as nat);
        let later = start.after(script, n);
        lemma_prefix_is_punctual(start, script, (n - 1) as nat, n);
        lemma_calls_by_now(start, script, (n - 1) as nat);
        lemma_after_keeps_wf(start, script, (n - 1) as nat);
        law_calls_are_made_now(mid, script);
        law_time_never_goes_back(start, script, (n - 1) as nat);
        assert forall|i: int| start.log.len() <= i < later.log.len() implies (
        #[trigger] later.log[i]).time() <= later.now by {
            if i < mid.log.len() {
                assert(later.log[i] == mid.log[i]);
            }
        }
    }
}

proof fn lemma_clock_source(start: Sim, script: Seq<Call>, n: nat)
    requires
        start.wf(),
    ensures
        start.after(script, n).now == start.now || exists|m: nat|
            #![trigger start.after(script, m)]
            !start.after(script, m).idle() && start.after(script, m).queue[0].time == start.after(
                script,
                n,
            ).now,
    decreases n,
{
    if n > 0 {
        let mid = start.after(script, (n - 1) as nat);
        lemma_clock_source(start, script, (n - 1) as nat);
        lemma_after_keeps_wf(start, script, (n - 1) as nat);
        law_step_fires_the_first_event(mid, script);
        if !mid.idle() {
            assert(start.after(script, (n - 1) as nat).queue[0].time == start.after(
                script,
                n,
            ).now);
        }
    }
}

/// A finished run leaves behind all events that wait for a later time, except for the first of
/// them.
pub proof fn law_run_keeps_later_events(start: Sim, end: Sim, e: ScheduledEvent)
    requires
        start.wf(),
        end.ends_run(start),
        !end.halted,
        start.queue.contains(e),
        e.time > start.end_time,
        !end.queue.contains(e),
    ensures
        forall|f: ScheduledEvent| #[trigger]
            end.queue.contains(f) ==> e.time < f.time || (e.time == f.time && e.seq < f.seq),
        forall|f: ScheduledEvent| #[trigger]
            start.queue.contains(f) && f.time > start.end_time && f != e ==> end.queue.contains(f),
{
    let n = choose|n: nat| end.ends_run_after(start, n);
    let script = end.log;
    assert(begins(end.log, script));
    let last = start.after(script, n);
    lemma_after_keeps_wf(start, script, n);
    lemma_late_event_waits(start, script, n, e);
    let i = choose|i: int| 0 <= i < last.queue.len() && last.queue[i] == e;
    assert(i == 0) by {
        if i > 0 {
            assert(end.queue[i - 1] == e);
        }
    }
    crate::growth::lemma_pop_keeps_wf(last);
    assert(end.queue == last.about_to_fire().queue);
    assert forall|f: ScheduledEvent| #[trigger]
        start.queue.contains(f) && f.time > start.end_time && f != e implies end.queue.contains(
        f,
    ) by {
        lemma_late_event_waits(start, script, n, f);
    }
}

proof fn lemma_late_event_waits(start: Sim, script: Seq<Call>, n: nat, e: ScheduledEvent)
    requires
        start.wf(),
        start.queue.contains(e),
        e.time > start.end_time,
    ensures
        start.after(script, n).queue.contains(e),
    decreases n,
{
    if n > 0 {
        let mid = start.after(script, (n - 1) as nat);
        lemma_late_event_waits(start, script, (n - 1) as nat, e);
        lemma_after_keeps_wf(start, script, (n - 1) as nat);
        law_step_fires_the_first_event(mid, script);
        let i = choose|i: int| 0 <= i < mid.queue.len() && mid.queue[i] == e;
        if !mid.idle() && i == 0 {
            assert(mid.queue[0].time <= mid.end_time);
        }
    }
}

/// Registering a node keeps the simulation in order, if it is not to be woken in the past and its
/// identifier is no interferer's.
pub proof fn law_adding_a_node_keeps_order(s: Sim, id: NodeId, initial_wake: Option<SimTime>)
    requires
        s.wf(),
        s.timely(),
        s.covered(-1),
        s.accounted(0),
        s.ids_apart(),
        initial_wake matches Some(t) ==> t >= s.now,
        forall|i: int| 0 <= i < s.interferers ==> id != #[trigger] interferer_id(i),
    ensures
        s.with_node(id, initial_wake).wf(),
        s.with_node(id, initial_wake).timely(),
        s.with_node(id, initial_wake).covered(-1),
        s.with_node(id, initial_wake).accounted(0),
        s.with_node(id, initial_wake).ids_apart(),
{
    let kind = EventKind::Wake { node_id: id };
    let woken = s.schedule_if(initial_wake, kind);
    let later = s.with_node(id, initial_wake);
    match initial_wake {
        Some(t) => {
            crate::growth::lemma_schedule_grows(s, t, kind, s.now);
            assert forall|e: ScheduledEvent| #[trigger] woken.queue.contains(e) implies e.time
                >= woken.now by {
                if e.seq < s.seq {
                    assert(s.queue.contains(e));
                }
            }
        },
        None => {},
    }
    assert(woken.covered(-1));
    assert forall|i: int|
        0 <= i < later.channel.active.len() && (#[trigger] later.channel.active[i]).end
            > -1 implies has_completion(later.queue, later.channel.active[i].end) by {
        assert(woken.channel.active[i].end > -1);
    }
    assert forall|e: ScheduledEvent| #[trigger] later.queue.contains(e) implies e.time
        >= later.now by {
        assert(woken.queue.contains(e));
    }
    assert forall|i: int| 0 <= i < later.queue.len() implies (#[trigger] later.queue[i]).seq
        < later.seq && later.can_schedule(later.queue[i].kind) by {
        assert(woken.queue[i].seq < woken.seq);
        assert(woken.can_schedule(woken.queue[i].kind));
    }
    assert forall|x: NodeId|
        crate::metrics::count_of(later.metrics.node_tx, x) == #[trigger] crate::accounts::total(
            later.log,
            crate::accounts::transmissions_by(later.ids, x),
        ) by {
        lemma_total_of_equal_weights(
            s.log,
            crate::accounts::transmissions_by(s.ids, x),
            crate::accounts::transmissions_by(later.ids, x),
        );
        assert(crate::metrics::count_of(s.metrics.node_tx, x) == crate::accounts::total(
            s.log,
            crate::accounts::transmissions_by(s.ids, x),
        ));
    }
    assert forall|x: NodeId|
        crate::metrics::count_of(later.metrics.node_rx, x) == #[trigger] crate::accounts::total(
            later.log,
            crate::accounts::receptions_by(later.ids, x),
        ) by {
        lemma_total_of_equal_weights(
            s.log,
            crate::accounts::receptions_by(s.ids, x),
            crate::accounts::receptions_by(later.ids, x),
        );
        assert(crate::metrics::count_of(s.metrics.node_rx, x) == crate::accounts::total(
            s.log,
            crate::accounts::receptions_by(s.ids, x),
        ));
    }
    assert forall|i: int| 0 <= i < later.log.len() implies (#[trigger] later.log[i]).on_one_of(
        later.ids.len(),
    ) by {
        assert(s.log[i].on_one_of(s.ids.len()));
    }
    assert forall|n: int, i: int|
        0 <= n < later.ids.len() && 0 <= i < later.interferers implies #[trigger] later.ids[n]
        != #[trigger] interferer_id(i) by {
        if n < s.ids.len() {
            assert(s.ids[n] != interferer_id(i));
        }
    }
}

/// Registering an interferer keeps the simulation in order, if it is not to be polled in the past
/// and no node has its identifier.
pub proof fn law_adding_an_interferer_keeps_order(s: Sim, first_poll: SimTime)
    requires
        s.wf(),
        s.timely(),
        s.covered(-1),
        s.accounted(0),
        s.ids_apart(),
        first_poll >= s.now,
        s.interferers < 0x1_0000_0000,
        s.interferers <= usize::MAX,
        !s.ids.contains(interferer_id(s.interferers as int)),
    ensures
        s.with_interferer(first_poll).wf(),
        s.with_interferer(first_poll).timely(),
        s.with_interferer(first_poll).covered(-1),
        s.with_interferer(first_poll).accounted(0),
        s.with_interferer(first_poll).ids_apart(),
{
    let kind = EventKind::InterferencePoll { interferer_idx: s.interferers as usize };
    let more = Sim { interferers: s.interferers + 1, ..s };
    let later = s.with_interferer(first_poll);
    assert(more.wf()) by {
        assert forall|i: int| 0 <= i < more.queue.len() implies more.can_schedule(
            (#[trigger] more.queue[i]).kind,
        ) by {
            assert(s.can_schedule(s.queue[i].kind));
        }
    }
    assert(more.covered(-1)) by {
        assert forall|i: int|
            0 <= i < more.channel.active.len() && (#[trigger] more.channel.active[i]).end
                > -1 implies has_completion(more.queue, more.channel.active[i].end) by {
            assert(s.channel.active[i].end > -1);
        }
    }
    crate::growth::lemma_schedule_grows(more, first_poll, kind, s.now);
    assert forall|e: ScheduledEvent| #[trigger] later.queue.contains(e) implies e.time
        >= later.now by {
        if e.seq < s.seq {
            assert(more.queue.contains(e));
        }
    }
    assert(more.accounted(0 + 0));
    assert forall|n: int, i: int|
        0 <= n < later.ids.len() && 0 <= i < later.interferers implies #[trigger] later.ids[n]
        != #[trigger] interferer_id(i) by {
        assert(s.ids.contains(s.ids[n]));
        if i < s.interferers {
            assert(s.ids[n] != interferer_id(i));
        }
    }
}

} // verus!
