//! When nodes and interferers are called, and when they are not.
use crate::growth::has_kind;
use crate::queue::ScheduledEvent;
use crate::scheduler::EventKind;
use crate::simulation::{begins, Call, Sim};
use crate::simulation_laws::{
    law_calls_are_made_now, law_due_event_fires, lemma_after_keeps_wf,
};
use crate::time::SimTime;
use crate::types::NodeId;
use vstd::prelude::*;

verus! {

/// The log shows an update of `node` at `time`.
pub open spec fn shows_update(log: Seq<Call>, node: int, time: SimTime) -> bool {
    exists|i: int|
        0 <= i < log.len() && (#[trigger] log[i] matches Call::Update { node: n, time: t, .. }
            && n == node && t == time)
}

pub proof fn lemma_log_keeps_growing(start: Sim, script: Seq<Call>, m: nat, n: nat)
    requires
        start.wf(),
        m <= n,
    ensures
        begins(start.after(script, m).log, start.after(script, n).log),
    decreases n,
{
    if m < n {
        let before = start.after(script, m);
        let mid = start.after(script, (n - 1) as nat);
        lemma_log_keeps_growing(start, script, m, (n - 1) as nat);
        lemma_after_keeps_wf(start, script, (n - 1) as nat);
        law_calls_are_made_now(mid, script);
        assert forall|i: int| 0 <= i < before.log.len() implies #[trigger] start.after(
            script,
            n,
        ).log[i] == before.log[i] by {
            assert(mid.log[i] == before.log[i]);
        }
    }
}

/// A wake-up that is in the queue at some point of a finished run, for the end time or earlier,
/// is honoured: the node is updated at exactly that time.
pub proof fn law_wake_is_honoured(start: Sim, end: Sim, k: nat, n: nat, e: ScheduledEvent, node: int)
    requires
        start.wf(),
        end.ends_run_after(start, n),
        !end.halted,
        k <= n,
        start.after(end.log, k).queue.contains(e),
        e.time <= start.end_time,
        e.kind is Wake,
        start.ids.index_of_first(e.kind->node_id) == Some(node),
    ensures
        shows_update(end.log, node, e.time),
{
    let script = end.log;
    assert(begins(end.log, script));
    law_due_event_fires(start, end, script, k, n, e);
    let m = choose|m: nat|
        #![trigger start.after(script, m)]
        k <= m < n && !start.after(script, m).idle() && start.after(script, m).queue[0] == e;
    let mid = start.after(script, m);
    lemma_after_keeps_wf(start, script, m);
    let base = mid.about_to_fire();
    let wake = base.next_time(script);
    let c = Call::Update { node, time: e.time, wake };
    let asked = base.call(c);
    let scheduled = asked.schedule_if(wake, e.kind);
    let later = start.after(script, m + 1);
    start.ids.index_of_first_ensures(e.kind->node_id);
    assert(later == scheduled.poll(script, node, e.time));
    crate::growth::lemma_poll_grows(scheduled, script, node, e.time);
    assert(scheduled.log == asked.log);
    assert(later.log[mid.log.len() as int] == c);
    lemma_log_keeps_growing(start, script, m + 1, n);
    let last = start.after(script, n);
    assert(last.log[mid.log.len() as int] == later.log[mid.log.len() as int]);
    assert(last.log == end.log);
    assert(end.log[mid.log.len() as int] == c);
}

/// A wake-up for an identifier that no node has changes nothing.
pub proof fn law_unknown_wake_is_ignored(
    s: Sim,
    script: Seq<Call>,
    node_id: NodeId,
    time: SimTime,
)
    requires
        !s.ids.contains(node_id),
    ensures
        s.wake(script, node_id, time) == s,
{
    s.ids.index_of_first_ensures(node_id);
}

pub proof fn lemma_halt_is_final(start: Sim, script: Seq<Call>, m: nat, n: nat)
    requires
        start.after(script, m).halted,
        m <= n,
    ensures
        start.after(script, n).halted,
    decreases n,
{
    if m < n {
        lemma_halt_is_final(start, script, m, (n - 1) as nat);
    }
}

/// Every call in the log after `n` steps was made in one of them.
pub proof fn lemma_call_was_made_in_a_step(start: Sim, script: Seq<Call>, n: nat, i: int)
    requires
        start.log.len() <= i < start.after(script, n).log.len(),
    ensures
        exists|m: nat|
            #![trigger start.after(script, m)]
            m < n && start.after(script, m).log.len() <= i < start.after(script, m + 1).log.len(),
    decreases n,
{
    if n > 0 {
        let mid = start.after(script, (n - 1) as nat);
        if i < mid.log.len() {
            lemma_call_was_made_in_a_step(start, script, (n - 1) as nat, i);
        } else {
            assert(mid == start.after(script, (n - 1) as nat));
            assert(start.after(script, ((n - 1) as nat + 1) as nat).log.len() > i);
        }
    }
}

/// When a node answers an update or a reception with a time, it is updated at exactly that time,
/// if the run gets that far and finishes. (Where several nodes share an identifier, the one that
/// was registered first is updated.)
pub proof fn law_requested_wake_is_honoured(start: Sim, end: Sim, i: int, node: int, t: SimTime)
    requires
        start.wf(),
        end.ends_run(start),
        !end.halted,
        start.log.len() <= i < end.log.len(),
        end.log[i].wake_request() == Some((node, t)),
        t <= start.end_time,
    ensures
        start.ids.index_of_first(start.ids[node]) matches Some(first) && shows_update(
            end.log,
            first,
            t,
        ),
{
    let n = choose|n: nat| end.ends_run_after(start, n);
    let script = end.log;
    assert(begins(end.log, script));
    let last = start.after(script, n);
    assert(last.log == end.log);
    lemma_call_was_made_in_a_step(start, script, n, i);
    let m = choose|m: nat|
        #![trigger start.after(script, m)]
        m < n && start.after(script, m).log.len() <= i < start.after(script, m + 1).log.len();
    let mid = start.after(script, m);
    let later = start.after(script, m + 1);
    lemma_after_keeps_wf(start, script, m);
    lemma_log_keeps_growing(start, script, m + 1, n);
    assert(later.log[i] == end.log[i]);
    if later.halted {
        lemma_halt_is_final(start, script, m + 1, n);
    }
    assert(later == mid.step(script));
    crate::growth::lemma_step_grows(mid, script);
    assert(mid.about_to_fire().wakes_wait_in(later));
    assert(later.log[i].on_one_of(start.ids.len()));
    let kind = EventKind::Wake { node_id: start.ids[node] };
    assert(has_kind(later.queue, t, kind));
    let e = choose|e: ScheduledEvent| #[trigger]
        later.queue.contains(e) && e.time == t && e.kind == kind;
    start.ids.index_of_first_ensures(start.ids[node]);
    assert(start.ids.contains(start.ids[node]));
    let first = start.ids.index_of_first(start.ids[node])->0;
    law_wake_is_honoured(start, end, m + 1, n, e, first);
}

/// A node is updated only when a wake-up for it fires, at the time that the wake-up waited for,
/// and at most once per wake-up.
pub proof fn law_no_update_without_wake(s: Sim, script: Seq<Call>, i: int)
    requires
        s.wf(),
        s.log.len() <= i < s.step(script).log.len(),
        s.step(script).log[i] is Update,
    ensures
        s.queue[0].kind matches EventKind::Wake { node_id } && s.ids.index_of_first(node_id)
            == Some(s.step(script).log[i]->Update_node),
        s.step(script).log[i].time() == s.queue[0].time,
        i == s.log.len(),
{
    crate::growth::lemma_step_grows(s, script);
    let base = s.about_to_fire();
    let later = s.step(script);
    if let EventKind::Wake { node_id } = s.queue[0].kind {
        s.ids.index_of_first_ensures(node_id);
        if let Some(node) = s.ids.index_of_first(node_id) {
            let time = s.queue[0].time;
            let wake = base.next_time(script);
            let asked = base.call(Call::Update { node, time, wake });
            let scheduled = asked.schedule_if(wake, EventKind::Wake { node_id });
            crate::growth::lemma_poll_grows(scheduled, script, node, time);
            assert(scheduled.log == asked.log);
            if i > s.log.len() {
                assert(later.log[i].is_calm());
            }
        }
    }
}

/// An interferer is polled, and asked for the time of its next poll, only when a poll of it fires,
/// at the time that the poll waited for; it is polled first.
pub proof fn law_no_poll_without_its_event(s: Sim, script: Seq<Call>, i: int)
    requires
        s.wf(),
        s.log.len() <= i < s.step(script).log.len(),
        s.step(script).log[i] is PollInject || s.step(script).log[i] is NextPollTime,
    ensures
        s.queue[0].kind matches EventKind::InterferencePoll { interferer_idx } && match s.step(
            script,
        ).log[i] {
            Call::PollInject { interferer, .. } => interferer == interferer_idx && i
                == s.log.len(),
            Call::NextPollTime { interferer, .. } => interferer == interferer_idx && i
                > s.log.len(),
            _ => false,
        },
        s.step(script).log[i].time() == s.queue[0].time,
{
    crate::growth::lemma_step_grows(s, script);
    let base = s.about_to_fire();
    let later = s.step(script);
    if let EventKind::InterferencePoll { interferer_idx } = s.queue[0].kind {
        let time = s.queue[0].time;
        let tx = base.next_tx(script);
        let c = Call::PollInject { interferer: interferer_idx as int, time, tx };
        let asked = base.call(c);
        let sender = crate::simulation::interferer_id(interferer_idx as int);
        let injected = match tx {
            Some(tx) => asked.transmit(sender, tx, time, false),
            None => asked,
        };
        match tx {
            Some(tx) => {
                crate::growth::lemma_transmit_logs(asked, sender, tx, time, false);
                crate::growth::lemma_transmit_grows(base, c, sender, tx, false);
            },
            None => {},
        }
        assert(asked.log[s.log.len() as int] == c);
        assert(injected.log[s.log.len() as int] == c);
        assert(later.log[s.log.len() as int] == c);
        if s.log.len() < i < injected.log.len() {
            assert(later.log[i] == injected.log[i]);
            assert(injected.log[i].is_calm());
        }
    }
}

impl Sim {
    /// No poll of interferer `idx` waits.
    pub open spec fn not_to_be_polled(self, idx: usize) -> bool {
        forall|e: ScheduledEvent| #[trigger]
            self.queue.contains(e) ==> e.kind != (EventKind::InterferencePoll {
                interferer_idx: idx,
            })
    }

    /// At most one poll of each interferer waits.
    pub open spec fn polls_are_single(self) -> bool {
        forall|e: ScheduledEvent, f: ScheduledEvent|
            #![trigger self.queue.contains(e), self.queue.contains(f)]
            self.queue.contains(e) && self.queue.contains(f) && e.kind is InterferencePoll
                && e.kind == f.kind ==> e == f
    }
}

/// An interferer for which no poll waits is never polled again.
pub proof fn law_stopped_interferer_stays_stopped(
    start: Sim,
    script: Seq<Call>,
    n: nat,
    idx: usize,
)
    requires
        start.wf(),
        start.not_to_be_polled(idx),
    ensures
        start.after(script, n).not_to_be_polled(idx),
        forall|i: int|
            start.log.len() <= i < start.after(script, n).log.len() ==> !(#[trigger] start.after(
                script,
                n,
            ).log[i] matches Call::PollInject { interferer, .. } && interferer == idx),
    decreases n,
{
    if n > 0 {
        law_stopped_interferer_stays_stopped(start, script, (n - 1) as nat, idx);
        lemma_after_keeps_wf(start, script, (n - 1) as nat);
        let mid = start.after(script, (n - 1) as nat);
        let later = start.after(script, n);
        if !mid.idle() {
            crate::growth::lemma_step_grows(mid, script);
            crate::growth::lemma_pop_keeps_wf(mid);
            let base = mid.about_to_fire();
            assert(mid.queue.contains(mid.queue[0]));
            assert forall|i: int| start.log.len() <= i < later.log.len() implies !(
            #[trigger] later.log[i] matches Call::PollInject { interferer, .. } && interferer
                == idx) by {
                if i < mid.log.len() {
                    assert(later.log[i] == mid.log[i]);
                }
            }
            assert forall|e: ScheduledEvent| #[trigger] later.queue.contains(e) implies e.kind != (
            EventKind::InterferencePoll { interferer_idx: idx }) by {
                if base.queue.contains(e) {
                    assert(mid.queue.contains(e));
                }
            }
        }
    }
}

/// At most one poll of each interferer waits at any time, if this is so at the start.
pub proof fn law_polls_stay_single(start: Sim, script: Seq<Call>, n: nat)
    requires
        start.wf(),
        start.polls_are_single(),
    ensures
        start.after(script, n).polls_are_single(),
    decreases n,
{
    if n > 0 {
        law_polls_stay_single(start, script, (n - 1) as nat);
        lemma_after_keeps_wf(start, script, (n - 1) as nat);
        let mid = start.after(script, (n - 1) as nat);
        let later = start.after(script, n);
        if !mid.idle() {
            crate::growth::lemma_step_grows(mid, script);
            crate::growth::lemma_pop_keeps_wf(mid);
            let base = mid.about_to_fire();
            assert(mid.queue.contains(mid.queue[0]));
            assert forall|e: ScheduledEvent, f: ScheduledEvent|
                #![trigger later.queue.contains(e), later.queue.contains(f)]
                later.queue.contains(e) && later.queue.contains(f) && e.kind is InterferencePoll
                    && e.kind == f.kind implies e == f by {
                if base.queue.contains(e) {
                    assert(mid.queue.contains(e));
                    assert(mid.queue[0].precedes(e));
                }
                if base.queue.contains(f) {
                    assert(mid.queue.contains(f));
                    assert(mid.queue[0].precedes(f));
                }
            }
        }
    }
}

/// An interferer that answers a poll with no time for the next one is not polled again.
pub proof fn law_declining_interferer_is_not_polled_again(s: Sim, script: Seq<Call>, idx: usize)
    requires
        s.wf(),
        s.polls_are_single(),
        !s.idle(),
        s.queue[0].kind == (EventKind::InterferencePoll { interferer_idx: idx }),
        forall|i: int|
            s.log.len() <= i < s.step(script).log.len() ==> !(#[trigger] s.step(
                script,
            ).log[i] matches Call::NextPollTime { next: Some(_), .. }),
    ensures
        s.step(script).not_to_be_polled(idx),
{
    crate::growth::lemma_step_grows(s, script);
    crate::growth::lemma_pop_keeps_wf(s);
    let base = s.about_to_fire();
    let later = s.step(script);
    assert(s.queue.contains(s.queue[0]));
    assert forall|e: ScheduledEvent| #[trigger] later.queue.contains(e) implies e.kind != (
    EventKind::InterferencePoll { interferer_idx: idx }) by {
        if e.kind == (EventKind::InterferencePoll { interferer_idx: idx }) {
            if base.queue.contains(e) {
                assert(s.queue.contains(e));
                assert(s.queue[0].precedes(e));
            } else {
                assert(crate::growth::shows_next_poll(base, later, idx, e.time));
            }
        }
    }
}

} // verus!
