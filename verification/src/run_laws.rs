//! What holds of a finished run as a whole: each request to be woken is answered once, each
//! transmission is observed once at its start and once at its end, and each frame that gets
//! through is heard by all others.
use crate::census::{
    count, end_observations, endings, ends_at, requests, start_observations, starts, updates,
    wakes, Watch,
};
use crate::metrics::Tally;
use crate::poll_census::{
    hearings, injections, next_polls, node_polls, poll_events, poll_requests, Asked, Moves,
};
use crate::scheduler::EventKind;
use crate::simulation::{begins, Call, Sim};
use crate::time::SimTime;
use crate::types::{ChannelEvent, NodeId};
use vstd::prelude::*;

verus! {

proof fn lemma_run_settles(start: Sim, end: Sim, w: Watch) -> (last: Sim)
    requires
        start.wf(),
        end.ends_run(start),
        !end.halted,
    ensures
        start.settles(last, w),
        start.covered(-1) ==> start.settles_ends(last, w),
        last.wf(),
        last.idle(),
        end == last.stop(),
        !last.halted,
        last.end_time == start.end_time,
        begins(start.log, last.log),
        end.log == start.log + end.logged_since(start),
{
    let n = choose|n: nat| end.ends_run_after(start, n);
    let script = end.log;
    assert(begins(end.log, script));
    let last = start.after(script, n);
    crate::census::lemma_after_settles(start, script, n, w);
    crate::simulation_laws::lemma_after_keeps_wf(start, script, n);
    assert(end.log =~= start.log + end.logged_since(start));
    last
}

proof fn lemma_nothing_due_waits(last: Sim, id: NodeId, time: SimTime)
    requires
        last.wf(),
        last.idle(),
        !last.halted,
        time <= last.end_time,
    ensures
        count(last.queue, wakes(id, time)) == 0,
{
    crate::simulation_laws::lemma_idle_queue_is_late(last);
    assert forall|i: int| 0 <= i < last.queue.len() implies !wakes(id, time)(
        #[trigger] last.queue[i],
    ) by {
        assert(last.queue.contains(last.queue[i]));
    }
    crate::census::lemma_count_none(last.queue, wakes(id, time));
}

/// In a finished run a node is updated at a time exactly as often as a wake-up for that time
/// waited at the start or was asked for in the run: each request that the run gets to is answered
/// by exactly one update. (Where several nodes share an identifier, the requests of all of them
/// wake the one that was registered first.)
pub proof fn law_each_request_is_answered_once(
    start: Sim,
    end: Sim,
    id: NodeId,
    node: int,
    time: SimTime,
)
    requires
        start.wf(),
        end.ends_run(start),
        !end.halted,
        start.ids.index_of_first(id) == Some(node),
        time <= start.end_time,
    ensures
        count(end.logged_since(start), updates(node, time)) == count(
            start.queue,
            wakes(id, time),
        ) + count(end.logged_since(start), requests(start.ids, id, time)),
{
    let w = Watch {
        interferer: -1,
        started: arbitrary(),
        sender: arbitrary(),
        end: 0,
        id,
        node,
        wake: time,
    };
    let last = lemma_run_settles(start, end, w);
    let since = end.logged_since(start);
    lemma_nothing_due_waits(last, id, time);
    crate::census::lemma_count_concat(start.log, since, updates(node, time));
    crate::census::lemma_count_concat(start.log, since, requests(start.ids, id, time));
}

/// In a finished run an interferer is polled at a time exactly as often as a poll for that time
/// waited at the start or was asked for in the run: each time that it names for its next poll, and
/// that the run gets to, is honoured by exactly one poll.
pub proof fn law_each_poll_request_is_answered_once(
    start: Sim,
    end: Sim,
    interferer: int,
    time: SimTime,
)
    requires
        start.wf(),
        end.ends_run(start),
        !end.halted,
        time <= start.end_time,
    ensures
        count(end.logged_since(start), injections(interferer, time)) == count(
            start.queue,
            poll_events(interferer, time),
        ) + count(end.logged_since(start), poll_requests(interferer, time)),
{
    let w = Asked { interferer, node: -1, time };
    let last = lemma_run_moves(start, end, w);
    let since = end.logged_since(start);
    crate::simulation_laws::lemma_idle_queue_is_late(last);
    assert forall|i: int| 0 <= i < last.queue.len() implies !poll_events(interferer, time)(
        #[trigger] last.queue[i],
    ) by {
        assert(last.queue.contains(last.queue[i]));
    }
    crate::census::lemma_count_none(last.queue, poll_events(interferer, time));
    crate::census::lemma_count_concat(start.log, since, injections(interferer, time));
    crate::census::lemma_count_concat(start.log, since, poll_requests(interferer, time));
}

/// In a finished run an interferer is asked for the time of its next poll exactly as often as it
/// is polled, at the same times.
pub proof fn law_each_poll_asks_for_the_next(
    start: Sim,
    end: Sim,
    interferer: int,
    time: SimTime,
)
    requires
        start.wf(),
        end.ends_run(start),
        !end.halted,
    ensures
        count(end.logged_since(start), next_polls(interferer, time)) == count(
            end.logged_since(start),
            injections(interferer, time),
        ),
{
    let w = Asked { interferer, node: -1, time };
    let last = lemma_run_moves(start, end, w);
    let since = end.logged_since(start);
    crate::census::lemma_count_concat(start.log, since, injections(interferer, time));
    crate::census::lemma_count_concat(start.log, since, next_polls(interferer, time));
}

/// In a finished run a node is asked for a transmission at a time exactly as often as it is
/// updated or hears a frame at that time: once for each update and once for each frame.
pub proof fn law_each_update_and_each_reception_asks_for_a_transmission(
    start: Sim,
    end: Sim,
    node: int,
    time: SimTime,
)
    requires
        start.wf(),
        end.ends_run(start),
        !end.halted,
    ensures
        count(end.logged_since(start), node_polls(node, time)) == count(
            end.logged_since(start),
            updates(node, time),
        ) + count(end.logged_since(start), hearings(node, time)),
{
    let w = Asked { interferer: -1, node, time };
    let last = lemma_run_moves(start, end, w);
    let since = end.logged_since(start);
    crate::census::lemma_count_concat(start.log, since, node_polls(node, time));
    crate::census::lemma_count_concat(start.log, since, updates(node, time));
    crate::census::lemma_count_concat(start.log, since, hearings(node, time));
}

proof fn lemma_run_moves(start: Sim, end: Sim, w: Asked) -> (last: Sim)
    requires
        start.wf(),
        end.ends_run(start),
        !end.halted,
    ensures
        start.moves_to(last, w, (Moves { polls: 0, nexts: 0, replies: 0 })),
        last.wf(),
        last.idle(),
        !last.halted,
        last.log == end.log,
        last.end_time == start.end_time,
        end.log == start.log + end.logged_since(start),
{
    let n = choose|n: nat| end.ends_run_after(start, n);
    let script = end.log;
    assert(begins(end.log, script));
    let last = start.after(script, n);
    crate::poll_census::lemma_after_moves(start, script, n, w);
    crate::simulation_laws::lemma_after_keeps_wf(start, script, n);
    assert(end.log =~= start.log + end.logged_since(start));
    last
}

/// In a finished run every update of a node is followed at once by asking that node for a
/// transmission.
pub proof fn law_each_update_is_followed_by_a_poll(start: Sim, end: Sim, j: int)
    requires
        start.wf(),
        end.ends_run(start),
        !end.halted,
        start.log.len() <= j < end.log.len(),
        end.log[j] is Update,
    ensures
        j + 1 < end.log.len(),
        end.log[j + 1] matches Call::PollTransmit { node, time, .. } && node
            == end.log[j]->Update_node && time == end.log[j].time(),
{
    let n = choose|n: nat| end.ends_run_after(start, n);
    let script = end.log;
    assert(begins(end.log, script));
    crate::call_laws::lemma_call_was_made_in_a_step(start, script, n, j);
    let m = choose|m: nat|
        #![trigger start.after(script, m)]
        m < n && start.after(script, m).log.len() <= j < start.after(script, m + 1).log.len();
    let mid = start.after(script, m);
    let later = start.after(script, m + 1);
    crate::simulation_laws::lemma_after_keeps_wf(start, script, m);
    crate::call_laws::lemma_log_keeps_growing(start, script, m + 1, n);
    assert(later == mid.step(script));
    assert(end.log[j] == later.log[j]);
    if later.halted {
        crate::call_laws::lemma_halt_is_final(start, script, m + 1, n);
    }
    crate::call_laws::law_no_update_without_wake(mid, script, j);
    let base = mid.about_to_fire();
    let time = mid.queue[0].time;
    let node_id = mid.queue[0].kind->node_id;
    mid.ids.index_of_first_ensures(node_id);
    let node = mid.ids.index_of_first(node_id)->0;
    let wake = base.next_time(script);
    let asked = base.call(Call::Update { node, time, wake });
    let scheduled = asked.schedule_if(wake, EventKind::Wake { node_id });
    assert(later == scheduled.poll(script, node, time));
    let tx = scheduled.next_tx(script);
    let c = Call::PollTransmit { node, time, tx };
    match tx {
        Some(tx) => {
            crate::growth::lemma_transmit_logs(
                scheduled.call(c),
                scheduled.ids[node],
                tx,
                time,
                true,
            );
        },
        None => {},
    }
    assert(scheduled.call(c).log[j + 1] == c);
    assert(later.log[j + 1] == c);
    assert(end.log[j + 1] == later.log[j + 1]);
}

/// In a finished run each interferer observes each start of a transmission once: as often as
/// transmissions start in this way, it is shown that one does, when it does.
pub proof fn law_each_start_is_observed_once(
    start: Sim,
    end: Sim,
    interferer: int,
    event: ChannelEvent,
)
    requires
        start.wf(),
        end.ends_run(start),
        !end.halted,
        0 <= interferer < start.interferers,
    ensures
        count(end.logged_since(start), start_observations(interferer, event)) == count(
            end.logged_since(start),
            starts(start.ids, event),
        ),
{
    let w = Watch {
        interferer,
        started: event,
        sender: arbitrary(),
        end: 0,
        id: arbitrary(),
        node: -1,
        wake: 0,
    };
    let last = lemma_run_settles(start, end, w);
    let since = end.logged_since(start);
    crate::census::lemma_count_concat(start.log, since, start_observations(interferer, event));
    crate::census::lemma_count_concat(start.log, since, starts(start.ids, event));
}

/// No call is made after the end time.
pub proof fn law_no_call_after_the_end(start: Sim, script: Seq<Call>, n: nat)
    requires
        start.wf(),
    ensures
        forall|i: int|
            start.log.len() <= i < start.after(script, n).log.len() ==> (#[trigger] start.after(
                script,
                n,
            ).log[i]).time() <= start.end_time,
    decreases n,
{
    if n > 0 {
        law_no_call_after_the_end(start, script, (n - 1) as nat);
        crate::simulation_laws::lemma_after_keeps_wf(start, script, (n - 1) as nat);
        let mid = start.after(script, (n - 1) as nat);
        let later = start.after(script, n);
        if !mid.idle() {
            crate::growth::lemma_step_grows(mid, script);
            assert forall|i: int| start.log.len() <= i < later.log.len() implies (
            #[trigger] later.log[i]).time() <= start.end_time by {
                if i < mid.log.len() {
                    assert(later.log[i] == mid.log[i]);
                }
            }
        }
    }
}

/// In a finished run each interferer observes each end of a transmission that comes by the end
/// time once, when it comes: as often as transmissions of `sender` end at `time`, whether they
/// began in this run or were on the air before, it is shown that one does. It observes no end
/// that comes later.
pub proof fn law_each_end_is_observed_once(
    start: Sim,
    end: Sim,
    interferer: int,
    sender: NodeId,
    time: SimTime,
)
    requires
        start.wf(),
        start.covered(-1),
        end.ends_run(start),
        !end.halted,
        0 <= interferer < start.interferers,
    ensures
        count(end.logged_since(start), end_observations(interferer, sender, time)) == if time
            <= start.end_time {
            count(start.channel.active, ends_at(sender, time)) + count(
                end.logged_since(start),
                endings(start.ids, sender, time),
            )
        } else {
            0
        },
{
    let w = Watch {
        interferer,
        started: arbitrary(),
        sender,
        end: time,
        id: arbitrary(),
        node: -1,
        wake: 0,
    };
    let last = lemma_run_settles(start, end, w);
    let since = end.logged_since(start);
    crate::census::lemma_count_concat(
        start.log,
        since,
        end_observations(interferer, sender, time),
    );
    crate::census::lemma_count_concat(start.log, since, endings(start.ids, sender, time));
    if time <= start.end_time {
        crate::simulation_laws::law_due_transmissions_complete(start, end);
        assert forall|i: int| 0 <= i < end.channel.active.len() implies !ends_at(sender, time)(
            #[trigger] end.channel.active[i],
        ) by {}
        crate::census::lemma_count_none(end.channel.active, ends_at(sender, time));
    } else {
        let n = choose|n: nat| end.ends_run_after(start, n);
        assert(begins(end.log, end.log));
        law_no_call_after_the_end(start, end.log, n);
        assert(start.after(end.log, n).log == end.log);
        assert forall|i: int| 0 <= i < since.len() implies !end_observations(
            interferer,
            sender,
            time,
        )(#[trigger] since[i]) by {
            assert(since[i] == end.log[start.log.len() + i]);
            assert(end.log[start.log.len() + i].time() <= start.end_time);
        }
        crate::census::lemma_count_none(since, end_observations(interferer, sender, time));
    }
}

/// Without interferers, and with identifiers that are all different, every transmission that
/// leaves the air in a finished run has collided or was heard by all nodes but its sender.
pub proof fn law_receptions_add_up(start: Sim, end: Sim)
    requires
        start.wf(),
        start.only_nodes_send(),
        start.channel.completed.len() == 0,
        end.ends_run(start),
        !end.halted,
    ensures
        end.only_nodes_send(),
        end.channel.completed.len() == 0,
        end.metrics.total_rx - start.metrics.total_rx == ((end.metrics.total_tx
            - start.metrics.total_tx) - (end.metrics.total_collisions
            - start.metrics.total_collisions) - (end.channel.active.len()
            - start.channel.active.len())) * (start.ids.len() - 1),
{
    let w = Watch {
        interferer: -1,
        started: arbitrary(),
        sender: arbitrary(),
        end: 0,
        id: arbitrary(),
        node: -1,
        wake: 0,
    };
    let last = lemma_run_settles(start, end, w);
    let others = start.ids.len() - 1;
    let before = start.metrics.total_collisions + start.channel.active.len()
        - start.metrics.total_tx;
    let after = end.metrics.total_collisions + end.channel.active.len() - end.metrics.total_tx;
    assert(before * others - after * others == (before - after) * others) by (nonlinear_arith);
    assert(end.only_nodes_send());
}

/// In a simulation without interferers that has run from its start until nothing is on the air,
/// and whose nodes have identifiers that are all different, the transmissions that did not
/// collide were each heard by all nodes but one.
pub proof fn law_receptions_are_transmissions_less_collisions(start: Sim, end: Sim)
    requires
        start.wf(),
        start.interferers == 0,
        start.ids.no_duplicates(),
        start.metrics == Tally::zero(),
        start.channel.active.len() == 0,
        start.channel.completed.len() == 0,
        end.ends_run(start),
        !end.halted,
        end.channel.active.len() == 0,
    ensures
        end.metrics.total_rx == (end.metrics.total_tx - end.metrics.total_collisions) * (
        end.ids.len() - 1),
{
    law_receptions_add_up(start, end);
    let n = choose|n: nat| end.ends_run_after(start, n);
    assert(begins(end.log, end.log));
    crate::simulation_laws::lemma_after_keeps_wf(start, end.log, n);
}

} // verus!
