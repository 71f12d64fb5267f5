//! What holds of the channel whatever is sent over it.
use crate::channel::{
    completed_outcome, spans_overlap, Air, ChannelConfig, CompletedTx, OnAir, Outcome,
};
use crate::time::SimTime;
use crate::types::{Burst, ChannelEvent, Frame, NodeId};
use vstd::prelude::*;

verus! {

impl Air {
    /// The channel after all of `txs` have begun, one after another.
    pub open spec fn with_all(self, txs: Seq<OnAir>) -> Air
        decreases txs.len(),
    {
        if txs.len() == 0 {
            self
        } else {
            self.with_all(txs.drop_last()).with(txs.last())
        }
    }
}

/// Transmissions to which nothing has happened yet.
pub open spec fn fresh(txs: Seq<OnAir>) -> bool {
    forall|i: int|
        0 <= i < txs.len() ==> !(#[trigger] txs[i]).collided && !txs[i].captured
}

/// Transmission `i` is lost to some other of `txs`.
pub open spec fn loses(txs: Seq<OnAir>, i: int, config: ChannelConfig) -> bool {
    exists|j: int| 0 <= j < txs.len() && j != i && txs[i].loses_to(#[trigger] txs[j], config)
}

/// Transmission `i` survives some other of `txs`.
pub open spec fn captures(txs: Seq<OnAir>, i: int, config: ChannelConfig) -> bool {
    exists|j: int| 0 <= j < txs.len() && j != i && txs[i].captures_over(#[trigger] txs[j], config)
}

/// Transmission `i` with its contention against all others settled.
pub open spec fn settled(txs: Seq<OnAir>, i: int, config: ChannelConfig) -> OnAir {
    OnAir { collided: loses(txs, i, config), captured: captures(txs, i, config), ..txs[i] }
}

/// The instant `t` lies in the time span `[start, end)`.
pub open spec fn in_span(t: SimTime, start: SimTime, end: SimTime) -> bool {
    start <= t < end
}

/// Two time spans, neither of them empty, overlap exactly if some instant lies in both.
pub proof fn law_overlap_is_a_common_instant(
    a_start: SimTime,
    a_end: SimTime,
    b_start: SimTime,
    b_end: SimTime,
)
    requires
        a_start < a_end,
        b_start < b_end,
    ensures
        spans_overlap(a_start, a_end, b_start, b_end) == exists|t: SimTime| #[trigger]
            in_span(t, a_start, a_end) && in_span(t, b_start, b_end),
{
    if spans_overlap(a_start, a_end, b_start, b_end) {
        let t = if a_start <= b_start {
            b_start
        } else {
            a_start
        };
        assert(in_span(t, a_start, a_end) && in_span(t, b_start, b_end));
    }
}

/// Overlap is mutual, and a time span does not overlap one that begins where it ends.
pub proof fn law_overlap_is_mutual(
    a_start: SimTime,
    a_end: SimTime,
    b_start: SimTime,
    b_end: SimTime,
)
    ensures
        spans_overlap(a_start, a_end, b_start, b_end) == spans_overlap(
            b_start,
            b_end,
            a_start,
            a_end,
        ),
        a_end == b_start ==> !spans_overlap(a_start, a_end, b_start, b_end),
{
}

/// Two transmissions that take time contend exactly if they are on the same spreading factor and
/// the same frequency and some instant lies in both; nothing else matters.
pub proof fn law_contention_is_overlap_on_one_channel(a: OnAir, b: OnAir)
    requires
        a.start < a.end,
        b.start < b.end,
    ensures
        a.contends(b) <==> a.sf == b.sf && a.frequency == b.frequency && exists|t: SimTime|
            #[trigger]
            in_span(t, a.start, a.end) && in_span(t, b.start, b.end),
{
    law_overlap_is_a_common_instant(a.start, a.end, b.start, b.end);
}

/// The two transmissions are on the same spreading factor and frequency, and each starts before
/// the other ends.
pub open spec fn meets(a: OnAir, b: OnAir) -> bool {
    a.sf == b.sf && a.frequency == b.frequency && a.start < b.end && b.start < a.end
}

/// In decibels, the lead of `a` over `b` falls short of the rejection threshold.
pub open spec fn falls_short(a: OnAir, b: OnAir, config: ChannelConfig) -> bool {
    (a.tx_power_dbm - b.tx_power_dbm) * 1_000 < config.co_channel_rejection_mdb
}

/// Of two transmissions that meet, one is lost to the other exactly if its lead falls short, and
/// survives the other exactly if it does not; transmissions that do not meet leave each other
/// alone.
pub proof fn law_lead_decides(a: OnAir, b: OnAir, config: ChannelConfig)
    ensures
        a.contends(b) <==> meets(a, b),
        a.loses_to(b, config) <==> meets(a, b) && falls_short(a, b, config),
        a.captures_over(b, config) <==> meets(a, b) && !falls_short(a, b, config),
{
}

/// What is sent goes on the air as it was handed over, from `time` for as long as it takes. It is
/// marked as collided if its lead over one that it meets falls short, and as captured if its lead
/// over one that it meets does not; and so is each of those it meets. Nothing else changes.
pub proof fn law_sending_marks_those_that_meet(air: Air, sender: NodeId, tx: Burst, time: SimTime)
    requires
        time + tx.duration_us <= SimTime::MAX,
    ensures
        ({
            let after = air.begin(sender, tx, time);
            let n = air.active.len() as int;
            let new = after.active[n];
            &&& after.config == air.config
            &&& after.completed == air.completed
            &&& after.active.len() == n + 1
            &&& new.sender == sender
            &&& new.payload == tx.payload
            &&& new.sf == tx.sf
            &&& new.bandwidth == tx.bandwidth
            &&& new.frequency == tx.frequency
            &&& new.tx_power_dbm == tx.tx_power_dbm
            &&& new.start == time
            &&& new.end == time + tx.duration_us
            &&& new.collided <==> exists|i: int|
                0 <= i < n && meets(new, #[trigger] air.active[i]) && falls_short(
                    new,
                    air.active[i],
                    air.config,
                )
            &&& new.captured <==> exists|i: int|
                0 <= i < n && meets(new, #[trigger] air.active[i]) && !falls_short(
                    new,
                    air.active[i],
                    air.config,
                )
            &&& forall|i: int|
                0 <= i < n ==> #[trigger] after.active[i] == (OnAir {
                    collided: air.active[i].collided || (meets(air.active[i], new) && falls_short(
                        air.active[i],
                        new,
                        air.config,
                    )),
                    captured: air.active[i].captured || (meets(air.active[i], new) && !falls_short(
                        air.active[i],
                        new,
                        air.config,
                    )),
                    ..air.active[i]
                })
        }),
{
    let made = OnAir::of(sender, tx, time);
    let after = air.begin(sender, tx, time);
    let n = air.active.len() as int;
    let new = after.active[n];
    assert(new == air.entering(made));
    assert forall|i: int| 0 <= i < n implies meets(new, #[trigger] air.active[i]) == meets(
        made,
        air.active[i],
    ) && falls_short(new, air.active[i], air.config) == falls_short(
        made,
        air.active[i],
        air.config,
    ) by {}
    assert forall|i: int| 0 <= i < n implies made.loses_to(#[trigger] air.active[i], air.config)
        == (meets(made, air.active[i]) && falls_short(made, air.active[i], air.config)) by {}
    assert forall|i: int| 0 <= i < n implies made.captures_over(
        #[trigger] air.active[i],
        air.config,
    ) == (meets(made, air.active[i]) && !falls_short(made, air.active[i], air.config)) by {}
}

/// `at` are positions in `whole`, in ascending order, at which `part` is found.
pub open spec fn picks<A>(whole: Seq<A>, part: Seq<A>, at: Seq<int>) -> bool {
    &&& at.len() == part.len()
    &&& forall|i: int|
        0 <= i < at.len() ==> 0 <= #[trigger] at[i] < whole.len() && part[i] == whole[at[i]]
    &&& forall|i: int, j: int| 0 <= i < j < at.len() ==> #[trigger] at[i] < #[trigger] at[j]
}

proof fn lemma_filter_picks<A>(s: Seq<A>, p: spec_fn(A) -> bool) -> (at: Seq<int>)
    ensures
        picks(s, s.filter(p), at),
        forall|i: int| 0 <= i < s.len() ==> (at.contains(i) <==> #[trigger] p(s[i])),
    decreases s.len(),
{
    reveal(Seq::filter);
    if s.len() == 0 {
        Seq::empty()
    } else {
        let n = s.len() - 1;
        let before = lemma_filter_picks(s.drop_last(), p);
        assert forall|i: int| 0 <= i < n implies (before.contains(i) <==> #[trigger] p(s[i])) by {
            assert(s.drop_last()[i] == s[i]);
        }
        assert forall|i: int| 0 <= i < before.len() implies 0 <= #[trigger] before[i] < n by {}
        assert(!before.contains(n));
        if p(s[n]) {
            let at = before.push(n);
            assert forall|i: int| 0 <= i < s.len() implies (at.contains(i) <==> #[trigger] p(
                s[i],
            )) by {
                if before.contains(i) {
                    let k = choose|k: int| 0 <= k < before.len() && before[k] == i;
                    assert(at[k] == i);
                }
                if at.contains(i) && i != n {
                    let k = choose|k: int| 0 <= k < at.len() && at[k] == i;
                    assert(before[k] == i);
                }
                assert(at[before.len() as int] == n);
            }
            at
        } else {
            before
        }
    }
}

/// Resolving at `time` completes exactly the transmissions that end by then, in the order in which
/// they began, and announces each with its sender, its end and whether it collided; the others
/// stay on the air, in their order.
pub proof fn law_resolving_completes_what_has_ended(air: Air, time: SimTime)
    ensures
        ({
            let after = air.resolve(time);
            let n = air.completed.len() as int;
            let done = after.completed.skip(n);
            &&& after.config == air.config
            &&& after.completed.take(n) == air.completed
            &&& air.completions(time).len() == done.len()
            &&& forall|i: int|
                0 <= i < done.len() ==> #[trigger] air.completions(time)[i] == (
                ChannelEvent::TransmissionCompleted {
                    sender: done[i].sender,
                    time: done[i].end,
                    collided: done[i].collided,
                })
            &&& exists|at: Seq<int>| #[trigger]
                picks(air.active, done, at) && forall|i: int|
                    0 <= i < air.active.len() ==> (at.contains(i) <==> (
                    #[trigger] air.active[i]).end <= time)
            &&& exists|at: Seq<int>| #[trigger]
                picks(air.active, after.active, at) && forall|i: int|
                    0 <= i < air.active.len() ==> (at.contains(i) <==> (
                    #[trigger] air.active[i]).end > time)
        }),
{
    let live = |t: OnAir| t.end > time;
    let done = |t: OnAir| t.end <= time;
    let after = air.resolve(time);
    let n = air.completed.len() as int;
    assert(after.completed.take(n) =~= air.completed);
    assert(after.completed.skip(n) =~= air.active.filter(done));
    let ended = lemma_filter_picks(air.active, done);
    let kept = lemma_filter_picks(air.active, live);
    assert(picks(air.active, after.completed.skip(n), ended));
    assert(picks(air.active, after.active, kept));
    assert forall|i: int| 0 <= i < air.active.len() implies (ended.contains(i) <==> (
    #[trigger] air.active[i]).end <= time) by {
        assert(done(air.active[i]) == (air.active[i].end <= time));
    }
    assert forall|i: int| 0 <= i < air.active.len() implies (kept.contains(i) <==> (
    #[trigger] air.active[i]).end > time) by {
        assert(live(air.active[i]) == (air.active[i].end > time));
    }
}

/// What is heard of `t`: what was sent, when sending ends, and the link budget.
pub open spec fn is_heard_as(t: OnAir, config: ChannelConfig, frame: Frame) -> bool {
    &&& frame.payload == t.payload
    &&& frame.sf == t.sf
    &&& frame.frequency == t.frequency
    &&& frame.time == t.end
    &&& frame.rssi == t.tx_power_dbm * 1_000 - config.path_loss_mdb
    &&& frame.snr == t.tx_power_dbm * 1_000 - config.path_loss_mdb - config.noise_floor_mdbm
}

/// Draining hands out each completed transmission once, in order, with its sender, what became of
/// it and what is heard of it, and leaves none; what is on the air stays.
pub proof fn law_draining_hands_out_everything(air: Air)
    ensures
        air.drained().active == air.active,
        air.drained().config == air.config,
        air.drained().completed.len() == 0,
        air.outcomes().len() == air.completed.len(),
        forall|i: int|
            0 <= i < air.completed.len() ==> (#[trigger] air.outcomes()[i]).sender
                == air.completed[i].sender && air.outcomes()[i].collided
                == air.completed[i].collided && air.outcomes()[i].captured
                == air.completed[i].captured && is_heard_as(
                air.completed[i],
                air.config,
                air.outcomes()[i].frame,
            ),
{
}

/// `at` are the positions, in ascending order, of the completed transmissions that have ended by
/// `time` and did not collide, and `frames` is what is heard of them.
pub open spec fn hands_out(air: Air, time: SimTime, frames: Seq<Frame>, at: Seq<int>) -> bool {
    &&& at.len() == frames.len()
    &&& forall|i: int|
        0 <= i < at.len() ==> 0 <= #[trigger] at[i] < air.completed.len() && is_heard_as(
            air.completed[at[i]],
            air.config,
            frames[i],
        )
    &&& forall|i: int, j: int| 0 <= i < j < at.len() ==> #[trigger] at[i] < #[trigger] at[j]
    &&& forall|i: int|
        0 <= i < air.completed.len() ==> (#[trigger] at.contains(i) <==> (air.completed[i].end
            <= time && !air.completed[i].collided))
}

/// The parts of a drained transmission are its sender, whether it collided, whether it was
/// captured, and what is heard of it, in this order.
pub proof fn law_parts_of_a_drained_transmission(c: CompletedTx)
    ensures
        completed_outcome(c).sender == c.0,
        completed_outcome(c).collided == c.1,
        completed_outcome(c).captured == c.2,
        completed_outcome(c).frame == c.3@,
{
}

/// Delivering at `time` hands out what is heard of exactly those completed transmissions that have
/// ended by then and did not collide, in their order.
pub proof fn law_delivering_hands_out_what_got_through(air: Air, time: SimTime)
    ensures
        exists|at: Seq<int>| hands_out(air, time, air.received(time), at),
{
    let heard = |t: OnAir| t.end <= time && !t.collided;
    let at = lemma_filter_picks(air.completed, heard);
    assert forall|i: int| 0 <= i < at.len() implies 0 <= #[trigger] at[i] < air.completed.len()
        && is_heard_as(air.completed[at[i]], air.config, air.received(time)[i]) by {
        assert(air.completed.filter(heard)[i] == air.completed[at[i]]);
    }
    assert forall|i: int| 0 <= i < air.completed.len() implies (#[trigger] at.contains(i) <==> (
    air.completed[i].end <= time && !air.completed[i].collided)) by {
        assert(heard(air.completed[i]) == (air.completed[i].end <= time
            && !air.completed[i].collided));
    }
    assert(hands_out(air, time, air.received(time), at));
}

/// The LoRa defaults: a path loss of 100 dB, noise at -117 dBm, rejection at 6 dB.
pub proof fn law_lora_defaults()
    ensures
        ChannelConfig::lora().path_loss_mdb == 100_000,
        ChannelConfig::lora().noise_floor_mdbm == -117_000,
        ChannelConfig::lora().co_channel_rejection_mdb == 6_000,
{
}

/// A new channel carries nothing and has the parameters that it is given.
pub proof fn law_idle_channel_is_empty(config: ChannelConfig)
    ensures
        Air::idle(config).config == config,
        Air::idle(config).active.len() == 0,
        Air::idle(config).completed.len() == 0,
{
}

/// Contention is mutual.
pub proof fn law_contention_is_symmetric(a: OnAir, b: OnAir)
    ensures
        a.contends(b) == b.contends(a),
{
}

/// A transmission that starts when another ends, or later, does not contend with it.
pub proof fn law_adjacent_do_not_contend(a: OnAir, b: OnAir)
    requires
        a.end <= b.start,
    ensures
        !a.contends(b),
        !b.contends(a),
{
}

/// Transmissions on different spreading factors or frequencies do not contend.
pub proof fn law_orthogonal_do_not_contend(a: OnAir, b: OnAir)
    requires
        a.sf != b.sf || a.frequency != b.frequency,
    ensures
        !a.contends(b),
{
}

/// Of two contending transmissions at most one survives the other, if the rejection threshold is
/// positive.
pub proof fn law_at_most_one_of_two_survives(a: OnAir, b: OnAir, config: ChannelConfig)
    requires
        config.co_channel_rejection_mdb > 0,
        a.contends(b),
    ensures
        a.loses_to(b, config) || b.loses_to(a, config),
{
}

/// Two contending transmissions of equal power are both lost, if the rejection threshold is
/// positive.
pub proof fn law_equal_powers_destroy_each_other(a: OnAir, b: OnAir, config: ChannelConfig)
    requires
        config.co_channel_rejection_mdb > 0,
        a.contends(b),
        a.tx_power_dbm == b.tx_power_dbm,
    ensures
        a.loses_to(b, config),
        b.loses_to(a, config),
{
}

/// On a channel that carries nothing else, a transmission ends up as collided exactly if it is
/// lost to some other, and as captured exactly if it survives some other, wherever both stand in
/// the order of sending.
pub proof fn law_contention_is_pairwise(config: ChannelConfig, txs: Seq<OnAir>)
    requires
        fresh(txs),
    ensures
        Air::idle(config).with_all(txs).active.len() == txs.len(),
        forall|i: int|
            0 <= i < txs.len() ==> #[trigger] Air::idle(config).with_all(txs).active[i] == settled(
                txs,
                i,
                config,
            ),
        Air::idle(config).with_all(txs).completed.len() == 0,
        Air::idle(config).with_all(txs).config == config,
    decreases txs.len(),
{
    if txs.len() > 0 {
        let fewer = txs.drop_last();
        let new = txs.last();
        let n = txs.len() - 1;
        assert(fresh(fewer));
        law_contention_is_pairwise(config, fewer);
        let before = Air::idle(config).with_all(fewer);
        let after = Air::idle(config).with_all(txs);
        assert forall|i: int| 0 <= i < txs.len() implies #[trigger] after.active[i] == settled(
            txs,
            i,
            config,
        ) by {
            if i < n {
                let was = before.active[i];
                assert(was == settled(fewer, i, config));
                assert(after.active[i] == was.beside(new, config));
                assert(txs[n] == new);
                assert(loses(txs, i, config) <==> loses(fewer, i, config) || txs[i].loses_to(
                    new,
                    config,
                )) by {
                    if loses(fewer, i, config) {
                        let j = choose|j: int|
                            0 <= j < fewer.len() && j != i && fewer[i].loses_to(
                                #[trigger] fewer[j],
                                config,
                            );
                        assert(txs[j] == fewer[j]);
                    }
                    if loses(txs, i, config) && !txs[i].loses_to(new, config) {
                        let j = choose|j: int|
                            0 <= j < txs.len() && j != i && txs[i].loses_to(
                                #[trigger] txs[j],
                                config,
                            );
                        assert(fewer[j] == txs[j]);
                    }
                }
                assert(captures(txs, i, config) <==> captures(fewer, i, config)
                    || txs[i].captures_over(new, config)) by {
                    if captures(fewer, i, config) {
                        let j = choose|j: int|
                            0 <= j < fewer.len() && j != i && fewer[i].captures_over(
                                #[trigger] fewer[j],
                                config,
                            );
                        assert(txs[j] == fewer[j]);
                    }
                    if captures(txs, i, config) && !txs[i].captures_over(new, config) {
                        let j = choose|j: int|
                            0 <= j < txs.len() && j != i && txs[i].captures_over(
                                #[trigger] txs[j],
                                config,
                            );
                        assert(fewer[j] == txs[j]);
                    }
                }
            } else {
                assert(after.active[i] == before.entering(new));
                assert forall|j: int| 0 <= j < n implies before.active[j] == settled(
                    fewer,
                    j,
                    config,
                ) && #[trigger] fewer[j] == txs[j] by {}
                assert(before.entering(new).collided <==> loses(txs, i, config)) by {
                    if before.entering(new).collided {
                        let j = choose|j: int|
                            0 <= j < before.active.len() && new.loses_to(
                                #[trigger] before.active[j],
                                config,
                            );
                        assert(fewer[j] == txs[j]);
                        assert(txs[i].loses_to(txs[j], config));
                    }
                    if loses(txs, i, config) {
                        let j = choose|j: int|
                            0 <= j < txs.len() && j != i && txs[i].loses_to(
                                #[trigger] txs[j],
                                config,
                            );
                        assert(fewer[j] == txs[j]);
                        assert(new.loses_to(before.active[j], config));
                    }
                }
                assert(before.entering(new).captured <==> captures(txs, i, config)) by {
                    if before.entering(new).captured {
                        let j = choose|j: int|
                            0 <= j < before.active.len() && new.captures_over(
                                #[trigger] before.active[j],
                                config,
                            );
                        assert(fewer[j] == txs[j]);
                        assert(txs[i].captures_over(txs[j], config));
                    }
                    if captures(txs, i, config) {
                        let j = choose|j: int|
                            0 <= j < txs.len() && j != i && txs[i].captures_over(
                                #[trigger] txs[j],
                                config,
                            );
                        assert(fewer[j] == txs[j]);
                        assert(new.captures_over(before.active[j], config));
                    }
                }
            }
        }
    }
}

/// The order in which transmissions are handed to an empty channel does not matter: if `b` is
/// `a` in the order given by `from`, every transmission fares the same in both.
pub proof fn law_order_of_sending_does_not_matter(
    config: ChannelConfig,
    a: Seq<OnAir>,
    b: Seq<OnAir>,
    from: spec_fn(int) -> int,
    to: spec_fn(int) -> int,
)
    requires
        fresh(a),
        a.len() == b.len(),
        forall|i: int| 0 <= i < a.len() ==> 0 <= #[trigger] from(i) < a.len() && to(from(i)) == i,
        forall|i: int| 0 <= i < a.len() ==> 0 <= #[trigger] to(i) < a.len() && from(to(i)) == i,
        forall|i: int| 0 <= i < a.len() ==> #[trigger] b[i] == a[from(i)],
    ensures
        forall|i: int|
            0 <= i < a.len() ==> #[trigger] Air::idle(config).with_all(b).active[i] == Air::idle(
                config,
            ).with_all(a).active[from(i)],
{
    assert(fresh(b));
    law_contention_is_pairwise(config, a);
    law_contention_is_pairwise(config, b);
    assert forall|i: int| 0 <= i < a.len() implies #[trigger] Air::idle(config).with_all(
        b,
    ).active[i] == Air::idle(config).with_all(a).active[from(i)] by {
        let f = from(i);
        assert(b[i] == a[f]);
        assert(loses(b, i, config) <==> loses(a, f, config)) by {
            if loses(b, i, config) {
                let j = choose|j: int|
                    0 <= j < b.len() && j != i && b[i].loses_to(#[trigger] b[j], config);
                assert(b[j] == a[from(j)]);
                assert(from(j) != f);
            }
            if loses(a, f, config) {
                let j = choose|j: int|
                    0 <= j < a.len() && j != f && a[f].loses_to(#[trigger] a[j], config);
                assert(b[to(j)] == a[from(to(j))]);
                assert(to(j) != i);
            }
        }
        assert(captures(b, i, config) <==> captures(a, f, config)) by {
            if captures(b, i, config) {
                let j = choose|j: int|
                    0 <= j < b.len() && j != i && b[i].captures_over(#[trigger] b[j], config);
                assert(b[j] == a[from(j)]);
                assert(from(j) != f);
            }
            if captures(a, f, config) {
                let j = choose|j: int|
                    0 <= j < a.len() && j != f && a[f].captures_over(#[trigger] a[j], config);
                assert(b[to(j)] == a[from(to(j))]);
                assert(to(j) != i);
            }
        }
    }
}

/// Every two of `txs` contend.
pub open spec fn all_contend(txs: Seq<OnAir>) -> bool {
    forall|i: int, j: int|
        0 <= i < txs.len() && 0 <= j < txs.len() && i != j ==> (#[trigger] txs[i]).contends(
            #[trigger] txs[j],
        )
}

/// Transmission `i` is stronger than each of the others by the threshold.
pub open spec fn dominates_all(txs: Seq<OnAir>, i: int, config: ChannelConfig) -> bool {
    forall|j: int|
        0 <= j < txs.len() && j != i ==> config.dominates(
            txs[i].tx_power_dbm,
            (#[trigger] txs[j]).tx_power_dbm,
        )
}

/// Among transmissions that all contend with each other, the survivors are exactly those that
/// dominate all others.
pub proof fn law_survivor_dominates_all(config: ChannelConfig, txs: Seq<OnAir>)
    requires
        fresh(txs),
        all_contend(txs),
    ensures
        forall|i: int|
            0 <= i < txs.len() ==> (!(#[trigger] Air::idle(config).with_all(txs).active[i]).collided
                <==> dominates_all(txs, i, config)),
{
    law_contention_is_pairwise(config, txs);
    assert forall|i: int| 0 <= i < txs.len() implies (!(#[trigger] Air::idle(config).with_all(
        txs,
    ).active[i]).collided <==> dominates_all(txs, i, config)) by {
        if !loses(txs, i, config) {
            assert forall|j: int| 0 <= j < txs.len() && j != i implies config.dominates(
                txs[i].tx_power_dbm,
                (#[trigger] txs[j]).tx_power_dbm,
            ) by {
                assert(txs[i].contends(txs[j]));
                assert(!txs[i].loses_to(txs[j], config));
            }
        }
    }
}

/// Among transmissions that all contend with each other at most one survives, if the rejection
/// threshold is positive. (With a threshold of zero or less, equally strong ones all survive.)
pub proof fn law_at_most_one_survivor(config: ChannelConfig, txs: Seq<OnAir>, i: int, j: int)
    requires
        fresh(txs),
        all_contend(txs),
        config.co_channel_rejection_mdb > 0,
        0 <= i < txs.len(),
        0 <= j < txs.len(),
        !Air::idle(config).with_all(txs).active[i].collided,
        !Air::idle(config).with_all(txs).active[j].collided,
    ensures
        i == j,
{
    law_survivor_dominates_all(config, txs);
    assert(dominates_all(txs, i, config));
    assert(dominates_all(txs, j, config));
    if i != j {
        assert(config.dominates(txs[i].tx_power_dbm, txs[j].tx_power_dbm));
        assert(config.dominates(txs[j].tx_power_dbm, txs[i].tx_power_dbm));
    }
}

/// A transmission that contends with no other is neither collided nor captured.
pub proof fn law_uncontended_gets_through(config: ChannelConfig, txs: Seq<OnAir>, i: int)
    requires
        fresh(txs),
        0 <= i < txs.len(),
        forall|j: int|
            0 <= j < txs.len() && j != i ==> !txs[i].contends(#[trigger] txs[j]),
    ensures
        Air::idle(config).with_all(txs).active[i] == txs[i],
{
    law_contention_is_pairwise(config, txs);
}

/// Contention leaves the frame that receivers hear unchanged: it is made of what was sent, the
/// time at which sending ends and the link budget.
pub proof fn law_frame_is_what_was_sent(
    air: Air,
    sender: NodeId,
    tx: Burst,
    time: SimTime,
    other: OnAir,
)
    ensures
        air.entering(OnAir::of(sender, tx, time)).beside(other, air.config).outcome(
            air.config,
        ).frame == (Frame {
            payload: tx.payload,
            rssi: air.config.rssi(tx.tx_power_dbm) as i64,
            snr: (air.config.rssi(tx.tx_power_dbm) - air.config.noise_floor_mdbm) as i64,
            sf: tx.sf,
            frequency: tx.frequency,
            time: (time + tx.duration_us) as SimTime,
        }),
{
}

proof fn lemma_filter_split<A>(s: Seq<A>, p: spec_fn(A) -> bool, q: spec_fn(A) -> bool)
    requires
        forall|a: A| #[trigger] p(a) <==> !q(a),
    ensures
        s.filter(p).to_multiset().add(s.filter(q).to_multiset()) == s.to_multiset(),
    decreases s.len(),
{
    broadcast use vstd::seq_lib::group_to_multiset_ensures;

    reveal(Seq::filter);
    if s.len() == 0 {
        assert(s.filter(p).to_multiset().add(s.filter(q).to_multiset()) =~= s.to_multiset());
    } else {
        let rest = s.drop_last();
        lemma_filter_split(rest, p, q);
        assert(s =~= rest.push(s.last()));
        assert(p(s.last()) <==> !q(s.last()));
        assert(s.filter(p).to_multiset().add(s.filter(q).to_multiset()) =~= rest.filter(
            p,
        ).to_multiset().add(rest.filter(q).to_multiset()).insert(s.last()));
        assert(s.to_multiset() =~= rest.to_multiset().insert(s.last()));
    }
}

/// Resolving loses and invents nothing: every transmission is still on the air or completed.
pub proof fn law_resolve_conserves(air: Air, time: SimTime)
    ensures
        air.resolve(time).active.to_multiset().add(air.resolve(time).completed.to_multiset())
            == air.active.to_multiset().add(air.completed.to_multiset()),
        air.resolve(time).active.len() + air.resolve(time).completed.len() == air.active.len()
            + air.completed.len(),
{
    let live = |t: OnAir| t.end > time;
    let done = |t: OnAir| t.end <= time;
    lemma_filter_split(air.active, live, done);
    vstd::seq_lib::lemma_multiset_commutative(air.completed, air.ended(time));
    assert(air.resolve(time).active.to_multiset().add(air.resolve(time).completed.to_multiset())
        =~= air.active.to_multiset().add(air.completed.to_multiset()));
    broadcast use vstd::seq_lib::group_to_multiset_ensures;

    assert(air.active.filter(live).to_multiset().add(
        air.active.filter(done).to_multiset(),
    ).len() == air.active.filter(live).len() + air.active.filter(done).len());
}

/// After resolving, exactly the transmissions that end later are on the air; all that were moved
/// had ended.
pub proof fn law_resolve_separates_by_end(air: Air, time: SimTime)
    ensures
        forall|i: int|
            0 <= i < air.resolve(time).active.len() ==> (#[trigger] air.resolve(
                time,
            ).active[i]).end > time,
        forall|i: int|
            0 <= i < air.ended(time).len() ==> (#[trigger] air.ended(time)[i]).end <= time,
        forall|i: int|
            0 <= i < air.active.len() && air.active[i].end > time ==> air.resolve(
                time,
            ).active.contains(#[trigger] air.active[i]),
        forall|i: int|
            0 <= i < air.active.len() && air.active[i].end <= time ==> air.ended(time).contains(
                #[trigger] air.active[i],
            ),
{
    broadcast use vstd::seq_lib::group_filter_ensures;

    let live = |t: OnAir| t.end > time;
    let done = |t: OnAir| t.end <= time;
    assert forall|i: int| 0 <= i < air.resolve(time).active.len() implies (#[trigger] air.resolve(
        time,
    ).active[i]).end > time by {
        assert(live(air.active.filter(live)[i]));
    }
    assert forall|i: int| 0 <= i < air.ended(time).len() implies (#[trigger] air.ended(
        time,
    )[i]).end <= time by {
        assert(done(air.active.filter(done)[i]));
    }
    assert forall|i: int|
        0 <= i < air.active.len() && air.active[i].end > time implies air.resolve(
        time,
    ).active.contains(#[trigger] air.active[i]) by {
        assert(live(air.active[i]));
    }
    assert forall|i: int|
        0 <= i < air.active.len() && air.active[i].end <= time implies air.ended(time).contains(
        #[trigger] air.active[i],
    ) by {
        assert(done(air.active[i]));
    }
}

/// Frames that `deliver_to` gives are those of the drained transmissions that did not collide
/// and ended by `time`, in the same order.
pub proof fn law_deliver_agrees_with_drain(air: Air, time: SimTime)
    ensures
        air.received(time) == air.outcomes().filter(
            |o: Outcome| !o.collided && o.frame.time <= time,
        ).map_values(|o: Outcome| o.frame),
    decreases air.completed.len(),
{
    let heard = |t: OnAir| t.end <= time && !t.collided;
    let kept = |o: Outcome| !o.collided && o.frame.time <= time;
    let as_frame = |t: OnAir| t.frame(air.config);
    let as_outcome = |t: OnAir| t.outcome(air.config);
    let frame_of = |o: Outcome| o.frame;
    reveal(Seq::filter);
    if air.completed.len() == 0 {
        assert(air.outcomes() =~= Seq::empty());
        assert(air.received(time) =~= air.outcomes().filter(kept).map_values(frame_of));
    } else {
        let fewer = Air { completed: air.completed.drop_last(), ..air };
        let last = air.completed.last();
        law_deliver_agrees_with_drain(fewer, time);
        assert(air.outcomes().drop_last() =~= fewer.outcomes());
        assert(air.outcomes().last() == last.outcome(air.config));
        if heard(last) {
            assert(fewer.completed.filter(heard).push(last).map_values(as_frame)
                =~= fewer.completed.filter(heard).map_values(as_frame).push(
                last.frame(air.config),
            ));
            assert(fewer.outcomes().filter(kept).push(last.outcome(air.config)).map_values(
                frame_of,
            ) =~= fewer.outcomes().filter(kept).map_values(frame_of).push(
                last.frame(air.config),
            ));
        }
    }
}

proof fn lemma_filter_of_map<A>(s: Seq<A>, f: spec_fn(A) -> A, p: spec_fn(A) -> bool)
    requires
        forall|a: A| p(#[trigger] f(a)) == p(a),
    ensures
        s.map_values(f).filter(p) == s.filter(p).map_values(f),
    decreases s.len(),
{
    reveal(Seq::filter);
    if s.len() == 0 {
        assert(s.map_values(f).filter(p) =~= s.filter(p).map_values(f));
    } else {
        let rest = s.drop_last();
        lemma_filter_of_map(rest, f, p);
        assert(s.map_values(f).drop_last() =~= rest.map_values(f));
        assert(s.map_values(f).last() == f(s.last()));
        assert(p(f(s.last())) == p(s.last()));
        if p(s.last()) {
            assert(rest.filter(p).push(s.last()).map_values(f) =~= rest.filter(p).map_values(
                f,
            ).push(f(s.last())));
        }
    }
}

/// It makes no difference whether ended transmissions are resolved before or after one that
/// starts no earlier goes on the air: what has ended takes part in no further contention.
pub proof fn law_resolving_commutes_with_later_sending(air: Air, new: OnAir, time: SimTime)
    requires
        time <= new.start,
        time < new.end,
    ensures
        air.with(new).resolve(time) == air.resolve(time).with(new),
{
    let config = air.config;
    let live = |t: OnAir| t.end > time;
    let done = |t: OnAir| t.end <= time;
    let f = |t: OnAir| t.beside(new, config);
    let first = air.with(new).resolve(time);
    let second = air.resolve(time).with(new);
    assert(air.with(new).active =~= air.active.map_values(f).push(air.entering(new)));
    assert(air.with(new).active.drop_last() =~= air.active.map_values(f));
    lemma_filter_of_map(air.active, f, live);
    lemma_filter_of_map(air.active, f, done);
    reveal(Seq::filter);
    assert(live(air.entering(new)));
    assert(!done(air.entering(new)));
    broadcast use vstd::seq_lib::group_filter_ensures;

    assert(air.active.filter(done).map_values(f) =~= air.active.filter(done)) by {
        assert forall|i: int| 0 <= i < air.active.filter(done).len() implies f(
            #[trigger] air.active.filter(done)[i],
        ) == air.active.filter(done)[i] by {
            assert(done(air.active.filter(done)[i]));
        }
    }
    assert(first.completed =~= second.completed);
    let kept = air.active.filter(live);
    assert(air.entering(new).collided == air.resolve(time).entering(new).collided) by {
        if air.entering(new).collided {
            let i = choose|i: int|
                0 <= i < air.active.len() && new.loses_to(#[trigger] air.active[i], config);
            assert(live(air.active[i]));
            assert(kept.contains(air.active[i]));
            let k = choose|k: int| 0 <= k < kept.len() && kept[k] == air.active[i];
            assert(new.loses_to(air.resolve(time).active[k], config));
        }
        if air.resolve(time).entering(new).collided {
            let k = choose|k: int|
                0 <= k < kept.len() && new.loses_to(
                    #[trigger] air.resolve(time).active[k],
                    config,
                );
            air.active.lemma_filter_contains_rev(live, kept[k]);
            let i = choose|i: int| 0 <= i < air.active.len() && air.active[i] == kept[k];
            assert(new.loses_to(air.active[i], config));
        }
    }
    assert(air.entering(new).captured == air.resolve(time).entering(new).captured) by {
        if air.entering(new).captured {
            let i = choose|i: int|
                0 <= i < air.active.len() && new.captures_over(#[trigger] air.active[i], config);
            assert(live(air.active[i]));
            assert(kept.contains(air.active[i]));
            let k = choose|k: int| 0 <= k < kept.len() && kept[k] == air.active[i];
            assert(new.captures_over(air.resolve(time).active[k], config));
        }
        if air.resolve(time).entering(new).captured {
            let k = choose|k: int|
                0 <= k < kept.len() && new.captures_over(
                    #[trigger] air.resolve(time).active[k],
                    config,
                );
            air.active.lemma_filter_contains_rev(live, kept[k]);
            let i = choose|i: int| 0 <= i < air.active.len() && air.active[i] == kept[k];
            assert(new.captures_over(air.active[i], config));
        }
    }
    assert(first.active =~= second.active);
}

} // verus!
