//! What holds of the ALOHA node and its traffic model whatever they are asked.
use crate::aloha::{
    accepted, arrival_at, draw, draws, window, AlohaState, Arrival, Phase, TrafficState,
    LORA_SF7_DURATION_US,
};
use crate::time::SimTime;
use crate::types::Burst;
use crate::xorshift::{iterate, xorshift};
use vstd::prelude::*;

verus! {

/// A draw always comes to an end: for every state and range there is a result.
pub proof fn law_draw_exists(x: u64, range: u64)
    ensures
        exists|value: u64, next: u64| draw(x, range, value, next),
{
    if range <= 1 {
        assert(draw(x, range, 0, x));
    } else {
        crate::xorshift::lemma_some_state_is_low(xorshift(x));
        let low = choose|k: nat|
            k < 65 && #[trigger] iterate(xorshift(x), k) < 0x8000_0000_0000_0000;
        crate::xorshift::lemma_iterate_from_next(x, low);
        crate::aloha::lemma_low_is_accepted(iterate(x, low + 1), range);
        lemma_first_accepted(x, range, low + 1);
        let k = choose|k: nat| #[trigger] draws(x, range, k);
        let next = iterate(x, k);
        assert(draw(x, range, next % range, next));
    }
}

proof fn lemma_first_accepted(x: u64, range: u64, k: nat)
    requires
        k > 0,
        accepted(iterate(x, k), range),
    ensures
        exists|j: nat| #[trigger] draws(x, range, j),
    decreases k,
{
    if exists|j: nat| 0 < j < k && accepted(#[trigger] iterate(x, j), range) {
        let j = choose|j: nat| 0 < j < k && accepted(#[trigger] iterate(x, j), range);
        lemma_first_accepted(x, range, j);
    } else {
        assert(draws(x, range, k));
    }
}

/// A draw is determined by the state and the range.
pub proof fn law_draw_is_unique(
    x: u64,
    range: u64,
    value_a: u64,
    next_a: u64,
    value_b: u64,
    next_b: u64,
)
    requires
        draw(x, range, value_a, next_a),
        draw(x, range, value_b, next_b),
    ensures
        value_a == value_b,
        next_a == next_b,
{
    if range > 1 {
        let j = choose|k: nat|
            #![trigger iterate(x, k)]
            draws(x, range, k) && next_a == iterate(x, k) && value_a == next_a % range;
        let k = choose|k: nat|
            #![trigger iterate(x, k)]
            draws(x, range, k) && next_b == iterate(x, k) && value_b == next_b % range;
        if j < k {
            assert(!accepted(iterate(x, j), range));
        } else if k < j {
            assert(!accepted(iterate(x, k), range));
        }
    }
}

/// A draw takes the first output that lies below the largest multiple of the range, and keeps
/// its remainder. A range of at most one takes no output.
pub proof fn law_draw_takes_the_first_fair_output(x: u64, range: u64, value: u64, next: u64)
    requires
        draw(x, range, value, next),
    ensures
        range <= 1 ==> value == 0 && next == x,
        range > 1 ==> value as int == next as int % range as int && exists|k: nat|
            #![trigger iterate(x, k)]
            k > 0 && next == iterate(x, k) && next < range * (u64::MAX as int / range as int)
                && forall|j: nat|
                0 < j < k ==> #[trigger] iterate(x, j) >= range * (u64::MAX as int / range as int),
{
    if range > 1 {
        lemma_whole_ranges(range);
        let k = choose|k: nat|
            #![trigger iterate(x, k)]
            draws(x, range, k) && next == iterate(x, k) && value == next % range;
        assert(accepted(iterate(x, k), range));
        assert forall|j: nat| 0 < j < k implies #[trigger] iterate(x, j) >= range * (u64::MAX as int
            / range as int) by {
            assert(!accepted(iterate(x, j), range));
        }
    }
}

proof fn lemma_whole_ranges(range: u64)
    requires
        range > 0,
    ensures
        u64::MAX - u64::MAX % range == range * (u64::MAX as int / range as int),
{
    vstd::arithmetic::div_mod::lemma_fundamental_div_mod(u64::MAX as int, range as int);
}

/// Draws are unbiased: of the outputs that are kept, each remainder below the range is taken by
/// the same number, `u64::MAX / range`, namely by the remainder itself plus each smaller multiple
/// of the range.
pub proof fn law_draws_are_unbiased(range: u64, remainder: u64, multiple: nat)
    requires
        range > 1,
        remainder < range,
        remainder + multiple * range <= u64::MAX,
    ensures
        accepted((remainder + multiple * range) as u64, range) <==> multiple < u64::MAX as int
            / range as int,
        (remainder + multiple * range) % range as int == remainder,
{
    lemma_whole_ranges(range);
    let most = u64::MAX as int / range as int;
    let v = remainder + multiple * range;
    if multiple < most {
        assert(v < range * most) by (nonlinear_arith)
            requires
                v == remainder + multiple * range,
                multiple + 1 <= most,
                remainder < range,
        ;
    } else {
        assert(v >= range * most) by (nonlinear_arith)
            requires
                v == remainder + multiple * range,
                multiple >= most,
                remainder >= 0,
                range > 0,
        ;
    }
    vstd::arithmetic::div_mod::lemma_mod_multiples_vanish(
        multiple as int,
        remainder as int,
        range as int,
    );
    assert(multiple * range == range * multiple) by (nonlinear_arith);
    vstd::arithmetic::div_mod::lemma_small_mod(remainder as nat, range as nat);
}

/// A draw stays below its range.
pub proof fn law_draw_stays_below(x: u64, range: u64, value: u64, next: u64)
    requires
        draw(x, range, value, next),
        range > 0,
    ensures
        value < range,
{
}

/// What a draw below `range` in state `x` yields, and the state that it leads to.
pub open spec fn drawn(x: u64, range: u64) -> (u64, u64) {
    choose|r: (u64, u64)| draw(x, range, r.0, r.1)
}

/// The state after `k` draws below `range`, starting in state `x`.
pub open spec fn state_after_draws(x: u64, range: u64, k: nat) -> u64
    decreases k,
{
    if k == 0 {
        x
    } else {
        drawn(state_after_draws(x, range, (k - 1) as nat), range).1
    }
}

/// What the draw below `range` yields that comes after `k` others, starting in state `x`.
pub open spec fn nth_draw(x: u64, range: u64, k: nat) -> u64 {
    drawn(state_after_draws(x, range, k), range).0
}

/// A draw yields the one value, and leads to the one state, that the state and the range fix.
pub proof fn law_draw_is_drawn(x: u64, range: u64, value: u64, next: u64)
    ensures
        draw(x, range, value, next) <==> (value, next) == drawn(x, range),
{
    law_draw_exists(x, range);
    let (v, n) = choose|v: u64, n: u64| draw(x, range, v, n);
    assert(draw(x, range, (v, n).0, (v, n).1));
    let r = drawn(x, range);
    assert(draw(x, range, r.0, r.1));
    if draw(x, range, value, next) {
        law_draw_is_unique(x, range, value, next, r.0, r.1);
    }
}

/// Draws below one `range`, made one after another, yield the values that the first state fixes:
/// the draw after `k` others yields the `nth_draw`.
pub proof fn law_successive_draws_are_fixed(
    states: Seq<u64>,
    range: u64,
    values: Seq<u64>,
    k: nat,
)
    requires
        states.len() == values.len() + 1,
        forall|i: int|
            0 <= i < values.len() ==> draw(#[trigger] states[i], range, values[i], states[i + 1]),
        k < values.len(),
    ensures
        states[k as int] == state_after_draws(states[0], range, k),
        values[k as int] == nth_draw(states[0], range, k),
    decreases k,
{
    if k > 0 {
        law_successive_draws_are_fixed(states, range, values, (k - 1) as nat);
        law_draw_is_drawn(states[k - 1], range, values[k - 1], states[k as int]);
    }
    law_draw_is_drawn(states[k as int], range, values[k as int], states[k as int + 1]);
}

/// The next packet arrives no sooner than half the mean interval after the last one, and less
/// than one and a half mean intervals after it; if the mean interval is zero, it arrives at once.
pub proof fn law_interarrival_times_are_bounded(
    before: TrafficState,
    after: TrafficState,
    time: SimTime,
    arrival: SimTime,
)
    requires
        before.rescheduled(time, after),
        after.arrival == (Arrival::At { time: arrival }),
    ensures
        time + before.mean_us / 2 <= arrival < time + before.mean_us / 2 + window(before.mean_us),
{
    let offset = choose|offset: u64| #[trigger]
        draw(before.rng, window(before.mean_us), offset, after.rng)
            && after.arrival == arrival_at(time + before.mean_us / 2 + offset);
    law_draw_stays_below(before.rng, window(before.mean_us), offset, after.rng);
}

/// No packet is ready sooner than half the mean interval after the last one was scheduled.
pub proof fn law_packets_are_spaced(
    before: TrafficState,
    after: TrafficState,
    time: SimTime,
    later: SimTime,
)
    requires
        before.rescheduled(time, after),
        after.ready(later),
    ensures
        later >= time + before.mean_us / 2,
{
}

/// `states` are those that a traffic model goes through as it is polled at `times`.
pub open spec fn polled(states: Seq<TrafficState>, times: Seq<SimTime>) -> bool {
    &&& states.len() == times.len() + 1
    &&& forall|i: int|
        0 <= i < times.len() ==> (#[trigger] states[i]).after_poll(times[i], states[i + 1])
}

/// The `i`-th poll draws an interval: it is the first, or a packet is ready.
pub open spec fn draws_interval(states: Seq<TrafficState>, times: Seq<SimTime>, i: int) -> bool {
    states[i].arrival is Unscheduled || states[i].ready(times[i])
}

/// How many of the first `i` polls draw an interval.
pub open spec fn intervals_drawn(states: Seq<TrafficState>, times: Seq<SimTime>, i: nat) -> nat
    decreases i,
{
    if i == 0 {
        0
    } else {
        intervals_drawn(states, times, (i - 1) as nat) + if draws_interval(states, times, i - 1) {
            1nat
        } else {
            0
        }
    }
}

/// However a traffic model is polled, its mean interval stays, and its generator has made as many
/// draws as intervals were drawn.
proof fn lemma_intervals_use_up_draws(states: Seq<TrafficState>, times: Seq<SimTime>, i: nat)
    requires
        polled(states, times),
        i <= times.len(),
    ensures
        states[i as int].mean_us == states[0].mean_us,
        states[i as int].rng == state_after_draws(
            states[0].rng,
            window(states[0].mean_us),
            intervals_drawn(states, times, i),
        ),
    decreases i,
{
    if i > 0 {
        lemma_intervals_use_up_draws(states, times, (i - 1) as nat);
        let before = states[i - 1];
        let after = states[i as int];
        assert(before.after_poll(times[i - 1], after));
        if draws_interval(states, times, i - 1) {
            let offset = choose|offset: u64| #[trigger]
                draw(before.rng, window(before.mean_us), offset, after.rng) && after.arrival
                    == arrival_at(times[i - 1] + before.mean_us / 2 + offset);
            law_draw_is_drawn(before.rng, window(before.mean_us), offset, after.rng);
        }
    }
}

/// The intervals of a traffic model are the draws of its generator, one after another: the
/// interval that is drawn after `k` others is half the mean interval plus the draw after `k`
/// others, from the state that the generator had at first. It is at least half the mean interval
/// and less than one and a half.
pub proof fn law_intervals_are_successive_draws(
    states: Seq<TrafficState>,
    times: Seq<SimTime>,
    i: int,
)
    requires
        polled(states, times),
        0 <= i < times.len(),
        draws_interval(states, times, i),
    ensures
        ({
            let mean = states[0].mean_us;
            let offset = nth_draw(
                states[0].rng,
                window(mean),
                intervals_drawn(states, times, i as nat),
            );
            &&& states[i + 1].mean_us == mean
            &&& states[i + 1].arrival == if times[i] + mean / 2 + offset <= u64::MAX {
                Arrival::At { time: (times[i] + mean / 2 + offset) as SimTime }
            } else {
                Arrival::Never
            }
            &&& mean > 0 ==> offset < mean
            &&& mean == 0 ==> offset == 0
        }),
{
    lemma_intervals_use_up_draws(states, times, i as nat);
    let before = states[i];
    let after = states[i + 1];
    assert(before.after_poll(times[i], after));
    let offset = choose|offset: u64| #[trigger]
        draw(before.rng, window(before.mean_us), offset, after.rng) && after.arrival == arrival_at(
            times[i] + before.mean_us / 2 + offset,
        );
    law_draw_is_drawn(before.rng, window(before.mean_us), offset, after.rng);
    law_draw_stays_below(before.rng, window(before.mean_us), offset, after.rng);
}

/// A traffic model has a packet exactly if it has scheduled one for the time of the poll or
/// earlier; the packet is one byte, of value one. A poll draws a new interval exactly if it has a
/// packet or is the first; otherwise it changes nothing.
pub proof fn law_packets_come_when_scheduled(s: TrafficState, time: SimTime, next: TrafficState)
    requires
        s.after_poll(time, next),
    ensures
        match s.arrival {
            Arrival::Unscheduled => s.answer(time) is None,
            Arrival::At { time: arrival } => if arrival <= time {
                s.answer(time) == Some(seq![1u8])
            } else {
                s.answer(time) is None && next == s
            },
            Arrival::Never => s.answer(time) is None && next == s,
        },
        next.mean_us == s.mean_us,
        s.arrival is Unscheduled || (s.arrival matches Arrival::At { time: arrival } && arrival
            <= time) ==> {
            let (offset, rng) = drawn(
                s.rng,
                if s.mean_us == 0 {
                    1
                } else {
                    s.mean_us
                },
            );
            &&& next.rng == rng
            &&& next.arrival == if time + s.mean_us / 2 + offset <= u64::MAX {
                Arrival::At { time: (time + s.mean_us / 2 + offset) as SimTime }
            } else {
                Arrival::Never
            }
        },
{
    if s.arrival is Unscheduled || s.ready(time) {
        let offset = choose|offset: u64| #[trigger]
            draw(s.rng, window(s.mean_us), offset, next.rng) && next.arrival == arrival_at(
                time + s.mean_us / 2 + offset,
            );
        law_draw_is_drawn(s.rng, window(s.mean_us), offset, next.rng);
    }
}

/// A node asks its traffic model exactly if it is idle or the time of its backoff has come. What
/// the model has is staged as it is, for transmission at once; if it has nothing, the node asks
/// to be woken one polling interval later.
pub proof fn law_payload_is_staged_at_once(
    s: AlohaState,
    time: SimTime,
    payload: Option<Seq<u8>>,
)
    ensures
        s.wants_payload(time) <==> s.phase is Idle || (s.phase matches Phase::Backoff { until }
            && until <= time),
        s.wants_payload(time) ==> match payload {
            Some(bytes) => s.after_update(time, payload) == (
                AlohaState { phase: Phase::ReadyToTransmit, pending: Some(bytes), ..s },
                Some(time),
            ),
            None => s.after_update(time, payload).0 == (AlohaState { phase: Phase::Idle, ..s })
                && match s.after_update(time, payload).1 {
                Some(wake) => wake == time + s.poll_interval_us,
                None => time + s.poll_interval_us > u64::MAX,
            },
        },
{
}

/// A node that is ready hands out its staged payload, as it is, in a transmission with the fixed
/// parameters of the protocol, and has nothing staged afterwards; any other node hands out nothing
/// and stays as it is.
pub proof fn law_poll_hands_out_what_is_staged(s: AlohaState, next: AlohaState)
    requires
        s.after_poll(next),
    ensures
        s.phase is ReadyToTransmit && s.pending is Some ==> s.answer() == Some(
            Burst {
                payload: s.pending->0,
                sf: 7,
                bandwidth: 125_000,
                coding_rate: 5,
                frequency: 868_100_000,
                duration_us: 56_000,
                tx_power_dbm: 14,
            },
        ) && next.pending is None && next.phase is AwaitingBackoffStart,
        !(s.phase is ReadyToTransmit && s.pending is Some) ==> s.answer() is None && next == s,
        next.id == s.id,
        next.backoff_range_us == s.backoff_range_us,
        next.poll_interval_us == s.poll_interval_us,
{
}

/// The first update after a transmission, at `time`, sets the backoff: one time-on-air of 56
/// milliseconds plus the backoff that was drawn, or silence if that outlasts the clock. Nothing
/// else changes.
pub proof fn law_backoff_starts_with_the_next_update(
    s: AlohaState,
    time: SimTime,
    payload: Option<Seq<u8>>,
)
    requires
        s.phase is AwaitingBackoffStart,
    ensures
        ({
            let until = time + 56_000 + s.phase->duration_us;
            let (next, wake) = s.after_update(time, payload);
            if until <= u64::MAX {
                next == (AlohaState { phase: Phase::Backoff { until: until as SimTime }, ..s })
                    && wake == Some(until as SimTime)
            } else {
                next == (AlohaState { phase: Phase::Silent, ..s }) && wake is None
            }
        }),
{
}

/// While a node waits it asks its traffic model for nothing: before its backoff is over it asks
/// to be woken when it is, and one whose backoff outlasts the clock never asks again.
pub proof fn law_waiting_node_waits(s: AlohaState, time: SimTime, payload: Option<Seq<u8>>)
    ensures
        s.phase matches Phase::Backoff { until } && time < until ==> !s.wants_payload(time)
            && s.after_update(time, payload) == (s, Some(s.phase->until)),
        s.phase is Silent ==> !s.wants_payload(time) && s.after_update(time, payload) == (
            s,
            None::<SimTime>,
        ),
        s.phase is ReadyToTransmit ==> !s.wants_payload(time) && s.after_update(time, payload) == (
            s,
            Some(time),
        ),
{
}

impl AlohaState {
    /// A payload is staged exactly when the node is ready to transmit.
    pub open spec fn consistent(self) -> bool {
        self.phase is ReadyToTransmit <==> self.pending is Some
    }
}

/// Whatever happens to a node, a payload is staged exactly when the node is ready to transmit.
pub proof fn law_payload_is_staged_when_ready(
    s: AlohaState,
    time: SimTime,
    payload: Option<Seq<u8>>,
    polled: AlohaState,
)
    requires
        s.consistent(),
        s.after_poll(polled),
    ensures
        s.after_update(time, payload).0.consistent(),
        polled.consistent(),
{
}

/// A payload is handed out once: right after a poll, another poll has nothing to hand out.
pub proof fn law_payload_is_handed_out_once(s: AlohaState, polled: AlohaState)
    requires
        s.after_poll(polled),
    ensures
        !polled.transmits(),
{
}

/// A staged payload stays staged through every update until it is polled.
pub proof fn law_staged_payload_is_kept(s: AlohaState, time: SimTime, payload: Option<Seq<u8>>)
    requires
        s.transmits(),
    ensures
        s.after_update(time, payload) == (s, Some(time)),
{
}

/// An update asks to be repeated at its own time or later, never in the past.
pub proof fn law_aloha_is_punctual(s: AlohaState, time: SimTime, payload: Option<Seq<u8>>)
    ensures
        s.after_update(time, payload).1 matches Some(wake) ==> wake >= time,
{
}

/// A node keeps asking to be woken, unless the next time lies past the end of the clock or its
/// backoff did.
pub proof fn law_aloha_keeps_waking(s: AlohaState, time: SimTime, payload: Option<Seq<u8>>)
    requires
        !(s.phase is Silent),
        time + s.poll_interval_us <= SimTime::MAX,
        s.phase matches Phase::AwaitingBackoffStart { duration_us } ==> time
            + LORA_SF7_DURATION_US + duration_us <= SimTime::MAX,
    ensures
        s.after_update(time, payload).1 is Some,
{
}

/// Something that happens to a node.
pub enum Happening {
    Update { time: SimTime, payload: Option<Seq<u8>> },
    Poll { time: SimTime },
    Receive { time: SimTime },
}

impl Happening {
    pub open spec fn time(self) -> SimTime {
        match self {
            Happening::Update { time, .. } => time,
            Happening::Poll { time } => time,
            Happening::Receive { time } => time,
        }
    }

    /// `after` follows from `before`.
    pub open spec fn leads(self, before: AlohaState, after: AlohaState) -> bool {
        match self {
            Happening::Update { time, payload } => after == before.after_update(time, payload).0,
            Happening::Poll { .. } => before.after_poll(after),
            Happening::Receive { .. } => after == before,
        }
    }
}

/// `states` are those that a node goes through as `happenings` befall it, one after another.
pub open spec fn history(states: Seq<AlohaState>, happenings: Seq<Happening>) -> bool {
    &&& states.len() == happenings.len() + 1
    &&& forall|i: int|
        0 <= i < happenings.len() ==> (#[trigger] happenings[i]).leads(states[i], states[i + 1])
}

/// `states` are those that a node goes through as `happenings` befall it, one after another in
/// the order of time.
pub open spec fn life(states: Seq<AlohaState>, happenings: Seq<Happening>) -> bool {
    &&& history(states, happenings)
    &&& forall|i: int, j: int|
        0 <= i <= j < happenings.len() ==> (#[trigger] happenings[i]).time() <= (
        #[trigger] happenings[j]).time()
}

/// The node transmits at the `i`-th happening.
pub open spec fn transmits_at(states: Seq<AlohaState>, happenings: Seq<Happening>, i: int) -> bool {
    happenings[i] is Poll && states[i].transmits()
}

spec fn holds_back(s: AlohaState, until: int) -> bool {
    match s.phase {
        Phase::AwaitingBackoffStart { .. } => true,
        Phase::Silent => true,
        Phase::Backoff { until: t } => t >= until,
        _ => false,
    }
}

proof fn lemma_node_holds_back(
    states: Seq<AlohaState>,
    happenings: Seq<Happening>,
    i: int,
    k: int,
)
    requires
        life(states, happenings),
        0 <= i < k <= happenings.len(),
        transmits_at(states, happenings, i),
    ensures
        holds_back(states[k], happenings[i].time() + LORA_SF7_DURATION_US) || happenings[k
            - 1].time() >= happenings[i].time() + LORA_SF7_DURATION_US,
    decreases k,
{
    let limit = happenings[i].time() + LORA_SF7_DURATION_US;
    assert(happenings[k - 1].leads(states[k - 1], states[k]));
    if k == i + 1 {
    } else {
        lemma_node_holds_back(states, happenings, i, k - 1);
        assert(happenings[k - 2].time() <= happenings[k - 1].time());
        assert(happenings[i].time() <= happenings[k - 1].time());
    }
}

/// A node never transmits again before its last transmission is off the air: any two of its
/// transmissions are at least one time-on-air apart.
pub proof fn law_transmissions_do_not_overlap(
    states: Seq<AlohaState>,
    happenings: Seq<Happening>,
    i: int,
    j: int,
)
    requires
        life(states, happenings),
        0 <= i < j < happenings.len(),
        transmits_at(states, happenings, i),
        transmits_at(states, happenings, j),
    ensures
        happenings[j].time() >= happenings[i].time() + LORA_SF7_DURATION_US,
{
    lemma_node_holds_back(states, happenings, i, j);
    assert(happenings[j - 1].time() <= happenings[j].time());
}

/// How often the node transmits in the first `i` happenings.
pub open spec fn transmissions_before(
    states: Seq<AlohaState>,
    happenings: Seq<Happening>,
    i: nat,
) -> nat
    decreases i,
{
    if i == 0 {
        0
    } else {
        transmissions_before(states, happenings, (i - 1) as nat) + if transmits_at(
            states,
            happenings,
            i - 1,
        ) {
            1nat
        } else {
            0
        }
    }
}

/// Whatever happens to a node, its backoff window stays, and its generator has made as many draws
/// as the node has transmitted.
proof fn lemma_transmissions_use_up_draws(
    states: Seq<AlohaState>,
    happenings: Seq<Happening>,
    i: nat,
)
    requires
        history(states, happenings),
        i <= happenings.len(),
    ensures
        states[i as int].backoff_range_us == states[0].backoff_range_us,
        states[i as int].rng == state_after_draws(
            states[0].rng,
            window(states[0].backoff_range_us),
            transmissions_before(states, happenings, i),
        ),
    decreases i,
{
    if i > 0 {
        lemma_transmissions_use_up_draws(states, happenings, (i - 1) as nat);
        assert(happenings[i - 1].leads(states[i - 1], states[i as int]));
        if transmits_at(states, happenings, i - 1) {
            lemma_poll_draws(states[i - 1], states[i as int]);
        }
    }
}

proof fn lemma_poll_draws(before: AlohaState, after: AlohaState)
    requires
        before.after_poll(after),
        before.transmits(),
    ensures
        ({
            let (backoff, next) = drawn(before.rng, window(before.backoff_range_us));
            &&& backoff < window(before.backoff_range_us)
            &&& after == (AlohaState {
                phase: Phase::AwaitingBackoffStart { duration_us: backoff },
                pending: None,
                rng: next,
                ..before
            })
        }),
{
    let range = window(before.backoff_range_us);
    let backoff = choose|backoff: u64| #[trigger]
        draw(before.rng, range, backoff, after.rng) && after == (AlohaState {
            phase: Phase::AwaitingBackoffStart { duration_us: backoff },
            pending: None,
            rng: after.rng,
            ..before
        });
    law_draw_is_drawn(before.rng, range, backoff, after.rng);
    law_draw_stays_below(before.rng, range, backoff, after.rng);
}

/// The backoffs of a node are the draws of its generator, one after another: the backoff that
/// follows a transmission with `k` others before it is the draw after `k` others, from the state
/// that the generator had at first. It lies below the backoff window, so that it is zero where
/// the window is at most one.
pub proof fn law_backoffs_are_successive_draws(
    states: Seq<AlohaState>,
    happenings: Seq<Happening>,
    i: int,
)
    requires
        history(states, happenings),
        0 <= i < happenings.len(),
        transmits_at(states, happenings, i),
    ensures
        ({
            let range = states[0].backoff_range_us;
            let backoff = nth_draw(
                states[0].rng,
                window(range),
                transmissions_before(states, happenings, i as nat),
            );
            &&& states[i + 1].phase == (Phase::AwaitingBackoffStart { duration_us: backoff })
            &&& backoff < window(range)
            &&& range <= 1 ==> backoff == 0
        }),
{
    lemma_transmissions_use_up_draws(states, happenings, i as nat);
    assert(happenings[i].leads(states[i], states[i + 1]));
    lemma_poll_draws(states[i], states[i + 1]);
}

/// No update befalls the node after the happening at `i` and before that at `j`.
pub open spec fn no_update_between(happenings: Seq<Happening>, i: int, j: int) -> bool {
    forall|m: int| i < m < j ==> !(#[trigger] happenings[m] is Update)
}

/// The node waits from `j` on: every update after `j` and up to `m` comes before `until`.
pub open spec fn updates_before(happenings: Seq<Happening>, j: int, m: int, until: int) -> bool {
    forall|h: int| j < h <= m && #[trigger] happenings[h] is Update ==> happenings[h].time() < until
}

proof fn lemma_awaits_update(
    states: Seq<AlohaState>,
    happenings: Seq<Happening>,
    i: int,
    j: int,
)
    requires
        history(states, happenings),
        0 <= i < j <= happenings.len(),
        transmits_at(states, happenings, i),
        no_update_between(happenings, i, j),
    ensures
        states[j] == states[i + 1],
        states[j].phase is AwaitingBackoffStart,
    decreases j,
{
    assert(happenings[i].leads(states[i], states[i + 1]));
    if j > i + 1 {
        lemma_awaits_update(states, happenings, i, j - 1);
        assert(happenings[j - 1].leads(states[j - 1], states[j]));
        assert(!(happenings[j - 1] is Update));
    }
}

proof fn lemma_backs_off(
    states: Seq<AlohaState>,
    happenings: Seq<Happening>,
    j: int,
    m: int,
    until: SimTime,
)
    requires
        history(states, happenings),
        0 <= j < m < happenings.len(),
        states[j + 1].phase == (Phase::Backoff { until }),
        updates_before(happenings, j, m - 1, until as int),
    ensures
        states[m].phase == (Phase::Backoff { until }),
    decreases m,
{
    if m > j + 1 {
        lemma_backs_off(states, happenings, j, m - 1, until);
        assert(happenings[m - 1].leads(states[m - 1], states[m]));
        if happenings[m - 1] is Update {
            assert(happenings[m - 1].time() < until);
        }
    }
}

proof fn lemma_stays_silent(
    states: Seq<AlohaState>,
    happenings: Seq<Happening>,
    j: int,
    m: int,
)
    requires
        history(states, happenings),
        0 <= j < m <= happenings.len(),
        states[j + 1].phase is Silent,
    ensures
        states[m].phase is Silent,
    decreases m,
{
    if m > j + 1 {
        lemma_stays_silent(states, happenings, j, m - 1);
        assert(happenings[m - 1].leads(states[m - 1], states[m]));
    }
}

/// After a transmission with `k` others before it, a node waits for one time-on-air plus the draw
/// after `k` others. The first update that follows, at time `t`, asks to be woken when that time
/// is over: at `t` plus 56 milliseconds plus the draw. Until then the node asks its traffic model
/// for nothing and repeats its request; the first update from then on asks the model.
pub proof fn law_node_waits_for_airtime_and_backoff(
    states: Seq<AlohaState>,
    happenings: Seq<Happening>,
    i: int,
    j: int,
    t: SimTime,
    payload: Option<Seq<u8>>,
)
    requires
        history(states, happenings),
        0 <= i < j < happenings.len(),
        transmits_at(states, happenings, i),
        no_update_between(happenings, i, j),
        happenings[j] == (Happening::Update { time: t, payload }),
    ensures
        ({
            let range = states[0].backoff_range_us;
            let backoff = nth_draw(
                states[0].rng,
                if range == 0 {
                    1
                } else {
                    range
                },
                transmissions_before(states, happenings, i as nat),
            );
            let until = t + 56_000 + backoff;
            &&& !states[j].wants_payload(t)
            &&& if until <= u64::MAX {
                &&& states[j].after_update(t, payload).1 == Some(until as SimTime)
                &&& forall|m: int|
                    j < m < happenings.len() && updates_before(happenings, j, m - 1, until) ==> (
                    #[trigger] happenings[m] matches Happening::Update { time: u, payload: p } ==> (
                    if u < until {
                        !states[m].wants_payload(u) && states[m].after_update(u, p).1 == Some(
                            until as SimTime,
                        )
                    } else {
                        states[m].wants_payload(u)
                    }))
            } else {
                &&& states[j].after_update(t, payload).1 is None
                &&& forall|m: int|
                    j < m < happenings.len() ==> (#[trigger] happenings[m] matches
                        Happening::Update { time: u, payload: p } ==> !states[m].wants_payload(u)
                        && states[m].after_update(u, p).1 is None)
            }
        }),
{
    law_backoffs_are_successive_draws(states, happenings, i);
    lemma_awaits_update(states, happenings, i, j);
    assert(happenings[j].leads(states[j], states[j + 1]));
    let range = states[0].backoff_range_us;
    let backoff = nth_draw(
        states[0].rng,
        window(range),
        transmissions_before(states, happenings, i as nat),
    );
    let until = t + 56_000 + backoff;
    if until <= u64::MAX {
        assert(states[j + 1].phase == (Phase::Backoff { until: until as SimTime }));
        assert forall|m: int|
            j < m < happenings.len() && updates_before(happenings, j, m - 1, until) implies (
        #[trigger] happenings[m] matches Happening::Update { time: u, payload: p } ==> (if u
            < until {
            !states[m].wants_payload(u) && states[m].after_update(u, p).1 == Some(until as SimTime)
        } else {
            states[m].wants_payload(u)
        })) by {
            lemma_backs_off(states, happenings, j, m, until as SimTime);
        }
    } else {
        assert(states[j + 1].phase is Silent);
        assert forall|m: int| j < m < happenings.len() implies (#[trigger] happenings[m] matches
            Happening::Update { time: u, payload: p } ==> !states[m].wants_payload(u)
            && states[m].after_update(u, p).1 is None) by {
            lemma_stays_silent(states, happenings, j, m);
        }
    }
}

} // verus!
