//! Pure ALOHA reference MAC protocol.
//!
//! Nodes transmit immediately whenever the traffic model produces a payload
//! (no carrier sensing, no time-slotting).  After every transmission a
//! uniformly-distributed random backoff is drawn before the next traffic-model
//! poll, preventing perfectly correlated retransmissions.
//!
//! # Design notes
//!
//! The node is driven entirely through the [`NodeHandle`] interface:
//!
//! 1. The scheduler calls `update(time)` on each wake event.
//! 2. `update` queries the traffic model and, when a payload is available,
//!    stages it and returns `Some(time)` (immediate re-wake) so the scheduler
//!    calls `poll_transmit` right away.
//! 3. `poll_transmit` hands the payload to the scheduler and records a
//!    pending backoff duration.  The *absolute* backoff deadline is computed in
//!    the next `update` call.
//! 4. That `update` sets the deadline one full on-air time plus the drawn
//!    backoff past its own time, and returns it so the scheduler wakes the node
//!    at the right moment.
//!
//! A point in time that the clock cannot reach never comes: an arrival past it
//! does not happen, and a node that would have to wait past it stays silent.
use crate::scheduler::NodeHandle;
use crate::time::SimTime;
use crate::traits::{payload_of, NodeCall, PayloadCall, TrafficModel};
use crate::types::{Burst, NodeId, RxMetadata, Transmission};
use crate::xorshift::{iterate, seeded, xorshift};
use vstd::prelude::*;

verus! {

/// LoRa SF7 / BW125 time-on-air for a 1-byte payload with no explicit header
/// (CR 4/5, preamble 8 symbols, rounded to 56 ms).
///
/// Note: this constant is only accurate for single-byte payloads.  Larger
/// payloads increase time-on-air significantly (e.g. a 51-byte payload at
/// SF7/BW125 is approximately 200 ms).  Do not use this constant as a
/// general LoRa SF7 air-time budget without adjusting for payload size.
pub const LORA_SF7_DURATION_US: u64 = 56_000;

/// EU868 primary uplink frequency (Hz).
pub const LORA_FREQUENCY: u32 = 868_100_000;

/// Default TX power (dBm).
pub const LORA_TX_POWER_DBM: i8 = 14;

/// A fast, deterministic xorshift64 PRNG.
pub struct Xorshift64(u64);

impl Clone for Xorshift64 {
    fn clone(&self) -> (copy: Self)
        ensures
            copy.state() == self.state(),
    {
        Xorshift64(self.0)
    }
}

/// Rejection sampling below `range` keeps `v`: it lies below the largest multiple of `range`
/// that a `u64` can hold.
pub open spec fn accepted(v: u64, range: u64) -> bool {
    v < u64::MAX - u64::MAX % range
}

/// `k` is the number of outputs that rejection sampling below `range` draws in state `x`.
pub open spec fn draws(x: u64, range: u64, k: nat) -> bool {
    &&& k > 0
    &&& accepted(iterate(x, k), range)
    &&& forall|j: nat| 0 < j < k ==> !accepted(#[trigger] iterate(x, j), range)
}

/// A draw below `range` in state `x` yields `value` and leads to state `next`.
pub open spec fn draw(x: u64, range: u64, value: u64, next: u64) -> bool {
    if range <= 1 {
        value == 0 && next == x
    } else {
        exists|k: nat|
            #![trigger iterate(x, k)]
            draws(x, range, k) && next == iterate(x, k) && value == next % range
    }
}

impl Xorshift64 {
    /// The state, which is also the last output.
    pub closed spec fn state(&self) -> u64 {
        self.0
    }

    /// Create a new RNG.  A seed of `0` is replaced by `1` to avoid the
    /// all-zero fixed point.
    pub fn new(seed: u64) -> (rng: Self)
        ensures
            rng.state() == seeded(seed),
            rng.state() != 0,
            seed != 0 ==> rng.state() == seed,
            seed == 0 ==> rng.state() == 1,
    {
        Xorshift64(if seed == 0 { 1 } else { seed })
    }

    /// Return the next pseudo-random `u64`.
    pub fn next_u64(&mut self) -> (r: u64)
        ensures
            final(self).state() == xorshift(old(self).state()),
            r == final(self).state(),
            old(self).state() != 0 ==> r != 0,
    {
        let mut x: u64 = self.0;
        x ^= x << 13;
        x ^= x >> 7;
        x ^= x << 17;
        self.0 = x;
        proof {
            if old(self).state() != 0 {
                crate::xorshift::law_nonzero_stays_nonzero(old(self).state());
            }
        }
        x
    }

    /// Return a value uniformly distributed in `[0, range)`.
    ///
    /// Uses rejection sampling to eliminate modulo bias.
    pub fn next_u64_below(&mut self, range: u64) -> (value: u64)
        ensures
            draw(old(self).state(), range, value, final(self).state()),
            range > 0 ==> value < range,
            old(self).state() != 0 ==> final(self).state() != 0,
    {
        if range <= 1 {
            return 0;
        }
        let threshold: u64 = u64::MAX - (u64::MAX % range);
        let ghost start = self.state();
        let ghost low = choose|k: nat|
            k < 65 && #[trigger] iterate(xorshift(start), k) < 0x8000_0000_0000_0000;
        let ghost mut drawn: nat = 0;
        proof {
            crate::xorshift::lemma_some_state_is_low(xorshift(start));
            crate::xorshift::lemma_iterate_from_next(start, low);
            lemma_low_is_accepted(iterate(start, low + 1), range);
        }
        loop
            invariant
                range > 1,
                threshold == u64::MAX - u64::MAX % range,
                start == old(self).state(),
                self.state() == iterate(start, drawn),
                drawn <= low,
                accepted(iterate(start, low + 1), range),
                start != 0 ==> self.state() != 0,
                forall|j: nat| 0 < j <= drawn ==> !accepted(#[trigger] iterate(start, j), range),
            decreases low + 1 - drawn,
        {
            let v: u64 = self.next_u64();
            proof {
                drawn = drawn + 1;
            }
            if v < threshold {
                assert(draws(start, range, drawn));
                return v % range;
            }
        }
    }
}

/// The range that a draw is made from: a window of zero is one of a single value.
pub open spec fn window(range: u64) -> u64 {
    if range == 0 {
        1
    } else {
        range
    }
}

/// When the next packet of a traffic model arrives.
#[derive(Debug, Clone, Copy, PartialEq, Eq, Structural)]
pub enum Arrival {
    /// The model was not polled yet.
    Unscheduled,
    /// At a point in time.
    At { time: SimTime },
    /// Later than the clock can tell.
    Never,
}

/// The arrival at `time`, which may lie past the end of the clock.
pub open spec fn arrival_at(time: int) -> Arrival {
    if time <= SimTime::MAX {
        Arrival::At { time: time as SimTime }
    } else {
        Arrival::Never
    }
}

/// A [`TrafficModel`] with uniform inter-arrival times centred on `mean_us`.
///
/// Inter-arrival times are drawn from `U(mean_us/2, 3*mean_us/2)`, giving the
/// correct mean while staying entirely in integer arithmetic.
///
/// ## Note on naming
///
/// Despite the name of the alias [`PoissonTraffic`], this distribution is **uniform**.
/// A true Poisson process has exponentially-distributed inter-arrival times
/// with an unbounded tail; this model has finite support `[mean/2, 3*mean/2)`
/// and will never produce long quiet periods or rapid bursts.  The difference
/// matters when using this as a Poisson baseline for collision analysis.
pub struct UniformInterarrivalTraffic {
    mean_us: u64,
    rng: Xorshift64,
    arrival: Arrival,
}

/// The state of a [`UniformInterarrivalTraffic`].
pub struct TrafficState {
    pub mean_us: u64,
    pub rng: u64,
    pub arrival: Arrival,
}

impl TrafficState {
    /// A packet is ready at `time`.
    pub open spec fn ready(self, time: SimTime) -> bool {
        self.arrival matches Arrival::At { time: next } && time >= next
    }

    /// `next` follows when the next arrival is drawn at `time`.
    pub open spec fn rescheduled(self, time: SimTime, next: TrafficState) -> bool {
        &&& next.mean_us == self.mean_us
        &&& exists|offset: u64| #[trigger]
            draw(self.rng, window(self.mean_us), offset, next.rng) && next.arrival == arrival_at(
                time + self.mean_us / 2 + offset,
            )
    }

    /// What a poll at `time` hands out: a one-byte payload if a packet is ready.
    pub open spec fn answer(self, time: SimTime) -> Option<Seq<u8>> {
        if self.ready(time) {
            Some(seq![1u8])
        } else {
            None
        }
    }

    /// `next` follows a poll at `time`. The first poll schedules the first arrival, and one at or
    /// after an arrival schedules the next; any other poll does nothing.
    pub open spec fn after_poll(self, time: SimTime, next: TrafficState) -> bool {
        if self.arrival is Unscheduled || self.ready(time) {
            self.rescheduled(time, next)
        } else {
            next == self
        }
    }

    /// From here on `calls`, made one after another, are answered as they say.
    pub open spec fn behaves(self, calls: Seq<PayloadCall>) -> bool
        decreases calls.len(),
    {
        calls.len() > 0 ==> {
            &&& calls[0].payload == self.answer(calls[0].time)
            &&& exists|next: TrafficState| #[trigger]
                self.after_poll(calls[0].time, next) && next.behaves(calls.drop_first())
        }
    }
}

impl View for UniformInterarrivalTraffic {
    type V = TrafficState;

    closed spec fn view(&self) -> TrafficState {
        TrafficState { mean_us: self.mean_us, rng: self.rng.state(), arrival: self.arrival }
    }
}

impl UniformInterarrivalTraffic {
    /// Create a new traffic model.
    ///
    /// * `mean_us` - mean inter-arrival time in microseconds.
    /// * `seed`    - RNG seed for reproducibility.
    pub fn new(mean_us: u64, seed: u64) -> (traffic: Self)
        ensures
            traffic@ == (TrafficState {
                mean_us,
                rng: seeded(seed),
                arrival: Arrival::Unscheduled,
            }),
            seed != 0 ==> traffic@.rng == seed,
    {
        UniformInterarrivalTraffic {
            mean_us,
            rng: Xorshift64::new(seed),
            arrival: Arrival::Unscheduled,
        }
    }

    /// Draw the next inter-arrival interval from `U(mean/2, 3*mean/2)`; `None` stands for one
    /// that exceeds the clock.
    fn draw_interval(&mut self) -> (interval: Option<u64>)
        ensures
            final(self)@.mean_us == old(self)@.mean_us,
            final(self)@.arrival == old(self)@.arrival,
            exists|offset: u64| #[trigger]
                draw(old(self)@.rng, window(old(self)@.mean_us), offset, final(self)@.rng)
                    && match interval {
                    Some(us) => us == old(self)@.mean_us / 2 + offset,
                    None => old(self)@.mean_us / 2 + offset > u64::MAX,
                },
            interval matches Some(us) ==> old(self)@.mean_us / 2 <= us < old(self)@.mean_us / 2
                + window(old(self)@.mean_us),
            old(self)@.mean_us <= u64::MAX / 2 ==> interval is Some,
    {
        let half: u64 = self.mean_us / 2;
        let range: u64 = if self.mean_us == 0 {
            1
        } else {
            self.mean_us
        };
        let offset: u64 = self.rng.next_u64_below(range);
        assert(draw(old(self)@.rng, window(old(self)@.mean_us), offset, self@.rng));
        half.checked_add(offset)
    }

    /// Draw when the packet after `time` arrives.
    fn reschedule(&mut self, time: SimTime)
        ensures
            old(self)@.rescheduled(time, final(self)@),
    {
        let ghost before = self@;
        let interval = self.draw_interval();
        let ghost offset = choose|offset: u64| #[trigger]
            draw(before.rng, window(before.mean_us), offset, self@.rng) && match interval {
                Some(us) => us == before.mean_us / 2 + offset,
                None => before.mean_us / 2 + offset > u64::MAX,
            };
        self.arrival = match interval {
            Some(us) => match time.checked_add(us) {
                Some(at) => Arrival::At { time: at },
                None => Arrival::Never,
            },
            None => Arrival::Never,
        };
        assert(draw(before.rng, window(before.mean_us), offset, self@.rng));
    }
}

impl TrafficModel for UniformInterarrivalTraffic {
    open spec fn behaves(&self, calls: Seq<PayloadCall>) -> bool {
        self@.behaves(calls)
    }

    /// The first poll schedules the first arrival. A poll at or after an arrival hands out a
    /// one-byte payload and schedules the next arrival; any other poll does nothing.
    fn next_payload(&mut self, time: SimTime) -> (payload: Option<Vec<u8>>)
        ensures
            payload_of(payload) == old(self)@.answer(time),
            old(self)@.after_poll(time, final(self)@),
    {
        let payload = match self.arrival {
            Arrival::Unscheduled => {
                self.reschedule(time);
                None
            },
            Arrival::At { time: next } => {
                if time >= next {
                    self.reschedule(time);
                    let mut payload: Vec<u8> = Vec::new();
                    payload.push(0x01);
                    assert(payload@ =~= seq![1u8]);
                    Some(payload)
                } else {
                    None
                }
            },
            Arrival::Never => None,
        };
        proof {
            let call = PayloadCall { time, payload: payload_of(payload) };
            assert forall|later: Seq<PayloadCall>| #[trigger]
                self@.behaves(later) implies old(self)@.behaves(seq![call] + later) by {
                lemma_first_and_rest(call, later);
                assert(old(self)@.after_poll(time, self@));
            }
            assert(self@.behaves(Seq::empty()));
            assert(seq![call] =~= seq![call] + Seq::<PayloadCall>::empty());
        }
        payload
    }
}

/// Another name for [`UniformInterarrivalTraffic`].
///
/// The name is misleading because the inter-arrival distribution is uniform, not exponential:
/// prefer [`UniformInterarrivalTraffic`].
pub type PoissonTraffic = UniformInterarrivalTraffic;

/// Phase of an [`AlohaNode`].
#[derive(Debug, Clone, Copy, PartialEq, Eq, Structural)]
pub enum Phase {
    /// Polling the traffic model on each wake.
    Idle,
    /// Waiting until `until` before polling again.
    Backoff { until: SimTime },
    /// A payload is staged; waiting for `poll_transmit` to collect it.
    ReadyToTransmit,
    /// `poll_transmit` has handed the payload out; the next `update` starts the backoff.
    AwaitingBackoffStart { duration_us: u64 },
    /// The backoff outlasts the clock.
    Silent,
}

/// A Pure ALOHA node that implements [`NodeHandle`].
///
/// # Transmit flow
///
/// ```text
/// Idle --(payload ready)--> ReadyToTransmit
///   ^                             |
///   |                     poll_transmit() called
///   |                             |
///   |                   AwaitingBackoffStart { duration_us }
///   |                             |
///   |                     next update(time) call
///   |                             |
///   |         Backoff { until = time + LORA_SF7_DURATION_US + duration_us }
///   |                             |
///   +------(until reached)--------+
/// ```
pub struct AlohaNode<T: TrafficModel> {
    id: NodeId,
    traffic: T,
    /// Upper bound of the uniform backoff window.
    backoff_range_us: u64,
    rng: Xorshift64,
    phase: Phase,
    /// Staged payload waiting to be collected by `poll_transmit`.
    pending_payload: Option<Vec<u8>>,
    /// How often to poll the traffic model when idle.
    poll_interval_us: u64,
}

/// The state of an [`AlohaNode`], apart from its traffic model.
#[verifier::ext_equal]
pub struct AlohaState {
    pub id: NodeId,
    pub backoff_range_us: u64,
    pub rng: u64,
    pub phase: Phase,
    pub pending: Option<Seq<u8>>,
    pub poll_interval_us: u64,
}

/// The point in time `time`, unless it lies past the end of the clock.
pub open spec fn reachable(time: int) -> Option<SimTime> {
    if time <= SimTime::MAX {
        Some(time as SimTime)
    } else {
        None
    }
}

impl AlohaState {
    /// An update at `time` asks the traffic model for a payload.
    pub open spec fn wants_payload(self, time: SimTime) -> bool {
        match self.phase {
            Phase::Idle => true,
            Phase::Backoff { until } => time >= until,
            _ => false,
        }
    }

    /// The state after an update at `time`, and when the node wants to be woken next. `payload`
    /// is what the traffic model has; it matters only if it is asked for.
    pub open spec fn after_update(self, time: SimTime, payload: Option<Seq<u8>>) -> (
        AlohaState,
        Option<SimTime>,
    ) {
        if self.wants_payload(time) {
            match payload {
                Some(bytes) => (
                    AlohaState { phase: Phase::ReadyToTransmit, pending: Some(bytes), ..self },
                    Some(time),
                ),
                None => (
                    AlohaState { phase: Phase::Idle, ..self },
                    reachable(time + self.poll_interval_us),
                ),
            }
        } else {
            match self.phase {
                Phase::AwaitingBackoffStart { duration_us } => {
                    let until = reachable(time + LORA_SF7_DURATION_US + duration_us);
                    match until {
                        Some(until) => (
                            AlohaState { phase: Phase::Backoff { until }, ..self },
                            Some(until),
                        ),
                        None => (AlohaState { phase: Phase::Silent, ..self }, None),
                    }
                },
                Phase::Backoff { until } => (self, Some(until)),
                Phase::ReadyToTransmit => (self, Some(time)),
                _ => (self, None),
            }
        }
    }

    /// A poll hands out a payload.
    pub open spec fn transmits(self) -> bool {
        self.phase is ReadyToTransmit && self.pending is Some
    }

    /// The transmission that a poll hands out.
    pub open spec fn transmission(self) -> Burst {
        Burst {
            payload: self.pending->0,
            sf: 7,
            bandwidth: 125_000,
            coding_rate: 5,
            frequency: LORA_FREQUENCY,
            duration_us: LORA_SF7_DURATION_US,
            tx_power_dbm: LORA_TX_POWER_DBM,
        }
    }

    /// What a poll hands out.
    pub open spec fn answer(self) -> Option<Burst> {
        if self.transmits() {
            Some(self.transmission())
        } else {
            None
        }
    }

    /// `next` follows a poll: after a transmission a backoff is drawn.
    pub open spec fn after_poll(self, next: AlohaState) -> bool {
        if self.transmits() {
            exists|backoff: u64| #[trigger]
                draw(self.rng, window(self.backoff_range_us), backoff, next.rng) && next == (
                AlohaState {
                    phase: Phase::AwaitingBackoffStart { duration_us: backoff },
                    pending: None,
                    rng: next.rng,
                    ..self
                })
        } else {
            next == self
        }
    }

    /// From here on `calls`, made one after another, are answered as they say; meanwhile the
    /// traffic model is called, and answers, as in `supply`.
    pub open spec fn behaves(self, calls: Seq<NodeCall>, supply: Seq<PayloadCall>) -> bool
        decreases calls.len(),
    {
        if calls.len() == 0 {
            supply.len() == 0
        } else {
            match calls[0] {
                NodeCall::Update { time, wake } => if self.wants_payload(time) {
                    let (next, asked) = self.after_update(time, supply[0].payload);
                    &&& supply.len() > 0
                    &&& supply[0].time == time
                    &&& wake == asked
                    &&& next.behaves(calls.drop_first(), supply.drop_first())
                } else {
                    let (next, asked) = self.after_update(time, None);
                    &&& wake == asked
                    &&& next.behaves(calls.drop_first(), supply)
                },
                NodeCall::OnReceive { wake, .. } => {
                    &&& wake is None
                    &&& self.behaves(calls.drop_first(), supply)
                },
                NodeCall::PollTransmit { tx, .. } => {
                    &&& tx == self.answer()
                    &&& exists|next: AlohaState| #[trigger]
                        self.after_poll(next) && next.behaves(calls.drop_first(), supply)
                },
            }
        }
    }
}

impl<T: TrafficModel> View for AlohaNode<T> {
    type V = AlohaState;

    closed spec fn view(&self) -> AlohaState {
        AlohaState {
            id: self.id,
            backoff_range_us: self.backoff_range_us,
            rng: self.rng.state(),
            phase: self.phase,
            pending: payload_of(self.pending_payload),
            poll_interval_us: self.poll_interval_us,
        }
    }
}

impl<T: TrafficModel> AlohaNode<T> {
    /// Create a new Pure ALOHA node with the default 1 ms idle poll interval.
    ///
    /// * `id`               - unique node identifier.
    /// * `traffic`          - traffic model producing payloads.
    /// * `backoff_range_us` - backoff drawn from `U(0, backoff_range_us)`.
    /// * `seed`             - RNG seed (for the backoff RNG).
    pub fn new(id: NodeId, traffic: T, backoff_range_us: u64, seed: u64) -> (node: Self)
        ensures
            node@ == (AlohaState {
                id,
                backoff_range_us,
                rng: seeded(seed),
                phase: Phase::Idle,
                pending: None,
                poll_interval_us: 1_000,
            }),
            seed != 0 ==> node@.rng == seed,
            node.traffic_model() == traffic,
    {
        AlohaNode {
            id,
            traffic,
            backoff_range_us,
            rng: Xorshift64::new(seed),
            phase: Phase::Idle,
            pending_payload: None,
            poll_interval_us: 1_000,
        }
    }

    /// The traffic model.
    pub closed spec fn traffic_model(&self) -> T {
        self.traffic
    }

    /// The traffic model can answer `calls`, made one after another, as they say.
    pub open spec fn can_supply(&self, calls: Seq<PayloadCall>) -> bool {
        calls.len() == 0 || self.traffic_model().behaves(calls)
    }

    /// Override the idle polling interval.
    ///
    /// The scheduler wakes an idle node every `interval_us` microseconds to
    /// check whether the traffic model has a new payload.  A smaller value
    /// reduces latency between packet arrival and TX at the cost of more
    /// scheduler events; a larger value is more efficient for long simulations
    /// with sparse traffic.
    pub fn with_poll_interval(self, interval_us: u64) -> (node: Self)
        ensures
            node@ == (AlohaState { poll_interval_us: window(interval_us), ..self@ }),
            interval_us > 0 ==> node@.poll_interval_us == interval_us,
            interval_us == 0 ==> node@.poll_interval_us == 1,
            node.traffic_model() == self.traffic_model(),
    {
        let mut node = self;
        node.poll_interval_us = if interval_us == 0 {
            1
        } else {
            interval_us
        };
        node
    }

    fn draw_backoff(&mut self) -> (backoff: u64)
        ensures
            draw(old(self)@.rng, window(old(self)@.backoff_range_us), backoff, final(self)@.rng),
            backoff < window(old(self)@.backoff_range_us),
            final(self)@ == (AlohaState { rng: final(self)@.rng, ..old(self)@ }),
            final(self).traffic_model() == old(self).traffic_model(),
    {
        let range: u64 = if self.backoff_range_us == 0 {
            1
        } else {
            self.backoff_range_us
        };
        self.rng.next_u64_below(range)
    }

    /// Hand out the staged payload, if there is one, and draw the backoff that follows.
    fn take_transmission(&mut self) -> (tx: Option<Transmission>)
        ensures
            old(self)@.after_poll(final(self)@),
            crate::types::burst_of(tx) == old(self)@.answer(),
            final(self).traffic_model() == old(self).traffic_model(),
    {
        if self.phase != Phase::ReadyToTransmit {
            return None;
        }
        let payload = match self.pending_payload.take() {
            Some(payload) => payload,
            None => {
                return None;
            },
        };
        let backoff: u64 = self.draw_backoff();
        assert(draw(old(self)@.rng, window(old(self)@.backoff_range_us), backoff, self@.rng));
        self.phase = Phase::AwaitingBackoffStart { duration_us: backoff };
        Some(
            Transmission {
                payload,
                sf: 7,
                bandwidth: 125_000,
                coding_rate: 5,
                frequency: LORA_FREQUENCY,
                duration_us: LORA_SF7_DURATION_US,
                tx_power_dbm: LORA_TX_POWER_DBM,
            },
        )
    }

    proof fn lemma_no_calls(&self)
        ensures
            self.can_supply(Seq::empty()),
            self@.behaves(Seq::empty(), Seq::empty()),
    {
    }

    /// Whether an update at `time` asks the traffic model for a payload.
    pub fn wants_payload(&self, time: SimTime) -> (r: bool)
        ensures
            r == self@.wants_payload(time),
    {
        match self.phase {
            Phase::Idle => true,
            Phase::Backoff { until } => time >= until,
            _ => false,
        }
    }

    /// Update at `time`, with what the traffic model has if it is asked for a payload.
    pub fn advance(&mut self, time: SimTime, payload: Option<Vec<u8>>) -> (wake: Option<SimTime>)
        ensures
            (final(self)@, wake) == old(self)@.after_update(time, payload_of(payload)),
            final(self).traffic_model() == old(self).traffic_model(),
    {
        match self.phase {
            Phase::AwaitingBackoffStart { duration_us } => {
                let guard = time.checked_add(LORA_SF7_DURATION_US);
                let until = match guard {
                    Some(on_air) => on_air.checked_add(duration_us),
                    None => None,
                };
                match until {
                    Some(until) => {
                        self.phase = Phase::Backoff { until };
                        return Some(until);
                    },
                    None => {
                        self.phase = Phase::Silent;
                        return None;
                    },
                }
            },
            Phase::Backoff { until } => {
                if time < until {
                    return Some(until);
                }
                self.phase = Phase::Idle;
            },
            Phase::ReadyToTransmit => {
                return Some(time);
            },
            Phase::Silent => {
                return None;
            },
            Phase::Idle => {},
        }
        match payload {
            Some(payload) => {
                self.pending_payload = Some(payload);
                self.phase = Phase::ReadyToTransmit;
                Some(time)
            },
            None => time.checked_add(self.poll_interval_us),
        }
    }
}

impl<T: TrafficModel> NodeHandle for AlohaNode<T> {
    open spec fn id(&self) -> NodeId {
        self@.id
    }

    /// The answers follow from the state of the node and from what the traffic model can answer.
    open spec fn behaves(&self, calls: Seq<NodeCall>) -> bool {
        exists|supply: Seq<PayloadCall>|
            self.can_supply(supply) && #[trigger] self@.behaves(calls, supply)
    }

    fn node_id(&self) -> (id: NodeId) {
        self.id
    }

    /// The traffic model is asked for a payload, at `time`, exactly when the node is idle or its
    /// backoff is over; the rest is [`AlohaNode::advance`].
    fn update(&mut self, time: SimTime) -> (wake: Option<SimTime>)
        ensures
            old(self)@.wants_payload(time) ==> exists|model: &mut T, payload: Option<Vec<u8>>|
                *model == old(self).traffic_model() && *final(model) == final(self).traffic_model()
                    && #[trigger] call_ensures(T::next_payload, (model, time), payload) && (
                final(self)@,
                wake,
            ) == old(self)@.after_update(time, payload_of(payload)),
            !old(self)@.wants_payload(time) ==> (final(self)@, wake) == old(self)@.after_update(
                time,
                None,
            ) && final(self).traffic_model() == old(self).traffic_model(),
    {
        let ghost before = *self;
        if self.wants_payload(time) {
            let payload = self.traffic.next_payload(time);
            let ghost poll = PayloadCall { time, payload: payload_of(payload) };
            let wake = self.advance(time, payload);
            proof {
                let call = NodeCall::Update { time, wake };
                assert forall|later: Seq<NodeCall>, supply: Seq<PayloadCall>|
                    self.can_supply(supply) && #[trigger] self@.behaves(
                        later,
                        supply,
                    ) implies before.behaves(seq![call] + later) by {
                    lemma_first_and_rest(call, later);
                    lemma_first_and_rest(poll, supply);
                    if supply.len() == 0 {
                        assert(seq![poll] + supply =~= seq![poll]);
                    }
                    assert(before.can_supply(seq![poll] + supply));
                    assert(before@.behaves(seq![call] + later, seq![poll] + supply));
                }
                self.lemma_no_calls();
                assert(seq![call] =~= seq![call] + Seq::<NodeCall>::empty());
            }
            wake
        } else {
            let wake = self.advance(time, None);
            proof {
                let call = NodeCall::Update { time, wake };
                assert forall|later: Seq<NodeCall>, supply: Seq<PayloadCall>|
                    self.can_supply(supply) && #[trigger] self@.behaves(
                        later,
                        supply,
                    ) implies before.behaves(seq![call] + later) by {
                    lemma_first_and_rest(call, later);
                    assert(before@.behaves(seq![call] + later, supply));
                }
                self.lemma_no_calls();
                assert(seq![call] =~= seq![call] + Seq::<NodeCall>::empty());
            }
            wake
        }
    }

    /// Check whether the node has a payload ready to transmit.
    ///
    /// # Divergence from canonical Pure ALOHA
    ///
    /// Classic Pure ALOHA only applies a random backoff on *collision*:
    /// successfully delivered packets are followed immediately by the next
    /// traffic-model poll.  This implementation draws a backoff after **every**
    /// transmission, regardless of outcome, because the `NodeHandle` interface
    /// does not deliver per-sender collision feedback (the sender is excluded
    /// from `on_receive` delivery).
    ///
    /// The effect is lower peak throughput than the theoretical 1/(2e), about 18.4%,
    /// for canonical Pure ALOHA.  This is acceptable for a reference baseline
    /// but means the implementation cannot be used directly to validate
    /// canonical Pure ALOHA throughput curves.
    fn poll_transmit(&mut self, time: SimTime) -> (tx: Option<Transmission>)
        ensures
            old(self)@.after_poll(final(self)@),
            crate::types::burst_of(tx) == old(self)@.answer(),
            final(self).traffic_model() == old(self).traffic_model(),
    {
        let tx = self.take_transmission();
        proof {
            let before = *old(self);
            let call = NodeCall::PollTransmit { time, tx: crate::types::burst_of(tx) };
            assert forall|later: Seq<NodeCall>, supply: Seq<PayloadCall>|
                self.can_supply(supply) && #[trigger] self@.behaves(
                    later,
                    supply,
                ) implies before.behaves(seq![call] + later) by {
                lemma_first_and_rest(call, later);
                assert(before@.after_poll(self@));
                assert(before@.behaves(seq![call] + later, supply));
            }
            self.lemma_no_calls();
            assert(seq![call] =~= seq![call] + Seq::<NodeCall>::empty());
        }
        tx
    }

    /// Pure ALOHA has no carrier sense; received frames do not affect the TX
    /// schedule.
    fn on_receive(&mut self, frame: RxMetadata, time: SimTime) -> (wake: Option<SimTime>)
        ensures
            wake is None,
            final(self)@ == old(self)@,
            final(self).traffic_model() == old(self).traffic_model(),
    {
        proof {
            let call = NodeCall::OnReceive { frame: frame@, time, wake: None };
            assert forall|later: Seq<NodeCall>, supply: Seq<PayloadCall>|
                self.can_supply(supply) && #[trigger] self@.behaves(
                    later,
                    supply,
                ) implies self.behaves(seq![call] + later) by {
                lemma_first_and_rest(call, later);
                assert(self@.behaves(seq![call] + later, supply));
            }
            self.lemma_no_calls();
            assert(seq![call] =~= seq![call] + Seq::<NodeCall>::empty());
        }
        None
    }
}

proof fn lemma_first_and_rest<A>(first: A, rest: Seq<A>)
    ensures
        (seq![first] + rest).len() == rest.len() + 1,
        (seq![first] + rest)[0] == first,
        (seq![first] + rest).drop_first() == rest,
{
    assert((seq![first] + rest).drop_first() =~= rest);
}

pub proof fn lemma_low_is_accepted(v: u64, range: u64)
    requires
        v < 0x8000_0000_0000_0000,
        range > 1,
    ensures
        accepted(v, range),
{
    let rest = u64::MAX as int % range as int;
    let whole = u64::MAX as int / range as int;
    vstd::arithmetic::div_mod::lemma_fundamental_div_mod(u64::MAX as int, range as int);
    vstd::arithmetic::div_mod::lemma_mod_bound(u64::MAX as int, range as int);
    assert(whole >= 1) by (nonlinear_arith)
        requires
            u64::MAX as int == range * whole + rest,
            0 <= rest < range,
            1 < range <= u64::MAX,
    ;
    assert(range * whole >= range) by (nonlinear_arith)
        requires
            whole >= 1,
            range > 1,
    ;
}

} // verus!
