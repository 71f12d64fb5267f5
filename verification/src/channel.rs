//! The shared radio medium: collisions, the capture effect and link budgets.
//!
//! Two transmissions *contend* when they overlap in time on the same spreading factor and
//! frequency. A transmission survives a contender only if it is stronger by at least the
//! co-channel rejection threshold; it is lost if any contender comes closer than that.
use crate::time::SimTime;
use crate::types::{Burst, ChannelEvent, Frame, NodeId, RxMetadata, Transmission};
use vstd::prelude::*;

verus! {

/// Path loss of the LoRa defaults: 100 dB.
pub const LORA_PATH_LOSS_MDB: i32 = 100_000;

/// Noise floor of the LoRa defaults: -117 dBm.
pub const LORA_NOISE_FLOOR_MDBM: i32 = -117_000;

/// Co-channel rejection threshold of the LoRa defaults: 6 dB.
pub const LORA_CO_CHANNEL_REJECTION_MDB: i32 = 6_000;

/// Physical-layer parameters of a channel, in thousandths of a decibel.
#[derive(Debug, Clone, Copy, PartialEq, Eq, Structural)]
pub struct ChannelConfig {
    /// Attenuation between any two nodes.
    pub path_loss_mdb: i32,
    /// Noise power at every receiver.
    pub noise_floor_mdbm: i32,
    /// How much stronger than a contender a transmission has to be to survive it.
    pub co_channel_rejection_mdb: i32,
}

impl ChannelConfig {
    /// The parameters of a LoRa channel.
    pub open spec fn lora() -> ChannelConfig {
        ChannelConfig {
            path_loss_mdb: LORA_PATH_LOSS_MDB,
            noise_floor_mdbm: LORA_NOISE_FLOOR_MDBM,
            co_channel_rejection_mdb: LORA_CO_CHANNEL_REJECTION_MDB,
        }
    }

    /// The parameters of a LoRa channel.
    pub fn lora_defaults() -> (config: ChannelConfig)
        ensures
            config == ChannelConfig::lora(),
    {
        ChannelConfig {
            path_loss_mdb: LORA_PATH_LOSS_MDB,
            noise_floor_mdbm: LORA_NOISE_FLOOR_MDBM,
            co_channel_rejection_mdb: LORA_CO_CHANNEL_REJECTION_MDB,
        }
    }

    /// Received power of a transmission sent with `tx_power_dbm`.
    pub open spec fn rssi(self, tx_power_dbm: i8) -> int {
        tx_power_dbm * 1_000 - self.path_loss_mdb
    }

    /// Signal-to-noise ratio at received power `rssi`.
    pub open spec fn snr(self, rssi: int) -> int {
        rssi - self.noise_floor_mdbm
    }

    /// Power `p` is far enough above power `q` to survive it.
    pub open spec fn dominates(self, p: i8, q: i8) -> bool {
        (p - q) * 1_000 >= self.co_channel_rejection_mdb
    }
}

/// Whether the time spans `[a_start, a_end)` and `[b_start, b_end)` overlap.
pub open spec fn spans_overlap(
    a_start: SimTime,
    a_end: SimTime,
    b_start: SimTime,
    b_end: SimTime,
) -> bool {
    a_start < b_end && b_start < a_end
}

fn overlaps(a_start: SimTime, a_end: SimTime, b_start: SimTime, b_end: SimTime) -> (r: bool)
    ensures
        r == spans_overlap(a_start, a_end, b_start, b_end),
{
    a_start < b_end && b_start < a_end
}

struct ActiveTransmission {
    sender: NodeId,
    payload: Vec<u8>,
    sf: u8,
    bandwidth: u32,
    frequency: u32,
    tx_power_dbm: i8,
    start: SimTime,
    end: SimTime,
    collided: bool,
    captured: bool,
}

/// A transmission that the channel carries or has carried.
#[verifier::ext_equal]
pub struct OnAir {
    pub sender: NodeId,
    pub payload: Seq<u8>,
    pub sf: u8,
    pub bandwidth: u32,
    pub frequency: u32,
    pub tx_power_dbm: i8,
    pub start: SimTime,
    pub end: SimTime,
    /// Some contender was too strong for this transmission to be received.
    pub collided: bool,
    /// This transmission was strong enough to survive some contender.
    pub captured: bool,
}

impl OnAir {
    /// `tx` as it goes on the air at `time`, before any contention is accounted for.
    pub open spec fn of(sender: NodeId, tx: Burst, time: SimTime) -> OnAir {
        OnAir {
            sender,
            payload: tx.payload,
            sf: tx.sf,
            bandwidth: tx.bandwidth,
            frequency: tx.frequency,
            tx_power_dbm: tx.tx_power_dbm,
            start: time,
            end: (time + tx.duration_us) as SimTime,
            collided: false,
            captured: false,
        }
    }

    /// Overlap in time on the same spreading factor and frequency.
    pub open spec fn contends(self, other: OnAir) -> bool {
        &&& spans_overlap(self.start, self.end, other.start, other.end)
        &&& self.frequency == other.frequency
        &&& self.sf == other.sf
    }

    /// `self` contends with `other` and is lost to it.
    pub open spec fn loses_to(self, other: OnAir, config: ChannelConfig) -> bool {
        self.contends(other) && !config.dominates(self.tx_power_dbm, other.tx_power_dbm)
    }

    /// `self` contends with `other` and survives it.
    pub open spec fn captures_over(self, other: OnAir, config: ChannelConfig) -> bool {
        self.contends(other) && config.dominates(self.tx_power_dbm, other.tx_power_dbm)
    }

    /// `self` after `other` has gone on the air beside it.
    pub open spec fn beside(self, other: OnAir, config: ChannelConfig) -> OnAir {
        OnAir {
            collided: self.collided || self.loses_to(other, config),
            captured: self.captured || self.captures_over(other, config),
            ..self
        }
    }

    /// What a receiver hears of this transmission.
    pub open spec fn frame(self, config: ChannelConfig) -> Frame {
        Frame {
            payload: self.payload,
            rssi: config.rssi(self.tx_power_dbm) as i64,
            snr: config.snr(config.rssi(self.tx_power_dbm)) as i64,
            sf: self.sf,
            frequency: self.frequency,
            time: self.end,
        }
    }

    /// How this transmission ended.
    pub open spec fn outcome(self, config: ChannelConfig) -> Outcome {
        Outcome {
            sender: self.sender,
            collided: self.collided,
            captured: self.captured,
            frame: self.frame(config),
        }
    }

    /// The event that announces the end of this transmission.
    pub open spec fn completion(self) -> ChannelEvent {
        ChannelEvent::TransmissionCompleted {
            sender: self.sender,
            time: self.end,
            collided: self.collided,
        }
    }
}

/// How a transmission ended.
#[verifier::ext_equal]
pub struct Outcome {
    pub sender: NodeId,
    pub collided: bool,
    pub captured: bool,
    pub frame: Frame,
}

/// A completed transmission: its sender, whether it was lost in a collision, whether it
/// survived a contender, and the frame that receivers hear.
pub type CompletedTx = (NodeId, bool, bool, RxMetadata);

/// The contents of a [`CompletedTx`].
pub open spec fn completed_outcome(c: CompletedTx) -> Outcome {
    Outcome { sender: c.0, collided: c.1, captured: c.2, frame: c.3@ }
}

/// The state of a channel.
#[verifier::ext_equal]
pub struct Air {
    pub config: ChannelConfig,
    /// Transmissions on the air, in the order in which they began.
    pub active: Seq<OnAir>,
    /// Transmissions that have ended and were not drained yet, in the order in which they were
    /// resolved.
    pub completed: Seq<OnAir>,
}

impl Air {
    /// A channel on which nothing was ever sent.
    pub open spec fn idle(config: ChannelConfig) -> Air {
        Air { config, active: Seq::empty(), completed: Seq::empty() }
    }

    /// `new` as it meets the transmissions on the air.
    pub open spec fn entering(self, new: OnAir) -> OnAir {
        OnAir {
            collided: exists|i: int|
                0 <= i < self.active.len() && new.loses_to(#[trigger] self.active[i], self.config),
            captured: exists|i: int|
                0 <= i < self.active.len() && new.captures_over(
                    #[trigger] self.active[i],
                    self.config,
                ),
            ..new
        }
    }

    /// The transmissions on the air after `new` has joined them.
    pub open spec fn with(self, new: OnAir) -> Air {
        Air {
            active: Seq::new(
                self.active.len(),
                |i: int| self.active[i].beside(new, self.config),
            ).push(self.entering(new)),
            ..self
        }
    }

    /// The channel after `sender` has begun to transmit `tx`.
    pub open spec fn begin(self, sender: NodeId, tx: Burst, time: SimTime) -> Air {
        self.with(OnAir::of(sender, tx, time))
    }

    /// The active transmissions that have ended by `time`.
    pub open spec fn ended(self, time: SimTime) -> Seq<OnAir> {
        self.active.filter(|t: OnAir| t.end <= time)
    }

    /// The channel after every transmission that has ended by `time` is completed.
    pub open spec fn resolve(self, time: SimTime) -> Air {
        Air {
            active: self.active.filter(|t: OnAir| t.end > time),
            completed: self.completed + self.ended(time),
            ..self
        }
    }

    /// The events that announce the transmissions that have ended by `time`.
    pub open spec fn completions(self, time: SimTime) -> Seq<ChannelEvent> {
        self.ended(time).map_values(|t: OnAir| t.completion())
    }

    /// The frames of the completed transmissions that ended by `time` and did not collide.
    pub open spec fn received(self, time: SimTime) -> Seq<Frame> {
        self.completed.filter(|t: OnAir| t.end <= time && !t.collided).map_values(
            |t: OnAir| t.frame(self.config),
        )
    }

    /// How each of the completed transmissions ended.
    pub open spec fn outcomes(self) -> Seq<Outcome> {
        self.completed.map_values(|t: OnAir| t.outcome(self.config))
    }

    /// The channel after the completed transmissions were handed out.
    pub open spec fn drained(self) -> Air {
        Air { completed: Seq::empty(), ..self }
    }
}

impl View for ActiveTransmission {
    type V = OnAir;

    closed spec fn view(&self) -> OnAir {
        OnAir {
            sender: self.sender,
            payload: self.payload@,
            sf: self.sf,
            bandwidth: self.bandwidth,
            frequency: self.frequency,
            tx_power_dbm: self.tx_power_dbm,
            start: self.start,
            end: self.end,
            collided: self.collided,
            captured: self.captured,
        }
    }
}

/// A simulated wireless channel with collision detection and the capture effect.
pub struct Channel {
    config: ChannelConfig,
    active: Vec<ActiveTransmission>,
    completed: Vec<ActiveTransmission>,
}

spec fn on_air(txs: Seq<ActiveTransmission>) -> Seq<OnAir> {
    txs.map_values(|t: ActiveTransmission| t@)
}

impl View for Channel {
    type V = Air;

    closed spec fn view(&self) -> Air {
        Air {
            config: self.config,
            active: on_air(self.active@),
            completed: on_air(self.completed@),
        }
    }
}

impl Channel {
    /// Begin a transmission on the channel, returning a `TransmissionStarted` event.
    ///
    /// Contention is settled at once: the new transmission and every active one that it contends
    /// with are marked as collided or captured, according to their powers.
    pub fn begin_transmission(
        &mut self,
        sender: NodeId,
        tx: &Transmission,
        time: SimTime,
    ) -> (event: ChannelEvent)
        requires
            time + tx.duration_us <= SimTime::MAX,
        ensures
            final(self)@ == old(self)@.begin(sender, tx@, time),
            event == (ChannelEvent::TransmissionStarted {
                sender,
                sf: tx.sf,
                frequency: tx.frequency,
                time,
            }),
    {
        let end: SimTime = time + tx.duration_us;
        let threshold: i64 = self.config.co_channel_rejection_mdb as i64;
        let mut new_collided = false;
        let mut new_captured = false;
        let ghost new = OnAir::of(sender, tx@, time);
        let ghost before = self@;
        let mut i: usize = 0;
        while i < self.active.len()
            invariant
                before == old(self)@,
                new == OnAir::of(sender, tx@, time),
                end == new.end,
                threshold == before.config.co_channel_rejection_mdb,
                self.config == before.config,
                on_air(self.completed@) == before.completed,
                self.active@.len() == before.active.len(),
                i <= before.active.len(),
                forall|k: int|
                    0 <= k < i ==> (#[trigger] self.active@[k])@ == before.active[k].beside(
                        new,
                        before.config,
                    ),
                forall|k: int|
                    i <= k < before.active.len() ==> (#[trigger] self.active@[k])@
                        == before.active[k],
                new_collided <==> exists|k: int|
                    0 <= k < i && new.loses_to(#[trigger] before.active[k], before.config),
                new_captured <==> exists|k: int|
                    0 <= k < i && new.captures_over(#[trigger] before.active[k], before.config),
            decreases before.active.len() - i,
        {
            assert(self.active@[i as int]@ == before.active[i as int]);
            let contends = overlaps(self.active[i].start, self.active[i].end, time, end)
                && self.active[i].frequency == tx.frequency && self.active[i].sf == tx.sf;
            if contends {
                let ahead: i64 = (tx.tx_power_dbm as i64 - self.active[i].tx_power_dbm as i64)
                    * 1_000;
                if -ahead >= threshold {
                    self.active[i].captured = true;
                } else {
                    self.active[i].collided = true;
                }
                if ahead >= threshold {
                    new_captured = true;
                } else {
                    new_collided = true;
                }
            }
            i += 1;
        }
        let payload = tx.payload.clone();
        assert(payload@ =~= tx.payload@);
        self.active.push(
            ActiveTransmission {
                sender,
                payload,
                sf: tx.sf,
                bandwidth: tx.bandwidth,
                frequency: tx.frequency,
                tx_power_dbm: tx.tx_power_dbm,
                start: time,
                end,
                collided: new_collided,
                captured: new_captured,
            },
        );
        assert(self@.active =~= before.with(new).active);
        ChannelEvent::TransmissionStarted { sender, sf: tx.sf, frequency: tx.frequency, time }
    }

    /// Move all active transmissions that ended at or before `time` to the completed list,
    /// returning a `TransmissionCompleted` event for each.
    pub fn resolve_at(&mut self, time: SimTime) -> (events: Vec<ChannelEvent>)
        ensures
            final(self)@ == old(self)@.resolve(time),
            events@ == old(self)@.completions(time),
    {
        let mut events: Vec<ChannelEvent> = Vec::new();
        let mut remaining: Vec<ActiveTransmission> = Vec::new();
        let mut active: Vec<ActiveTransmission> = Vec::new();
        std::mem::swap(&mut active, &mut self.active);
        let ghost before = *old(self);
        let ghost live = |t: OnAir| t.end > time;
        let ghost done = |t: OnAir| t.end <= time;
        assert(on_air(self.completed@) =~= before@.completed + before@.active.take(0).filter(done));
        for tx in it: active
            invariant
                before == *old(self),
                it.seq() == before.active@,
                live == (|t: OnAir| t.end > time),
                done == (|t: OnAir| t.end <= time),
                self.config == before.config,
                on_air(remaining@) == before@.active.take(it.index()).filter(live),
                on_air(self.completed@) == before@.completed + before@.active.take(
                    it.index(),
                ).filter(done),
                events@ == before@.active.take(it.index()).filter(done).map_values(
                    |t: OnAir| t.completion(),
                ),
        {
            let ghost n = it.index();
            let ghost so_far = before@.active.take(n);
            proof {
                assert(tx@ == before@.active[n]);
                lemma_filter_step(before@.active, live, n);
                lemma_filter_step(before@.active, done, n);
            }
            if tx.end <= time {
                events.push(
                    ChannelEvent::TransmissionCompleted {
                        sender: tx.sender,
                        time: tx.end,
                        collided: tx.collided,
                    },
                );
                assert(events@ =~= so_far.filter(done).push(tx@).map_values(
                    |t: OnAir| t.completion(),
                ));
                let ghost completed = on_air(self.completed@);
                self.completed.push(tx);
                assert(on_air(self.completed@) =~= completed.push(tx@));
                assert(completed.push(tx@) =~= before@.completed + so_far.filter(done).push(tx@));
            } else {
                remaining.push(tx);
                assert(on_air(remaining@) =~= so_far.filter(live).push(tx@));
            }
        }
        assert(before@.active.take(before@.active.len() as int) =~= before@.active);
        self.active = remaining;
        events
    }

    /// Return all completed, non-collided transmissions as received frames.
    ///
    /// The `_node_id` parameter is accepted for API symmetry but does not filter results.
    pub fn deliver_to(&self, _node_id: NodeId, time: SimTime) -> (frames: Vec<RxMetadata>)
        ensures
            frames@.map_values(|f: RxMetadata| f@) == self@.received(time),
    {
        let mut frames: Vec<RxMetadata> = Vec::new();
        let ghost heard = |t: OnAir| t.end <= time && !t.collided;
        let ghost as_frame = |t: OnAir| t.frame(self@.config);
        let mut i: usize = 0;
        while i < self.completed.len()
            invariant
                i <= self.completed.len(),
                heard == (|t: OnAir| t.end <= time && !t.collided),
                as_frame == (|t: OnAir| t.frame(self@.config)),
                frames@.map_values(|f: RxMetadata| f@) == self@.completed.take(i as int).filter(
                    heard,
                ).map_values(as_frame),
            decreases self.completed.len() - i,
        {
            let ghost so_far = self@.completed.take(i as int);
            proof {
                assert(self@.completed[i as int] == self.completed@[i as int]@);
                lemma_filter_step(self@.completed, heard, i as int);
            }
            if self.completed[i].end <= time && !self.completed[i].collided {
                let ghost heard_so_far = frames@.map_values(|f: RxMetadata| f@);
                let frame = self.frame_of(&self.completed[i]);
                frames.push(frame);
                assert(frames@.map_values(|f: RxMetadata| f@) =~= heard_so_far.push(frame@));
                assert(heard_so_far.push(frame@) =~= so_far.filter(heard).push(
                    self@.completed[i as int],
                ).map_values(as_frame));
            }
            i += 1;
        }
        assert(self@.completed.take(self@.completed.len() as int) =~= self@.completed);
        frames
    }

    /// Drain and return all completed transmissions.
    pub fn drain_completed(&mut self) -> (drained: Vec<CompletedTx>)
        ensures
            final(self)@ == old(self)@.drained(),
            drained@.map_values(|c: CompletedTx| completed_outcome(c)) == old(self)@.outcomes(),
    {
        let mut drained: Vec<CompletedTx> = Vec::new();
        let mut i: usize = 0;
        while i < self.completed.len()
            invariant
                *self == *old(self),
                i == drained@.len(),
                i <= self.completed.len(),
                forall|k: int|
                    0 <= k < i ==> completed_outcome(#[trigger] drained@[k]) == self@.outcomes()[k],
            decreases self.completed.len() - i,
        {
            let tx = &self.completed[i];
            drained.push((tx.sender, tx.collided, tx.captured, self.frame_of(tx)));
            assert(self@.completed[i as int] == self.completed@[i as int]@);
            i += 1;
        }
        self.completed.clear();
        assert(self@.completed =~= Seq::empty());
        assert(drained@.map_values(|c: CompletedTx| completed_outcome(c)) =~= old(self)@.outcomes());
        drained
    }

    fn frame_of(&self, tx: &ActiveTransmission) -> (frame: RxMetadata)
        ensures
            frame@ == tx@.frame(self@.config),
    {
        let rssi = self.compute_rssi(tx.tx_power_dbm);
        let payload = tx.payload.clone();
        assert(payload@ =~= tx.payload@);
        RxMetadata {
            payload,
            rssi,
            snr: self.compute_snr(rssi),
            sf: tx.sf,
            frequency: tx.frequency,
            time: tx.end,
        }
    }

    /// Received power, in thousandths of a dBm, of a transmission sent with `tx_power_dbm`.
    pub fn compute_rssi(&self, tx_power_dbm: i8) -> (rssi: i64)
        ensures
            rssi == self@.config.rssi(tx_power_dbm),
            rssi == tx_power_dbm * 1_000 - self@.config.path_loss_mdb,
    {
        tx_power_dbm as i64 * 1_000 - self.config.path_loss_mdb as i64
    }

    /// Signal-to-noise ratio, in thousandths of a dB, at received power `rssi`.
    pub fn compute_snr(&self, rssi: i64) -> (snr: i64)
        requires
            i64::MIN <= self@.config.snr(rssi as int) <= i64::MAX,
        ensures
            snr == self@.config.snr(rssi as int),
            snr == rssi - self@.config.noise_floor_mdbm,
    {
        rssi - self.config.noise_floor_mdbm as i64
    }

    /// Create an empty channel with LoRa parameters.
    pub fn new() -> (channel: Self)
        ensures
            channel@ == Air::idle(ChannelConfig::lora()),
    {
        Channel::with_config(ChannelConfig::lora_defaults())
    }

    /// Create an empty channel with the given parameters.
    pub fn with_config(config: ChannelConfig) -> (channel: Self)
        ensures
            channel@ == Air::idle(config),
    {
        let channel = Channel { config, active: Vec::new(), completed: Vec::new() };
        assert(channel@ =~= Air::idle(config));
        channel
    }

    /// Create an empty channel with LoRa parameters except for the co-channel rejection
    /// threshold, given in thousandths of a dB.
    pub fn with_co_channel_rejection(co_channel_rejection_mdb: i32) -> (channel: Self)
        ensures
            channel@ == Air::idle(
                (ChannelConfig { co_channel_rejection_mdb, ..ChannelConfig::lora() }),
            ),
    {
        let mut config = ChannelConfig::lora_defaults();
        config.co_channel_rejection_mdb = co_channel_rejection_mdb;
        Channel::with_config(config)
    }

    /// The parameters of this channel.
    pub fn config(&self) -> (config: &ChannelConfig)
        ensures
            *config == self@.config,
    {
        &self.config
    }
}

impl Default for Channel {
    fn default() -> (channel: Self)
        ensures
            channel@ == Air::idle(ChannelConfig::lora()),
    {
        Channel::new()
    }
}

/// One more element in front of `filter`.
proof fn lemma_filter_step<A>(s: Seq<A>, pred: spec_fn(A) -> bool, n: int)
    requires
        0 <= n < s.len(),
    ensures
        s.take(n + 1).filter(pred) == if pred(s[n]) {
            s.take(n).filter(pred).push(s[n])
        } else {
            s.take(n).filter(pred)
        },
{
    reveal(Seq::filter);
    assert(s.take(n + 1).drop_last() =~= s.take(n));
}

} // verus!
