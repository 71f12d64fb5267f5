//! Plain data that nodes, interferers and the channel exchange.
//!
//! Signal levels are integers in thousandths of a decibel: `-86_000` stands for -86 dBm.
use crate::time::SimTime;
use vstd::prelude::*;

verus! {

/// A unique identifier for a simulation node.
#[derive(Debug, Clone, Copy, PartialEq, Eq, Hash, Structural)]
pub struct NodeId(pub u32);

/// Metadata attached to a received radio frame.
#[derive(Debug)]
pub struct RxMetadata {
    pub payload: Vec<u8>,
    /// Received signal strength in thousandths of a dBm.
    pub rssi: i64,
    /// Signal-to-noise ratio in thousandths of a dB.
    pub snr: i64,
    pub sf: u8,
    pub frequency: u32,
    pub time: SimTime,
}

/// The contents of an [`RxMetadata`].
#[verifier::ext_equal]
pub struct Frame {
    pub payload: Seq<u8>,
    pub rssi: i64,
    pub snr: i64,
    pub sf: u8,
    pub frequency: u32,
    pub time: SimTime,
}

impl View for RxMetadata {
    type V = Frame;

    open spec fn view(&self) -> Frame {
        Frame {
            payload: self.payload@,
            rssi: self.rssi,
            snr: self.snr,
            sf: self.sf,
            frequency: self.frequency,
            time: self.time,
        }
    }
}

impl Clone for RxMetadata {
    fn clone(&self) -> (copy: Self)
        ensures
            copy@ == self@,
    {
        let payload = self.payload.clone();
        assert(payload@ =~= self.payload@);
        RxMetadata {
            payload,
            rssi: self.rssi,
            snr: self.snr,
            sf: self.sf,
            frequency: self.frequency,
            time: self.time,
        }
    }
}

/// Parameters for a radio transmission.
#[derive(Debug)]
pub struct Transmission {
    pub payload: Vec<u8>,
    pub sf: u8,
    pub bandwidth: u32,
    pub coding_rate: u8,
    pub frequency: u32,
    pub duration_us: u64,
    pub tx_power_dbm: i8,
}

/// The contents of a [`Transmission`].
#[verifier::ext_equal]
pub struct Burst {
    pub payload: Seq<u8>,
    pub sf: u8,
    pub bandwidth: u32,
    pub coding_rate: u8,
    pub frequency: u32,
    pub duration_us: u64,
    pub tx_power_dbm: i8,
}

impl View for Transmission {
    type V = Burst;

    open spec fn view(&self) -> Burst {
        Burst {
            payload: self.payload@,
            sf: self.sf,
            bandwidth: self.bandwidth,
            coding_rate: self.coding_rate,
            frequency: self.frequency,
            duration_us: self.duration_us,
            tx_power_dbm: self.tx_power_dbm,
        }
    }
}

impl Clone for Transmission {
    fn clone(&self) -> (copy: Self)
        ensures
            copy@ == self@,
    {
        let payload = self.payload.clone();
        assert(payload@ =~= self.payload@);
        Transmission {
            payload,
            sf: self.sf,
            bandwidth: self.bandwidth,
            coding_rate: self.coding_rate,
            frequency: self.frequency,
            duration_us: self.duration_us,
            tx_power_dbm: self.tx_power_dbm,
        }
    }
}

/// The contents of an optional transmission.
pub open spec fn burst_of(tx: Option<Transmission>) -> Option<Burst> {
    match tx {
        Some(tx) => Some(tx@),
        None => None,
    }
}

/// A frame and a transmission are seen in full: nothing of them is cut off or changed.
pub proof fn law_contents_are_seen_in_full(frame: RxMetadata, tx: Transmission)
    ensures
        frame@.payload.len() == frame.payload@.len(),
        forall|i: int|
            0 <= i < frame.payload@.len() ==> #[trigger] frame@.payload[i] == frame.payload@[i],
        frame@.rssi == frame.rssi,
        frame@.snr == frame.snr,
        frame@.sf == frame.sf,
        frame@.frequency == frame.frequency,
        frame@.time == frame.time,
        tx@.payload.len() == tx.payload@.len(),
        forall|i: int| 0 <= i < tx.payload@.len() ==> #[trigger] tx@.payload[i] == tx.payload@[i],
        tx@.sf == tx.sf,
        tx@.bandwidth == tx.bandwidth,
        tx@.coding_rate == tx.coding_rate,
        tx@.frequency == tx.frequency,
        tx@.duration_us == tx.duration_us,
        tx@.tx_power_dbm == tx.tx_power_dbm,
        burst_of(Some(tx)) == Some(tx@),
        burst_of(None) is None,
{
}

/// Events emitted by the channel during a simulation.
#[derive(Debug, Clone, Copy, PartialEq, Eq, Structural)]
pub enum ChannelEvent {
    TransmissionStarted { sender: NodeId, sf: u8, frequency: u32, time: SimTime },
    TransmissionCompleted { sender: NodeId, time: SimTime, collided: bool },
}

} // verus!
