//! The interfaces that users of the simulator implement.
//!
//! A node, an interferer and a traffic model say in a `behaves` predicate which answers they give
//! to which calls, call after call. Unless an implementation says otherwise, every answer is
//! possible: what is proved of the rest of the crate holds whatever the answers are.
use crate::time::SimTime;
use crate::types::{Burst, ChannelEvent, Frame, RxMetadata, Transmission};
use vstd::prelude::*;

verus! {

/// A protocol defines how a node processes received frames and generates transmissions.
pub trait Protocol {
    type Config;

    type State;

    type Metrics;

    fn init(&self, config: Self::Config) -> (Self::State, Option<SimTime>);

    fn on_receive(
        &self,
        state: &mut Self::State,
        frame: RxMetadata,
        time: SimTime,
    ) -> Option<SimTime>;

    fn poll_transmit(&self, state: &mut Self::State, time: SimTime) -> Option<Transmission>;

    fn update(&self, state: &mut Self::State, time: SimTime) -> Option<SimTime>;

    fn metrics(&self, state: &Self::State) -> Self::Metrics;
}

/// A call on a traffic model, with its answer.
pub struct PayloadCall {
    pub time: SimTime,
    pub payload: Option<Seq<u8>>,
}

/// The contents of an optional payload.
pub open spec fn payload_of(payload: Option<Vec<u8>>) -> Option<Seq<u8>> {
    match payload {
        Some(bytes) => Some(bytes@),
        None => None,
    }
}

/// A payload is seen in full.
pub proof fn law_payload_is_seen_in_full(payload: Vec<u8>)
    ensures
        payload_of(Some(payload)) matches Some(bytes) && bytes.len() == payload@.len() && forall|
            i: int,
        |
            0 <= i < bytes.len() ==> #[trigger] bytes[i] == payload@[i],
        payload_of(None) is None,
{
}

/// A traffic model determines what payloads a node generates and when.
pub trait TrafficModel {
    /// From here on this model can answer `calls`, made one after another, as they say.
    open spec fn behaves(&self, calls: Seq<PayloadCall>) -> bool {
        true
    }

    /// The answer is one that the model can give, and what it can answer from then on is what it
    /// could answer after this call.
    fn next_payload(&mut self, time: SimTime) -> (payload: Option<Vec<u8>>)
        ensures
            old(self).behaves(seq![PayloadCall { time, payload: payload_of(payload) }]),
            forall|later: Seq<PayloadCall>| #[trigger]
                final(self).behaves(later) ==> old(self).behaves(
                    seq![PayloadCall { time, payload: payload_of(payload) }] + later,
                ),
    ;
}

/// A call on an interferer, with its answer.
#[verifier::ext_equal]
pub enum SourceCall {
    Observe { event: ChannelEvent, time: SimTime },
    PollInject { time: SimTime, tx: Option<Burst> },
    NextPollTime { time: SimTime, next: Option<SimTime> },
}

/// An interference source can inject transmissions and observe channel events.
///
/// Of each call: the answer is one that the source can give, and what it can answer from then on
/// is what it could answer after this call.
pub trait InterferenceSource {
    /// From here on this source can answer `calls`, made one after another, as they say.
    open spec fn behaves(&self, calls: Seq<SourceCall>) -> bool {
        true
    }

    fn observe(&mut self, event: &ChannelEvent, time: SimTime)
        ensures
            old(self).behaves(seq![SourceCall::Observe { event: *event, time }]),
            forall|later: Seq<SourceCall>| #[trigger]
                final(self).behaves(later) ==> old(self).behaves(
                    seq![SourceCall::Observe { event: *event, time }] + later,
                ),
    ;

    fn poll_inject(&mut self, time: SimTime) -> (tx: Option<Transmission>)
        ensures
            old(self).behaves(
                seq![SourceCall::PollInject { time, tx: crate::types::burst_of(tx) }],
            ),
            forall|later: Seq<SourceCall>| #[trigger]
                final(self).behaves(later) ==> old(self).behaves(
                    seq![SourceCall::PollInject { time, tx: crate::types::burst_of(tx) }] + later,
                ),
    ;

    fn next_poll_time(&self, current_time: SimTime) -> (next: Option<SimTime>)
        ensures
            self.behaves(seq![SourceCall::NextPollTime { time: current_time, next }]),
            forall|later: Seq<SourceCall>| #[trigger]
                self.behaves(later) ==> self.behaves(
                    seq![SourceCall::NextPollTime { time: current_time, next }] + later,
                ),
    ;
}

/// A call on a node, with its answer.
#[verifier::ext_equal]
pub enum NodeCall {
    Update { time: SimTime, wake: Option<SimTime> },
    OnReceive { frame: Frame, time: SimTime, wake: Option<SimTime> },
    PollTransmit { time: SimTime, tx: Option<Burst> },
}

} // verus!
