use theatron::time::SimTime;
use theatron::traits::Protocol;
use theatron::types::{RxMetadata, Transmission};

struct NoOpProtocol;

impl Protocol for NoOpProtocol {
    type Config = ();
    type State = ();
    type Metrics = ();

    fn init(&self, _config: ()) -> ((), Option<SimTime>) {
        ((), None)
    }

    fn on_receive(
        &self,
        _state: &mut (),
        _frame: RxMetadata,
        _time: SimTime,
    ) -> Option<SimTime> {
        None
    }

    fn poll_transmit(&self, _state: &mut (), _time: SimTime) -> Option<Transmission> {
        None
    }

    fn update(&self, _state: &mut (), _time: SimTime) -> Option<SimTime> {
        None
    }

    fn metrics(&self, _state: &()) {}
}

#[test]
fn no_op_protocol_init_returns_no_wake() {
    let p = NoOpProtocol;
    let (state, wake) = p.init(());
    assert!(wake.is_none(), "NoOpProtocol should not schedule an initial wake");

    let _: () = state;
}

#[test]
fn no_op_protocol_on_receive_returns_none() {
    let p = NoOpProtocol;
    let mut state = ();
    let frame = RxMetadata {
        payload: vec![0xAB],
        rssi: -80_000,
        snr: 10_000,
        sf: 7,
        frequency: 868_100_000,
        time: 0,
    };
    let next_wake = p.on_receive(&mut state, frame, 0);
    assert!(next_wake.is_none());
}

#[test]
fn no_op_protocol_poll_transmit_returns_none() {
    let p = NoOpProtocol;
    let mut state = ();
    let tx = p.poll_transmit(&mut state, 0);
    assert!(tx.is_none());
}

#[test]
fn no_op_protocol_update_returns_none() {
    let p = NoOpProtocol;
    let mut state = ();
    let next_wake = p.update(&mut state, 0);
    assert!(next_wake.is_none());
}

#[test]
fn no_op_protocol_metrics_compiles_and_returns_unit() {
    let p = NoOpProtocol;
    let state = ();

    let result: () = p.metrics(&state);
    let _ = result;
}
