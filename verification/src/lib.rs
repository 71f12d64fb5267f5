//! A deterministic discrete-event simulator for wireless networks.
pub mod accounts;
pub mod air_laws;
pub mod aloha;
pub mod aloha_laws;
pub mod call_laws;
pub mod cast;
pub mod census;
pub mod channel;
pub mod channel_laws;
pub mod delivery_laws;
pub mod growth;
pub mod limit_laws;
pub mod medium_laws;
pub mod metrics;
pub mod order_laws;
pub mod poll_census;
pub mod prng;
pub mod queue;
pub mod rerun_laws;
pub mod run_laws;
pub mod schedule_laws;
pub mod scheduler;
pub mod simulation;
pub mod simulation_laws;
pub mod step_laws;
pub mod time;
pub mod trace_laws;
pub mod traits;
pub mod types;
pub mod xorshift;
