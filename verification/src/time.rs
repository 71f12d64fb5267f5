//! Simulation time, counted in microseconds from the start of the run.
use vstd::prelude::*;

verus! {

/// A point in simulated time, in microseconds.
pub type SimTime = u64;

/// The whole milliseconds in `t`, counted modulo 2^32.
pub open spec fn whole_ms(t: SimTime) -> int {
    (t as int / 1_000) % 0x1_0000_0000
}

/// Whole milliseconds of `t`, keeping the low 32 bits of the count.
pub fn sim_time_to_ms(t: SimTime) -> (ms: u32)
    ensures
        ms == whole_ms(t),
{
    let whole: u64 = t / 1_000;
    assert(whole as u32 == whole % 0x1_0000_0000) by (bit_vector);
    #[verifier::truncate]
    (whole as u32)
}

/// The point in time that lies `ms` milliseconds after the start.
pub fn ms_to_sim_time(ms: u32) -> (t: SimTime)
    ensures
        t == ms * 1_000,
{
    ms as u64 * 1_000
}

/// Turning milliseconds into a point in time and back gives the same milliseconds.
pub proof fn law_ms_round_trip(ms: u32)
    ensures
        whole_ms((ms * 1_000) as SimTime) == ms,
{
}

/// A point in time less than 2^32 milliseconds after the start lies within the millisecond that it
/// is converted to.
pub proof fn law_sim_time_lies_in_its_ms(t: SimTime)
    requires
        t < 0x1_0000_0000 * 1_000,
    ensures
        whole_ms(t) * 1_000 <= t < (whole_ms(t) + 1) * 1_000,
{
}

/// The count of milliseconds starts over every 2^32 milliseconds.
pub proof fn law_ms_start_over(t: SimTime)
    requires
        t + 0x1_0000_0000 * 1_000 <= SimTime::MAX,
    ensures
        whole_ms((t + 0x1_0000_0000 * 1_000) as SimTime) == whole_ms(t),
{
    assert((t as int + 0x1_0000_0000 * 1_000) / 1_000 == t as int / 1_000 + 0x1_0000_0000);
    vstd::arithmetic::div_mod::lemma_mod_add_multiples_vanish(t as int / 1_000, 0x1_0000_0000);
}

/// The conversion to milliseconds keeps the order of two points in time, as long as the later
/// one is less than 2^32 milliseconds after the start.
pub proof fn law_sim_time_to_ms_monotone(a: SimTime, b: SimTime)
    requires
        a <= b,
        b / 1_000 < 0x1_0000_0000,
    ensures
        whole_ms(a) <= whole_ms(b),
{
}

/// The milliseconds of a point in time never lie past it.
pub proof fn law_sim_time_to_ms_never_exceeds_input(t: SimTime)
    ensures
        whole_ms(t) * 1_000 <= t,
{
}

} // verus!
