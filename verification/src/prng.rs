//! A minimal, deterministic PRNG for reproducible simulations.
use crate::xorshift::{iterate, seeded, xorshift};
use rand_core::{impls, Error, RngCore};
use vstd::prelude::*;

verus! {

/// The error type of `rand_core`; no value of it is ever made here.
#[verifier::external_type_specification]
#[verifier::external_body]
pub struct ExError(rand_core::Error);

/// A fast, deterministic 64-bit xorshift PRNG.
///
/// Suitable for simulation use where reproducibility from a seed matters
/// more than cryptographic strength. Seed 0 is mapped to 1 to avoid the
/// fixed point.
#[derive(Clone, Copy)]
pub struct Xorshift64(u64);

/// Byte `i` of `x`, counted from the least significant.
pub open spec fn le_byte(x: u64, i: int) -> u8 {
    ((x >> (8 * i) as u64) & 0xff) as u8
}

/// The bytes that a generator in state `x` writes: the little-endian bytes of its outputs, one
/// after another.
pub open spec fn byte_stream(x: u64, i: int) -> u8 {
    le_byte(iterate(x, (i / 8 + 1) as nat), i % 8)
}

/// The number of outputs that `len` bytes take.
pub open spec fn outputs_for(len: nat) -> nat {
    (len + 7) / 8
}

/// The bytes of `x`, each counted as often as its place says, add up to `x`.
pub proof fn law_bytes_make_up_the_output(x: u64)
    ensures
        le_byte(x, 0) + le_byte(x, 1) * 0x100 + le_byte(x, 2) * 0x1_0000 + le_byte(x, 3)
            * 0x100_0000 + le_byte(x, 4) * 0x1_0000_0000 + le_byte(x, 5) * 0x100_0000_0000
            + le_byte(x, 6) * 0x1_0000_0000_0000 + le_byte(x, 7) * 0x100_0000_0000_0000 == x,
{
    let b0 = (x >> 0u64) & 0xff;
    let b1 = (x >> 8u64) & 0xff;
    let b2 = (x >> 16u64) & 0xff;
    let b3 = (x >> 24u64) & 0xff;
    let b4 = (x >> 32u64) & 0xff;
    let b5 = (x >> 40u64) & 0xff;
    let b6 = (x >> 48u64) & 0xff;
    let b7 = (x >> 56u64) & 0xff;
    assert(b0 < 0x100 && b1 < 0x100 && b2 < 0x100 && b3 < 0x100 && b4 < 0x100 && b5 < 0x100 && b6
        < 0x100 && b7 < 0x100) by (bit_vector)
        requires
            b0 == (x >> 0u64) & 0xff,
            b1 == (x >> 8u64) & 0xff,
            b2 == (x >> 16u64) & 0xff,
            b3 == (x >> 24u64) & 0xff,
            b4 == (x >> 32u64) & 0xff,
            b5 == (x >> 40u64) & 0xff,
            b6 == (x >> 48u64) & 0xff,
            b7 == (x >> 56u64) & 0xff,
    ;
    assert(x / 0x100 == x >> 8u64 && x % 0x100 == (x >> 0u64) & 0xff) by (bit_vector);
    let x1 = x >> 8u64;
    assert(x1 / 0x100 == x >> 16u64 && x1 % 0x100 == (x >> 8u64) & 0xff) by (bit_vector)
        requires
            x1 == x >> 8u64,
    ;
    let x2 = x >> 16u64;
    assert(x2 / 0x100 == x >> 24u64 && x2 % 0x100 == (x >> 16u64) & 0xff) by (bit_vector)
        requires
            x2 == x >> 16u64,
    ;
    let x3 = x >> 24u64;
    assert(x3 / 0x100 == x >> 32u64 && x3 % 0x100 == (x >> 24u64) & 0xff) by (bit_vector)
        requires
            x3 == x >> 24u64,
    ;
    let x4 = x >> 32u64;
    assert(x4 / 0x100 == x >> 40u64 && x4 % 0x100 == (x >> 32u64) & 0xff) by (bit_vector)
        requires
            x4 == x >> 32u64,
    ;
    let x5 = x >> 40u64;
    assert(x5 / 0x100 == x >> 48u64 && x5 % 0x100 == (x >> 40u64) & 0xff) by (bit_vector)
        requires
            x5 == x >> 40u64,
    ;
    let x6 = x >> 48u64;
    assert(x6 / 0x100 == x >> 56u64 && x6 % 0x100 == (x >> 48u64) & 0xff) by (bit_vector)
        requires
            x6 == x >> 48u64,
    ;
    let x7 = x >> 56u64;
    assert(x7 == (x >> 56u64) & 0xff) by (bit_vector)
        requires
            x7 == x >> 56u64,
    ;
}

/// Every eight bytes that are written make up one output, the least significant byte first: the
/// eight bytes after `8 * k` others are the bytes of output number `k + 1`.
pub proof fn law_eight_bytes_make_up_one_output(x: u64, k: nat)
    ensures
        ({
            let at = 8 * k as int;
            byte_stream(x, at) + byte_stream(x, at + 1) * 0x100 + byte_stream(x, at + 2) * 0x1_0000
                + byte_stream(x, at + 3) * 0x100_0000 + byte_stream(x, at + 4) * 0x1_0000_0000
                + byte_stream(x, at + 5) * 0x100_0000_0000 + byte_stream(x, at + 6)
                * 0x1_0000_0000_0000 + byte_stream(x, at + 7) * 0x100_0000_0000_0000
        }) == iterate(x, k + 1),
{
    let at = 8 * k as int;
    law_bytes_make_up_the_output(iterate(x, k + 1));
    assert forall|j: int| 0 <= j < 8 implies #[trigger] byte_stream(x, at + j) == le_byte(
        iterate(x, k + 1),
        j,
    ) by {
        assert((at + j) / 8 == k);
        assert((at + j) % 8 == j);
    }
    assert(byte_stream(x, at + 0) == le_byte(iterate(x, k + 1), 0));
}

/// Writing bytes takes as few outputs as hold them.
pub proof fn law_bytes_take_as_few_outputs_as_hold_them(len: nat)
    ensures
        len <= 8 * outputs_for(len) < len + 8,
{
}

impl Xorshift64 {
    /// The state, which is also the last output.
    pub closed spec fn state(&self) -> u64 {
        self.0
    }

    /// Create a new generator from a seed.
    pub fn new(seed: u64) -> (rng: Self)
        ensures
            rng.state() == seeded(seed),
            rng.state() != 0,
            seed != 0 ==> rng.state() == seed,
            seed == 0 ==> rng.state() == 1,
    {
        Xorshift64(if seed == 0 { 1 } else { seed })
    }
}

/// `rand_core::impls::fill_bytes_via_next`, applied to an [`Xorshift64`].
///
/// It draws one output for every eight bytes and one for what remains, and writes the bytes of
/// each in little-endian order. A remainder of at most four bytes takes the low half of an
/// output.
#[verifier::external_body]
fn fill_bytes_via_next(rng: &mut Xorshift64, dest: &mut [u8])
    ensures
        final(rng).state() == iterate(old(rng).state(), outputs_for(old(dest)@.len())),
        final(dest)@.len() == old(dest)@.len(),
        forall|i: int|
            0 <= i < old(dest)@.len() ==> #[trigger] final(dest)@[i] == byte_stream(
                old(rng).state(),
                i,
            ),
{
    impls::fill_bytes_via_next(rng, dest);
}

impl RngCore for Xorshift64 {
    fn next_u32(&mut self) -> (r: u32)
        ensures
            final(self).state() == xorshift(old(self).state()),
            r == final(self).state() % 0x1_0000_0000,
    {
        let x: u64 = self.next_u64();
        assert(x as u32 == x % 0x1_0000_0000) by (bit_vector);
        #[verifier::truncate]
        (x as u32)
    }

    fn next_u64(&mut self) -> (r: u64)
        ensures
            final(self).state() == xorshift(old(self).state()),
            r == final(self).state(),
            old(self).state() != 0 ==> r != 0,
    {
        let mut x: u64 = self.0;
        x ^= x << 13;
        x ^= x >> 7;
        x ^= x << 17;
        self.0 = x;
        proof {
            if old(self).state() != 0 {
                crate::xorshift::law_nonzero_stays_nonzero(old(self).state());
            }
        }
        x
    }

    fn fill_bytes(&mut self, dest: &mut [u8])
        ensures
            final(self).state() == iterate(old(self).state(), outputs_for(old(dest)@.len())),
            final(dest)@.len() == old(dest)@.len(),
            forall|i: int|
                0 <= i < old(dest)@.len() ==> #[trigger] final(dest)@[i] == byte_stream(
                    old(self).state(),
                    i,
                ),
    {
        fill_bytes_via_next(self, dest);
    }

    fn try_fill_bytes(&mut self, dest: &mut [u8]) -> (r: Result<(), Error>)
        ensures
            r is Ok,
            final(self).state() == iterate(old(self).state(), outputs_for(old(dest)@.len())),
            final(dest)@.len() == old(dest)@.len(),
            forall|i: int|
                0 <= i < old(dest)@.len() ==> #[trigger] final(dest)@[i] == byte_stream(
                    old(self).state(),
                    i,
                ),
    {
        self.fill_bytes(dest);
        Ok(())
    }
}

} // verus!
