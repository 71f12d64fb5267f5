//! The xorshift step shared by the generators of this crate, and why rejection sampling over it
//! ends.
use vstd::prelude::*;

verus! {

/// One step of the generator with shifts 13, 7 and 17.
pub open spec fn xorshift(x: u64) -> u64 {
    let a = x ^ (x << 13u64);
    let b = a ^ (a >> 7u64);
    b ^ (b << 17u64)
}

/// The state after `n` steps from `x`.
pub open spec fn iterate(x: u64, n: nat) -> u64
    decreases n,
{
    if n == 0 {
        x
    } else {
        xorshift(iterate(x, (n - 1) as nat))
    }
}

/// The state that a seed stands for: zero, which the step maps to itself, is replaced.
pub open spec fn seeded(seed: u64) -> u64 {
    if seed == 0 {
        1
    } else {
        seed
    }
}

/// A seed other than zero is the state itself: every bit of it counts.
pub proof fn law_seed_is_the_state(seed: u64)
    requires
        seed != 0,
    ensures
        seeded(seed) == seed,
        iterate(seeded(seed), 0) == seed,
        iterate(seeded(seed), 1) == xorshift(seed),
{
    reveal_with_fuel(iterate, 2);
}

/// Each state is one step from the one before.
pub proof fn law_states_are_steps_apart(x: u64, n: nat)
    ensures
        iterate(x, 0) == x,
        iterate(x, n + 1) == xorshift(iterate(x, n)),
{
}

/// Generators made from different seeds, neither of them zero, never meet: after the same number
/// of steps their states differ.
pub proof fn law_different_seeds_never_meet(a: u64, b: u64, n: nat)
    requires
        a != 0,
        b != 0,
        a != b,
    ensures
        iterate(seeded(a), n) != iterate(seeded(b), n),
    decreases n,
{
    if n > 0 {
        law_different_seeds_never_meet(a, b, (n - 1) as nat);
        let x = iterate(seeded(a), (n - 1) as nat);
        let y = iterate(seeded(b), (n - 1) as nat);
        law_step_is_linear(x, y);
        if xorshift(x) == xorshift(y) {
            let u = xorshift(x);
            assert(u ^ u == 0) by (bit_vector);
            assert(x != y ==> x ^ y != 0) by (bit_vector);
            law_nonzero_stays_nonzero(x ^ y);
        }
    }
}

/// The step of a sum, bit by bit, is the sum of the steps.
pub proof fn law_step_is_linear(x: u64, y: u64)
    ensures
        xorshift(x ^ y) == xorshift(x) ^ xorshift(y),
{
    let p = x ^ (x << 13u64);
    let q = y ^ (y << 13u64);
    let r = p ^ (p >> 7u64);
    let t = q ^ (q >> 7u64);
    assert((x ^ y) ^ ((x ^ y) << 13u64) == (x ^ (x << 13u64)) ^ (y ^ (y << 13u64)))
        by (bit_vector);
    assert((p ^ q) ^ ((p ^ q) >> 7u64) == (p ^ (p >> 7u64)) ^ (q ^ (q >> 7u64))) by (bit_vector);
    assert((r ^ t) ^ ((r ^ t) << 17u64) == (r ^ (r << 17u64)) ^ (t ^ (t << 17u64)))
        by (bit_vector);
}

/// Bit `i` of `x`, where positions past either end hold zero.
pub open spec fn bit_at(x: u64, i: int) -> bool {
    0 <= i < 64 && bit(x, i as u64)
}

/// `y` is `x` with every bit flipped for which the bit `by` places below it is set.
pub open spec fn folded(x: u64, y: u64, by: int) -> bool {
    forall|i: int|
        0 <= i < 64 ==> #[trigger] bit_at(y, i) == (bit_at(x, i) != bit_at(x, i - by))
}

/// The step folds the state onto itself three times: 13 places up, 7 places down, 17 places up.
pub proof fn law_step_folds_three_times(x: u64)
    ensures
        exists|a: u64, b: u64| #[trigger]
            folded(x, a, 13) && #[trigger] folded(a, b, -7) && folded(b, xorshift(x), 17),
{
    let a = x ^ (x << 13u64);
    let b = a ^ (a >> 7u64);
    lemma_shift_up_folds(x, 13);
    lemma_shift_down_folds(a, 7);
    lemma_shift_up_folds(b, 17);
    assert(folded(x, a, 13) && folded(a, b, -7) && folded(b, xorshift(x), 17));
}

proof fn lemma_shift_up_folds(x: u64, s: u64)
    requires
        0 < s < 64,
    ensures
        folded(x, x ^ (x << s), s as int),
{
    let y = x ^ (x << s);
    assert forall|i: int| 0 <= i < 64 implies #[trigger] bit_at(y, i) == (bit_at(x, i) != bit_at(
        x,
        i - s,
    )) by {
        let k = i as u64;
        if i < s {
            assert(((x ^ (x << s)) >> k) & 1 == (x >> k) & 1) by (bit_vector)
                requires
                    k < s,
                    s < 64,
            ;
        } else {
            let j = (k - s) as u64;
            assert(((x ^ (x << s)) >> k) & 1 == ((x >> k) & 1) ^ ((x >> j) & 1)) by (bit_vector)
                requires
                    s <= k < 64,
                    j == k - s,
            ;
            lemma_bits_add((x >> k) & 1, (x >> j) & 1, x, k, j);
        }
    }
}

proof fn lemma_shift_down_folds(x: u64, s: u64)
    requires
        0 < s < 64,
    ensures
        folded(x, x ^ (x >> s), -(s as int)),
{
    let y = x ^ (x >> s);
    assert forall|i: int| 0 <= i < 64 implies #[trigger] bit_at(y, i) == (bit_at(x, i) != bit_at(
        x,
        i - (-(s as int)),
    )) by {
        let k = i as u64;
        if i + s >= 64 {
            assert(((x ^ (x >> s)) >> k) & 1 == (x >> k) & 1) by (bit_vector)
                requires
                    k + s >= 64,
                    k < 64,
                    s < 64,
            ;
        } else {
            let j = (k + s) as u64;
            assert(((x ^ (x >> s)) >> k) & 1 == ((x >> k) & 1) ^ ((x >> j) & 1)) by (bit_vector)
                requires
                    j < 64,
                    k < 64,
                    s < 64,
                    j == k + s,
            ;
            lemma_bits_add((x >> k) & 1, (x >> j) & 1, x, k, j);
        }
    }
}

proof fn lemma_bits_add(p: u64, q: u64, x: u64, k: u64, j: u64)
    requires
        p == (x >> k) & 1,
        q == (x >> j) & 1,
    ensures
        (p ^ q == 1) == ((p == 1) != (q == 1)),
{
    assert((p == 0 || p == 1) && (q == 0 || q == 1)) by {
        assert((x >> k) & 1 == 0 || (x >> k) & 1 == 1) by (bit_vector);
        assert((x >> j) & 1 == 0 || (x >> j) & 1 == 1) by (bit_vector);
    }
    assert(0u64 ^ 0u64 == 0 && 0u64 ^ 1u64 == 1 && 1u64 ^ 0u64 == 1 && 1u64 ^ 1u64 == 0)
        by (bit_vector);
}

/// Seeds zero and one stand for the same state.
pub proof fn law_seed_zero_is_seed_one()
    ensures
        seeded(0) == seeded(1),
{
}

/// The step maps no state but zero to zero.
pub proof fn law_nonzero_stays_nonzero(x: u64)
    requires
        x != 0,
    ensures
        xorshift(x) != 0,
{
    let a = x ^ (x << 13u64);
    let b = a ^ (a >> 7u64);
    assert(x != 0 ==> x ^ (x << 13u64) != 0) by (bit_vector);
    assert(a != 0 ==> a ^ (a >> 7u64) != 0) by (bit_vector);
    assert(b != 0 ==> b ^ (b << 17u64) != 0) by (bit_vector);
}

/// No run of the generator from a nonzero state ever yields zero.
pub proof fn law_never_yields_zero(x: u64, n: nat)
    requires
        x != 0,
    ensures
        iterate(x, n) != 0,
    decreases n,
{
    if n > 0 {
        law_never_yields_zero(x, (n - 1) as nat);
        law_nonzero_stays_nonzero(iterate(x, (n - 1) as nat));
    }
}

pub proof fn lemma_iterate_from_next(x: u64, n: nat)
    ensures
        iterate(xorshift(x), n) == iterate(x, n + 1),
    decreases n,
{
    reveal_with_fuel(iterate, 2);
    if n > 0 {
        lemma_iterate_from_next(x, (n - 1) as nat);
    }
}

// Among 65 consecutive states the top bit cannot be set in all.
//
// The step is linear over GF(2), so the top bit of the k-th state is the parity of the first
// state masked with the k-th image of the top-bit mask under the adjoint of the step. A certain
// odd number of the first 65 such images cancel. Were the top bit set in all 65 states, the
// parities of the masked first state would add up to one over these images, while their sum
// masks everything out.

/// Bit `i` of `x` is set.
pub open spec fn bit(x: u64, i: u64) -> bool {
    (x >> i) & 1 == 1
}

/// Whether an odd number of the lowest `n` bits is set.
spec fn parity_below(x: u64, n: nat) -> bool
    decreases n,
{
    if n == 0 {
        false
    } else {
        bit(x, (n - 1) as u64) != parity_below(x, (n - 1) as nat)
    }
}

spec fn parity(x: u64) -> bool {
    parity_below(x, 64)
}

/// `parity(m & xorshift(x))` is `parity(adjoint(m) & x)`.
spec fn adjoint(m: u64) -> u64 {
    let a = m ^ (m >> 17u64);
    let b = a ^ (a << 7u64);
    b ^ (b >> 13u64)
}

/// The sum of those of the first `k` images of `m` under `adjoint` that `choice` has a bit for.
spec fn chosen_images(m: u64, choice: u128, k: nat) -> u64
    decreases k,
{
    if k == 0 {
        0u64
    } else {
        chosen_images(adjoint(m), choice >> 1u128, (k - 1) as nat) ^ (if choice & 1u128 == 1u128 {
            m
        } else {
            0u64
        })
    }
}

/// Whether an odd number of the first `k` images is chosen.
spec fn chooses_odd(choice: u128, k: nat) -> bool
    decreases k,
{
    if k == 0 {
        false
    } else {
        chooses_odd(choice >> 1u128, (k - 1) as nat) != (choice & 1u128 == 1u128)
    }
}

proof fn lemma_parity_below_xor(a: u64, b: u64, n: nat)
    requires
        n <= 64,
    ensures
        parity_below(a ^ b, n) == (parity_below(a, n) != parity_below(b, n)),
    decreases n,
{
    if n > 0 {
        lemma_parity_below_xor(a, b, (n - 1) as nat);
        let i = (n - 1) as u64;
        assert(((a ^ b) >> i) & 1 == ((a >> i) & 1) ^ ((b >> i) & 1)) by (bit_vector);
        assert(((a >> i) & 1 == 0 || (a >> i) & 1 == 1) && ((b >> i) & 1 == 0 || (b >> i) & 1 == 1))
            by (bit_vector);
        assert(0u64 ^ 0u64 == 0 && 0u64 ^ 1u64 == 1 && 1u64 ^ 0u64 == 1 && 1u64 ^ 1u64 == 0)
            by (bit_vector);
    }
}

proof fn lemma_parity_zero(n: nat)
    requires
        n <= 64,
    ensures
        !parity_below(0, n),
    decreases n,
{
    if n > 0 {
        lemma_parity_zero((n - 1) as nat);
        let i = (n - 1) as u64;
        assert((0u64 >> i) & 1 == 0) by (bit_vector);
    }
}

/// Shifting one operand up is shifting the other down, below bit `n` of the shifted product.
proof fn lemma_parity_below_shl(m: u64, x: u64, s: u64, n: nat)
    requires
        s < 64,
        n <= 64,
    ensures
        parity_below(m & (x << s), n) == parity_below((m >> s) & x, if n >= s {
            (n - s) as nat
        } else {
            0
        }),
    decreases n,
{
    if n > 0 {
        lemma_parity_below_shl(m, x, s, (n - 1) as nat);
        let i = (n - 1) as u64;
        if n <= s {
            assert(((m & (x << s)) >> i) & 1 == 0) by (bit_vector)
                requires
                    i < s,
                    s < 64,
            ;
        } else {
            let j = (i - s) as u64;
            assert(((m & (x << s)) >> i) & 1 == (((m >> s) & x) >> j) & 1) by (bit_vector)
                requires
                    s <= i < 64,
                    j == i - s,
            ;
        }
    }
}

/// Bits that were shifted in do not count.
proof fn lemma_parity_below_shr(m: u64, x: u64, s: u64, n: nat)
    requires
        s < 64,
        64 - s <= n <= 64,
    ensures
        parity_below((m >> s) & x, n) == parity_below((m >> s) & x, (64 - s) as nat),
    decreases n,
{
    if n > 64 - s {
        lemma_parity_below_shr(m, x, s, (n - 1) as nat);
        let i = (n - 1) as u64;
        assert((((m >> s) & x) >> i) & 1 == 0) by (bit_vector)
            requires
                i + s >= 64,
                s < 64,
                i < 64,
        ;
    }
}

proof fn lemma_parity_shl(m: u64, x: u64, s: u64)
    requires
        s < 64,
    ensures
        parity(m & (x << s)) == parity((m >> s) & x),
{
    lemma_parity_below_shl(m, x, s, 64);
    lemma_parity_below_shr(m, x, s, 64);
}

proof fn lemma_parity_add_shl(m: u64, x: u64, s: u64)
    requires
        s < 64,
    ensures
        parity(m & (x ^ (x << s))) == parity((m ^ (m >> s)) & x),
{
    assert(m & (x ^ (x << s)) == (m & x) ^ (m & (x << s))) by (bit_vector);
    assert((m ^ (m >> s)) & x == (m & x) ^ ((m >> s) & x)) by (bit_vector);
    lemma_parity_below_xor(m & x, m & (x << s), 64);
    lemma_parity_below_xor(m & x, (m >> s) & x, 64);
    lemma_parity_shl(m, x, s);
}

proof fn lemma_parity_add_shr(m: u64, x: u64, s: u64)
    requires
        s < 64,
    ensures
        parity(m & (x ^ (x >> s))) == parity((m ^ (m << s)) & x),
{
    lemma_parity_add_shl(x, m, s);
    assert(x & (m ^ (m << s)) == (m ^ (m << s)) & x) by (bit_vector);
    assert((x ^ (x >> s)) & m == m & (x ^ (x >> s))) by (bit_vector);
}

proof fn lemma_adjoint(m: u64, x: u64)
    ensures
        parity(m & xorshift(x)) == parity(adjoint(m) & x),
{
    let a = x ^ (x << 13u64);
    let b = a ^ (a >> 7u64);
    let p = m ^ (m >> 17u64);
    let q = p ^ (p << 7u64);
    lemma_parity_add_shl(m, b, 17);
    lemma_parity_add_shr(p, a, 7);
    lemma_parity_add_shl(q, x, 13);
}

/// If the mask `m` has odd parity with each of the first `k` states, the sum of the chosen
/// images has the parity of their number.
proof fn lemma_chosen_images(m: u64, choice: u128, k: nat, x: u64)
    requires
        forall|j: nat| j < k ==> parity(m & #[trigger] iterate(x, j)),
    ensures
        parity(chosen_images(m, choice, k) & x) == chooses_odd(choice, k),
    decreases k,
{
    if k == 0 {
        assert(0u64 & x == 0) by (bit_vector);
        lemma_parity_zero(64);
    } else {
        let rest = chosen_images(adjoint(m), choice >> 1u128, (k - 1) as nat);
        assert forall|j: nat| j < k - 1 implies parity(adjoint(m) & #[trigger] iterate(x, j)) by {
            lemma_adjoint(m, iterate(x, j));
            assert(parity(m & iterate(x, j + 1)));
        }
        lemma_chosen_images(adjoint(m), choice >> 1u128, (k - 1) as nat, x);
        if choice & 1u128 == 1u128 {
            assert((rest ^ m) & x == (rest & x) ^ (m & x)) by (bit_vector);
            lemma_parity_below_xor(rest & x, m & x, 64);
            assert(parity(m & iterate(x, 0)));
        } else {
            assert(rest ^ 0u64 == rest) by (bit_vector);
        }
    }
}

proof fn lemma_top_bit_parity(x: u64, n: nat)
    requires
        n <= 64,
    ensures
        parity_below(0x8000_0000_0000_0000u64 & x, n) == (n == 64 && x >= 0x8000_0000_0000_0000),
    decreases n,
{
    if n > 0 {
        lemma_top_bit_parity(x, (n - 1) as nat);
        let i = (n - 1) as u64;
        assert(((0x8000_0000_0000_0000u64 & x) >> i) & 1 == (if i == 63 && x
            >= 0x8000_0000_0000_0000 {
            1u64
        } else {
            0u64
        })) by (bit_vector)
            requires
                i < 64,
        ;
    }
}

/// Of any 65 consecutive states, one has its top bit clear.
pub proof fn lemma_some_state_is_low(x: u64)
    ensures
        exists|k: nat| k < 65 && #[trigger] iterate(x, k) < 0x8000_0000_0000_0000,
{
    let top = 0x8000_0000_0000_0000u64;
    let choice = 0x1013ed4a358913201u128;
    if forall|k: nat| k < 65 ==> #[trigger] iterate(x, k) >= 0x8000_0000_0000_0000 {
        assert forall|j: nat| j < 65 implies parity(top & #[trigger] iterate(x, j)) by {
            lemma_top_bit_parity(iterate(x, j), 64);
        }
        lemma_chosen_images(top, choice, 65, x);
        assert(chosen_images(0x8000_0000_0000_0000u64, 0x1013ed4a358913201u128, 65) == 0)
            by (bit_vector);
        assert(chooses_odd(0x1013ed4a358913201u128, 65)) by (bit_vector);
        assert(0u64 & x == 0) by (bit_vector);
        lemma_parity_zero(64);
        assert(false);
    }
}

} // verus!
