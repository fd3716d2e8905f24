//! A small deterministic generator, and uniform values drawn from it.

use vstd::prelude::*;
use vstd::arithmetic::power2::*;
use crate::binary32;
use crate::binary32::Binary32;
use crate::rounding;

verus! {

/// What the state grows by at each draw.
pub const STEP: u64 = 0x9e37_79b9_7f4a_7c15;

/// The generator, with the state it has reached.
#[derive(Clone, Copy, Debug, PartialEq, Eq, Structural)]
pub struct SplitMix64 {
    pub state: u64,
}

/// The state after `n` draws.
pub open spec fn state_after(seed: u64, n: nat) -> u64 {
    ((seed + n * STEP) % 0x1_0000_0000_0000_0000) as u64
}

/// The output for a state: two rounds of shift, exclusive or and multiplication
/// modulo `2^64`, and a last shift.
pub open spec fn mixed(state: u64) -> u64 {
    let a: u64 = (state ^ (state >> 30)).wrapping_mul(0xbf58_476d_1ce4_e5b9);
    let b: u64 = (a ^ (a >> 27)).wrapping_mul(0x94d0_49bb_1331_11eb);
    b ^ (b >> 31)
}

/// Draw number `n`, counted from zero.
pub open spec fn draw(seed: u64, n: nat) -> u64 {
    mixed(state_after(seed, n + 1))
}

/// The top 24 bits of a draw as a fraction of `2^24`.
#[verifier::opaque]
pub open spec fn unit_draw(z: u64) -> Binary32 {
    binary32::quotient(
        binary32::from_natural((z >> 40) as nat),
        binary32::from_natural(0x100_0000),
    )
}

/// Uniform value number `n`, counted from zero.
pub open spec fn uniform(seed: u64, n: nat) -> Binary32 {
    unit_draw(draw(seed, n))
}

impl SplitMix64 {
    /// Starts from a seed.
    pub fn new(seed: u64) -> (r: SplitMix64)
        ensures
            r.state == seed,
            r.state == state_after(seed, 0),
    {
        SplitMix64 { state: seed }
    }

    /// Draws 64 bits.
    pub fn next_u64(&mut self) -> (r: u64)
        ensures
            final(self).state == state_after(old(self).state, 1),
            r == draw(old(self).state, 0),
    {
        self.state = self.state.wrapping_add(STEP);
        let mut value: u64 = self.state;
        value = (value ^ (value >> 30)).wrapping_mul(0xbf58_476d_1ce4_e5b9);
        value = (value ^ (value >> 27)).wrapping_mul(0x94d0_49bb_1331_11eb);
        value ^ (value >> 31)
    }

    /// Draws a value between zero and one.
    pub fn next_f32(&mut self) -> (r: Binary32)
        ensures
            final(self).state == state_after(old(self).state, 1),
            r == uniform(old(self).state, 0),
    {
        proof {
            reveal(unit_draw);
        }
        let bits: u64 = self.next_u64() >> 40;
        Binary32::from_u64(bits).over(Binary32::from_u64(0x100_0000))
    }
}

/// Drawing on from a later state gives the later draws.
pub proof fn law_draws_follow(seed: u64, m: nat, n: nat)
    ensures
        state_after(state_after(seed, m), n) == state_after(seed, m + n),
        draw(state_after(seed, m), n) == draw(seed, m + n),
        uniform(state_after(seed, m), n) == uniform(seed, m + n),
{
    lemma_steps(seed, m, n);
    lemma_steps(seed, m, n + 1);
}

proof fn lemma_steps(seed: u64, m: nat, n: nat)
    ensures
        state_after(state_after(seed, m), n) == state_after(seed, m + n),
{
    let modulus: int = 0x1_0000_0000_0000_0000;
    let a: int = seed + m * STEP;
    let b: int = (n * STEP) as int;
    assert(a + b == seed + (m + n) * STEP) by (nonlinear_arith)
        requires
            a == seed + m * STEP,
            b == n * STEP,
    ;
    assert(a >= 0 && b >= 0) by (nonlinear_arith)
        requires
            a == seed + m * STEP,
            b == n * STEP,
    ;
    vstd::arithmetic::div_mod::lemma_add_mod_noop(a, b, modulus);
    vstd::arithmetic::div_mod::lemma_add_mod_noop(a % modulus, b, modulus);
    vstd::arithmetic::div_mod::lemma_mod_twice(a, modulus);
}

/// A uniform value is exactly its 24 bits over `2^24`, so it lies in `[0, 1)`.
pub proof fn law_uniform_is_exact(z: u64)
    ensures
        unit_draw(z).is_finite(),
        unit_draw(z).value() * 0x100_0000 == (z >> 40) * binary32::one_in_units(),
        0 <= unit_draw(z).value() < binary32::one_in_units(),
{
    reveal(unit_draw);
    let k = (z >> 40) as nat;
    assert(z >> 40 < 0x100_0000) by (bit_vector);
    let one = pow2(149);
    let two24: nat = 0x100_0000;
    lemma2_to64();
    lemma_pow2_pos(149);
    lemma_pow2_pos(125);
    binary32::lemma_natural_is_exact(k);
    binary32::lemma_natural_is_exact(two24);
    reveal(binary32::quotient);
    let num = binary32::from_natural(k);
    let den = binary32::from_natural(two24);
    lemma_pow2_adds(24, 125);
    let u = k * pow2(125);
    let c = two24 * one;
    assert((k * one) * one == u * c) by (nonlinear_arith)
        requires
            u == k * pow2(125),
            one == pow2(24) * pow2(125),
            pow2(24) == two24,
            c == two24 * one,
    ;
    assert(c > 0) by (nonlinear_arith)
        requires
            c == two24 * one,
            two24 > 0,
            one > 0,
    ;
    assert(1 * c == c) by (nonlinear_arith);
    rounding::lemma_nearest_mag_scale(u, 1, c);
    rounding::lemma_exact_multiple(k, 125);
    assert(unit_draw(z).value() == u);
    assert(u * two24 == k * one && u < one) by (nonlinear_arith)
        requires
            u == k * pow2(125),
            one == two24 * pow2(125),
            k < two24,
            pow2(125) > 0,
    ;
}

/// Multiplying by a number and then by its inverse modulo `2^64` changes nothing.
proof fn lemma_inverse(x: u64, c: u64, inverse: u64, k: int)
    requires
        c * inverse == 1 + k * 0x1_0000_0000_0000_0000,
    ensures
        x.wrapping_mul(c).wrapping_mul(inverse) == x,
{
    let m: int = 0x1_0000_0000_0000_0000;
    let y: int = x * c;
    assert(x.wrapping_mul(c) == y % m);
    assert(x.wrapping_mul(c).wrapping_mul(inverse) == ((y % m) * inverse) % m);
    vstd::arithmetic::div_mod::lemma_mul_mod_noop_left(y, inverse as int, m);
    assert(y * inverse == m * (x * k) + x) by (nonlinear_arith)
        requires
            y == x * c,
            c * inverse == 1 + k * m,
    ;
    vstd::arithmetic::div_mod::lemma_mod_multiples_vanish(x * k, x as int, m);
    vstd::arithmetic::div_mod::lemma_small_mod(x as nat, m as nat);
}

/// A state can be worked out from its output, by undoing the mixing from its end to
/// its start; so no two states have the same output.
pub proof fn law_states_are_recovered(state: u64)
    ensures
        ({
            let z = mixed(state);
            let c = z ^ (z >> 31) ^ (z >> 62);
            let d = c.wrapping_mul(0x3196_42b2_d24d_8ec3);
            let e = d ^ (d >> 27) ^ (d >> 54);
            let f = e.wrapping_mul(0x96de_1b17_3f11_9089);
            state == f ^ (f >> 30) ^ (f >> 60)
        }),
{
    let s = state ^ (state >> 30);
    let a = s.wrapping_mul(0xbf58_476d_1ce4_e5b9);
    let t = a ^ (a >> 27);
    let b = t.wrapping_mul(0x94d0_49bb_1331_11eb);
    let z = b ^ (b >> 31);
    assert(b == z ^ (z >> 31) ^ (z >> 62)) by (bit_vector)
        requires
            z == b ^ (b >> 31),
    ;
    assert(0x94d0_49bb_1331_11eb * 0x3196_42b2_d24d_8ec3 == 1 + 2_077_064_247_507_883_091
        * 0x1_0000_0000_0000_0000);
    lemma_inverse(
        t,
        0x94d0_49bb_1331_11eb,
        0x3196_42b2_d24d_8ec3,
        2_077_064_247_507_883_091,
    );
    assert(a == t ^ (t >> 27) ^ (t >> 54)) by (bit_vector)
        requires
            t == a ^ (a >> 27),
    ;
    assert(0xbf58_476d_1ce4_e5b9 * 0x96de_1b17_3f11_9089 == 1 + 8_125_545_580_553_827_436
        * 0x1_0000_0000_0000_0000);
    lemma_inverse(
        s,
        0xbf58_476d_1ce4_e5b9,
        0x96de_1b17_3f11_9089,
        8_125_545_580_553_827_436,
    );
    assert(state == s ^ (s >> 30) ^ (s >> 60)) by (bit_vector)
        requires
            s == state ^ (state >> 30),
    ;
}

/// The state grows by the same odd number at every draw, modulo `2^64`.
pub proof fn law_states_step(seed: u64, n: nat)
    ensures
        state_after(seed, 0) == seed,
        state_after(seed, n + 1) == (state_after(seed, n) + 0x9e37_79b9_7f4a_7c15)
            % 0x1_0000_0000_0000_0000,
{
    lemma_steps(seed, n, 1);
}

} // verus!
