//! Rounding of exact non-negative rationals to binary32 magnitudes.
//!
//! Every finite binary32 value is a whole number of units of `2^-149`, so an
//! exact result is written as a fraction `n / d` of such units.  The magnitude
//! bits (the encoding without its sign bit) of the nearest representable value
//! are then a plain natural number.

use vstd::prelude::*;
use vstd::arithmetic::div_mod::*;
use vstd::arithmetic::mul::*;
use vstd::arithmetic::power2::*;
use vstd::bits::*;

verus! {

/// Magnitude bits of infinity.
pub const INFINITY_MAG: u32 = 0x7f80_0000;

/// The natural number nearest to `n / d`; a tie goes to the even neighbour.
pub open spec fn nearest_even(n: nat, d: nat) -> nat {
    let q = n / d;
    let r = n % d;
    if 2 * r < d || (2 * r == d && q % 2 == 0) {
        q
    } else {
        q + 1
    }
}

/// The natural number nearest to `n / d`; a tie goes up.
pub open spec fn half_up(n: nat, d: nat) -> nat {
    (2 * n + d) / (2 * d)
}

/// How many low bits of `t` do not fit a 24-bit significand.
pub open spec fn excess_bits(t: nat) -> nat
    decreases t,
{
    if t < 0x100_0000 {
        0
    } else {
        1 + excess_bits(t / 2)
    }
}

/// Magnitude bits of the binary32 value nearest to `n / d` units, ties to even,
/// with infinity where the rounded value is out of range.
pub open spec fn nearest_mag(n: nat, d: nat) -> nat {
    let q = excess_bits(n / d);
    let mag = q * 0x80_0000 + nearest_even(n, d * pow2(q));
    if mag < INFINITY_MAG {
        mag
    } else {
        INFINITY_MAG as nat
    }
}

/// The number of units that finite magnitude bits stand for.
pub open spec fn mag_units(mag: nat) -> nat {
    if mag < 0x80_0000 {
        mag
    } else {
        (0x80_0000 + mag % 0x80_0000) * pow2((mag / 0x80_0000 - 1) as nat)
    }
}

/// The number, or zero where it is negative.
pub open spec fn max0(x: int) -> nat {
    if x > 0 {
        x as nat
    } else {
        0
    }
}

/// A number of `b` bits has the excess over 24.
pub(crate) proof fn lemma_excess_bits(t: nat, b: nat)
    requires
        b > 0 ==> pow2((b - 1) as nat) <= t,
        t < pow2(b),
    ensures
        excess_bits(t) == max0(b - 24),
    decreases b,
{
    lemma2_to64();
    if b <= 24 {
        if b < 24 {
            lemma_pow2_strictly_increases(b, 24);
        }
    } else {
        if b > 25 {
            lemma_pow2_strictly_increases(24, (b - 1) as nat);
        }
        lemma_pow2_unfold(b);
        lemma_pow2_unfold((b - 1) as nat);
        lemma_excess_bits(t / 2, (b - 1) as nat);
    }
}

/// Rounding depends on the fraction only, not on how it is written.
pub(crate) proof fn lemma_nearest_even_scale(n: nat, d: nat, c: nat)
    requires
        d > 0,
        c > 0,
    ensures
        nearest_even(n * c, d * c) == nearest_even(n, d),
{
    let q = n / d;
    let r = n % d;
    lemma_fundamental_div_mod(n as int, d as int);
    lemma_mod_bound(n as int, d as int);
    assert(n * c == q * (d * c) + r * c) by (nonlinear_arith)
        requires
            n == d * q + r,
    ;
    assert(0 <= r * c < d * c) by (nonlinear_arith)
        requires
            0 <= r < d,
            c > 0,
    ;
    lemma_fundamental_div_mod_converse(
        (n * c) as int,
        (d * c) as int,
        q as int,
        (r * c) as int,
    );
    assert((2 * r < d) == (2 * (r * c) < d * c)) by (nonlinear_arith)
        requires
            c > 0,
    ;
    assert((2 * r == d) == (2 * (r * c) == d * c)) by (nonlinear_arith)
        requires
            c > 0,
    ;
}

/// Rounding `n / (e * m)` needs only `n / e` and whether that division is exact.
pub(crate) proof fn lemma_nearest_even_sticky(n: nat, e: nat, m: nat, sig: nat, sticky: bool)
    requires
        e > 0,
        m > 0,
        m % 2 == 0 || m == 1,
        m == 1 ==> !sticky,
        sig == n / e,
        sticky == (n % e != 0),
    ensures
        nearest_even(n, e * m) == {
            let hi = sig / m;
            let rem = sig % m;
            if 2 * rem < m || (2 * rem == m && !sticky && hi % 2 == 0) {
                hi
            } else {
                hi + 1
            }
        },
{
    let hi = sig / m;
    let rem = sig % m;
    let r = n % e;
    lemma_fundamental_div_mod(n as int, e as int);
    lemma_mod_bound(n as int, e as int);
    lemma_fundamental_div_mod(sig as int, m as int);
    lemma_mod_bound(sig as int, m as int);
    let rest = e * rem + r;
    assert(n == hi * (e * m) + rest) by (nonlinear_arith)
        requires
            n == e * sig + r,
            sig == m * hi + rem,
            rest == e * rem + r,
    ;
    assert(0 <= rest < e * m) by (nonlinear_arith)
        requires
            rest == e * rem + r,
            0 <= r < e,
            0 <= rem < m,
    ;
    assert(e * m > 0) by (nonlinear_arith)
        requires
            e > 0,
            m > 0,
    ;
    lemma_fundamental_div_mod_converse(n as int, (e * m) as int, hi as int, rest as int);
    if 2 * rem < m {
        if m == 1 {
            assert(rest == 0) by (nonlinear_arith)
                requires
                    rest == e * rem + r,
                    rem == 0,
                    r == 0,
            ;
        } else {
            assert(2 * rest < e * m) by (nonlinear_arith)
                requires
                    rest == e * rem + r,
                    0 <= r < e,
                    2 * rem + 2 <= m,
            ;
        }
    } else if 2 * rem == m {
        assert(2 * rest == e * m + 2 * r) by (nonlinear_arith)
            requires
                rest == e * rem + r,
                2 * rem == m,
        ;
    } else {
        assert(2 * rest > e * m) by (nonlinear_arith)
            requires
                rest == e * rem + r,
                0 <= r,
                e > 0,
                2 * rem > m,
        ;
    }
}

/// The number of significant bits of `x`.
pub(crate) fn bit_length(x: u64) -> (len: u32)
    ensures
        len <= 64,
        x == 0 ==> len == 0,
        x > 0 ==> len > 0 && pow2((len - 1) as nat) <= x,
        x < pow2(len as nat),
{
    if x == 0 {
        proof {
            lemma2_to64();
        }
        return 0;
    }
    let mut rest: u64 = x;
    let mut len: u32 = 1;
    let mut step: u32 = 32;
    proof {
        lemma2_to64();
        lemma_div_basics_2(x as int);
    }
    while step > 0
        invariant
            x > 0,
            step == 32 || step == 16 || step == 8 || step == 4 || step == 2 || step == 1 || step
                == 0,
            1 <= len,
            len + 2 * step <= 65,
            step == 0 ==> len <= 64,
            rest >= 1,
            rest == x as nat / pow2((len - 1) as nat),
            rest < pow2(if step > 0 { 2 * step as nat } else { 1 }),
        decreases step,
    {
        let shift: u64 = step as u64;
        let high: u64 = rest >> shift;
        proof {
            lemma_u64_shr_is_div(rest, shift);
            lemma_pow2_pos(step as nat);
            lemma_pow2_pos((len - 1) as nat);
            lemma_pow2_adds(step as nat, step as nat);
            lemma_pow2_adds((len - 1) as nat, step as nat);
            lemma_div_denominator(
                x as int,
                pow2((len - 1) as nat) as int,
                pow2(step as nat) as int,
            );
            lemma_fundamental_div_mod(rest as int, pow2(step as nat) as int);
            lemma_mod_bound(rest as int, pow2(step as nat) as int);
            let m = pow2(step as nat);
            if high == 0 {
                assert(rest < m) by (nonlinear_arith)
                    requires
                        rest == m * high + rest as nat % m,
                        0 <= rest as nat % m < m,
                        high == 0,
                ;
            } else {
                assert(high < m) by (nonlinear_arith)
                    requires
                        rest < m * m,
                        rest >= m * high,
                        m > 0,
                ;
            }
            lemma2_to64();
        }
        if high > 0 {
            rest = high;
            len = len + step;
        }
        step = step / 2;
    }
    proof {
        let m = pow2((len - 1) as nat);
        lemma_pow2_pos((len - 1) as nat);
        lemma_fundamental_div_mod(x as int, m as int);
        lemma_mod_bound(x as int, m as int);
        lemma_pow2_unfold(len as nat);
        assert(m <= x < 2 * m) by (nonlinear_arith)
            requires
                x == m * rest + x as nat % m,
                0 <= x as nat % m < m,
                rest == 1,
        ;
    }
    len
}


/// What a significand, an exponent and a sticky flag say of an exact fraction:
/// `sig * 2^exp` units is the fraction rounded down to a multiple of `2^exp`,
/// and `sticky` tells whether anything was lost.
pub(crate) open spec fn approximates(sig: int, exp: int, sticky: bool, n: nat, d: nat) -> bool {
    &&& d > 0
    &&& sig == (n * pow2(max0(-exp))) / (d * pow2(max0(exp)))
    &&& sticky == ((n * pow2(max0(-exp))) % (d * pow2(max0(exp))) != 0)
}

/// The bit length of the whole part, from the bit length of the significand.
proof fn lemma_whole_part_bits(sig: nat, exp: int, sticky: bool, n: nat, d: nat, len: nat)
    requires
        approximates(sig as int, exp, sticky, n, d),
        len > 0,
        pow2((len - 1) as nat) <= sig < pow2(len),
    ensures
        len + exp > 0 ==> pow2((len + exp - 1) as nat) <= n / d < pow2((len + exp) as nat),
        len + exp <= 0 ==> n / d == 0,
{
    let k = pow2(max0(-exp));
    let p = pow2(max0(exp));
    let lo = pow2((len - 1) as nat);
    let hi = pow2(len);
    lemma_pow2_pos(max0(-exp));
    lemma_pow2_pos(max0(exp));
    let e = d * p;
    assert(e > 0) by (nonlinear_arith)
        requires
            e == d * p,
            d > 0,
            p > 0,
    ;
    lemma_fundamental_div_mod((n * k) as int, e as int);
    lemma_mod_bound((n * k) as int, e as int);
    assert(n * k >= e * lo && n * k < e * hi) by (nonlinear_arith)
        requires
            n * k == e * sig + (n * k) % e,
            0 <= (n * k) % e < e,
            lo <= sig,
            sig + 1 <= hi,
            e > 0,
    ;
    lemma_fundamental_div_mod(n as int, d as int);
    lemma_mod_bound(n as int, d as int);
    lemma2_to64();
    let q = n / d;
    if len + exp > 0 {
        let lo2 = pow2((len + exp - 1) as nat);
        let hi2 = pow2((len + exp) as nat);
        if exp >= 0 {
            lemma_pow2_adds((len - 1) as nat, exp as nat);
            lemma_pow2_adds(len, exp as nat);
            assert(n >= d * lo2 && n < d * hi2) by (nonlinear_arith)
                requires
                    n * k >= e * lo,
                    n * k < e * hi,
                    k == 1,
                    e == d * p,
                    lo2 == lo * p,
                    hi2 == hi * p,
            ;
        } else {
            lemma_pow2_adds((len + exp - 1) as nat, (-exp) as nat);
            lemma_pow2_adds((len + exp) as nat, (-exp) as nat);
            assert(n >= d * lo2 && n < d * hi2) by (nonlinear_arith)
                requires
                    n * k >= e * lo,
                    n * k < e * hi,
                    k > 0,
                    p == 1,
                    e == d * p,
                    lo == lo2 * k,
                    hi == hi2 * k,
            ;
        }
        assert(lo2 <= q < hi2) by (nonlinear_arith)
            requires
                n >= d * lo2,
                n < d * hi2,
                n == d * q + n % d,
                0 <= n % d < d,
        ;
    } else {
        if len + exp < 0 {
            lemma_pow2_strictly_increases(len, (-exp) as nat);
        }
        assert(n < d) by (nonlinear_arith)
            requires
                n * k < e * hi,
                p == 1,
                e == d * p,
                hi <= k,
                d > 0,
        ;
        lemma_basic_div(n as int, d as int);
    }
}

/// `sig / 2^drop` rounded to the nearest even number, where `sticky` tells that
/// `sig` itself was rounded down.
fn round_off(sig: u64, drop: u32, sticky: bool) -> (r: u64)
    requires
        1 <= drop <= 64,
    ensures
        r == ({
            let m = pow2(drop as nat);
            let hi = sig as nat / m;
            let rem = sig as nat % m;
            if 2 * rem < m || (2 * rem == m && !sticky && hi % 2 == 0) {
                hi
            } else {
                hi + 1
            }
        }),
{
    let half_shift: u64 = (drop - 1) as u64;
    let twice: u64 = sig >> half_shift;
    let hi: u64 = twice / 2;
    let ghost h = pow2((drop - 1) as nat);
    let ghost m = pow2(drop as nat);
    proof {
        lemma_u64_shr_is_div(sig, half_shift);
        lemma_pow2_unfold(drop as nat);
        lemma_pow2_pos((drop - 1) as nat);
        lemma_div_denominator(sig as int, h as int, 2);
        lemma_mul_is_commutative(h as int, 2);
        lemma_fundamental_div_mod(sig as int, h as int);
        lemma_mod_bound(sig as int, h as int);
        lemma_fundamental_div_mod(sig as int, m as int);
        lemma_mod_bound(sig as int, m as int);
        let rem = sig as nat % m;
        let low = sig as nat % h;
        assert(rem == h * (twice % 2) + low) by (nonlinear_arith)
            requires
                sig == h * twice + low,
                sig == m * hi + rem,
                m == 2 * h,
                twice == 2 * hi + twice % 2,
        ;
        if twice % 2 == 0 {
            assert(h * (twice % 2) == 0) by (nonlinear_arith)
                requires
                    twice % 2 == 0,
            ;
        } else {
            assert(h * (twice % 2) == h) by (nonlinear_arith)
                requires
                    twice % 2 == 1,
            ;
        }
        assert((twice << half_shift) == h * twice) by {
            assert(h * twice <= sig);
            lemma_mul_is_commutative(h as int, twice as int);
            lemma_u64_shl_is_mul(twice, half_shift);
        }
        assert((low == 0) == (twice << half_shift == sig));
        if drop > 1 {
            assert(hi + 1 <= u64::MAX);
        }
    }
    if twice % 2 == 0 {
        hi
    } else if (twice << half_shift) == sig && !sticky && hi % 2 == 0 {
        hi
    } else {
        hi + 1
    }
}

/// A value with `q` excess bits rounds to at least the smallest 24-bit significand.
proof fn lemma_nearest_even_lower(n: nat, d: nat, q: nat)
    requires
        d > 0,
        q > 0,
        q == excess_bits(n / d),
    ensures
        nearest_even(n, d * pow2(q)) >= 0x80_0000,
{
    lemma_excess_bounds(n / d);
    lemma_pow2_pos(q);
    let e = d * pow2(q);
    assert(e > 0) by (nonlinear_arith)
        requires
            e == d * pow2(q),
            d > 0,
            pow2(q) > 0,
    ;
    lemma_div_denominator(n as int, d as int, pow2(q) as int);
}

/// A value with `q` excess bits rounds to at most the next power of two.
proof fn lemma_nearest_even_upper(n: nat, d: nat, q: nat)
    requires
        d > 0,
        q == excess_bits(n / d),
    ensures
        nearest_even(n, d * pow2(q)) <= 0x100_0000,
{
    lemma_excess_bounds(n / d);
    lemma_pow2_pos(q);
    lemma_div_denominator(n as int, d as int, pow2(q) as int);
}

/// Without its excess bits a number is a 24-bit significand.
pub(crate) proof fn lemma_excess_bounds(t: nat)
    ensures
        t / pow2(excess_bits(t)) < 0x100_0000,
        excess_bits(t) > 0 ==> t / pow2(excess_bits(t)) >= 0x80_0000,
    decreases t,
{
    lemma2_to64();
    lemma_div_basics_2(t as int);
    if t >= 0x100_0000 {
        let q = excess_bits(t / 2);
        lemma_excess_bounds(t / 2);
        lemma_pow2_pos(q);
        lemma_pow2_unfold(q + 1);
        lemma_div_denominator(t as int, 2, pow2(q) as int);
    }
}

/// Rounds an approximated fraction of units to binary32 magnitude bits.
pub(crate) fn round_to_mag(
    sig: u64,
    exp: i32,
    sticky: bool,
    Ghost(n): Ghost<nat>,
    Ghost(d): Ghost<nat>,
) -> (mag: u32)
    requires
        -1000 <= exp <= 1000,
        approximates(sig as int, exp as int, sticky, n, d),
        sticky ==> sig >= 0x400_0000,
    ensures
        mag == nearest_mag(n, d),
        mag <= INFINITY_MAG,
{
    let len: u32 = bit_length(sig);
    let ghost k = pow2(max0(-exp));
    let ghost p = pow2(max0(exp as int));
    proof {
        lemma_pow2_pos(max0(-exp));
        lemma_pow2_pos(max0(exp as int));
        assert(d * p > 0) by (nonlinear_arith)
            requires
                d > 0,
                p > 0,
        ;
    }
    if sig == 0 {
        proof {
            lemma_fundamental_div_mod((n * k) as int, (d * p) as int);
            assert(n == 0) by (nonlinear_arith)
                requires
                    n * k == (d * p) * 0 + 0,
                    k > 0,
            ;
            lemma_div_of0(d as int);
            lemma_small_mod(0, d);
            lemma2_to64();
            assert(excess_bits(0) == 0);
            assert(d * pow2(0) == d) by (nonlinear_arith)
                requires
                    pow2(0) == 1,
            ;
        }
        return 0;
    }
    let total: i32 = len as i32 + exp;
    let q: i32 = if total > 24 {
        total - 24
    } else {
        0
    };
    proof {
        lemma_whole_part_bits(sig as nat, exp as int, sticky, n, d, len as nat);
        if total > 0 {
            lemma_excess_bits(n / d, total as nat);
        }
        assert(q == excess_bits(n / d));
    }
    let drop: i32 = q - exp;
    let ghost s = max0(drop as int);
    let ghost m = pow2(s);
    let ghost up = pow2(max0(-drop));
    proof {
        lemma_pow2_pos(q as nat);
        lemma_pow2_pos(s);
        lemma_pow2_pos(max0(-drop));
        lemma2_to64();
        if s > 0 {
            lemma_pow2_unfold(s);
        }
        // 2^q * k * up == p * m
        lemma_pow2_adds(q as nat, max0(-exp));
        lemma_pow2_adds(max0(-exp) + q as nat, max0(-drop));
        lemma_pow2_adds(max0(exp as int), s);
        assert(q + max0(-exp) + max0(-drop) == max0(exp as int) + s);
        assert(pow2(q as nat) * k * up == p * m);
        if drop < 0 {
            assert(len <= 24);
            if len < 24 {
                lemma_pow2_strictly_increases(len as nat, 24);
            }
        }
        assert(d * pow2(q as nat) > 0) by (nonlinear_arith)
            requires
                d > 0,
                pow2(q as nat) > 0,
        ;
        assert(k * up > 0) by (nonlinear_arith)
            requires
                k > 0,
                up > 0,
        ;
        lemma_nearest_even_scale(n, d * pow2(q as nat), k * up);
        assert(n * (k * up) == (n * k) * up) by (nonlinear_arith);
        assert((d * pow2(q as nat)) * (k * up) == (d * p) * m) by (nonlinear_arith)
            requires
                pow2(q as nat) * k * up == p * m,
        ;
        assert(nearest_even(n, d * pow2(q as nat)) == nearest_even((n * k) * up, (d * p) * m));
    }
    if q >= 254 {
        proof {
            lemma_nearest_even_lower(n, d, q as nat);
        }
        return INFINITY_MAG;
    }
    let r: u64 = if drop <= 0 {
        let shift: u64 = (-drop) as u64;
        proof {
            let e = d * p;
            lemma_fundamental_div_mod((n * k) as int, e as int);
            assert((n * k) * up == (sig * up) * (e * m)) by (nonlinear_arith)
                requires
                    n * k == e * sig,
                    m == 1,
            ;
            assert(e * m > 0) by (nonlinear_arith)
                requires
                    e > 0,
                    m == 1,
            ;
            lemma_fundamental_div_mod_converse(
                ((n * k) * up) as int,
                (e * m) as int,
                (sig * up) as int,
                0,
            );
            if total > 24 {
                lemma_pow2_adds(len as nat, shift as nat);
                assert(len + shift == 24);
            } else {
                lemma_pow2_adds(len as nat, shift as nat);
                if len + shift < 24 {
                    lemma_pow2_strictly_increases((len + shift) as nat, 24);
                }
            }
            assert(sig * up < 0x100_0000) by (nonlinear_arith)
                requires
                    sig < pow2(len as nat),
                    pow2(len as nat) * up <= 0x100_0000,
                    up > 0,
            ;
            lemma_u64_shl_is_mul(sig, shift);
        }
        sig << shift
    } else {
        proof {
            assert((n * k) * up == n * k) by (nonlinear_arith)
                requires
                    up == 1,
            ;
            lemma_nearest_even_sticky(n * k, d * p, m, sig as nat, sticky);
        }
        if drop > 64 {
            proof {
                lemma_pow2_unfold(s);
                if drop > 65 {
                    lemma_pow2_strictly_increases(64, (s - 1) as nat);
                }
                lemma_basic_div(sig as int, m as int);
                lemma_small_mod(sig as nat, m);
            }
            0
        } else {
            round_off(sig, drop as u32, sticky)
        }
    };
    proof {
        assert(r <= 0x100_0000) by {
            lemma_nearest_even_upper(n, d, q as nat);
        }
    }
    (q as u32) * 0x80_0000 + r as u32
}

/// A representable magnitude is its own nearest value.
pub proof fn lemma_nearest_mag_exact(mag: nat)
    requires
        mag < INFINITY_MAG,
    ensures
        nearest_mag(mag_units(mag), 1) == mag,
{
    let t = mag_units(mag);
    lemma2_to64();
    lemma_div_basics_2(t as int);
    if mag < 0x80_0000 {
        assert(1 * pow2(0) == 1) by (nonlinear_arith)
            requires
                pow2(0) == 1,
        ;
        assert(excess_bits(t) == 0);
    } else {
        let e = (mag / 0x80_0000 - 1) as nat;
        let f = 0x80_0000 + mag % 0x80_0000;
        let p = pow2(e);
        lemma_pow2_pos(e);
        lemma_pow2_adds(23, e);
        lemma_pow2_adds(24, e);
        assert(0x80_0000 * p <= t < 0x100_0000 * p) by (nonlinear_arith)
            requires
                t == f * p,
                0x80_0000 <= f < 0x100_0000,
                p > 0,
        ;
        lemma_excess_bits(t, 24 + e);
        assert(1 * p == p) by (nonlinear_arith);
        lemma_fundamental_div_mod_converse(t as int, p as int, f as int, 0);
    }
}

/// Rounding to a magnitude depends on the fraction only.
pub proof fn lemma_nearest_mag_scale(n: nat, d: nat, c: nat)
    requires
        d > 0,
        c > 0,
    ensures
        nearest_mag(n * c, d * c) == nearest_mag(n, d),
{
    lemma_fundamental_div_mod(n as int, d as int);
    lemma_mod_bound(n as int, d as int);
    let w = n / d;
    let r = n % d;
    assert(n * c == w * (d * c) + r * c) by (nonlinear_arith)
        requires
            n == d * w + r,
    ;
    assert(0 <= r * c < d * c) by (nonlinear_arith)
        requires
            0 <= r < d,
            c > 0,
    ;
    lemma_fundamental_div_mod_converse(
        (n * c) as int,
        (d * c) as int,
        w as int,
        (r * c) as int,
    );
    let q = excess_bits(w);
    lemma_pow2_pos(q);
    assert(d * pow2(q) > 0) by (nonlinear_arith)
        requires
            d > 0,
            pow2(q) > 0,
    ;
    lemma_nearest_even_scale(n, d * pow2(q), c);
    assert((d * pow2(q)) * c == (d * c) * pow2(q)) by (nonlinear_arith);
}

/// A half-up rounding can be read off scaled-down operands.
pub(crate) proof fn lemma_half_up_scale(n: nat, d: nat, c: nat)
    requires
        d > 0,
        c > 0,
    ensures
        half_up(n * c, d * c) == half_up(n, d),
{
    assert(2 * (n * c) + d * c == c * (2 * n + d)) by (nonlinear_arith);
    assert(2 * (d * c) == c * (2 * d)) by (nonlinear_arith);
    lemma_div_multiples_cancel((2 * n + d) as int, (2 * d) as int, c as int);
}

proof fn lemma_div_multiples_cancel(x: int, y: int, c: int)
    requires
        x >= 0,
        y > 0,
        c > 0,
    ensures
        (c * x) / (c * y) == x / y,
{
    lemma_fundamental_div_mod(x, y);
    lemma_mod_bound(x, y);
    let q = x / y;
    let r = x % y;
    assert(c * x == q * (c * y) + c * r) by (nonlinear_arith)
        requires
            x == y * q + r,
    ;
    assert(0 <= c * r < c * y) by (nonlinear_arith)
        requires
            0 <= r < y,
            c > 0,
    ;
    lemma_fundamental_div_mod_converse(c * x, c * y, q, c * r);
}

/// `sig / 2^k` rounded half up, for a 24-bit significand.
pub(crate) fn half_up_shift(sig: u64, k: u32) -> (r: u64)
    requires
        sig < 0x100_0000,
        k >= 1,
    ensures
        r == half_up(sig as nat, pow2(k as nat)),
        r <= sig,
{
    let ghost m = pow2(k as nat);
    proof {
        lemma2_to64();
        lemma_pow2_unfold(k as nat);
        lemma_pow2_pos((k - 1) as nat);
    }
    if k >= 25 {
        proof {
            if k > 25 {
                lemma_pow2_strictly_increases(25, k as nat);
            }
            lemma_basic_div(2 * sig + m, (2 * m) as int);
        }
        0
    } else {
        let half: u64 = 1u64 << ((k - 1) as u64);
        proof {
            if k < 25 {
                lemma_pow2_strictly_increases(k as nat, 25);
            }
            lemma_u64_shl_is_mul(1, (k - 1) as u64);
            lemma_u64_shr_is_div((sig + half) as u64, k as u64);
            lemma_div_multiples_cancel(sig + half, m as int, 2);
            assert(half >= 1);
            let q = (sig + half) as nat / m;
            lemma_fundamental_div_mod(sig + half, m as int);
            lemma_mod_bound(sig + half, m as int);
            if q > sig {
                assert(m * q >= m * (sig + 1)) by (nonlinear_arith)
                    requires
                        q >= sig + 1,
                        m > 0,
                ;
                assert(m * (sig + 1) >= 2 * (sig + 1) && m * (sig + 1) >= m + sig) by (nonlinear_arith)
                    requires
                        m >= 2,
                        sig >= 0,
                ;
            }
        }
        (sig + half) >> (k as u64)
    }
}

/// A number of units whose excess bits are all zero is represented exactly.
pub proof fn lemma_exact_units(t: nat)
    requires
        t % pow2(excess_bits(t)) == 0,
        excess_bits(t) < 253,
    ensures
        nearest_mag(t, 1) < INFINITY_MAG,
        mag_units(nearest_mag(t, 1)) == t,
{
    let q = excess_bits(t);
    let p = pow2(q);
    let f = t / p;
    lemma2_to64();
    lemma_div_basics_2(t as int);
    lemma_pow2_pos(q);
    lemma_excess_bounds(t);
    lemma_fundamental_div_mod(t as int, p as int);
    assert(1 * p == p) by (nonlinear_arith);
    assert(nearest_even(t, p) == f);
    let mag = q * 0x80_0000 + f;
    assert(nearest_mag(t, 1) == mag);
    if q == 0 {
        assert(f == t) by (nonlinear_arith)
            requires
                t == p * f,
                p == 1,
        ;
        if mag >= 0x80_0000 {
            assert(mag / 0x80_0000 - 1 == 0);
            assert((0x80_0000 + mag % 0x80_0000) * pow2(0) == t) by (nonlinear_arith)
                requires
                    0x80_0000 + mag % 0x80_0000 == t,
                    pow2(0) == 1,
            ;
        }
    } else {
        assert(mag / 0x80_0000 - 1 == q);
        assert(mag % 0x80_0000 == f - 0x80_0000);
        lemma_mul_is_commutative(f as int, p as int);
    }
}

/// A small number of large steps is represented exactly.
pub proof fn lemma_exact_multiple(f: nat, e: nat)
    requires
        f < 0x100_0000,
        e <= 229,
    ensures
        nearest_mag(f * pow2(e), 1) < INFINITY_MAG,
        mag_units(nearest_mag(f * pow2(e), 1)) == f * pow2(e),
{
    let t = f * pow2(e);
    lemma2_to64();
    lemma_pow2_pos(e);
    lemma_excess_multiple(f, e);
    let q = excess_bits(t);
    let c = pow2((e - q) as nat);
    lemma_pow2_adds((e - q) as nat, q);
    lemma_pow2_pos(q);
    assert(t == (f * c) * pow2(q)) by (nonlinear_arith)
        requires
            t == f * pow2(e),
            pow2(e) == c * pow2(q),
    ;
    lemma_mod_multiples_basic((f * c) as int, pow2(q) as int);
    lemma_exact_units(t);
}

proof fn lemma_excess_multiple(f: nat, e: nat)
    requires
        f < 0x100_0000,
    ensures
        excess_bits(f * pow2(e)) <= e,
    decreases e,
{
    lemma2_to64();
    if e == 0 {
        assert(f * pow2(0) == f) by (nonlinear_arith)
            requires
                pow2(0) == 1,
        ;
    } else {
        lemma_pow2_unfold(e);
        let t = f * pow2(e);
        let h = f * pow2((e - 1) as nat);
        assert(t == 2 * h) by (nonlinear_arith)
            requires
                t == f * pow2(e),
                pow2(e) == 2 * pow2((e - 1) as nat),
                h == f * pow2((e - 1) as nat),
        ;
        lemma_excess_multiple(f, (e - 1) as nat);
    }
}

/// The magnitude of a fraction between `1 / 2^(c + 1)` and `1 / 2^c`.
pub(crate) proof fn lemma_fraction_mag(k: nat, d: nat, c: nat)
    requires
        0 < d,
        c < 100,
        d <= k * pow2(c + 1),
        k * pow2(c) < d,
    ensures
        nearest_mag(k * pow2(149), d) == ({
            let mag = (125 - c) * 0x80_0000 + nearest_even(k * pow2(24 + c), d);
            if mag < INFINITY_MAG {
                mag as nat
            } else {
                INFINITY_MAG as nat
            }
        }),
{
    let n = k * pow2(149);
    let b = (149 - c) as nat;
    let lo = pow2((b - 1) as nat);
    let hi = pow2(b);
    lemma_pow2_pos((b - 1) as nat);
    lemma_pow2_pos(b);
    lemma_pow2_adds(c + 1, (b - 1) as nat);
    lemma_pow2_adds(c, b);
    assert(n >= d * lo && n < d * hi) by (nonlinear_arith)
        requires
            n == k * pow2(149),
            pow2(149) == pow2(c + 1) * lo,
            pow2(149) == pow2(c) * hi,
            d <= k * pow2(c + 1),
            k * pow2(c) < d,
            lo > 0,
            hi > 0,
    ;
    lemma_fundamental_div_mod(n as int, d as int);
    lemma_mod_bound(n as int, d as int);
    let q = n / d;
    assert(lo <= q < hi) by (nonlinear_arith)
        requires
            n >= d * lo,
            n < d * hi,
            n == d * q + n % d,
            0 <= n % d < d,
    ;
    lemma_excess_bits(q, b);
    let e = (125 - c) as nat;
    lemma_pow2_adds(24 + c, e);
    lemma_pow2_pos(e);
    lemma_nearest_even_scale(k * pow2(24 + c), d, pow2(e));
    assert((k * pow2(24 + c)) * pow2(e) == n) by (nonlinear_arith)
        requires
            n == k * pow2(149),
            pow2(149) == pow2(24 + c) * pow2(e),
    ;
}

/// Larger numbers have no fewer excess bits.
proof fn lemma_excess_monotone(a: nat, b: nat)
    requires
        a <= b,
    ensures
        excess_bits(a) <= excess_bits(b),
    decreases b,
{
    if a >= 0x100_0000 {
        lemma_excess_monotone(a / 2, b / 2);
    }
}

/// Rounding to a whole number keeps the order, and moves by less than one.
pub(crate) proof fn lemma_nearest_even_monotone(a: nat, b: nat, d: nat)
    requires
        a <= b,
        d > 0,
    ensures
        nearest_even(a, d) <= nearest_even(b, d),
        nearest_even(a, d) <= a / d + 1,
        b / d <= nearest_even(b, d),
{
    lemma_fundamental_div_mod(a as int, d as int);
    lemma_fundamental_div_mod(b as int, d as int);
    lemma_div_is_ordered(a as int, b as int, d as int);
}

/// Rounding keeps the order.
pub proof fn lemma_nearest_mag_monotone(a: nat, b: nat, d: nat)
    requires
        a <= b,
        d > 0,
    ensures
        nearest_mag(a, d) <= nearest_mag(b, d),
{
    let q = excess_bits(a / d);
    let r = excess_bits(b / d);
    lemma_div_is_ordered(a as int, b as int, d as int);
    lemma_excess_monotone(a / d, b / d);
    lemma_excess_bounds(a / d);
    lemma_excess_bounds(b / d);
    lemma_pow2_pos(q);
    lemma_pow2_pos(r);
    lemma_div_denominator(a as int, d as int, pow2(q) as int);
    lemma_div_denominator(b as int, d as int, pow2(r) as int);
    assert(d * pow2(q) > 0 && d * pow2(r) > 0) by (nonlinear_arith)
        requires
            d > 0,
            pow2(q) > 0,
            pow2(r) > 0,
    ;
    lemma_nearest_even_monotone(a, a, d * pow2(q));
    lemma_nearest_even_monotone(b, b, d * pow2(r));
    if q == r {
        lemma_nearest_even_monotone(a, b, d * pow2(q));
    }
}

} // verus!
