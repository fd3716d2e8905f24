//! How near rounded results lie to the exact ones.
//!
//! Every law here compares a result with the exact value over the integers: no
//! other binary32 value lies nearer, and the distance to it is bounded.

use vstd::prelude::*;
use vstd::arithmetic::div_mod::*;
use vstd::arithmetic::power2::*;
use crate::binary32;
use crate::binary32::Binary32;
use crate::rounding;
use crate::rounding::INFINITY_MAG;

verus! {

/// The greatest finite value in units.
pub open spec fn greatest() -> nat {
    rounding::mag_units((INFINITY_MAG - 1) as nat)
}

/// The distance of two numbers.
pub open spec fn apart(a: int, b: int) -> int {
    if a < b {
        b - a
    } else {
        a - b
    }
}

/// The nearest whole number is nearer than any other.
proof fn lemma_nearest_even_best(n: nat, d: nat, j: nat)
    requires
        d > 0,
    ensures
        apart((rounding::nearest_even(n, d) * d) as int, n as int) <= apart(
            (j * d) as int,
            n as int,
        ),
        2 * apart((rounding::nearest_even(n, d) * d) as int, n as int) <= d,
{
    let q = n / d;
    let r = n % d;
    lemma_fundamental_div_mod(n as int, d as int);
    lemma_mod_bound(n as int, d as int);
    assert(q * d + r == n && (q + 1) * d == q * d + d) by (nonlinear_arith)
        requires
            n == d * q + r,
    ;
    if j <= q {
        assert(j * d <= q * d) by (nonlinear_arith)
            requires
                j <= q,
        ;
    } else {
        assert(j * d >= (q + 1) * d) by (nonlinear_arith)
            requires
                j >= q + 1,
        ;
    }
}

/// A rounded magnitude is a significand of its own step.
proof fn lemma_rounded_units(n: nat, d: nat)
    requires
        d > 0,
        rounding::nearest_mag(n, d) < INFINITY_MAG,
    ensures
        ({
            let step = pow2(rounding::excess_bits(n / d));
            &&& rounding::mag_units(rounding::nearest_mag(n, d)) == rounding::nearest_even(
                n,
                d * step,
            ) * step
            &&& rounding::excess_bits(n / d) > 0 ==> 0x80_0000 * (d * step) <= n
        }),
{
    let q = rounding::excess_bits(n / d);
    let step = pow2(q);
    let w = d * step;
    let k = rounding::nearest_even(n, w);
    lemma2_to64();
    lemma_pow2_pos(q);
    rounding::lemma_excess_bounds(n / d);
    lemma_div_denominator(n as int, d as int, step as int);
    assert(w > 0) by (nonlinear_arith)
        requires
            w == d * step,
            d > 0,
            step > 0,
    ;
    rounding::lemma_nearest_even_monotone(n, n, w);
    let mag = q * 0x80_0000 + k;
    assert(rounding::nearest_mag(n, d) == mag);
    assert(k <= 0x100_0000);
    lemma_fundamental_div_mod(n as int, w as int);
    lemma_mod_bound(n as int, w as int);
    if q > 0 {
        let whole = n / w;
        assert(0x80_0000 * w <= n) by (nonlinear_arith)
            requires
                n == w * whole + n as int % w as int,
                n as int % w as int >= 0,
                whole >= 0x80_0000,
                w > 0,
        ;
    }
    if k == 0x100_0000 {
        lemma_pow2_unfold(q + 1);
        assert(mag / 0x80_0000 == q + 2 && mag % 0x80_0000 == 0);
        assert(0x80_0000 * pow2(q + 1) == k * step) by (nonlinear_arith)
            requires
                pow2(q + 1) == 2 * step,
                k == 0x100_0000,
        ;
    } else if k >= 0x80_0000 {
        assert(mag / 0x80_0000 == q + 1 && mag % 0x80_0000 == k - 0x80_0000);
    } else {
        assert(q == 0);
        assert(k * step == k) by (nonlinear_arith)
            requires
                step == 1,
        ;
    }
}

/// No magnitude stands for a number nearer to `n / d` than the rounded one, and
/// that one lies within one part in `2^24` or half a unit.
pub proof fn law_rounding_is_nearest(n: nat, d: nat, other: nat)
    requires
        d > 0,
        rounding::nearest_mag(n, d) < INFINITY_MAG,
    ensures
        apart((rounding::mag_units(rounding::nearest_mag(n, d)) * d) as int, n as int) <= apart(
            (rounding::mag_units(other) * d) as int,
            n as int,
        ),
        apart((rounding::mag_units(rounding::nearest_mag(n, d)) * d) as int, n as int) * 0x100_0000
            <= n + d * 0x80_0000,
        d == 1 ==> apart(rounding::mag_units(rounding::nearest_mag(n, d)) as int, n as int)
            * 0x100_0000 <= n,
{
    let q = rounding::excess_bits(n / d);
    let step = pow2(q);
    let w = d * step;
    let k = rounding::nearest_even(n, w);
    let u = rounding::mag_units(rounding::nearest_mag(n, d));
    let x = rounding::mag_units(other);
    lemma2_to64();
    lemma_pow2_pos(q);
    lemma_rounded_units(n, d);
    assert(w > 0) by (nonlinear_arith)
        requires
            w == d * step,
            d > 0,
            step > 0,
    ;
    assert(u * d == k * w) by (nonlinear_arith)
        requires
            u == k * step,
            w == d * step,
    ;
    lemma_nearest_even_best(n, w, 0);
    if q == 0 {
        assert(w == d) by (nonlinear_arith)
            requires
                w == d * step,
                step == 1,
        ;
        lemma_nearest_even_best(n, w, x);
        if d == 1 {
            lemma_nearest_even_best(n, w, n);
        }
    } else {
        let e = if other < 0x80_0000 {
            0
        } else {
            (other / 0x80_0000 - 1) as nat
        };
        let f = if other < 0x80_0000 {
            other
        } else {
            (0x80_0000 + other % 0x80_0000) as nat
        };
        assert(x == f * pow2(e)) by {
            if other < 0x80_0000 {
                assert(f * pow2(0) == f) by (nonlinear_arith)
                    requires
                        pow2(0) == 1,
                ;
            }
        }
        if e >= q {
            lemma_pow2_adds(q, (e - q) as nat);
            let j = f * pow2((e - q) as nat);
            assert(x * d == j * w) by (nonlinear_arith)
                requires
                    x == f * pow2(e),
                    pow2(e) == step * pow2((e - q) as nat),
                    j == f * pow2((e - q) as nat),
                    w == d * step,
            ;
            lemma_nearest_even_best(n, w, j);
        } else {
            lemma_pow2_unfold(q);
            if e < q - 1 {
                lemma_pow2_strictly_increases(e, (q - 1) as nat);
            }
            assert(x * d <= 0x80_0000 * w) by (nonlinear_arith)
                requires
                    x == f * pow2(e),
                    f <= 0x100_0000,
                    2 * pow2(e) <= step,
                    w == d * step,
            ;
            lemma_nearest_even_best(n, w, 0x80_0000);
        }
    }
}

/// Rounding gives a finite magnitude up to the greatest finite value.
proof fn lemma_rounds_to_finite(n: nat, d: nat)
    requires
        d > 0,
        n <= greatest() * d,
    ensures
        rounding::nearest_mag(n, d) < INFINITY_MAG,
{
    rounding::lemma_nearest_mag_monotone(n, greatest() * d, d);
    assert(1 * d == d) by (nonlinear_arith);
    rounding::lemma_nearest_mag_scale(greatest(), 1, d);
    rounding::lemma_nearest_mag_exact((INFINITY_MAG - 1) as nat);
}

/// Units of a value below one part of a product.
proof fn lemma_signed_apart(v: int, u: nat, x: Binary32)
    ensures
        apart(
            if v < 0 {
                -(u as int)
            } else {
                u as int
            },
            v,
        ) == apart(u as int, binary32::abs(v) as int),
        apart(x.units() as int, binary32::abs(v) as int) <= apart(x.value(), v),
{
}

/// A sum of finite values is finite up to the greatest finite value, no value
/// lies nearer to the exact sum, and it is off by at most one part in `2^24`.
pub proof fn law_sum_is_nearest(a: Binary32, b: Binary32, other: Binary32)
    requires
        a.is_finite(),
        b.is_finite(),
    ensures
        !binary32::sum(a, b).is_nan(),
        apart(a.value() + b.value(), 0) <= greatest() ==> binary32::sum(a, b).is_finite(),
        binary32::sum(a, b).is_finite() ==> apart(
            binary32::sum(a, b).value(),
            a.value() + b.value(),
        ) <= apart(other.value(), a.value() + b.value()),
        binary32::sum(a, b).is_finite() ==> apart(
            binary32::sum(a, b).value(),
            a.value() + b.value(),
        ) * 0x100_0000 <= apart(a.value() + b.value(), 0),
{
    reveal(binary32::sum);
    let v = a.value() + b.value();
    let n = binary32::abs(v);
    let r = binary32::sum(a, b);
    if n <= greatest() {
        assert(greatest() * 1 == greatest());
        lemma_rounds_to_finite(n, 1);
    }
    if v == 0 && a.negative() && b.negative() {
        assert(r.value() == 0);
    } else {
        assert(r.mag() == rounding::nearest_mag(n, 1));
        if r.is_finite() {
            law_rounding_is_nearest(n, 1, other.mag());
            lemma_signed_apart(v, r.units(), other);
            assert(r.units() * 1 == r.units() && other.units() * 1 == other.units());
        }
    }
}

/// The sign of a product.
proof fn lemma_product_value(a: Binary32, b: Binary32)
    ensures
        binary32::abs(a.value() * b.value()) == a.units() * b.units(),
        a.value() * b.value() < 0 ==> a.negative() != b.negative(),
        a.value() * b.value() > 0 ==> a.negative() == b.negative(),
{
    let x = a.units() as int;
    let y = b.units() as int;
    assert(x * y >= 0 && (-x) * y == -(x * y) && x * (-y) == -(x * y) && (-x) * (-y) == x * y)
        by (nonlinear_arith)
        requires
            x >= 0,
            y >= 0,
    ;
}

/// What a signed magnitude scaled by a positive number is apart from a value.
proof fn lemma_scaled_apart(negative: bool, r: Binary32, n: int, d: nat, other: Binary32)
    requires
        r.negative() == negative,
        n < 0 ==> negative,
        n > 0 ==> !negative,
    ensures
        apart(r.value() * d, n) == apart((r.units() * d) as int, binary32::abs(n) as int),
        apart((other.units() * d) as int, binary32::abs(n) as int) <= apart(other.value() * d, n),
{
    let u = r.units() as int;
    let x = other.units() as int;
    assert(u * d >= 0 && (-u) * d == -(u * d) && x * d >= 0 && (-x) * d == -(x * d))
        by (nonlinear_arith)
        requires
            u >= 0,
            x >= 0,
            d >= 0,
    ;
}

/// A product of finite values is finite up to the greatest finite value, no value
/// lies nearer to the exact product, and it is off by at most one part in `2^24`
/// or half a unit.
pub proof fn law_product_is_nearest(a: Binary32, b: Binary32, other: Binary32)
    requires
        a.is_finite(),
        b.is_finite(),
    ensures
        ({
            let one = binary32::one_in_units();
            let r = binary32::product(a, b);
            let exact = a.value() * b.value();
            &&& !r.is_nan()
            &&& apart(exact, 0) <= greatest() * one ==> r.is_finite()
            &&& r.is_finite() ==> apart(r.value() * one, exact) <= apart(other.value() * one, exact)
            &&& r.is_finite() ==> apart(r.value() * one, exact) * 0x100_0000 <= apart(exact, 0)
                + one * 0x80_0000
        }),
{
    reveal(binary32::product);
    let one = binary32::one_in_units();
    let r = binary32::product(a, b);
    let exact = a.value() * b.value();
    let n = a.units() * b.units();
    lemma_pow2_pos(149);
    lemma_product_value(a, b);
    if apart(exact, 0) <= greatest() * one {
        lemma_rounds_to_finite(n, one);
    }
    if r.is_finite() {
        law_rounding_is_nearest(n, one, other.mag());
        lemma_scaled_apart(r.negative(), r, exact, one, other);
    }
}

/// A quotient of finite values is finite up to the greatest finite value, no value
/// lies nearer to the exact quotient, and it is off by at most one part in `2^24`
/// or half a unit.
pub proof fn law_quotient_is_nearest(a: Binary32, b: Binary32, other: Binary32)
    requires
        a.is_finite(),
        b.is_finite(),
        b.value() > 0,
    ensures
        ({
            let one = binary32::one_in_units();
            let r = binary32::quotient(a, b);
            let exact = a.value() * one;
            &&& !r.is_nan()
            &&& apart(exact, 0) <= greatest() * b.value() ==> r.is_finite()
            &&& r.is_finite() ==> apart(r.value() * b.value(), exact) <= apart(
                other.value() * b.value(),
                exact,
            )
            &&& r.is_finite() ==> apart(r.value() * b.value(), exact) * 0x100_0000 <= apart(
                exact,
                0,
            ) + b.value() * 0x80_0000
        }),
{
    reveal(binary32::quotient);
    let one = binary32::one_in_units();
    let r = binary32::quotient(a, b);
    let exact = a.value() * one;
    let n = a.units() * one;
    let d = b.units();
    lemma_pow2_pos(149);
    let u = a.units() as int;
    assert(u * one >= 0 && (-u) * one == -(u * one)) by (nonlinear_arith)
        requires
            u >= 0,
            one > 0,
    ;
    assert(u > 0 ==> u * one > 0) by (nonlinear_arith)
        requires
            one > 0,
    ;
    assert(b.value() == d);
    if apart(exact, 0) <= greatest() * b.value() {
        lemma_rounds_to_finite(n, d);
    }
    if r.is_finite() {
        law_rounding_is_nearest(n, d, other.mag());
        lemma_scaled_apart(r.negative(), r, exact, d, other);
    }
}

/// No value lies nearer to a natural number than the one it converts to.
pub proof fn law_natural_is_nearest(n: nat, other: Binary32)
    requires
        n < 0x1_0000_0000_0000_0000,
    ensures
        ({
            let one = binary32::one_in_units();
            let r = binary32::from_natural(n);
            &&& r.is_finite()
            &&& r.value() >= 0
            &&& apart(r.value(), (n * one) as int) <= apart(other.value(), (n * one) as int)
            &&& apart(r.value(), (n * one) as int) * 0x100_0000 <= n * one
        }),
{
    reveal(binary32::from_natural);
    let one = binary32::one_in_units();
    lemma_pow2_pos(149);
    lemma2_to64();
    lemma_pow2_unfold(64);
    lemma_pow2_adds(64, 149);
    rounding::lemma_exact_multiple(1, 213);
    assert(1 * pow2(213) == pow2(213)) by (nonlinear_arith);
    assert(n * one <= 1 * pow2(213)) by (nonlinear_arith)
        requires
            n < pow2(64),
            pow2(213) == pow2(64) * one,
            one > 0,
    ;
    rounding::lemma_nearest_mag_monotone(n * one, 1 * pow2(213), 1);
    law_rounding_is_nearest(n * one, 1, other.mag());
    let r = binary32::from_natural(n);
    lemma_signed_apart((n * one) as int, r.units(), other);
    assert(r.units() * 1 == r.units() && other.units() * 1 == other.units());
}

/// No value lies nearer to a fraction than the one it is written as.
pub proof fn law_ratio_is_nearest(n: nat, d: nat, other: Binary32)
    requires
        d > 0,
        n < 0x1_0000_0000,
    ensures
        ({
            let one = binary32::one_in_units();
            let r = binary32::nearest_ratio(n, d);
            &&& r.is_finite()
            &&& r.value() >= 0
            &&& apart(r.value() * d, (n * one) as int) <= apart(
                other.value() * d,
                (n * one) as int,
            )
            &&& apart(r.value() * d, (n * one) as int) * 0x100_0000 <= n * one + d * 0x80_0000
        }),
{
    reveal(binary32::nearest_ratio);
    let one = binary32::one_in_units();
    lemma_pow2_pos(149);
    law_natural_is_nearest(n, other);
    reveal(binary32::from_natural);
    lemma_less_than_natural(n * one, d);
    law_rounding_is_nearest(n * one, d, other.mag());
    let r = binary32::nearest_ratio(n, d);
    lemma_scaled_apart(false, r, (n * one) as int, d, other);
}

/// A quotient by a natural number rounds to no more than the number itself.
proof fn lemma_less_than_natural(n: nat, d: nat)
    requires
        d > 0,
    ensures
        rounding::nearest_mag(n, d) <= rounding::nearest_mag(n, 1),
{
    assert(n <= n * d) by (nonlinear_arith)
        requires
            d >= 1,
    ;
    rounding::lemma_nearest_mag_monotone(n, n * d, d);
    assert(1 * d == d) by (nonlinear_arith);
    rounding::lemma_nearest_mag_scale(n, 1, d);
}

/// Values are ordered as the numbers they stand for.
pub proof fn law_order_is_by_value(a: Binary32, b: Binary32)
    requires
        a.is_finite(),
        b.is_finite(),
    ensures
        binary32::less(a, b) <==> a.value() < b.value(),
        binary32::at_least(a, b) <==> a.value() >= b.value(),
        a.value() < b.value() ==> binary32::total_key(a) < binary32::total_key(b),
{
    if a.mag() < b.mag() {
        binary32::lemma_mag_units_increasing(a.mag(), b.mag());
    }
    if b.mag() < a.mag() {
        binary32::lemma_mag_units_increasing(b.mag(), a.mag());
    }
    if a.mag() > 0 {
        binary32::lemma_mag_units_increasing(0, a.mag());
    }
    if b.mag() > 0 {
        binary32::lemma_mag_units_increasing(0, b.mag());
    }
}

/// Infinity and every NaN lie where the order of all encodings puts them.
pub proof fn law_order_of_all_encodings(a: Binary32, b: Binary32)
    ensures
        binary32::total_key(a) == binary32::total_key(b) ==> a == b,
        a.is_nan() && !a.negative() && !b.is_nan() ==> binary32::total_key(b)
            < binary32::total_key(a),
        a.is_nan() && a.negative() && !b.is_nan() ==> binary32::total_key(a)
            < binary32::total_key(b),
        a.is_infinite() && !a.negative() && b.is_finite() ==> binary32::total_key(b)
            < binary32::total_key(a),
        a.is_infinite() && a.negative() && b.is_finite() ==> binary32::total_key(a)
            < binary32::total_key(b),
        a.is_nan() || b.is_nan() ==> !binary32::less(a, b) && !binary32::at_least(a, b),
{
}

/// A value rounds to a whole number that is at most a half away from it, and away
/// from zero where two are.
pub proof fn law_rounded_is_nearest_whole(a: Binary32)
    requires
        a.is_finite(),
        a.units() <= 0x80_0000 * binary32::one_in_units(),
    ensures
        ({
            let one = binary32::one_in_units();
            let r = binary32::rounded(a);
            &&& r.is_finite()
            &&& r.value() % one as int == 0
            &&& 2 * apart(r.value(), a.value()) <= one
            &&& 2 * apart(r.value(), a.value()) == one ==> apart(r.value(), 0) > apart(a.value(), 0)
            &&& r.negative() == a.negative()
        }),
{
    reveal(binary32::rounded);
    let one = binary32::one_in_units();
    let n = a.units();
    let whole = rounding::half_up(n, one);
    lemma_pow2_pos(149);
    let x = 2 * n + one;
    let w = 2 * one;
    lemma_fundamental_div_mod(x as int, w as int);
    lemma_mod_bound(x as int, w as int);
    lemma_div_pos_is_pos(x as int, w as int);
    assert(w * whole == 2 * (whole * one)) by (nonlinear_arith)
        requires
            w == 2 * one,
    ;
    assert(whole <= 0x100_0000) by (nonlinear_arith)
        requires
            2 * (whole * one) <= 2 * n + one,
            n <= 0x80_0000 * one,
            one > 0,
    ;
    binary32::lemma_natural_is_exact(whole);
    reveal(binary32::from_natural);
    let r = binary32::rounded(a);
    assert(r.units() == whole * one);
    lemma_mod_multiples_basic(whole as int, one as int);
    lemma_mod_multiples_basic(-(whole as int), one as int);
    assert(-(whole as int) * one == -(whole * one)) by (nonlinear_arith);
}

/// A value between two bounds stays as it is, one outside them becomes the bound it
/// is past, and what is no number stays so.
pub proof fn law_clamped_to_the_bounds(a: Binary32, low: Binary32, high: Binary32)
    requires
        low.is_finite(),
        high.is_finite(),
        low.value() <= high.value(),
    ensures
        a.is_finite() && low.value() <= a.value() <= high.value() ==> binary32::clamped(a, low, high)
            == a,
        a.is_finite() && a.value() < low.value() ==> binary32::clamped(a, low, high) == low,
        a.is_finite() && a.value() > high.value() ==> binary32::clamped(a, low, high) == high,
        a.is_infinite() && a.negative() ==> binary32::clamped(a, low, high) == low,
        a.is_infinite() && !a.negative() ==> binary32::clamped(a, low, high) == high,
        a.is_nan() ==> binary32::clamped(a, low, high) == a,
{
    if a.is_finite() {
        law_order_is_by_value(a, low);
        law_order_is_by_value(high, a);
    }
}

/// The opposite of a value is as far on the other side of zero.
pub proof fn law_opposites(a: Binary32)
    ensures
        binary32::negated(a).value() == -a.value(),
        binary32::negated(binary32::negated(a)) == a,
        binary32::negated(a) != a,
{
}

/// What is no number stays so through every operation.
pub proof fn law_no_number_spreads(a: Binary32, b: Binary32)
    requires
        a.is_nan() || b.is_nan(),
    ensures
        binary32::sum(a, b).is_nan(),
        binary32::difference(a, b).is_nan(),
        binary32::product(a, b).is_nan(),
        binary32::quotient(a, b).is_nan(),
        a.is_nan() ==> binary32::rounded(a).is_nan() && binary32::negated(a).is_nan(),
{
    reveal(binary32::sum);
    reveal(binary32::product);
    reveal(binary32::quotient);
    reveal(binary32::rounded);
}

/// Infinities, and division by zero or by an infinity.
pub proof fn law_infinities(a: Binary32, b: Binary32)
    requires
        !a.is_nan(),
        !b.is_nan(),
    ensures
        a.is_infinite() && b.is_infinite() ==> binary32::quotient(a, b).is_nan() && (
        binary32::sum(a, b).is_nan() <==> a.negative() != b.negative()),
        a.is_infinite() && !binary32::sum(a, b).is_nan() ==> binary32::sum(a, b) == a,
        b.is_infinite() && !binary32::sum(a, b).is_nan() ==> binary32::sum(a, b) == b,
        a.is_infinite() || b.is_infinite() ==> if a.mag() == 0 || b.mag() == 0 {
            binary32::product(a, b).is_nan()
        } else {
            binary32::product(a, b).is_infinite()
        },
        a.is_infinite() && b.is_finite() ==> binary32::quotient(a, b).is_infinite(),
        a.is_finite() && b.is_infinite() ==> binary32::quotient(a, b).mag() == 0,
        a.mag() == 0 && b.mag() == 0 ==> binary32::quotient(a, b).is_nan(),
        a.mag() != 0 && b.mag() == 0 && a.is_finite() ==> binary32::quotient(a, b).is_infinite(),
{
    reveal(binary32::sum);
    reveal(binary32::product);
    reveal(binary32::quotient);
}

/// A product or quotient is negative where one side is and the other is not.
pub proof fn law_signs_multiply(a: Binary32, b: Binary32)
    ensures
        !binary32::product(a, b).is_nan() ==> (binary32::product(a, b).negative() <==> a.negative()
            != b.negative()),
        !binary32::quotient(a, b).is_nan() ==> (binary32::quotient(a, b).negative()
            <==> a.negative() != b.negative()),
{
    reveal(binary32::product);
    reveal(binary32::quotient);
}

/// A whole number that another one ties with is even.
proof fn lemma_even_in_a_tie(n: nat, d: nat, j: nat)
    requires
        d > 0,
        j != rounding::nearest_even(n, d),
        apart((rounding::nearest_even(n, d) * d) as int, n as int) == apart(
            (j * d) as int,
            n as int,
        ),
    ensures
        rounding::nearest_even(n, d) % 2 == 0,
{
    let q = n / d;
    let r = n % d;
    lemma_fundamental_div_mod(n as int, d as int);
    lemma_mod_bound(n as int, d as int);
    assert(q * d + r == n && (q + 1) * d == q * d + d && (q + 2) * d == q * d + 2 * d && (q - 1) * d
        == q * d - d) by (nonlinear_arith)
        requires
            n == d * q + r,
    ;
    if j < q {
        assert(j * d <= (q - 1) * d) by (nonlinear_arith)
            requires
                j <= q - 1,
        ;
    } else if j > q + 1 {
        assert(j * d >= (q + 2) * d) by (nonlinear_arith)
            requires
                j >= q + 2,
        ;
    }
}

/// Where two magnitudes are equally near, rounding takes the even one.
pub proof fn law_ties_go_to_even(n: nat, d: nat, other: nat)
    requires
        d > 0,
        rounding::nearest_mag(n, d) < INFINITY_MAG,
        rounding::mag_units(other) != rounding::mag_units(rounding::nearest_mag(n, d)),
        apart((rounding::mag_units(rounding::nearest_mag(n, d)) * d) as int, n as int) == apart(
            (rounding::mag_units(other) * d) as int,
            n as int,
        ),
    ensures
        rounding::nearest_mag(n, d) % 2 == 0,
{
    let q = rounding::excess_bits(n / d);
    let step = pow2(q);
    let w = d * step;
    let k = rounding::nearest_even(n, w);
    let u = rounding::mag_units(rounding::nearest_mag(n, d));
    let x = rounding::mag_units(other);
    lemma2_to64();
    lemma_pow2_pos(q);
    lemma_rounded_units(n, d);
    assert(w > 0) by (nonlinear_arith)
        requires
            w == d * step,
            d > 0,
            step > 0,
    ;
    assert(u * d == k * w) by (nonlinear_arith)
        requires
            u == k * step,
            w == d * step,
    ;
    assert(u * d != x * d) by (nonlinear_arith)
        requires
            u != x,
            d > 0,
    ;
    if q == 0 {
        assert(w == d) by (nonlinear_arith)
            requires
                w == d * step,
                step == 1,
        ;
        lemma_even_in_a_tie(n, w, x);
    } else {
        let e = if other < 0x80_0000 {
            0
        } else {
            (other / 0x80_0000 - 1) as nat
        };
        let f = if other < 0x80_0000 {
            other
        } else {
            (0x80_0000 + other % 0x80_0000) as nat
        };
        assert(x == f * pow2(e)) by {
            if other < 0x80_0000 {
                assert(f * pow2(0) == f) by (nonlinear_arith)
                    requires
                        pow2(0) == 1,
                ;
            }
        }
        if e >= q {
            lemma_pow2_adds(q, (e - q) as nat);
            let j = f * pow2((e - q) as nat);
            assert(x * d == j * w) by (nonlinear_arith)
                requires
                    x == f * pow2(e),
                    pow2(e) == step * pow2((e - q) as nat),
                    j == f * pow2((e - q) as nat),
                    w == d * step,
            ;
            lemma_even_in_a_tie(n, w, j);
        } else {
            lemma_pow2_unfold(q);
            if e < q - 1 {
                lemma_pow2_strictly_increases(e, (q - 1) as nat);
            }
            assert(x * d <= 0x80_0000 * w) by (nonlinear_arith)
                requires
                    x == f * pow2(e),
                    f <= 0x100_0000,
                    2 * pow2(e) <= step,
                    w == d * step,
            ;
            lemma_nearest_even_best(n, w, 0x80_0000);
            lemma_even_in_a_tie(n, w, 0x80_0000);
        }
    }
}

/// Values from `2^23` on are whole and stay as they are when they are rounded.
pub proof fn law_whole_values_stay(a: Binary32)
    requires
        a.is_finite(),
        a.mag() >= 0x4b00_0000,
    ensures
        binary32::rounded(a) == a,
{
    reveal(binary32::rounded);
    let one = binary32::one_in_units();
    lemma_pow2_pos(149);
    let f = 0x80_0000 + a.mag() % 0x80_0000;
    let e = (a.mag() / 0x80_0000 - 1) as nat;
    lemma_pow2_adds(149, (e - 149) as nat);
    let k = f * pow2((e - 149) as nat);
    assert(a.units() == k * one) by (nonlinear_arith)
        requires
            a.units() == f * pow2(e),
            pow2(e) == one * pow2((e - 149) as nat),
            k == f * pow2((e - 149) as nat),
    ;
    assert(2 * a.units() + one == k * (2 * one) + one) by (nonlinear_arith)
        requires
            a.units() == k * one,
    ;
    lemma_fundamental_div_mod_converse(
        (2 * a.units() + one) as int,
        (2 * one) as int,
        k as int,
        one as int,
    );
    rounding::lemma_nearest_mag_exact(a.mag());
}

} // verus!
