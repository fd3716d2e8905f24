//! Binary32 values as bit patterns, with correctly rounded arithmetic.
//!
//! A value is kept as its IEEE 754 encoding, so that arithmetic, ordering and
//! quantisation are bit-for-bit the same on every host.  Contracts speak of the
//! exact value, a signed whole number of units of `2^-149`; every NaN that an
//! operation produces is the canonical quiet NaN.

use vstd::prelude::*;
use vstd::arithmetic::div_mod::*;
use vstd::arithmetic::mul::*;
use vstd::arithmetic::power2::*;
use vstd::bits::*;
use crate::rounding;
use crate::rounding::{round_to_mag, bit_length, half_up_shift, INFINITY_MAG};

verus! {

/// Bits of the canonical quiet NaN.
pub const NAN_BITS: u32 = 0x7fc0_0000;

/// Weight of the sign bit.
pub const SIGN_BIT: u32 = 0x8000_0000;

/// A binary32 value, held as its encoding.
#[derive(Clone, Copy, Debug, PartialEq, Eq, Structural)]
pub struct Binary32 {
    pub bits: u32,
}

/// The value with the given sign and magnitude bits.
pub open spec fn signed(negative: bool, mag: nat) -> Binary32 {
    Binary32 {
        bits: if negative {
            (SIGN_BIT + mag) as u32
        } else {
            mag as u32
        },
    }
}

/// The canonical NaN.
pub open spec fn nan() -> Binary32 {
    Binary32 { bits: NAN_BITS }
}

/// Positive zero.
pub open spec fn zero() -> Binary32 {
    Binary32 { bits: 0 }
}

/// The units in the number one.
pub open spec fn one_in_units() -> nat {
    pow2(149)
}

impl Binary32 {
    /// Whether the sign bit is set.
    pub open spec fn negative(self) -> bool {
        self.bits >= SIGN_BIT
    }

    /// The bits without the sign bit.
    pub open spec fn mag(self) -> nat {
        if self.negative() {
            (self.bits - SIGN_BIT) as nat
        } else {
            self.bits as nat
        }
    }

    pub open spec fn is_nan(self) -> bool {
        self.mag() > INFINITY_MAG
    }

    pub open spec fn is_infinite(self) -> bool {
        self.mag() == INFINITY_MAG
    }

    pub open spec fn is_finite(self) -> bool {
        self.mag() < INFINITY_MAG
    }

    /// The exact absolute value of a finite number, in units of `2^-149`.
    pub open spec fn units(self) -> nat {
        rounding::mag_units(self.mag())
    }

    /// The exact value of a finite number, in units of `2^-149`.
    pub open spec fn value(self) -> int {
        if self.negative() {
            -(self.units() as int)
        } else {
            self.units() as int
        }
    }
}

/// The nearest value to a whole number of units; exact zero is positive.
pub open spec fn nearest_value(v: int) -> Binary32 {
    signed(v < 0, rounding::nearest_mag(abs(v), 1))
}

/// The absolute value.
pub open spec fn abs(v: int) -> nat {
    if v < 0 {
        (-v) as nat
    } else {
        v as nat
    }
}

/// `a + b`, correctly rounded.
#[verifier::opaque]
pub open spec fn sum(a: Binary32, b: Binary32) -> Binary32 {
    if a.is_nan() || b.is_nan() {
        nan()
    } else if a.is_infinite() {
        if b.is_infinite() && a.negative() != b.negative() {
            nan()
        } else {
            a
        }
    } else if b.is_infinite() {
        b
    } else if a.value() + b.value() == 0 && a.negative() && b.negative() {
        signed(true, 0)
    } else {
        nearest_value(a.value() + b.value())
    }
}

/// The number with its sign turned round.
pub open spec fn negated(a: Binary32) -> Binary32 {
    signed(!a.negative(), a.mag())
}

/// `a - b`, correctly rounded.
pub open spec fn difference(a: Binary32, b: Binary32) -> Binary32 {
    sum(a, negated(b))
}

/// `a * b`, correctly rounded.
#[verifier::opaque]
pub open spec fn product(a: Binary32, b: Binary32) -> Binary32 {
    let negative = a.negative() != b.negative();
    if a.is_nan() || b.is_nan() {
        nan()
    } else if a.is_infinite() || b.is_infinite() {
        if a.mag() == 0 || b.mag() == 0 {
            nan()
        } else {
            signed(negative, INFINITY_MAG as nat)
        }
    } else {
        signed(negative, rounding::nearest_mag(a.units() * b.units(), one_in_units()))
    }
}

/// `a / b`, correctly rounded.
#[verifier::opaque]
pub open spec fn quotient(a: Binary32, b: Binary32) -> Binary32 {
    let negative = a.negative() != b.negative();
    if a.is_nan() || b.is_nan() {
        nan()
    } else if a.is_infinite() {
        if b.is_infinite() {
            nan()
        } else {
            signed(negative, INFINITY_MAG as nat)
        }
    } else if b.is_infinite() {
        signed(negative, 0)
    } else if b.mag() == 0 {
        if a.mag() == 0 {
            nan()
        } else {
            signed(negative, INFINITY_MAG as nat)
        }
    } else {
        signed(negative, rounding::nearest_mag(a.units() * one_in_units(), b.units()))
    }
}

/// The value nearest to a natural number.
#[verifier::opaque]
pub open spec fn from_natural(n: nat) -> Binary32 {
    signed(false, rounding::nearest_mag(n * one_in_units(), 1))
}

/// The value nearest to a whole number.
pub open spec fn from_integer(v: int) -> Binary32 {
    if v < 0 {
        negated(from_natural(abs(v)))
    } else {
        from_natural(v as nat)
    }
}

/// The value nearest to the fraction `n / d`.
#[verifier::opaque]
pub open spec fn nearest_ratio(n: nat, d: nat) -> Binary32 {
    signed(false, rounding::nearest_mag(n * one_in_units(), d))
}

/// The whole number nearest to `a`, with ties away from zero.
#[verifier::opaque]
pub open spec fn rounded(a: Binary32) -> Binary32 {
    if a.is_nan() {
        nan()
    } else if a.is_infinite() {
        a
    } else {
        let whole = rounding::half_up(a.units(), one_in_units());
        signed(a.negative(), rounding::nearest_mag(whole * one_in_units(), 1))
    }
}

/// A number that orders all values but the NaNs; both zeros are equal.
pub open spec fn numeric_key(a: Binary32) -> int {
    if a.negative() {
        -(a.mag() as int)
    } else {
        a.mag() as int
    }
}

/// `a < b`; false where either is NaN.
pub open spec fn less(a: Binary32, b: Binary32) -> bool {
    !a.is_nan() && !b.is_nan() && numeric_key(a) < numeric_key(b)
}

/// `a >= b`; false where either is NaN.
pub open spec fn at_least(a: Binary32, b: Binary32) -> bool {
    !a.is_nan() && !b.is_nan() && numeric_key(a) >= numeric_key(b)
}

/// A number that orders all encodings: negative NaNs first, then the values in
/// their order with `-0` before `+0`, then the positive NaNs.
pub open spec fn total_key(a: Binary32) -> int {
    if a.negative() {
        -(a.mag() as int) - 1
    } else {
        a.mag() as int
    }
}

/// `a` held between `low` and `high`; a NaN stays as it is.
pub open spec fn clamped(a: Binary32, low: Binary32, high: Binary32) -> Binary32 {
    if less(a, low) {
        low
    } else if less(high, a) {
        high
    } else {
        a
    }
}

proof fn lemma_nearest_mag_zero()
    ensures
        rounding::nearest_mag(0, 1) == 0,
{
    lemma2_to64();
    assert(1 * pow2(0) == 1) by (nonlinear_arith)
        requires
            pow2(0) == 1,
    ;
}

fn with_sign(negative: bool, mag: u32) -> (r: Binary32)
    requires
        mag < SIGN_BIT,
    ensures
        r == signed(negative, mag as nat),
{
    if negative {
        Binary32 { bits: SIGN_BIT + mag }
    } else {
        Binary32 { bits: mag }
    }
}

/// Natural numbers up to `2^24` are values.
pub proof fn lemma_natural_is_exact(n: nat)
    requires
        n <= 0x100_0000,
    ensures
        from_natural(n).is_finite(),
        !from_natural(n).negative(),
        from_natural(n).units() == n * one_in_units(),
        n > 0 ==> from_natural(n).mag() > 0,
{
    reveal(from_natural);
    lemma2_to64();
    lemma_pow2_pos(149);
    if n < 0x100_0000 {
        rounding::lemma_exact_multiple(n, 149);
    } else {
        lemma_pow2_adds(1, 149);
        assert(n * pow2(149) == 0x80_0000 * pow2(150)) by (nonlinear_arith)
            requires
                n == 0x100_0000,
                pow2(150) == 2 * pow2(149),
        ;
        rounding::lemma_exact_multiple(0x80_0000, 150);
    }
    if n > 0 {
        assert(n * pow2(149) > 0) by (nonlinear_arith)
            requires
                n > 0,
                pow2(149) > 0,
        ;
    }
}

/// The product with a whole number `n` is `n` times the units, rounded.
pub(crate) proof fn lemma_product_units(a: Binary32, b: Binary32, n: nat)
    requires
        a.is_finite(),
        b.is_finite(),
        b.units() == n * one_in_units(),
    ensures
        product(a, b) == signed(
            a.negative() != b.negative(),
            rounding::nearest_mag(a.units() * n, 1),
        ),
        product(b, a) == product(a, b),
{
    reveal(product);
    let one = one_in_units();
    lemma_pow2_pos(149);
    assert(a.units() * b.units() == (a.units() * n) * one && 1 * one == one) by (nonlinear_arith)
        requires
            b.units() == n * one,
    ;
    assert(b.units() * a.units() == a.units() * b.units()) by (nonlinear_arith);
    rounding::lemma_nearest_mag_scale(a.units() * n, 1, one);
}

/// Larger magnitude bits stand for larger values.
pub proof fn lemma_mag_units_increasing(low: nat, high: nat)
    requires
        low < high,
    ensures
        rounding::mag_units(low) < rounding::mag_units(high),
{
    lemma2_to64();
    if high >= 0x80_0000 {
        let eh = (high / 0x80_0000 - 1) as nat;
        let fh = 0x80_0000 + high % 0x80_0000;
        lemma_pow2_pos(eh);
        if low < 0x80_0000 {
            assert(fh * pow2(eh) >= 0x80_0000) by (nonlinear_arith)
                requires
                    fh >= 0x80_0000,
                    pow2(eh) >= 1,
            ;
        } else {
            let el = (low / 0x80_0000 - 1) as nat;
            let fl = 0x80_0000 + low % 0x80_0000;
            lemma_pow2_pos(el);
            if el == eh {
                assert(fl * pow2(el) < fh * pow2(el)) by (nonlinear_arith)
                    requires
                        fl < fh,
                        pow2(el) > 0,
                ;
            } else {
                lemma_pow2_unfold(el + 1);
                if el + 1 < eh {
                    lemma_pow2_strictly_increases(el + 1, eh);
                }
                assert(fl * pow2(el) < fh * pow2(eh)) by (nonlinear_arith)
                    requires
                        fl < 2 * fh,
                        pow2(eh) >= 2 * pow2(el),
                        pow2(el) > 0,
                        fh > 0,
                ;
            }
        }
    }
}

/// The exact sum or difference of two scaled significands.
spec fn combined(sa: u64, ea: i32, sb: u64, eb: i32, subtract: bool) -> int {
    let a: int = sa as int * pow2(ea as nat);
    let b: int = sb as int * pow2(eb as nat);
    if subtract {
        a - b
    } else {
        a + b
    }
}

/// The exact sum or difference as one significand and exponent, truncated only
/// where the second operand lies far below the first.
fn combine(sa: u64, ea: i32, sb: u64, eb: i32, subtract: bool) -> (r: (u64, i32, bool))
    requires
        0 <= eb <= ea <= 253,
        sa < 0x100_0000,
        sb < 0x100_0000,
        ea > 0 ==> sa >= 0x80_0000,
        combined(sa, ea, sb, eb, subtract) >= 0,
    ensures
        0 <= r.1 <= 253,
        r.2 ==> r.0 >= 0x400_0000,
        rounding::approximates(
            r.0 as int,
            r.1 as int,
            r.2,
            combined(sa, ea, sb, eb, subtract) as nat,
            1,
        ),
{
    let gap: i32 = ea - eb;
    let ghost n = combined(sa, ea, sb, eb, subtract) as nat;
    let ghost pb = pow2(eb as nat);
    proof {
        lemma2_to64();
        lemma_pow2_pos(eb as nat);
        assert(n * pow2(0) == n) by (nonlinear_arith)
            requires
                pow2(0) == 1,
        ;
    }
    if gap <= 39 {
        let shift: u64 = gap as u64;
        let ghost pg = pow2(gap as nat);
        proof {
            lemma_pow2_adds(eb as nat, gap as nat);
            assert(pow2(39) == 0x80_0000_0000) by {
                lemma_pow2_adds(32, 7);
            }
            if gap < 39 {
                lemma_pow2_strictly_increases(gap as nat, 39);
            }
            assert(sa as nat * pg < 0x8000_0000_0000_0000) by (nonlinear_arith)
                requires
                    sa < 0x100_0000,
                    pg <= 0x80_0000_0000,
            ;
            lemma_u64_shl_is_mul(sa, shift);
        }
        let wide: u64 = sa << shift;
        proof {
            assert(sa as nat * pow2(ea as nat) == wide as nat * pb) by (nonlinear_arith)
                requires
                    wide == sa as nat * pg,
                    pow2(ea as nat) == pb * pg,
            ;
            if subtract {
                assert(wide >= sb) by (nonlinear_arith)
                    requires
                        wide as nat * pb >= sb as nat * pb,
                        pb > 0,
                ;
            }
        }
        let sig: u64 = if subtract {
            wide - sb
        } else {
            wide + sb
        };
        proof {
            assert(n == sig as nat * pb) by (nonlinear_arith)
                requires
                    n == if subtract {
                        wide as int * pb - sb as int * pb
                    } else {
                        wide as int * pb + sb as int * pb
                    },
                    sig == if subtract {
                        wide as nat - sb as nat
                    } else {
                        (wide as nat + sb as nat) as int
                    },
            ;
            assert(1 * pb == pb) by (nonlinear_arith);
            lemma_fundamental_div_mod_converse(n as int, pb as int, sig as int, 0);
        }
        (sig, eb, false)
    } else {
        let shift: i32 = gap - 39;
        let base: u64 = sa << 39u64;
        let exp: i32 = ea - 39;
        let ghost m = pow2(shift as nat);
        proof {
            assert(pow2(39) == 0x80_0000_0000) by {
                lemma_pow2_adds(32, 7);
            }
            assert(sa as nat * pow2(39) < 0x8000_0000_0000_0000) by (nonlinear_arith)
                requires
                    sa < 0x100_0000,
                    pow2(39) == 0x80_0000_0000,
            ;
            lemma_u64_shl_is_mul(sa, 39);
            lemma_pow2_pos(shift as nat);
        }
        let low: u64 = if shift >= 24 {
            proof {
                if shift > 24 {
                    lemma_pow2_strictly_increases(24, shift as nat);
                }
                lemma_basic_div(sb as int, m as int);
                lemma_small_mod(sb as nat, m);
            }
            0
        } else {
            proof {
                lemma_u64_shr_is_div(sb, shift as u64);
            }
            sb >> (shift as u64)
        };
        proof {
            lemma_fundamental_div_mod(sb as int, m as int);
            lemma_mod_bound(sb as int, m as int);
            lemma_mul_is_commutative(low as int, m as int);
            lemma_mul_nonnegative(m as int, low as int);
            assert(low <= sb) by (nonlinear_arith)
                requires
                    sb == m * low + sb as int % m as int,
                    sb as int % m as int >= 0,
                    m >= 1,
                    low >= 0,
            ;
            if shift < 24 {
                lemma_u64_shl_is_mul(low, shift as u64);
            }
        }
        let lost: bool = if shift >= 24 {
            sb != 0
        } else {
            (low << (shift as u64)) != sb
        };
        assert(lost == (sb as nat % m != 0));
        let sig: u64 = if !subtract {
            base + low
        } else if lost {
            base - low - 1
        } else {
            base - low
        };
        proof {
            let x = if subtract {
                base as nat * m - sb
            } else {
                base as nat * m + sb
            };
            let rem = sb as nat % m;
            let r: int = if subtract && lost {
                m - rem
            } else {
                rem as int
            };
            assert(x == sig as int * m + r) by (nonlinear_arith)
                requires
                    x == if subtract {
                        base as int * m - sb
                    } else {
                        base as int * m + sb
                    },
                    sb == m * low + rem,
                    sig == if !subtract {
                        base + low
                    } else if lost {
                        base - low - 1
                    } else {
                        base - low
                    },
                    r == if subtract && lost {
                        m - rem
                    } else {
                        rem as int
                    },
                    !lost ==> rem == 0,
            ;
            assert(x >= 0) by (nonlinear_arith)
                requires
                    x == sig as int * m + r,
                    sig >= 0,
                    m > 0,
                    r >= 0,
            ;
            lemma_fundamental_div_mod_converse(x, m as int, sig as int, r);
            lemma_pow2_adds(eb as nat, shift as nat);
            lemma_pow2_adds(exp as nat, 39);
            assert(n == x as nat * pb) by (nonlinear_arith)
                requires
                    n == if subtract {
                        sa as int * pow2(ea as nat) - sb as int * pb
                    } else {
                        sa as int * pow2(ea as nat) + sb as int * pb
                    },
                    x == if subtract {
                        base as int * m - sb
                    } else {
                        base as int * m + sb
                    },
                    x >= 0,
                    base == sa as nat * pow2(39),
                    pow2(ea as nat) == pow2(exp as nat) * pow2(39),
                    pow2(exp as nat) == pb * m,
            ;
            lemma_scaled_division(x as nat, m, pb);
            assert(1 * pow2(exp as nat) == m * pb) by (nonlinear_arith)
                requires
                    pow2(exp as nat) == pb * m,
            ;
        }
        (sig, exp, lost)
    }
}

/// Magnitude bits of the value nearest to the quotient of two scaled significands.
fn divide(sa: u64, ea: i32, sb: u64, eb: i32) -> (mag: u32)
    requires
        0 <= ea <= 253,
        0 <= eb <= 253,
        sa < 0x1_0000_0000,
        0 < sb < 0x1_0000_0000,
    ensures
        mag == rounding::nearest_mag(
            (sa as nat * pow2(ea as nat)) * one_in_units(),
            sb as nat * pow2(eb as nat),
        ),
        mag <= INFINITY_MAG,
{
    let lift: u32 = 64 - bit_length(sa);
    let ghost n = (sa as nat * pow2(ea as nat)) * one_in_units();
    let ghost d = sb as nat * pow2(eb as nat);
    if sa == 0 {
        proof {
            lemma_pow2_pos(eb as nat);
            assert(d > 0 && n == 0) by (nonlinear_arith)
                requires
                    d == sb as nat * pow2(eb as nat),
                    n == (sa as nat * pow2(ea as nat)) * one_in_units(),
                    sa == 0,
                    sb > 0,
                    pow2(eb as nat) > 0,
            ;
            lemma2_to64();
            assert(n * pow2(0) == 0 && d * pow2(0) == d) by (nonlinear_arith)
                requires
                    n == 0,
                    pow2(0) == 1,
            ;
            lemma_div_of0(d as int);
            lemma_small_mod(0, d);
        }
        return round_to_mag(0, 0, false, Ghost(n), Ghost(d));
    }
    let shift: u64 = lift as u64;
    let wide: u64 = sa << shift;
    let sig: u64 = wide / sb;
    let sticky: bool = wide % sb != 0;
    let exp: i32 = ea + 149 - eb - lift as i32;
    proof {
        lemma2_to64();
        let l = pow2(lift as nat);
        let len = (64 - lift) as nat;
        lemma_pow2_pos(lift as nat);
        lemma_pow2_adds(len, lift as nat);
        lemma_pow2_adds((len - 1) as nat, lift as nat);
        lemma_pow2_unfold(64);
        assert(sa * l < 0x1_0000_0000_0000_0000 && sa * l >= 0x8000_0000_0000_0000) by (nonlinear_arith)
            requires
                sa < pow2(len),
                sa >= pow2((len - 1) as nat),
                pow2(len) * l == 0x1_0000_0000_0000_0000,
                pow2((len - 1) as nat) * l == 0x8000_0000_0000_0000,
                l > 0,
        ;
        lemma_u64_shl_is_mul(sa, shift);
        let k = pow2(rounding::max0(-exp));
        let p = pow2(rounding::max0(exp as int));
        let pa = pow2(ea as nat);
        let pb = pow2(eb as nat);
        let one = one_in_units();
        lemma_pow2_pos(rounding::max0(exp as int));
        lemma_pow2_pos(eb as nat);
        // pa * one * k == pb * p * l
        lemma_pow2_adds(ea as nat, 149);
        lemma_pow2_adds((ea + 149) as nat, rounding::max0(-exp));
        lemma_pow2_adds(eb as nat, rounding::max0(exp as int));
        lemma_pow2_adds(eb as nat + rounding::max0(exp as int), lift as nat);
        assert((ea + 149) as nat + rounding::max0(-exp) == eb as nat + rounding::max0(exp as int) + lift as nat);
        assert(pa * one * k == pb * p * l);
        let c = pb * p;
        assert(c > 0) by (nonlinear_arith)
            requires
                c == pb * p,
                pb > 0,
                p > 0,
        ;
        assert(n * k == wide * c) by (nonlinear_arith)
            requires
                n == (sa as nat * pa) * one,
                pa * one * k == c * l,
                wide == sa as nat * l,
        ;
        assert(d * p == sb as nat * c) by (nonlinear_arith)
            requires
                d == sb as nat * pb,
                c == pb * p,
        ;
        assert(d > 0) by (nonlinear_arith)
            requires
                d == sb as nat * pb,
                sb > 0,
                pb > 0,
        ;
        lemma_scaled_division(wide as nat, sb as nat, c);
        assert(sig >= 0x8000_0000) by (nonlinear_arith)
            requires
                wide >= 0x8000_0000_0000_0000,
                sb < 0x1_0000_0000,
                sb > 0,
                sig == wide as nat / sb as nat,
        ;
    }
    round_to_mag(sig, exp, sticky, Ghost(n), Ghost(d))
}

impl Binary32 {
    /// Whether the sign bit is set.
    pub fn is_negative(self) -> (r: bool)
        ensures
            r == self.negative(),
    {
        self.bits >= SIGN_BIT
    }

    /// The bits without the sign bit.
    pub fn magnitude(self) -> (r: u32)
        ensures
            r == self.mag(),
    {
        if self.bits >= SIGN_BIT {
            self.bits - SIGN_BIT
        } else {
            self.bits
        }
    }

    /// Significand and exponent of a finite number: its absolute value is
    /// their product `sig * 2^exp` in units.
    pub(crate) fn parts(self) -> (r: (u64, i32))
        requires
            self.is_finite(),
        ensures
            0 <= r.1 <= 253,
            r.0 < 0x100_0000,
            r.1 > 0 ==> r.0 >= 0x80_0000,
            r.1 == rounding::max0(self.mag() / 0x80_0000 - 1),
            self.units() == r.0 as nat * pow2(r.1 as nat),
            (r.0 == 0) == (self.mag() == 0),
    {
        let mag: u32 = self.magnitude();
        proof {
            lemma2_to64();
        }
        if mag < 0x80_0000 {
            proof {
                assert(mag as nat * pow2(0) == mag) by (nonlinear_arith)
                    requires
                        pow2(0) == 1,
                ;
            }
            (mag as u64, 0)
        } else {
            ((0x80_0000 + mag % 0x80_0000) as u64, (mag / 0x80_0000 - 1) as i32)
        }
    }

    /// The value nearest to a natural number.
    pub fn from_u64(n: u64) -> (r: Binary32)
        ensures
            r == from_natural(n as nat),
    {
        proof {
            reveal(from_natural);
        }
        let ghost u = n as nat * one_in_units();
        proof {
            let p = pow2(149);
            lemma_pow2_pos(149);
            lemma2_to64();
            assert(u * pow2(0) == u) by (nonlinear_arith)
                requires
                    pow2(0) == 1,
            ;
            assert(1 * p == p) by (nonlinear_arith);
            lemma_fundamental_div_mod_converse(u as int, p as int, n as int, 0);
        }
        let mag: u32 = round_to_mag(n, 149, false, Ghost(u), Ghost(1));
        with_sign(false, mag)
    }

    /// `self + other`, correctly rounded.
    pub fn plus(self, other: Binary32) -> (r: Binary32)
        ensures
            r == sum(self, other),
    {
        proof {
            reveal(sum);
        }
        let na: bool = self.is_negative();
        let nb: bool = other.is_negative();
        let ma: u32 = self.magnitude();
        let mb: u32 = other.magnitude();
        if ma > INFINITY_MAG || mb > INFINITY_MAG {
            return Binary32 { bits: NAN_BITS };
        }
        if ma == INFINITY_MAG {
            if mb == INFINITY_MAG && na != nb {
                return Binary32 { bits: NAN_BITS };
            }
            return self;
        }
        if mb == INFINITY_MAG {
            return other;
        }
        let swap: bool = ma < mb;
        let (large, small) = if swap {
            (other, self)
        } else {
            (self, other)
        };
        proof {
            if small.mag() < large.mag() {
                lemma_mag_units_increasing(small.mag(), large.mag());
            }
        }
        let (sa, ea) = large.parts();
        let (sb, eb) = small.parts();
        let (sig, exp, sticky) = combine(sa, ea, sb, eb, na != nb);
        let ghost n = combined(sa, ea, sb, eb, na != nb) as nat;
        assert(n == abs(self.value() + other.value()));
        let mag: u32 = round_to_mag(sig, exp, sticky, Ghost(n), Ghost(1));
        if ma == mb && na != nb {
            proof {
                lemma_nearest_mag_zero();
            }
            return Binary32 { bits: 0 };
        }
        proof {
            if n == 0 {
                lemma_nearest_mag_zero();
                if small.mag() > 0 {
                    lemma_mag_units_increasing(0, small.mag());
                }
                if large.mag() > 0 {
                    lemma_mag_units_increasing(0, large.mag());
                }
            }
        }
        with_sign(large.is_negative(), mag)
    }

    /// `self` with its sign turned round.
    pub fn negate(self) -> (r: Binary32)
        ensures
            r == negated(self),
    {
        with_sign(!self.is_negative(), self.magnitude())
    }

    /// `self - other`, correctly rounded.
    pub fn minus(self, other: Binary32) -> (r: Binary32)
        ensures
            r == difference(self, other),
    {
        self.plus(other.negate())
    }

    /// The whole number nearest to `self`, with ties away from zero.
    pub fn round(self) -> (r: Binary32)
        ensures
            r == rounded(self),
    {
        proof {
            reveal(rounded);
            reveal(from_natural);
        }
        let mag: u32 = self.magnitude();
        if mag > INFINITY_MAG {
            return Binary32 { bits: NAN_BITS };
        }
        if mag == INFINITY_MAG {
            return self;
        }
        let (sig, exp) = self.parts();
        let ghost u = self.units();
        let ghost one = one_in_units();
        let ghost pe = pow2(exp as nat);
        proof {
            lemma_pow2_pos(149);
            lemma_pow2_pos(exp as nat);
        }
        if exp >= 149 {
            proof {
                lemma_pow2_adds((exp - 149) as nat, 149);
                let c = sig as nat * pow2((exp - 149) as nat);
                assert(u == c * one) by (nonlinear_arith)
                    requires
                        u == sig as nat * pe,
                        pe == pow2((exp - 149) as nat) * one,
                        c == sig as nat * pow2((exp - 149) as nat),
                ;
                assert(2 * u + one == c * (2 * one) + one) by (nonlinear_arith)
                    requires
                        u == c * one,
                ;
                lemma_fundamental_div_mod_converse(
                    (2 * u + one) as int,
                    (2 * one) as int,
                    c as int,
                    one as int,
                );
                rounding::lemma_nearest_mag_exact(mag as nat);
            }
            return self;
        }
        let k: u32 = (149 - exp) as u32;
        let whole: u64 = half_up_shift(sig, k);
        proof {
            lemma_pow2_adds(exp as nat, k as nat);
            lemma_pow2_pos(k as nat);
            rounding::lemma_half_up_scale(sig as nat, pow2(k as nat), pe);
            lemma_mul_is_commutative(pe as int, pow2(k as nat) as int);
        }
        let positive: Binary32 = Binary32::from_u64(whole);
        with_sign(self.is_negative(), positive.magnitude())
    }

    /// `self < other`; false where either is NaN.
    pub fn less_than(self, other: Binary32) -> (r: bool)
        ensures
            r == less(self, other),
    {
        let ma: u32 = self.magnitude();
        let mb: u32 = other.magnitude();
        if ma > INFINITY_MAG || mb > INFINITY_MAG {
            return false;
        }
        let ka: i64 = if self.is_negative() {
            -(ma as i64)
        } else {
            ma as i64
        };
        let kb: i64 = if other.is_negative() {
            -(mb as i64)
        } else {
            mb as i64
        };
        ka < kb
    }

    /// `self >= other`; false where either is NaN.
    pub fn reaches(self, other: Binary32) -> (r: bool)
        ensures
            r == at_least(self, other),
    {
        let unordered: bool = self.magnitude() > INFINITY_MAG || other.magnitude() > INFINITY_MAG;
        !unordered && !self.less_than(other)
    }

    /// The position of `self` in the order of all encodings.
    pub fn total_order(self) -> (r: i64)
        ensures
            r == total_key(self),
    {
        if self.is_negative() {
            -(self.magnitude() as i64) - 1
        } else {
            self.magnitude() as i64
        }
    }

    /// `self` held between `low` and `high`; a NaN stays as it is.
    pub fn clamp_between(self, low: Binary32, high: Binary32) -> (r: Binary32)
        ensures
            r == clamped(self, low, high),
    {
        if self.less_than(low) {
            low
        } else if high.less_than(self) {
            high
        } else {
            self
        }
    }

    /// `self * other`, correctly rounded.
    pub fn times(self, other: Binary32) -> (r: Binary32)
        ensures
            r == product(self, other),
    {
        proof {
            reveal(product);
        }
        let negative: bool = self.is_negative() != other.is_negative();
        let ma: u32 = self.magnitude();
        let mb: u32 = other.magnitude();
        if ma > INFINITY_MAG || mb > INFINITY_MAG {
            return Binary32 { bits: NAN_BITS };
        }
        if ma == INFINITY_MAG || mb == INFINITY_MAG {
            if ma == 0 || mb == 0 {
                return Binary32 { bits: NAN_BITS };
            }
            return with_sign(negative, INFINITY_MAG);
        }
        let (sa, ea) = self.parts();
        let (sb, eb) = other.parts();
        proof {
            assert(sa * sb < 0x1_0000_0000_0000) by (nonlinear_arith)
                requires
                    0 <= sa < 0x100_0000,
                    0 <= sb < 0x100_0000,
            ;
        }
        let sig: u64 = sa * sb;
        let exp: i32 = ea + eb - 149;
        let ghost n = self.units() * other.units();
        let ghost d = one_in_units();
        proof {
            let k = pow2(rounding::max0(-exp));
            let p = pow2(rounding::max0(exp as int));
            let pa = pow2(ea as nat);
            let pb = pow2(eb as nat);
            lemma_pow2_pos(149);
            lemma_pow2_pos(rounding::max0(exp as int));
            lemma_pow2_adds(ea as nat, eb as nat);
            lemma_pow2_adds((ea + eb) as nat, rounding::max0(-exp));
            lemma_pow2_adds(149, rounding::max0(exp as int));
            assert((ea + eb) as nat + rounding::max0(-exp) == 149 + rounding::max0(exp as int));
            assert(n * k == sig as nat * (d * p)) by (nonlinear_arith)
                requires
                    n == (sa as nat * pa) * (sb as nat * pb),
                    sig == sa as nat * sb as nat,
                    (pa * pb) * k == d * p,
            ;
            assert(d * p > 0) by (nonlinear_arith)
                requires
                    d > 0,
                    p > 0,
            ;
            lemma_fundamental_div_mod_converse((n * k) as int, (d * p) as int, sig as int, 0);
        }
        let mag: u32 = round_to_mag(sig, exp, false, Ghost(n), Ghost(d));
        with_sign(negative, mag)
    }

    /// `self / other`, correctly rounded.
    pub fn over(self, other: Binary32) -> (r: Binary32)
        ensures
            r == quotient(self, other),
    {
        proof {
            reveal(quotient);
        }
        let negative: bool = self.is_negative() != other.is_negative();
        let ma: u32 = self.magnitude();
        let mb: u32 = other.magnitude();
        if ma > INFINITY_MAG || mb > INFINITY_MAG {
            return Binary32 { bits: NAN_BITS };
        }
        if ma == INFINITY_MAG {
            if mb == INFINITY_MAG {
                return Binary32 { bits: NAN_BITS };
            }
            return with_sign(negative, INFINITY_MAG);
        }
        if mb == INFINITY_MAG {
            return with_sign(negative, 0);
        }
        if mb == 0 {
            if ma == 0 {
                return Binary32 { bits: NAN_BITS };
            }
            return with_sign(negative, INFINITY_MAG);
        }
        let (sa, ea) = self.parts();
        let (sb, eb) = other.parts();
        with_sign(negative, divide(sa, ea, sb, eb))
    }

    /// The value nearest to `n / d`.
    pub fn ratio(n: u32, d: u32) -> (r: Binary32)
        requires
            d > 0,
        ensures
            r == nearest_ratio(n as nat, d as nat),
    {
        proof {
            reveal(nearest_ratio);
        }
        proof {
            lemma2_to64();
            assert(n as nat * pow2(0) == n && d as nat * pow2(0) == d) by (nonlinear_arith)
                requires
                    pow2(0) == 1,
            ;
        }
        with_sign(false, divide(n as u64, 0, d as u64, 0))
    }
}

/// Scaling numerator and denominator keeps the quotient and scales the remainder.
proof fn lemma_scaled_division(x: nat, y: nat, c: nat)
    requires
        y > 0,
        c > 0,
    ensures
        (x * c) / (y * c) == x / y,
        ((x * c) % (y * c) == 0) == (x % y == 0),
{
    let q = x / y;
    let r = x % y;
    lemma_fundamental_div_mod(x as int, y as int);
    lemma_mod_bound(x as int, y as int);
    assert(x * c == q * (y * c) + r * c) by (nonlinear_arith)
        requires
            x == y * q + r,
    ;
    assert(0 <= r * c < y * c) by (nonlinear_arith)
        requires
            0 <= r < y,
            c > 0,
    ;
    assert((r * c == 0) == (r == 0)) by (nonlinear_arith)
        requires
            c > 0,
    ;
    lemma_fundamental_div_mod_converse((x * c) as int, (y * c) as int, q as int, (r * c) as int);
}

} // verus!
