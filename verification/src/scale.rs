//! What the coordinates of a vector say of the request it stands for.
//!
//! Every coordinate on a scale is the share of a value in the most that the scale
//! holds, to four decimal places.  The laws here compare it with that share over
//! the integers.

use vstd::prelude::*;
use vstd::arithmetic::div_mod::*;
use vstd::arithmetic::power2::*;
use vstd::utf8::encode_utf8;
use crate::accuracy;
use crate::binary32;
use crate::binary32::Binary32;
use crate::closeness;
use crate::payload;
use crate::payload::{FraudPayload, RuntimeConfig};
use crate::rounding;
use crate::timestamp;

verus! {

/// Whether `r` is the share of `value` in `most`: none below zero, one from `most`
/// on, and within six parts in a hundred thousand between them.
pub open spec fn is_share(r: Binary32, value: int, most: int) -> bool {
    let one = binary32::one_in_units();
    &&& r.is_finite()
    &&& value <= 0 ==> r.value() == 0
    &&& value >= most ==> r.value() == one
    &&& 0 <= value <= most ==> 0 <= r.value() <= one && 100_000 * accuracy::apart(
        r.value() * most,
        value * one,
    ) <= 6 * (most * one)
}

/// A rounded number of units lies within one part in `2^24`.
proof fn lemma_units_apart(n: nat)
    requires
        rounding::nearest_mag(n, 1) < rounding::INFINITY_MAG,
    ensures
        accuracy::apart(rounding::mag_units(rounding::nearest_mag(n, 1)) as int, n as int)
            * 0x100_0000 <= n,
{
    accuracy::law_rounding_is_nearest(n, 1, 0);
}

/// The steps of rounding a value within one to four places.
proof fn lemma_rounded4_steps(v: Binary32) -> (k: nat)
    requires
        v.is_finite(),
        v.units() <= binary32::one_in_units(),
    ensures
        k <= 10_000,
        k == rounding::half_up(
            rounding::mag_units(rounding::nearest_mag(v.units() * 10_000, 1)),
            binary32::one_in_units(),
        ),
        rounding::nearest_mag(v.units() * 10_000, 1) < rounding::INFINITY_MAG,
        payload::rounded4(v) == binary32::signed(
            v.negative(),
            rounding::nearest_mag(binary32::nearest_ratio(1, 10_000).units() * k, 1),
        ),
        rounding::nearest_mag(binary32::nearest_ratio(1, 10_000).units() * k, 1)
            < rounding::INFINITY_MAG,
{
    let one = binary32::one_in_units();
    let scale = binary32::from_natural(10_000);
    let part = binary32::nearest_ratio(1, 10_000);
    lemma_pow2_pos(149);
    binary32::lemma_natural_is_exact(10_000);
    binary32::lemma_natural_is_exact(1);
    binary32::lemma_product_units(v, scale, 10_000);
    let p = binary32::product(v, scale);
    assert(v.units() * 10_000 <= 10_000 * one) by (nonlinear_arith)
        requires
            v.units() <= one,
    ;
    rounding::lemma_nearest_mag_monotone(v.units() * 10_000, 10_000 * one, 1);
    assert(p.mag() <= scale.mag()) by {
        reveal(binary32::from_natural);
    }
    if p.mag() < scale.mag() {
        binary32::lemma_mag_units_increasing(p.mag(), scale.mag());
    }
    let k = rounding::half_up(p.units(), one);
    assert(2 * p.units() + one <= 10_000 * (2 * one) + one) by (nonlinear_arith)
        requires
            p.units() <= 10_000 * one,
    ;
    lemma_div_is_ordered(
        (2 * p.units() + one) as int,
        (10_000 * (2 * one) + one) as int,
        (2 * one) as int,
    );
    lemma_fundamental_div_mod_converse(
        (10_000 * (2 * one) + one) as int,
        (2 * one) as int,
        10_000,
        one as int,
    );
    lemma_div_pos_is_pos((2 * p.units() + one) as int, (2 * one) as int);
    binary32::lemma_natural_is_exact(k);
    let w = binary32::rounded(p);
    assert(w.units() == k * one && w.negative() == v.negative() && w.is_finite()) by {
        reveal(binary32::rounded);
        reveal(binary32::from_natural);
    }
    payload::lemma_ten_thousandth();
    binary32::lemma_product_units(part, w, k);
    assert(part.units() * k <= 1 * one) by (nonlinear_arith)
        requires
            part.units() * 10_000 <= one,
            k <= 10_000,
    ;
    rounding::lemma_nearest_mag_monotone(part.units() * k, 1 * one, 1);
    assert(rounding::nearest_mag(1 * one, 1) < rounding::INFINITY_MAG) by {
        reveal(binary32::from_natural);
    }
    k
}

/// Rounding to four places moves a value by half of the fourth place, and hardly
/// more.
proof fn lemma_rounded4_close(v: Binary32)
    requires
        v.is_finite(),
        0 <= v.value() <= binary32::one_in_units(),
    ensures
        payload::rounded4(v).is_finite(),
        0 <= payload::rounded4(v).value() <= binary32::one_in_units(),
        10_000_000 * accuracy::apart(payload::rounded4(v).value(), v.value()) <= 510
            * binary32::one_in_units(),
{
    let one = binary32::one_in_units() as int;
    payload::lemma_rounded4_in_unit(v);
    let k = lemma_rounded4_steps(v);
    let r = payload::rounded4(v);
    let part = binary32::nearest_ratio(1, 10_000);
    let p = rounding::mag_units(rounding::nearest_mag(v.units() * 10_000, 1)) as int;
    lemma_pow2_pos(149);
    lemma2_to64();
    lemma_pow2_adds(64, 64);
    lemma_pow2_adds(128, 21);
    lemma_units_apart(v.units() * 10_000);
    lemma_units_apart(part.units() * k);
    accuracy::law_ratio_is_nearest(1, 10_000, part);
    payload::lemma_ten_thousandth();
    let x = 2 * p + one;
    let w = 2 * one;
    lemma_fundamental_div_mod(x, w);
    lemma_mod_bound(x, w);
    let ko = k as int * one;
    assert(w * k as int == 2 * ko) by (nonlinear_arith)
        requires
            w == 2 * one,
            ko == k as int * one,
    ;
    let u = part.units() as int;
    let uk = u * k as int;
    assert(0 <= uk <= one) by (nonlinear_arith)
        requires
            uk == u * k as int,
            u * 10_000 <= one,
            u >= 0,
            k <= 10_000,
    ;
    let short = one - 10_000 * u;
    assert(0 <= short && short * 0x100_0000 <= one + 10_000 * 0x80_0000);
    assert(ko - 10_000 * uk == k as int * short) by (nonlinear_arith)
        requires
            ko == k as int * one,
            uk == u * k as int,
            short == one - 10_000 * u,
    ;
    assert(0 <= k as int * short <= 10_000 * short) by (nonlinear_arith)
        requires
            0 <= k <= 10_000,
            short >= 0,
    ;
    assert(one >= 0x1_0000_0000_0000_0000) by {
        lemma_pow2_unfold(64);
        assert(one == pow2(64) * pow2(64) * pow2(21));
        assert(one >= pow2(64)) by (nonlinear_arith)
            requires
                one == pow2(64) * pow2(64) * pow2(21),
                pow2(64) >= 1,
                pow2(21) >= 1,
        ;
    }
    assert(r.units() == rounding::mag_units(rounding::nearest_mag(part.units() * k, 1)));
    if v.negative() {
        assert(v.units() == 0);
    }
}

/// One rounds to one.
pub(crate) proof fn lemma_rounded4_of_one(v: Binary32)
    requires
        v.is_finite(),
        v.value() == binary32::one_in_units(),
    ensures
        payload::rounded4(v).is_finite(),
        payload::rounded4(v).value() == binary32::one_in_units(),
{
    let one = binary32::one_in_units();
    lemma_pow2_pos(149);
    lemma2_to64();
    binary32::lemma_natural_is_exact(1);
    binary32::lemma_natural_is_exact(10_000);
    let k = lemma_rounded4_steps(v);
    assert(v.units() * 10_000 == 10_000 * one) by (nonlinear_arith)
        requires
            v.units() == one,
    ;
    assert(rounding::mag_units(rounding::nearest_mag(10_000 * one, 1)) == 10_000 * one) by {
        reveal(binary32::from_natural);
    }
    assert(2 * (10_000 * one) + one == 10_000 * (2 * one) + one) by (nonlinear_arith);
    lemma_fundamental_div_mod_converse(
        (10_000 * (2 * one) + one) as int,
        (2 * one) as int,
        10_000,
        one as int,
    );
    assert(k == 10_000);
    payload::lemma_ten_thousandth();
    let part = binary32::nearest_ratio(1, 10_000);
    let p = pow2(112);
    lemma_pow2_adds(37, 112);
    lemma_pow2_adds(32, 5);
    lemma_pow2_pos(112);
    assert(part.units() == 13_743_895 * p);
    // In units of `2^112` the product is just below `2^37`, and rounds up to it.
    let n: nat = 137_438_950_000;
    assert(part.units() * k == n * p) by (nonlinear_arith)
        requires
            part.units() == 13_743_895 * p,
            k == 10_000,
            n == 137_438_950_000,
    ;
    let d = pow2(37);
    assert(d == 137_438_953_472);
    assert(n * pow2(149) == (n * p) * d && 1 * d == d) by (nonlinear_arith)
        requires
            pow2(149) == d * p,
    ;
    lemma_pow2_pos(37);
    rounding::lemma_nearest_mag_scale(n * p, 1, d);
    assert(n * pow2(1) == 2 * n && n * pow2(0) == n) by (nonlinear_arith)
        requires
            pow2(1) == 2,
            pow2(0) == 1,
    ;
    rounding::lemma_fraction_mag(n, d, 0);
    assert(pow2(24) == 0x100_0000);
    assert(rounding::nearest_even(n * pow2(24), d) == 0x100_0000) by {
        lemma_fundamental_div_mod_converse(
            (137_438_950_000 * 0x100_0000) as int,
            137_438_953_472,
            16_777_215,
            137_438_950_000 * 0x100_0000 - 16_777_215 * 137_438_953_472,
        );
    }
    lemma_pow2_adds(23, 126);
    assert(rounding::mag_units(0x3f80_0000) == one);
}

/// The clamped and rounded quotient of two values is the share of the one in the
/// other.
pub proof fn law_unit_quotient_is_the_share(a: Binary32, m: Binary32)
    requires
        a.is_finite(),
        m.is_finite(),
        m.value() > 0,
    ensures
        is_share(payload::unit_value(binary32::quotient(a, m)), a.value(), m.value()),
{
    let one = binary32::one_in_units();
    let q = binary32::quotient(a, m);
    let top = binary32::from_natural(1);
    let c = binary32::clamped(q, binary32::zero(), top);
    let r = payload::unit_value(q);
    lemma_pow2_pos(149);
    binary32::lemma_natural_is_exact(1);
    lemma_quotient_order(a, m);
    payload::law_unit_value(q);
    if a.value() <= 0 {
        assert(c.mag() == 0);
        payload::lemma_rounded4_in_unit(c);
    } else if a.value() >= m.value() {
        assert(c.mag() == top.mag() && !c.negative());
        lemma_rounded4_of_one(c);
        if a.value() == m.value() {
            assert(one * m.value() == m.value() * one) by (nonlinear_arith);
            assert(0 <= m.value() * one) by (nonlinear_arith)
                requires
                    m.value() > 0,
                    one > 0,
            ;
        }
    } else {
        assert(c == q);
        lemma_rounded4_close(q);
        accuracy::law_quotient_is_nearest(a, m, q);
        let v = q.value();
        let x = m.value();
        let o = one as int;
        let near = accuracy::apart(r.value(), v);
        assert(0 <= a.value() * o <= x * o) by (nonlinear_arith)
            requires
                0 <= a.value() <= x,
                o > 0,
        ;
        assert(accuracy::apart(r.value() * x, v * x) == near * x) by (nonlinear_arith)
            requires
                near == if r.value() < v {
                    v - r.value()
                } else {
                    r.value() - v
                },
                x > 0,
                accuracy::apart(r.value() * x, v * x) == if r.value() * x < v * x {
                    v * x - r.value() * x
                } else {
                    r.value() * x - v * x
                },
        ;
        assert(10_000_000 * (near * x) <= 510 * (x * o)) by (nonlinear_arith)
            requires
                10_000_000 * near <= 510 * o,
                x > 0,
        ;
        assert(x * 0x80_0000 <= x * o) by (nonlinear_arith)
            requires
                x > 0,
                o >= 0x80_0000,
        ;
    }
}

/// Where a quotient lies by where its operands do.
proof fn lemma_quotient_order(a: Binary32, m: Binary32)
    requires
        a.is_finite(),
        m.is_finite(),
        m.value() > 0,
    ensures
        ({
            let q = binary32::quotient(a, m);
            let top = binary32::from_natural(1);
            &&& !q.is_nan()
            &&& a.value() > 0 ==> !q.negative()
            &&& a.value() < 0 ==> q.negative()
            &&& a.value() == 0 ==> q.mag() == 0
            &&& a.value() >= m.value() ==> q.mag() >= top.mag()
            &&& 0 <= a.value() <= m.value() ==> q.mag() <= top.mag() && q.is_finite()
                && q.units() <= binary32::one_in_units() && q.value() >= 0
        }),
        binary32::one_in_units() >= 0x80_0000,
{
    reveal(binary32::quotient);
    reveal(binary32::from_natural);
    let one = binary32::one_in_units();
    let q = binary32::quotient(a, m);
    let top = binary32::from_natural(1);
    lemma_pow2_pos(149);
    lemma2_to64();
    lemma_pow2_strictly_increases(23, 149);
    binary32::lemma_natural_is_exact(1);
    let d = m.units();
    assert(1 * d == d && 1 * one == one) by (nonlinear_arith);
    rounding::lemma_nearest_mag_scale(one, 1, d);
    assert(d * one == one * d) by (nonlinear_arith);
    if a.units() >= d {
        assert(a.units() * one >= d * one) by (nonlinear_arith)
            requires
                a.units() >= d,
        ;
        rounding::lemma_nearest_mag_monotone(d * one, a.units() * one, d);
    }
    if a.units() <= d {
        assert(a.units() * one <= d * one) by (nonlinear_arith)
            requires
                a.units() <= d,
        ;
        rounding::lemma_nearest_mag_monotone(a.units() * one, d * one, d);
        assert(q.mag() <= top.mag());
        if q.mag() < top.mag() {
            binary32::lemma_mag_units_increasing(q.mag(), top.mag());
        }
    }
    if a.units() == 0 {
        assert(0 * one == 0);
        rounding::lemma_nearest_mag_scale(0, 1, d);
        assert(0 * d == 0);
        binary32::lemma_natural_is_exact(0);
        rounding::lemma_nearest_mag_exact(0);
    }
}

/// A larger value never has the smaller share.
pub proof fn law_shares_rise(a: Binary32, b: Binary32, m: Binary32)
    requires
        a.is_finite(),
        b.is_finite(),
        m.is_finite(),
        m.value() > 0,
        0 <= a.value() <= b.value(),
    ensures
        payload::unit_value(binary32::quotient(a, m)).value() <= payload::unit_value(
            binary32::quotient(b, m),
        ).value(),
{
    let one = binary32::one_in_units();
    let qa = binary32::quotient(a, m);
    let qb = binary32::quotient(b, m);
    let top = binary32::from_natural(1);
    law_unit_quotient_is_the_share(a, m);
    law_unit_quotient_is_the_share(b, m);
    lemma_quotient_order(a, m);
    lemma_quotient_order(b, m);
    binary32::lemma_natural_is_exact(1);
    if b.value() < m.value() && a.value() > 0 {
        assert(qa.mag() <= qb.mag()) by {
            reveal(binary32::quotient);
            assert(a.units() * one <= b.units() * one) by (nonlinear_arith)
                requires
                    a.units() <= b.units(),
            ;
            rounding::lemma_nearest_mag_monotone(a.units() * one, b.units() * one, m.units());
        }
        if qa.mag() < qb.mag() {
            binary32::lemma_mag_units_increasing(qa.mag(), qb.mag());
        }
        lemma_rounded4_rises(qa, qb);
    }
}

proof fn lemma_rounded4_rises(a: Binary32, b: Binary32)
    requires
        a.is_finite(),
        b.is_finite(),
        a.units() <= b.units(),
        b.units() <= binary32::one_in_units(),
    ensures
        payload::rounded4(a).units() <= payload::rounded4(b).units(),
{
    let one = binary32::one_in_units();
    lemma_pow2_pos(149);
    let j = lemma_rounded4_steps(a);
    let k = lemma_rounded4_steps(b);
    assert(a.units() * 10_000 <= b.units() * 10_000);
    rounding::lemma_nearest_mag_monotone(a.units() * 10_000, b.units() * 10_000, 1);
    let ma = rounding::nearest_mag(a.units() * 10_000, 1);
    let mb = rounding::nearest_mag(b.units() * 10_000, 1);
    if ma < mb {
        binary32::lemma_mag_units_increasing(ma, mb);
    }
    lemma_div_is_ordered(
        (2 * rounding::mag_units(ma) + one) as int,
        (2 * rounding::mag_units(mb) + one) as int,
        (2 * one) as int,
    );
    let u = binary32::nearest_ratio(1, 10_000).units();
    assert(u * j <= u * k) by (nonlinear_arith)
        requires
            j <= k,
    ;
    rounding::lemma_nearest_mag_monotone(u * j, u * k, 1);
    let na = rounding::nearest_mag(u * j, 1);
    let nb = rounding::nearest_mag(u * k, 1);
    if na < nb {
        binary32::lemma_mag_units_increasing(na, nb);
    }
}

/// Where the value of a natural number lies by the number.
proof fn lemma_natural_order(n: nat, m: Binary32)
    requires
        n < 0x1_0000_0000_0000_0000,
        m.is_finite(),
        m.value() > 0,
    ensures
        n * binary32::one_in_units() >= m.value() ==> binary32::from_natural(n).value()
            >= m.value(),
        binary32::from_natural(n).is_finite(),
        binary32::from_natural(n).value() >= 0,
{
    let one = binary32::one_in_units();
    let a = binary32::from_natural(n);
    accuracy::law_natural_is_nearest(n, m);
    if n * one >= m.value() {
        rounding::lemma_nearest_mag_monotone(m.units(), n * one, 1);
        rounding::lemma_nearest_mag_exact(m.mag());
        reveal(binary32::from_natural);
        assert(a.mag() >= m.mag());
        if a.mag() > m.mag() {
            binary32::lemma_mag_units_increasing(m.mag(), a.mag());
        }
    }
}

/// A count has its share on a scale: one from the most on, and never less than a
/// smaller count.
pub proof fn law_counts_have_their_share(n: nat, more: nat, m: Binary32)
    requires
        n <= more < 0x1_0000_0000_0000_0000,
        m.is_finite(),
        m.value() > 0,
    ensures
        ({
            let one = binary32::one_in_units();
            let r = payload::unit_value(binary32::quotient(binary32::from_natural(n), m));
            let s = payload::unit_value(binary32::quotient(binary32::from_natural(more), m));
            &&& n <= 0x100_0000 ==> is_share(r, (n * one) as int, m.value())
            &&& n * one >= m.value() ==> r.value() == one
            &&& r.value() <= s.value()
        }),
{
    let one = binary32::one_in_units();
    let a = binary32::from_natural(n);
    let b = binary32::from_natural(more);
    lemma_pow2_pos(149);
    lemma_natural_order(n, m);
    lemma_natural_order(more, m);
    if n <= 0x100_0000 {
        binary32::lemma_natural_is_exact(n);
    }
    law_unit_quotient_is_the_share(a, m);
    assert(n * one <= more * one) by (nonlinear_arith)
        requires
            n <= more,
    ;
    rounding::lemma_nearest_mag_monotone(n * one, more * one, 1);
    assert(a.mag() <= b.mag()) by {
        reveal(binary32::from_natural);
    }
    if a.mag() < b.mag() {
        binary32::lemma_mag_units_increasing(a.mag(), b.mag());
    }
    assert(a.value() <= b.value()) by {
        reveal(binary32::from_natural);
    }
    law_shares_rise(a, b, m);
}

/// A place on a clock of `most` steps has its share.
pub(crate) proof fn lemma_clock_share(n: nat, most: nat)
    requires
        n <= most,
        0 < most <= 0x100_0000,
    ensures
        payload::rounded4(
            binary32::quotient(binary32::from_natural(n), binary32::from_natural(most)),
        ) == payload::unit_value(
            binary32::quotient(binary32::from_natural(n), binary32::from_natural(most)),
        ),
        is_share(
            payload::rounded4(
                binary32::quotient(binary32::from_natural(n), binary32::from_natural(most)),
            ),
            (n * binary32::one_in_units()) as int,
            (most * binary32::one_in_units()) as int,
        ),
{
    let one = binary32::one_in_units();
    let a = binary32::from_natural(n);
    let m = binary32::from_natural(most);
    let q = binary32::quotient(a, m);
    lemma_pow2_pos(149);
    binary32::lemma_natural_is_exact(n);
    binary32::lemma_natural_is_exact(most);
    binary32::lemma_natural_is_exact(1);
    assert(n * one <= most * one && most * one > 0 && n * one >= 0) by (nonlinear_arith)
        requires
            0 <= n <= most,
            most > 0,
            one > 0,
    ;
    law_unit_quotient_is_the_share(a, m);
    lemma_quotient_order(a, m);
    let top = binary32::from_natural(1);
    assert(binary32::clamped(q, binary32::zero(), top) == q);
}

/// The minutes between two points in time are the whole difference where the
/// second follows the first, and none where it does not.
pub proof fn law_minutes_are_the_whole_difference(previous: Seq<char>, requested: Seq<char>)
    ensures
        timestamp::timestamp_minutes(encode_utf8(previous)) <= timestamp::timestamp_minutes(
            encode_utf8(requested),
        ) ==> timestamp::timestamp_minutes(encode_utf8(previous)) + payload::minutes_between(
            previous,
            requested,
        ) == timestamp::timestamp_minutes(encode_utf8(requested)),
        timestamp::timestamp_minutes(encode_utf8(previous)) > timestamp::timestamp_minutes(
            encode_utf8(requested),
        ) ==> payload::minutes_between(previous, requested) == 0,
{
}

/// Two requests that are the same but for how long ago the previous transaction
/// was: the one whose previous transaction lies further back is never placed
/// nearer, and at the most minutes and beyond it is placed at one.
pub proof fn law_time_passes(a: FraudPayload, b: FraudPayload, config: RuntimeConfig)
    requires
        payload::requested_at_ok(a),
        payload::last_timestamp_ok(a),
        payload::last_timestamp_ok(b),
        a.transaction.requested_at@ == b.transaction.requested_at@,
        a.last_transaction is Some,
        b.last_transaction is Some,
        config.normalization.max_minutes.is_finite(),
        config.normalization.max_minutes.value() > 0,
    ensures
        ({
            let now = timestamp::timestamp_minutes(encode_utf8(a.transaction.requested_at@));
            let then_a = timestamp::timestamp_minutes(
                encode_utf8(a.last_transaction->0.timestamp@),
            );
            let then_b = timestamp::timestamp_minutes(
                encode_utf8(b.last_transaction->0.timestamp@),
            );
            let most = config.normalization.max_minutes.value();
            let one = binary32::one_in_units();
            let va = payload::vector_of(a, config)[5];
            let vb = payload::vector_of(b, config)[5];
            &&& then_a <= then_b ==> va.value() >= vb.value()
            &&& (now - then_a) * one >= most ==> va.value() == one
            &&& then_a >= now ==> va.value() == 0
            &&& 0 <= now - then_a <= 0x100_0000 ==> is_share(va, (now - then_a) * one, most)
        }),
{
    let requested = a.transaction.requested_at@;
    let pa = a.last_transaction->0.timestamp@;
    let pb = b.last_transaction->0.timestamp@;
    let one = binary32::one_in_units();
    let m = config.normalization.max_minutes;
    timestamp::lemma_timestamp_range(encode_utf8(requested));
    timestamp::lemma_timestamp_range(encode_utf8(pa));
    timestamp::lemma_timestamp_range(encode_utf8(pb));
    let na = payload::minutes_between(pa, requested);
    let nb = payload::minutes_between(pb, requested);
    lemma_pow2_pos(149);
    law_counts_have_their_share(na, na, m);
    if nb <= na {
        law_counts_have_their_share(nb, na, m);
    }
    let elapsed = timestamp::timestamp_minutes(encode_utf8(requested))
        - timestamp::timestamp_minutes(encode_utf8(pa));
    if elapsed < 0 {
        assert(elapsed * one < 0) by (nonlinear_arith)
            requires
                elapsed < 0,
                one > 0,
        ;
    }
    assert(0 * one == 0);
}

/// Coordinates of amounts and ways: each is the share of its value in the most of
/// its scale.
pub proof fn law_amounts_have_their_share(payload: FraudPayload, config: RuntimeConfig)
    ensures
        ({
            let v = payload::vector_of(payload, config);
            let n = config.normalization;
            let amount = payload.transaction.amount;
            let home = payload.terminal.km_from_home;
            let usual = payload.merchant.avg_amount;
            &&& v.len() == 14
            &&& amount.is_finite() && n.max_amount.is_finite() && n.max_amount.value() > 0
                ==> is_share(v[0], amount.value(), n.max_amount.value())
            &&& home.is_finite() && n.max_km.is_finite() && n.max_km.value() > 0 ==> is_share(
                v[7],
                home.value(),
                n.max_km.value(),
            )
            &&& usual.is_finite() && n.max_merchant_avg_amount.is_finite()
                && n.max_merchant_avg_amount.value() > 0 ==> is_share(
                v[13],
                usual.value(),
                n.max_merchant_avg_amount.value(),
            )
            &&& payload.last_transaction matches Some(last) ==> (last.km_from_current.is_finite()
                && n.max_km.is_finite() && n.max_km.value() > 0 ==> is_share(
                v[6],
                last.km_from_current.value(),
                n.max_km.value(),
            ))
        }),
{
    let n = config.normalization;
    let amount = payload.transaction.amount;
    let home = payload.terminal.km_from_home;
    let usual = payload.merchant.avg_amount;
    if amount.is_finite() && n.max_amount.is_finite() && n.max_amount.value() > 0 {
        law_unit_quotient_is_the_share(amount, n.max_amount);
    }
    if home.is_finite() && n.max_km.is_finite() && n.max_km.value() > 0 {
        law_unit_quotient_is_the_share(home, n.max_km);
    }
    if usual.is_finite() && n.max_merchant_avg_amount.is_finite()
        && n.max_merchant_avg_amount.value() > 0 {
        law_unit_quotient_is_the_share(usual, n.max_merchant_avg_amount);
    }
    if payload.last_transaction is Some && n.max_km.is_finite() && n.max_km.value() > 0 {
        let way = payload.last_transaction->0.km_from_current;
        if way.is_finite() {
            law_unit_quotient_is_the_share(way, n.max_km);
        }
    }
}

/// Coordinates of counts: each is the share of its count in the most of its scale.
pub proof fn law_request_counts_have_their_share(payload: FraudPayload, config: RuntimeConfig)
    ensures
        ({
            let v = payload::vector_of(payload, config);
            let n = config.normalization;
            let one = binary32::one_in_units();
            let parts = payload.transaction.installments;
            let day = payload.customer.tx_count_24h;
            &&& n.max_installments.is_finite() && n.max_installments.value() > 0 ==> (parts
                <= 0x100_0000 ==> is_share(v[1], parts * one, n.max_installments.value())) && (parts
                * one >= n.max_installments.value() ==> v[1].value() == one)
            &&& n.max_tx_count_24h.is_finite() && n.max_tx_count_24h.value() > 0 ==> (day
                <= 0x100_0000 ==> is_share(v[8], day * one, n.max_tx_count_24h.value())) && (day
                * one >= n.max_tx_count_24h.value() ==> v[8].value() == one)
        }),
{
    let n = config.normalization;
    let parts = payload.transaction.installments as nat;
    let day = payload.customer.tx_count_24h as nat;
    if n.max_installments.is_finite() && n.max_installments.value() > 0 {
        law_counts_have_their_share(parts, parts, n.max_installments);
    }
    if n.max_tx_count_24h.is_finite() && n.max_tx_count_24h.value() > 0 {
        law_counts_have_their_share(day, day, n.max_tx_count_24h);
    }
}

/// The amount against the usual one: its share in the ratio of the scale, or one
/// where nothing is usual.
pub proof fn law_unusual_amounts_stand_out(payload: FraudPayload, config: RuntimeConfig)
    ensures
        ({
            let v = payload::vector_of(payload, config);
            let most = config.normalization.amount_vs_avg_ratio;
            let usual = payload.customer.avg_amount;
            let times = binary32::quotient(payload.transaction.amount, usual);
            &&& usual.is_finite() && usual.value() <= 0 ==> v[2].is_finite() && v[2].value()
                == binary32::one_in_units()
            &&& usual.is_finite() && usual.value() > 0 && times.is_finite() && most.is_finite()
                && most.value() > 0 ==> is_share(v[2], times.value(), most.value())
        }),
{
    let most = config.normalization.amount_vs_avg_ratio;
    let usual = payload.customer.avg_amount;
    let times = binary32::quotient(payload.transaction.amount, usual);
    binary32::lemma_natural_is_exact(1);
    if usual.is_finite() {
        accuracy::law_order_is_by_value(binary32::zero(), usual);
        assert(binary32::zero().value() == 0);
        if usual.value() > 0 && times.is_finite() && most.is_finite() && most.value() > 0 {
            law_unit_quotient_is_the_share(times, most);
        }
    }
}

/// The hour of the day and the day of the week, as the request's own timestamp
/// spells them.
pub proof fn law_clock_coordinates(
    payload: FraudPayload,
    config: RuntimeConfig,
    year: int,
    month: int,
    day: int,
)
    requires
        payload::requested_at_ok(payload),
        ({
            let bytes = encode_utf8(payload.transaction.requested_at@);
            &&& year == 1000 * (bytes[0] - 0x30) + 100 * (bytes[1] - 0x30) + 10 * (bytes[2] - 0x30)
                + (bytes[3] - 0x30)
            &&& month == 10 * (bytes[5] - 0x30) + (bytes[6] - 0x30)
            &&& day == 10 * (bytes[8] - 0x30) + (bytes[9] - 0x30)
        }),
    ensures
        ({
            let v = payload::vector_of(payload, config);
            let bytes = encode_utf8(payload.transaction.requested_at@);
            let hour = 10 * (bytes[11] - 0x30) + (bytes[12] - 0x30);
            let one = binary32::one_in_units();
            let weekday = (timestamp::civil_days(year, month, day) - timestamp::civil_days(
                1970,
                1,
                5,
            )) % 7;
            &&& is_share(v[3], hour * one, 23 * one as int)
            &&& is_share(v[4], weekday * one, 6 * one as int)
        }),
{
    let bytes = encode_utf8(payload.transaction.requested_at@);
    let hour = 10 * (bytes[11] - 0x30) + (bytes[12] - 0x30);
    lemma_spelled_clock(bytes, year, month, day);
    let days = timestamp::civil_days(year, month, day);
    lemma_first_monday();
    assert((days + 3) % 7 == (days - 4) % 7);
    lemma_clock_share(hour as nat, 23);
    lemma_clock_share(((days + 3) % 7) as nat, 6);
}

/// The hour and the day of a timestamp, by its digits.
proof fn lemma_spelled_clock(bytes: Seq<u8>, year: int, month: int, day: int)
    requires
        timestamp::is_timestamp(bytes),
        year == 1000 * (bytes[0] - 0x30) + 100 * (bytes[1] - 0x30) + 10 * (bytes[2] - 0x30) + (
        bytes[3] - 0x30),
        month == 10 * (bytes[5] - 0x30) + (bytes[6] - 0x30),
        day == 10 * (bytes[8] - 0x30) + (bytes[9] - 0x30),
    ensures
        timestamp::field(bytes, 11, 13) == 10 * (bytes[11] - 0x30) + (bytes[12] - 0x30),
        0 <= timestamp::field(bytes, 11, 13) <= 23,
        timestamp::timestamp_days(bytes) == timestamp::civil_days(year, month, day),
{
    timestamp::lemma_four_digits(bytes);
    timestamp::lemma_two_digits(bytes, 5);
    timestamp::lemma_two_digits(bytes, 8);
    timestamp::lemma_two_digits(bytes, 11);
}

/// The fifth of January 1970 was a Monday, four days into the count.
proof fn lemma_first_monday()
    ensures
        timestamp::civil_days(1970, 1, 5) == 4,
{
    timestamp::law_calendar(1970, 1, 1);
    timestamp::law_calendar(1970, 1, 2);
    timestamp::law_calendar(1970, 1, 3);
    timestamp::law_calendar(1970, 1, 4);
}

/// A half is exactly a half.
pub(crate) proof fn lemma_half()
    ensures
        binary32::nearest_ratio(1, 2).is_finite(),
        2 * binary32::nearest_ratio(1, 2).value() == binary32::one_in_units(),
{
    reveal(binary32::nearest_ratio);
    lemma2_to64();
    lemma_pow2_unfold(149);
    let h = pow2(148);
    assert(1 * binary32::one_in_units() == h * 2 && 1 * 2 == 2 && 1 * h == h);
    rounding::lemma_nearest_mag_scale(h, 1, 2);
    rounding::lemma_exact_multiple(1, 148);
}

/// Coordinates that answer a question with one or zero, and the risk as it is
/// listed, or a half.
pub proof fn law_flags_and_risk(payload: FraudPayload, config: RuntimeConfig)
    ensures
        ({
            let v = payload::vector_of(payload, config);
            let one = binary32::one_in_units();
            let known = payload.customer.known_merchants@;
            let mcc = payload.merchant.mcc@;
            &&& v[9].is_finite() && v[9].value() == if payload.terminal.is_online {
                one
            } else {
                0
            }
            &&& v[10].is_finite() && v[10].value() == if payload.terminal.card_present {
                one
            } else {
                0
            }
            &&& (exists|i: int|
                0 <= i < known.len() && (#[trigger] known[i])@ == payload.merchant.id@) ==> v[11].value()
                == 0
            &&& (forall|i: int|
                0 <= i < known.len() ==> (#[trigger] known[i])@ != payload.merchant.id@) ==> v[11].value()
                == one
            &&& config.mcc_risk@.dom().contains(mcc) ==> v[12] == config.mcc_risk@[mcc]
            &&& !config.mcc_risk@.dom().contains(mcc) ==> 2 * v[12].value() == one
        }),
{
    binary32::lemma_natural_is_exact(0);
    binary32::lemma_natural_is_exact(1);
    lemma_half();
    assert(0 * binary32::one_in_units() == 0);
}

/// A request without a previous transaction has minus one where that shows.
pub proof fn law_no_previous_transaction_shows(payload: FraudPayload, config: RuntimeConfig)
    requires
        payload.last_transaction is None,
    ensures
        payload::vector_of(payload, config)[5].is_finite(),
        payload::vector_of(payload, config)[6].is_finite(),
        payload::vector_of(payload, config)[5].value() == -(binary32::one_in_units() as int),
        payload::vector_of(payload, config)[6].value() == -(binary32::one_in_units() as int),
{
    binary32::lemma_natural_is_exact(1);
}

/// A previous transaction a day earlier, at the same time of day, lies 1440 minutes
/// further back; one an hour or a minute earlier lies 60 or one further back.
pub proof fn law_a_day_back_is_a_day_more(
    earlier: Seq<char>,
    later: Seq<char>,
    requested: Seq<char>,
)
    requires
        timestamp::timestamp_minutes(encode_utf8(later)) <= timestamp::timestamp_minutes(
            encode_utf8(requested),
        ),
    ensures
        ({
            let a = encode_utf8(earlier);
            let b = encode_utf8(later);
            let more = payload::minutes_between(earlier, requested) - payload::minutes_between(
                later,
                requested,
            );
            let days = timestamp::timestamp_days(b) - timestamp::timestamp_days(a);
            let hours = timestamp::field(b, 11, 13) - timestamp::field(a, 11, 13);
            let minutes = timestamp::field(b, 14, 16) - timestamp::field(a, 14, 16);
            &&& days == 1 && hours == 0 && minutes == 0 ==> more == 1440
            &&& days == 0 && hours == 1 && minutes == 0 ==> more == 60
            &&& days == 0 && hours == 0 && minutes == 1 ==> more == 1
            &&& 1440 * days + 60 * hours + minutes >= 0 ==> more == 1440 * days + 60 * hours
                + minutes
        }),
{
}

/// Whether `r` is what becomes of `a` on a scale up to `m`, whatever the two are: the
/// share where both are on the same side of zero, nothing where they are not, and
/// no number where the two have no ratio.
pub open spec fn is_on_scale(r: Binary32, a: Binary32, m: Binary32) -> bool {
    if a.is_nan() || m.is_nan() || (a.is_infinite() && m.is_infinite()) || (a.mag() == 0 && m.mag()
        == 0) {
        r.is_nan()
    } else if a.is_infinite() || m.mag() == 0 {
        r.is_finite() && r.value() == if a.negative() == m.negative() {
            binary32::one_in_units() as int
        } else {
            0
        }
    } else if m.is_infinite() {
        r.is_finite() && r.value() == 0
    } else if m.value() > 0 {
        is_share(r, a.value(), m.value())
    } else {
        is_share(r, -a.value(), -m.value())
    }
}

/// Turning both signs round does not change a quotient.
pub proof fn law_quotient_of_opposites(a: Binary32, b: Binary32)
    ensures
        binary32::quotient(binary32::negated(a), binary32::negated(b)) == binary32::quotient(a, b),
{
    reveal(binary32::quotient);
}

/// The clamped and rounded quotient is what becomes of a value on its scale.
pub proof fn law_unit_quotient_is_on_scale(a: Binary32, m: Binary32)
    ensures
        is_on_scale(payload::unit_value(binary32::quotient(a, m)), a, m),
{
    let q = binary32::quotient(a, m);
    closeness::law_coordinates_are_ten_thousandths(q);
    if a.is_nan() || m.is_nan() {
        accuracy::law_no_number_spreads(a, m);
    } else {
        accuracy::law_infinities(a, m);
        accuracy::law_signs_multiply(a, m);
        if !q.is_nan() {
            payload::law_unit_value(q);
        }
        if a.is_finite() && m.is_finite() && m.mag() != 0 {
            lemma_no_zero(m);
            if m.value() > 0 {
                law_unit_quotient_is_the_share(a, m);
            } else {
                law_quotient_of_opposites(a, m);
                law_unit_quotient_is_the_share(binary32::negated(a), binary32::negated(m));
            }
        } else if a.is_finite() && m.is_infinite() {
            payload::lemma_rounded4_in_unit(q);
            lemma_zero_clamped(q);
        }
    }
}

proof fn lemma_no_zero(m: Binary32)
    requires
        m.is_finite(),
        m.mag() != 0,
    ensures
        m.value() != 0,
{
    binary32::lemma_mag_units_increasing(0, m.mag());
}

proof fn lemma_zero_clamped(q: Binary32)
    requires
        q.mag() == 0,
    ensures
        binary32::clamped(q, binary32::zero(), binary32::from_natural(1)) == q,
{
    binary32::lemma_natural_is_exact(1);
}

/// Which value of a request becomes which coordinate, and on which scale.
pub proof fn law_coordinates_are_on_their_scales(payload: FraudPayload, config: RuntimeConfig)
    ensures
        ({
            let v = payload::vector_of(payload, config);
            let n = config.normalization;
            let usual = payload.customer.avg_amount;
            &&& is_on_scale(v[0], payload.transaction.amount, n.max_amount)
            &&& is_on_scale(
                v[1],
                binary32::from_natural(payload.transaction.installments as nat),
                n.max_installments,
            )
            &&& binary32::less(binary32::zero(), usual) ==> is_on_scale(
                v[2],
                binary32::quotient(payload.transaction.amount, usual),
                n.amount_vs_avg_ratio,
            )
            &&& !binary32::less(binary32::zero(), usual) ==> v[2].is_finite() && v[2].value()
                == binary32::one_in_units()
            &&& payload.last_transaction matches Some(last) ==> is_on_scale(
                v[5],
                binary32::from_natural(
                    payload::minutes_between(last.timestamp@, payload.transaction.requested_at@),
                ),
                n.max_minutes,
            )
            &&& payload.last_transaction matches Some(last) ==> is_on_scale(
                v[6],
                last.km_from_current,
                n.max_km,
            )
            &&& is_on_scale(v[7], payload.terminal.km_from_home, n.max_km)
            &&& is_on_scale(
                v[8],
                binary32::from_natural(payload.customer.tx_count_24h as nat),
                n.max_tx_count_24h,
            )
            &&& is_on_scale(v[13], payload.merchant.avg_amount, n.max_merchant_avg_amount)
        }),
{
    let n = config.normalization;
    binary32::lemma_natural_is_exact(1);
    law_unit_quotient_is_on_scale(payload.transaction.amount, n.max_amount);
    law_unit_quotient_is_on_scale(
        binary32::from_natural(payload.transaction.installments as nat),
        n.max_installments,
    );
    law_unit_quotient_is_on_scale(
        binary32::quotient(payload.transaction.amount, payload.customer.avg_amount),
        n.amount_vs_avg_ratio,
    );
    if payload.last_transaction is Some {
        let last = payload.last_transaction->0;
        law_unit_quotient_is_on_scale(
            binary32::from_natural(
                payload::minutes_between(last.timestamp@, payload.transaction.requested_at@),
            ),
            n.max_minutes,
        );
        law_unit_quotient_is_on_scale(last.km_from_current, n.max_km);
    }
    law_unit_quotient_is_on_scale(payload.terminal.km_from_home, n.max_km);
    law_unit_quotient_is_on_scale(
        binary32::from_natural(payload.customer.tx_count_24h as nat),
        n.max_tx_count_24h,
    );
    law_unit_quotient_is_on_scale(payload.merchant.avg_amount, n.max_merchant_avg_amount);
}

} // verus!
