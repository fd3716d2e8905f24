//! How near scores and distances of plain values lie to the exact ones.

use vstd::prelude::*;
use vstd::arithmetic::power2::*;
use vstd::utf8::encode_utf8;
use crate::accuracy;
use crate::binary32;
use crate::binary32::Binary32;
use crate::generate;
use crate::payload;
use crate::payload::{FraudPayload, RuntimeConfig};
use crate::references;
use crate::rng;
use crate::scale;
use crate::timestamp;

verus! {

/// One part in `2^16` of one, in units.
spec fn small() -> int {
    pow2(133) as int
}

proof fn lemma_small()
    ensures
        binary32::one_in_units() == 0x1_0000 * small(),
        small() >= 0x1_0000_0000,
        accuracy::greatest() >= 1000 * binary32::one_in_units(),
        accuracy::greatest() >= binary32::one_in_units() * 0x1_0000,
{
    lemma2_to64();
    lemma_pow2_adds(16, 133);
    lemma_pow2_strictly_increases(32, 133);
    lemma_pow2_adds(149, 16);
    lemma_pow2_strictly_increases(165, 253);
    lemma_pow2_pos(149);
    let top = pow2(253);
    assert(accuracy::greatest() == 0xff_ffff * top);
    assert(0xff_ffff * top >= top) by (nonlinear_arith);
    assert(0x1_0000 * pow2(149) == pow2(165)) by (nonlinear_arith)
        requires
            pow2(165) == pow2(149) * pow2(16),
            pow2(16) == 0x1_0000,
    ;
}

/// A sum of modest values is finite and off by little.
proof fn lemma_sum_close(a: Binary32, b: Binary32)
    requires
        a.is_finite(),
        b.is_finite(),
        accuracy::apart(a.value() + b.value(), 0) <= 1000 * binary32::one_in_units(),
    ensures
        binary32::sum(a, b).is_finite(),
        accuracy::apart(binary32::sum(a, b).value(), a.value() + b.value()) * 0x100_0000
            <= accuracy::apart(a.value() + b.value(), 0),
{
    lemma_small();
    accuracy::law_sum_is_nearest(a, b, a);
}

/// A sum that is a value is exact.
proof fn lemma_sum_exact(a: Binary32, b: Binary32, c: Binary32)
    requires
        a.is_finite(),
        b.is_finite(),
        c.is_finite(),
        accuracy::apart(a.value() + b.value(), 0) <= 1000 * binary32::one_in_units(),
        c.value() == a.value() + b.value(),
    ensures
        binary32::sum(a, b).is_finite(),
        binary32::sum(a, b).value() == c.value(),
{
    lemma_small();
    accuracy::law_sum_is_nearest(a, b, c);
}

/// A product of modest values is finite and off by little.
proof fn lemma_product_close(a: Binary32, b: Binary32)
    requires
        a.is_finite(),
        b.is_finite(),
        accuracy::apart(a.value(), 0) <= 200 * binary32::one_in_units(),
        accuracy::apart(b.value(), 0) <= 200 * binary32::one_in_units(),
    ensures
        ({
            let one = binary32::one_in_units();
            let r = binary32::product(a, b);
            &&& r.is_finite()
            &&& accuracy::apart(r.value() * one, a.value() * b.value()) * 0x100_0000
                <= accuracy::apart(a.value() * b.value(), 0) + one * 0x80_0000
        }),
{
    let one = binary32::one_in_units();
    lemma_small();
    let x = a.value();
    let y = b.value();
    let g = accuracy::greatest();
    assert(accuracy::apart(x * y, 0) <= g * one) by (nonlinear_arith)
        requires
            -200 * one <= x <= 200 * one,
            -200 * one <= y <= 200 * one,
            g >= one * 0x1_0000,
            one >= 0,
            accuracy::apart(x * y, 0) == if x * y < 0 {
                0 - x * y
            } else {
                x * y - 0
            },
    ;
    accuracy::law_product_is_nearest(a, b, a);
}

/// The exact weighted sum of the first `dims` values, in units.
spec fn exact_weighted(vector: Seq<Binary32>, dims: nat) -> int
    decreases dims,
{
    if dims == 0 {
        0
    } else {
        exact_weighted(vector, (dims - 1) as nat) + dims * vector[dims - 1].value()
    }
}

/// Whether all values lie within one.
spec fn within_one(v: Seq<Binary32>) -> bool {
    &&& v.len() == 14
    &&& forall|d: int|
        0 <= d < 14 ==> (#[trigger] v[d]).is_finite() && accuracy::apart(v[d].value(), 0)
            <= binary32::one_in_units()
}

proof fn lemma_weighted_close(vector: Seq<Binary32>, dims: nat)
    requires
        within_one(vector),
        dims <= 14,
    ensures
        generate::weighted_sum(vector, dims).is_finite(),
        accuracy::apart(exact_weighted(vector, dims), 0) <= 15 * dims * binary32::one_in_units(),
        accuracy::apart(exact_weighted(vector, dims), 0) * 2 <= dims * (dims + 1)
            * binary32::one_in_units(),
        accuracy::apart(
            generate::weighted_sum(vector, dims).value(),
            exact_weighted(vector, dims),
        ) <= dims * small(),
    decreases dims,
{
    let one = binary32::one_in_units() as int;
    lemma_small();
    if dims == 0 {
        assert(15 * dims * one == 0 && dims * (dims + 1) * one == 0 && dims * small() == 0)
            by (nonlinear_arith)
            requires
                dims == 0,
        ;
    } else {
        let d = (dims - 1) as nat;
        lemma_weighted_close(vector, d);
        let v = vector[d as int];
        let w = binary32::sum(binary32::from_natural(d), binary32::from_natural(1));
        binary32::lemma_natural_is_exact(d);
        binary32::lemma_natural_is_exact(1);
        binary32::lemma_natural_is_exact(dims);
        assert(d * one + 1 * one == dims * one) by (nonlinear_arith)
            requires
                dims == d + 1,
        ;
        assert(0 <= dims * one <= 14 * one) by (nonlinear_arith)
            requires
                0 <= dims <= 14,
                one >= 0,
        ;
        lemma_sum_exact(
            binary32::from_natural(d),
            binary32::from_natural(1),
            binary32::from_natural(dims),
        );
        lemma_product_close(v, w);
        let p = binary32::product(v, w);
        let x = v.value();
        let dx = dims * x;
        assert(-(14 * one) <= dx <= 14 * one && -(dims * one) <= dx <= dims * one)
            by (nonlinear_arith)
            requires
                dx == dims * x,
                -one <= x <= one,
                0 <= dims <= 14,
        ;
        // The product lies within fifteen parts in `2^24` of the exact one.
        assert(x * (dims * one) == dx * one) by (nonlinear_arith)
            requires
                dx == dims * x,
        ;
        let off = accuracy::apart(p.value(), dx);
        assert(accuracy::apart(p.value() * one, dx * one) == off * one) by (nonlinear_arith)
            requires
                off == if p.value() < dx {
                    dx - p.value()
                } else {
                    p.value() - dx
                },
                one > 0,
                accuracy::apart(p.value() * one, dx * one) == if p.value() * one < dx * one {
                    dx * one - p.value() * one
                } else {
                    p.value() * one - dx * one
                },
        ;
        assert(accuracy::apart(dx * one, 0) <= (14 * one) * one) by (nonlinear_arith)
            requires
                -(14 * one) <= dx <= 14 * one,
                one > 0,
                accuracy::apart(dx * one, 0) == if dx * one < 0 {
                    0 - dx * one
                } else {
                    dx * one - 0
                },
        ;
        assert(off * 0x100_0000 <= 14 * one + 0x80_0000) by (nonlinear_arith)
            requires
                (off * one) * 0x100_0000 <= (14 * one) * one + one * 0x80_0000,
                one > 0,
        ;
        let s = generate::weighted_sum(vector, d);
        let e = exact_weighted(vector, d);
        assert(0 <= 15 * d * one <= 195 * one) by (nonlinear_arith)
            requires
                0 <= d <= 13,
                one >= 0,
        ;
        assert(d * small() <= 13 * small()) by (nonlinear_arith)
            requires
                d <= 13,
                small() >= 0,
        ;
        lemma_sum_close(s, p);
        assert(d * small() + small() == dims * small()) by (nonlinear_arith)
            requires
                dims == d + 1,
        ;
        assert(15 * dims * one == 15 * d * one + 15 * one && dims * (dims + 1) * one == d * (d + 1)
            * one + 2 * (dims * one)) by (nonlinear_arith)
            requires
                dims == d + 1,
        ;
    }
}

/// The score of a vector within one is its weighted mean with a fifth of the noise less one
/// half, within one part in a hundred thousand.
pub proof fn law_score_is_the_noisy_mean(v: Seq<Binary32>, noise: Binary32)
    requires
        v.len() == 14,
        forall|d: int|
            0 <= d < 14 ==> (#[trigger] v[d]).is_finite() && -(binary32::one_in_units() as int)
                <= v[d].value() <= binary32::one_in_units(),
        noise.is_finite(),
        0 <= noise.value() <= binary32::one_in_units(),
    ensures
        ({
            let one = binary32::one_in_units();
            let weighted = v[0].value() + 2 * v[1].value() + 3 * v[2].value() + 4 * v[3].value() + 5
                * v[4].value() + 6 * v[5].value() + 7 * v[6].value() + 8 * v[7].value() + 9
                * v[8].value() + 10 * v[9].value() + 11 * v[10].value() + 12 * v[11].value() + 13
                * v[12].value() + 14 * v[13].value();
            let r = generate::noisy_score(v, noise);
            &&& r.is_finite()
            &&& 500 * accuracy::apart(
                210 * r.value(),
                2 * weighted + 42 * noise.value() - 21 * one,
            ) <= one
        }),
{
    lemma_weighted_terms(v);
    assert(within_one(v)) by {
        assert forall|d: int| 0 <= d < 14 implies (#[trigger] v[d]).is_finite() && accuracy::apart(
            v[d].value(),
            0,
        ) <= binary32::one_in_units() by {}
    }
    lemma_score_close(v, noise);
}

/// What a score is off.
proof fn lemma_score_close(v: Seq<Binary32>, noise: Binary32)
    requires
        within_one(v),
        noise.is_finite(),
        0 <= noise.value() <= binary32::one_in_units(),
    ensures
        generate::noisy_score(v, noise).is_finite(),
        500 * accuracy::apart(
            210 * generate::noisy_score(v, noise).value(),
            2 * exact_weighted(v, 14) + 42 * noise.value() - 21 * binary32::one_in_units(),
        ) <= binary32::one_in_units(),
{
    lemma_small();
    lemma_mean(v);
    lemma_noise(noise);
    let q = binary32::quotient(
        generate::weighted_sum(v, 14),
        binary32::from_natural(105),
    );
    let part = binary32::product(
        binary32::difference(noise, binary32::nearest_ratio(1, 2)),
        binary32::nearest_ratio(1, 5),
    );
    lemma_sum_close(q, part);
    let r = generate::noisy_score(v, noise);
    lemma_combined(
        binary32::one_in_units() as int,
        small(),
        exact_weighted(v, 14),
        q.value(),
        noise.value(),
        part.value(),
        r.value(),
    );
}

/// The mean of a vector's weighted values, and what it is off.
proof fn lemma_mean(v: Seq<Binary32>)
    requires
        within_one(v),
    ensures
        ({
            let one = binary32::one_in_units();
            let q = binary32::quotient(
                generate::weighted_sum(v, 14),
                binary32::from_natural(105),
            );
            &&& q.is_finite()
            &&& accuracy::apart(exact_weighted(v, 14), 0) <= 105 * one
            &&& accuracy::apart(105 * q.value(), exact_weighted(v, 14)) <= 15 * small()
        }),
{
    let one = binary32::one_in_units() as int;
    lemma_small();
    lemma_weighted_close(v, 14);
    let e = exact_weighted(v, 14);
    let ws = generate::weighted_sum(v, 14);
    assert(14 * (14 + 1) * one == 210 * one) by (nonlinear_arith);
    assert(-(105 * one) <= e <= 105 * one);
    let div = binary32::from_natural(105);
    binary32::lemma_natural_is_exact(105);
    let q = binary32::quotient(ws, div);
    assert(accuracy::apart(ws.value() * one, 0) <= accuracy::greatest() * (105 * one))
        by (nonlinear_arith)
        requires
            -106 * one <= ws.value() <= 106 * one,
            accuracy::greatest() >= 1000 * one,
            one > 0,
            accuracy::apart(ws.value() * one, 0) == if ws.value() * one < 0 {
                0 - ws.value() * one
            } else {
                ws.value() * one - 0
            },
    ;
    accuracy::law_quotient_is_nearest(ws, div, ws);
    lemma_quotient_off(q.value(), ws.value(), one);
}

/// A fifth of the noise less one half, and what it is off.
proof fn lemma_noise(noise: Binary32)
    requires
        noise.is_finite(),
        0 <= noise.value() <= binary32::one_in_units(),
    ensures
        ({
            let one = binary32::one_in_units();
            let part = binary32::product(
                binary32::difference(noise, binary32::nearest_ratio(1, 2)),
                binary32::nearest_ratio(1, 5),
            );
            &&& part.is_finite()
            &&& accuracy::apart(10 * part.value(), 2 * noise.value() - one) <= small()
        }),
{
    let one = binary32::one_in_units() as int;
    lemma_small();
    let half = binary32::nearest_ratio(1, 2);
    let fifth = binary32::nearest_ratio(1, 5);
    scale::lemma_half();
    accuracy::law_ratio_is_nearest(1, 5, half);
    let back = binary32::negated(half);
    assert(back.is_finite() && back.value() == -half.value());
    lemma_sum_close(noise, back);
    let diff = binary32::difference(noise, half);
    lemma_product_close(diff, fifth);
    let part = binary32::product(diff, fifth);
    lemma_fifth_off(part.value(), diff.value(), fifth.value(), one);
}

/// The parts of a score taken together.
proof fn lemma_combined(one: int, t: int, e: int, q: int, noise: int, part: int, r: int)
    requires
        one == 0x1_0000 * t,
        t > 0,
        -(105 * one) <= e <= 105 * one,
        0 <= noise <= one,
        accuracy::apart(105 * q, e) <= 15 * t,
        accuracy::apart(10 * part, 2 * noise - one) <= t,
        accuracy::apart(r, q + part) * 0x100_0000 <= accuracy::apart(q + part, 0),
    ensures
        500 * accuracy::apart(210 * r, 2 * e + 42 * noise - 21 * one) <= one,
{
}

/// What a quotient by 105 is off.
proof fn lemma_quotient_off(q: int, ws: int, one: int)
    requires
        one >= 0x1_0000_0000_0000,
        -106 * one <= ws <= 106 * one,
        accuracy::apart(q * (105 * one), ws * one) * 0x100_0000 <= accuracy::apart(ws * one, 0) + (105
            * one) * 0x80_0000,
    ensures
        accuracy::apart(105 * q, ws) * 0x100_0000 <= 107 * one,
{
    let off = accuracy::apart(105 * q, ws);
    assert(accuracy::apart(q * (105 * one), ws * one) == off * one) by (nonlinear_arith)
        requires
            off == if 105 * q < ws {
                ws - 105 * q
            } else {
                105 * q - ws
            },
            one > 0,
            accuracy::apart(q * (105 * one), ws * one) == if q * (105 * one) < ws * one {
                ws * one - q * (105 * one)
            } else {
                q * (105 * one) - ws * one
            },
    ;
    assert(accuracy::apart(ws * one, 0) <= (106 * one) * one) by (nonlinear_arith)
        requires
            -106 * one <= ws <= 106 * one,
            one > 0,
            accuracy::apart(ws * one, 0) == if ws * one < 0 {
                0 - ws * one
            } else {
                ws * one - 0
            },
    ;
    assert(off * 0x100_0000 <= 106 * one + 105 * 0x80_0000) by (nonlinear_arith)
        requires
            (off * one) * 0x100_0000 <= (106 * one) * one + (105 * one) * 0x80_0000,
            one > 0,
    ;
}

/// What a fifth of a modest value is off.
proof fn lemma_fifth_off(part: int, x: int, fifth: int, one: int)
    requires
        one >= 0x1_0000_0000_0000,
        -one <= x <= one,
        fifth >= 0,
        accuracy::apart(fifth * 5, one) * 0x100_0000 <= one + 5 * 0x80_0000,
        accuracy::apart(part * one, x * fifth) * 0x100_0000 <= accuracy::apart(x * fifth, 0) + one
            * 0x80_0000,
    ensures
        accuracy::apart(5 * part, x) * 0x100_0000 <= 12 * one,
{
    let f5 = fifth * 5 - one;
    assert(-2 * one <= f5 * 0x100_0000 <= 2 * one);
    assert(0 <= fifth <= one);
    assert(-(one * one) <= x * fifth <= one * one) by (nonlinear_arith)
        requires
            -one <= x <= one,
            0 <= fifth <= one,
    ;
    let a = part * one - x * fifth;
    assert(-2 * (one * one) <= a * 0x100_0000 <= 2 * (one * one)) by (nonlinear_arith)
        requires
            a * 0x100_0000 <= one * one + one * 0x80_0000,
            -(a * 0x100_0000) <= one * one + one * 0x80_0000,
            one >= 0x80_0000,
    ;
    // 5 * part * one - x * one == 5 * a + x * f5
    let b = x * f5;
    assert(5 * (part * one) - x * one == 5 * a + b) by (nonlinear_arith)
        requires
            a == part * one - x * fifth,
            f5 == fifth * 5 - one,
            b == x * f5,
    ;
    assert(-2 * (one * one) <= b * 0x100_0000 <= 2 * (one * one)) by (nonlinear_arith)
        requires
            b == x * f5,
            -one <= x <= one,
            -2 * one <= f5 * 0x100_0000 <= 2 * one,
    ;
    let c = 5 * part - x;
    assert(c * one == 5 * a + b) by (nonlinear_arith)
        requires
            5 * (part * one) - x * one == 5 * a + b,
            c == 5 * part - x,
    ;
    assert(c * 0x100_0000 <= 12 * one && -12 * one <= c * 0x100_0000) by (nonlinear_arith)
        requires
            c * one == 5 * a + b,
            -2 * (one * one) <= a * 0x100_0000 <= 2 * (one * one),
            -2 * (one * one) <= b * 0x100_0000 <= 2 * (one * one),
            one > 0,
    ;
}

proof fn lemma_weighted_terms(v: Seq<Binary32>)
    ensures
        exact_weighted(v, 14) == v[0].value() + 2 * v[1].value() + 3 * v[2].value() + 4
            * v[3].value() + 5 * v[4].value() + 6 * v[5].value() + 7 * v[6].value() + 8
            * v[7].value() + 9 * v[8].value() + 10 * v[9].value() + 11 * v[10].value() + 12
            * v[11].value() + 13 * v[12].value() + 14 * v[13].value(),
{
    reveal_with_fuel(exact_weighted, 15);
}

/// A generated reference is fraud where the weighted mean of its draws with a fifth
/// of its noise less one half reaches 0.52, wherever in the set it stands; only
/// within one part in fifty thousand of that does rounding decide.
pub proof fn law_labels_follow_the_mean(seed: u64, i: int)
    requires
        0 <= i,
    ensures
        ({
            let draw = |k: int| (rng::draw(seed, (15 * i + k) as nat) >> 40) as int;
            let weighted = draw(0) + 2 * draw(1) + 3 * draw(2) + 4 * draw(3) + 5 * draw(4) + 6
                * draw(5) + 7 * draw(6) + 8 * draw(7) + 9 * draw(8) + 10 * draw(9) + 11 * draw(10)
                + 12 * draw(11) + 13 * draw(12) + 14 * draw(13);
            let score = 2 * weighted + 42 * draw(14) - 21 * 0x100_0000;
            &&& 250 * score >= 27_301 * 0x100_0000 ==> generate::generated_fraud(seed, i)
            &&& 250 * score <= 27_299 * 0x100_0000 ==> !generate::generated_fraud(seed, i)
        }),
{
    let one = binary32::one_in_units() as int;
    let v = generate::generated_vector(seed, i);
    let noise = rng::uniform(seed, (15 * i + 14) as nat);
    lemma_small();
    assert forall|d: int| 0 <= d < 14 implies (#[trigger] v[d]).is_finite() && 0 <= v[d].value()
        <= one && v[d].value() * 0x100_0000 == (rng::draw(seed, (15 * i + d) as nat) >> 40)
        * one by {
        assert((15 * i) as nat + d as nat == (15 * i + d) as nat);
        rng::law_uniform_is_exact(rng::draw(seed, (15 * i + d) as nat));
    }
    rng::law_uniform_is_exact(rng::draw(seed, (15 * i + 14) as nat));
    law_score_is_the_noisy_mean(v, noise);
    let r = generate::noisy_score(v, noise);
    let c = binary32::nearest_ratio(52, 100);
    accuracy::law_ratio_is_nearest(52, 100, r);
    accuracy::law_order_is_by_value(r, c);
    let draw = |k: int| (rng::draw(seed, (15 * i + k) as nat) >> 40) as int;
    let weighted = v[0].value() + 2 * v[1].value() + 3 * v[2].value() + 4 * v[3].value() + 5
        * v[4].value() + 6 * v[5].value() + 7 * v[6].value() + 8 * v[7].value() + 9 * v[8].value()
        + 10 * v[9].value() + 11 * v[10].value() + 12 * v[11].value() + 13 * v[12].value() + 14
        * v[13].value();
    let counted = draw(0) + 2 * draw(1) + 3 * draw(2) + 4 * draw(3) + 5 * draw(4) + 6 * draw(5) + 7
        * draw(6) + 8 * draw(7) + 9 * draw(8) + 10 * draw(9) + 11 * draw(10) + 12 * draw(11) + 13
        * draw(12) + 14 * draw(13);
    assert(weighted * 0x100_0000 == counted * one) by {
        assert forall|d: int| 0 <= d < 14 implies (#[trigger] v[d]).value() * 0x100_0000 == draw(d)
            * one by {}
        lemma_terms_scale(v, draw, one);
    }
    lemma_threshold(
        one,
        weighted,
        counted,
        noise.value(),
        draw(14),
        r.value(),
        c.value(),
    );
}

proof fn lemma_terms_scale(v: Seq<Binary32>, draw: spec_fn(int) -> int, one: int)
    requires
        v.len() == 14,
        forall|d: int| 0 <= d < 14 ==> (#[trigger] v[d]).value() * 0x100_0000 == draw(d) * one,
    ensures
        (v[0].value() + 2 * v[1].value() + 3 * v[2].value() + 4 * v[3].value() + 5 * v[4].value() + 6
            * v[5].value() + 7 * v[6].value() + 8 * v[7].value() + 9 * v[8].value() + 10
            * v[9].value() + 11 * v[10].value() + 12 * v[11].value() + 13 * v[12].value() + 14
            * v[13].value()) * 0x100_0000 == (draw(0) + 2 * draw(1) + 3 * draw(2) + 4 * draw(3) + 5
            * draw(4) + 6 * draw(5) + 7 * draw(6) + 8 * draw(7) + 9 * draw(8) + 10 * draw(9) + 11
            * draw(10) + 12 * draw(11) + 13 * draw(12) + 14 * draw(13)) * one,
{
    assert forall|d: int, k: int| 0 <= d < 14 implies #[trigger] (k * draw(d)) * one == k * (draw(d)
        * one) by {
        assert((k * draw(d)) * one == k * (draw(d) * one)) by (nonlinear_arith);
    }
    let t: Seq<int> = Seq::new(14, |d: int| (d + 1) * draw(d));
    assert(forall|d: int| 0 <= d < 14 ==> #[trigger] t[d] == (d + 1) * draw(d));
    assert((t[0] + t[1] + t[2] + t[3] + t[4] + t[5] + t[6] + t[7] + t[8] + t[9] + t[10] + t[11]
        + t[12] + t[13]) * one == t[0] * one + t[1] * one + t[2] * one + t[3] * one + t[4] * one
        + t[5] * one + t[6] * one + t[7] * one + t[8] * one + t[9] * one + t[10] * one + t[11] * one
        + t[12] * one + t[13] * one) by (nonlinear_arith);
    assert forall|d: int| 0 <= d < 14 implies #[trigger] t[d] * one == (d + 1) * (v[d].value()
        * 0x100_0000) by {
        let k = d + 1;
        assert(v[d].value() * 0x100_0000 == draw(d) * one);
        assert((k * draw(d)) * one == k * (draw(d) * one));
    }
}

/// Where a score that is nearly exact lies by the exact one.
proof fn lemma_threshold(
    one: int,
    weighted: int,
    counted: int,
    noise: int,
    drawn: int,
    r: int,
    c: int,
)
    requires
        one >= 0x1_0000_0000_0000,
        weighted * 0x100_0000 == counted * one,
        noise * 0x100_0000 == drawn * one,
        500 * accuracy::apart(210 * r, 2 * weighted + 42 * noise - 21 * one) <= one,
        accuracy::apart(c * 100, 52 * one) * 0x100_0000 <= 52 * one + 100 * 0x80_0000,
    ensures
        250 * (2 * counted + 42 * drawn - 21 * 0x100_0000) >= 27_301 * 0x100_0000 ==> r >= c,
        250 * (2 * counted + 42 * drawn - 21 * 0x100_0000) <= 27_299 * 0x100_0000 ==> r < c,
{
    let exact = 2 * weighted + 42 * noise - 21 * one;
    let score = 2 * counted + 42 * drawn - 21 * 0x100_0000;
    assert(exact * 0x100_0000 == score * one) by (nonlinear_arith)
        requires
            exact == 2 * weighted + 42 * noise - 21 * one,
            score == 2 * counted + 42 * drawn - 21 * 0x100_0000,
            weighted * 0x100_0000 == counted * one,
            noise * 0x100_0000 == drawn * one,
    ;
    if 250 * score >= 27_301 * 0x100_0000 {
        assert((250 * exact) * 0x100_0000 >= (27_301 * one) * 0x100_0000) by (nonlinear_arith)
            requires
                exact * 0x100_0000 == score * one,
                250 * score >= 27_301 * 0x100_0000,
                one > 0,
        ;
    }
    if 250 * score <= 27_299 * 0x100_0000 {
        assert((250 * exact) * 0x100_0000 <= (27_299 * one) * 0x100_0000) by (nonlinear_arith)
            requires
                exact * 0x100_0000 == score * one,
                250 * score <= 27_299 * 0x100_0000,
                one > 0,
        ;
    }
}

/// The exact sum of squared differences over the first `dims` dimensions.
spec fn exact_distance(a: Seq<Binary32>, b: Seq<Binary32>, dims: nat) -> int
    decreases dims,
{
    if dims == 0 {
        0
    } else {
        let x = a[dims - 1].value() - b[dims - 1].value();
        exact_distance(a, b, (dims - 1) as nat) + x * x
    }
}

proof fn lemma_plain_close(a: Seq<Binary32>, b: Seq<Binary32>, dims: nat)
    requires
        within_one(a),
        within_one(b),
        dims <= 14,
    ensures
        ({
            let one = binary32::one_in_units();
            let r = references::plain_distance(a, b, dims);
            &&& r.is_finite()
            &&& 0 <= exact_distance(a, b, dims) <= 4 * dims * (one * one)
            &&& accuracy::apart(r.value() * one, exact_distance(a, b, dims)) <= dims * (small()
                * one)
            &&& accuracy::apart(r.value(), 0) <= 5 * dims * one
        }),
    decreases dims,
{
    let one = binary32::one_in_units() as int;
    let t = small();
    lemma_small();
    if dims == 0 {
        assert(4 * dims * (one * one) == 0 && dims * (t * one) == 0 && 5 * dims * one == 0 && 0
            * one == 0) by (nonlinear_arith)
            requires
                dims == 0,
        ;
    } else {
        let d = (dims - 1) as nat;
        lemma_plain_close(a, b, d);
        let x = a[d as int];
        let y = b[d as int];
        let back = binary32::negated(y);
        assert(back.is_finite() && back.value() == -y.value());
        lemma_sum_close(x, back);
        let diff = binary32::difference(x, y);
        lemma_product_close(diff, diff);
        let sq = binary32::product(diff, diff);
        let r = references::plain_distance(a, b, d);
        lemma_square_off(sq.value(), diff.value(), x.value() - y.value(), one, t);
        assert(0 <= 5 * d * one <= 65 * one) by (nonlinear_arith)
            requires
                0 <= d <= 13,
                one > 0,
        ;
        lemma_sum_close(r, sq);
        let s = references::plain_distance(a, b, dims);
        lemma_distance_step(
            s.value(),
            r.value(),
            sq.value(),
            exact_distance(a, b, d),
            x.value() - y.value(),
            one,
            t,
            d as int,
        );
    }
}

/// What the square of a rounded difference is off.
proof fn lemma_square_off(sq: int, diff: int, x: int, one: int, t: int)
    requires
        one == 0x1_0000 * t,
        t >= 0x1_0000_0000,
        -2 * one <= x <= 2 * one,
        accuracy::apart(diff, x) * 0x100_0000 <= accuracy::apart(x, 0),
        accuracy::apart(sq * one, diff * diff) * 0x100_0000 <= accuracy::apart(diff * diff, 0) + one
            * 0x80_0000,
    ensures
        accuracy::apart(sq * one, x * x) * 0x100_0000 <= 20 * (one * one),
        0 <= x * x <= 4 * (one * one),
        accuracy::apart(sq, 0) <= 5 * one,
{
    assert(0 <= x * x <= 4 * (one * one)) by (nonlinear_arith)
        requires
            -2 * one <= x <= 2 * one,
    ;
    let e = diff - x;
    assert(-2 * one <= e * 0x100_0000 <= 2 * one);
    assert(diff * diff == x * x + e * (diff + x)) by (nonlinear_arith)
        requires
            e == diff - x,
    ;
    let s = diff + x;
    assert(-5 * one <= s <= 5 * one);
    assert(-10 * (one * one) <= (e * s) * 0x100_0000 <= 10 * (one * one)) by (nonlinear_arith)
        requires
            -2 * one <= e * 0x100_0000 <= 2 * one,
            -5 * one <= s <= 5 * one,
            one > 0,
    ;
    assert(diff * diff >= 0) by (nonlinear_arith);
    assert(one * 0x80_0000 <= one * one) by (nonlinear_arith)
        requires
            one >= 0x80_0000,
    ;
    assert(one * one >= 0) by (nonlinear_arith)
        requires
            one > 0,
    ;
    let a = sq * one;
    assert(-20 * (one * one) <= (a - x * x) * 0x100_0000 <= 20 * (one * one));
    assert(-5 * one <= sq <= 5 * one) by (nonlinear_arith)
        requires
            -20 * (one * one) <= (sq * one - x * x) * 0x100_0000 <= 20 * (one * one),
            0 <= x * x <= 4 * (one * one),
            one > 0,
    ;
}

/// One more dimension of a distance.
proof fn lemma_distance_step(
    s: int,
    r: int,
    sq: int,
    e: int,
    x: int,
    one: int,
    t: int,
    d: int,
)
    requires
        one == 0x1_0000 * t,
        t >= 0x1_0000_0000,
        0 <= d <= 13,
        accuracy::apart(r * one, e) <= d * (t * one),
        0 <= e <= 4 * d * (one * one),
        accuracy::apart(r, 0) <= 5 * d * one,
        accuracy::apart(sq * one, x * x) * 0x100_0000 <= 20 * (one * one),
        0 <= x * x <= 4 * (one * one),
        accuracy::apart(sq, 0) <= 5 * one,
        accuracy::apart(s, r + sq) * 0x100_0000 <= accuracy::apart(r + sq, 0),
    ensures
        accuracy::apart(s * one, e + x * x) <= (d + 1) * (t * one),
        0 <= e + x * x <= 4 * (d + 1) * (one * one),
        accuracy::apart(s, 0) <= 5 * (d + 1) * one,
{
    let oo = one * one;
    let to = t * one;
    assert(oo == 0x1_0000 * to && to > 0) by (nonlinear_arith)
        requires
            oo == one * one,
            to == t * one,
            one == 0x1_0000 * t,
            t > 0,
    ;
    assert(4 * (d + 1) * oo == 4 * d * oo + 4 * oo && (d + 1) * to == d * to + to && 5 * (d + 1)
        * one == 5 * d * one + 5 * one) by (nonlinear_arith);
    assert(0 <= 5 * d * one <= 65 * one && 0 <= d * to <= 13 * to && 0 <= 4 * d * oo <= 52 * oo)
        by (nonlinear_arith)
        requires
            0 <= d <= 13,
            one > 0,
            to > 0,
            oo > 0,
    ;
    let w = s - (r + sq);
    assert(-70 * one <= w * 0x100_0000 <= 70 * one);
    assert(-70 * oo <= (w * one) * 0x100_0000 <= 70 * oo) by (nonlinear_arith)
        requires
            -70 * one <= w * 0x100_0000 <= 70 * one,
            oo == one * one,
            one > 0,
    ;
    assert(s * one == r * one + sq * one + w * one) by (nonlinear_arith)
        requires
            w == s - (r + sq),
    ;
    // The distance itself follows from how near it lies to the exact one.
    assert(accuracy::apart(s * one, e + x * x) <= (d + 1) * to);
    assert(-(5 * (d + 1) * one) <= s <= 5 * (d + 1) * one) by {
        let f = d + 1;
        assert(s * one <= 4 * f * oo + f * to && s * one >= -(f * to));
        assert(f * to <= f * oo && f * oo >= 0) by (nonlinear_arith)
            requires
                oo == 0x1_0000 * to,
                to > 0,
                f >= 0,
        ;
        assert(4 * f * oo == 4 * (f * oo) && 5 * f * oo == 5 * (f * oo)) by (nonlinear_arith);
        assert(s <= 5 * f * one && s >= -(5 * f * one)) by (nonlinear_arith)
            requires
                s * one <= 5 * f * oo,
                s * one >= -(f * oo),
                oo == one * one,
                one > 0,
                f >= 0,
        ;
    }
}

/// The plain distance of two vectors within one is the sum of their squared
/// differences, to three decimal places.
pub proof fn law_plain_distance_is_the_sum_of_squares(
    a: Seq<Binary32>,
    b: Seq<Binary32>,
    diffs: Seq<int>,
)
    requires
        a.len() == 14,
        b.len() == 14,
        diffs.len() == 14,
        forall|d: int|
            0 <= d < 14 ==> (#[trigger] a[d]).is_finite() && -(binary32::one_in_units() as int)
                <= a[d].value() <= binary32::one_in_units(),
        forall|d: int|
            0 <= d < 14 ==> (#[trigger] b[d]).is_finite() && -(binary32::one_in_units() as int)
                <= b[d].value() <= binary32::one_in_units(),
        forall|d: int| 0 <= d < 14 ==> #[trigger] diffs[d] == a[d].value() - b[d].value(),
    ensures
        ({
            let one = binary32::one_in_units();
            let r = references::plain_distance(a, b, 14);
            &&& r.is_finite()
            &&& 1000 * accuracy::apart(
                r.value() * one,
                diffs[0] * diffs[0] + diffs[1] * diffs[1] + diffs[2] * diffs[2] + diffs[3]
                    * diffs[3] + diffs[4] * diffs[4] + diffs[5] * diffs[5] + diffs[6] * diffs[6]
                    + diffs[7] * diffs[7] + diffs[8] * diffs[8] + diffs[9] * diffs[9] + diffs[10]
                    * diffs[10] + diffs[11] * diffs[11] + diffs[12] * diffs[12] + diffs[13]
                    * diffs[13],
            ) <= one * one
        }),
{
    let one = binary32::one_in_units() as int;
    lemma_small();
    lemma_plain_close(a, b, 14);
    lemma_exact_terms(a, b, diffs);
    let t = small();
    assert(one * one == 0x1_0000 * (t * one) && t * one > 0) by (nonlinear_arith)
        requires
            one == 0x1_0000 * t,
            t > 0,
    ;
}

proof fn lemma_exact_terms(a: Seq<Binary32>, b: Seq<Binary32>, diffs: Seq<int>)
    requires
        diffs.len() == 14,
        forall|d: int| 0 <= d < 14 ==> #[trigger] diffs[d] == a[d].value() - b[d].value(),
    ensures
        exact_distance(a, b, 14) == diffs[0] * diffs[0] + diffs[1] * diffs[1] + diffs[2] * diffs[2]
            + diffs[3] * diffs[3] + diffs[4] * diffs[4] + diffs[5] * diffs[5] + diffs[6] * diffs[6]
            + diffs[7] * diffs[7] + diffs[8] * diffs[8] + diffs[9] * diffs[9] + diffs[10]
            * diffs[10] + diffs[11] * diffs[11] + diffs[12] * diffs[12] + diffs[13] * diffs[13],
{
    assert forall|d: int| 0 <= d < 14 implies exact_distance(a, b, (d + 1) as nat)
        == #[trigger] exact_distance(a, b, d as nat) + diffs[d] * diffs[d] by {
        assert(diffs[d] == a[d].value() - b[d].value());
    }
    assert(exact_distance(a, b, 1) == exact_distance(a, b, 0) + diffs[0] * diffs[0]);
    assert(exact_distance(a, b, 2) == exact_distance(a, b, 1) + diffs[1] * diffs[1]);
    assert(exact_distance(a, b, 3) == exact_distance(a, b, 2) + diffs[2] * diffs[2]);
    assert(exact_distance(a, b, 4) == exact_distance(a, b, 3) + diffs[3] * diffs[3]);
    assert(exact_distance(a, b, 5) == exact_distance(a, b, 4) + diffs[4] * diffs[4]);
    assert(exact_distance(a, b, 6) == exact_distance(a, b, 5) + diffs[5] * diffs[5]);
    assert(exact_distance(a, b, 7) == exact_distance(a, b, 6) + diffs[6] * diffs[6]);
    assert(exact_distance(a, b, 8) == exact_distance(a, b, 7) + diffs[7] * diffs[7]);
    assert(exact_distance(a, b, 9) == exact_distance(a, b, 8) + diffs[8] * diffs[8]);
    assert(exact_distance(a, b, 10) == exact_distance(a, b, 9) + diffs[9] * diffs[9]);
    assert(exact_distance(a, b, 11) == exact_distance(a, b, 10) + diffs[10] * diffs[10]);
    assert(exact_distance(a, b, 12) == exact_distance(a, b, 11) + diffs[11] * diffs[11]);
    assert(exact_distance(a, b, 13) == exact_distance(a, b, 12) + diffs[12] * diffs[12]);
}

/// A reference is fraud exactly where its score is not below the value nearest to
/// 0.52.
pub proof fn law_labels_are_set_from_the_limit_on(seed: u64, i: int)
    requires
        0 <= i,
    ensures
        ({
            let score = generate::noisy_score(
                generate::generated_vector(seed, i),
                rng::uniform(seed, (15 * i + 14) as nat),
            );
            score.is_finite() && (generate::generated_fraud(seed, i) <==> score.value()
                >= binary32::nearest_ratio(52, 100).value())
        }),
{
    let one = binary32::one_in_units() as int;
    let v = generate::generated_vector(seed, i);
    let noise = rng::uniform(seed, (15 * i + 14) as nat);
    assert forall|d: int| 0 <= d < 14 implies (#[trigger] v[d]).is_finite() && 0 <= v[d].value()
        <= one by {
        generate::law_references_are_drawn(seed, i, d);
        rng::law_uniform_is_exact(rng::draw(seed, (15 * i + d) as nat));
    }
    rng::law_uniform_is_exact(rng::draw(seed, (15 * i + 14) as nat));
    law_score_is_the_noisy_mean(v, noise);
    let c = binary32::nearest_ratio(52, 100);
    accuracy::law_ratio_is_nearest(52, 100, noise);
    accuracy::law_order_is_by_value(generate::noisy_score(v, noise), c);
}

/// Whether a value stands for `k` ten-thousandths.
pub open spec fn is_ten_thousandths(v: Binary32, k: int) -> bool {
    let one = binary32::one_in_units() as int;
    v.is_finite() && 100 * accuracy::apart(10_000 * v.value(), k * one) <= one
}

/// What rounding to four places leaves of a value within one.
proof fn lemma_ten_thousandths(one: int, x: int, p: int, k: int, part: int, res: int)
    requires
        one >= 0x1_0000_0000_0000,
        -one <= x <= one,
        accuracy::apart(p * one, x * (10_000 * one)) * 0x100_0000 <= accuracy::apart(
            x * (10_000 * one),
            0,
        ) + one * 0x80_0000,
        2 * accuracy::apart(k * one, p) <= one,
        accuracy::apart(part * 10_000, one) * 0x100_0000 <= one + 10_000 * 0x80_0000,
        accuracy::apart(res * one, (k * one) * part) * 0x100_0000 <= accuracy::apart(
            (k * one) * part,
            0,
        ) + one * 0x80_0000,
    ensures
        100 * accuracy::apart(10_000 * res, k * one) <= one,
        500 * accuracy::apart(10_000 * x, k * one) <= 251 * one,
{
    let e = p - 10_000 * x;
    let r = k * one;
    let oo = one * one;
    assert(oo >= 0x1_0000_0000_0000 * one) by (nonlinear_arith)
        requires
            oo == one * one,
            one >= 0x1_0000_0000_0000,
    ;
    assert(p * one - x * (10_000 * one) == e * one && -(10_000 * oo) <= x * (10_000 * one) <= 10_000
        * oo) by (nonlinear_arith)
        requires
            e == p - 10_000 * x,
            -one <= x <= one,
            oo == one * one,
    ;
    assert(-(10_000 * one + 0x80_0000) <= e * 0x100_0000 <= 10_000 * one + 0x80_0000)
        by (nonlinear_arith)
        requires
            -(10_000 * oo + one * 0x80_0000) <= (e * one) * 0x100_0000 <= 10_000 * oo + one
                * 0x80_0000,
            oo == one * one,
            one > 0,
    ;
    assert(-10_002 * one <= r <= 10_002 * one);
    let g = 10_000 * part - one;
    assert(-2 * one <= g * 0x100_0000 <= 2 * one);
    let y = r * part;
    assert(10_000 * y == r * one + r * g) by (nonlinear_arith)
        requires
            y == r * part,
            g == 10_000 * part - one,
    ;
    assert(-(10_002 * oo) <= r * one <= 10_002 * oo && -(20_004 * oo) <= (r * g) * 0x100_0000
        <= 20_004 * oo) by (nonlinear_arith)
        requires
            -10_002 * one <= r <= 10_002 * one,
            -2 * one <= g * 0x100_0000 <= 2 * one,
            oo == one * one,
            one > 0,
    ;
    let f = res * one - y;
    assert(-(4 * oo) <= f * 0x100_0000 <= 4 * oo);
    let h = 10_000 * res - r;
    assert(h * one == r * g + 10_000 * f) by (nonlinear_arith)
        requires
            h == 10_000 * res - r,
            f == res * one - y,
            10_000 * y == r * one + r * g,
    ;
    assert(-oo <= 100 * (h * one) <= oo);
    assert(-one <= 100 * h <= one) by (nonlinear_arith)
        requires
            -oo <= 100 * (h * one) <= oo,
            oo == one * one,
            one > 0,
    ;
}

/// A value within one is rounded to a whole number of ten-thousandths, one that
/// lies at most half of one from it.
pub proof fn law_rounded_to_ten_thousandths(v: Binary32)
    requires
        v.is_finite(),
        -(binary32::one_in_units() as int) <= v.value() <= binary32::one_in_units(),
    ensures
        exists|k: int|
            #[trigger] is_ten_thousandths(payload::rounded4(v), k) && 500 * accuracy::apart(
                10_000 * v.value(),
                k * binary32::one_in_units(),
            ) <= 251 * binary32::one_in_units(),
{
    let one = binary32::one_in_units() as int;
    let x = v.value();
    lemma_small();
    let ten = binary32::from_natural(10_000);
    binary32::lemma_natural_is_exact(10_000);
    assert(ten.value() == 10_000 * one);
    let p = binary32::product(v, ten);
    let g = accuracy::greatest() as int;
    assert(-(g * one) <= x * (10_000 * one) <= g * one) by (nonlinear_arith)
        requires
            -one <= x <= one,
            g >= one * 0x1_0000,
            one > 0,
    ;
    accuracy::law_product_is_nearest(v, ten, v);
    lemma_times_ten_thousand(one, x, p.value());
    accuracy::law_rounded_is_nearest_whole(p);
    let r = binary32::rounded(p);
    let k = r.value() / one;
    vstd::arithmetic::div_mod::lemma_fundamental_div_mod(r.value(), one);
    assert(r.value() == k * one) by (nonlinear_arith)
        requires
            r.value() == one * k + r.value() % one,
            r.value() % one == 0,
    ;
    let part = binary32::nearest_ratio(1, 10_000);
    accuracy::law_ratio_is_nearest(1, 10_000, v);
    assert(1 * one == one);
    let y = r.value() * part.value();
    assert(-(g * one) <= y <= g * one) by (nonlinear_arith)
        requires
            y == r.value() * part.value(),
            -10_002 * one <= r.value() <= 10_002 * one,
            0 <= part.value() <= one,
            g >= one * 0x1_0000,
            one > 0,
    ;
    accuracy::law_product_is_nearest(r, part, v);
    let res = payload::rounded4(v);
    assert(res == binary32::product(r, part));
    lemma_ten_thousandths(one, x, p.value(), k, part.value(), res.value());
    assert(is_ten_thousandths(res, k));
}

proof fn lemma_times_ten_thousand(one: int, x: int, p: int)
    requires
        one >= 0x1_0000_0000_0000,
        -one <= x <= one,
        accuracy::apart(p * one, x * (10_000 * one)) * 0x100_0000 <= accuracy::apart(
            x * (10_000 * one),
            0,
        ) + one * 0x80_0000,
    ensures
        -10_001 * one <= p <= 10_001 * one,
{
    let e = p - 10_000 * x;
    let oo = one * one;
    assert(p * one - x * (10_000 * one) == e * one && -(10_000 * oo) <= x * (10_000 * one) <= 10_000
        * oo) by (nonlinear_arith)
        requires
            e == p - 10_000 * x,
            -one <= x <= one,
            oo == one * one,
    ;
    assert(-(10_000 * one + 0x80_0000) <= e * 0x100_0000 <= 10_000 * one + 0x80_0000)
        by (nonlinear_arith)
        requires
            -(10_000 * oo + one * 0x80_0000) <= (e * one) * 0x100_0000 <= 10_000 * oo + one
                * 0x80_0000,
            oo == one * one,
            one > 0,
    ;
}

/// Coordinates on the scale of one are whole ten-thousandths of the value held
/// between zero and one.
pub proof fn law_coordinates_are_ten_thousandths(v: Binary32)
    ensures
        v.is_nan() ==> payload::unit_value(v).is_nan(),
        v.is_infinite() && v.negative() ==> payload::unit_value(v).value() == 0,
        v.is_infinite() && !v.negative() ==> payload::unit_value(v).value()
            == binary32::one_in_units(),
        v.is_finite() && 0 <= v.value() <= binary32::one_in_units() ==> exists|k: int|
            #[trigger] is_ten_thousandths(payload::unit_value(v), k) && 500 * accuracy::apart(
                10_000 * v.value(),
                k * binary32::one_in_units(),
            ) <= 251 * binary32::one_in_units(),
        v.is_finite() && v.value() < 0 ==> payload::unit_value(v).value() == 0,
        v.is_finite() && v.value() > binary32::one_in_units() ==> payload::unit_value(v).value()
            == binary32::one_in_units(),
{
    let zero = binary32::zero();
    let top = binary32::from_natural(1);
    binary32::lemma_natural_is_exact(1);
    assert(zero.value() == 0);
    assert(top.value() == 1 * binary32::one_in_units());
    assert(1 * binary32::one_in_units() == binary32::one_in_units());
    accuracy::law_clamped_to_the_bounds(v, zero, top);
    if v.is_nan() {
        accuracy::law_no_number_spreads(v, binary32::from_natural(10_000));
        let p = binary32::product(v, binary32::from_natural(10_000));
        accuracy::law_no_number_spreads(p, binary32::nearest_ratio(1, 10_000));
        accuracy::law_no_number_spreads(
            binary32::rounded(p),
            binary32::nearest_ratio(1, 10_000),
        );
    } else {
        payload::lemma_rounded4_in_unit(zero);
        scale::lemma_rounded4_of_one(top);
        if v.is_finite() && 0 <= v.value() <= binary32::one_in_units() {
            law_rounded_to_ten_thousandths(v);
            assert(payload::unit_value(v) == payload::rounded4(v));
            let k = choose|k: int|
                #[trigger] is_ten_thousandths(payload::rounded4(v), k) && 500 * accuracy::apart(
                    10_000 * v.value(),
                    k * binary32::one_in_units(),
                ) <= 251 * binary32::one_in_units();
            assert(is_ten_thousandths(payload::unit_value(v), k));
        }
    }
}

/// A clamped value that is a number is a whole number of ten-thousandths.
proof fn lemma_unit_value_in_steps(q: Binary32) -> (k: int)
    ensures
        !payload::unit_value(q).is_nan() ==> is_ten_thousandths(payload::unit_value(q), k),
{
    law_coordinates_are_ten_thousandths(q);
    let one = binary32::one_in_units() as int;
    if q.is_nan() {
        0
    } else {
        payload::law_unit_value(q);
        if q.is_finite() && 0 <= q.value() <= one {
            choose|k: int|
                #[trigger] is_ten_thousandths(payload::unit_value(q), k) && 500 * accuracy::apart(
                    10_000 * q.value(),
                    k * binary32::one_in_units(),
                ) <= 251 * binary32::one_in_units()
        } else if payload::unit_value(q).value() == 0 {
            assert(0 * one == 0);
            0
        } else {
            10_000
        }
    }
}

/// Every coordinate of a request but the listed risk is a whole number of
/// ten-thousandths, or no number.
pub proof fn law_requests_in_ten_thousandths(
    payload: FraudPayload,
    config: RuntimeConfig,
    dim: int,
)
    requires
        payload::requested_at_ok(payload),
        0 <= dim < 14,
        dim != 12,
        !payload::vector_of(payload, config)[dim].is_nan(),
    ensures
        exists|k: int| #[trigger] is_ten_thousandths(payload::vector_of(payload, config)[dim], k),
{
    let n = config.normalization;
    let v = payload::vector_of(payload, config)[dim];
    let one = binary32::one_in_units() as int;
    binary32::lemma_natural_is_exact(0);
    binary32::lemma_natural_is_exact(1);
    assert(0 * one == 0 && 1 * one == one && -10_000 * one == -(10_000 * one));
    if dim == 3 || dim == 4 {
        let requested = encode_utf8(payload.transaction.requested_at@);
        let count = if dim == 3 {
            timestamp::field(requested, 11, 13)
        } else {
            ((timestamp::timestamp_days(requested) + 3) % 7) as nat
        };
        let most: nat = if dim == 3 {
            23
        } else {
            6
        };
        scale::lemma_clock_share(count, most);
        let k = lemma_unit_value_in_steps(
            binary32::quotient(binary32::from_natural(count), binary32::from_natural(most)),
        );
        assert(is_ten_thousandths(v, k));
    } else if 9 <= dim <= 11 {
        if v.value() == 0 {
            assert(is_ten_thousandths(v, 0));
        } else {
            assert(is_ten_thousandths(v, 10_000));
        }
    } else if (dim == 5 || dim == 6) && payload.last_transaction is None {
        assert(is_ten_thousandths(v, -10_000));
    } else if dim == 2 && !binary32::less(binary32::zero(), payload.customer.avg_amount) {
        assert(is_ten_thousandths(v, 10_000));
    } else {
        let q = if dim == 0 {
            binary32::quotient(payload.transaction.amount, n.max_amount)
        } else if dim == 1 {
            binary32::quotient(
                binary32::from_natural(payload.transaction.installments as nat),
                n.max_installments,
            )
        } else if dim == 2 {
            binary32::quotient(
                binary32::quotient(payload.transaction.amount, payload.customer.avg_amount),
                n.amount_vs_avg_ratio,
            )
        } else if dim == 5 {
            binary32::quotient(
                binary32::from_natural(
                    payload::minutes_between(
                        payload.last_transaction->0.timestamp@,
                        payload.transaction.requested_at@,
                    ),
                ),
                n.max_minutes,
            )
        } else if dim == 6 {
            binary32::quotient(payload.last_transaction->0.km_from_current, n.max_km)
        } else if dim == 7 {
            binary32::quotient(payload.terminal.km_from_home, n.max_km)
        } else if dim == 8 {
            binary32::quotient(
                binary32::from_natural(payload.customer.tx_count_24h as nat),
                n.max_tx_count_24h,
            )
        } else {
            binary32::quotient(payload.merchant.avg_amount, n.max_merchant_avg_amount)
        };
        assert(v == payload::unit_value(q));
        let k = lemma_unit_value_in_steps(q);
        assert(is_ten_thousandths(v, k));
    }
}

} // verus!
