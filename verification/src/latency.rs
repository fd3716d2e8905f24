//! Order statistics of measured durations.

use vstd::prelude::*;
use vstd::arithmetic::div_mod::*;
use vstd::arithmetic::power2::*;
use crate::plan;
use crate::rounding;

verus! {

/// The parts of one that shares are counted in.
pub const UNITS: u128 = 0x800_0000_0000_0000;

/// The least, the greatest and three percentiles of durations in nanoseconds.
#[derive(Clone, Copy, Debug, PartialEq, Eq, Structural)]
pub struct LatencyStats {
    pub min_ns: u64,
    pub p50_ns: u64,
    pub p95_ns: u64,
    pub p99_ns: u64,
    pub max_ns: u64,
}

/// Whether values rise from the first to the last.
pub open spec fn rising(s: Seq<u64>) -> bool {
    forall|i: int, j: int| 0 <= i <= j < s.len() ==> #[trigger] s[i] <= #[trigger] s[j]
}

/// How many low bits of `t` do not fit a 53-bit significand.
pub open spec fn excess_bits(t: nat) -> nat
    decreases t,
{
    if t < 0x20_0000_0000_0000 {
        0
    } else {
        1 + excess_bits(t / 2)
    }
}

/// The nearest number to `n / d` with 53 significant bits, ties to even.
pub open spec fn significant(n: nat, d: nat) -> nat {
    let unit = pow2(excess_bits(n / d));
    rounding::nearest_even(n, d * unit) * unit
}

/// The binary64 value nearest to a percentage, in units of `2^-59`.
pub open spec fn share(percent: nat) -> nat {
    significant(percent * UNITS as nat, 100)
}

/// The position of a percentile among `len` values in rising order: that share
/// of the way from the first to the last in binary64 arithmetic, rounded up.
pub open spec fn percentile_rank(len: int, percent: int) -> int {
    let way = significant((len - 1) as nat, 1);
    plan::groups(significant(share(percent as nat) * way, 1) as int, UNITS as int)
}

/// The statistics of values in rising order.
pub open spec fn stats_of(sorted: Seq<u64>) -> LatencyStats {
    let len = sorted.len() as int;
    LatencyStats {
        min_ns: sorted[0],
        p50_ns: sorted[percentile_rank(len, 50)],
        p95_ns: sorted[percentile_rank(len, 95)],
        p99_ns: sorted[percentile_rank(len, 99)],
        max_ns: sorted[len - 1],
    }
}

/// Puts values in rising order, as `slice::sort` does: the same values, each as
/// often as before.
#[verifier::external_body]
fn sort_values(values: &mut Vec<u64>)
    ensures
        rising(final(values)@),
        final(values)@.to_multiset() == old(values)@.to_multiset(),
{
    values.sort();
}

/// Without its excess bits a number is a 53-bit significand.
proof fn lemma_excess_bounds(t: nat)
    ensures
        t / pow2(excess_bits(t)) < 0x20_0000_0000_0000,
        excess_bits(t) > 0 ==> t / pow2(excess_bits(t)) >= 0x10_0000_0000_0000,
    decreases t,
{
    lemma2_to64();
    lemma_div_basics_2(t as int);
    if t >= 0x20_0000_0000_0000 {
        let q = excess_bits(t / 2);
        lemma_excess_bounds(t / 2);
        lemma_pow2_pos(q);
        lemma_pow2_unfold(q + 1);
        lemma_div_denominator(t as int, 2, pow2(q) as int);
    }
}

/// Larger numbers have no fewer excess bits.
proof fn lemma_excess_monotone(a: nat, b: nat)
    requires
        a <= b,
    ensures
        excess_bits(a) <= excess_bits(b),
    decreases b,
{
    if a >= 0x20_0000_0000_0000 {
        lemma_excess_monotone(a / 2, b / 2);
    }
}

/// Rounding to 53 bits keeps the order.
proof fn lemma_significant_monotone(a: nat, b: nat, d: nat)
    requires
        a <= b,
        d > 0,
    ensures
        significant(a, d) <= significant(b, d),
{
    let q = excess_bits(a / d);
    let r = excess_bits(b / d);
    let low = pow2(q);
    let high = pow2(r);
    lemma_div_is_ordered(a as int, b as int, d as int);
    lemma_excess_monotone(a / d, b / d);
    lemma_excess_bounds(a / d);
    lemma_excess_bounds(b / d);
    lemma_pow2_pos(q);
    lemma_pow2_pos(r);
    lemma_div_denominator(a as int, d as int, low as int);
    lemma_div_denominator(b as int, d as int, high as int);
    assert(d * low > 0 && d * high > 0) by (nonlinear_arith)
        requires
            d > 0,
            low > 0,
            high > 0,
    ;
    let x = rounding::nearest_even(a, d * low);
    let y = rounding::nearest_even(b, d * high);
    rounding::lemma_nearest_even_monotone(a, a, d * low);
    rounding::lemma_nearest_even_monotone(b, b, d * high);
    if q == r {
        rounding::lemma_nearest_even_monotone(a, b, d * low);
        assert(x * low <= y * low) by (nonlinear_arith)
            requires
                x <= y,
        ;
    } else {
        lemma_pow2_unfold(r);
        if q < r - 1 {
            lemma_pow2_strictly_increases(q, (r - 1) as nat);
        }
        assert(x * low <= y * high) by (nonlinear_arith)
            requires
                x <= 0x20_0000_0000_0000,
                y >= 0x10_0000_0000_0000,
                2 * low <= high,
        ;
    }
}

/// Rounding to 53 bits moves a number by at most one part in `2^52`, where it has
/// that many wholes or is whole itself.
proof fn lemma_significant_near(n: nat, d: nat)
    requires
        d > 0,
        n % d == 0 || n / d >= 0x10_0000_0000_0000,
    ensures
        significant(n, d) * d * 0x10_0000_0000_0000 <= n * 0x10_0000_0000_0001,
        n * 0xf_ffff_ffff_ffff <= significant(n, d) * d * 0x10_0000_0000_0000,
        n <= 2 * (significant(n, d) * d),
{
    let t = n / d;
    let e = excess_bits(t);
    let unit = pow2(e);
    let w = d * unit;
    let q = rounding::nearest_even(n, w);
    lemma2_to64();
    lemma_excess_bounds(t);
    lemma_pow2_pos(e);
    lemma_div_denominator(n as int, d as int, unit as int);
    assert(w > 0) by (nonlinear_arith)
        requires
            w == d * unit,
            d > 0,
            unit > 0,
    ;
    lemma_fundamental_div_mod(n as int, w as int);
    lemma_mod_bound(n as int, w as int);
    let k = n / w;
    let r = n % w;
    assert(q * unit * d == q * w) by (nonlinear_arith)
        requires
            w == d * unit,
    ;
    if n % d == 0 && e == 0 {
        assert(w == d) by (nonlinear_arith)
            requires
                w == d * unit,
                unit == 1,
        ;
        assert(q == k);
        assert(q * w == n) by (nonlinear_arith)
            requires
                n == w * k + r,
                q == k,
                r == 0,
        ;
    } else {
        if e == 0 {
            assert(unit == 1);
            lemma_div_basics_2(t as int);
        }
        assert(k >= 0x10_0000_0000_0000);
        assert(q * w * 0x10_0000_0000_0000 <= n * 0x10_0000_0000_0001 && n * 0xf_ffff_ffff_ffff <= q
            * w * 0x10_0000_0000_0000 && n <= 2 * (q * w)) by (nonlinear_arith)
            requires
                n == w * k + r,
                0 <= r < w,
                q == k && 2 * r <= w || q == k + 1 && 2 * r >= w,
                k >= 0x10_0000_0000_0000,
        ;
    }
}

/// Rounds `n / d` to 53 significant bits.
fn round_significant(n: u128, d: u128) -> (r: u128)
    requires
        d > 0,
        n < 0x1000_0000_0000_0000_0000_0000_0000_0000,
    ensures
        r == significant(n as nat, d as nat),
{
    let mut rest: u128 = n / d;
    let mut unit: u128 = 1;
    let ghost mut e: nat = 0;
    proof {
        lemma2_to64();
        assert((n / d) * d <= n) by (nonlinear_arith)
            requires
                d > 0,
        ;
        assert((n / d) * 1 == n / d) by (nonlinear_arith);
    }
    while rest >= 0x20_0000_0000_0000
        invariant
            unit == pow2(e),
            excess_bits(n as nat / d as nat) == e + excess_bits(rest as nat),
            rest * unit <= n / d,
            n < 0x1000_0000_0000_0000_0000_0000_0000_0000,
            d > 0,
            n / d <= n,
        decreases rest,
    {
        proof {
            lemma_pow2_unfold(e + 1);
            assert((rest / 2) * (2 * unit) <= rest * unit) by (nonlinear_arith);
            assert(unit <= rest * unit) by (nonlinear_arith)
                requires
                    rest >= 1,
            ;
            e = e + 1;
        }
        rest = rest / 2;
        unit = unit * 2;
    }
    proof {
        lemma_pow2_pos(e);
        assert(d * unit <= n || unit == 1) by {
            if e > 0 {
                lemma_excess_bounds(n as nat / d as nat);
                lemma_div_denominator(n as int, d as int, unit as int);
                let w = d as int * unit;
                assert(w > 0) by (nonlinear_arith)
                    requires
                        w == d as int * unit,
                        d > 0,
                        unit > 0,
                ;
                lemma_fundamental_div_mod(n as int, w);
                lemma_mod_bound(n as int, w);
                let k = n as int / w;
                assert(w <= n) by (nonlinear_arith)
                    requires
                        n == w * k + n as int % w,
                        n as int % w >= 0,
                        k >= 1,
                        w > 0,
                ;
            }
        }
        assert(e == 0 ==> unit == 1);
        assert(d * 1 == d) by (nonlinear_arith);
        assert(0 < d * unit) by (nonlinear_arith)
            requires
                d > 0,
                unit > 0,
        ;
    }
    let step: u128 = d * unit;
    let whole: u128 = n / step;
    let left: u128 = n % step;
    proof {
        lemma_fundamental_div_mod(n as int, step as int);
        assert(whole * unit <= n && whole <= n) by (nonlinear_arith)
            requires
                n == step * whole + left,
                left >= 0,
                step == d * unit,
                d >= 1,
                unit >= 1,
                whole >= 0,
        ;
        assert((whole + 1) * unit == whole * unit + unit) by (nonlinear_arith);
        assert(unit <= step) by (nonlinear_arith)
            requires
                step == d * unit,
                d >= 1,
        ;
    }
    let up: bool = left > step - left || (left == step - left && whole % 2 == 1);
    if up {
        (whole + 1) * unit
    } else {
        whole * unit
    }
}

/// A percentile of values in rising order.
pub fn percentile(sorted: &[u64], percent: u32) -> (r: u64)
    requires
        sorted@.len() > 0,
        percentile_rank(sorted@.len() as int, percent as int) < sorted@.len(),
    ensures
        r == sorted@[percentile_rank(sorted@.len() as int, percent as int)],
{
    let last: usize = sorted.len() - 1;
    let ghost s = share(percent as nat);
    let ghost m = significant(last as nat, 1);
    let ghost t = significant(s * m, 1);
    proof {
        plan::lemma_groups(t as int, UNITS as int);
        lemma_significant_near(s * m, 1);
        assert(t <= last * UNITS) by (nonlinear_arith)
            requires
                plan::groups(t as int, UNITS as int) * UNITS >= t,
                plan::groups(t as int, UNITS as int) <= last,
                UNITS > 0,
        ;
        assert(last * UNITS <= 0xffff_ffff_ffff_ffff * 0x800_0000_0000_0000) by (nonlinear_arith)
            requires
                0 <= last <= 0xffff_ffff_ffff_ffff,
                UNITS == 0x800_0000_0000_0000,
        ;
    }
    let percent_share: u128 = round_significant(percent as u128 * UNITS, 100);
    let way: u128 = round_significant(last as u128, 1);
    let done: u128 = round_significant(percent_share * way, 1);
    let rank: u128 = done / UNITS + if done % UNITS == 0 {
        0
    } else {
        1
    };
    sorted[rank as usize]
}

/// Percentiles up to 99 lie among the values.
proof fn lemma_rank_bound(len: nat, percent: nat)
    requires
        len > 0,
        0 < percent <= 99,
    ensures
        0 <= percentile_rank(len as int, percent as int) < len,
{
    let last = (len - 1) as nat;
    let n = percent * UNITS as nat;
    let s = share(percent);
    let m = significant(last, 1);
    let t = significant(s * m, 1);
    let big: int = 0x10_0000_0000_0000;
    lemma_significant_near(n, 100);
    lemma_significant_near(last, 1);
    lemma_significant_near(s * m, 1);
    assert(200 * s <= 199 * UNITS);
    assert(t * big <= (s * m) * (big + 1));
    assert(m * big <= last * (big + 1));
    assert(t <= last * UNITS) by (nonlinear_arith)
        requires
            200 * s <= 199 * UNITS,
            t * big <= (s * m) * (big + 1),
            m * big <= last * (big + 1),
            big == 0x10_0000_0000_0000,
            UNITS == 0x800_0000_0000_0000,
            s >= 0,
            m >= 0,
            last >= 0,
    {
        let u: int = 0x800_0000_0000_0000;
        assert(200 * (s * m) <= 199 * u * m);
        assert(200 * (t * big) <= (199 * u * m) * (big + 1));
        assert(200 * (t * big) * big <= (199 * u) * (m * big) * (big + 1));
        assert((199 * u) * (m * big) * (big + 1) <= (199 * u) * (last * (big + 1)) * (big + 1));
        assert(199 * ((big + 1) * (big + 1)) <= 200 * (big * big));
        assert((199 * u) * (last * (big + 1)) * (big + 1) == (u * last) * (199 * ((big + 1) * (big
            + 1))));
        assert((u * last) * (199 * ((big + 1) * (big + 1))) <= (u * last) * (200 * (big * big)));
        assert(t * (200 * (big * big)) <= (u * last) * (200 * (big * big)));
    }
    plan::lemma_groups(t as int, UNITS as int);
    assert(plan::groups(t as int, UNITS as int) <= last) by (nonlinear_arith)
        requires
            t <= last * UNITS,
            (plan::groups(t as int, UNITS as int) - 1) * UNITS < t || t == 0,
            t == 0 ==> plan::groups(t as int, UNITS as int) <= 0,
            UNITS > 0,
            last >= 0,
    ;
}

/// A larger percentile does not come before a smaller one.
pub proof fn law_percentiles_rise(len: nat, low: nat, high: nat)
    requires
        len > 0,
        low <= high,
    ensures
        percentile_rank(len as int, low as int) <= percentile_rank(len as int, high as int),
{
    let way = significant((len - 1) as nat, 1);
    lemma_significant_monotone(low * UNITS as nat, high * UNITS as nat, 100);
    let a = share(low);
    let b = share(high);
    assert(a * way <= b * way) by (nonlinear_arith)
        requires
            a <= b,
    ;
    lemma_significant_monotone(a * way, b * way, 1);
}

/// Two ways to put values in rising order give the same sequence.
pub proof fn law_order_is_unique(a: Seq<u64>, b: Seq<u64>)
    requires
        rising(a),
        rising(b),
        a.to_multiset() == b.to_multiset(),
    ensures
        a == b,
{
    let leq = |x: u64, y: u64| x <= y;
    assert(vstd::relations::sorted_by(a, leq));
    assert(vstd::relations::sorted_by(b, leq));
    vstd::seq_lib::lemma_sorted_unique(a, b, leq);
}

impl LatencyStats {
    /// The statistics of durations in any order.
    pub fn new(durations: Vec<u64>) -> (r: LatencyStats)
        requires
            durations@.len() > 0,
        ensures
            exists|sorted: Seq<u64>|
                rising(sorted) && #[trigger] sorted.to_multiset() == durations@.to_multiset() && r
                    == stats_of(sorted),
            forall|sorted: Seq<u64>|
                rising(sorted) && #[trigger] sorted.to_multiset() == durations@.to_multiset()
                    ==> r == stats_of(sorted),
            r.min_ns <= r.p50_ns <= r.p95_ns <= r.p99_ns <= r.max_ns,
    {
        let mut values: Vec<u64> = durations;
        sort_values(&mut values);
        let ghost sorted = values@;
        proof {
            vstd::seq_lib::to_multiset_len(durations@);
            vstd::seq_lib::to_multiset_len(sorted);
            assert forall|other: Seq<u64>|
                rising(other) && #[trigger] other.to_multiset() == durations@.to_multiset()
                implies other == sorted by {
                law_order_is_unique(other, sorted);
            }
        }
        proof {
            lemma_rank_bound(sorted.len(), 50);
            lemma_rank_bound(sorted.len(), 95);
            lemma_rank_bound(sorted.len(), 99);
            law_percentiles_rise(sorted.len(), 50, 95);
            law_percentiles_rise(sorted.len(), 95, 99);
        }
        LatencyStats {
            min_ns: values[0],
            p50_ns: percentile(values.as_slice(), 50),
            p95_ns: percentile(values.as_slice(), 95),
            p99_ns: percentile(values.as_slice(), 99),
            max_ns: values[values.len() - 1],
        }
    }
}

/// A percentile lies its share of the way from the first value to the last, or at
/// the next position where that is none.
pub proof fn law_rank_is_the_share_of_the_way(len: nat, percent: nat)
    requires
        0 < len <= 0x100_0000_0000,
        0 < percent <= 100,
    ensures
        percent * (len - 1) <= 100 * percentile_rank(len as int, percent as int) <= percent * (len
            - 1) + 100,
{
    let last = (len - 1) as nat;
    let n = percent * UNITS as nat;
    let s = share(percent);
    let m = significant(last, 1);
    let t = significant(s * m, 1);
    let big: int = 0x10_0000_0000_0000;
    lemma_significant_near(n, 100);
    lemma_significant_near(last, 1);
    lemma_significant_near(s * m, 1);
    assert(m == last) by {
        lemma2_to64();
        assert(excess_bits(last / 1) == 0);
        assert(last * 1 == last);
        lemma_fundamental_div_mod(last as int, 1);
    }
    let u: int = UNITS as int;
    let p = (percent * last) as int;
    let rank = plan::groups(t as int, u);
    plan::lemma_groups(t as int, u);
    assert(p <= 100 * 0x100_0000_0000) by (nonlinear_arith)
        requires
            p == percent * last,
            percent <= 100,
            last <= 0x100_0000_0000,
    ;
    lemma_share_of_the_way(s as int, last as int, t as int, rank, percent as int);
}

/// Two bounds by the same ratio, one after the other.
proof fn lemma_two_bounds(a: int, b: int, c: int, low: int, high: int)
    requires
        a * low <= b * high,
        b * low <= c * high,
        0 <= low,
        0 <= high,
    ensures
        a * (low * low) <= c * (high * high),
{
    assert(a * (low * low) <= c * (high * high)) by (nonlinear_arith)
        requires
            a * low <= b * high,
            b * low <= c * high,
            0 <= low,
            0 <= high,
    {
        assert((a * low) * low <= (b * high) * low);
        assert((b * high) * low == (b * low) * high);
        assert((b * low) * high <= (c * high) * high);
    }
}

/// What rounding leaves of a share of the way.
proof fn lemma_share_of_the_way(s: int, last: int, t: int, rank: int, percent: int)
    requires
        s * 100 * 0x10_0000_0000_0000 <= (percent * 0x800_0000_0000_0000) * 0x10_0000_0000_0001,
        (percent * 0x800_0000_0000_0000) * 0xf_ffff_ffff_ffff <= s * 100 * 0x10_0000_0000_0000,
        t * 0x10_0000_0000_0000 <= (s * last) * 0x10_0000_0000_0001,
        (s * last) * 0xf_ffff_ffff_ffff <= t * 0x10_0000_0000_0000,
        rank * 0x800_0000_0000_0000 >= t,
        (rank - 1) * 0x800_0000_0000_0000 < t || t == 0 && rank == 0,
        0 <= last <= 0x100_0000_0000,
        0 < percent <= 100,
        t >= 0,
    ensures
        percent * last <= 100 * rank <= percent * last + 100,
{
    let u: int = 0x800_0000_0000_0000;
    let big: int = 0x10_0000_0000_0000;
    let p = percent * last;
    let x = s * last;
    assert(0 <= p <= 0x6400_0000_0000) by (nonlinear_arith)
        requires
            p == percent * last,
            0 < percent <= 100,
            0 <= last <= 0x100_0000_0000,
    ;
    assert(x * 100 * big <= (p * u) * (big + 1) && (p * u) * (big - 1) <= x * 100 * big)
        by (nonlinear_arith)
        requires
            x == s * last,
            p == percent * last,
            last >= 0,
            s * 100 * big <= (percent * u) * (big + 1),
            (percent * u) * (big - 1) <= s * 100 * big,
    ;
    // Less than a hundredth of a position is lost, so nothing of a whole one.
    let far = 100 * t;
    lemma_two_bounds(far, 100 * x, p * u, big, big + 1);
    lemma_two_bounds(p * u, 100 * x, far, big - 1, big);
    assert(p * (u * ((big + 1) * (big + 1))) == (p * u) * ((big + 1) * (big + 1))) by (nonlinear_arith);
    assert(p * (u * ((big - 1) * (big - 1))) == (p * u) * ((big - 1) * (big - 1))) by (nonlinear_arith);
    assert(p * ((big + 1) * (big + 1)) < (p + 1) * (big * big));
    assert(p * ((big - 1) * (big - 1)) > (p - 1) * (big * big));
    assert(far < (p + 1) * u) by (nonlinear_arith)
        requires
            far * (big * big) <= p * (u * ((big + 1) * (big + 1))),
            p * ((big + 1) * (big + 1)) < (p + 1) * (big * big),
            u > 0,
            big == 0x10_0000_0000_0000,
    ;
    assert(far > (p - 1) * u) by (nonlinear_arith)
        requires
            p * (u * ((big - 1) * (big - 1))) <= far * (big * big),
            p * ((big - 1) * (big - 1)) > (p - 1) * (big * big),
            u > 0,
            big == 0x10_0000_0000_0000,
    ;
}

/// The least and the greatest are values that no other lies below or above.
pub proof fn law_extremes(sorted: Seq<u64>, i: int)
    requires
        rising(sorted),
        0 <= i < sorted.len(),
    ensures
        stats_of(sorted).min_ns <= sorted[i] <= stats_of(sorted).max_ns,
        sorted.contains(stats_of(sorted).min_ns),
        sorted.contains(stats_of(sorted).max_ns),
{
    assert(sorted[0] <= sorted[i] <= sorted[sorted.len() - 1]);
}

/// The shares of the three percentiles, none of them rounded up.
proof fn lemma_shares(percent: nat)
    requires
        percent == 50 || percent == 95 || percent == 99,
    ensures
        share(percent) * 100 <= percent * UNITS,
{
    let n = percent * UNITS as nat;
    lemma2_to64();
    reveal_with_fuel(excess_bits, 8);
    assert(excess_bits(n / 100) == 6);
    assert(pow2(6) == 64);
    assert(n as int % 6400 == if percent == 50 {
        0int
    } else if percent == 95 {
        2560
    } else {
        512
    });
    assert(share(percent) == (n / 6400) * 64);
}

/// The three percentiles stand at the first position that is their share of the way
/// from the first value to the last.
pub proof fn law_percentiles_stand_at_their_share(len: nat, percent: nat)
    requires
        0 < len <= 0x100_0000_0000,
        percent == 50 || percent == 95 || percent == 99,
    ensures
        percent * (len - 1) <= 100 * percentile_rank(len as int, percent as int) < percent * (len
            - 1) + 100,
{
    law_rank_is_the_share_of_the_way(len, percent);
    lemma_shares(percent);
    let last = (len - 1) as nat;
    let u = UNITS as nat;
    let s = share(percent);
    let rank = percentile_rank(len as int, percent as int);
    if 100 * rank == percent * last + 100 {
        let c = (rank - 1) as nat;
        assert(c <= last) by (nonlinear_arith)
            requires
                percent * last == 100 * c,
                percent <= 100,
        ;
        lemma_whole_share(last);
        lemma_whole_share(c);
        let m = significant(last, 1);
        let t = significant(s * m, 1);
        assert(100 * (s * last) <= 100 * (c * u)) by (nonlinear_arith)
            requires
                s * 100 <= percent * u,
                percent * last == 100 * c,
        ;
        lemma_significant_monotone(s * last, c * u, 1);
        plan::lemma_groups(t as int, u as int);
        assert(plan::groups(t as int, u as int) <= c) by (nonlinear_arith)
            requires
                t <= c * u,
                (plan::groups(t as int, u as int) - 1) * u < t || t == 0 && plan::groups(
                    t as int,
                    u as int,
                ) == 0,
                u > 0,
                c >= 0,
        ;
    }
}

/// Whole numbers below `2^53`, and as many shares of one, are kept.
proof fn lemma_whole_share(c: nat)
    requires
        c <= 0x100_0000_0000,
    ensures
        significant(c, 1) == c,
        significant(c * UNITS as nat, 1) == c * UNITS,
{
    lemma2_to64();
    assert(excess_bits(c / 1) == 0);
    lemma_fundamental_div_mod(c as int, 1);
    let u = UNITS as nat;
    let t = c * u;
    let e = excess_bits(t / 1);
    assert(t / 1 == t) by {
        lemma_fundamental_div_mod(t as int, 1);
    }
    lemma2_to64_rest();
    assert(u == pow2(59));
    lemma_excess_of_shares(c, 59);
    lemma_pow2_adds(e, (59 - e) as nat);
    let unit = pow2(e);
    lemma_pow2_pos(e);
    let k = c * pow2((59 - e) as nat);
    assert(t == k * unit + 0) by (nonlinear_arith)
        requires
            t == c * u,
            u == unit * pow2((59 - e) as nat),
            k == c * pow2((59 - e) as nat),
    ;
    assert(1 * unit == unit);
    lemma_fundamental_div_mod_converse(t as int, unit as int, k as int, 0);
}

proof fn lemma_excess_of_shares(c: nat, e: nat)
    requires
        c < 0x20_0000_0000_0000,
    ensures
        excess_bits(c * pow2(e)) <= e,
    decreases e,
{
    lemma2_to64();
    if e > 0 {
        lemma_pow2_unfold(e);
        let t = c * pow2(e);
        assert(t == 2 * (c * pow2((e - 1) as nat))) by (nonlinear_arith)
            requires
                t == c * pow2(e),
                pow2(e) == 2 * pow2((e - 1) as nat),
        ;
        lemma_excess_of_shares(c, (e - 1) as nat);
    } else {
        assert(c * pow2(0) == c);
    }
}

/// The values up to half, 95 and 99 hundredths of the way from the first to the
/// last lie up to the percentiles of those names, and those from there on beyond.
pub proof fn law_percentiles_are_named_for_their_share(sorted: Seq<u64>, i: int)
    requires
        rising(sorted),
        0 <= i < sorted.len() <= 0x100_0000_0000,
    ensures
        100 * i <= 50 * (sorted.len() - 1) ==> sorted[i] <= stats_of(sorted).p50_ns,
        100 * i >= 50 * (sorted.len() - 1) ==> sorted[i] >= stats_of(sorted).p50_ns,
        100 * i <= 95 * (sorted.len() - 1) ==> sorted[i] <= stats_of(sorted).p95_ns,
        100 * i >= 95 * (sorted.len() - 1) ==> sorted[i] >= stats_of(sorted).p95_ns,
        100 * i <= 99 * (sorted.len() - 1) ==> sorted[i] <= stats_of(sorted).p99_ns,
        100 * i >= 99 * (sorted.len() - 1) ==> sorted[i] >= stats_of(sorted).p99_ns,
{
    let len = sorted.len();
    law_percentiles_stand_at_their_share(len, 50);
    law_percentiles_stand_at_their_share(len, 95);
    law_percentiles_stand_at_their_share(len, 99);
    lemma_rank_bound(len, 50);
    lemma_rank_bound(len, 95);
    lemma_rank_bound(len, 99);
}

} // verus!
