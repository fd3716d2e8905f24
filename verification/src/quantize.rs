//! Quantisation of vectors to 16-bit fixed point and their packed layout.

use vstd::prelude::*;
use vstd::arithmetic::div_mod::*;
use vstd::arithmetic::power2::*;
use crate::binary32;
use crate::binary32::Binary32;
use crate::rounding;
use crate::rounding::{half_up_shift, INFINITY_MAG};

verus! {

/// Dimensions of a vector.
pub const DIMS: usize = 14;

/// Dimensions of a quantised vector, with its padding.
pub const PADDED_DIMS: usize = 16;

/// Words of a packed vector, two dimensions in each.
pub const PACKED_DIMS: usize = 8;

/// Steps of the quantised scale in the number one.
pub const QUANT_STEPS: u32 = 8192;

/// `m` counted up from zero, or down where `negative`, held in the `i16` range.
pub open spec fn saturated(negative: bool, m: nat) -> int {
    if negative {
        if m > 32768 {
            -32768
        } else {
            -(m as int)
        }
    } else {
        if m > 32767 {
            32767
        } else {
            m as int
        }
    }
}

/// The step nearest to `v`, with ties away from zero, held in the `i16` range;
/// zero for a NaN.
pub open spec fn quantized(v: Binary32) -> int {
    if v.is_nan() {
        0
    } else if v.is_infinite() {
        saturated(v.negative(), 32768)
    } else {
        saturated(
            v.negative(),
            rounding::half_up(v.units() * QUANT_STEPS as nat, binary32::one_in_units()),
        )
    }
}

/// Quantises one value.
pub fn quantize_value(value: Binary32) -> (r: i16)
    ensures
        r == quantized(value),
{
    let negative: bool = value.is_negative();
    let mag: u32 = value.magnitude();
    if mag > INFINITY_MAG {
        return 0;
    }
    if mag == INFINITY_MAG {
        return if negative {
            -32768
        } else {
            32767
        };
    }
    let (sig, exp) = value.parts();
    let ghost u = value.units();
    let ghost one = binary32::one_in_units();
    let ghost pe = pow2(exp as nat);
    let steps: u64 = if exp >= 136 {
        proof {
            lemma2_to64();
            lemma_pow2_pos(149);
            lemma_pow2_adds((exp - 136) as nat, 136);
            lemma_pow2_adds(136, 13);
            let up = pow2((exp - 136) as nat);
            lemma_pow2_pos((exp - 136) as nat);
            let c = sig as nat * up;
            assert(u * 8192 == c * one) by (nonlinear_arith)
                requires
                    u == sig as nat * pe,
                    pe == up * pow2(136),
                    one == pow2(136) * 8192,
                    c == sig as nat * up,
            ;
            assert(2 * (u * 8192) + one == c * (2 * one) + one) by (nonlinear_arith)
                requires
                    u * 8192 == c * one,
            ;
            lemma_fundamental_div_mod_converse(
                (2 * (u * 8192) + one) as int,
                (2 * one) as int,
                c as int,
                one as int,
            );
            assert(c >= 0x80_0000) by (nonlinear_arith)
                requires
                    c == sig as nat * up,
                    sig >= 0x80_0000,
                    up >= 1,
            ;
        }
        0x80_0000
    } else {
        let k: u32 = (136 - exp) as u32;
        proof {
            lemma2_to64();
            lemma_pow2_pos(exp as nat);
            lemma_pow2_pos(k as nat);
            lemma_pow2_adds(exp as nat, k as nat);
            lemma_pow2_adds(136, 13);
            let c = pe * 8192;
            rounding::lemma_half_up_scale(sig as nat, pow2(k as nat), c);
            assert(sig as nat * c == u * 8192) by (nonlinear_arith)
                requires
                    u == sig as nat * pe,
                    c == pe * 8192,
            ;
            assert(pow2(k as nat) * c == one) by (nonlinear_arith)
                requires
                    one == (pe * pow2(k as nat)) * 8192,
                    c == pe * 8192,
            ;
        }
        half_up_shift(sig, k)
    };
    if negative {
        if steps > 32768 {
            -32768
        } else {
            (-(steps as i32)) as i16
        }
    } else {
        if steps > 32767 {
            32767
        } else {
            steps as i16
        }
    }
}

/// A finite value times the steps of one, kept exactly while it is small.
proof fn lemma_scaled_exactly(v: Binary32)
    requires
        v.is_finite(),
        v.units() * QUANT_STEPS < 0x100_0000 * binary32::one_in_units(),
    ensures
        rounding::nearest_mag(v.units() * QUANT_STEPS as nat, 1) < INFINITY_MAG,
        rounding::mag_units(rounding::nearest_mag(v.units() * QUANT_STEPS as nat, 1)) == v.units()
            * QUANT_STEPS,
{
    let mag = v.mag();
    let one = binary32::one_in_units();
    let n = v.units() * 8192;
    lemma2_to64();
    if mag < 0x80_0000 {
        rounding::lemma_exact_multiple(mag, 13);
        assert(pow2(13) == 8192);
    } else {
        let sig = (0x80_0000 + mag % 0x80_0000) as nat;
        let e = (mag / 0x80_0000 - 1) as nat;
        lemma_pow2_adds(e, 13);
        assert(n == sig * pow2(e + 13)) by (nonlinear_arith)
            requires
                n == (sig * pow2(e)) * 8192,
                pow2(e + 13) == pow2(e) * 8192,
        ;
        if e + 13 > 229 {
            lemma_pow2_adds(24, 149);
            lemma_pow2_strictly_increases(173, e + 13);
            assert(n >= pow2(e + 13)) by (nonlinear_arith)
                requires
                    n == sig * pow2(e + 13),
                    sig >= 1,
            ;
        }
        rounding::lemma_exact_multiple(sig, e + 13);
    }
}

/// How the number of whole ones in a value bounds its magnitude bits.
proof fn lemma_whole_bounds(mag: nat, whole: nat)
    requires
        whole <= 0x100_0000,
    ensures
        rounding::mag_units(mag) < whole * binary32::one_in_units() ==> mag
            < binary32::from_natural(whole).mag(),
        rounding::mag_units(mag) == whole * binary32::one_in_units() ==> mag
            == binary32::from_natural(whole).mag(),
        rounding::mag_units(mag) > whole * binary32::one_in_units() ==> mag
            > binary32::from_natural(whole).mag(),
{
    let bound = binary32::from_natural(whole).mag();
    binary32::lemma_natural_is_exact(whole);
    if mag < bound {
        binary32::lemma_mag_units_increasing(mag, bound);
    }
    if bound < mag {
        binary32::lemma_mag_units_increasing(bound, mag);
    }
}

/// The value that is scaled by the steps of one, rounded, and held in the `i16`
/// range.
pub open spec fn scaled_and_clamped(v: Binary32) -> Binary32 {
    binary32::clamped(
        binary32::rounded(binary32::product(v, binary32::from_natural(QUANT_STEPS as nat))),
        binary32::from_integer(-32768),
        binary32::from_integer(32767),
    )
}

/// The step of a value is what scaling, rounding and clamping it gives.
pub proof fn law_quantized_is_scaled(v: Binary32)
    requires
        !v.is_nan(),
    ensures
        scaled_and_clamped(v).is_finite(),
        scaled_and_clamped(v).value() == quantized(v) * binary32::one_in_units(),
{
    let one = binary32::one_in_units();
    let scale = binary32::from_natural(8192);
    let low = binary32::from_integer(-32768);
    let high = binary32::from_integer(32767);
    let limit: nat = 0x100_0000;
    let p = binary32::product(v, scale);
    let r = binary32::rounded(p);
    lemma_pow2_pos(149);
    binary32::lemma_natural_is_exact(8192);
    binary32::lemma_natural_is_exact(32768);
    binary32::lemma_natural_is_exact(32767);
    binary32::lemma_natural_is_exact(limit);
    let top = binary32::from_natural(limit);
    assert(32767 * one < 32768 * one && 32768 * one < limit * one) by (nonlinear_arith)
        requires
            one > 0,
            limit == 0x100_0000,
    ;
    lemma_whole_bounds(top.mag(), 32767);
    lemma_whole_bounds(top.mag(), 32768);
    reveal(binary32::rounded);
    if v.is_infinite() {
        reveal(binary32::product);
        assert(r.is_infinite() && r.negative() == v.negative());
    } else {
        let n = v.units() * 8192;
        let whole = rounding::half_up(n, one);
        binary32::lemma_product_units(v, scale, 8192);
        assert(p.negative() == v.negative());
        if n < limit * one {
            lemma_scaled_exactly(v);
            assert(p.units() == n);
            assert(2 * n + one <= limit * (2 * one) + one) by (nonlinear_arith)
                requires
                    n < limit * one,
            ;
            lemma_div_is_ordered(
                (2 * n + one) as int,
                (limit * (2 * one) + one) as int,
                (2 * one) as int,
            );
            lemma_fundamental_div_mod_converse(
                (limit * (2 * one) + one) as int,
                (2 * one) as int,
                limit as int,
                one as int,
            );
            lemma_div_pos_is_pos((2 * n + one) as int, (2 * one) as int);
            binary32::lemma_natural_is_exact(whole);
            reveal(binary32::from_natural);
            assert(r.units() == whole * one);
            lemma_whole_bounds(r.mag(), 32767);
            lemma_whole_bounds(r.mag(), 32768);
            assert((whole < 32767) == (whole * one < 32767 * one) && (whole < 32768) == (whole
                * one < 32768 * one)) by (nonlinear_arith)
                requires
                    one > 0,
            ;
            assert((whole as int) * one == whole * one && (-(whole as int)) * one == -(whole
                * one)) by (nonlinear_arith);
        } else {
            rounding::lemma_nearest_mag_monotone(limit * one, n, 1);
            assert(top.mag() <= p.mag()) by {
                reveal(binary32::from_natural);
            }
            lemma_large_whole(n, limit);
            if p.is_finite() {
                if top.mag() < p.mag() {
                    binary32::lemma_mag_units_increasing(top.mag(), p.mag());
                }
                let w = rounding::half_up(p.units(), one);
                lemma_large_whole(p.units(), limit);
                assert(limit * one <= w * one) by (nonlinear_arith)
                    requires
                        limit <= w,
                ;
                rounding::lemma_nearest_mag_monotone(limit * one, w * one, 1);
            }
            assert(top.mag() <= r.mag()) by {
                reveal(binary32::from_natural);
            }
        }
    }
}

/// Rounding keeps at least as many wholes as there are.
proof fn lemma_large_whole(n: nat, limit: nat)
    requires
        n >= limit * binary32::one_in_units(),
    ensures
        rounding::half_up(n, binary32::one_in_units()) >= limit,
{
    let one = binary32::one_in_units();
    lemma_pow2_pos(149);
    assert(2 * n + one >= limit * (2 * one) + one) by (nonlinear_arith)
        requires
            n >= limit * one,
    ;
    lemma_div_is_ordered(
        (limit * (2 * one) + one) as int,
        (2 * n + one) as int,
        (2 * one) as int,
    );
    lemma_fundamental_div_mod_converse(
        (limit * (2 * one) + one) as int,
        (2 * one) as int,
        limit as int,
        one as int,
    );
}

/// A value within one in absolute value has at most as many steps as one.
pub proof fn law_unit_steps(v: Binary32)
    requires
        v.is_finite(),
        v.units() <= binary32::one_in_units(),
    ensures
        -(QUANT_STEPS as int) <= quantized(v) <= QUANT_STEPS,
        !v.negative() ==> quantized(v) >= 0,
{
    let one = binary32::one_in_units();
    lemma_pow2_pos(149);
    let n = v.units() * 8192;
    assert(2 * n + one <= 8192 * (2 * one) + one) by (nonlinear_arith)
        requires
            n == v.units() * 8192,
            v.units() <= one,
    ;
    lemma_div_is_ordered(
        (2 * n + one) as int,
        (8192 * (2 * one) + one) as int,
        (2 * one) as int,
    );
    lemma_fundamental_div_mod_converse(
        (8192 * (2 * one) + one) as int,
        (2 * one) as int,
        8192,
        one as int,
    );
    lemma_div_pos_is_pos((2 * n + one) as int, (2 * one) as int);
}

/// Dimension `dim` of a quantised vector; the padding is zero.
pub open spec fn quantized_dim(vector: Seq<Binary32>, dim: int) -> int {
    if dim < DIMS {
        quantized(vector[dim])
    } else {
        0
    }
}

/// Quantises a query vector and pads it.
pub fn quantize_query(query: &[Binary32; DIMS]) -> (r: [i16; PADDED_DIMS])
    ensures
        forall|dim: int| 0 <= dim < PADDED_DIMS ==> r[dim] == quantized_dim(query@, dim),
{
    let mut quantized: [i16; PADDED_DIMS] = [0i16; PADDED_DIMS];
    let mut dim: usize = 0;
    while dim < DIMS
        invariant
            dim <= DIMS,
            forall|i: int| 0 <= i < dim ==> quantized[i] == quantized_dim(query@, i),
            forall|i: int| dim <= i < PADDED_DIMS ==> quantized[i] == 0,
        decreases DIMS - dim,
    {
        quantized[dim] = quantize_value(query[dim]);
        dim += 1;
    }
    quantized
}

/// The query as the compute kernel reads it, one word for each dimension.
#[derive(Clone, Copy, Debug)]
pub struct QueryUniform {
    pub values: [i32; PADDED_DIMS],
}

impl QueryUniform {
    /// Quantises and pads a query vector.
    pub fn from_query(query: &[Binary32; DIMS]) -> (r: QueryUniform)
        ensures
            forall|dim: int| 0 <= dim < PADDED_DIMS ==> r.values[dim] == quantized_dim(query@, dim),
    {
        let mut values: [i32; PADDED_DIMS] = [0i32; PADDED_DIMS];
        let mut dim: usize = 0;
        while dim < DIMS
            invariant
                dim <= DIMS,
                forall|i: int| 0 <= i < dim ==> values[i] == quantized_dim(query@, i),
                forall|i: int| dim <= i < PADDED_DIMS ==> values[i] == 0,
            decreases DIMS - dim,
        {
            values[dim] = quantize_value(query[dim]) as i32;
            dim += 1;
        }
        QueryUniform { values }
    }
}

/// The 16-bit two's complement pattern of a number.
pub open spec fn pattern(x: int) -> nat {
    if x < 0 {
        (x + 0x1_0000) as nat
    } else {
        x as nat
    }
}

/// The number with the given 16-bit two's complement pattern.
pub open spec fn from_pattern(p: nat) -> int {
    if p >= 0x8000 {
        p - 0x1_0000
    } else {
        p as int
    }
}

/// The word that holds two numbers, the first in its low half.
pub open spec fn packed_pair(low: int, high: int) -> nat {
    pattern(low) + 0x1_0000 * pattern(high)
}

/// One half of a word.
pub open spec fn unpacked(word: nat, high: bool) -> int {
    from_pattern(if high {
        word / 0x1_0000
    } else {
        word % 0x1_0000
    })
}

/// Packs two numbers into a word, the first in its low half.
pub fn pack_i16_pair(low: i16, high: i16) -> (r: u32)
    ensures
        r == packed_pair(low as int, high as int),
{
    let l: u16 = low as u16;
    let h: u16 = high as u16;
    proof {
        assert(l == pattern(low as int)) by {
            assert(low < 0 ==> low as u16 == low + 0x1_0000) by (bit_vector);
            assert(low >= 0 ==> low as u16 == low) by (bit_vector);
        }
        assert(h == pattern(high as int)) by {
            assert(high < 0 ==> high as u16 == high + 0x1_0000) by (bit_vector);
            assert(high >= 0 ==> high as u16 == high) by (bit_vector);
        }
        assert((l as u32) | ((h as u32) << 16) == l + 0x1_0000 * h) by (bit_vector);
    }
    (l as u32) | ((h as u32) << 16)
}

/// Takes one half out of a word.
pub fn unpack_i16(word: u32, high: bool) -> (r: i16)
    ensures
        r == unpacked(word as nat, high),
{
    if high {
        let half: u16 = (word >> 16) as u16;
        proof {
            assert((word >> 16) as u16 == word / 0x1_0000) by (bit_vector);
            assert(half < 0x8000 ==> half as i16 == half) by (bit_vector);
            assert(half >= 0x8000 ==> half as i16 == half - 0x1_0000) by (bit_vector);
        }
        half as i16
    } else {
        let half: u16 = (word & 0xffff) as u16;
        proof {
            assert((word & 0xffff) as u16 == word % 0x1_0000) by (bit_vector);
            assert(half < 0x8000 ==> half as i16 == half) by (bit_vector);
            assert(half >= 0x8000 ==> half as i16 == half - 0x1_0000) by (bit_vector);
        }
        half as i16
    }
}

/// Unpacking a packed word gives both numbers back.
pub proof fn law_unpack_of_pack(low: i16, high: i16)
    ensures
        unpacked(packed_pair(low as int, high as int), false) == low,
        unpacked(packed_pair(low as int, high as int), true) == high,
{
}

/// Packing what was unpacked gives the word back.
pub proof fn law_pack_of_unpack(word: u32)
    ensures
        packed_pair(unpacked(word as nat, false), unpacked(word as nat, true)) == word,
{
}

/// The packed words of a vector.
pub open spec fn packed_words(vector: Seq<Binary32>) -> Seq<u32> {
    Seq::new(
        PACKED_DIMS as nat,
        |pair: int|
            packed_pair(
                quantized_dim(vector, 2 * pair),
                quantized_dim(vector, 2 * pair + 1),
            ) as u32,
    )
}

/// Appends a vector: its packed words, and its values where the baseline is kept.
pub fn append_reference_vector(
    vector: &[Binary32; DIMS],
    keep_f32_baseline: bool,
    vectors_f32: &mut Vec<Binary32>,
    packed_vectors: &mut Vec<u32>,
)
    ensures
        final(vectors_f32)@ == if keep_f32_baseline {
            old(vectors_f32)@ + vector@
        } else {
            old(vectors_f32)@
        },
        final(packed_vectors)@ == old(packed_vectors)@ + packed_words(vector@),
{
    let quantized: [i16; PADDED_DIMS] = quantize_query(vector);
    if keep_f32_baseline {
        let mut dim: usize = 0;
        while dim < DIMS
            invariant
                dim <= DIMS,
                vectors_f32@ == old(vectors_f32)@ + vector@.subrange(0, dim as int),
            decreases DIMS - dim,
        {
            vectors_f32.push(vector[dim]);
            dim += 1;
            assert(vector@.subrange(0, dim as int) == vector@.subrange(0, dim - 1).push(
                vector[dim - 1],
            ));
        }
        assert(vector@.subrange(0, DIMS as int) == vector@);
    }
    let mut pair: usize = 0;
    let ghost words = packed_words(vector@);
    while pair < PACKED_DIMS
        invariant
            pair <= PACKED_DIMS,
            words == packed_words(vector@),
            forall|dim: int|
                0 <= dim < PADDED_DIMS ==> quantized[dim] == quantized_dim(vector@, dim),
            packed_vectors@ == old(packed_vectors)@ + words.subrange(0, pair as int),
        decreases PACKED_DIMS - pair,
    {
        let word: u32 = pack_i16_pair(quantized[pair * 2], quantized[pair * 2 + 1]);
        assert(word == words[pair as int]);
        packed_vectors.push(word);
        pair += 1;
        assert(words.subrange(0, pair as int) == words.subrange(0, pair - 1).push(
            words[pair - 1],
        ));
    }
    assert(words.subrange(0, PACKED_DIMS as int) == words);
}

/// A step lies at most half a step from the value, and farther from zero where two
/// do, held in the `i16` range.
pub proof fn law_step_is_nearest(v: Binary32)
    requires
        v.is_finite(),
    ensures
        ({
            let one = binary32::one_in_units();
            let steps = 8192 * v.value();
            &&& -32768 <= quantized(v) <= 32767
            &&& -32768 * one <= steps <= 32767 * one ==> -(one as int) <= 2 * (quantized(v) * one
                - steps) <= one
            &&& 0 <= steps <= 32767 * one ==> 2 * (quantized(v) * one - steps) > -(one as int)
            &&& -32768 * one <= steps <= 0 ==> 2 * (quantized(v) * one - steps) < one
            &&& steps > 32767 * one ==> quantized(v) == 32767
            &&& steps < -32768 * one ==> quantized(v) == -32768
        }),
{
    let one = binary32::one_in_units();
    let n = v.units() * 8192;
    let whole = rounding::half_up(n, one);
    lemma_pow2_pos(149);
    let x = 2 * n + one;
    let w = 2 * one;
    lemma_fundamental_div_mod(x as int, w as int);
    lemma_mod_bound(x as int, w as int);
    lemma_div_pos_is_pos(x as int, w as int);
    assert(w * whole == 2 * (whole * one)) by (nonlinear_arith)
        requires
            w == 2 * one,
    ;
    assert((-(whole as int)) * one == -(whole * one)) by (nonlinear_arith);
    assert(whole > 32767 ==> whole * one >= 32768 * one) by (nonlinear_arith);
    assert(whole > 32768 ==> whole * one >= 32769 * one) by (nonlinear_arith);
    assert(whole < 32767 ==> whole * one <= 32766 * one) by (nonlinear_arith);
    assert(whole < 32768 ==> whole * one <= 32767 * one) by (nonlinear_arith);
    assert(32768 * one == 32767 * one + one && 32766 * one == 32767 * one - one && 32769 * one
        == 32768 * one + one) by (nonlinear_arith);
    if n == 0 {
        lemma_basic_div(one as int, w as int);
        assert(whole == 0);
    }
}

/// What is no number has no steps, and infinities have the most.
pub proof fn law_steps_of_no_number(v: Binary32)
    ensures
        v.is_nan() ==> quantized(v) == 0,
        v.is_infinite() && !v.negative() ==> quantized(v) == 32767,
        v.is_infinite() && v.negative() ==> quantized(v) == -32768,
{
}

/// A word is its first number modulo `2^16` in the low half and its second in the
/// high half.
pub proof fn law_halves_of_a_word(low: i16, high: i16, word: u32)
    ensures
        packed_pair(low as int, high as int) < 0x1_0000_0000,
        (packed_pair(low as int, high as int) - low) % 0x1_0000 == 0,
        (packed_pair(low as int, high as int) as int / 0x1_0000 - high) % 0x1_0000 == 0,
        -0x8000 <= unpacked(word as nat, false) < 0x8000,
        -0x8000 <= unpacked(word as nat, true) < 0x8000,
        (unpacked(word as nat, false) - word) % 0x1_0000 == 0,
        (unpacked(word as nat, true) - word as int / 0x1_0000) % 0x1_0000 == 0,
{
}

} // verus!
