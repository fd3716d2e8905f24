//! Deterministic reference sets and queries, drawn from a seed.

use vstd::prelude::*;
use crate::binary32;
use crate::binary32::Binary32;
use crate::labels::PackedLabels;
use crate::quantize;
use crate::quantize::{append_reference_vector, DIMS, PACKED_DIMS};
use crate::references;
use crate::references::ReferenceData;
use crate::rng;
use crate::rng::SplitMix64;

verus! {

/// Draws that one reference takes: its dimensions and the noise of its label.
pub const DRAWS_PER_REFERENCE: usize = 15;

/// The vector of `DIMS` uniform values from draw `first` on.
pub open spec fn drawn_vector(seed: u64, first: nat) -> Seq<Binary32> {
    Seq::new(DIMS as nat, |dim: int| rng::uniform(seed, first + dim as nat))
}

/// The sum of the first `dims` values, each weighted by its position.
pub open spec fn weighted_sum(vector: Seq<Binary32>, dims: nat) -> Binary32
    decreases dims,
{
    if dims == 0 {
        binary32::zero()
    } else {
        let d = (dims - 1) as nat;
        binary32::sum(
            weighted_sum(vector, d),
            binary32::product(
                vector[d as int],
                binary32::sum(binary32::from_natural(d), binary32::from_natural(1)),
            ),
        )
    }
}

/// The score that labels a vector: its weighted mean, moved by at most a tenth.
pub open spec fn noisy_score(vector: Seq<Binary32>, noise: Binary32) -> Binary32 {
    binary32::sum(
        binary32::quotient(weighted_sum(vector, DIMS as nat), binary32::from_natural(105)),
        binary32::product(
            binary32::difference(noise, binary32::nearest_ratio(1, 2)),
            binary32::nearest_ratio(1, 5),
        ),
    )
}

/// The vector of generated reference `i`.
pub open spec fn generated_vector(seed: u64, i: int) -> Seq<Binary32> {
    drawn_vector(seed, (DRAWS_PER_REFERENCE * i) as nat)
}

/// Whether generated reference `i` is fraud: whether its score reaches 0.52.
pub open spec fn generated_fraud(seed: u64, i: int) -> bool {
    binary32::at_least(
        noisy_score(
            generated_vector(seed, i),
            rng::uniform(seed, (DRAWS_PER_REFERENCE * i + DIMS) as nat),
        ),
        binary32::nearest_ratio(52, 100),
    )
}

/// Draws one vector.
fn draw_vector(rng: &mut SplitMix64, Ghost(seed): Ghost<u64>, Ghost(first): Ghost<nat>) -> (r:
    [Binary32; DIMS])
    requires
        old(rng).state == rng::state_after(seed, first),
    ensures
        r@ == drawn_vector(seed, first),
        final(rng).state == rng::state_after(seed, first + DIMS as nat),
{
    let mut vector: [Binary32; DIMS] = [Binary32 { bits: 0 };DIMS];
    let mut dim: usize = 0;
    while dim < DIMS
        invariant
            dim <= DIMS,
            rng.state == rng::state_after(seed, first + dim as nat),
            forall|d: int|
                0 <= d < dim ==> #[trigger] vector[d] == rng::uniform(seed, first + d as nat),
        decreases DIMS - dim,
    {
        proof {
            rng::law_draws_follow(seed, first + dim as nat, 0);
            rng::law_draws_follow(seed, first + dim as nat, 1);
        }
        vector[dim] = rng.next_f32();
        dim += 1;
    }
    assert(vector@ =~= drawn_vector(seed, first));
    vector
}

/// The score that labels a vector.
pub fn score_vector(vector: &[Binary32; DIMS], noise: Binary32) -> (r: Binary32)
    ensures
        r == noisy_score(vector@, noise),
{
    let mut total: Binary32 = Binary32 { bits: 0 };
    let mut dim: usize = 0;
    while dim < DIMS
        invariant
            dim <= DIMS,
            total == weighted_sum(vector@, dim as nat),
        decreases DIMS - dim,
    {
        let weight: Binary32 = Binary32::from_u64(dim as u64).plus(Binary32::from_u64(1));
        total = total.plus(vector[dim].times(weight));
        dim += 1;
    }
    let normalized: Binary32 = total.over(Binary32::from_u64(105));
    normalized.plus(noise.minus(Binary32::ratio(1, 2)).times(Binary32::ratio(1, 5)))
}

/// Generates `count` references from a seed.
pub fn generate_references(count: usize, seed: u64, keep_f32_baseline: bool) -> (r: ReferenceData)
    ensures
        r.wf(),
        r.keeps(keep_f32_baseline),
        r.labels@.len() == count,
        forall|i: int|
            0 <= i < count ==> #[trigger] r.words(i) == quantize::packed_words(
                generated_vector(seed, i),
            ),
        forall|i: int| 0 <= i < count ==> #[trigger] r.labels@[i] == generated_fraud(seed, i),
        keep_f32_baseline ==> forall|i: int|
            0 <= i < count ==> #[trigger] r.values(i) == generated_vector(seed, i),
{
    let mut rng: SplitMix64 = SplitMix64::new(seed);
    let mut data: ReferenceData = ReferenceData {
        vectors_f32: Vec::new(),
        packed_vectors: Vec::new(),
        labels: PackedLabels::new(count),
    };
    let mut index: usize = 0;
    while index < count
        invariant
            index <= count,
            data.labels.wf(),
            data.labels.len == count,
            data.packed_vectors@.len() == PACKED_DIMS * index,
            data.vectors_f32@.len() == if keep_f32_baseline {
                DIMS * index
            } else {
                0
            },
            rng.state == rng::state_after(seed, (DRAWS_PER_REFERENCE * index) as nat),
            forall|i: int|
                0 <= i < index ==> #[trigger] data.words(i) == quantize::packed_words(
                    generated_vector(seed, i),
                ),
            forall|i: int|
                0 <= i < index ==> #[trigger] data.labels@[i] == generated_fraud(seed, i),
            forall|i: int| index <= i < count ==> !(#[trigger] data.labels@[i]),
            keep_f32_baseline ==> forall|i: int|
                0 <= i < index ==> #[trigger] data.values(i) == generated_vector(seed, i),
        decreases count - index,
    {
        let ghost first = (DRAWS_PER_REFERENCE * index) as nat;
        let ghost before = data;
        let vector: [Binary32; DIMS] = draw_vector(&mut rng, Ghost(seed), Ghost(first));
        append_reference_vector(
            &vector,
            keep_f32_baseline,
            &mut data.vectors_f32,
            &mut data.packed_vectors,
        );
        proof {
            rng::law_draws_follow(seed, first + DIMS as nat, 0);
            rng::law_draws_follow(seed, first + DIMS as nat, 1);
            references::lemma_item_appended(
                before.packed_vectors@,
                quantize::packed_words(vector@),
                PACKED_DIMS as int,
                index as int,
            );
            if keep_f32_baseline {
                references::lemma_item_appended(before.vectors_f32@, vector@, DIMS as int, index as int);
            }
        }
        let noise: Binary32 = rng.next_f32();
        let score: Binary32 = score_vector(&vector, noise);
        data.labels.set(index, score.reaches(Binary32::ratio(52, 100)));
        proof {
            assert forall|i: int| 0 <= i < index + 1 implies #[trigger] data.words(i)
                == quantize::packed_words(generated_vector(seed, i)) by {
                assert(i < index ==> before.words(i) == data.words(i));
            }
            if keep_f32_baseline {
                assert forall|i: int| 0 <= i < index + 1 implies #[trigger] data.values(i)
                    == generated_vector(seed, i) by {
                    assert(i < index ==> before.values(i) == data.values(i));
                }
            }
        }
        index += 1;
    }
    data
}

/// The generated query `i`: uniform values, but for every fourth query, which
/// has no previous transaction.
pub open spec fn generated_query(seed: u64, i: int) -> Seq<Binary32> {
    let vector = drawn_vector(seed, (DIMS * i) as nat);
    if i % 4 == 0 {
        let none = binary32::negated(binary32::from_natural(1));
        vector.update(5, none).update(6, none)
    } else {
        vector
    }
}

/// Generates `count` queries from a seed.
pub fn generate_queries(count: usize, seed: u64) -> (r: Vec<[Binary32; DIMS]>)
    ensures
        r@.len() == count,
        forall|i: int| 0 <= i < count ==> (#[trigger] r@[i])@ == generated_query(seed, i),
{
    let mut rng: SplitMix64 = SplitMix64::new(seed);
    let mut queries: Vec<[Binary32; DIMS]> = Vec::new();
    let mut index: usize = 0;
    while index < count
        invariant
            index <= count,
            queries@.len() == index,
            rng.state == rng::state_after(seed, (DIMS * index) as nat),
            forall|i: int| 0 <= i < index ==> (#[trigger] queries@[i])@ == generated_query(seed, i),
        decreases count - index,
    {
        let mut query: [Binary32; DIMS] = draw_vector(
            &mut rng,
            Ghost(seed),
            Ghost((DIMS * index) as nat),
        );
        if index % 4 == 0 {
            let none: Binary32 = Binary32::from_u64(1).negate();
            query[5] = none;
            query[6] = none;
        }
        assert(query@ =~= generated_query(seed, index as int));
        queries.push(query);
        index += 1;
    }
    queries
}

/// Every dimension of a generated reference lies in `[0, 1)`, and so its steps
/// lie between zero and those of one.
pub proof fn law_generated_in_unit(seed: u64, i: int, dim: int)
    requires
        0 <= i,
        0 <= dim < DIMS,
    ensures
        generated_vector(seed, i)[dim].is_finite(),
        0 <= generated_vector(seed, i)[dim].value() < binary32::one_in_units(),
        0 <= quantize::quantized(generated_vector(seed, i)[dim]) <= quantize::QUANT_STEPS,
{
    let first = (DRAWS_PER_REFERENCE * i) as nat;
    let z = rng::draw(seed, first + dim as nat);
    let v = rng::unit_draw(z);
    assert(generated_vector(seed, i)[dim] == v);
    rng::law_uniform_is_exact(z);
    quantize::law_unit_steps(v);
    if v.negative() {
        assert(v.units() == 0);
        vstd::arithmetic::power2::lemma_pow2_pos(149);
        assert(0 * quantize::QUANT_STEPS as nat == 0);
        vstd::arithmetic::div_mod::lemma_basic_div(
            binary32::one_in_units() as int,
            2 * binary32::one_in_units() as int,
        );
    }
}

/// What a reference is does not depend on its place in the set: drawn from the
/// state that the references before it leave, it comes out the same.
pub proof fn law_references_do_not_depend_on_their_place(seed: u64, i: int, k: int)
    requires
        0 <= i,
        0 <= k,
    ensures
        generated_vector(seed, i + k) == generated_vector(rng::state_after(seed, (15 * k) as nat), i),
        generated_fraud(seed, i + k) == generated_fraud(rng::state_after(seed, (15 * k) as nat), i),
{
    let later = rng::state_after(seed, (15 * k) as nat);
    assert forall|d: int| 0 <= d < 15 implies rng::uniform(seed, (15 * (i + k) + d) as nat)
        == #[trigger] rng::uniform(later, (15 * i + d) as nat) by {
        rng::law_draws_follow(seed, (15 * k) as nat, (15 * i + d) as nat);
        assert((15 * k) as nat + (15 * i + d) as nat == (15 * (i + k) + d) as nat);
    }
    assert forall|d: int| 0 <= d < 14 implies generated_vector(seed, i + k)[d] == generated_vector(
        later,
        i,
    )[d] by {
        assert(rng::uniform(seed, (15 * (i + k) + d) as nat) == rng::uniform(
            later,
            (15 * i + d) as nat,
        ));
        assert((15 * (i + k)) as nat + d as nat == (15 * (i + k) + d) as nat);
        assert((15 * i) as nat + d as nat == (15 * i + d) as nat);
    }
    assert(generated_vector(seed, i + k) =~= generated_vector(later, i));
    assert(rng::uniform(seed, (15 * (i + k) + 14) as nat) == rng::uniform(
        later,
        (15 * i + 14) as nat,
    ));
}

/// The label of a reference depends on its vector and its noise alone.
pub proof fn law_labels_depend_on_vector_and_noise(a: u64, i: int, b: u64, j: int)
    requires
        0 <= i,
        0 <= j,
        generated_vector(a, i) == generated_vector(b, j),
        rng::uniform(a, (15 * i + 14) as nat) == rng::uniform(b, (15 * j + 14) as nat),
    ensures
        generated_fraud(a, i) == generated_fraud(b, j),
{
}

/// Dimension `d` of a reference is the top 24 bits of its own draw over `2^24`.
pub proof fn law_references_are_drawn(seed: u64, i: int, d: int)
    requires
        0 <= i,
        0 <= d < 14,
    ensures
        generated_vector(seed, i).len() == 14,
        generated_vector(seed, i)[d].is_finite(),
        generated_vector(seed, i)[d].value() * 0x100_0000 == (rng::draw(
            seed,
            (15 * i + d) as nat,
        ) >> 40) * binary32::one_in_units(),
{
    assert((15 * i) as nat + d as nat == (15 * i + d) as nat);
    rng::law_uniform_is_exact(rng::draw(seed, (15 * i + d) as nat));
}

/// Dimension `d` of a query is the top 24 bits of its own draw over `2^24`, but
/// for minus one in the places of the previous transaction in every fourth.
pub proof fn law_queries_are_drawn(seed: u64, i: int, d: int)
    requires
        0 <= i,
        0 <= d < 14,
    ensures
        generated_query(seed, i).len() == 14,
        generated_query(seed, i)[d].is_finite(),
        i % 4 == 0 && (d == 5 || d == 6) ==> generated_query(seed, i)[d].value() == -(
        binary32::one_in_units() as int),
        !(i % 4 == 0 && (d == 5 || d == 6)) ==> generated_query(seed, i)[d].value() * 0x100_0000 == (
        rng::draw(seed, (14 * i + d) as nat) >> 40) * binary32::one_in_units(),
{
    assert((14 * i) as nat + d as nat == (14 * i + d) as nat);
    rng::law_uniform_is_exact(rng::draw(seed, (14 * i + d) as nat));
    binary32::lemma_natural_is_exact(1);
}

} // verus!
