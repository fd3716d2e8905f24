//! The generator, and the references and queries drawn from it.

use rinha_gpu_bruteforce::binary32::Binary32;
use rinha_gpu_bruteforce::generate::{generate_queries, generate_references, score_vector};
use rinha_gpu_bruteforce::quantize::{quantize_value, unpack_i16, DIMS};
use rinha_gpu_bruteforce::rng::SplitMix64;
use rinha_gpu_bruteforce::settings::query_seed;

fn machine_unit(rng: &mut SplitMix64) -> f32 {
    let bits = (rng.next_u64() >> 40) as u32;
    bits as f32 / (1u32 << 24) as f32
}

#[test]
fn draws_follow_the_known_sequence() {
    let mut rng = SplitMix64::new(0);
    assert_eq!(rng.next_u64(), 0xe220_a839_7b1d_cdaf);
    assert_eq!(rng.next_u64(), 0x6e78_9e6a_a1b9_65f4);
    assert_eq!(rng.next_u64(), 0x06c4_5d18_8009_454f);
}

#[test]
fn drawing_on_from_a_state_gives_the_later_draws() {
    let mut whole = SplitMix64::new(42);
    for _ in 0..10 {
        whole.next_u64();
    }
    let mut rest = SplitMix64::new(whole.state);
    for _ in 0..5 {
        assert_eq!(rest.next_u64(), whole.next_u64());
    }
}

#[test]
fn uniform_values_are_exact_fractions() {
    let mut a = SplitMix64::new(5);
    let mut b = SplitMix64::new(5);
    for _ in 0..1000 {
        let value = f32::from_bits(a.next_f32().bits);
        assert_eq!(value, machine_unit(&mut b));
        assert!((0.0..1.0).contains(&value));
        assert_eq!((value * 16_777_216.0).fract(), 0.0);
    }
}

#[test]
fn references_are_those_of_the_formula() {
    let count = 400usize;
    let data = generate_references(count, 42, true);
    assert_eq!(data.len(), count);
    assert!(!data.is_empty());
    assert_eq!(data.packed_vectors.len(), count * 8);
    assert_eq!(data.vectors_f32.len(), count * DIMS);

    let mut rng = SplitMix64::new(42);
    let mut frauds = 0u32;
    for index in 0..count {
        let mut weighted_sum = 0.0f32;
        for dim in 0..DIMS {
            let value = machine_unit(&mut rng);
            weighted_sum += value * (dim as f32 + 1.0);
            assert_eq!(data.vectors_f32[index * DIMS + dim].bits, value.to_bits());
            let word = data.packed_vectors[index * 8 + dim / 2];
            assert_eq!(
                unpack_i16(word, dim % 2 == 1),
                quantize_value(Binary32 { bits: value.to_bits() })
            );
        }
        let normalized = weighted_sum / 105.0f32;
        let noisy_score = normalized + (machine_unit(&mut rng) - 0.5) * 0.2;
        let label = if noisy_score >= 0.52 { 1 } else { 0 };
        assert_eq!(data.labels.get(index), label);
        frauds += label;
    }
    assert!(frauds > 0 && frauds < count as u32);
}

#[test]
fn generated_steps_stay_between_zero_and_one() {
    let data = generate_references(200, 3, false);
    assert!(data.vectors_f32.is_empty());
    for word in &data.packed_vectors {
        for high in [false, true] {
            let steps = unpack_i16(*word, high);
            assert!((0..=8192).contains(&steps));
        }
    }
}

#[test]
fn the_score_of_a_vector_is_its_weighted_mean_with_noise() {
    let ones = [Binary32::from_u64(1); DIMS];
    let score = f32::from_bits(score_vector(&ones, Binary32::ratio(1, 2)).bits);
    assert_eq!(score, 1.0);
    let noisy = f32::from_bits(score_vector(&ones, Binary32::from_u64(0)).bits);
    assert_eq!(noisy, 1.0 + (0.0f32 - 0.5) * 0.2);
}

#[test]
fn every_fourth_query_has_no_previous_transaction() {
    let queries = generate_queries(9, query_seed(42));
    let minus_one = (-1.0f32).to_bits();
    let mut rng = SplitMix64::new(42 ^ 0xa076_1d64_78bd_642f);
    assert_eq!(queries.len(), 9);
    for (index, query) in queries.iter().enumerate() {
        for dim in 0..DIMS {
            let value = machine_unit(&mut rng);
            let expected = if index % 4 == 0 && (dim == 5 || dim == 6) {
                minus_one
            } else {
                value.to_bits()
            };
            assert_eq!(query[dim].bits, expected);
        }
    }
}

#[test]
fn no_references_and_no_queries_can_be_asked_for() {
    assert!(generate_references(0, 1, true).is_empty());
    assert!(generate_queries(0, 1).is_empty());
}
