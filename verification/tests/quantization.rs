//! Quantisation, packing and labels.

use rinha_gpu_bruteforce::binary32::Binary32;
use rinha_gpu_bruteforce::labels::PackedLabels;
use rinha_gpu_bruteforce::quantize::{
    append_reference_vector, pack_i16_pair, quantize_query, quantize_value, unpack_i16, QueryUniform,
    DIMS,
};
use rinha_gpu_bruteforce::rng::SplitMix64;

fn of(value: f32) -> Binary32 {
    Binary32 { bits: value.to_bits() }
}

fn machine_steps(value: f32) -> i16 {
    (value * 8192.0).round().clamp(-32768.0, 32767.0) as i16
}

#[test]
fn quantising_scales_rounds_and_saturates() {
    assert_eq!(quantize_value(of(1.0)), 8192);
    assert_eq!(quantize_value(of(-1.0)), -8192);
    assert_eq!(quantize_value(of(0.5)), 4096);
    assert_eq!(quantize_value(of(0.0)), 0);
    assert_eq!(quantize_value(of(1.0 / 16384.0)), 1);
    assert_eq!(quantize_value(of(-1.0 / 16384.0)), -1);
    assert_eq!(quantize_value(of(100.0)), 32767);
    assert_eq!(quantize_value(of(-100.0)), -32768);
    assert_eq!(quantize_value(of(f32::INFINITY)), 32767);
    assert_eq!(quantize_value(of(f32::NEG_INFINITY)), -32768);
    assert_eq!(quantize_value(of(f32::NAN)), 0);
}

#[test]
fn quantising_agrees_with_the_machine() {
    let mut rng = SplitMix64::new(11);
    for _ in 0..20_000 {
        let value = f32::from_bits((rng.next_u64() >> 32) as u32);
        assert_eq!(quantize_value(of(value)), machine_steps(value), "{value:e}");
        let unit = f32::from_bits(rng.next_f32().bits) * 5.0 - 2.5;
        assert_eq!(quantize_value(of(unit)), machine_steps(unit), "{unit:e}");
    }
}

#[test]
fn packed_pairs_come_back() {
    for low in [i16::MIN, -1, 0, 1, 8192, i16::MAX] {
        for high in [i16::MIN, -8192, 0, 7, i16::MAX] {
            let word = pack_i16_pair(low, high);
            assert_eq!(unpack_i16(word, false), low);
            assert_eq!(unpack_i16(word, true), high);
        }
    }
    assert_eq!(pack_i16_pair(-1, 2), 0x0002_ffff);
}

#[test]
fn unpacked_words_pack_again() {
    for word in [0u32, 1, 0xffff, 0x8000_7fff, 0xdead_beef, u32::MAX] {
        assert_eq!(pack_i16_pair(unpack_i16(word, false), unpack_i16(word, true)), word);
    }
}

#[test]
fn queries_are_padded_with_zero() {
    let mut query = [of(0.25); DIMS];
    query[5] = of(-1.0);
    let steps = quantize_query(&query);
    assert_eq!(steps[0], 2048);
    assert_eq!(steps[5], -8192);
    assert_eq!(steps[13], 2048);
    assert_eq!(&steps[14..], &[0, 0]);
    let uniform = QueryUniform::from_query(&query);
    assert_eq!(uniform.values[5], -8192);
    assert_eq!(uniform.values[15], 0);
}

#[test]
fn a_vector_is_appended_packed_and_as_it_is() {
    let mut vector = [of(0.0); DIMS];
    vector[0] = of(1.0);
    vector[1] = of(-1.0);
    vector[13] = of(0.5);
    let mut plain: Vec<Binary32> = Vec::new();
    let mut packed: Vec<u32> = Vec::new();
    append_reference_vector(&vector, true, &mut plain, &mut packed);
    assert_eq!(plain.len(), 14);
    assert_eq!(packed, vec![0xe000_2000, 0, 0, 0, 0, 0, 0x1000_0000, 0]);
    append_reference_vector(&vector, false, &mut plain, &mut packed);
    assert_eq!(plain.len(), 14);
    assert_eq!(packed.len(), 16);
    for dim in 0..DIMS {
        assert_eq!(unpack_i16(packed[dim / 2], dim % 2 == 1), quantize_value(vector[dim]));
    }
}

#[test]
fn labels_are_kept_bit_by_bit() {
    let mut labels = PackedLabels::new(70);
    assert_eq!(labels.words.len(), 3);
    labels.set(0, true);
    labels.set(31, true);
    labels.set(32, false);
    labels.set(69, true);
    labels.set(69, false);
    for i in 0..70usize {
        let expected = if i == 0 || i == 31 || i == 69 { 1 } else { 0 };
        assert_eq!(labels.get(i), expected);
    }
    assert_eq!(PackedLabels::new(0).words.len(), 0);
    assert_eq!(PackedLabels::new(32).words.len(), 1);
    assert_eq!(PackedLabels::new(33).words.len(), 2);
}

#[test]
fn appended_labels_are_those_that_were_set() {
    let mut appended = PackedLabels::new(0);
    let mut set = PackedLabels::new(100);
    for i in 0..100usize {
        appended.push(i % 3 == 0);
        set.set(i, i % 3 == 0);
    }
    assert_eq!(appended.len, 100);
    assert_eq!(appended.words, set.words);
}
