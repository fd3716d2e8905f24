//! The five nearest references: order, search, merge and validation.

use core::cmp::Ordering;
use rinha_gpu_bruteforce::binary32::Binary32;
use rinha_gpu_bruteforce::decision::{decision_from_top5, format_top5, fraud_answer};
use rinha_gpu_bruteforce::distance::Distance;
use rinha_gpu_bruteforce::generate::{generate_queries, generate_references};
use rinha_gpu_bruteforce::labels::PackedLabels;
use rinha_gpu_bruteforce::quantize::{
    pack_i16_pair, quantize_query, unpack_i16, QueryUniform, DIMS,
};
use rinha_gpu_bruteforce::references::{cpu_f32_top5, cpu_quantized_top5, ReferenceData};
use rinha_gpu_bruteforce::topk::{
    candidate_order, comes_before, count_frauds, insert_top5, known_indices, merge_candidates,
    same_top5, Candidate, GpuCandidate, NO_INDEX, TOP_K,
};
use rinha_gpu_bruteforce::validation::{planned_checks, ValidationStats};
use rinha_gpu_bruteforce::wire::{
    merge_readback, params_bytes, query_bytes, read_candidates, reference_bytes, Params,
};

fn of(value: f32) -> Binary32 {
    Binary32 { bits: value.to_bits() }
}

fn plain(distance: f32, index: u32, label: u32) -> Candidate<Binary32> {
    Candidate { distance: of(distance), index, label }
}

fn exact(distance: u64, index: u32, label: u32) -> Candidate<u64> {
    Candidate { distance, index, label }
}

fn indices<D>(top: &[Candidate<D>; TOP_K]) -> Vec<u32> {
    top.iter().map(|c| c.index).collect()
}

fn best<D: Distance>(list: &[Candidate<D>]) -> [Candidate<D>; TOP_K] {
    let mut top = [Candidate::worst(); TOP_K];
    for c in list {
        insert_top5(&mut top, *c);
    }
    top
}

/// All candidates of a query by their packed vectors.
fn machine_candidates(data: &ReferenceData, query: &[Binary32; DIMS]) -> Vec<Candidate<u64>> {
    let steps = quantize_query(query);
    let mut list: Vec<Candidate<u64>> = Vec::new();
    for (index, vector) in data.packed_vectors.chunks_exact(8).enumerate() {
        let mut distance = 0u64;
        for dim in 0..DIMS {
            let diff = unpack_i16(vector[dim / 2], dim % 2 == 1) as i64 - steps[dim] as i64;
            distance += (diff * diff) as u64;
        }
        list.push(exact(distance, index as u32, data.labels.get(index)));
    }
    list
}

/// What a kernel writes: the five best of every block of 256.  The distance of an
/// empty slot is left as whatever stood there.
fn block_results(list: &[Candidate<u64>]) -> Vec<GpuCandidate> {
    let mut out: Vec<GpuCandidate> = Vec::new();
    for block in list.chunks(256) {
        for c in best(block) {
            let distance = if c.index == NO_INDEX { 7 } else { c.distance };
            out.push(GpuCandidate { distance, index: c.index, label: 0 });
        }
    }
    out
}

fn bytes_of(list: &[GpuCandidate]) -> Vec<u8> {
    let mut bytes: Vec<u8> = Vec::new();
    for c in list {
        for word in [c.distance as u32, (c.distance >> 32) as u32, c.index, c.label] {
            bytes.extend_from_slice(&word.to_ne_bytes());
        }
    }
    bytes
}

#[test]
fn candidates_are_ordered_by_distance_and_then_by_index() {
    assert_eq!(candidate_order(plain(1.0, 9, 0), plain(2.0, 1, 0)), Ordering::Less);
    assert_eq!(candidate_order(plain(2.0, 1, 0), plain(1.0, 9, 0)), Ordering::Greater);
    assert_eq!(candidate_order(plain(1.0, 1, 0), plain(1.0, 2, 0)), Ordering::Less);
    assert_eq!(candidate_order(plain(1.0, 2, 0), plain(1.0, 1, 0)), Ordering::Greater);
    assert_eq!(candidate_order(plain(1.0, 2, 0), plain(1.0, 2, 1)), Ordering::Equal);
    assert_eq!(candidate_order(plain(-0.0, 5, 0), plain(0.0, 1, 0)), Ordering::Less);
    assert_eq!(
        candidate_order(plain(f32::INFINITY, 5, 0), plain(f32::NAN, 1, 0)),
        Ordering::Less
    );
    assert!(comes_before(plain(1.0, 1, 0), Candidate::worst()));
    assert!(!comes_before(Candidate::<u64>::worst(), Candidate::worst()));
}

#[test]
fn the_worst_candidate_is_infinitely_far() {
    let worst = Candidate::<Binary32>::worst();
    assert_eq!(worst.distance.bits, f32::INFINITY.to_bits());
    assert_eq!(worst.index, u32::MAX);
    assert_eq!(worst.label, 0);
    assert_eq!(Candidate::<u64>::worst(), exact(u64::MAX, u32::MAX, 0));
}

#[test]
fn an_empty_slot_is_no_plain() {
    let slot = GpuCandidate { distance: 1, index: NO_INDEX, label: 0 };
    assert_eq!(Candidate::from_gpu(slot), None);
    let taken = GpuCandidate { distance: 1 << 35, index: 3, label: 1 };
    assert_eq!(Candidate::from_gpu(taken), Some(exact(1 << 35, 3, 1)));
}

#[test]
fn insertion_keeps_the_five_best_in_order() {
    let list: Vec<Candidate<Binary32>> = [9.0f32, 3.0, 7.0, 1.0, 5.0, 3.0, 8.0, 0.5]
        .iter()
        .enumerate()
        .map(|(i, d)| plain(*d, i as u32, 0))
        .collect();
    assert_eq!(indices(&best(&list)), vec![7, 3, 1, 5, 4]);
    assert_eq!(indices(&best(&list[..2])), vec![1, 0, NO_INDEX, NO_INDEX, NO_INDEX]);
    let full = best(&list);
    let mut same = full;
    insert_top5(&mut same, plain(100.0, 50, 0));
    assert_eq!(same, full);
}

#[test]
fn the_best_of_block_bests_are_the_best_of_all() {
    let data = generate_references(1500, 9, false);
    for query in generate_queries(6, 10) {
        let list = machine_candidates(&data, &query);
        let merged = merge_candidates(&block_results(&list), &data.labels);
        assert_eq!(merged, best(&list));
        assert_eq!(merged, cpu_quantized_top5(&data, &query));
    }
}

#[test]
fn no_reference_comes_twice_and_no_slot_stays_empty() {
    let data = generate_references(700, 4, false);
    for query in generate_queries(4, 5) {
        let found = indices(&cpu_quantized_top5(&data, &query));
        for i in 0..TOP_K {
            assert!((found[i] as usize) < 700);
            for j in 0..i {
                assert_ne!(found[i], found[j]);
            }
        }
    }
}

#[test]
fn search_of_plain_values_is_that_of_the_machine() {
    let data = generate_references(300, 21, true);
    for query in generate_queries(5, 22) {
        let mut list: Vec<Candidate<Binary32>> = Vec::new();
        for index in 0..300usize {
            let mut distance = 0.0f32;
            for dim in 0..DIMS {
                let diff = f32::from_bits(data.vectors_f32[index * DIMS + dim].bits)
                    - f32::from_bits(query[dim].bits);
                distance += diff * diff;
            }
            list.push(plain(distance, index as u32, data.labels.get(index)));
        }
        assert_eq!(cpu_f32_top5(&data, &query), best(&list));
    }
    let bare = generate_references(300, 21, false);
    let query = [of(0.5); DIMS];
    assert_eq!(cpu_f32_top5(&bare, &query), [Candidate::worst(); TOP_K]);
}

#[test]
fn distances_are_summed_exactly() {
    let mut labels = PackedLabels::new(0);
    labels.push(false);
    labels.push(true);
    let mut packed_vectors = vec![0u32; 16];
    packed_vectors[0] = pack_i16_pair(4096, 1);
    packed_vectors[8] = pack_i16_pair(4096, 0);
    let data = ReferenceData { vectors_f32: Vec::new(), packed_vectors, labels };
    let found = cpu_quantized_top5(&data, &[of(0.0); DIMS]);
    assert_eq!(found[0], exact(16_777_216, 1, 1));
    assert_eq!(found[1], exact(16_777_217, 0, 0));
    for slot in &found[2..] {
        assert_eq!(*slot, Candidate::worst());
    }
}

#[test]
fn far_apart_steps_do_not_wrap() {
    let mut data = ReferenceData::new();
    data.push(&[of(100.0); DIMS], true, false);
    let found = cpu_quantized_top5(&data, &[of(-100.0); DIMS]);
    assert_eq!(found[0], exact(14 * 65535 * 65535, 0, 1));
}

#[test]
fn pushed_records_are_found_again() {
    let mut data = ReferenceData::new();
    for i in 0..40u32 {
        data.push(&[Binary32::ratio(i, 64); DIMS], i % 2 == 1, true);
    }
    assert_eq!(data.len(), 40);
    let query = [Binary32::ratio(17, 64); DIMS];
    let packed = cpu_quantized_top5(&data, &query);
    assert_eq!(indices(&packed), vec![17, 16, 18, 15, 19]);
    assert_eq!(packed[0].distance, 0);
    assert_eq!(count_frauds(&packed), 3);
    let values = cpu_f32_top5(&data, &query);
    assert!(same_top5(&packed, &values));
    assert_eq!(values[0].distance.bits, 0);
}

#[test]
fn unknown_indices_are_noticed() {
    let known = GpuCandidate { distance: 1, index: 3, label: 0 };
    let unknown = GpuCandidate { distance: 1, index: 4, label: 0 };
    let none = GpuCandidate { distance: 9, index: NO_INDEX, label: 0 };
    assert!(known_indices(&[known, none], 4));
    assert!(!known_indices(&[known, unknown], 4));
    let labels = PackedLabels::new(4);
    assert_eq!(merge_readback(&bytes_of(&[known, unknown]), &labels), None);
    assert_eq!(
        merge_readback(&bytes_of(&[known, none]), &labels),
        Some(best(&[exact(1, 3, 0)]))
    );
}

#[test]
fn labels_come_from_the_label_bits() {
    let mut labels = PackedLabels::new(10);
    labels.set(2, true);
    let written = [
        GpuCandidate { distance: 4, index: 2, label: 0 },
        GpuCandidate { distance: 2, index: 7, label: 1 },
    ];
    let top = merge_candidates(&written, &labels);
    assert_eq!(top[0], exact(2, 7, 0));
    assert_eq!(top[1], exact(4, 2, 1));
}

#[test]
fn candidates_are_read_out_of_their_bytes() {
    let written = vec![
        GpuCandidate { distance: 0x1_0000_0002, index: 7, label: 1 },
        GpuCandidate { distance: u64::MAX, index: NO_INDEX, label: 0 },
    ];
    assert_eq!(read_candidates(&bytes_of(&written)), written);
    assert!(read_candidates(&[]).is_empty());
}

#[test]
fn a_readback_merges_like_an_exhaustive_search() {
    let data = generate_references(600, 31, false);
    let query = generate_queries(2, 32)[1];
    let bytes = bytes_of(&block_results(&machine_candidates(&data, &query)));
    assert_eq!(bytes.len(), 3 * 5 * 16);
    assert_eq!(merge_readback(&bytes, &data.labels), Some(cpu_quantized_top5(&data, &query)));
}

#[test]
fn what_stands_in_an_empty_slot_does_not_matter() {
    let data = generate_references(258, 17, false);
    for query in generate_queries(3, 18) {
        let written = block_results(&machine_candidates(&data, &query));
        assert_eq!(written[9].index, NO_INDEX);
        assert_eq!(merge_candidates(&written, &data.labels), cpu_quantized_top5(&data, &query));
    }
}

#[test]
fn buffers_hold_words_in_machine_order() {
    let mut query = [of(0.0); DIMS];
    query[0] = of(1.0);
    query[5] = of(-1.0);
    let bytes = query_bytes(&QueryUniform::from_query(&query));
    assert_eq!(bytes.len(), 64);
    assert_eq!(&bytes[0..4], &8192i32.to_ne_bytes());
    assert_eq!(&bytes[20..24], &(-8192i32).to_ne_bytes());
    let params = params_bytes(Params { ref_count: 0x0102_0304, refs_per_chunk: 9 });
    assert_eq!(params.len(), 16);
    assert_eq!(&params[0..4], &0x0102_0304u32.to_ne_bytes());
    assert_eq!(&params[4..8], &9u32.to_ne_bytes());
    assert_eq!(&params[8..16], &[0u8; 8]);
    let words = reference_bytes(&[0xe000_2000, 1]);
    assert_eq!(&words[0..4], &0xe000_2000u32.to_ne_bytes());
    assert_eq!(&words[4..8], &1u32.to_ne_bytes());
}

#[test]
fn the_decision_follows_the_share_of_fraud() {
    for frauds in 0..=5u32 {
        let mut top = [exact(1, 0, 0); TOP_K];
        for i in 0..frauds as usize {
            top[i].label = 1;
        }
        let decision = decision_from_top5(&top);
        let score = frauds as f32 / 5.0;
        assert_eq!(decision.fraud_score.bits, score.to_bits());
        assert_eq!(decision.approved, score < 0.6);
        assert_eq!(decision.approved, frauds < 3);
        assert_eq!(
            fraud_answer(&top),
            format!("{{\"approved\":{},\"fraud_score\":{:.1}}}", score < 0.6, score)
        );
    }
    let mut odd = [exact(1, 0, 2); TOP_K];
    odd[0].label = 1;
    assert_eq!(count_frauds(&odd), 1);
}

#[test]
fn a_report_names_index_distance_and_label() {
    let top = [
        plain(0.5, 7, 1),
        plain(1.0, 10, 0),
        plain(2.0, 3, 0),
        plain(4.0, 4, 1),
        Candidate::worst(),
    ];
    let texts: [String; TOP_K] = [
        format!("{:.6}", 0.5f32),
        format!("{:.6}", 1.0f32),
        format!("{:.6}", 2.0f32),
        format!("{:.6}", 4.0f32),
        format!("{:.6}", f32::INFINITY),
    ];
    assert_eq!(
        format_top5(&top, &texts),
        "[{idx:7,dist:0.500000,label:1},{idx:10,dist:1.000000,label:0},\
         {idx:3,dist:2.000000,label:0},{idx:4,dist:4.000000,label:1},\
         {idx:4294967295,dist:inf,label:0}]"
    );
}

#[test]
fn top_fives_are_the_same_by_index_and_label() {
    let a = best(&[exact(1, 1, 0), exact(2, 2, 1)]);
    let mut b = a;
    b[0].distance = 0;
    assert!(same_top5(&a, &b));
    b[1].label = 0;
    assert!(!same_top5(&a, &b));
    b = a;
    b[1].index = 9;
    assert!(!same_top5(&a, &b));
}

#[test]
fn a_validation_counts_and_refuses() {
    let data = generate_references(500, 42, true);
    let queries = generate_queries(3, 43);
    assert_eq!(planned_checks(2, queries.len()), 2);
    assert_eq!(planned_checks(10, queries.len()), 3);
    let mut stats = ValidationStats::new();
    for query in &queries {
        let device = cpu_quantized_top5(&data, query);
        assert_eq!(stats.check(&data, query, &device), Ok(()));
    }
    assert_eq!(stats.checked, 3);
    assert!(stats.f32_top5_mismatches <= 3);

    let before = stats;
    let mut wrong = cpu_quantized_top5(&data, &queries[0]);
    wrong[4].index += 1;
    let searched = cpu_quantized_top5(&data, &queries[0]);
    assert_eq!(stats.check(&data, &queries[0], &wrong), Err(searched));
    assert_eq!(stats, before);
}

#[test]
fn a_validation_counts_what_plain_values_decide_otherwise() {
    // The packed vectors of both halves are the same; the plain ones are not.
    let mut data = ReferenceData::new();
    for i in 0..5u32 {
        data.push(&[Binary32::ratio(i + 50, 1_000_000); DIMS], false, true);
    }
    for i in 0..5u32 {
        data.push(&[Binary32::ratio(i, 1_000_000); DIMS], true, true);
    }
    let query = [of(0.0); DIMS];
    let device = cpu_quantized_top5(&data, &query);
    let values = cpu_f32_top5(&data, &query);
    assert_eq!(indices(&values), vec![5, 6, 7, 8, 9]);
    let mut stats = ValidationStats::new();
    assert_eq!(stats.check(&data, &query, &device), Ok(()));
    let differs = !same_top5(&values, &device);
    let decides = decision_from_top5(&values).approved != decision_from_top5(&device).approved;
    assert_eq!(stats.f32_top5_mismatches, differs as usize);
    assert_eq!(stats.f32_decision_mismatches, decides as usize);
    assert!(differs && decides);
}
