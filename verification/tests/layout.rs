//! Layout on the device, limits, memory, settings and latency.

use rinha_gpu_bruteforce::latency::{percentile, LatencyStats};
use rinha_gpu_bruteforce::plan::{
    div_ceil, effective_reference_count, required_limits, DeviceLimits, DeviceType, GpuPlan,
    LimitError, MemoryPlan, PlanError,
};
use rinha_gpu_bruteforce::rng::SplitMix64;
use rinha_gpu_bruteforce::settings::{
    query_of_turn, query_seed, reference_source, resource_source, validate_args, validation_count,
    Settings, SettingsError, Source,
};

fn offered() -> DeviceLimits {
    DeviceLimits {
        max_storage_buffer_binding_size: 0x4000_0000,
        max_buffer_size: 0x8000_0000,
        max_compute_invocations_per_workgroup: 1024,
        max_compute_workgroup_size_x: 1024,
    }
}

fn settings() -> Settings {
    Settings {
        references: 3_000_000,
        queries: 32,
        iterations: 50,
        api_instances: 2,
        memory_limit_bits: 350.0f64.to_bits(),
    }
}

#[test]
fn quotients_are_rounded_up() {
    assert_eq!(div_ceil(0, 256), 0);
    assert_eq!(div_ceil(1, 256), 1);
    assert_eq!(div_ceil(256, 256), 1);
    assert_eq!(div_ceil(257, 256), 2);
    assert_eq!(div_ceil(u32::MAX, 1), u32::MAX);
    assert_eq!(div_ceil(u32::MAX, 2), 0x8000_0000);
}

#[test]
fn only_a_software_adapter_is_limited() {
    assert_eq!(effective_reference_count(100, 500, DeviceType::Cpu), 100);
    assert_eq!(effective_reference_count(500, 100, DeviceType::Cpu), 100);
    assert_eq!(effective_reference_count(0, 500, DeviceType::Cpu), 500);
    for device in [
        DeviceType::Other,
        DeviceType::IntegratedGpu,
        DeviceType::DiscreteGpu,
        DeviceType::VirtualGpu,
    ] {
        assert_eq!(effective_reference_count(100, 500, device), 500);
    }
}

#[test]
fn three_million_references_fit_one_buffer() {
    let plan = GpuPlan::new(3_000_000, 128 << 20).unwrap();
    assert_eq!(plan.workgroup_count, 11_719);
    assert_eq!(plan.refs_per_chunk, 4_194_304);
    assert_eq!(plan.reference_chunk_count, 1);
    assert_eq!(plan.max_reference_chunk_size, 96_000_000);
    assert_eq!(plan.output_size, 11_719 * 80);
    assert_eq!(plan.largest_buffer(), 96_000_000);
    let params = plan.params();
    assert_eq!((params.ref_count, params.refs_per_chunk), (3_000_000, 4_194_304));
}

#[test]
fn small_references_need_most_room_for_candidates() {
    let plan = GpuPlan::new(2, 1 << 20).unwrap();
    assert_eq!(plan.max_reference_chunk_size, 64);
    assert_eq!(plan.output_size, 80);
    assert_eq!(plan.largest_buffer(), 80);
}

#[test]
fn chunks_follow_each_other() {
    let packed: Vec<u32> = (0..100u32).collect();
    let plan = GpuPlan::new(12, 7 * 32 + 5).unwrap();
    assert_eq!(plan.refs_per_chunk, 7);
    assert_eq!(plan.reference_chunk_count, 2);
    assert_eq!(plan.chunk(&packed, 0), &packed[0..56]);
    assert_eq!(plan.chunk(&packed, 1), &packed[56..96]);
    for i in 0..12usize {
        let chunk = plan.chunk(&packed, i / 7);
        assert_eq!(&chunk[8 * (i % 7)..8 * (i % 7) + 8], &packed[8 * i..8 * i + 8]);
    }
}

#[test]
fn layouts_that_do_not_fit_are_refused() {
    assert_eq!(
        GpuPlan::new(u32::MAX as usize + 1, u32::MAX),
        Err(PlanError::TooManyReferences)
    );
    assert_eq!(
        GpuPlan::new(15, 7 * 32),
        Err(PlanError::TooManyBuffers { needed: 3, refs_per_chunk: 7 })
    );
    assert_eq!(
        GpuPlan::new(3, 31),
        Err(PlanError::TooManyBuffers { needed: 3, refs_per_chunk: 1 })
    );
    assert!(GpuPlan::new(2, 31).is_ok());
    assert_eq!(GpuPlan::new(0, 32).unwrap().reference_chunk_count, 0);
}

#[test]
fn limits_are_raised_where_more_is_needed() {
    let defaults = wgpu::Limits::downlevel_defaults();
    let small = required_limits(offered(), 1000, 1000).unwrap();
    assert_eq!(small.max_storage_buffer_binding_size, defaults.max_storage_buffer_binding_size);
    assert_eq!(small.max_buffer_size, defaults.max_buffer_size);
    assert_eq!(small.max_compute_invocations_per_workgroup, 256);
    assert_eq!(small.max_compute_workgroup_size_x, 256);
    assert_eq!(small.max_storage_buffer_binding_size, 128 << 20);
    assert_eq!(small.max_buffer_size, 256 << 20);
    let large = required_limits(offered(), 0x2000_0000, 0x3000_0000).unwrap();
    assert_eq!(large.max_storage_buffer_binding_size, 0x2000_0000);
    assert_eq!(large.max_buffer_size, 0x3000_0000);
}

#[test]
fn the_first_limit_that_is_too_small_is_named() {
    assert_eq!(
        required_limits(offered(), 0x4000_0001, 0x9000_0000),
        Err(LimitError::StorageBinding { offered: 0x4000_0000, needed: 0x4000_0001 })
    );
    assert_eq!(
        required_limits(offered(), 1, 0x8000_0001),
        Err(LimitError::Buffer { offered: 0x8000_0000, needed: 0x8000_0001 })
    );
    let mut weak = offered();
    weak.max_compute_workgroup_size_x = 255;
    assert_eq!(required_limits(weak, 1, 1), Err(LimitError::WorkgroupSize { offered: 255 }));
    weak.max_compute_invocations_per_workgroup = 128;
    assert_eq!(required_limits(weak, 1, 1), Err(LimitError::Invocations { offered: 128 }));
}

#[test]
fn two_instances_fit_the_memory_budget() {
    let plan = MemoryPlan::new(3_000_000);
    assert_eq!(plan.reference_bytes, 96_000_000);
    assert_eq!(plan.packed_label_bytes, 375_000);
    assert_eq!(plan.candidate_buffer_bytes, 937_520);
    assert_eq!(plan.persistent_gpu_bytes_per_api, 98_250_120);
    assert_eq!(plan.total_bytes(2), 196_500_240);
    let mib = plan.total_bytes(2) as f64 / 1024.0 / 1024.0 + 30.0;
    assert_eq!(format!("{mib:.1}"), "217.4");
    assert!(mib <= 350.0);
    let empty = MemoryPlan::new(0);
    assert_eq!(empty.persistent_gpu_bytes_per_api, 80);
}

#[test]
fn workgroups_are_counted_by_32_bits() {
    let plan = MemoryPlan::new(0x1_0000_0001);
    assert_eq!(plan.candidate_buffer_bytes, 80);
    assert_eq!(plan.reference_bytes, 0x1_0000_0001 * 32);
}

#[test]
fn settings_are_checked_in_order() {
    assert_eq!(validate_args(&settings()), Ok(()));
    let mut s = settings();
    s.memory_limit_bits = 0.0f64.to_bits();
    assert_eq!(validate_args(&s), Err(SettingsError::NoMemory));
    s.api_instances = 1;
    assert_eq!(validate_args(&s), Err(SettingsError::TooFewInstances));
    s.iterations = 0;
    assert_eq!(validate_args(&s), Err(SettingsError::NoIterations));
    s.queries = 0;
    assert_eq!(validate_args(&s), Err(SettingsError::NoQueries));
    s.references = u32::MAX as usize + 1;
    assert_eq!(validate_args(&s), Err(SettingsError::TooManyReferences));
    s.references = 4;
    assert_eq!(validate_args(&s), Err(SettingsError::TooFewReferences));
}

#[test]
fn a_memory_limit_is_a_positive_number() {
    for limit in [0.0f64, -0.0, -1.0, f64::NEG_INFINITY, -5e-324] {
        let mut s = settings();
        s.memory_limit_bits = limit.to_bits();
        assert!(limit <= 0.0);
        assert_eq!(validate_args(&s), Err(SettingsError::NoMemory));
    }
    for limit in [5e-324f64, 1.0, f64::INFINITY, f64::NAN, -f64::NAN] {
        let mut s = settings();
        s.memory_limit_bits = limit.to_bits();
        assert!(!(limit <= 0.0));
        assert_eq!(validate_args(&s), Ok(()));
    }
}

#[test]
fn sources_are_chosen() {
    assert_eq!(resource_source(true, true), Source::File);
    assert_eq!(resource_source(true, false), Source::File);
    assert_eq!(resource_source(false, true), Source::Missing);
    assert_eq!(resource_source(false, false), Source::BuiltIn);
    assert_eq!(reference_source(false, true, true), Source::File);
    assert_eq!(reference_source(true, true, false), Source::BuiltIn);
    assert_eq!(reference_source(true, true, true), Source::BuiltIn);
    assert_eq!(reference_source(true, false, true), Source::Missing);
    assert_eq!(reference_source(false, false, true), Source::Missing);
    assert_eq!(reference_source(true, false, false), Source::BuiltIn);
    assert_eq!(reference_source(false, false, false), Source::BuiltIn);
}

#[test]
fn turns_and_seeds() {
    assert_eq!(validation_count(true, 7), 0);
    assert_eq!(validation_count(false, 7), 7);
    assert_eq!(query_seed(42), 42 ^ 0xa076_1d64_78bd_642f);
    assert_eq!(query_of_turn(70, 32), 6);
}

#[test]
fn latencies_are_order_statistics() {
    let values: Vec<u64> = (1..=101u64).rev().collect();
    let stats = LatencyStats::new(values);
    assert_eq!(stats.min_ns, 1);
    assert_eq!(stats.p50_ns, 51);
    assert_eq!(stats.p95_ns, 96);
    assert_eq!(stats.p99_ns, 100);
    assert_eq!(stats.max_ns, 101);
    let one = LatencyStats::new(vec![9]);
    assert_eq!((one.min_ns, one.p50_ns, one.p99_ns, one.max_ns), (9, 9, 9, 9));
    let two = LatencyStats::new(vec![8, 3]);
    assert_eq!((two.min_ns, two.p50_ns, two.max_ns), (3, 8, 8));
}

#[test]
fn percentile_ranks_are_those_of_the_machine() {
    for len in 1..600usize {
        let sorted: Vec<u64> = (0..len as u64).collect();
        for percent in 0..=100u32 {
            let rank = ((percent as f64 / 100.0) * (len - 1) as f64).ceil() as u64;
            assert_eq!(percentile(&sorted, percent), rank);
        }
    }
}

#[test]
fn a_share_just_above_a_whole_takes_the_next_value() {
    let sorted: Vec<u64> = (0..101u64).collect();
    assert_eq!(percentile(&sorted, 7), 8);
    assert_eq!(percentile(&sorted, 50), 50);
    assert_eq!(percentile(&sorted, 99), 99);
    assert_eq!(percentile(&[5], 250), 5);
}

#[test]
fn latencies_do_not_depend_on_the_order() {
    let mut rng = SplitMix64::new(2);
    let values: Vec<u64> = (0..500).map(|_| rng.next_u64() % 1000).collect();
    let mut turned = values.clone();
    turned.reverse();
    let stats = LatencyStats::new(values);
    assert_eq!(stats, LatencyStats::new(turned));
    assert!(stats.min_ns <= stats.p50_ns && stats.p50_ns <= stats.p95_ns);
}
