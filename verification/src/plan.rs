//! How the reference set is laid out on a device, and what the device must offer.

use vstd::prelude::*;
use vstd::arithmetic::div_mod::*;
use crate::exactness;
use crate::quantize::PACKED_DIMS;
use crate::references;
use crate::topk::{Candidate, TOP_K};
use crate::wire::{Params, CANDIDATE_BYTES, WORD_BYTES};

verus! {

/// References that one workgroup reduces to its five best.
pub const WORKGROUP_SIZE: u32 = 256;

/// Reference buffers that the kernel can bind.
pub const MAX_REFERENCE_BUFFERS: usize = 2;

/// Bytes of a packed reference.
pub const BYTES_PER_REFERENCE: usize = 32;

/// Bytes of the query buffer.
pub const QUERY_BYTES: u64 = 64;

/// Bytes of the parameter buffer.
pub const PARAMS_BYTES: u64 = 16;

/// The number of groups of `size` that hold `n` items.
pub open spec fn groups(n: int, size: int) -> int {
    (n + size - 1) / size
}

/// Groups of `size` hold `n` items, and one group fewer does not.
pub(crate) proof fn lemma_groups(n: int, size: int)
    requires
        0 <= n,
        0 < size,
    ensures
        groups(n, size) == n / size + if n % size == 0 {
            0int
        } else {
            1
        },
        0 <= groups(n, size) <= n,
        (groups(n, size) - 1) * size < n || n == 0,
        groups(n, size) * size >= n,
{
    lemma_fundamental_div_mod(n, size);
    lemma_mod_bound(n, size);
    let q = n / size;
    let r = n % size;
    lemma_div_pos_is_pos(n, size);
    if r == 0 {
        assert(n + size - 1 == q * size + (size - 1)) by (nonlinear_arith)
            requires
                n == size * q + r,
                r == 0,
        ;
        lemma_fundamental_div_mod_converse(n + size - 1, size, q, size - 1);
    } else {
        assert(n + size - 1 == (q + 1) * size + (r - 1)) by (nonlinear_arith)
            requires
                n == size * q + r,
        ;
        lemma_fundamental_div_mod_converse(n + size - 1, size, q + 1, r - 1);
    }
    let g = groups(n, size);
    assert(g <= n && ((g - 1) * size < n || n == 0) && g * size >= n) by (nonlinear_arith)
        requires
            n == size * q + r,
            0 <= r < size,
            q >= 0,
            size > 0,
            g == q + if r == 0 {
                0int
            } else {
                1
            },
    ;
}

/// The quotient rounded up.
pub fn div_ceil(value: u32, divisor: u32) -> (r: u32)
    requires
        divisor > 0,
    ensures
        r == groups(value as int, divisor as int),
{
    proof {
        lemma_groups(value as int, divisor as int);
    }
    let whole: u32 = value / divisor;
    if value % divisor == 0 {
        whole
    } else {
        whole + 1
    }
}

/// The kinds of device that an adapter can stand for.
#[derive(Clone, Copy, Debug, PartialEq, Eq, Structural)]
pub enum DeviceType {
    Other,
    IntegratedGpu,
    DiscreteGpu,
    VirtualGpu,
    Cpu,
}

/// How many of `loaded` references are searched on a device under a limit for
/// software adapters; zero sets none.
pub open spec fn searched_count(limit: int, loaded: int, device_type: DeviceType) -> int {
    if device_type == DeviceType::Cpu && limit > 0 {
        least(limit, loaded)
    } else {
        loaded
    }
}

/// A limit holds software adapters to that many references and no others.
pub proof fn law_limits_hold_software_adapters(limit: usize, loaded: usize, device_type: DeviceType)
    ensures
        ({
            let n = searched_count(limit as int, loaded as int, device_type);
            &&& 0 <= n <= loaded
            &&& device_type != DeviceType::Cpu ==> n == loaded
            &&& limit == 0 ==> n == loaded
            &&& limit > 0 && device_type == DeviceType::Cpu ==> n <= limit
            &&& n != loaded ==> n == limit
        }),
{
}

/// How many references are searched: all of them, but on a software adapter at
/// most the limit, where one is set.
pub fn effective_reference_count(
    cpu_adapter_reference_limit: usize,
    loaded_reference_count: usize,
    device_type: DeviceType,
) -> (r: usize)
    ensures
        r == if cpu_adapter_reference_limit > 0 && device_type == DeviceType::Cpu
            && cpu_adapter_reference_limit < loaded_reference_count {
            cpu_adapter_reference_limit
        } else {
            loaded_reference_count
        },
        r == searched_count(
            cpu_adapter_reference_limit as int,
            loaded_reference_count as int,
            device_type,
        ),
{
    if cpu_adapter_reference_limit > 0 && device_type == DeviceType::Cpu
        && cpu_adapter_reference_limit < loaded_reference_count {
        cpu_adapter_reference_limit
    } else {
        loaded_reference_count
    }
}

/// Why references cannot be laid out.
#[derive(Clone, Copy, Debug, PartialEq, Eq, Structural)]
pub enum PlanError {
    /// Indices are 32-bit.
    TooManyReferences,
    /// The kernel cannot bind so many buffers.
    TooManyBuffers { needed: usize, refs_per_chunk: usize },
}

/// The layout of a reference set on a device.
#[derive(Clone, Copy, Debug, PartialEq, Eq, Structural)]
pub struct GpuPlan {
    pub reference_count: usize,
    pub workgroup_count: u32,
    pub refs_per_chunk: usize,
    pub reference_chunk_count: usize,
    pub max_reference_chunk_size: u64,
    pub output_size: u64,
}

/// How many references a buffer of the given size holds, or one.
pub open spec fn chunk_capacity(max_binding: int) -> int {
    if max_binding < BYTES_PER_REFERENCE {
        1
    } else {
        max_binding / BYTES_PER_REFERENCE as int
    }
}

/// The lesser of two numbers.
pub open spec fn least(a: int, b: int) -> int {
    if a < b {
        a
    } else {
        b
    }
}

/// Bytes of the candidates that `n` references are reduced to.
pub open spec fn candidate_bytes(n: int) -> int {
    groups(n, WORKGROUP_SIZE as int) * TOP_K * CANDIDATE_BYTES
}

impl GpuPlan {
    /// Whether the layout is the one for a device that binds `max_binding` bytes.
    pub open spec fn suits(&self, max_binding: int) -> bool {
        let n = self.reference_count as int;
        let capacity = chunk_capacity(max_binding);
        &&& n <= u32::MAX
        &&& self.workgroup_count == groups(n, WORKGROUP_SIZE as int)
        &&& self.refs_per_chunk == capacity
        &&& self.reference_chunk_count == groups(n, capacity)
        &&& self.reference_chunk_count <= MAX_REFERENCE_BUFFERS
        &&& self.max_reference_chunk_size == least(n, capacity) * BYTES_PER_REFERENCE
        &&& self.output_size == candidate_bytes(n)
    }

    /// Whether the layout is the one for some device.
    pub open spec fn wf(&self) -> bool {
        exists|max_binding: u32| self.suits(max_binding as int)
    }

    /// Lays out references for a device that binds buffers of `max_binding` bytes.
    pub fn new(reference_count: usize, max_binding: u32) -> (r: Result<GpuPlan, PlanError>)
        ensures
            match r {
                Ok(plan) => plan.reference_count == reference_count && plan.suits(
                    max_binding as int,
                ),
                Err(PlanError::TooManyReferences) => reference_count > u32::MAX,
                Err(PlanError::TooManyBuffers { needed, refs_per_chunk }) => {
                    &&& reference_count <= u32::MAX
                    &&& refs_per_chunk == chunk_capacity(max_binding as int)
                    &&& needed == groups(reference_count as int, refs_per_chunk as int)
                    &&& needed > MAX_REFERENCE_BUFFERS
                },
            },
    {
        if reference_count as u64 > u32::MAX as u64 {
            return Err(PlanError::TooManyReferences);
        }
        let workgroup_count: u32 = div_ceil(reference_count as u32, WORKGROUP_SIZE);
        proof {
            lemma_groups(reference_count as int, WORKGROUP_SIZE as int);
        }
        let fitting: u32 = max_binding / BYTES_PER_REFERENCE as u32;
        let refs_per_chunk: u32 = if fitting < 1 {
            1
        } else {
            fitting
        };
        let chunks: u32 = div_ceil(reference_count as u32, refs_per_chunk);
        if chunks as usize > MAX_REFERENCE_BUFFERS {
            return Err(
                PlanError::TooManyBuffers {
                    needed: chunks as usize,
                    refs_per_chunk: refs_per_chunk as usize,
                },
            );
        }
        let largest: u64 = if (refs_per_chunk as u64) < reference_count as u64 {
            refs_per_chunk as u64
        } else {
            reference_count as u64
        };
        let bytes_per_reference: u64 = BYTES_PER_REFERENCE as u64;
        assert(largest * bytes_per_reference <= u32::MAX * 32) by (nonlinear_arith)
            requires
                largest <= u32::MAX,
                bytes_per_reference == 32,
        ;
        let plan = GpuPlan {
            reference_count,
            workgroup_count,
            refs_per_chunk: refs_per_chunk as usize,
            reference_chunk_count: chunks as usize,
            max_reference_chunk_size: largest * bytes_per_reference,
            output_size: workgroup_count as u64 * TOP_K as u64 * CANDIDATE_BYTES as u64,
        };
        Ok(plan)
    }

    /// The words of chunk `c`: from the first to behind the last.
    pub open spec fn chunk_bounds(&self, c: int) -> (int, int) {
        (
            c * self.refs_per_chunk * PACKED_DIMS,
            least((c + 1) * self.refs_per_chunk, self.reference_count as int) * PACKED_DIMS,
        )
    }

    /// The packed words of chunk `c`.
    pub fn chunk<'a>(&self, packed: &'a [u32], c: usize) -> (r: &'a [u32])
        requires
            self.wf(),
            c < self.reference_chunk_count,
            packed@.len() >= PACKED_DIMS * self.reference_count,
        ensures
            r@ == packed@.subrange(self.chunk_bounds(c as int).0, self.chunk_bounds(c as int).1),
            0 < r@.len() <= PACKED_DIMS * self.refs_per_chunk,
            r@.len() * WORD_BYTES <= self.max_reference_chunk_size,
    {
        let ghost n = self.reference_count as int;
        let ghost size = self.refs_per_chunk as int;
        proof {
            let max_binding = choose|max_binding: u32| self.suits(max_binding as int);
            assert(self.suits(max_binding as int));
            lemma_groups(n, size);
            assert(c * size <= (groups(n, size) - 1) * size) by (nonlinear_arith)
                requires
                    0 <= c <= groups(n, size) - 1,
                    size > 0,
            ;
            assert((c + 1) * size == c * size + size && c * size >= 0) by (nonlinear_arith)
                requires
                    c >= 0,
                    size > 0,
            ;
        }
        assert(packed.len() == packed@.len());
        let first: usize = c * self.refs_per_chunk;
        let rest: usize = self.reference_count - first;
        let taken: usize = if self.refs_per_chunk < rest {
            self.refs_per_chunk
        } else {
            rest
        };
        vstd::slice::slice_subrange(packed, first * PACKED_DIMS, (first + taken) * PACKED_DIMS)
    }

    /// What the kernel is told of the layout.
    pub fn params(&self) -> (r: Params)
        requires
            self.wf(),
        ensures
            r.ref_count == self.reference_count,
            r.refs_per_chunk == self.refs_per_chunk,
    {
        Params {
            ref_count: self.reference_count as u32,
            refs_per_chunk: self.refs_per_chunk as u32,
        }
    }

    /// The largest buffer that the layout needs.
    pub fn largest_buffer(&self) -> (r: u64)
        ensures
            r == if self.max_reference_chunk_size > self.output_size {
                self.max_reference_chunk_size
            } else {
                self.output_size
            },
            r >= self.max_reference_chunk_size,
            r >= self.output_size,
    {
        if self.max_reference_chunk_size > self.output_size {
            self.max_reference_chunk_size
        } else {
            self.output_size
        }
    }
}

/// The chunks follow each other from the first word to the last.
pub proof fn law_chunks_cover(plan: GpuPlan, c: int)
    requires
        plan.wf(),
        0 <= c < plan.reference_chunk_count,
    ensures
        c == 0 ==> plan.chunk_bounds(c).0 == 0,
        c + 1 < plan.reference_chunk_count ==> plan.chunk_bounds(c).1 == plan.chunk_bounds(
            c + 1,
        ).0,
        c + 1 == plan.reference_chunk_count ==> plan.chunk_bounds(c).1 == PACKED_DIMS
            * plan.reference_count,
        plan.chunk_bounds(c).0 < plan.chunk_bounds(c).1,
{
    let max_binding = choose|max_binding: u32| plan.suits(max_binding as int);
    assert(plan.suits(max_binding as int));
    let n = plan.reference_count as int;
    let size = plan.refs_per_chunk as int;
    let g = groups(n, size);
    lemma_groups(n, size);
    assert(c * size <= (g - 1) * size && (c + 1) * size == c * size + size && 0 * size == 0 && c
        * size >= 0) by (nonlinear_arith)
        requires
            0 <= c <= g - 1,
            size > 0,
    ;
    if c + 1 < g {
        assert((c + 1) * size <= (g - 1) * size) by (nonlinear_arith)
            requires
                c + 1 <= g - 1,
                size > 0,
        ;
    }
}

/// Reference `i` is found in chunk `i / refs_per_chunk`, behind `i %
/// refs_per_chunk` others.
pub proof fn law_chunk_lookup(plan: GpuPlan, packed: Seq<u32>, i: int)
    requires
        plan.wf(),
        0 <= i < plan.reference_count,
        packed.len() >= PACKED_DIMS * plan.reference_count,
    ensures
        0 <= i / plan.refs_per_chunk as int,
        (i / plan.refs_per_chunk as int) < plan.reference_chunk_count,
        ({
            let bounds = plan.chunk_bounds(i / plan.refs_per_chunk as int);
            references::item(
                packed.subrange(bounds.0, bounds.1),
                PACKED_DIMS as int,
                i % plan.refs_per_chunk as int,
            ) == references::item(packed, PACKED_DIMS as int, i)
        }),
{
    let max_binding = choose|max_binding: u32| plan.suits(max_binding as int);
    assert(plan.suits(max_binding as int));
    let n = plan.reference_count as int;
    let size = plan.refs_per_chunk as int;
    let g = groups(n, size);
    let c = i / size;
    let k = i % size;
    lemma_groups(n, size);
    lemma_fundamental_div_mod(i, size);
    lemma_mod_bound(i, size);
    lemma_div_pos_is_pos(i, size);
    assert(c < g && i == c * size + k && (c + 1) * size == c * size + size && c * size >= 0)
        by (nonlinear_arith)
        requires
            i == size * c + k,
            0 <= k < size,
            0 <= c,
            i < n,
            g * size >= n,
    ;
    let bounds = plan.chunk_bounds(c);
    assert(references::item(packed.subrange(bounds.0, bounds.1), PACKED_DIMS as int, k)
        =~= references::item(packed, PACKED_DIMS as int, i));
}

/// The output buffer has a slot for each of the five best of every block.
pub proof fn law_output_slots(list: Seq<Candidate<u64>>)
    ensures
        exactness::blocks_of(list, WORKGROUP_SIZE as nat).len() == groups(
            list.len() as int,
            WORKGROUP_SIZE as int,
        ),
        exactness::joined(
            exactness::best_of_each(exactness::blocks_of(list, WORKGROUP_SIZE as nat)),
        ).len() * CANDIDATE_BYTES == candidate_bytes(list.len() as int),
{
    lemma_block_count(list);
    let blocks = exactness::blocks_of(list, WORKGROUP_SIZE as nat);
    lemma_five_of_each(blocks);
}

proof fn lemma_block_count(list: Seq<Candidate<u64>>)
    ensures
        exactness::blocks_of(list, WORKGROUP_SIZE as nat).len() == groups(
            list.len() as int,
            WORKGROUP_SIZE as int,
        ),
    decreases list.len(),
{
    if list.len() > 0 {
        let last = 256 * ((list.len() - 1) / 256);
        lemma_block_count(list.subrange(0, last));
    }
}

proof fn lemma_five_of_each(lists: Seq<Seq<Candidate<u64>>>)
    ensures
        exactness::joined(exactness::best_of_each(lists)).len() == lists.len() * TOP_K,
    decreases lists.len(),
{
    if lists.len() > 0 {
        let rest = lists.drop_last();
        lemma_five_of_each(rest);
        assert(exactness::best_of_each(lists).drop_last() =~= exactness::best_of_each(rest));
        exactness::law_best_five(lists.last());
    }
}

/// What a device offers, or is asked for.
#[derive(Clone, Copy, Debug, PartialEq, Eq, Structural)]
pub struct DeviceLimits {
    pub max_storage_buffer_binding_size: u32,
    pub max_buffer_size: u64,
    pub max_compute_invocations_per_workgroup: u32,
    pub max_compute_workgroup_size_x: u32,
}

/// Which limit of a device is too small, with what it is and what is needed.
#[derive(Clone, Copy, Debug, PartialEq, Eq, Structural)]
pub enum LimitError {
    StorageBinding { offered: u32, needed: u64 },
    Buffer { offered: u64, needed: u64 },
    Invocations { offered: u32 },
    WorkgroupSize { offered: u32 },
}

/// The limits that `wgpu::Limits::downlevel_defaults` sets, as far as they are
/// raised here: 128 MiB to a binding, 256 MiB to a buffer, and 256 invocations to
/// a workgroup, all of them in its first dimension.
#[verifier::external_body]
fn downlevel_limits() -> (r: DeviceLimits)
    ensures
        r == (DeviceLimits {
            max_storage_buffer_binding_size: 0x800_0000,
            max_buffer_size: 0x1000_0000,
            max_compute_invocations_per_workgroup: 256,
            max_compute_workgroup_size_x: 256,
        }),
{
    let limits = wgpu::Limits::downlevel_defaults();
    DeviceLimits {
        max_storage_buffer_binding_size: limits.max_storage_buffer_binding_size,
        max_buffer_size: limits.max_buffer_size,
        max_compute_invocations_per_workgroup: limits.max_compute_invocations_per_workgroup,
        max_compute_workgroup_size_x: limits.max_compute_workgroup_size_x,
    }
}

/// The limits to ask a device for: the common ones, with room for the buffers.
pub open spec fn asked_limits(binding: int, buffer: int) -> DeviceLimits {
    DeviceLimits {
        max_storage_buffer_binding_size: if binding > 0x800_0000 {
            binding as u32
        } else {
            0x800_0000
        },
        max_buffer_size: if buffer > 0x1000_0000 {
            buffer as u64
        } else {
            0x1000_0000
        },
        max_compute_invocations_per_workgroup: WORKGROUP_SIZE,
        max_compute_workgroup_size_x: WORKGROUP_SIZE,
    }
}

/// The limits to ask a device for, or the first of its limits that is too small.
pub fn required_limits(
    adapter: DeviceLimits,
    max_storage_binding_size: u64,
    max_buffer_size: u64,
) -> (r: Result<DeviceLimits, LimitError>)
    ensures
        r == if max_storage_binding_size > adapter.max_storage_buffer_binding_size {
            Err(
                LimitError::StorageBinding {
                    offered: adapter.max_storage_buffer_binding_size,
                    needed: max_storage_binding_size,
                },
            )
        } else if max_buffer_size > adapter.max_buffer_size {
            Err(LimitError::Buffer { offered: adapter.max_buffer_size, needed: max_buffer_size })
        } else if adapter.max_compute_invocations_per_workgroup < WORKGROUP_SIZE {
            Err(
                LimitError::Invocations {
                    offered: adapter.max_compute_invocations_per_workgroup,
                },
            )
        } else if adapter.max_compute_workgroup_size_x < WORKGROUP_SIZE {
            Err(LimitError::WorkgroupSize { offered: adapter.max_compute_workgroup_size_x })
        } else {
            Ok(asked_limits(max_storage_binding_size as int, max_buffer_size as int))
        },
        r == limits_for(adapter, max_storage_binding_size, max_buffer_size),
{
    if max_storage_binding_size > adapter.max_storage_buffer_binding_size as u64 {
        return Err(
            LimitError::StorageBinding {
                offered: adapter.max_storage_buffer_binding_size,
                needed: max_storage_binding_size,
            },
        );
    }
    if max_buffer_size > adapter.max_buffer_size {
        return Err(
            LimitError::Buffer { offered: adapter.max_buffer_size, needed: max_buffer_size },
        );
    }
    if adapter.max_compute_invocations_per_workgroup < WORKGROUP_SIZE {
        return Err(
            LimitError::Invocations { offered: adapter.max_compute_invocations_per_workgroup },
        );
    }
    if adapter.max_compute_workgroup_size_x < WORKGROUP_SIZE {
        return Err(LimitError::WorkgroupSize { offered: adapter.max_compute_workgroup_size_x });
    }
    let mut limits: DeviceLimits = downlevel_limits();
    let binding: u32 = max_storage_binding_size as u32;
    if binding > limits.max_storage_buffer_binding_size {
        limits.max_storage_buffer_binding_size = binding;
    }
    if max_buffer_size > limits.max_buffer_size {
        limits.max_buffer_size = max_buffer_size;
    }
    if limits.max_compute_invocations_per_workgroup < WORKGROUP_SIZE {
        limits.max_compute_invocations_per_workgroup = WORKGROUP_SIZE;
    }
    if limits.max_compute_workgroup_size_x < WORKGROUP_SIZE {
        limits.max_compute_workgroup_size_x = WORKGROUP_SIZE;
    }
    Ok(limits)
}

/// Bytes that one instance keeps on the device.
#[derive(Clone, Copy, Debug, PartialEq, Eq, Structural)]
pub struct MemoryPlan {
    pub reference_bytes: u64,
    pub packed_label_bytes: u64,
    pub candidate_buffer_bytes: u64,
    pub persistent_gpu_bytes_per_api: u64,
}

/// Bytes of the packed labels of `n` references.
pub open spec fn label_bytes(n: int) -> int {
    groups(n, 32) * WORD_BYTES
}

/// Bytes that one instance with `n` references keeps: the references, their
/// labels, the candidates twice, the query and the parameters.
pub open spec fn persistent_bytes(n: int) -> int {
    n * BYTES_PER_REFERENCE + label_bytes(n) + 2 * candidate_bytes(n % 0x1_0000_0000) + QUERY_BYTES
        + PARAMS_BYTES
}

impl MemoryPlan {
    /// The bytes that an instance keeps for a number of references; workgroups
    /// are counted by the low 32 bits of that number.
    pub fn new(reference_count: usize) -> (r: MemoryPlan)
        requires
            reference_count * BYTES_PER_REFERENCE <= usize::MAX,
            persistent_bytes(reference_count as int) <= u64::MAX,
        ensures
            r.reference_bytes == reference_count * BYTES_PER_REFERENCE,
            r.packed_label_bytes == label_bytes(reference_count as int),
            r.candidate_buffer_bytes == candidate_bytes(reference_count as int % 0x1_0000_0000),
            r.persistent_gpu_bytes_per_api == persistent_bytes(reference_count as int),
    {
        let low: u64 = reference_count as u64 % 0x1_0000_0000;
        let workgroup_count: u32 = div_ceil(low as u32, WORKGROUP_SIZE);
        proof {
            lemma_groups(low as int, WORKGROUP_SIZE as int);
            lemma_groups(reference_count as int, 32);
        }
        let label_words: usize = reference_count / 32 + if reference_count % 32 == 0 {
            0
        } else {
            1
        };
        let reference_bytes: u64 = (reference_count * BYTES_PER_REFERENCE) as u64;
        let packed_label_bytes: u64 = (label_words * WORD_BYTES) as u64;
        let candidate_buffer_bytes: u64 = workgroup_count as u64 * TOP_K as u64
            * CANDIDATE_BYTES as u64;
        MemoryPlan {
            reference_bytes,
            packed_label_bytes,
            candidate_buffer_bytes,
            persistent_gpu_bytes_per_api: reference_bytes + packed_label_bytes + 2
                * candidate_buffer_bytes + QUERY_BYTES + PARAMS_BYTES,
        }
    }

    /// The bytes that all instances keep together.
    pub fn total_bytes(&self, api_instances: usize) -> (r: u64)
        requires
            self.persistent_gpu_bytes_per_api * api_instances <= u64::MAX,
        ensures
            r == self.persistent_gpu_bytes_per_api * api_instances,
    {
        self.persistent_gpu_bytes_per_api * api_instances as u64
    }
}

/// The memory plan of references that can be laid out can be computed, where
/// their own bytes can be addressed.
pub proof fn law_memory_plan_exists(reference_count: usize)
    requires
        reference_count <= u32::MAX,
        reference_count * BYTES_PER_REFERENCE <= usize::MAX,
    ensures
        reference_count * BYTES_PER_REFERENCE <= usize::MAX,
        persistent_bytes(reference_count as int) <= u64::MAX,
{
    lemma_groups(reference_count as int, WORKGROUP_SIZE as int);
    lemma_groups(reference_count as int, 32);
}

/// Groups hold all items, and one group fewer would not.
pub proof fn law_groups_are_just_enough(n: int, size: int)
    requires
        0 <= n,
        0 < size,
    ensures
        groups(n, size) * size >= n,
        n > 0 ==> (groups(n, size) - 1) * size < n,
        n == 0 ==> groups(n, size) == 0,
{
    lemma_groups(n, size);
}

/// A layout has a workgroup for every 256 references, chunks as large as the device
/// binds, no more of them than needed, and eighty bytes for each workgroup's five.
pub proof fn law_layout_is_just_enough(plan: GpuPlan, max_binding: u32)
    requires
        plan.suits(max_binding as int),
    ensures
        ({
            let n = plan.reference_count as int;
            let refs = plan.refs_per_chunk as int;
            let chunks = plan.reference_chunk_count as int;
            &&& plan.workgroup_count * 256 >= n
            &&& n > 0 ==> (plan.workgroup_count - 1) * 256 < n
            &&& n == 0 ==> plan.workgroup_count == 0
            &&& max_binding >= 32 ==> 32 * refs <= max_binding < 32 * refs + 32
            &&& max_binding < 32 ==> refs == 1
            &&& chunks * refs >= n
            &&& n > 0 ==> (chunks - 1) * refs < n
            &&& chunks <= 2
            &&& plan.max_reference_chunk_size <= 32 * n
            &&& plan.max_reference_chunk_size <= 32 * refs
            &&& plan.max_reference_chunk_size == 32 * n || plan.max_reference_chunk_size == 32
                * refs
            &&& plan.output_size == 80 * plan.workgroup_count
        }),
{
    lemma_groups(plan.reference_count as int, 256);
    lemma_groups(plan.reference_count as int, plan.refs_per_chunk as int);
}

/// What one more reference costs: its own bytes, a word of labels at every 32nd,
/// and the candidates of a workgroup, twice, at every 256th.
pub proof fn law_memory_of_one_more(n: int)
    requires
        0 <= n < 0xffff_ffff,
    ensures
        persistent_bytes(0) == 80,
        persistent_bytes(n + 1) - persistent_bytes(n) == 32 + (if n % 32 == 0 {
            4int
        } else {
            0
        }) + (if n % 256 == 0 {
            160int
        } else {
            0
        }),
        label_bytes(n + 1) - label_bytes(n) == if n % 32 == 0 {
            4int
        } else {
            0
        },
        candidate_bytes(n + 1) - candidate_bytes(n) == if n % 256 == 0 {
            80int
        } else {
            0
        },
{
}

/// Workgroups are counted by the low 32 bits of the number of references.
pub proof fn law_memory_of_many(n: int)
    requires
        0 <= n,
    ensures
        persistent_bytes(n + 0x1_0000_0000) == persistent_bytes(n) + 0x1_0000_0000 * 32 + 0x800_0000
            * 4,
{
}

/// A device is asked for what is needed and for what is common, and for no more.
pub proof fn law_limits_are_just_enough(binding: u32, buffer: u64)
    ensures
        ({
            let asked = asked_limits(binding as int, buffer as int);
            &&& asked.max_storage_buffer_binding_size >= binding
            &&& asked.max_storage_buffer_binding_size >= 128 * 1024 * 1024
            &&& asked.max_storage_buffer_binding_size == binding
                || asked.max_storage_buffer_binding_size == 128 * 1024 * 1024
            &&& asked.max_buffer_size >= buffer
            &&& asked.max_buffer_size >= 256 * 1024 * 1024
            &&& asked.max_buffer_size == buffer || asked.max_buffer_size == 256 * 1024 * 1024
            &&& asked.max_compute_invocations_per_workgroup == 256
            &&& asked.max_compute_workgroup_size_x == 256
        }),
{
}

/// References can be laid out exactly where two buffers of what the device binds
/// hold them.
pub proof fn law_two_buffers_hold_the_references(n: usize, max_binding: u32)
    requires
        n <= u32::MAX,
    ensures
        (exists|plan: GpuPlan| plan.reference_count == n && #[trigger] plan.suits(max_binding as int))
            <==> n <= 2 * chunk_capacity(max_binding as int),
{
    let capacity = chunk_capacity(max_binding as int);
    let g = groups(n as int, capacity);
    lemma_groups(n as int, 256);
    lemma_groups(n as int, capacity);
    assert(g <= 2 <==> n <= 2 * capacity) by (nonlinear_arith)
        requires
            g * capacity >= n,
            (g - 1) * capacity < n || n == 0,
            n == 0 ==> g <= 0,
            capacity > 0,
    ;
    if g <= 2 {
        let plan = GpuPlan {
            reference_count: n,
            workgroup_count: groups(n as int, 256) as u32,
            refs_per_chunk: capacity as usize,
            reference_chunk_count: g as usize,
            max_reference_chunk_size: (least(n as int, capacity) * 32) as u64,
            output_size: candidate_bytes(n as int) as u64,
        };
        assert(plan.suits(max_binding as int));
    }
}

/// The limits to ask a device for, or the first of its limits that is too small.
pub open spec fn limits_for(adapter: DeviceLimits, binding: u64, buffer: u64) -> Result<
    DeviceLimits,
    LimitError,
> {
    if binding > adapter.max_storage_buffer_binding_size {
        Err(
            LimitError::StorageBinding {
                offered: adapter.max_storage_buffer_binding_size,
                needed: binding,
            },
        )
    } else if buffer > adapter.max_buffer_size {
        Err(LimitError::Buffer { offered: adapter.max_buffer_size, needed: buffer })
    } else if adapter.max_compute_invocations_per_workgroup < WORKGROUP_SIZE {
        Err(LimitError::Invocations { offered: adapter.max_compute_invocations_per_workgroup })
    } else if adapter.max_compute_workgroup_size_x < WORKGROUP_SIZE {
        Err(LimitError::WorkgroupSize { offered: adapter.max_compute_workgroup_size_x })
    } else {
        Ok(asked_limits(binding as int, buffer as int))
    }
}

/// A device is refused exactly where one of its limits is too small, for such a
/// limit, and is asked for room for the buffers otherwise.
pub proof fn law_small_devices_are_refused(adapter: DeviceLimits, binding: u64, buffer: u64)
    ensures
        ({
            let r = limits_for(adapter, binding, buffer);
            &&& r is Ok <==> binding <= adapter.max_storage_buffer_binding_size && buffer
                <= adapter.max_buffer_size && 256 <= adapter.max_compute_invocations_per_workgroup
                && 256 <= adapter.max_compute_workgroup_size_x
            &&& r matches Ok(asked) ==> binding <= asked.max_storage_buffer_binding_size && buffer
                <= asked.max_buffer_size && asked.max_compute_invocations_per_workgroup == 256
                && asked.max_compute_workgroup_size_x == 256
            &&& r matches Err(LimitError::StorageBinding { offered, needed }) ==> offered
                == adapter.max_storage_buffer_binding_size && needed == binding && needed > offered
            &&& r matches Err(LimitError::Buffer { offered, needed }) ==> offered
                == adapter.max_buffer_size && needed == buffer && needed > offered
            &&& r matches Err(LimitError::Invocations { offered }) ==> offered
                == adapter.max_compute_invocations_per_workgroup && offered < 256
            &&& r matches Err(LimitError::WorkgroupSize { offered }) ==> offered
                == adapter.max_compute_workgroup_size_x && offered < 256
        }),
{
}

} // verus!
