//! The reference set: how it is stored and searched exhaustively.

use vstd::prelude::*;
use crate::accuracy;
use crate::binary32;
use crate::binary32::Binary32;
use crate::exactness;
use crate::labels::PackedLabels;
use crate::quantize;
use crate::quantize::{
    append_reference_vector, quantize_query, unpack_i16, DIMS, PACKED_DIMS, PADDED_DIMS,
};
use crate::topk;
use crate::topk::{insert_top5, Candidate, GpuCandidate, NO_INDEX, TOP_K};

verus! {

/// Labelled reference vectors: packed for the search, and as plain values where
/// a baseline is kept.
#[derive(Debug)]
pub struct ReferenceData {
    pub vectors_f32: Vec<Binary32>,
    pub packed_vectors: Vec<u32>,
    pub labels: PackedLabels,
}

/// Item `i` of a sequence that is cut into items of `size` elements.
pub open spec fn item<T>(s: Seq<T>, size: int, i: int) -> Seq<T> {
    s.subrange(size * i, size * i + size)
}

/// An item appended to a sequence of items leaves the others as they are.
pub(crate) proof fn lemma_item_appended<T>(s: Seq<T>, last: Seq<T>, size: int, count: int)
    requires
        size > 0,
        count >= 0,
        s.len() == size * count,
        last.len() == size,
    ensures
        forall|i: int|
            0 <= i < count ==> #[trigger] item(s + last, size, i)
                == item(s, size, i),
        item(s + last, size, count) == last,
        (s + last).len() == size * (count + 1),
{
    assert forall|i: int| 0 <= i < count implies #[trigger] item(
        s + last,
        size,
        i,
    ) == item(s, size, i) by {
        assert(0 <= size * i && size * i + size <= size * count) by (nonlinear_arith)
            requires
                0 <= i < count,
                size > 0,
        ;
        assert((s + last).subrange(size * i, size * i + size) =~= s.subrange(
            size * i,
            size * i + size,
        ));
    }
    assert((s + last).subrange(size * count, size * count + size) =~= last);
    assert(size * (count + 1) == size * count + size) by (nonlinear_arith);
}

impl ReferenceData {
    /// Every label has its packed vector, and its plain one or none of them has.
    pub open spec fn wf(&self) -> bool {
        &&& self.labels.wf()
        &&& self.packed_vectors@.len() == PACKED_DIMS * self.labels.len
        &&& self.keeps(true) || self.keeps(false)
    }

    /// Whether the plain values of all references are kept, or of none.
    pub open spec fn keeps(&self, baseline: bool) -> bool {
        self.vectors_f32@.len() == if baseline {
            DIMS * self.labels.len
        } else {
            0
        }
    }

    /// The packed words of reference `i`.
    pub open spec fn words(&self, i: int) -> Seq<u32> {
        item(self.packed_vectors@, PACKED_DIMS as int, i)
    }

    /// The plain values of reference `i`, where the baseline is kept.
    pub open spec fn values(&self, i: int) -> Seq<Binary32> {
        item(self.vectors_f32@, DIMS as int, i)
    }

    /// No references yet.
    pub fn new() -> (r: ReferenceData)
        ensures
            r.wf(),
            r.keeps(true),
            r.keeps(false),
            r.packed_vectors@ == Seq::<u32>::empty(),
            r.vectors_f32@ == Seq::<Binary32>::empty(),
            r.labels@ == Seq::<bool>::empty(),
    {
        ReferenceData {
            vectors_f32: Vec::new(),
            packed_vectors: Vec::new(),
            labels: PackedLabels::new(0),
        }
    }

    /// The number of references.
    pub fn len(&self) -> (r: usize)
        ensures
            r == self.labels@.len(),
    {
        self.labels.len
    }

    /// Whether there is no reference.
    pub fn is_empty(&self) -> (r: bool)
        ensures
            r == (self.labels@.len() == 0),
    {
        self.len() == 0
    }

    /// Appends a record.
    pub fn push(&mut self, vector: &[Binary32; DIMS], fraud: bool, keep_f32_baseline: bool)
        requires
            old(self).wf(),
            old(self).keeps(keep_f32_baseline),
        ensures
            final(self).wf(),
            final(self).keeps(keep_f32_baseline),
            final(self).packed_vectors@ == old(self).packed_vectors@ + quantize::packed_words(
                vector@,
            ),
            final(self).vectors_f32@ == if keep_f32_baseline {
                old(self).vectors_f32@ + vector@
            } else {
                old(self).vectors_f32@
            },
            final(self).labels@ == old(self).labels@.push(fraud),
            forall|i: int|
                0 <= i < old(self).labels.len ==> #[trigger] final(self).words(i) == old(
                    self,
                ).words(i),
            final(self).words(old(self).labels.len as int) == quantize::packed_words(vector@),
            keep_f32_baseline ==> forall|i: int|
                0 <= i < old(self).labels.len ==> #[trigger] final(self).values(i) == old(
                    self,
                ).values(i),
            keep_f32_baseline ==> final(self).values(old(self).labels.len as int) == vector@,
    {
        proof {
            lemma_item_appended(
                self.packed_vectors@,
                quantize::packed_words(vector@),
                PACKED_DIMS as int,
                self.labels.len as int,
            );
            if keep_f32_baseline {
                lemma_item_appended(
                    self.vectors_f32@,
                    vector@,
                    DIMS as int,
                    self.labels.len as int,
                );
            }
        }
        assert(self.packed_vectors.len() == self.packed_vectors@.len());
        append_reference_vector(
            vector,
            keep_f32_baseline,
            &mut self.vectors_f32,
            &mut self.packed_vectors,
        );
        self.labels.push(fraud);
    }
}

/// The value that a label bit stands for in a candidate.
pub open spec fn label_value(fraud: bool) -> u32 {
    if fraud {
        1
    } else {
        0
    }
}

/// The squared distance, in whole steps, over the first `dims` dimensions of a
/// packed vector to a quantised query.
pub open spec fn quantized_distance(words: Seq<u32>, query: Seq<i16>, dims: nat) -> nat
    decreases dims,
{
    if dims == 0 {
        0
    } else {
        let d = dims - 1;
        let diff = quantize::unpacked(words[d / 2] as nat, d % 2 == 1) - query[d];
        quantized_distance(words, query, (dims - 1) as nat) + (diff * diff) as nat
    }
}

/// Squared distances stay far below `2^64`.
pub(crate) proof fn lemma_distance_bound(words: Seq<u32>, query: Seq<i16>, dims: nat)
    ensures
        quantized_distance(words, query, dims) <= dims * 0xfffe_0001,
    decreases dims,
{
    if dims > 0 {
        let d = dims - 1;
        lemma_distance_bound(words, query, (dims - 1) as nat);
        let diff = quantize::unpacked(words[d / 2] as nat, d % 2 == 1) - query[d];
        assert(0 <= diff * diff <= 0xfffe_0001) by (nonlinear_arith)
            requires
                -65535 <= diff <= 65535,
        ;
    }
}

/// The distance over the first `dims` dimensions of two plain vectors.
pub open spec fn plain_distance(vector: Seq<Binary32>, query: Seq<Binary32>, dims: nat) -> Binary32
    decreases dims,
{
    if dims == 0 {
        binary32::zero()
    } else {
        let diff = binary32::difference(vector[dims - 1], query[dims - 1]);
        binary32::sum(
            plain_distance(vector, query, (dims - 1) as nat),
            binary32::product(diff, diff),
        )
    }
}

/// A query with every dimension quantised, and zero in the padding.
pub open spec fn quantized_query(query: Seq<Binary32>) -> Seq<i16> {
    Seq::new(PADDED_DIMS as nat, |dim: int| quantize::quantized_dim(query, dim) as i16)
}

/// Every reference as a candidate, by its packed vector.
pub open spec fn quantized_candidates(
    references: ReferenceData,
    query: Seq<Binary32>,
) -> Seq<Candidate<u64>> {
    Seq::new(
        references.labels@.len(),
        |i: int|
            Candidate {
                distance: quantized_distance(
                    references.words(i),
                    quantized_query(query),
                    DIMS as nat,
                ) as u64,
                index: i as u32,
                label: label_value(references.labels@[i]),
            },
    )
}

/// Every reference that has plain values as a candidate.
pub open spec fn plain_candidates(references: ReferenceData, query: Seq<Binary32>) -> Seq<
    Candidate<Binary32>,
> {
    Seq::new(
        references.vectors_f32@.len() / DIMS as nat,
        |i: int|
            Candidate {
                distance: plain_distance(references.values(i), query, DIMS as nat),
                index: i as u32,
                label: label_value(references.labels@[i]),
            },
    )
}

fn squared_difference(a: i16, b: i16) -> (r: u64)
    ensures
        r == (a - b) * (a - b),
        r <= 0xfffe_0001,
{
    let diff: i64 = a as i64 - b as i64;
    assert(0 <= diff * diff <= 0xfffe_0001) by (nonlinear_arith)
        requires
            -65535 <= diff <= 65535,
    ;
    (diff * diff) as u64
}

/// The five references nearest to a query by the exact squared distances of
/// their packed vectors, with the lower index first where two are equally near.
pub fn cpu_quantized_top5(references: &ReferenceData, query: &[Binary32; DIMS]) -> (r: [Candidate<
    u64,
>; TOP_K])
    requires
        references.wf(),
    ensures
        r@ == topk::best_five(quantized_candidates(*references, query@)),
{
    let mut top: [Candidate<u64>; TOP_K] = [Candidate::worst(); TOP_K];
    let steps: [i16; PADDED_DIMS] = quantize_query(query);
    let count: usize = references.packed_vectors.len() / PACKED_DIMS;
    let ghost all = quantized_candidates(*references, query@);
    assert(steps@ =~= quantized_query(query@));
    assert(top@ =~= topk::worst_five());
    assert(all.subrange(0, 0) =~= Seq::<Candidate<u64>>::empty());
    let mut index: usize = 0;
    while index < count
        invariant
            index <= count,
            count == references.labels.len,
            references.wf(),
            steps@ == quantized_query(query@),
            all == quantized_candidates(*references, query@),
            top@ == topk::best_five(all.subrange(0, index as int)),
        decreases count - index,
    {
        let ghost words = references.words(index as int);
        let mut distance: u64 = 0;
        let mut dim: usize = 0;
        while dim < DIMS
            invariant
                dim <= DIMS,
                index < count,
                count == references.labels.len,
                references.wf(),
                words == references.words(index as int),
                steps@ == quantized_query(query@),
                distance == quantized_distance(words, steps@, dim as nat),
                distance <= dim * 0xfffe_0001,
            decreases DIMS - dim,
        {
            assert(references.packed_vectors.len() == references.packed_vectors@.len());
            let word: u32 = references.packed_vectors[index * PACKED_DIMS + dim / 2];
            assert(word == words[dim as int / 2]);
            distance = distance + squared_difference(unpack_i16(word, dim % 2 == 1), steps[dim]);
            dim += 1;
        }
        let candidate = Candidate {
            distance,
            index: index as u32,
            label: references.labels.get(index),
        };
        insert_top5(&mut top, candidate);
        assert(all.subrange(0, index + 1).drop_last() =~= all.subrange(0, index as int));
        assert(candidate == all[index as int]);
        index += 1;
    }
    assert(all.subrange(0, count as int) =~= all);
    top
}

/// The five references nearest to a query by their plain values.
pub fn cpu_f32_top5(
    references: &ReferenceData,
    query: &[Binary32; DIMS],
) -> (r: [Candidate<Binary32>; TOP_K])
    requires
        references.wf(),
    ensures
        r@ == topk::best_five(plain_candidates(*references, query@)),
{
    let mut top: [Candidate<Binary32>; TOP_K] = [Candidate::worst(); TOP_K];
    let count: usize = references.vectors_f32.len() / DIMS;
    let ghost all = plain_candidates(*references, query@);
    assert(top@ =~= topk::worst_five());
    assert(all.subrange(0, 0) =~= Seq::<Candidate<Binary32>>::empty());
    let mut index: usize = 0;
    while index < count
        invariant
            index <= count,
            count == references.vectors_f32@.len() / DIMS as nat,
            references.wf(),
            all == plain_candidates(*references, query@),
            top@ == topk::best_five(all.subrange(0, index as int)),
        decreases count - index,
    {
        let ghost values = references.values(index as int);
        let mut distance: Binary32 = Binary32 { bits: 0 };
        let mut dim: usize = 0;
        while dim < DIMS
            invariant
                dim <= DIMS,
                index < count,
                count == references.vectors_f32@.len() / DIMS as nat,
                references.wf(),
                values == references.values(index as int),
                distance == plain_distance(values, query@, dim as nat),
            decreases DIMS - dim,
        {
            assert(references.vectors_f32.len() == references.vectors_f32@.len());
            let diff: Binary32 = references.vectors_f32[index * DIMS + dim].minus(query[dim]);
            assert(diff == binary32::difference(values[dim as int], query@[dim as int]));
            distance = distance.plus(diff.times(diff));
            dim += 1;
        }
        let candidate = Candidate {
            distance,
            index: index as u32,
            label: references.labels.get(index),
        };
        insert_top5(&mut top, candidate);
        assert(all.subrange(0, index + 1).drop_last() =~= all.subrange(0, index as int));
        assert(candidate == all[index as int]);
        index += 1;
    }
    assert(all.subrange(0, count as int) =~= all);
    top
}

/// Whether the kernel's slots hold the five best of every block of the first
/// `count` references.
pub open spec fn reduced(
    gpu: Seq<GpuCandidate>,
    references: ReferenceData,
    query: Seq<Binary32>,
    count: nat,
    block: nat,
) -> bool {
    exactness::holds(
        gpu,
        exactness::joined(
            exactness::best_of_each(
                exactness::blocks_of(
                    quantized_candidates(references, query).subrange(0, count as int),
                    block,
                ),
            ),
        ),
    )
}

/// Merging the kernel's block results gives the five that an exhaustive search
/// of the same references gives.
pub proof fn law_merge_matches_search(
    gpu: Seq<GpuCandidate>,
    references: ReferenceData,
    query: Seq<Binary32>,
    count: nat,
    block: nat,
)
    requires
        references.wf(),
        count <= references.labels@.len(),
        count <= NO_INDEX,
        block > 0,
        reduced(gpu, references, query, count, block),
    ensures
        topk::merged(gpu, references.labels@) == topk::best_five(
            quantized_candidates(references, query).subrange(0, count as int),
        ),
        count == references.labels@.len() ==> topk::merged(gpu, references.labels@)
            == topk::best_five(quantized_candidates(references, query)),
{
    let all = quantized_candidates(references, query);
    let list = all.subrange(0, count as int);
    assert forall|i: int| 0 <= i < list.len() implies exactness::labelled(
        #[trigger] list[i],
        references.labels@,
    ) by {
        assert(list[i] == all[i]);
    }
    exactness::lemma_blocks_labelled(list, block, references.labels@);
    exactness::law_blocks_cover(list, block);
    exactness::law_merge_is_exact(exactness::blocks_of(list, block), gpu, references.labels@);
    if count == references.labels@.len() {
        assert(list =~= all);
    }
}

/// Packed distances are exact: a reference whose squared distance is less comes
/// first, and among equal ones the lower index.
pub proof fn law_search_order_is_exact(
    references: ReferenceData,
    query: Seq<Binary32>,
    i: int,
    j: int,
)
    requires
        references.wf(),
        references.labels@.len() <= NO_INDEX,
        0 <= i < references.labels@.len(),
        0 <= j < references.labels@.len(),
    ensures
        ({
            let q = quantized_query(query);
            let di = quantized_distance(references.words(i), q, DIMS as nat);
            let dj = quantized_distance(references.words(j), q, DIMS as nat);
            let all = quantized_candidates(references, query);
            topk::rank(all[i]) < topk::rank(all[j]) <==> di < dj || (di == dj && i < j)
        }),
{
    lemma_distance_bound(references.words(i), quantized_query(query), DIMS as nat);
    lemma_distance_bound(references.words(j), quantized_query(query), DIMS as nat);
}

/// A search of five references or more finds five, none of them twice.
pub proof fn law_search_finds_five(references: ReferenceData, query: Seq<Binary32>)
    requires
        references.wf(),
        TOP_K <= references.labels@.len() <= NO_INDEX,
    ensures
        ({
            let all = quantized_candidates(references, query);
            let top = topk::best_five(all);
            &&& forall|i: int| 0 <= i < TOP_K ==> all.contains(#[trigger] top[i])
            &&& forall|i: int, j: int|
                0 <= i < j < TOP_K ==> (#[trigger] top[i]).index != (#[trigger] top[j]).index
        }),
{
    let all = quantized_candidates(references, query);
    let top = topk::best_five(all);
    assert forall|i: int| 0 <= i < all.len() implies topk::rank(#[trigger] all[i]) < topk::rank(
        topk::worst_candidate::<u64>(),
    ) by {
        lemma_distance_bound(references.words(i), quantized_query(query), DIMS as nat);
    }
    exactness::law_five_found(all);
    exactness::law_no_reference_twice(all);
    assert forall|i: int, j: int| 0 <= i < j < TOP_K implies (#[trigger] top[i]).index != (
    #[trigger] top[j]).index by {
        assert(all.contains(top[j]));
        let k = choose|k: int| 0 <= k < all.len() && all[k] == top[j];
        assert(all[k].index == k);
    }
}

/// Unpacking the words of a vector gives its quantised dimensions back, and
/// zero in the padding.
pub proof fn law_words_hold_the_vector(vector: Seq<Binary32>, dim: int)
    requires
        0 <= dim < PADDED_DIMS,
    ensures
        quantize::unpacked(
            quantize::packed_words(vector)[dim / 2] as nat,
            dim % 2 == 1,
        ) == quantize::quantized_dim(vector, dim),
{
    let pair = dim / 2;
    let low = quantize::quantized_dim(vector, 2 * pair);
    let high = quantize::quantized_dim(vector, 2 * pair + 1);
    assert(-32768 <= low <= 32767 && -32768 <= high <= 32767);
    quantize::law_unpack_of_pack(low as i16, high as i16);
}

/// The step of a packed vector in a dimension.
pub open spec fn step_of(words: Seq<u32>, dim: int) -> int {
    quantize::unpacked(words[dim / 2] as nat, dim % 2 == 1)
}

proof fn lemma_distance_agrees(a: Seq<u32>, b: Seq<u32>, query: Seq<i16>, dims: nat)
    requires
        forall|d: int| 0 <= d < dims ==> #[trigger] step_of(a, d) == step_of(b, d),
    ensures
        quantized_distance(a, query, dims) == quantized_distance(b, query, dims),
    decreases dims,
{
    if dims > 0 {
        lemma_distance_agrees(a, b, query, (dims - 1) as nat);
        assert(step_of(a, dims - 1) == step_of(b, dims - 1));
    }
}

proof fn lemma_distance_in_one_dimension(
    a: Seq<u32>,
    b: Seq<u32>,
    query: Seq<i16>,
    dim: int,
    dims: nat,
)
    requires
        0 <= dim < dims,
        forall|d: int| 0 <= d < dims && d != dim ==> #[trigger] step_of(a, d) == step_of(b, d),
    ensures
        quantized_distance(a, query, dims) - quantized_distance(b, query, dims) == (step_of(a, dim)
            - query[dim]) * (step_of(a, dim) - query[dim]) - (step_of(b, dim) - query[dim]) * (
        step_of(b, dim) - query[dim]),
    decreases dims,
{
    let d = dims - 1;
    let x = step_of(a, d) - query[d];
    let y = step_of(b, d) - query[d];
    assert(x * x >= 0 && y * y >= 0) by (nonlinear_arith);
    if dim < d {
        lemma_distance_in_one_dimension(a, b, query, dim, (dims - 1) as nat);
        assert(step_of(a, d) == step_of(b, d));
    } else {
        lemma_distance_agrees(a, b, query, (dims - 1) as nat);
    }
}

/// Packed vectors that differ in one dimension alone differ in distance by the
/// squares of what they differ from the query there, whatever the query's step.
pub proof fn law_each_dimension_counts(a: Seq<u32>, b: Seq<u32>, query: Seq<i16>, dim: int)
    requires
        0 <= dim < DIMS,
        forall|d: int| 0 <= d < DIMS && d != dim ==> #[trigger] step_of(a, d) == step_of(b, d),
    ensures
        quantized_distance(a, query, DIMS as nat) - quantized_distance(b, query, DIMS as nat) == (
        step_of(a, dim) - query[dim]) * (step_of(a, dim) - query[dim]) - (step_of(b, dim)
            - query[dim]) * (step_of(b, dim) - query[dim]),
{
    lemma_distance_in_one_dimension(a, b, query, dim, DIMS as nat);
}

proof fn lemma_no_distance(words: Seq<u32>, query: Seq<i16>, dims: nat)
    ensures
        quantized_distance(words, query, dims) == 0 <==> forall|d: int|
            0 <= d < dims ==> #[trigger] step_of(words, d) == query[d],
    decreases dims,
{
    if dims > 0 {
        let d = dims - 1;
        let x = step_of(words, d) - query[d];
        lemma_no_distance(words, query, (dims - 1) as nat);
        assert(x * x >= 0 && (x * x == 0 <==> x == 0)) by (nonlinear_arith);
        if quantized_distance(words, query, dims) == 0 {
            assert forall|k: int| 0 <= k < dims implies #[trigger] step_of(words, k)
                == query[k] by {
                if k < d {
                }
            }
        } else if forall|k: int| 0 <= k < dims ==> #[trigger] step_of(words, k) == query[k] {
            assert(step_of(words, d) == query[d]);
        }
    }
}

/// A packed vector lies at no distance exactly where all its fourteen steps are
/// those of the query.
pub proof fn law_no_distance_is_equality(words: Seq<u32>, query: Seq<i16>)
    ensures
        quantized_distance(words, query, DIMS as nat) == 0 <==> forall|d: int|
            0 <= d < DIMS ==> #[trigger] step_of(words, d) == query[d],
{
    lemma_no_distance(words, query, DIMS as nat);
}

/// The distance is the sum of the fourteen squared differences of steps.
pub proof fn law_distance_is_the_sum_of_squares(words: Seq<u32>, query: Seq<i16>, diffs: Seq<int>)
    requires
        diffs.len() == DIMS,
        forall|d: int| 0 <= d < DIMS ==> #[trigger] diffs[d] == step_of(words, d) - query[d],
    ensures
        quantized_distance(words, query, DIMS as nat) == diffs[0] * diffs[0] + diffs[1] * diffs[1]
            + diffs[2] * diffs[2] + diffs[3] * diffs[3] + diffs[4] * diffs[4] + diffs[5] * diffs[5]
            + diffs[6] * diffs[6] + diffs[7] * diffs[7] + diffs[8] * diffs[8] + diffs[9] * diffs[9]
            + diffs[10] * diffs[10] + diffs[11] * diffs[11] + diffs[12] * diffs[12] + diffs[13]
            * diffs[13],
{
    assert forall|d: int| 0 <= d < DIMS implies quantized_distance(words, query, (d + 1) as nat)
        == #[trigger] quantized_distance(words, query, d as nat) + diffs[d] * diffs[d] by {
        let x = diffs[d];
        assert(x == step_of(words, d) - query[d]);
        assert(x * x >= 0) by (nonlinear_arith);
    }
    assert(quantized_distance(words, query, 0) == 0);
    assert(quantized_distance(words, query, 1) == diffs[0] * diffs[0]);
    assert(quantized_distance(words, query, 2) == quantized_distance(words, query, 1) + diffs[1]
        * diffs[1]);
    assert(quantized_distance(words, query, 3) == quantized_distance(words, query, 2) + diffs[2]
        * diffs[2]);
    assert(quantized_distance(words, query, 4) == quantized_distance(words, query, 3) + diffs[3]
        * diffs[3]);
    assert(quantized_distance(words, query, 5) == quantized_distance(words, query, 4) + diffs[4]
        * diffs[4]);
    assert(quantized_distance(words, query, 6) == quantized_distance(words, query, 5) + diffs[5]
        * diffs[5]);
    assert(quantized_distance(words, query, 7) == quantized_distance(words, query, 6) + diffs[6]
        * diffs[6]);
    assert(quantized_distance(words, query, 8) == quantized_distance(words, query, 7) + diffs[7]
        * diffs[7]);
    assert(quantized_distance(words, query, 9) == quantized_distance(words, query, 8) + diffs[8]
        * diffs[8]);
    assert(quantized_distance(words, query, 10) == quantized_distance(words, query, 9) + diffs[9]
        * diffs[9]);
    assert(quantized_distance(words, query, 11) == quantized_distance(words, query, 10)
        + diffs[10] * diffs[10]);
    assert(quantized_distance(words, query, 12) == quantized_distance(words, query, 11)
        + diffs[11] * diffs[11]);
    assert(quantized_distance(words, query, 13) == quantized_distance(words, query, 12)
        + diffs[12] * diffs[12]);
}

/// What a search finds: every slot is empty or names a reference with its own
/// distance and label, the slots rise by distance and then by index, and a
/// reference that no slot names lies behind all of them.
pub proof fn law_search_finds_the_nearest(references: ReferenceData, query: Seq<Binary32>)
    requires
        references.wf(),
        references.labels@.len() <= u32::MAX,
    ensures
        ({
            let count = references.labels@.len() as int;
            let steps = quantized_query(query);
            let top = topk::best_five(quantized_candidates(references, query));
            &&& top.len() == 5
            &&& forall|i: int|
                0 <= i < 5 && (#[trigger] top[i]).index != u32::MAX ==> top[i].index < count
                    && top[i].distance == quantized_distance(
                    references.words(top[i].index as int),
                    steps,
                    14,
                ) && (top[i].label == 1 <==> references.labels@[top[i].index as int]) && (
                top[i].label == 0 <==> !references.labels@[top[i].index as int])
            &&& forall|i: int, j: int|
                0 <= i < j < 5 && (#[trigger] top[j]).index != u32::MAX ==> (#[trigger] top[i]).distance
                    < top[j].distance || (top[i].distance == top[j].distance && top[i].index
                    < top[j].index)
            &&& forall|k: int, i: int|
                #![trigger references.words(k), top[i]]
                0 <= k < count && 0 <= i < 5 && (forall|j: int|
                    0 <= j < 5 ==> (#[trigger] top[j]).index != k) ==> top[i].distance
                    < quantized_distance(references.words(k), steps, 14) || (top[i].distance
                    == quantized_distance(references.words(k), steps, 14) && top[i].index < k)
        }),
{
    let count = references.labels@.len() as int;
    let steps = quantized_query(query);
    let all = quantized_candidates(references, query);
    let top = topk::best_five(all);
    exactness::law_best_five(all);
    exactness::law_no_reference_twice(all);
    assert forall|k: int| 0 <= k < count implies (#[trigger] all[k]).distance
        == quantized_distance(references.words(k), steps, 14) && all[k].index == k by {
        lemma_distance_bound(references.words(k), steps, 14);
    }
    assert forall|i: int| 0 <= i < 5 && (#[trigger] top[i]).index != u32::MAX implies all.contains(
        top[i],
    ) by {
    }
    assert forall|i: int| 0 <= i < 5 && (#[trigger] top[i]).index != u32::MAX implies top[i].index
        < count && top[i].distance == quantized_distance(
        references.words(top[i].index as int),
        steps,
        14,
    ) && (top[i].label == 1 <==> references.labels@[top[i].index as int]) && (top[i].label == 0
        <==> !references.labels@[top[i].index as int]) by {
        let k = choose|k: int| 0 <= k < all.len() && all[k] == top[i];
        assert(all[k].index == k);
    }
    assert forall|i: int, j: int|
        0 <= i < j < 5 && (#[trigger] top[j]).index != u32::MAX implies (#[trigger] top[i]).distance
        < top[j].distance || (top[i].distance == top[j].distance && top[i].index
        < top[j].index) by {
        assert(topk::rank(top[i]) <= topk::rank(top[j]));
        assert(top[i].index != top[j].index || top[j].index == NO_INDEX);
    }
    assert forall|k: int, i: int|
        #![trigger references.words(k), top[i]]
        0 <= k < count && 0 <= i < 5 && (forall|j: int|
            0 <= j < 5 ==> (#[trigger] top[j]).index != k) implies top[i].distance
        < quantized_distance(references.words(k), steps, 14) || (top[i].distance
        == quantized_distance(references.words(k), steps, 14) && top[i].index < k) by {
        assert(all[k].index == k);
        assert(all.contains(all[k]));
        if top.contains(all[k]) {
            let j = choose|j: int| 0 <= j < top.len() && top[j] == all[k];
            assert(top[j].index == k);
        }
        assert(topk::rank(top[4]) <= topk::rank(all[k]));
        assert(topk::rank(top[i]) <= topk::rank(top[4]));
        assert(top[i].index != k);
    }
}

/// What a search of the plain values finds: every slot is empty or names a
/// reference with its own distance and label, the slots rise by distance and then
/// by index, and a reference that no slot names lies behind all of them.
pub proof fn law_plain_search_finds_the_nearest(references: ReferenceData, query: Seq<Binary32>)
    requires
        references.vectors_f32@.len() / 14 <= u32::MAX,
    ensures
        ({
            let count = references.vectors_f32@.len() as int / 14;
            let top = topk::best_five(plain_candidates(references, query));
            &&& top.len() == 5
            &&& forall|i: int|
                0 <= i < 5 && (#[trigger] top[i]).index != u32::MAX ==> top[i].index < count
                    && top[i].distance == plain_distance(
                    references.values(top[i].index as int),
                    query,
                    14,
                ) && (top[i].label == 1 <==> references.labels@[top[i].index as int]) && (
                top[i].label == 0 <==> !references.labels@[top[i].index as int])
            &&& forall|i: int, j: int|
                0 <= i < j < 5 && (#[trigger] top[j]).index != u32::MAX ==> binary32::total_key(
                    (#[trigger] top[i]).distance,
                ) < binary32::total_key(top[j].distance) || (top[i].distance == top[j].distance
                    && top[i].index < top[j].index)
            &&& forall|k: int, i: int|
                #![trigger references.values(k), top[i]]
                0 <= k < count && 0 <= i < 5 && (forall|j: int|
                    0 <= j < 5 ==> (#[trigger] top[j]).index != k) ==> binary32::total_key(
                    top[i].distance,
                ) < binary32::total_key(plain_distance(references.values(k), query, 14)) || (
                top[i].distance == plain_distance(references.values(k), query, 14) && top[i].index
                    < k)
        }),
{
    let count = references.vectors_f32@.len() as int / 14;
    let all = plain_candidates(references, query);
    let top = topk::best_five(all);
    exactness::law_best_five(all);
    exactness::law_no_reference_twice(all);
    assert forall|i: int, j: int|
        0 <= i < 5 && 0 <= j < 5 && binary32::total_key((#[trigger] top[i]).distance)
            == binary32::total_key((#[trigger] top[j]).distance) implies top[i].distance
        == top[j].distance by {
        accuracy::law_order_of_all_encodings(top[i].distance, top[j].distance);
    }
    assert forall|k: int| 0 <= k < count implies (#[trigger] all[k]).distance == plain_distance(
        references.values(k),
        query,
        14,
    ) && all[k].index == k by {}
    assert forall|i: int| 0 <= i < 5 && (#[trigger] top[i]).index != u32::MAX implies top[i].index
        < count && top[i].distance == plain_distance(
        references.values(top[i].index as int),
        query,
        14,
    ) && (top[i].label == 1 <==> references.labels@[top[i].index as int]) && (top[i].label == 0
        <==> !references.labels@[top[i].index as int]) by {
        assert(all.contains(top[i]));
        let k = choose|k: int| 0 <= k < all.len() && all[k] == top[i];
        assert(all[k].index == k);
    }
    assert forall|i: int, j: int|
        0 <= i < j < 5 && (#[trigger] top[j]).index != u32::MAX implies binary32::total_key(
        (#[trigger] top[i]).distance,
    ) < binary32::total_key(top[j].distance) || (top[i].distance == top[j].distance && top[i].index
        < top[j].index) by {
        assert(topk::rank(top[i]) <= topk::rank(top[j]));
        assert(top[i].index != top[j].index || top[j].index == NO_INDEX);
    }
    assert forall|k: int, i: int|
        #![trigger references.values(k), top[i]]
        0 <= k < count && 0 <= i < 5 && (forall|j: int|
            0 <= j < 5 ==> (#[trigger] top[j]).index != k) implies binary32::total_key(
        top[i].distance,
    ) < binary32::total_key(plain_distance(references.values(k), query, 14)) || (top[i].distance
        == plain_distance(references.values(k), query, 14) && top[i].index < k) by {
        assert(all[k].index == k);
        assert(all.contains(all[k]));
        if top.contains(all[k]) {
            let j = choose|j: int| 0 <= j < top.len() && top[j] == all[k];
            assert(top[j].index == k);
        }
        accuracy::law_order_of_all_encodings(top[i].distance, all[k].distance);
        assert(topk::rank(top[4]) <= topk::rank(all[k]));
        assert(topk::rank(top[i]) <= topk::rank(top[4]));
        assert(top[i].index != k);
    }
}

/// The distance of a packed vector to a query is the sum of the squares of what
/// their steps differ by, over all fourteen dimensions.
pub proof fn law_distance_of_vectors(a: Seq<Binary32>, b: Seq<Binary32>, diffs: Seq<int>)
    requires
        diffs.len() == 14,
        forall|d: int|
            0 <= d < 14 ==> #[trigger] diffs[d] == quantize::quantized(a[d]) - quantize::quantized(
                b[d],
            ),
    ensures
        quantized_distance(quantize::packed_words(a), quantized_query(b), 14) == diffs[0] * diffs[0]
            + diffs[1] * diffs[1] + diffs[2] * diffs[2] + diffs[3] * diffs[3] + diffs[4] * diffs[4]
            + diffs[5] * diffs[5] + diffs[6] * diffs[6] + diffs[7] * diffs[7] + diffs[8] * diffs[8]
            + diffs[9] * diffs[9] + diffs[10] * diffs[10] + diffs[11] * diffs[11] + diffs[12]
            * diffs[12] + diffs[13] * diffs[13],
        quantized_query(b).len() == 16,
        quantized_query(b)[14] == 0,
        quantized_query(b)[15] == 0,
{
    let words = quantize::packed_words(a);
    let query = quantized_query(b);
    assert forall|d: int| 0 <= d < 14 implies #[trigger] diffs[d] == step_of(words, d)
        - query[d] by {
        law_words_hold_the_vector(a, d);
        assert(-32768 <= quantize::quantized(b[d]) <= 32767);
    }
    law_distance_is_the_sum_of_squares(words, query, diffs);
}

/// Items of a size lie one behind the other.
pub proof fn law_items_lie_in_a_row<T>(s: Seq<T>, size: int, i: int, j: int)
    requires
        0 <= i,
        0 <= j < size,
        size * i + size <= s.len(),
    ensures
        item(s, size, i).len() == size,
        item(s, size, i)[j] == s[size * i + j],
{
    assert(size * i >= 0) by (nonlinear_arith)
        requires
            size >= 0,
            i >= 0,
    ;
}

} // verus!
