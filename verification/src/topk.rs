//! Nearest candidates: their order, the five best, and the merge of block results.

use core::cmp::Ordering;
use vstd::prelude::*;
use crate::distance::Distance;
use crate::labels::PackedLabels;

verus! {

/// How many nearest references decide.
pub const TOP_K: usize = 5;

/// The index of a slot that holds no reference.
pub const NO_INDEX: u32 = 0xffff_ffff;

/// A reference with its distance to the query; the label is one for fraud.
#[derive(Clone, Copy, Debug, PartialEq, Eq, Structural)]
pub struct Candidate<D> {
    pub distance: D,
    pub index: u32,
    pub label: u32,
}

/// A candidate as the compute kernel writes it.
#[derive(Clone, Copy, Debug, PartialEq, Eq, Structural)]
pub struct GpuCandidate {
    pub distance: u64,
    pub index: u32,
    pub label: u32,
}

/// The place of a candidate in the order: by distance, then by index.
pub open spec fn rank<D: Distance>(c: Candidate<D>) -> int {
    c.distance.key() * 0x1_0000_0000 + c.index
}

/// The candidate behind every reference: infinitely far, with no index.
pub open spec fn worst_candidate<D: Distance>() -> Candidate<D> {
    Candidate {
        distance: D::farthest(),
        index: NO_INDEX,
        label: 0,
    }
}

/// Five slots that hold no reference yet.
pub open spec fn worst_five<D: Distance>() -> Seq<Candidate<D>> {
    Seq::new(TOP_K as nat, |i: int| worst_candidate::<D>())
}

impl<D: Distance> Candidate<D> {
    /// The candidate behind every reference.
    pub fn worst() -> (r: Candidate<D>)
        ensures
            r == worst_candidate::<D>(),
    {
        Candidate {
            distance: D::most(),
            index: NO_INDEX,
            label: 0,
        }
    }

}

impl Candidate<u64> {
    /// What the kernel wrote, unless the slot holds no reference.
    pub fn from_gpu(candidate: GpuCandidate) -> (r: Option<Candidate<u64>>)
        ensures
            r == if candidate.index == NO_INDEX {
                None
            } else {
                Some(
                    (Candidate {
                        distance: candidate.distance,
                        index: candidate.index,
                        label: candidate.label,
                    }),
                )
            },
    {
        if candidate.index == NO_INDEX {
            None
        } else {
            Some(
                Candidate {
                    distance: candidate.distance,
                    index: candidate.index,
                    label: candidate.label,
                },
            )
        }
    }
}

/// The order of two candidates: by distance, then by index.
pub fn candidate_order<D: Distance>(left: Candidate<D>, right: Candidate<D>) -> (r: Ordering)
    ensures
        r == (if rank(left) < rank(right) {
            Ordering::Less
        } else if rank(left) == rank(right) {
            Ordering::Equal
        } else {
            Ordering::Greater
        }),
{
    if left.distance.nearer(right.distance) {
        Ordering::Less
    } else if right.distance.nearer(left.distance) {
        Ordering::Greater
    } else if left.index < right.index {
        Ordering::Less
    } else if left.index > right.index {
        Ordering::Greater
    } else {
        Ordering::Equal
    }
}

/// Whether one candidate comes before another.
pub fn comes_before<D: Distance>(left: Candidate<D>, right: Candidate<D>) -> (r: bool)
    ensures
        r == (rank(left) < rank(right)),
{
    match candidate_order(left, right) {
        Ordering::Less => true,
        _ => false,
    }
}

/// The first slot that `c` comes before, or the number of slots.
pub open spec fn slot<D: Distance>(top: Seq<Candidate<D>>, c: Candidate<D>) -> nat
    decreases top.len(),
{
    if top.len() == 0 {
        0
    } else if rank(c) < rank(top[0]) {
        0
    } else {
        1 + slot(top.drop_first(), c)
    }
}

/// The slots after `c` was put in its place and the last one fell out; unchanged
/// where `c` comes before none of them.
pub open spec fn inserted<D: Distance>(
    top: Seq<Candidate<D>>,
    c: Candidate<D>,
) -> Seq<Candidate<D>> {
    let p = slot(top, c);
    if p < top.len() {
        top.subrange(0, p as int).push(c) + top.subrange(p as int, top.len() - 1)
    } else {
        top
    }
}

/// The slots after a whole list was inserted, from its first candidate to its last.
pub open spec fn insert_all<D: Distance>(
    top: Seq<Candidate<D>>,
    list: Seq<Candidate<D>>,
) -> Seq<Candidate<D>>
    decreases list.len(),
{
    if list.len() == 0 {
        top
    } else {
        inserted(insert_all(top, list.drop_last()), list.last())
    }
}

/// The five best of a list.
pub open spec fn best_five<D: Distance>(list: Seq<Candidate<D>>) -> Seq<Candidate<D>> {
    insert_all(worst_five::<D>(), list)
}

pub(crate) proof fn lemma_slot<D: Distance>(top: Seq<Candidate<D>>, c: Candidate<D>)
    ensures
        slot(top, c) <= top.len(),
        forall|i: int| 0 <= i < slot(top, c) ==> rank(#[trigger] top[i]) <= rank(c),
        slot(top, c) < top.len() ==> rank(c) < rank(top[slot(top, c) as int]),
    decreases top.len(),
{
    if top.len() > 0 && rank(c) >= rank(top[0]) {
        let rest = top.drop_first();
        lemma_slot(rest, c);
        assert forall|i: int| 0 <= i < slot(top, c) implies rank(#[trigger] top[i]) <= rank(c) by {
            if i > 0 {
                assert(top[i] == rest[i - 1]);
            }
        }
    }
}

/// The slot is the only position with the candidates up to `c` before it and a
/// greater one at it.
pub(crate) proof fn lemma_slot_is<D: Distance>(top: Seq<Candidate<D>>, c: Candidate<D>, p: int)
    requires
        0 <= p <= top.len(),
        forall|i: int| 0 <= i < p ==> rank(#[trigger] top[i]) <= rank(c),
        p < top.len() ==> rank(c) < rank(top[p]),
    ensures
        slot(top, c) == p,
{
    lemma_slot(top, c);
    let q = slot(top, c) as int;
    if q < p {
        assert(rank(top[q]) <= rank(c));
    }
    if p < q {
        assert(rank(top[p]) <= rank(c));
    }
}

/// Puts a candidate in its place among the five best.
pub fn insert_top5<D: Distance>(top: &mut [Candidate<D>; TOP_K], candidate: Candidate<D>)
    ensures
        final(top)@ == inserted(old(top)@, candidate),
{
    let mut position: usize = 0;
    while position < TOP_K
        invariant
            position <= TOP_K,
            top@ == old(top)@,
            forall|i: int| 0 <= i < position ==> rank(#[trigger] old(top)[i]) <= rank(candidate),
        decreases TOP_K - position,
    {
        if comes_before(candidate, top[position]) {
            proof {
                lemma_slot_is(old(top)@, candidate, position as int);
            }
            let mut shift: usize = TOP_K - 1;
            while shift > position
                invariant
                    position <= shift < TOP_K,
                    forall|i: int| 0 <= i <= shift ==> top[i] == old(top)[i],
                    forall|i: int| shift < i < TOP_K ==> top[i] == old(top)[i - 1],
                decreases shift,
            {
                top[shift] = top[shift - 1];
                shift -= 1;
            }
            top[position] = candidate;
            assert(top@ =~= inserted(old(top)@, candidate));
            return;
        }
        position += 1;
    }
    proof {
        lemma_slot_is(old(top)@, candidate, TOP_K as int);
    }
}

/// Whether two top fives name the same references with the same labels.
pub open spec fn same_entries<A, B>(left: Seq<Candidate<A>>, right: Seq<Candidate<B>>) -> bool {
    forall|i: int|
        0 <= i < TOP_K ==> (#[trigger] left[i]).index == right[i].index && left[i].label
            == right[i].label
}

/// Whether two top fives name the same references with the same labels.
pub fn same_top5<A, B>(left: &[Candidate<A>; TOP_K], right: &[Candidate<B>; TOP_K]) -> (r: bool)
    ensures
        r == same_entries(left@, right@),
{
    let mut i: usize = 0;
    while i < TOP_K
        invariant
            i <= TOP_K,
            forall|j: int|
                0 <= j < i ==> (#[trigger] left[j]).index == right[j].index && left[j].label
                    == right[j].label,
        decreases TOP_K - i,
    {
        if left[i].index != right[i].index || left[i].label != right[i].label {
            assert(left@[i as int].index != right@[i as int].index || left@[i as int].label
                != right@[i as int].label);
            return false;
        }
        i += 1;
    }
    true
}

/// How many of the candidates are fraud.
pub open spec fn fraud_count<D>(top: Seq<Candidate<D>>) -> nat
    decreases top.len(),
{
    if top.len() == 0 {
        0
    } else {
        fraud_count(top.drop_last()) + if top.last().label == 1 {
            1nat
        } else {
            0
        }
    }
}

/// Counts the candidates that are fraud.
pub fn count_frauds<D>(top: &[Candidate<D>; TOP_K]) -> (r: u32)
    ensures
        r == fraud_count(top@),
        r <= TOP_K,
{
    let mut frauds: u32 = 0;
    let mut i: usize = 0;
    assert(top@.subrange(0, 0) =~= Seq::<Candidate<D>>::empty());
    while i < TOP_K
        invariant
            i <= TOP_K,
            frauds == fraud_count(top@.subrange(0, i as int)),
            frauds <= i,
        decreases TOP_K - i,
    {
        assert(top@.subrange(0, i + 1).drop_last() =~= top@.subrange(0, i as int));
        if top[i].label == 1 {
            frauds += 1;
        }
        i += 1;
    }
    assert(top@.subrange(0, i as int) =~= top@);
    frauds
}

/// What the kernel wrote, merged into the five best with the library's labels:
/// slots without a reference are passed over.
pub open spec fn merged(gpu: Seq<GpuCandidate>, labels: Seq<bool>) -> Seq<Candidate<u64>>
    decreases gpu.len(),
{
    if gpu.len() == 0 {
        worst_five()
    } else {
        let before = merged(gpu.drop_last(), labels);
        if gpu.last().index == NO_INDEX {
            before
        } else {
            inserted(before, relabelled(gpu.last(), labels))
        }
    }
}

/// A candidate with the label of its reference.
pub open spec fn relabelled(gpu: GpuCandidate, labels: Seq<bool>) -> Candidate<u64> {
    Candidate {
        distance: gpu.distance,
        index: gpu.index,
        label: if labels[gpu.index as int] {
            1u32
        } else {
            0
        },
    }
}

/// Whether every slot names a known reference or none.
pub open spec fn indices_known(gpu: Seq<GpuCandidate>, count: nat) -> bool {
    forall|i: int|
        0 <= i < gpu.len() ==> (#[trigger] gpu[i]).index == NO_INDEX || gpu[i].index < count
}

/// Tells whether every slot names a known reference or none.
pub fn known_indices(gpu: &[GpuCandidate], count: usize) -> (r: bool)
    ensures
        r == indices_known(gpu@, count as nat),
{
    let mut i: usize = 0;
    while i < gpu.len()
        invariant
            i <= gpu@.len(),
            forall|j: int|
                0 <= j < i ==> (#[trigger] gpu@[j]).index == NO_INDEX || gpu@[j].index < count,
        decreases gpu@.len() - i,
    {
        if gpu[i].index != NO_INDEX && gpu[i].index as usize >= count {
            assert(gpu@[i as int].index != NO_INDEX && gpu@[i as int].index >= count);
            return false;
        }
        i += 1;
    }
    true
}

/// Merges the block candidates that the kernel wrote into the five best.
pub fn merge_candidates(
    gpu: &[GpuCandidate],
    labels: &PackedLabels,
) -> (top: [Candidate<u64>; TOP_K])
    requires
        labels.wf(),
        indices_known(gpu@, labels.len as nat),
    ensures
        top@ == merged(gpu@, labels@),
{
    let mut top: [Candidate<u64>; TOP_K] = [Candidate::worst(); TOP_K];
    assert(top@ =~= worst_five::<u64>());
    let mut i: usize = 0;
    assert(gpu@.subrange(0, 0) =~= Seq::<GpuCandidate>::empty());
    while i < gpu.len()
        invariant
            i <= gpu@.len(),
            labels.wf(),
            indices_known(gpu@, labels.len as nat),
            top@ == merged(gpu@.subrange(0, i as int), labels@),
        decreases gpu@.len() - i,
    {
        let ghost next = gpu@.subrange(0, i + 1);
        assert(next.drop_last() =~= gpu@.subrange(0, i as int));
        assert(gpu@[i as int].index == NO_INDEX || gpu@[i as int].index < labels.len);
        match Candidate::from_gpu(gpu[i]) {
            Some(found) => {
                let candidate = Candidate {
                    distance: found.distance,
                    index: found.index,
                    label: labels.get(found.index as usize),
                };
                insert_top5(&mut top, candidate);
            },
            None => {},
        }
        i += 1;
    }
    assert(gpu@.subrange(0, i as int) =~= gpu@);
    top
}

/// A candidate comes before another that is farther, and before one that is as
/// far and has a higher index; an empty slot comes behind every reference.
pub proof fn law_order_of_candidates<D: Distance>(a: Candidate<D>, b: Candidate<D>)
    ensures
        rank(a) < rank(b) <==> a.distance.key() < b.distance.key() || (a.distance.key()
            == b.distance.key() && a.index < b.index),
        a.distance.key() < D::farthest().key() ==> rank(a) < rank(worst_candidate::<D>()),
        a.distance.key() == D::farthest().key() && a.index != u32::MAX ==> rank(a) < rank(
            worst_candidate::<D>(),
        ),
{
}

/// Changing one entry changes the number of frauds by that entry alone.
pub proof fn law_frauds_are_counted_one_by_one<D>(top: Seq<Candidate<D>>, i: int, c: Candidate<D>)
    requires
        0 <= i < top.len(),
    ensures
        top[i].label != 1 && c.label == 1 ==> fraud_count(top.update(i, c)) == fraud_count(top) + 1,
        top[i].label == 1 && c.label != 1 ==> fraud_count(top.update(i, c)) + 1 == fraud_count(top),
        (top[i].label == 1) == (c.label == 1) ==> fraud_count(top.update(i, c)) == fraud_count(top),
    decreases top.len(),
{
    let last = top.len() - 1;
    if i < last {
        assert(top.update(i, c).drop_last() =~= top.drop_last().update(i, c));
        law_frauds_are_counted_one_by_one(top.drop_last(), i, c);
    } else {
        assert(top.update(i, c).drop_last() =~= top.drop_last());
    }
}

/// No entry that is fraud is no fraud, and nothing but fraud is as many as there
/// are entries.
pub proof fn law_frauds_of_one_kind<D>(top: Seq<Candidate<D>>)
    ensures
        fraud_count(top) <= top.len(),
        fraud_count(top) == 0 <==> forall|i: int| 0 <= i < top.len() ==> top[i].label != 1,
        fraud_count(top) == top.len() <==> forall|i: int| 0 <= i < top.len() ==> top[i].label == 1,
    decreases top.len(),
{
    if top.len() > 0 {
        let rest = top.drop_last();
        law_frauds_of_one_kind(rest);
        assert(forall|i: int| 0 <= i < rest.len() ==> rest[i] == top[i]);
        let last = top.len() - 1;
        assert(top[last] == top.last());
        if forall|i: int| 0 <= i < top.len() ==> top[i].label != 1 {
            assert(forall|i: int| 0 <= i < rest.len() ==> rest[i].label != 1);
        }
        if forall|i: int| 0 <= i < top.len() ==> top[i].label == 1 {
            assert(forall|i: int| 0 <= i < rest.len() ==> rest[i].label == 1);
        }
        if fraud_count(top) == 0 {
            assert forall|i: int| 0 <= i < top.len() implies top[i].label != 1 by {
                if i < last {
                    assert(rest[i].label != 1);
                }
            }
        }
        if fraud_count(top) == top.len() {
            assert forall|i: int| 0 <= i < top.len() implies top[i].label == 1 by {
                if i < last {
                    assert(rest[i].label == 1);
                }
            }
        }
    }
}

/// Frauds in two lists are those of the first and those of the second.
pub proof fn law_frauds_add_up<D>(a: Seq<Candidate<D>>, b: Seq<Candidate<D>>)
    ensures
        fraud_count(a + b) == fraud_count(a) + fraud_count(b),
    decreases b.len(),
{
    if b.len() == 0 {
        assert(a + b =~= a);
    } else {
        assert((a + b).drop_last() =~= a + b.drop_last());
        law_frauds_add_up(a, b.drop_last());
    }
}

/// The order of the entries does not matter to the number of frauds.
pub proof fn law_frauds_in_any_order<D>(a: Seq<Candidate<D>>, b: Seq<Candidate<D>>)
    requires
        a.to_multiset() == b.to_multiset(),
    ensures
        fraud_count(a) == fraud_count(b),
    decreases a.len(),
{
    broadcast use vstd::seq_lib::group_to_multiset_ensures;

    vstd::seq_lib::to_multiset_len(a);
    vstd::seq_lib::to_multiset_len(b);
    if a.len() > 0 {
        let c = a.last();
        assert(a.to_multiset().count(c) > 0) by {
            assert(a.contains(c));
        }
        assert(b.contains(c));
        let i = choose|i: int| 0 <= i < b.len() && b[i] == c;
        let front = b.subrange(0, i);
        let back = b.subrange(i + 1, b.len() as int);
        assert(b =~= front.push(c) + back);
        assert(b.remove(i) =~= front + back);
        assert(a.remove(a.len() - 1) =~= a.drop_last());
        law_frauds_add_up(front.push(c), back);
        law_frauds_add_up(front, back);
        assert(front.push(c).drop_last() =~= front);
        assert(a.drop_last().to_multiset() =~= a.to_multiset().remove(c));
        assert(b.remove(i).to_multiset() =~= b.to_multiset().remove(c));
        law_frauds_in_any_order(a.drop_last(), b.remove(i));
    }
}

/// Two top fives are the same exactly where all five places name the same
/// reference with the same label, whatever the distances.
pub proof fn law_same_in_every_place<A, B>(left: Seq<Candidate<A>>, right: Seq<Candidate<B>>)
    ensures
        same_entries(left, right) <==> left[0].index == right[0].index && left[0].label
            == right[0].label && left[1].index == right[1].index && left[1].label == right[1].label
            && left[2].index == right[2].index && left[2].label == right[2].label && left[3].index
            == right[3].index && left[3].label == right[3].label && left[4].index == right[4].index
            && left[4].label == right[4].label,
{
    if same_entries(left, right) {
        assert(left[0].index == right[0].index);
        assert(left[1].index == right[1].index);
        assert(left[2].index == right[2].index);
        assert(left[3].index == right[3].index);
        assert(left[4].index == right[4].index);
    }
}

/// Slots are known one by one: each holds no reference, or one of the counted.
pub proof fn law_slots_are_known_one_by_one(gpu: Seq<GpuCandidate>, last: GpuCandidate, count: nat)
    ensures
        indices_known(Seq::<GpuCandidate>::empty(), count),
        indices_known(gpu.push(last), count) <==> indices_known(gpu, count) && (last.index
            == u32::MAX || last.index < count),
{
    let all = gpu.push(last);
    if indices_known(all, count) {
        assert(all[gpu.len() as int] == last);
        assert forall|i: int| 0 <= i < gpu.len() implies (#[trigger] gpu[i]).index == NO_INDEX
            || gpu[i].index < count by {
            assert(all[i] == gpu[i]);
        }
    }
}

} // verus!
