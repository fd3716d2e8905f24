//! Why merging block results is exact.
//!
//! The kernel reduces every block of references to its own five best, and only
//! those are merged.  The laws here show that nothing is lost: the merge of the
//! block results is the five best of all references.

use vstd::prelude::*;
use crate::distance::Distance;
use crate::topk;
use crate::topk::{Candidate, GpuCandidate, TOP_K, NO_INDEX};

verus! {

/// Five slots in the order of the candidates.
pub open spec fn ordered<D: Distance>(top: Seq<Candidate<D>>) -> bool {
    &&& top.len() == TOP_K
    &&& forall|i: int, j: int|
        0 <= i <= j < TOP_K ==> topk::rank(#[trigger] top[i]) <= topk::rank(#[trigger] top[j])
}

/// Every slot of `a` ranks at most as high as the same slot of `b`.
pub open spec fn dominates<D: Distance>(a: Seq<Candidate<D>>, b: Seq<Candidate<D>>) -> bool {
    &&& a.len() == TOP_K
    &&& b.len() == TOP_K
    &&& forall|i: int|
        0 <= i < TOP_K ==> topk::rank(#[trigger] a[i]) <= topk::rank(#[trigger] b[i])
}

/// Slots that a run of insertions can have reached.
pub open spec fn reached<D: Distance>(top: Seq<Candidate<D>>) -> bool {
    ordered(top) && dominates(top, topk::worst_five::<D>())
}

/// All lists one behind the other.
pub open spec fn joined<D: Distance>(lists: Seq<Seq<Candidate<D>>>) -> Seq<Candidate<D>>
    decreases lists.len(),
{
    if lists.len() == 0 {
        Seq::empty()
    } else {
        joined(lists.drop_last()) + lists.last()
    }
}

/// The five best of every list.
pub open spec fn best_of_each<D: Distance>(
    lists: Seq<Seq<Candidate<D>>>,
) -> Seq<Seq<Candidate<D>>> {
    Seq::new(lists.len(), |i: int| topk::best_five(lists[i]))
}

/// Inserting puts a candidate into its slot and shifts the slots behind it.
proof fn lemma_inserted_slots<D: Distance>(top: Seq<Candidate<D>>, c: Candidate<D>)
    requires
        top.len() == TOP_K,
    ensures
        topk::inserted(top, c).len() == TOP_K,
        topk::slot(top, c) <= TOP_K,
        forall|i: int|
            0 <= i < TOP_K ==> #[trigger] topk::inserted(top, c)[i] == if i < topk::slot(top, c) {
                top[i]
            } else if i == topk::slot(top, c) {
                c
            } else {
                top[i - 1]
            },
        forall|i: int| 0 <= i < topk::slot(top, c) ==> topk::rank(#[trigger] top[i]) <= topk::rank(c),
        topk::slot(top, c) < TOP_K ==> topk::rank(c) < topk::rank(
            top[topk::slot(top, c) as int],
        ),
{
    topk::lemma_slot(top, c);
}

proof fn lemma_inserted_ordered<D: Distance>(top: Seq<Candidate<D>>, c: Candidate<D>)
    requires
        ordered(top),
    ensures
        ordered(topk::inserted(top, c)),
        dominates(topk::inserted(top, c), top),
{
    lemma_inserted_slots(top, c);
    let p = topk::slot(top, c) as int;
    let t = topk::inserted(top, c);
    assert forall|i: int, j: int| 0 <= i <= j < TOP_K implies topk::rank(#[trigger] t[i])
        <= topk::rank(#[trigger] t[j]) by {
        let a = if i < p { i } else { i - 1 };
        let b = if j < p { j } else { j - 1 };
        if i == p && j > p {
            assert(topk::rank(top[p]) <= topk::rank(top[b]));
        }
        if i < p && j == p {
            assert(topk::rank(top[i]) <= topk::rank(c));
        }
        if i != p && j != p {
            assert(topk::rank(top[a]) <= topk::rank(top[b]));
        }
    }
    assert forall|i: int| 0 <= i < TOP_K implies topk::rank(#[trigger] t[i]) <= topk::rank(
        #[trigger] top[i],
    ) by {
        if i > p {
            assert(topk::rank(top[i - 1]) <= topk::rank(top[i]));
        }
    }
}

/// A candidate that does not come before the last slot changes nothing.
proof fn lemma_inserted_noop<D: Distance>(top: Seq<Candidate<D>>, c: Candidate<D>)
    requires
        ordered(top),
        topk::rank(top[TOP_K - 1]) <= topk::rank(c),
    ensures
        topk::inserted(top, c) == top,
{
    lemma_inserted_slots(top, c);
    let p = topk::slot(top, c) as int;
    if p < TOP_K {
        assert(topk::rank(top[p]) <= topk::rank(top[TOP_K - 1]));
    }
}

proof fn lemma_inserted_monotone<D: Distance>(
    a: Seq<Candidate<D>>,
    b: Seq<Candidate<D>>,
    c: Candidate<D>,
)
    requires
        ordered(a),
        ordered(b),
        dominates(a, b),
    ensures
        dominates(topk::inserted(a, c), topk::inserted(b, c)),
{
    lemma_inserted_slots(a, c);
    lemma_inserted_slots(b, c);
    let p = topk::slot(a, c) as int;
    let q = topk::slot(b, c) as int;
    if q < TOP_K && p < q {
        assert(topk::rank(b[p]) <= topk::rank(c));
    }
    if q > p {
        assert(topk::rank(a[p]) <= topk::rank(b[p]));
    }
    let s = topk::inserted(a, c);
    let t = topk::inserted(b, c);
    assert forall|i: int| 0 <= i < TOP_K implies topk::rank(#[trigger] s[i]) <= topk::rank(
        #[trigger] t[i],
    ) by {
        if i < q {
            assert(topk::rank(a[i]) <= topk::rank(b[i]));
        } else if i == q && i < p {
            assert(topk::rank(a[i]) <= topk::rank(c));
        } else if i > q {
            assert(topk::rank(a[i - 1]) <= topk::rank(b[i - 1]));
            if i < p {
                assert(topk::rank(a[i]) <= topk::rank(c));
                assert(topk::rank(b[q]) <= topk::rank(b[i - 1]));
            }
            if i == p {
                assert(topk::rank(b[q]) <= topk::rank(b[i - 1]));
            }
        }
    }
}

/// Two candidates of different ranks may be inserted in either order.
proof fn lemma_inserted_commute<D: Distance>(
    top: Seq<Candidate<D>>,
    a: Candidate<D>,
    b: Candidate<D>,
)
    requires
        ordered(top),
        topk::rank(a) < topk::rank(b),
    ensures
        topk::inserted(topk::inserted(top, a), b) == topk::inserted(topk::inserted(top, b), a),
{
    lemma_inserted_slots(top, a);
    lemma_inserted_slots(top, b);
    let ta = topk::inserted(top, a);
    let tb = topk::inserted(top, b);
    lemma_inserted_ordered(top, a);
    lemma_inserted_ordered(top, b);
    lemma_inserted_slots(ta, b);
    lemma_inserted_slots(tb, a);
    let p = topk::slot(top, a) as int;
    let q = topk::slot(top, b) as int;
    if q < p {
        assert(topk::rank(top[q]) <= topk::rank(a));
    }
    assert(p <= q);
    // `a` keeps its slot behind `b`, and `b` moves one slot on behind `a`.
    assert forall|i: int| 0 <= i < p implies topk::rank(#[trigger] tb[i]) <= topk::rank(a) by {
        assert(tb[i] == top[i]);
    }
    topk::lemma_slot_is(tb, a, p);
    let q2 = if q < TOP_K { q + 1 } else { q };
    assert forall|i: int| 0 <= i < q2 && i < TOP_K implies topk::rank(#[trigger] ta[i])
        <= topk::rank(b) by {
        if i > p {
            assert(topk::rank(top[i - 1]) <= topk::rank(b));
        } else if i < p {
            assert(topk::rank(top[i]) <= topk::rank(a));
        }
    }
    if q2 < TOP_K {
        assert(ta[q2] == top[q]);
    }
    topk::lemma_slot_is(ta, b, if q2 < TOP_K { q2 } else { TOP_K as int });
    assert(topk::inserted(ta, b) =~= topk::inserted(tb, a));
}

proof fn lemma_insert_all_reached<D: Distance>(top: Seq<Candidate<D>>, list: Seq<Candidate<D>>)
    requires
        ordered(top),
    ensures
        ordered(topk::insert_all(top, list)),
        dominates(topk::insert_all(top, list), top),
    decreases list.len(),
{
    if list.len() > 0 {
        let before = topk::insert_all(top, list.drop_last());
        lemma_insert_all_reached(top, list.drop_last());
        lemma_inserted_ordered(before, list.last());
        let after = topk::insert_all(top, list);
        assert forall|i: int| 0 <= i < TOP_K implies topk::rank(#[trigger] after[i])
            <= topk::rank(#[trigger] top[i]) by {
            assert(topk::rank(after[i]) <= topk::rank(before[i]));
        }
    }
}

proof fn lemma_insert_all_monotone<D: Distance>(
    a: Seq<Candidate<D>>,
    b: Seq<Candidate<D>>,
    list: Seq<Candidate<D>>,
)
    requires
        ordered(a),
        ordered(b),
        dominates(a, b),
    ensures
        dominates(topk::insert_all(a, list), topk::insert_all(b, list)),
    decreases list.len(),
{
    if list.len() > 0 {
        lemma_insert_all_monotone(a, b, list.drop_last());
        lemma_insert_all_reached(a, list.drop_last());
        lemma_insert_all_reached(b, list.drop_last());
        lemma_inserted_monotone(
            topk::insert_all(a, list.drop_last()),
            topk::insert_all(b, list.drop_last()),
            list.last(),
        );
    }
}

/// Inserting one list behind another is inserting both, one after the other.
proof fn lemma_insert_all_concat<D: Distance>(
    top: Seq<Candidate<D>>,
    a: Seq<Candidate<D>>,
    b: Seq<Candidate<D>>,
)
    ensures
        topk::insert_all(top, a + b) == topk::insert_all(topk::insert_all(top, a), b),
    decreases b.len(),
{
    if b.len() == 0 {
        assert(a + b =~= a);
    } else {
        assert((a + b).drop_last() =~= a + b.drop_last());
        lemma_insert_all_concat(top, a, b.drop_last());
    }
}

/// Moving a candidate to the front of a list of higher ranks changes nothing.
proof fn lemma_insert_all_move<D: Distance>(
    top: Seq<Candidate<D>>,
    list: Seq<Candidate<D>>,
    c: Candidate<D>,
)
    requires
        ordered(top),
        forall|i: int| 0 <= i < list.len() ==> topk::rank(c) < topk::rank(#[trigger] list[i]),
    ensures
        topk::inserted(topk::insert_all(top, list), c) == topk::insert_all(
            topk::inserted(top, c),
            list,
        ),
    decreases list.len(),
{
    if list.len() > 0 {
        let x = list.last();
        let before = topk::insert_all(top, list.drop_last());
        assert(topk::rank(c) < topk::rank(list[list.len() - 1]));
        assert forall|i: int| 0 <= i < list.drop_last().len() implies topk::rank(c)
            < topk::rank(#[trigger] list.drop_last()[i]) by {
            assert(list.drop_last()[i] == list[i]);
        }
        lemma_insert_all_reached(top, list.drop_last());
        lemma_inserted_commute(before, c, x);
        lemma_insert_all_move(top, list.drop_last(), c);
    }
}

/// Ordered slots inserted into empty ones come back with the ranks they had.
proof fn lemma_insert_all_self<D: Distance>(top: Seq<Candidate<D>>, n: int)
    requires
        reached(top),
        0 <= n <= TOP_K,
    ensures
        ({
            let t = topk::insert_all(topk::worst_five::<D>(), top.subrange(0, n));
            &&& t.len() == TOP_K
            &&& forall|i: int|
                0 <= i < TOP_K ==> topk::rank(#[trigger] t[i]) == topk::rank(
                    if i < n {
                        top[i]
                    } else {
                        topk::worst_candidate::<D>()
                    },
                )
        }),
    decreases n,
{
    let w = topk::worst_five::<D>();
    let list = top.subrange(0, n);
    if n > 0 {
        assert(list.drop_last() =~= top.subrange(0, n - 1));
        lemma_insert_all_self(top, n - 1);
        let before = topk::insert_all(w, top.subrange(0, n - 1));
        let c = top[n - 1];
        assert(topk::rank(top[n - 1]) <= topk::rank(w[n - 1]));
        lemma_inserted_slots(before, c);
        assert forall|i: int| 0 <= i < n - 1 implies topk::rank(#[trigger] before[i])
            <= topk::rank(c) by {
            assert(topk::rank(top[i]) <= topk::rank(top[n - 1]));
        }
        if topk::rank(c) < topk::rank(before[n - 1]) {
            topk::lemma_slot_is(before, c, n - 1);
        } else {
            topk::lemma_slot_is(before, c, TOP_K as int);
        }
    }
}

/// A candidate that comes behind five others stays behind them wherever they
/// were inserted.
proof fn lemma_behind_five<D: Distance>(
    top: Seq<Candidate<D>>,
    five: Seq<Candidate<D>>,
    c: Candidate<D>,
)
    requires
        reached(top),
        reached(five),
        topk::rank(five[TOP_K - 1]) <= topk::rank(c),
    ensures
        topk::inserted(topk::insert_all(top, five), c) == topk::insert_all(top, five),
{
    let w = topk::worst_five::<D>();
    assert(five.subrange(0, TOP_K as int) =~= five);
    lemma_insert_all_self(five, TOP_K as int);
    lemma_insert_all_monotone(top, w, five);
    lemma_insert_all_reached(top, five);
    let t = topk::insert_all(top, five);
    let u = topk::insert_all(w, five);
    assert(topk::rank(t[TOP_K - 1]) <= topk::rank(u[TOP_K - 1]));
    lemma_inserted_noop(t, c);
}

/// Only the five best of a list matter to whatever it is inserted into.
pub proof fn law_best_five_suffice<D: Distance>(top: Seq<Candidate<D>>, list: Seq<Candidate<D>>)
    requires
        reached(top),
    ensures
        topk::insert_all(top, topk::best_five(list)) == topk::insert_all(top, list),
    decreases list.len(),
{
    let w = topk::worst_five::<D>();
    let five = topk::best_five(list);
    assert(ordered(w));
    assert(dominates(w, w));
    if list.len() == 0 {
        assert(five == w);
        lemma_worst_are_noops(top, TOP_K as int);
        assert(w.subrange(0, TOP_K as int) =~= w);
    } else {
        let b = topk::best_five(list.drop_last());
        let c = list.last();
        lemma_insert_all_reached(w, list.drop_last());
        lemma_insert_all_reached(w, list);
        law_best_five_suffice(top, list.drop_last());
        lemma_inserted_slots(b, c);
        let p = topk::slot(b, c) as int;
        if p == TOP_K {
            assert(five == b);
            assert(topk::rank(b[TOP_K - 1]) <= topk::rank(c));
            lemma_behind_five(top, b, c);
        } else {
            let x = b[TOP_K - 1];
            let front = b.subrange(0, p);
            let back = b.subrange(p, TOP_K as int);
            let kept = b.subrange(p, TOP_K - 1);
            assert(b =~= front + back);
            assert(back.drop_last() =~= kept);
            assert(five =~= front.push(c) + kept);
            let start = topk::insert_all(top, front);
            lemma_insert_all_reached(top, front);
            lemma_insert_all_concat(top, front, back);
            assert forall|i: int| 0 <= i < back.len() implies topk::rank(c) < topk::rank(
                #[trigger] back[i],
            ) by {
                assert(topk::rank(b[p]) <= topk::rank(b[p + i]));
            }
            lemma_insert_all_move(start, back, c);
            assert(front.push(c).drop_last() =~= front);
            lemma_insert_all_concat(top, front.push(c), kept);
            assert(topk::insert_all(top, list) == topk::inserted(
                topk::insert_all(top, five),
                x,
            ));
            assert(topk::rank(five[TOP_K - 1]) <= topk::rank(x)) by {
                lemma_inserted_ordered(b, c);
            }
            lemma_behind_five(top, five, x);
        }
    }
}

proof fn lemma_worst_are_noops<D: Distance>(top: Seq<Candidate<D>>, n: int)
    requires
        reached(top),
        0 <= n <= TOP_K,
    ensures
        topk::insert_all(top, topk::worst_five::<D>().subrange(0, n)) == top,
    decreases n,
{
    if n > 0 {
        let w = topk::worst_five::<D>();
        assert(w.subrange(0, n).drop_last() =~= w.subrange(0, n - 1));
        lemma_worst_are_noops(top, n - 1);
        assert(topk::rank(top[TOP_K - 1]) <= topk::rank(w[TOP_K - 1]));
        lemma_inserted_noop(top, w[0]);
    }
}

/// The five best of all lists are the five best of the lists' own five best.
pub proof fn law_best_of_blocks<D: Distance>(lists: Seq<Seq<Candidate<D>>>)
    ensures
        topk::best_five(joined(best_of_each(lists))) == topk::best_five(joined(lists)),
    decreases lists.len(),
{
    let w = topk::worst_five::<D>();
    if lists.len() == 0 {
        assert(best_of_each(lists) =~= lists);
    } else {
        let rest = lists.drop_last();
        let last = lists.last();
        law_best_of_blocks(rest);
        assert(best_of_each(lists).drop_last() =~= best_of_each(rest));
        lemma_insert_all_concat(w, joined(best_of_each(rest)), topk::best_five(last));
        lemma_insert_all_concat(w, joined(rest), last);
        assert(ordered(w));
        lemma_insert_all_reached(w, joined(rest));
        law_best_five_suffice(topk::best_five(joined(rest)), last);
    }
}

/// Whether the kernel's slots hold the given candidates, in their order; what
/// distance stands in a slot without a reference does not matter.
pub open spec fn holds(gpu: Seq<GpuCandidate>, list: Seq<Candidate<u64>>) -> bool {
    &&& gpu.len() == list.len()
    &&& forall|i: int|
        0 <= i < gpu.len() ==> (#[trigger] gpu[i]).index == list[i].index && (gpu[i].index
            == NO_INDEX || gpu[i].distance == list[i].distance)
}

/// Whether a candidate names a reference and carries its label.
pub open spec fn labelled<D: Distance>(c: Candidate<D>, labels: Seq<bool>) -> bool {
    &&& c.index < labels.len()
    &&& c.index != NO_INDEX
    &&& c.label == if labels[c.index as int] {
        1u32
    } else {
        0
    }
}

proof fn lemma_merged_is_best(gpu: Seq<GpuCandidate>, list: Seq<Candidate<u64>>, labels: Seq<bool>)
    requires
        holds(gpu, list),
        forall|i: int|
            0 <= i < list.len() ==> labelled(#[trigger] list[i], labels) || list[i]
                == topk::worst_candidate::<u64>(),
    ensures
        topk::merged(gpu, labels) == topk::best_five(list),
    decreases gpu.len(),
{
    let w = topk::worst_five::<u64>();
    if gpu.len() > 0 {
        let c = list.last();
        assert(gpu.last().index == list[list.len() - 1].index);
        assert(gpu.last().index == NO_INDEX || gpu.last().distance == list[list.len()
            - 1].distance);
        assert forall|i: int| 0 <= i < gpu.drop_last().len() implies (#[trigger] gpu.drop_last()[i]).index
            == list.drop_last()[i].index && (gpu.drop_last()[i].index == NO_INDEX
            || gpu.drop_last()[i].distance == list.drop_last()[i].distance) by {
            assert(gpu.drop_last()[i] == gpu[i]);
        }
        assert forall|i: int| 0 <= i < list.drop_last().len() implies labelled(
            #[trigger] list.drop_last()[i],
            labels,
        ) || list.drop_last()[i] == topk::worst_candidate::<u64>() by {
            assert(list.drop_last()[i] == list[i]);
        }
        lemma_merged_is_best(gpu.drop_last(), list.drop_last(), labels);
        let before = topk::best_five(list.drop_last());
        assert(ordered(w));
        lemma_insert_all_reached(w, list.drop_last());
        assert(labelled(list[list.len() - 1], labels) || list[list.len() - 1]
            == topk::worst_candidate::<u64>());
        if gpu.last().index == NO_INDEX {
            assert(c == topk::worst_candidate::<u64>());
            assert(topk::rank(before[TOP_K - 1]) <= topk::rank(w[TOP_K - 1]));
            lemma_inserted_noop(before, c);
        } else {
            assert(topk::relabelled(gpu.last(), labels) == c);
        }
    }
}

/// The entries of a best five come out of the list, or are empty slots.
proof fn lemma_best_members<D: Distance>(top: Seq<Candidate<D>>, list: Seq<Candidate<D>>)
    requires
        top.len() == TOP_K,
    ensures
        topk::insert_all(top, list).len() == TOP_K,
        forall|i: int|
            0 <= i < TOP_K ==> list.contains(#[trigger] topk::insert_all(top, list)[i])
                || top.contains(topk::insert_all(top, list)[i]),
    decreases list.len(),
{
    let t = topk::insert_all(top, list);
    if list.len() == 0 {
        assert forall|i: int| 0 <= i < TOP_K implies list.contains(#[trigger] t[i])
            || top.contains(t[i]) by {
            assert(top[i] == t[i]);
        }
    } else {
        let rest = list.drop_last();
        let before = topk::insert_all(top, rest);
        lemma_best_members(top, rest);
        lemma_inserted_slots(before, list.last());
        let p = topk::slot(before, list.last()) as int;
        assert forall|i: int| 0 <= i < TOP_K implies list.contains(#[trigger] t[i])
            || top.contains(t[i]) by {
            if i == p {
                assert(list[list.len() - 1] == t[i]);
            } else {
                let j = if i < p { i } else { i - 1 };
                assert(t[i] == before[j]);
                if rest.contains(before[j]) {
                    let k = choose|k: int| 0 <= k < rest.len() && rest[k] == before[j];
                    assert(list[k] == t[i]);
                }
            }
        }
    }
}

/// Merging the kernel's block results is exact: where every block of labelled
/// candidates was reduced to its five best, the merge is the five best of all.
pub proof fn law_merge_is_exact(
    blocks: Seq<Seq<Candidate<u64>>>,
    gpu: Seq<GpuCandidate>,
    labels: Seq<bool>,
)
    requires
        forall|b: int, i: int|
            0 <= b < blocks.len() && 0 <= i < blocks[b].len() ==> labelled(
                #[trigger] blocks[b][i],
                labels,
            ),
        holds(gpu, joined(best_of_each(blocks))),
    ensures
        topk::merged(gpu, labels) == topk::best_five(joined(blocks)),
{
    law_best_of_blocks(blocks);
    lemma_joined_labelled(blocks, labels);
    lemma_merged_is_best(gpu, joined(best_of_each(blocks)), labels);
}

/// A list cut into blocks of `size`, the last one shorter where it must be.
pub open spec fn blocks_of<D: Distance>(
    list: Seq<Candidate<D>>,
    size: nat,
) -> Seq<Seq<Candidate<D>>>
    decreases list.len(),
{
    if list.len() == 0 || size == 0 {
        Seq::empty()
    } else {
        let last = size * ((list.len() - 1) / size as int);
        proof {
            lemma_last_block(list.len(), size);
        }
        blocks_of(list.subrange(0, last), size).push(list.subrange(last, list.len() as int))
    }
}

/// The blocks of a list, one behind the other, are the list.
pub proof fn law_blocks_cover<D: Distance>(list: Seq<Candidate<D>>, size: nat)
    requires
        size > 0,
    ensures
        joined(blocks_of(list, size)) == list,
    decreases list.len(),
{
    if list.len() > 0 {
        let last = size * ((list.len() - 1) / size as int);
        lemma_last_block(list.len(), size);
        let rest = list.subrange(0, last);
        law_blocks_cover(rest, size);
        let blocks = blocks_of(list, size);
        assert(blocks.drop_last() =~= blocks_of(rest, size));
        assert(joined(blocks) =~= list);
    }
}

/// The last block of a list starts inside it.
pub proof fn lemma_last_block(len: nat, size: nat)
    requires
        len > 0,
        size > 0,
    ensures
        0 <= size * ((len - 1) / size as int) < len,
{
    vstd::arithmetic::div_mod::lemma_fundamental_div_mod(len - 1, size as int);
    vstd::arithmetic::div_mod::lemma_mod_bound(len - 1, size as int);
    vstd::arithmetic::div_mod::lemma_div_pos_is_pos(len - 1, size as int);
    vstd::arithmetic::mul::lemma_mul_nonnegative(size as int, (len - 1) / size as int);
}

/// The blocks of a list hold only its candidates.
pub(crate) proof fn lemma_blocks_labelled<D: Distance>(
    list: Seq<Candidate<D>>,
    size: nat,
    labels: Seq<bool>,
)
    requires
        size > 0,
        forall|i: int| 0 <= i < list.len() ==> labelled(#[trigger] list[i], labels),
    ensures
        forall|b: int, i: int|
            0 <= b < blocks_of(list, size).len() && 0 <= i < blocks_of(list, size)[b].len()
                ==> labelled(#[trigger] blocks_of(list, size)[b][i], labels),
    decreases list.len(),
{
    if list.len() > 0 {
        let last = size * ((list.len() - 1) / size as int);
        lemma_last_block(list.len(), size);
        let rest = list.subrange(0, last);
        lemma_blocks_labelled(rest, size, labels);
        let blocks = blocks_of(list, size);
        assert forall|b: int, i: int|
            0 <= b < blocks.len() && 0 <= i < blocks[b].len() implies labelled(
            #[trigger] blocks[b][i],
            labels,
        ) by {
            if b < blocks.len() - 1 {
                assert(blocks[b] == blocks_of(rest, size)[b]);
            } else {
                assert(blocks[b][i] == list[last + i]);
            }
        }
    }
}

proof fn lemma_joined_labelled<D: Distance>(blocks: Seq<Seq<Candidate<D>>>, labels: Seq<bool>)
    requires
        forall|b: int, i: int|
            0 <= b < blocks.len() && 0 <= i < blocks[b].len() ==> labelled(
                #[trigger] blocks[b][i],
                labels,
            ),
    ensures
        ({
            let all = joined(best_of_each(blocks));
            forall|i: int|
                0 <= i < all.len() ==> labelled(#[trigger] all[i], labels) || all[i]
                    == topk::worst_candidate::<D>()
        }),
    decreases blocks.len(),
{
    let all = joined(best_of_each(blocks));
    if blocks.len() > 0 {
        let rest = blocks.drop_last();
        let last = blocks.last();
        assert(best_of_each(blocks).drop_last() =~= best_of_each(rest));
        assert forall|b: int, i: int|
            0 <= b < rest.len() && 0 <= i < rest[b].len() implies labelled(
            #[trigger] rest[b][i],
            labels,
        ) by {
            assert(rest[b] == blocks[b]);
            assert(labelled(blocks[b][i], labels));
        }
        lemma_joined_labelled(rest, labels);
        let before = joined(best_of_each(rest));
        let five = topk::best_five(last);
        let w = topk::worst_five::<D>();
        lemma_best_members(w, last);
        assert(all == before + five);
        assert forall|i: int| 0 <= i < all.len() implies labelled(#[trigger] all[i], labels)
            || all[i] == topk::worst_candidate::<D>() by {
            if i < before.len() {
                assert(all[i] == before[i]);
            } else {
                let j = i - before.len();
                assert(all[i] == five[j]);
                if last.contains(five[j]) {
                    let k = choose|k: int| 0 <= k < last.len() && last[k] == five[j];
                    assert(labelled(blocks[blocks.len() - 1][k], labels));
                } else {
                    let k = choose|k: int| 0 <= k < w.len() && w[k] == five[j];
                    assert(w[k] == topk::worst_candidate::<D>());
                }
            }
        }
    }
}

/// The five best of a list are in order, each is out of the list or an empty
/// slot, and whatever of the list is left out ranks behind all of them.
pub proof fn law_best_five<D: Distance>(list: Seq<Candidate<D>>)
    ensures
        ordered(topk::best_five(list)),
        forall|i: int|
            0 <= i < TOP_K ==> list.contains(#[trigger] topk::best_five(list)[i])
                || topk::best_five(list)[i] == topk::worst_candidate::<D>(),
        forall|c: Candidate<D>|
            list.contains(c) && !topk::best_five(list).contains(c) ==> topk::rank(
                topk::best_five(list)[TOP_K - 1],
            ) <= #[trigger] topk::rank(c),
{
    let w = topk::worst_five::<D>();
    let top = topk::best_five(list);
    assert(ordered(w));
    lemma_insert_all_reached(w, list);
    lemma_best_members(w, list);
    assert forall|i: int| 0 <= i < TOP_K implies list.contains(#[trigger] top[i]) || top[i]
        == topk::worst_candidate::<D>() by {
        if w.contains(top[i]) {
            let k = choose|k: int| 0 <= k < w.len() && w[k] == top[i];
            assert(w[k] == topk::worst_candidate::<D>());
        }
    }
    assert forall|c: Candidate<D>| list.contains(c) && !top.contains(c) implies topk::rank(
        top[TOP_K - 1],
    ) <= #[trigger] topk::rank(c) by {
        lemma_left_out(list, c);
    }
}

proof fn lemma_left_out<D: Distance>(list: Seq<Candidate<D>>, c: Candidate<D>)
    requires
        list.contains(c),
    ensures
        topk::best_five(list).contains(c) || topk::rank(topk::best_five(list)[TOP_K - 1])
            <= topk::rank(c),
    decreases list.len(),
{
    let w = topk::worst_five::<D>();
    assert(ordered(w));
    let rest = list.drop_last();
    let before = topk::best_five(rest);
    let after = topk::best_five(list);
    lemma_insert_all_reached(w, rest);
    lemma_inserted_ordered(before, list.last());
    lemma_inserted_slots(before, list.last());
    let p = topk::slot(before, list.last()) as int;
    assert(topk::rank(after[TOP_K - 1]) <= topk::rank(before[TOP_K - 1]));
    if list.last() == c {
        if p < TOP_K {
            assert(after[p] == c);
        } else {
            assert(topk::rank(before[TOP_K - 1]) <= topk::rank(c));
        }
    } else {
        let k = choose|k: int| 0 <= k < list.len() && list[k] == c;
        assert(rest[k] == c);
        lemma_left_out(rest, c);
        if before.contains(c) {
            let j = choose|j: int| 0 <= j < before.len() && before[j] == c;
            if j < p {
                assert(after[j] == c);
            } else if j + 1 < TOP_K {
                assert(after[j + 1] == c);
            } else {
                assert(topk::rank(after[TOP_K - 1]) <= topk::rank(before[TOP_K - 1]));
            }
        }
    }
}

/// A list that names no reference twice has a best five that names none twice.
pub proof fn law_no_reference_twice<D: Distance>(list: Seq<Candidate<D>>)
    requires
        forall|i: int, j: int|
            0 <= i < j < list.len() ==> (#[trigger] list[i]).index != (#[trigger] list[j]).index,
    ensures
        forall|i: int, j: int|
            0 <= i < j < TOP_K ==> (#[trigger] topk::best_five(list)[i]).index
                != (#[trigger] topk::best_five(list)[j]).index || topk::best_five(list)[j].index
                == NO_INDEX,
    decreases list.len(),
{
    let top = topk::best_five(list);
    if list.len() > 0 {
        let rest = list.drop_last();
        let before = topk::best_five(rest);
        let c = list.last();
        assert forall|i: int, j: int| 0 <= i < j < rest.len() implies (#[trigger] rest[i]).index
            != (#[trigger] rest[j]).index by {
            assert(rest[i] == list[i] && rest[j] == list[j]);
        }
        law_no_reference_twice(rest);
        law_best_five(rest);
        lemma_inserted_slots(before, c);
        assert forall|k: int| 0 <= k < TOP_K implies (#[trigger] before[k]).index != c.index
            || before[k].index == NO_INDEX by {
            if rest.contains(before[k]) {
                let m = choose|m: int| 0 <= m < rest.len() && rest[m] == before[k];
                assert(list[m].index != list[list.len() - 1].index);
            }
        }
        let p = topk::slot(before, c) as int;
        assert forall|i: int, j: int| 0 <= i < j < TOP_K implies (#[trigger] top[i]).index != (
        #[trigger] top[j]).index || top[j].index == NO_INDEX by {
            let a = if i < p { i } else { i - 1 };
            let b = if j < p { j } else { j - 1 };
            if i == p {
                assert(top[j] == before[b]);
            } else if j == p {
                assert(top[i] == before[a]);
            } else {
                assert(top[i] == before[a] && top[j] == before[b]);
            }
        }
    }
}

/// Candidates that come before an empty slot fill the slots from the front.
proof fn lemma_slots_fill<D: Distance>(list: Seq<Candidate<D>>)
    requires
        forall|i: int|
            0 <= i < list.len() ==> topk::rank(#[trigger] list[i]) < topk::rank(
                topk::worst_candidate::<D>(),
            ),
    ensures
        topk::best_five(list).len() == TOP_K,
        forall|i: int|
            0 <= i < TOP_K && i < list.len() ==> topk::rank(#[trigger] topk::best_five(list)[i])
                < topk::rank(topk::worst_candidate::<D>()),
        forall|i: int|
            list.len() <= i < TOP_K ==> #[trigger] topk::best_five(list)[i]
                == topk::worst_candidate::<D>(),
    decreases list.len(),
{
    if list.len() > 0 {
        let rest = list.drop_last();
        let before = topk::best_five(rest);
        let c = list.last();
        assert forall|i: int| 0 <= i < rest.len() implies topk::rank(#[trigger] rest[i])
            < topk::rank(topk::worst_candidate::<D>()) by {
            assert(rest[i] == list[i]);
        }
        assert(topk::rank(list[list.len() - 1]) < topk::rank(topk::worst_candidate::<D>()));
        lemma_slots_fill(rest);
        lemma_inserted_slots(before, c);
        topk::lemma_slot(before, c);
        let p = topk::slot(before, c) as int;
        if rest.len() < TOP_K {
            assert(before[rest.len() as int] == topk::worst_candidate::<D>());
            assert(p <= rest.len());
        }
        let top = topk::best_five(list);
        assert forall|i: int| 0 <= i < TOP_K && i < list.len() implies topk::rank(
            #[trigger] top[i],
        ) < topk::rank(topk::worst_candidate::<D>()) by {
            if i < p {
                assert(top[i] == before[i]);
            } else if i > p {
                assert(top[i] == before[i - 1]);
            }
        }
        assert forall|i: int| list.len() <= i < TOP_K implies #[trigger] top[i]
            == topk::worst_candidate::<D>() by {
            assert(top[i] == before[i - 1]);
        }
    }
}

/// Five candidates that come before an empty slot leave no slot empty: all five
/// of the best come out of the list.
pub proof fn law_five_found<D: Distance>(list: Seq<Candidate<D>>)
    requires
        list.len() >= TOP_K,
        forall|i: int|
            0 <= i < list.len() ==> topk::rank(#[trigger] list[i]) < topk::rank(
                topk::worst_candidate::<D>(),
            ),
    ensures
        forall|i: int| 0 <= i < TOP_K ==> list.contains(#[trigger] topk::best_five(list)[i]),
{
    lemma_slots_fill(list);
    law_best_five(list);
    assert forall|i: int| 0 <= i < TOP_K implies list.contains(
        #[trigger] topk::best_five(list)[i],
    ) by {
        assert(topk::rank(topk::best_five(list)[i]) < topk::rank(topk::worst_candidate::<D>()));
    }
}

/// The candidates that the kernel's slots name, with the library's labels.
spec fn named(gpu: Seq<GpuCandidate>, labels: Seq<bool>) -> Seq<Candidate<u64>>
    decreases gpu.len(),
{
    if gpu.len() == 0 {
        Seq::empty()
    } else {
        let before = named(gpu.drop_last(), labels);
        if gpu.last().index == NO_INDEX {
            before
        } else {
            before.push(topk::relabelled(gpu.last(), labels))
        }
    }
}

proof fn lemma_named(gpu: Seq<GpuCandidate>, labels: Seq<bool>)
    ensures
        topk::merged(gpu, labels) == topk::best_five(named(gpu, labels)),
        forall|c: Candidate<u64>|
            named(gpu, labels).contains(c) ==> exists|k: int|
                0 <= k < gpu.len() && (#[trigger] gpu[k]).index != NO_INDEX && c
                    == topk::relabelled(gpu[k], labels),
        forall|k: int|
            0 <= k < gpu.len() && (#[trigger] gpu[k]).index != NO_INDEX ==> named(
                gpu,
                labels,
            ).contains(topk::relabelled(gpu[k], labels)),
    decreases gpu.len(),
{
    let list = named(gpu, labels);
    if gpu.len() > 0 {
        let rest = gpu.drop_last();
        let before = named(rest, labels);
        lemma_named(rest, labels);
        let last = topk::relabelled(gpu.last(), labels);
        if gpu.last().index != NO_INDEX {
            assert(list.drop_last() =~= before);
            assert(list[list.len() - 1] == last);
        }
        assert forall|c: Candidate<u64>| list.contains(c) implies exists|k: int|
            0 <= k < gpu.len() && (#[trigger] gpu[k]).index != NO_INDEX && c == topk::relabelled(
                gpu[k],
                labels,
            ) by {
            if before.contains(c) {
                let k = choose|k: int|
                    0 <= k < rest.len() && (#[trigger] rest[k]).index != NO_INDEX && c
                        == topk::relabelled(rest[k], labels);
                assert(gpu[k] == rest[k]);
            } else {
                let j = choose|j: int| 0 <= j < list.len() && list[j] == c;
                if j < before.len() {
                    assert(before[j] == c);
                }
                assert(gpu[gpu.len() - 1] == gpu.last());
            }
        }
        assert forall|k: int| 0 <= k < gpu.len() && (#[trigger] gpu[k]).index != NO_INDEX implies list.contains(
            topk::relabelled(gpu[k], labels),
        ) by {
            if k < rest.len() {
                assert(rest[k] == gpu[k]);
                let c = topk::relabelled(gpu[k], labels);
                assert(before.contains(c));
                let j = choose|j: int| 0 <= j < before.len() && before[j] == c;
                assert(list[j] == c);
            }
        }
    }
}

/// What a merge finds: five slots in order, each of them empty or named by the
/// kernel with that distance and labelled by the library, and none named by the
/// kernel that lies before a slot it is not in.
pub proof fn law_merge_finds_the_nearest(gpu: Seq<GpuCandidate>, labels: Seq<bool>)
    ensures
        ({
            let top = topk::merged(gpu, labels);
            &&& top.len() == 5
            &&& forall|i: int, j: int|
                0 <= i < j < 5 ==> (#[trigger] top[i]).distance < (#[trigger] top[j]).distance || (
                top[i].distance == top[j].distance && top[i].index <= top[j].index)
            &&& forall|i: int|
                0 <= i < 5 && (#[trigger] top[i]).index != u32::MAX ==> (top[i].label == 1
                    <==> labels[top[i].index as int]) && (top[i].label == 0
                    <==> !labels[top[i].index as int]) && exists|k: int|
                    0 <= k < gpu.len() && (#[trigger] gpu[k]).index == top[i].index
                        && gpu[k].distance == top[i].distance
            &&& forall|k: int, i: int|
                #![trigger gpu[k], top[i]]
                0 <= k < gpu.len() && gpu[k].index != u32::MAX && 0 <= i < 5 && (forall|j: int|
                    0 <= j < 5 ==> (#[trigger] top[j]).index != gpu[k].index) ==> top[i].distance
                    < gpu[k].distance || (top[i].distance == gpu[k].distance && top[i].index
                    <= gpu[k].index)
        }),
{
    let top = topk::merged(gpu, labels);
    let list = named(gpu, labels);
    lemma_named(gpu, labels);
    law_best_five(list);
    assert forall|i: int, j: int| 0 <= i < j < 5 implies (#[trigger] top[i]).distance
        < (#[trigger] top[j]).distance || (top[i].distance == top[j].distance && top[i].index
        <= top[j].index) by {
        assert(topk::rank(top[i]) <= topk::rank(top[j]));
    }
    assert forall|i: int| 0 <= i < 5 && (#[trigger] top[i]).index != u32::MAX implies (top[i].label
        == 1 <==> labels[top[i].index as int]) && (top[i].label == 0
        <==> !labels[top[i].index as int]) && exists|k: int|
        0 <= k < gpu.len() && (#[trigger] gpu[k]).index == top[i].index && gpu[k].distance
            == top[i].distance by {
        assert(list.contains(top[i]));
        let k = choose|k: int|
            0 <= k < gpu.len() && (#[trigger] gpu[k]).index != NO_INDEX && top[i]
                == topk::relabelled(gpu[k], labels);
        assert(gpu[k].index == top[i].index);
    }
    assert forall|k: int, i: int|
        #![trigger gpu[k], top[i]]
        0 <= k < gpu.len() && gpu[k].index != u32::MAX && 0 <= i < 5 && (forall|j: int|
            0 <= j < 5 ==> (#[trigger] top[j]).index != gpu[k].index) implies top[i].distance
        < gpu[k].distance || (top[i].distance == gpu[k].distance && top[i].index
        <= gpu[k].index) by {
        let c = topk::relabelled(gpu[k], labels);
        assert(list.contains(c));
        if top.contains(c) {
            let j = choose|j: int| 0 <= j < top.len() && top[j] == c;
            assert(top[j].index == gpu[k].index);
        }
        assert(topk::rank(top[4]) <= topk::rank(c));
        assert(topk::rank(top[i]) <= topk::rank(top[4]));
    }
}

} // verus!
