//! The decision that the five nearest references give, and its JSON answer.

use vstd::prelude::*;
use vstd::arithmetic::power2::*;
use crate::accuracy;
use crate::binary32;
use crate::binary32::Binary32;
use crate::rounding;
use crate::text;
use crate::topk;
use crate::topk::{Candidate, TOP_K};

verus! {

/// Bits of the value nearest to 0.6.
pub const REFUSE_FROM: u32 = 0x3f19_999a;

/// The share of fraud among the nearest references, and whether to approve.
#[derive(Clone, Copy, Debug, PartialEq, Eq, Structural)]
pub struct Decision {
    pub fraud_score: Binary32,
    pub approved: bool,
}

/// The decision for a number of frauds among five: approved below three.
pub open spec fn decision_for(frauds: nat) -> Decision {
    Decision {
        fraud_score: binary32::nearest_ratio(frauds, TOP_K as nat),
        approved: frauds < 3,
    }
}

/// The encodings of the six possible scores.
proof fn lemma_fifths(k: nat)
    requires
        k <= 5,
    ensures
        binary32::nearest_ratio(k, 5).bits == if k == 0 {
            0u32
        } else if k == 1 {
            0x3e4c_cccd
        } else if k == 2 {
            0x3ecc_cccd
        } else if k == 3 {
            0x3f19_999a
        } else if k == 4 {
            0x3f4c_cccd
        } else {
            0x3f80_0000
        },
{
    lemma2_to64();
    let one = pow2(149);
    lemma_pow2_pos(149);
    reveal(binary32::nearest_ratio);
    if k == 0 {
        rounding::lemma_nearest_mag_scale(0, 1, 5);
        rounding::lemma_nearest_mag_exact(0);
        assert(rounding::nearest_mag(0 * one, 5) == 0);
    } else if k == 1 {
        rounding::lemma_fraction_mag(1, 5, 2);
        assert(rounding::nearest_mag(1 * one, 5) == 0x3e4c_cccd);
    } else if k == 2 {
        rounding::lemma_fraction_mag(2, 5, 1);
        assert(rounding::nearest_mag(2 * one, 5) == 0x3ecc_cccd);
    } else if k == 3 {
        rounding::lemma_fraction_mag(3, 5, 0);
        assert(rounding::nearest_mag(3 * one, 5) == 0x3f19_999a);
    } else if k == 4 {
        rounding::lemma_fraction_mag(4, 5, 0);
        assert(rounding::nearest_mag(4 * one, 5) == 0x3f4c_cccd);
    } else {
        rounding::lemma_nearest_mag_scale(one, 1, 5);
        lemma_pow2_adds(23, 126);
        rounding::lemma_nearest_mag_exact(0x3f80_0000);
        assert(rounding::mag_units(0x3f80_0000) == one);
        assert(rounding::nearest_mag(5 * one, 5) == 0x3f80_0000);
    }
}

/// The share of fraud among the five nearest references, approved below 0.6.
pub fn decision_from_top5<D>(top: &[Candidate<D>; TOP_K]) -> (r: Decision)
    ensures
        r == decision_for(topk::fraud_count(top@)),
{
    let frauds: u32 = topk::count_frauds(top);
    proof {
        lemma_fifths(frauds as nat);
    }
    let fraud_score: Binary32 = Binary32::ratio(frauds, 5);
    Decision { fraud_score, approved: fraud_score.less_than(Binary32 { bits: REFUSE_FROM }) }
}

/// The decision is that of the formula: the score is the number of frauds over
/// five, and what scores below 0.6 is approved.
pub proof fn law_decision_formula(frauds: nat)
    requires
        frauds <= TOP_K,
    ensures
        decision_for(frauds).fraud_score == binary32::quotient(
            binary32::from_natural(frauds),
            binary32::from_natural(TOP_K as nat),
        ),
        decision_for(frauds).approved == binary32::less(
            decision_for(frauds).fraud_score,
            binary32::nearest_ratio(6, 10),
        ),
{
    lemma_fifths(frauds);
    lemma_fifths(3);
    reveal(binary32::nearest_ratio);
    reveal(binary32::quotient);
    let one = binary32::one_in_units();
    lemma_pow2_pos(149);
    binary32::lemma_natural_is_exact(frauds);
    binary32::lemma_natural_is_exact(5);
    assert((3 * one) * 2 == 6 * one && 5 * 2 == 10) by (nonlinear_arith);
    rounding::lemma_nearest_mag_scale(3 * one, 5, 2);
    rounding::lemma_nearest_mag_scale(frauds * one, 5, one);
}

/// The JSON answer for a number of frauds among five.
pub open spec fn answer_text(frauds: nat) -> Seq<char> {
    "{\"approved\":"@ + (if frauds < 3 {
        "true"@
    } else {
        "false"@
    }) + ",\"fraud_score\":"@ + text::tenths(2 * frauds) + "}"@
}

/// The JSON answer for the five nearest references: the decision, with the score
/// to one decimal place.
pub fn fraud_answer<D>(top: &[Candidate<D>; TOP_K]) -> (r: String)
    ensures
        r@ == answer_text(topk::fraud_count(top@)),
{
    let decision: Decision = decision_from_top5(top);
    let frauds: u32 = topk::count_frauds(top);
    let mut out: String = String::new();
    out.append("{\"approved\":");
    if decision.approved {
        out.append("true");
    } else {
        out.append("false");
    }
    out.append(",\"fraud_score\":");
    text::append_tenths(&mut out, 2 * frauds as u64);
    out.append("}");
    assert(out@ =~= answer_text(topk::fraud_count(top@)));
    out
}

/// One entry of a report on the nearest references.
pub open spec fn entry_text<D>(c: Candidate<D>, distance: Seq<char>) -> Seq<char> {
    "{idx:"@ + text::decimal(c.index as nat) + ",dist:"@ + distance + ",label:"@ + text::decimal(
        c.label as nat,
    ) + "}"@
}

/// The first `n` entries of a report, with commas between them.
pub open spec fn entries_text<D>(top: Seq<Candidate<D>>, distances: Seq<String>, n: nat) -> Seq<char>
    decreases n,
{
    if n == 0 {
        Seq::empty()
    } else {
        let before = entries_text(top, distances, (n - 1) as nat);
        let entry = entry_text(top[n - 1], distances[n - 1]@);
        if n == 1 {
            entry
        } else {
            before + ","@ + entry
        }
    }
}

/// A report on the nearest references; `distances` holds their distances as text.
pub fn format_top5<D>(top: &[Candidate<D>; TOP_K], distances: &[String; TOP_K]) -> (r: String)
    ensures
        r@ == "["@ + entries_text(top@, distances@, TOP_K as nat) + "]"@,
{
    let mut out: String = String::new();
    out.append("[");
    let mut i: usize = 0;
    assert(out@ =~= "["@ + entries_text(top@, distances@, 0));
    while i < TOP_K
        invariant
            i <= TOP_K,
            out@ == "["@ + entries_text(top@, distances@, i as nat),
        decreases TOP_K - i,
    {
        let ghost before = out@;
        if i > 0 {
            out.append(",");
        }
        out.append("{idx:");
        text::append_decimal(&mut out, top[i].index as u64);
        out.append(",dist:");
        out.append(distances[i].as_str());
        out.append(",label:");
        text::append_decimal(&mut out, top[i].label as u64);
        out.append("}");
        i += 1;
        assert(out@ =~= "["@ + entries_text(top@, distances@, i as nat));
    }
    out.append("]");
    out
}

/// The six answers that there are.
pub proof fn law_answers(frauds: nat)
    requires
        frauds <= 5,
    ensures
        frauds == 0 ==> answer_text(frauds) == "{\"approved\":true,\"fraud_score\":0.0}"@,
        frauds == 1 ==> answer_text(frauds) == "{\"approved\":true,\"fraud_score\":0.2}"@,
        frauds == 2 ==> answer_text(frauds) == "{\"approved\":true,\"fraud_score\":0.4}"@,
        frauds == 3 ==> answer_text(frauds) == "{\"approved\":false,\"fraud_score\":0.6}"@,
        frauds == 4 ==> answer_text(frauds) == "{\"approved\":false,\"fraud_score\":0.8}"@,
        frauds == 5 ==> answer_text(frauds) == "{\"approved\":false,\"fraud_score\":1.0}"@,
{
    reveal_strlit("{\"approved\":");
    reveal_strlit("true");
    reveal_strlit("false");
    reveal_strlit(",\"fraud_score\":");
    reveal_strlit("}");
    reveal_strlit(".");
    text::law_digits_follow(0, (2 * frauds) / 10);
    text::law_digits_follow(0, (2 * frauds) % 10);
    if frauds == 0 {
        reveal_strlit("{\"approved\":true,\"fraud_score\":0.0}");
        assert(answer_text(frauds) =~= "{\"approved\":true,\"fraud_score\":0.0}"@);
    } else if frauds == 1 {
        reveal_strlit("{\"approved\":true,\"fraud_score\":0.2}");
        assert(answer_text(frauds) =~= "{\"approved\":true,\"fraud_score\":0.2}"@);
    } else if frauds == 2 {
        reveal_strlit("{\"approved\":true,\"fraud_score\":0.4}");
        assert(answer_text(frauds) =~= "{\"approved\":true,\"fraud_score\":0.4}"@);
    } else if frauds == 3 {
        reveal_strlit("{\"approved\":false,\"fraud_score\":0.6}");
        assert(answer_text(frauds) =~= "{\"approved\":false,\"fraud_score\":0.6}"@);
    } else if frauds == 4 {
        reveal_strlit("{\"approved\":false,\"fraud_score\":0.8}");
        assert(answer_text(frauds) =~= "{\"approved\":false,\"fraud_score\":0.8}"@);
    } else {
        reveal_strlit("{\"approved\":false,\"fraud_score\":1.0}");
        assert(answer_text(frauds) =~= "{\"approved\":false,\"fraud_score\":1.0}"@);
    }
}

/// The score is a fifth for each fraud, to the nearest value there is, and three
/// frauds or more are refused.
pub proof fn law_decision_is_the_share(frauds: nat, other: Binary32)
    requires
        frauds <= 5,
    ensures
        ({
            let one = binary32::one_in_units();
            let score = decision_for(frauds).fraud_score;
            &&& score.is_finite()
            &&& accuracy::apart(5 * score.value(), frauds * one as int) <= accuracy::apart(
                5 * other.value(),
                frauds * one as int,
            )
            &&& decision_for(frauds).approved <==> frauds <= 2
        }),
{
    accuracy::law_ratio_is_nearest(frauds, 5, other);
}

/// A report lists all five entries in their order, with a comma between two.
pub proof fn law_report_lists_five<D>(top: Seq<Candidate<D>>, distances: Seq<String>)
    ensures
        entries_text(top, distances, 5) == entry_text(top[0], distances[0]@) + ","@ + entry_text(
            top[1],
            distances[1]@,
        ) + ","@ + entry_text(top[2], distances[2]@) + ","@ + entry_text(top[3], distances[3]@)
            + ","@ + entry_text(top[4], distances[4]@),
{
    assert(entries_text(top, distances, 1) == entry_text(top[0], distances[0]@));
    assert(entries_text(top, distances, 2) == entries_text(top, distances, 1) + ","@ + entry_text(
        top[1],
        distances[1]@,
    ));
    assert(entries_text(top, distances, 3) == entries_text(top, distances, 2) + ","@ + entry_text(
        top[2],
        distances[2]@,
    ));
    assert(entries_text(top, distances, 4) == entries_text(top, distances, 3) + ","@ + entry_text(
        top[3],
        distances[3]@,
    ));
}

/// An entry names the index, the distance and the label, each behind its key.
pub proof fn law_entries_are_keyed<D>(c: Candidate<D>, distance: Seq<char>)
    ensures
        ({
            let t = entry_text(c, distance);
            let index = text::decimal(c.index as nat);
            let label = text::decimal(c.label as nat);
            let a: int = 5 + index.len() as int;
            let b: int = a + 6 + distance.len();
            &&& t.len() == b + 7 + label.len() + 1
            &&& t.subrange(0, 5) == "{idx:"@
            &&& t.subrange(5, a) == index
            &&& t.subrange(a, a + 6) == ",dist:"@
            &&& t.subrange(a + 6, b) == distance
            &&& t.subrange(b, b + 7) == ",label:"@
            &&& t.subrange(b + 7, t.len() - 1) == label
            &&& t.last() == '}'
        }),
{
    reveal_strlit("{idx:");
    reveal_strlit(",dist:");
    reveal_strlit(",label:");
    reveal_strlit("}");
}

} // verus!
