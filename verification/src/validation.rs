//! Checks of the device against exhaustive search.

use vstd::prelude::*;
use crate::binary32::Binary32;
use crate::decision;
use crate::decision::decision_from_top5;
use crate::quantize::DIMS;
use crate::references;
use crate::references::{cpu_f32_top5, cpu_quantized_top5, ReferenceData};
use crate::topk;
use crate::topk::{same_top5, Candidate, TOP_K};

verus! {

/// What a validation has found.
#[derive(Clone, Copy, Debug, PartialEq, Eq, Structural)]
pub struct ValidationStats {
    pub checked: usize,
    pub f32_top5_mismatches: usize,
    pub f32_decision_mismatches: usize,
}

/// How many queries a validation looks at.
pub fn planned_checks(validate_queries: usize, queries: usize) -> (r: usize)
    ensures
        r == if validate_queries < queries {
            validate_queries
        } else {
            queries
        },
        r <= validate_queries,
        r <= queries,
        r == validate_queries || r == queries,
{
    if validate_queries < queries {
        validate_queries
    } else {
        queries
    }
}

/// One where `b` holds, else zero.
pub open spec fn one_if(b: bool) -> int {
    if b {
        1
    } else {
        0
    }
}

/// Whether the decision for a top five approves.
pub open spec fn approves<D>(top: Seq<Candidate<D>>) -> bool {
    decision::decision_for(topk::fraud_count(top)).approved
}

impl ValidationStats {
    /// No more mismatches than checks.
    pub open spec fn wf(&self) -> bool {
        &&& self.f32_top5_mismatches <= self.checked
        &&& self.f32_decision_mismatches <= self.checked
    }

    /// Nothing checked yet.
    pub fn new() -> (r: ValidationStats)
        ensures
            r.wf(),
            r.checked == 0,
    {
        ValidationStats { checked: 0, f32_top5_mismatches: 0, f32_decision_mismatches: 0 }
    }

    /// Takes in what the device found for a query.  Where exhaustive search of the
    /// packed vectors names other references, that is an error, with what the search
    /// found; where search of the plain values differs, it is only counted.
    pub fn check(
        &mut self,
        references: &ReferenceData,
        query: &[Binary32; DIMS],
        gpu: &[Candidate<u64>; TOP_K],
    ) -> (r: Result<(), [Candidate<u64>; TOP_K]>)
        requires
            old(self).wf(),
            old(self).checked < usize::MAX,
            references.wf(),
        ensures
            ({
                let searched = topk::best_five(
                    references::quantized_candidates(*references, query@),
                );
                let plain = topk::best_five(references::plain_candidates(*references, query@));
                match r {
                    Ok(()) => {
                        &&& topk::same_entries(searched, gpu@)
                        &&& final(self).checked == old(self).checked + 1
                        &&& final(self).f32_top5_mismatches == old(self).f32_top5_mismatches
                            + one_if(!topk::same_entries(plain, gpu@))
                        &&& final(self).f32_decision_mismatches
                            == old(self).f32_decision_mismatches + one_if(
                            approves(plain) != approves(gpu@),
                        )
                    },
                    Err(top) => {
                        &&& !topk::same_entries(searched, gpu@)
                        &&& top@ == searched
                        &&& *final(self) == *old(self)
                    },
                }
            }),
            final(self).wf(),
    {
        let cpu_quantized: [Candidate<u64>; TOP_K] = cpu_quantized_top5(references, query);
        if !same_top5(&cpu_quantized, gpu) {
            return Err(cpu_quantized);
        }
        let cpu_f32: [Candidate<Binary32>; TOP_K] = cpu_f32_top5(references, query);
        if !same_top5(&cpu_f32, gpu) {
            self.f32_top5_mismatches = self.f32_top5_mismatches + 1;
        }
        if decision_from_top5(&cpu_f32).approved != decision_from_top5(gpu).approved {
            self.f32_decision_mismatches = self.f32_decision_mismatches + 1;
        }
        self.checked = self.checked + 1;
        Ok(())
    }
}

/// A top five is approved with up to two frauds, and a mismatch counts once.
pub proof fn law_mismatches_count_once<D>(top: Seq<Candidate<D>>)
    ensures
        approves(top) <==> topk::fraud_count(top) <= 2,
        one_if(true) == 1,
        one_if(false) == 0,
{
}

} // verus!
