//! Candidates: an ordering together with its decoded schedule and makespan.
//! Every mutation produces a new candidate through a fresh decode.

use vstd::prelude::*;
use crate::instance::Instance;
use crate::ordering::{valid_ordering, clone_order};
use crate::oracle::BlackBox;
use crate::schedule::{decode, sched_matches, spec_makespan, lemma_rows_max_last_is_makespan,
    lemma_decode_complete};

verus! {

/// A candidate solution: a valid ordering, the schedule it decodes to, and
/// that schedule's makespan.  Immutable once built.
pub struct Candidate {
    pub makespan: usize,
    pub order: Vec<usize>,
    pub schedule: Vec<Vec<usize>>,
}

impl Candidate {
    /// The candidate is exactly the decode of its ordering: the ordering is
    /// valid, the schedule matches the decode state, and the makespan is
    /// the decoded makespan.
    pub open spec fn wf(self, instance: Instance) -> bool {
        &&& valid_ordering(self.order@, instance.n as int, instance.m as int)
        &&& sched_matches(
            self.schedule@,
            decode(instance.js(), instance.n as int, instance.m as int, self.order@),
            instance.n as int,
            instance.m as int,
        )
        &&& self.makespan as int == spec_makespan(
            instance.js(),
            instance.n as int,
            instance.m as int,
            self.order@,
        )
    }

    /// Two candidates carry the same solution: equal makespan, equal
    /// ordering, and schedules equal row by row.
    pub open spec fn same_solution(self, other: Candidate) -> bool {
        &&& self.makespan == other.makespan
        &&& self.order@ == other.order@
        &&& self.schedule@.len() == other.schedule@.len()
        &&& forall|k: int|
            0 <= k < self.schedule@.len() ==> #[trigger] self.schedule@[k]@ == other.schedule@[k]@
    }

    /// Decodes `order` against the oracle's instance and packages the
    /// result.
    pub fn new(order: &Vec<usize>, process: &BlackBox) -> (c: Candidate)
        requires
            process.instance.wf(),
            valid_ordering(order@, process.instance.n as int, process.instance.m as int),
        ensures
            c.wf(process.instance),
            c.order@ == order@,
    {
        let sol = process.map(order);
        let makespan = process.find_makespan(&sol);
        proof {
            lemma_decode_complete(
                process.instance.js(),
                process.instance.n as int,
                process.instance.m as int,
                order@,
            );
            lemma_rows_max_last_is_makespan(
                process.instance.js(),
                process.instance.n as int,
                process.instance.m as int,
                order@,
                sol.schedule@,
                process.instance.m as int,
            );
        }
        Candidate { order: clone_order(order), makespan, schedule: sol.schedule }
    }
}

impl Clone for Candidate {
    /// A clone carries the same solution as the original.
    fn clone(&self) -> (c: Self)
        ensures
            c.same_solution(*self),
            forall|instance: Instance| self.wf(instance) ==> c.wf(instance),
    {
        let order = clone_order(&self.order);
        let mut schedule: Vec<Vec<usize>> = Vec::new();
        let mut k: usize = 0;
        while k < self.schedule.len()
            invariant
                k <= self.schedule@.len(),
                schedule@.len() == k,
                forall|k2: int| 0 <= k2 < k ==> #[trigger] schedule@[k2]@ == self.schedule@[k2]@,
            decreases self.schedule@.len() - k,
        {
            schedule.push(clone_order(&self.schedule[k]));
            k += 1;
        }
        Candidate { makespan: self.makespan, order, schedule }
    }
}

} // verus!
