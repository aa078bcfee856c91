//! Simulated annealing: perturb the current candidate by multi-swap, accept
//! improvements outright, and accept worsening moves when the caller's
//! Metropolis draw says so.  The temperature schedule and the acceptance
//! probability are floating-point and live with the caller; this core holds
//! the verified state machine (proposal, commitment, bookkeeping).

use vstd::prelude::*;
use crate::candidate::Candidate;
use crate::instance::Instance;
use crate::oracle::BlackBox;

verus! {

/// The verified simulated-annealing state: the oracle, the walk's current
/// candidate, the best candidate ever seen, and the pending proposal.
pub struct SimulatedAnnealing {
    pub process: BlackBox,
    pub current: Candidate,
    pub best: Candidate,
    pub proposed: Candidate,
}

impl SimulatedAnnealing {
    /// The strategy is sound: the oracle is, and every candidate it holds
    /// is a real decode of the instance.
    pub open spec fn wf(self) -> bool {
        &&& self.process.wf()
        &&& self.current.wf(self.process.instance)
        &&& self.best.wf(self.process.instance)
        &&& self.proposed.wf(self.process.instance)
        &&& self.process.history@.len() > 0 ==> self.process.history@.last().1
            >= self.best.makespan
    }

    /// Builds the strategy around a fresh oracle; the walk starts at the
    /// oracle's initial candidate.
    pub fn new(instance: Instance, seed: u64) -> (r: SimulatedAnnealing)
        requires
            instance.wf(),
        ensures
            r.wf(),
            r.process.instance == instance,
    {
        let process = BlackBox::new(instance, "simulated annealing", seed);
        let current = process.best_candidate.clone();
        let best = current.clone();
        let proposed = current.clone();
        SimulatedAnnealing { process, current, best, proposed }
    }

    /// Consults the oracle's termination criterion.
    pub fn should_terminate(&mut self) -> (r: bool)
        requires
            old(self).wf(),
        ensures
            final(self).wf(),
            final(self).process.instance == old(self).process.instance,
            final(self).current == old(self).current,
            final(self).best == old(self).best,
            final(self).proposed == old(self).proposed,
            final(self).process.evaluated == old(self).process.evaluated,
            old(self).process.termination_counter < usize::MAX ==> final(self).process.termination_counter == old(self).process.termination_counter + 1,
            old(self).process.termination_counter == usize::MAX ==> r,
            !r ==> final(self).process.termination_counter < usize::MAX
                && final(self).process.termination_counter > old(self).process.termination_counter,
    {
        self.process.should_terminate()
    }

    /// How many iterations the run has counted so far; the caller's
    /// temperature schedule reads it.
    pub fn iteration_count(&self) -> (r: usize)
        ensures
            r == self.process.termination_counter,
    {
        self.process.termination_counter
    }

    /// Draws a multi-swap neighbour of the current candidate and stores it
    /// as the pending proposal.  Returns the current and proposed makespans
    /// so the caller can compute its acceptance probability.
    pub fn propose(&mut self) -> (r: (usize, usize))
        requires
            old(self).wf(),
        ensures
            final(self).wf(),
            final(self).process.instance == old(self).process.instance,
            final(self).process.termination_counter == old(self).process.termination_counter,
            final(self).current == old(self).current,
            final(self).best == old(self).best,
            r.0 == old(self).current.makespan,
            r.1 == final(self).proposed.makespan,
            final(self).proposed.order@.to_multiset() == old(self).current.order@.to_multiset(),
            final(self).process.evaluated@ == old(self).process.evaluated@.push(
                final(self).proposed.makespan,
            ),
    {
        let next = self.process.apply_nswap(&self.current);
        let result = (self.current.makespan, next.makespan);
        self.proposed = next;
        result
    }

    /// Applies the Metropolis decision to the pending proposal: the walk
    /// advances when the proposal is not worse, or when the caller's draw
    /// accepted the worsening move; the best candidate and the history are
    /// updated on improvement.
    pub fn commit(&mut self, accept_worsening: bool)
        requires
            old(self).wf(),
        ensures
            final(self).wf(),
            final(self).process.instance == old(self).process.instance,
            final(self).process.termination_counter == old(self).process.termination_counter,
            final(self).process.evaluated == old(self).process.evaluated,
            final(self).proposed == old(self).proposed,
            old(self).proposed.makespan <= old(self).current.makespan || accept_worsening
                ==> old(self).proposed.same_solution(final(self).current),
            !(old(self).proposed.makespan <= old(self).current.makespan || accept_worsening)
                ==> final(self).current == old(self).current,
            final(self).best.makespan == if final(self).current.makespan < old(self).best.makespan {
                final(self).current.makespan
            } else {
                old(self).best.makespan
            },
    {
        if self.proposed.makespan <= self.current.makespan || accept_worsening {
            let next = self.proposed.clone();
            proof {
                assert(self.proposed.same_solution(next)) by {
                    assert forall|k: int| 0 <= k < self.proposed.schedule@.len() implies
                        #[trigger] self.proposed.schedule@[k]@ == next.schedule@[k]@ by {
                        assert(next.schedule@[k]@ == self.proposed.schedule@[k]@);
                    }
                }
            }
            self.current = next;
        }
        if self.current.makespan < self.best.makespan {
            self.best = self.current.clone();
            self.process.update_history(&self.best);
        }
    }

    /// Ends the run: records the best candidate and stamps the end time.
    pub fn finish(self) -> (bb: BlackBox)
        requires
            self.wf(),
        ensures
            bb.wf(),
            bb.instance == self.process.instance,
            bb.history@.len() >= 1,
            bb.history@.last().1 == bb.best_candidate.makespan,
            bb.best_candidate.makespan <= self.best.makespan,
            bb.lower_bound <= bb.best_candidate.makespan <= bb.upper_bound,
            bb.evaluated == self.process.evaluated,
    {
        let mut process = self.process;
        process.update(&self.best);
        proof {
            crate::bounds::lemma_oracle_best_within_bounds(process);
        }
        process.finalize()
    }
}

} // verus!
