//! Batched tabu-style search: each outer iteration samples a fixed-size
//! batch of multi-swap neighbours of the current best and accepts the best
//! of the batch when it improves.  True to its source, it keeps no
//! persistent forbidden-move list, which makes it a restart-free batched
//! local search.

use vstd::prelude::*;
use crate::instance::Instance;
use crate::oracle::BlackBox;

verus! {

/// Batched tabu-style search over one oracle.
pub struct Tabu {
    pub process: BlackBox,
    pub tabu_limit: usize,
}

impl Tabu {
    /// Builds the strategy.  `tabu_limit` is the batch size sampled per
    /// outer iteration and must be at least one.
    pub fn new(instance: &Instance, tabu_limit: usize, seed: u64) -> (r: Tabu)
        requires
            instance.wf(),
            tabu_limit >= 1,
        ensures
            r.process.wf(),
            r.process.history_consistent(),
            r.process.instance.same_problem(*instance),
            r.tabu_limit == tabu_limit,
    {
        Tabu { process: BlackBox::new(instance.clone(), "tabu", seed), tabu_limit }
    }

    /// Runs the search to termination: per outer iteration, draw
    /// `tabu_limit` multi-swap neighbours of the best candidate, keep only
    /// the best of that batch, and accept it when it improves.  The result
    /// is no worse than the initial candidate or than anything the run
    /// evaluated, and unless it is the initial candidate it is one of them;
    /// in counter mode the run spends the whole iteration budget, drawing
    /// exactly `tabu_limit` neighbours per iteration.
    pub fn solve(self) -> (bb: BlackBox)
        requires
            self.process.wf(),
            self.process.history_consistent(),
            self.tabu_limit >= 1,
        ensures
            bb.wf(),
            bb.instance == self.process.instance,
            bb.history@.len() >= 1,
            bb.history@.last().1 == bb.best_candidate.makespan,
            bb.best_candidate.makespan <= self.process.best_candidate.makespan,
            bb.lower_bound <= bb.best_candidate.makespan <= bb.upper_bound,
            bb.evaluated@.len() >= self.process.evaluated@.len(),
            bb.evaluated@.take(self.process.evaluated@.len() as int) == self.process.evaluated@,
            forall|i: int|
                self.process.evaluated@.len() <= i < bb.evaluated@.len() ==> #[trigger] bb.evaluated@[i]
                    >= bb.best_candidate.makespan,
            bb.best_candidate.makespan == self.process.best_candidate.makespan || exists|i: int|
                self.process.evaluated@.len() <= i < bb.evaluated@.len() && bb.evaluated@[i]
                    == bb.best_candidate.makespan,
            !self.process.instance.is_timed && self.process.termination_counter == 0
                && self.process.instance.termination_limit >= 1 ==> {
                &&& bb.termination_counter == self.process.instance.termination_limit
                &&& bb.evaluated@.len() == self.process.evaluated@.len() + (
                self.process.instance.termination_limit - 1) * self.tabu_limit
            },
    {
        let mut process = self.process;
        let tabu_limit = self.tabu_limit;
        let ghost inst = process.instance;
        let ghost base = process.evaluated@;
        let ghost counted = !inst.is_timed && process.termination_counter == 0
            && inst.termination_limit >= 1;
        let mut best = process.best_candidate.clone();
        let mut done = process.should_terminate();
        while !done
            invariant
                process.wf(),
                process.instance == inst,
                tabu_limit >= 1,
                tabu_limit == self.tabu_limit,
                best.wf(inst),
                best.makespan <= self.process.best_candidate.makespan,
                process.history@.len() > 0 ==> process.history@.last().1 >= best.makespan,
                !done ==> process.termination_counter < usize::MAX,
                base == self.process.evaluated@,
                counted == (!inst.is_timed && self.process.termination_counter == 0
                    && inst.termination_limit >= 1),
                process.evaluated@.len() >= base.len(),
                process.evaluated@.take(base.len() as int) == base,
                forall|i: int|
                    base.len() <= i < process.evaluated@.len() ==> #[trigger] process.evaluated@[i]
                        >= best.makespan,
                best.makespan == self.process.best_candidate.makespan || exists|i: int|
                    base.len() <= i < process.evaluated@.len() && process.evaluated@[i]
                        == best.makespan,
                counted ==> {
                    &&& 1 <= process.termination_counter <= inst.termination_limit
                    &&& done == (process.termination_counter >= inst.termination_limit)
                    &&& process.evaluated@.len() == base.len() + (process.termination_counter - 1)
                        * tabu_limit
                },
            decreases usize::MAX - process.termination_counter,
        {
            let ghost ev0 = process.evaluated@;
            let ghost best0 = best;
            let mut sol = process.apply_nswap(&best);
            proof {
                assert(process.evaluated@[ev0.len() as int] == sol.makespan);
                assert(process.evaluated@.take(ev0.len() as int) =~= ev0);
            }
            let ghost counter0 = process.termination_counter;
            let mut c: usize = 1;
            while c < tabu_limit
                invariant
                    process.wf(),
                    process.instance == inst,
                    best.wf(inst),
                    sol.wf(inst),
                    c <= tabu_limit,
                    best == best0,
                    best.makespan <= self.process.best_candidate.makespan,
                    process.history@.len() > 0 ==> process.history@.last().1 >= best.makespan,
                    process.termination_counter == counter0,
                    base == self.process.evaluated@,
                    ev0.len() >= base.len(),
                    ev0.take(base.len() as int) == base,
                    process.evaluated@.len() == ev0.len() + c,
                    process.evaluated@.take(ev0.len() as int) == ev0,
                    forall|i: int|
                        ev0.len() <= i < process.evaluated@.len() ==> #[trigger] process.evaluated@[i]
                            >= sol.makespan,
                    exists|i: int|
                        ev0.len() <= i < process.evaluated@.len() && process.evaluated@[i]
                            == sol.makespan,
                    forall|i: int|
                        base.len() <= i < ev0.len() ==> #[trigger] ev0[i] >= best.makespan,
                    best.makespan == self.process.best_candidate.makespan || exists|i: int|
                        base.len() <= i < ev0.len() && ev0[i] == best.makespan,
                decreases tabu_limit - c,
            {
                let ghost evb = process.evaluated@;
                let cand = process.apply_nswap(&best);
                proof {
                    assert(process.evaluated@[evb.len() as int] == cand.makespan);
                    assert(process.evaluated@.take(ev0.len() as int) =~= ev0);
                }
                if cand.makespan < sol.makespan {
                    sol = cand;
                }
                proof {
                    if sol.makespan != cand.makespan {
                        let wi = choose|i: int|
                            ev0.len() <= i < evb.len() && evb[i] == sol.makespan;
                        assert(process.evaluated@[wi] == sol.makespan);
                    }
                }
                c += 1;
            }
            if sol.makespan < best.makespan {
                best = sol;
                process.update_history(&best);
            }
            proof {
                let ev2 = process.evaluated@;
                assert(ev2.take(base.len() as int) =~= base);
                assert forall|i: int|
                    base.len() <= i < ev2.len() implies #[trigger] ev2[i] >= best.makespan by {
                    if i < ev0.len() {
                        assert(ev2[i] == ev0[i]);
                        assert(ev0[i] >= best0.makespan);
                    }
                }
                if best.makespan != self.process.best_candidate.makespan {
                    if best.makespan == sol.makespan {
                        let wi = choose|i: int|
                            ev0.len() <= i < ev2.len() && ev2[i] == sol.makespan;
                        assert(ev2[wi] == best.makespan);
                    } else {
                        let wi = choose|i: int|
                            base.len() <= i < ev0.len() && ev0[i] == best.makespan;
                        assert(ev2[wi] == best.makespan);
                    }
                }
                if counted {
                    assert((counter0 - 1) * tabu_limit + tabu_limit == counter0 * tabu_limit)
                        by (nonlinear_arith);
                }
            }
            done = process.should_terminate();
        }
        process.update(&best);
        proof {
            crate::bounds::lemma_oracle_best_within_bounds(process);
        }
        process.finalize()
    }
}

} // verus!
