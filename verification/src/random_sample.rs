//! Random sampling: draw a fresh candidate each iteration and keep the best
//! one seen, plus the reduction step the parallel harness uses.

use vstd::prelude::*;
use crate::candidate::Candidate;
use crate::instance::Instance;
use crate::oracle::BlackBox;

verus! {

/// Random sampling over one oracle.
pub struct RandomSample {
    pub process: BlackBox,
}

impl RandomSample {
    /// Builds the strategy around a fresh oracle.
    pub fn new(instance: Instance, seed: u64) -> (r: RandomSample)
        requires
            instance.wf(),
        ensures
            r.process.wf(),
            r.process.instance == instance,
            r.process.history@.len() == 0,
    {
        RandomSample { process: BlackBox::new(instance, "random sample", seed) }
    }

    /// Runs the strategy to termination: each iteration draws one fresh
    /// candidate and keeps the best seen.  The returned oracle carries a
    /// best candidate no worse than the initial one or than anything the
    /// run evaluated (and, unless it is the initial one, it is one of the
    /// evaluated candidates); in counter mode the run spends the whole
    /// iteration budget, drawing one candidate per iteration.
    pub fn solve(self) -> (bb: BlackBox)
        requires
            self.process.wf(),
            self.process.history_consistent(),
        ensures
            bb.wf(),
            bb.instance == self.process.instance,
            bb.history@.len() >= 1,
            bb.history@.last().1 == bb.best_candidate.makespan,
            bb.best_candidate.makespan <= self.process.best_candidate.makespan,
            bb.lower_bound <= bb.best_candidate.makespan <= bb.upper_bound,
            bb.evaluated@.len() >= self.process.evaluated@.len(),
            bb.evaluated@.take(self.process.evaluated@.len() as int) == self.process.evaluated@,
            forall|i: int|
                self.process.evaluated@.len() <= i < bb.evaluated@.len() ==> #[trigger] bb.evaluated@[i]
                    >= bb.best_candidate.makespan,
            bb.best_candidate.makespan == self.process.best_candidate.makespan || exists|i: int|
                self.process.evaluated@.len() <= i < bb.evaluated@.len() && bb.evaluated@[i]
                    == bb.best_candidate.makespan,
            !self.process.instance.is_timed && self.process.termination_counter == 0
                && self.process.instance.termination_limit >= 1 ==> {
                &&& bb.termination_counter == self.process.instance.termination_limit
                &&& bb.evaluated@.len() == self.process.evaluated@.len() + (
                self.process.instance.termination_limit - 1)
            },
    {
        let mut process = self.process;
        let ghost inst = process.instance;
        let ghost base = process.evaluated@;
        let ghost counted = !inst.is_timed && process.termination_counter == 0
            && inst.termination_limit >= 1;
        let mut best = process.best_candidate.clone();
        let mut done = process.should_terminate();
        while !done
            invariant
                process.wf(),
                process.instance == inst,
                best.wf(inst),
                best.makespan <= self.process.best_candidate.makespan,
                process.history@.len() > 0 ==> process.history@.last().1 >= best.makespan,
                !done ==> process.termination_counter < usize::MAX,
                base == self.process.evaluated@,
                counted == (!inst.is_timed && self.process.termination_counter == 0
                    && inst.termination_limit >= 1),
                process.evaluated@.len() >= base.len(),
                process.evaluated@.take(base.len() as int) == base,
                forall|i: int|
                    base.len() <= i < process.evaluated@.len() ==> #[trigger] process.evaluated@[i]
                        >= best.makespan,
                best.makespan == self.process.best_candidate.makespan || exists|i: int|
                    base.len() <= i < process.evaluated@.len() && process.evaluated@[i]
                        == best.makespan,
                counted ==> {
                    &&& 1 <= process.termination_counter <= inst.termination_limit
                    &&& done == (process.termination_counter >= inst.termination_limit)
                    &&& process.evaluated@.len() == base.len() + (process.termination_counter - 1)
                },
            decreases usize::MAX - process.termination_counter,
        {
            let ghost before_ev = process.evaluated@;
            let solution = process.apply_nullary();
            proof {
                assert(process.evaluated@.take(base.len() as int) =~= base);
            }
            process.update_history(&best);
            if solution.makespan < best.makespan {
                best = solution;
                proof {
                    assert(process.evaluated@[before_ev.len() as int] == best.makespan);
                }
            } else {
                proof {
                    if best.makespan != self.process.best_candidate.makespan {
                        let wi = choose|i: int|
                            base.len() <= i < before_ev.len() && before_ev[i] == best.makespan;
                        assert(process.evaluated@[wi] == best.makespan);
                    }
                }
            }
            done = process.should_terminate();
        }
        process.update(&best);
        proof {
            crate::bounds::lemma_oracle_best_within_bounds(process);
        }
        process.finalize()
    }
}

/// Random sampling fanned out over independent runs: the library holds the
/// instance; the harness around it spawns one `RandomSample` per thread and
/// reduces the results with `best_of`.
pub struct RandomSampleThreaded {
    pub instance: Instance,
}

impl RandomSampleThreaded {
    /// Wraps the instance for the parallel harness.
    pub fn new(instance: &Instance) -> (r: RandomSampleThreaded)
        requires
            instance.wf(),
        ensures
            r.instance.same_problem(*instance),
            r.instance.wf(),
    {
        RandomSampleThreaded { instance: instance.clone() }
    }
}

/// The keep-best-seen decision: the challenger replaces the incumbent iff
/// it has a strictly smaller makespan.
pub fn keep_better(incumbent: Candidate, challenger: Candidate) -> (r: Candidate)
    ensures
        r == if challenger.makespan < incumbent.makespan {
            challenger
        } else {
            incumbent
        },
{
    if challenger.makespan < incumbent.makespan {
        challenger
    } else {
        incumbent
    }
}

/// Reduces independent runs to the single best one: the result is one of
/// the inputs and no input has a smaller best makespan.
pub fn best_of(results: Vec<BlackBox>) -> (r: Option<BlackBox>)
    ensures
        r is None <==> results@.len() == 0,
        r is Some ==> exists|i: int|
            0 <= i < results@.len() && r.unwrap() == #[trigger] results@[i],
        r is Some ==> forall|i: int|
            0 <= i < results@.len() ==> (#[trigger] results@[i]).best_candidate.makespan
                >= r.unwrap().best_candidate.makespan,
{
    let ghost orig = results@;
    let mut rest = results;
    let mut best: Option<BlackBox> = Option::None;
    while rest.len() > 0
        invariant
            rest@ == orig.take(rest@.len() as int),
            best is None <==> rest@.len() == orig.len(),
            best is Some ==> exists|i: int|
                rest@.len() <= i < orig.len() && best.unwrap() == #[trigger] orig[i],
            best is Some ==> forall|i: int|
                rest@.len() <= i < orig.len() ==> (#[trigger] orig[i]).best_candidate.makespan
                    >= best.unwrap().best_candidate.makespan,
        decreases rest@.len(),
    {
        let bb = rest.pop().unwrap();
        proof {
            assert(bb == orig[rest@.len() as int]);
            assert(rest@ =~= orig.take(rest@.len() as int));
        }
        best = match best {
            Option::None => Option::Some(bb),
            Option::Some(cur) => {
                if bb.best_candidate.makespan < cur.best_candidate.makespan {
                    Option::Some(bb)
                } else {
                    Option::Some(cur)
                }
            },
        };
    }
    proof {
        if best is Some {
            assert(orig.take(0int) =~= Seq::<BlackBox>::empty());
        }
    }
    best
}

} // verus!
