//! Hill climbing with restarts: walk to improving neighbours, and restart
//! from a fresh random candidate after too many non-improving steps.

use vstd::prelude::*;
use crate::instance::Instance;
use crate::oracle::BlackBox;

verus! {

/// Which unary neighbourhood operator a configuration selected.
#[derive(Clone, Copy, PartialEq, Eq, Structural, Debug)]
pub enum OperatorKind {
    OneSwap,
    NSwap,
}

/// A configuration named something no strategy implements.
#[derive(Clone, Copy, PartialEq, Eq, Structural, Debug)]
pub enum ConfigError {
    UnknownOperator,
}

/// Compares two strings.
pub fn str_eq(a: &str, b: &str) -> (r: bool)
    ensures
        r == (a@ == b@),
{
    let sa = a.to_owned();
    let sb = b.to_owned();
    sa == sb
}

/// Hill climbing with restarts over one oracle.
pub struct HillClimber {
    pub process: BlackBox,
    pub unary_op: OperatorKind,
    pub reset_threshold: usize,
    pub reset_counter: usize,
}

impl HillClimber {
    /// The strategy is sound: its oracle is, and the restart counter is
    /// still below its threshold.
    pub open spec fn wf(self) -> bool {
        &&& self.process.wf()
        &&& self.process.history_consistent()
        &&& self.reset_threshold >= 1
        &&& self.reset_counter < self.reset_threshold
    }

    /// Builds the strategy.  The operator name is resolved once, here:
    /// `"1swap"` or `"nswap"`; anything else is fatal at startup, never
    /// silently defaulted.
    pub fn new(instance: &Instance, reset_threshold: usize, unary_op: &str, seed: u64) -> (r:
        Result<HillClimber, ConfigError>)
        requires
            instance.wf(),
            reset_threshold >= 1,
        ensures
            unary_op@ == "1swap"@ ==> r is Ok && r.unwrap().unary_op == OperatorKind::OneSwap,
            unary_op@ == "nswap"@ ==> r is Ok && r.unwrap().unary_op == OperatorKind::NSwap,
            !(unary_op@ == "1swap"@ || unary_op@ == "nswap"@) ==> r == Err::<
                HillClimber,
                ConfigError,
            >(ConfigError::UnknownOperator),
            r is Ok ==> {
                &&& r.unwrap().wf()
                &&& r.unwrap().process.instance.same_problem(*instance)
                &&& r.unwrap().reset_threshold == reset_threshold
                &&& r.unwrap().reset_counter == 0
            },
    {
        proof {
            reveal_strlit("1swap");
            reveal_strlit("nswap");
            assert("1swap"@[0] == '1' && "nswap"@[0] == 'n');
            assert("1swap"@ != "nswap"@);
        }
        let kind = if str_eq(unary_op, "1swap") {
            OperatorKind::OneSwap
        } else if str_eq(unary_op, "nswap") {
            OperatorKind::NSwap
        } else {
            return Err(ConfigError::UnknownOperator);
        };
        Ok(HillClimber {
            process: BlackBox::new(instance.clone(), "hill climber with resets", seed),
            unary_op: kind,
            reset_threshold,
            reset_counter: 0,
        })
    }

    /// Counts one more iteration without improvement and says whether the
    /// walk should restart from a fresh candidate.  With a threshold of
    /// one, every step restarts, which degenerates the climb into random
    /// sampling.
    fn should_reset(&mut self) -> (r: bool)
        requires
            old(self).reset_counter < old(self).reset_threshold,
        ensures
            final(self).process == old(self).process,
            final(self).unary_op == old(self).unary_op,
            final(self).reset_threshold == old(self).reset_threshold,
            final(self).reset_counter == old(self).reset_counter + 1,
            r == (final(self).reset_counter >= old(self).reset_threshold),
            old(self).reset_threshold == 1 ==> r,
    {
        self.reset_counter = self.reset_counter + 1;
        self.reset_counter >= self.reset_threshold
    }

    /// Runs the climb to termination: propose a neighbour with the
    /// configured operator, advance on improvement, restart after
    /// `reset_threshold` non-improving iterations, and track the best
    /// candidate ever seen.  The result is no worse than the initial
    /// candidate or than anything the run evaluated (proposals and
    /// restarts alike), and unless it is the initial candidate it is one of
    /// them; in counter mode the run spends the whole iteration budget,
    /// evaluating at least one candidate per iteration.
    pub fn solve(self) -> (bb: BlackBox)
        requires
            self.wf(),
        ensures
            bb.wf(),
            bb.instance == self.process.instance,
            bb.history@.len() >= 1,
            bb.history@.last().1 == bb.best_candidate.makespan,
            bb.best_candidate.makespan <= self.process.best_candidate.makespan,
            bb.lower_bound <= bb.best_candidate.makespan <= bb.upper_bound,
            bb.evaluated@.len() >= self.process.evaluated@.len(),
            bb.evaluated@.take(self.process.evaluated@.len() as int) == self.process.evaluated@,
            forall|i: int|
                self.process.evaluated@.len() <= i < bb.evaluated@.len() ==> #[trigger] bb.evaluated@[i]
                    >= bb.best_candidate.makespan,
            bb.best_candidate.makespan == self.process.best_candidate.makespan || exists|i: int|
                self.process.evaluated@.len() <= i < bb.evaluated@.len() && bb.evaluated@[i]
                    == bb.best_candidate.makespan,
            !self.process.instance.is_timed && self.process.termination_counter == 0
                && self.process.instance.termination_limit >= 1 ==> {
                &&& bb.termination_counter == self.process.instance.termination_limit
                &&& bb.evaluated@.len() >= self.process.evaluated@.len() + (
                self.process.instance.termination_limit - 1)
            },
    {
        let mut this = self;
        let ghost inst = this.process.instance;
        let ghost base = this.process.evaluated@;
        let ghost counted = !inst.is_timed && this.process.termination_counter == 0
            && inst.termination_limit >= 1;
        let mut best = this.process.best_candidate.clone();
        let mut prev = best.clone();
        let mut done = this.process.should_terminate();
        while !done
            invariant
                this.process.wf(),
                this.process.instance == inst,
                this.reset_threshold >= 1,
                this.reset_counter < this.reset_threshold,
                best.wf(inst),
                prev.wf(inst),
                best.makespan <= self.process.best_candidate.makespan,
                this.process.history@.len() > 0 ==> this.process.history@.last().1
                    >= best.makespan,
                !done ==> this.process.termination_counter < usize::MAX,
                base == self.process.evaluated@,
                counted == (!inst.is_timed && self.process.termination_counter == 0
                    && inst.termination_limit >= 1),
                this.process.evaluated@.len() >= base.len(),
                this.process.evaluated@.take(base.len() as int) == base,
                forall|i: int|
                    base.len() <= i < this.process.evaluated@.len() ==> #[trigger] this.process.evaluated@[i]
                        >= best.makespan,
                best.makespan == self.process.best_candidate.makespan || exists|i: int|
                    base.len() <= i < this.process.evaluated@.len() && this.process.evaluated@[i]
                        == best.makespan,
                prev.makespan == self.process.best_candidate.makespan || exists|i: int|
                    base.len() <= i < this.process.evaluated@.len() && this.process.evaluated@[i]
                        == prev.makespan,
                counted ==> {
                    &&& 1 <= this.process.termination_counter <= inst.termination_limit
                    &&& done == (this.process.termination_counter >= inst.termination_limit)
                    &&& this.process.evaluated@.len() >= base.len() + (
                    this.process.termination_counter - 1)
                },
            decreases usize::MAX - this.process.termination_counter,
        {
            let ghost ev0 = this.process.evaluated@;
            let ghost best0 = best;
            if this.should_reset() {
                prev = this.process.apply_nullary();
                this.reset_counter = 0;
                proof {
                    assert(this.process.evaluated@[ev0.len() as int] == prev.makespan);
                }
            }
            let ghost ev1 = this.process.evaluated@;
            let ghost reset_ms = prev.makespan;
            let next = match this.unary_op {
                OperatorKind::OneSwap => this.process.apply_1swap(&prev),
                OperatorKind::NSwap => this.process.apply_nswap(&prev),
            };
            proof {
                assert(this.process.evaluated@[ev1.len() as int] == next.makespan);
            }
            if next.makespan < prev.makespan {
                prev = next;
            }
            if prev.makespan < best.makespan {
                best = prev.clone();
                this.process.update_history(&best);
                this.reset_counter = 0;
            }
            proof {
                let ev2 = this.process.evaluated@;
                assert(ev2.take(base.len() as int) =~= base);
                assert(best.makespan <= prev.makespan);
                assert(prev.makespan <= reset_ms);
                assert(prev.makespan <= next.makespan);
                assert forall|i: int|
                    base.len() <= i < ev2.len() implies #[trigger] ev2[i] >= best.makespan by {
                    if i < ev0.len() {
                        assert(ev2[i] == ev0[i]);
                        assert(ev0[i] >= best0.makespan);
                    } else if i < ev1.len() {
                        assert(ev2[i] == reset_ms);
                    } else {
                        assert(ev2[i] == next.makespan);
                    }
                }
                if prev.makespan != self.process.best_candidate.makespan {
                    if prev.makespan == next.makespan {
                        assert(ev2[ev1.len() as int] == prev.makespan);
                    } else if ev1.len() > ev0.len() && prev.makespan == reset_ms {
                        assert(ev2[ev0.len() as int] == prev.makespan);
                    } else {
                        let wi = choose|i: int|
                            base.len() <= i < ev0.len() && ev0[i] == prev.makespan;
                        assert(ev2[wi] == prev.makespan);
                    }
                }
                if best.makespan != self.process.best_candidate.makespan {
                    if best.makespan == prev.makespan {
                    } else {
                        let wi = choose|i: int|
                            base.len() <= i < ev0.len() && ev0[i] == best.makespan;
                        assert(ev2[wi] == best.makespan);
                    }
                }
            }
            done = this.process.should_terminate();
        }
        this.process.update(&best);
        proof {
            crate::bounds::lemma_oracle_best_within_bounds(this.process);
        }
        this.process.finalize()
    }
}

} // verus!
