//! The evaluation oracle: owns the instance, the decoder, the bounds, the
//! random source, the best candidate, the improvement history, and the
//! termination criterion of a run.

use vstd::prelude::*;
use crate::bounds::{find_lower_bound, find_upper_bound, spec_lower_bound, spec_upper_bound};
use crate::candidate::Candidate;
use crate::clock::{now_millis, elapsed_millis};
use crate::instance::Instance;
use crate::ordering::{valid_ordering, create_canonical, lemma_valid_same_multiset};
use crate::rng::{rng_from_seed, shuffle_prefix};
use crate::schedule::{CandidateSchedule, decode, sched_matches, rows_max_last,
    lemma_decode_complete, lemma_rows_max_last_is_makespan};

verus! {

/// Marker for iteration-count termination.
pub struct Counter;

/// Marker for wall-clock termination.
pub struct Time;

/// A run stops when its termination criterion says so.
pub trait TerminationCriterion<T> {
    fn should_terminate(&mut self) -> bool;
}

/// Draws a fresh candidate from nothing.
pub trait NullaryOperator {
    /// When the operator may be applied.
    spec fn ready(&self) -> bool;

    fn apply(&mut self) -> Candidate
        requires
            old(self).ready(),
    ;
}

/// Perturbs a candidate by one swap.
pub trait UnaryOperator1Swap {
    /// When the operator may be applied to `based`.
    spec fn ready(&self, based: &Candidate) -> bool;

    fn apply(&mut self, based: &Candidate) -> Candidate
        requires
            old(self).ready(based),
    ;
}

/// Perturbs a candidate by a random number of swaps.
pub trait UnaryOperatorNSwap {
    /// When the operator may be applied to `based`.
    spec fn ready(&self, based: &Candidate) -> bool;

    fn apply(&mut self, based: &Candidate) -> Candidate
        requires
            old(self).ready(based),
    ;
}

/// Combines two candidates into one.
pub trait BinaryOperator {
    /// When the operator may be applied to the two parents.
    spec fn ready(&self, based_a: &Candidate, based_b: &Candidate) -> bool;

    fn apply(&mut self, based_a: &Candidate, based_b: &Candidate) -> Candidate
        requires
            old(self).ready(based_a, based_b),
    ;
}

/// The improvement history never gets worse from one sample to the next.
pub open spec fn history_monotone(h: Seq<(u64, usize)>) -> bool {
    forall|i: int, j: int| 0 <= i <= j < h.len() ==> (#[trigger] h[i]).1 >= (#[trigger] h[j]).1
}

/// The shared evaluation context every search strategy runs through.
pub struct BlackBox {
    /// The problem being solved.
    pub instance: Instance,
    /// The name of the strategy driving this run, for reporting.
    pub metaheuristic: String,
    /// Wall-clock time the run started, milliseconds since the Unix epoch.
    pub start_millis: i64,
    /// Wall-clock time the run finished (set by `finalize`).
    pub end_millis: i64,
    /// How many times the termination criterion has been consulted.
    pub termination_counter: usize,
    /// The seeded random source all draws go through.
    pub random: rand::rngs::StdRng,
    /// The best candidate recorded so far.
    pub best_candidate: Candidate,
    /// The improvement trace: `(elapsed milliseconds, makespan)` samples,
    /// strictly improving in makespan.
    pub history: Vec<(u64, usize)>,
    /// Ghost trace of the run: the makespan of every candidate the
    /// operators have decoded, in order.  Contracts use it to tie a
    /// strategy's result to the candidates it actually evaluated.
    pub evaluated: Ghost<Seq<usize>>,
    /// The machine-based lower bound of the instance.
    pub lower_bound: usize,
    /// The loose upper bound of the instance.
    pub upper_bound: usize,
}

impl BlackBox {
    /// The oracle is sound: its instance is valid, its best candidate is a
    /// real decode of that instance, its history only improves, and its
    /// bounds are the bounds of the instance.
    pub open spec fn wf(self) -> bool {
        &&& self.instance.wf()
        &&& self.best_candidate.wf(self.instance)
        &&& history_monotone(self.history@)
        &&& self.lower_bound as int == spec_lower_bound(
            self.instance.js(),
            self.instance.n as int,
            self.instance.m as int,
        )
        &&& self.upper_bound as int == spec_upper_bound(self.instance.js(), self.instance.m as int)
    }

    /// The history has never recorded a better makespan than the current
    /// best candidate's.  Fresh oracles satisfy this trivially (their
    /// history is empty) and `update` restores it.
    pub open spec fn history_consistent(self) -> bool {
        self.history@.len() > 0 ==> self.history@.last().1 >= self.best_candidate.makespan
    }

    /// Everything but the random source and the termination counter is the
    /// same in both oracles.
    pub open spec fn same_run(self, other: BlackBox) -> bool {
        &&& other.instance == self.instance
        &&& other.metaheuristic == self.metaheuristic
        &&& other.start_millis == self.start_millis
        &&& other.end_millis == self.end_millis
        &&& other.best_candidate == self.best_candidate
        &&& other.history == self.history
        &&& other.lower_bound == self.lower_bound
        &&& other.upper_bound == self.upper_bound
    }

    /// Builds the oracle: records the start time, seeds the random source,
    /// draws one initial candidate, and computes both bounds.
    pub fn new(instance: Instance, metaheuristic: &str, seed: u64) -> (bb: BlackBox)
        requires
            instance.wf(),
        ensures
            bb.wf(),
            bb.instance == instance,
            bb.metaheuristic@ == metaheuristic@,
            bb.history@.len() == 0,
            bb.termination_counter == 0,
            bb.evaluated@.len() == 1,
            bb.evaluated@[0] == bb.best_candidate.makespan,
    {
        let start_millis = now_millis();
        let mut random = rng_from_seed(seed);
        let n = instance.n;
        let m = instance.m;
        let mut order = create_canonical(n, m);
        let ghost before = order@;
        let len = order.len();
        shuffle_prefix(&mut random, &mut order, len);
        proof {
            assert(order@.subrange(0, len as int) =~= order@);
            assert(before.subrange(0, len as int) =~= before);
            lemma_valid_same_multiset(before, order@, n as int, m as int);
        }
        let sched = crate::schedule::decode_ordering(&instance, &order);
        let makespan = crate::schedule::find_makespan(&sched);
        proof {
            lemma_decode_complete(instance.js(), n as int, m as int, order@);
            lemma_rows_max_last_is_makespan(
                instance.js(),
                n as int,
                m as int,
                order@,
                sched.schedule@,
                m as int,
            );
        }
        let best_candidate = Candidate { makespan, order, schedule: sched.schedule };
        let ghost initial_trace: Seq<usize> = seq![makespan];
        let lower_bound = find_lower_bound(&instance);
        let upper_bound = find_upper_bound(&instance);
        BlackBox {
            instance,
            metaheuristic: metaheuristic.to_owned(),
            start_millis,
            end_millis: start_millis,
            termination_counter: 0,
            random,
            best_candidate,
            history: Vec::new(),
            evaluated: Ghost(initial_trace),
            lower_bound,
            upper_bound,
        }
    }

    /// Decodes an ordering against this oracle's instance.
    pub fn map(&self, order: &Vec<usize>) -> (y: CandidateSchedule)
        requires
            self.instance.wf(),
            valid_ordering(order@, self.instance.n as int, self.instance.m as int),
        ensures
            sched_matches(
                y.schedule@,
                decode(self.instance.js(), self.instance.n as int, self.instance.m as int, order@),
                self.instance.n as int,
                self.instance.m as int,
            ),
    {
        crate::schedule::decode_ordering(&self.instance, order)
    }

    /// Reads the makespan off a fully decoded schedule.
    pub fn find_makespan(&self, y: &CandidateSchedule) -> (r: usize)
        requires
            y.schedule@.len() >= 1,
            forall|k: int| 0 <= k < y.schedule@.len() ==> (#[trigger] y.schedule@[k]@.len()) >= 1,
        ensures
            r as int == rows_max_last(y.schedule@, y.schedule@.len() as int),
    {
        crate::schedule::find_makespan(y)
    }

    /// The canonical unshuffled ordering of this instance.
    pub fn create(&self) -> (r: Vec<usize>)
        requires
            self.instance.wf(),
        ensures
            r@ == crate::ordering::canonical_ordering(
                self.instance.n as int,
                self.instance.m as int,
            ),
            valid_ordering(r@, self.instance.n as int, self.instance.m as int),
    {
        create_canonical(self.instance.n, self.instance.m)
    }

    /// Counter-based termination: consulting the criterion counts one
    /// iteration, and the run stops once the budget is spent.
    pub fn should_terminate_counter(&mut self) -> (r: bool)
        ensures
            old(self).same_run(*final(self)),
            final(self).evaluated == old(self).evaluated,
            old(self).termination_counter == usize::MAX ==> r && *final(self) == *old(self),
            old(self).termination_counter < usize::MAX ==> {
                &&& final(self).termination_counter == old(self).termination_counter + 1
                &&& r == (final(self).termination_counter
                    >= old(self).instance.termination_limit)
            },
    {
        if self.termination_counter == usize::MAX {
            return true;
        }
        self.termination_counter = self.termination_counter + 1;
        self.termination_counter >= self.instance.termination_limit
    }

    /// Time-based termination: the counter still advances (for reporting),
    /// and the run stops once the elapsed wall-clock seconds reach the
    /// budget.  The clock decides, so nothing is promised of the outcome —
    /// except that a run cannot outlive the counter's range.
    pub fn should_terminate_timed(&mut self) -> (r: bool)
        ensures
            old(self).same_run(*final(self)),
            final(self).evaluated == old(self).evaluated,
            old(self).termination_counter == usize::MAX ==> r && *final(self) == *old(self),
            old(self).termination_counter < usize::MAX ==> final(self).termination_counter == old(self).termination_counter + 1,
            old(self).termination_counter < usize::MAX && final(self).termination_counter
                == usize::MAX ==> r,
    {
        if self.termination_counter == usize::MAX {
            return true;
        }
        self.termination_counter = self.termination_counter + 1;
        let elapsed = elapsed_millis(self.start_millis);
        elapsed / 1000 >= self.instance.termination_limit as u64
            || self.termination_counter == usize::MAX
    }

    /// Consults the termination criterion the instance selected: iteration
    /// budget when `is_timed` is false, wall-clock budget when it is true.
    pub fn should_terminate(&mut self) -> (r: bool)
        ensures
            old(self).same_run(*final(self)),
            final(self).evaluated == old(self).evaluated,
            old(self).termination_counter == usize::MAX ==> r && *final(self) == *old(self),
            old(self).termination_counter < usize::MAX ==> final(self).termination_counter == old(self).termination_counter + 1,
            old(self).termination_counter < usize::MAX && !old(self).instance.is_timed ==> r == (
            final(self).termination_counter >= old(self).instance.termination_limit),
            old(self).termination_counter < usize::MAX && final(self).termination_counter
                == usize::MAX ==> r,
    {
        if self.instance.is_timed {
            self.should_terminate_timed()
        } else {
            self.should_terminate_counter()
        }
    }

    /// Appends an improvement sample: when the history is empty or the
    /// candidate strictly improves on the last recorded makespan, records
    /// `(elapsed milliseconds, makespan)`; otherwise leaves the history
    /// alone.  The history therefore only ever improves.
    pub fn update_history(&mut self, candidate: &Candidate)
        ensures
            final(self).instance == old(self).instance,
            final(self).metaheuristic == old(self).metaheuristic,
            final(self).start_millis == old(self).start_millis,
            final(self).end_millis == old(self).end_millis,
            final(self).termination_counter == old(self).termination_counter,
            final(self).best_candidate == old(self).best_candidate,
            final(self).evaluated == old(self).evaluated,
            final(self).lower_bound == old(self).lower_bound,
            final(self).upper_bound == old(self).upper_bound,
            old(self).history@.len() == 0 ==> final(self).history@.len() == 1 && final(self).history@[0].1 == candidate.makespan,
            old(self).history@.len() > 0 && old(self).history@.last().1 > candidate.makespan ==> {
                &&& final(self).history@.len() == old(self).history@.len() + 1
                &&& final(self).history@.take(old(self).history@.len() as int) == old(self).history@
                &&& final(self).history@.last().1 == candidate.makespan
            },
            old(self).history@.len() > 0 && old(self).history@.last().1 <= candidate.makespan
                ==> final(self).history == old(self).history,
            history_monotone(old(self).history@) ==> history_monotone(final(self).history@),
    {
        let current_time = elapsed_millis(self.start_millis);
        let hlen = self.history.len();
        if hlen == 0 {
            self.history.push((current_time, candidate.makespan));
            proof {
                assert(final(self).history@.take(0int) =~= old(self).history@);
            }
        } else {
            let last = self.history[hlen - 1];
            if last.1 > candidate.makespan {
                self.history.push((current_time, candidate.makespan));
                proof {
                    assert(final(self).history@.take(old(self).history@.len() as int) =~= old(self).history@);
                    if history_monotone(old(self).history@) {
                        assert forall|i: int, j: int|
                            0 <= i <= j < final(self).history@.len() implies (#[trigger] final(self).history@[i]).1 >= (#[trigger] final(self).history@[j]).1 by {
                            if j < final(self).history@.len() - 1 {
                                assert(final(self).history@[i] == old(self).history@[i]);
                                assert(final(self).history@[j] == old(self).history@[j]);
                            } else if i < j {
                                assert(final(self).history@[i] == old(self).history@[i]);
                                assert(old(self).history@[i].1 >= old(self).history@.last().1);
                            }
                        }
                    }
                }
            }
        }
    }

    /// Unconditionally replaces the best candidate.  Callers are expected
    /// to pass an improving candidate; this is their obligation, not one
    /// enforced here.
    pub fn update_candidate(&mut self, candidate: &Candidate)
        ensures
            final(self).instance == old(self).instance,
            final(self).metaheuristic == old(self).metaheuristic,
            final(self).start_millis == old(self).start_millis,
            final(self).end_millis == old(self).end_millis,
            final(self).termination_counter == old(self).termination_counter,
            final(self).history == old(self).history,
            final(self).evaluated == old(self).evaluated,
            final(self).lower_bound == old(self).lower_bound,
            final(self).upper_bound == old(self).upper_bound,
            final(self).best_candidate.same_solution(*candidate),
            candidate.wf(old(self).instance) ==> final(self).best_candidate.wf(
                old(self).instance,
            ),
    {
        let c = candidate.clone();
        proof {
            assert(c.same_solution(*candidate));
            assert(candidate.same_solution(c)) by {
                assert forall|k: int| 0 <= k < candidate.schedule@.len() implies #[trigger]
                    candidate.schedule@[k]@ == c.schedule@[k]@ by {
                    assert(c.schedule@[k]@ == candidate.schedule@[k]@);
                }
            }
        }
        self.best_candidate = c;
    }

    /// Records an improvement: appends it to the history (if it improves on
    /// the last sample) and makes it the best candidate.
    pub fn update(&mut self, candidate: &Candidate)
        ensures
            final(self).instance == old(self).instance,
            final(self).metaheuristic == old(self).metaheuristic,
            final(self).start_millis == old(self).start_millis,
            final(self).end_millis == old(self).end_millis,
            final(self).termination_counter == old(self).termination_counter,
            final(self).evaluated == old(self).evaluated,
            final(self).lower_bound == old(self).lower_bound,
            final(self).upper_bound == old(self).upper_bound,
            final(self).best_candidate.same_solution(*candidate),
            candidate.wf(old(self).instance) ==> final(self).best_candidate.wf(
                old(self).instance,
            ),
            history_monotone(old(self).history@) ==> history_monotone(final(self).history@),
            final(self).history@.len() >= 1,
            (old(self).history@.len() == 0 || old(self).history@.last().1 >= candidate.makespan)
                ==> final(self).history@.last().1 == candidate.makespan,
    {
        self.update_history(candidate);
        self.update_candidate(candidate);
    }

    /// Stamps the end of the run.
    pub fn finalize(self) -> (bb: BlackBox)
        ensures
            bb.instance == self.instance,
            bb.metaheuristic == self.metaheuristic,
            bb.start_millis == self.start_millis,
            bb.termination_counter == self.termination_counter,
            bb.random == self.random,
            bb.best_candidate == self.best_candidate,
            bb.history == self.history,
            bb.evaluated == self.evaluated,
            bb.lower_bound == self.lower_bound,
            bb.upper_bound == self.upper_bound,
    {
        let end_millis = now_millis();
        BlackBox { end_millis, ..self }
    }
}

impl TerminationCriterion<Counter> for BlackBox {
    fn should_terminate(&mut self) -> bool {
        self.should_terminate_counter()
    }
}

impl TerminationCriterion<Time> for BlackBox {
    fn should_terminate(&mut self) -> bool {
        self.should_terminate_timed()
    }
}

} // verus!
