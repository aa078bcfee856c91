//! Genetic search with clearing: a (mu + lambda) population, diversity-
//! preserving survivor selection that keeps only the first candidate of
//! each distinct makespan, and offspring bred by crossover or multi-swap
//! mutation from the survivors in round-robin order.

use vstd::prelude::*;
use vstd::pervasive::VecAdditionalExecFns;
use crate::candidate::Candidate;
use crate::instance::Instance;
use crate::operators::lemma_swap_multiset;
use crate::oracle::BlackBox;
use crate::rng::{rand_below, rand_ratio, shuffle_prefix};

verus! {

broadcast use vstd::seq_lib::group_to_multiset_ensures, vstd::multiset::group_multiset_axioms;

/// Genetic search with clearing over one oracle.
pub struct Genetic {
    pub process: BlackBox,
}

/// Every candidate of the population is a real decode of the instance.
pub open spec fn all_wf(p: Seq<Candidate>, instance: Instance) -> bool {
    forall|i: int| 0 <= i < p.len() ==> (#[trigger] p[i]).wf(instance)
}

/// The population is sorted by makespan, ascending.
pub open spec fn sorted_by_makespan(p: Seq<Candidate>) -> bool {
    forall|i: int, j: int| 0 <= i <= j < p.len() ==> (#[trigger] p[i]).makespan <= (#[trigger] p[j]).makespan
}

/// If two populations hold the same candidates, well-formedness carries
/// over.
pub proof fn lemma_all_wf_same_multiset(p1: Seq<Candidate>, p2: Seq<Candidate>, instance: Instance)
    requires
        p2.to_multiset() == p1.to_multiset(),
        all_wf(p1, instance),
    ensures
        all_wf(p2, instance),
{
    assert forall|i: int| 0 <= i < p2.len() implies (#[trigger] p2[i]).wf(instance) by {
        assert(p2.contains(p2[i]));
        assert(p2.to_multiset().count(p2[i]) > 0);
        assert(p1.contains(p2[i]));
        let j = choose|j: int| 0 <= j < p1.len() && p1[j] == p2[i];
        assert(p1[j].wf(instance));
    }
}

/// Some member of the population is at least as good as makespan `v`.
pub open spec fn dominated_entry(p: Seq<Candidate>, v: usize) -> bool {
    exists|w: int| 0 <= w < p.len() && (#[trigger] p[w]).makespan <= v
}

/// Every candidate evaluated since `lo` is matched or beaten by some
/// member of the population.
pub open spec fn population_dominates(p: Seq<Candidate>, ev: Seq<usize>, lo: int) -> bool {
    forall|e: int| lo <= e < ev.len() ==> dominated_entry(p, #[trigger] ev[e])
}

/// Some member among the first `bound` slots is at least as good as `v`.
pub open spec fn dominated_entry_upto(p: Seq<Candidate>, bound: int, v: usize) -> bool {
    exists|w: int| 0 <= w < bound && w < p.len() && (#[trigger] p[w]).makespan <= v
}

/// Reordering the population preserves both witness facts.
proof fn lemma_witnesses_multiset(p1: Seq<Candidate>, p2: Seq<Candidate>, ev: Seq<usize>, lo: int)
    requires
        p2.to_multiset() == p1.to_multiset(),
        population_dominates(p1, ev, lo),
    ensures
        population_dominates(p2, ev, lo),
{
    assert forall|e: int| lo <= e < ev.len() implies dominated_entry(p2, #[trigger] ev[e]) by {
        assert(dominated_entry(p1, ev[e]));
        let w1 = choose|w: int| 0 <= w < p1.len() && (#[trigger] p1[w]).makespan <= ev[e];
        assert(p1.contains(p1[w1]));
        assert(p1.to_multiset().count(p1[w1]) > 0);
        assert(p2.contains(p1[w1]));
        let w2 = choose|w: int| 0 <= w < p2.len() && p2[w] == p1[w1];
        assert((p2[w2]).makespan <= ev[e]);
    }
}

/// A shuffled survivor prefix with an untouched tail is a permutation of
/// the whole population.
proof fn lemma_full_multiset_from_prefix(before: Seq<Candidate>, after: Seq<Candidate>, u: int)
    requires
        0 <= u <= before.len(),
        after.len() == before.len(),
        after.subrange(0, u).to_multiset() == before.subrange(0, u).to_multiset(),
        after.subrange(u, after.len() as int) == before.subrange(u, before.len() as int),
    ensures
        after.to_multiset() == before.to_multiset(),
{
    assert(after =~= after.subrange(0, u) + after.subrange(u, after.len() as int));
    assert(before =~= before.subrange(0, u) + before.subrange(u, before.len() as int));
    vstd::seq_lib::lemma_multiset_commutative(
        after.subrange(0, u),
        after.subrange(u, after.len() as int),
    );
    vstd::seq_lib::lemma_multiset_commutative(
        before.subrange(0, u),
        before.subrange(u, before.len() as int),
    );
}

/// After sorting, the head of the population is no worse than anything the
/// trace recorded since `lo`.
proof fn lemma_sorted_head_dominates(p: Seq<Candidate>, ev: Seq<usize>, lo: int)
    requires
        population_dominates(p, ev, lo),
        sorted_by_makespan(p),
        p.len() >= 1,
    ensures
        forall|e: int| lo <= e < ev.len() ==> p[0].makespan <= #[trigger] ev[e],
{
    assert forall|e: int| lo <= e < ev.len() implies p[0].makespan <= #[trigger] ev[e] by {
        assert(dominated_entry(p, ev[e]));
        let w = choose|w: int| 0 <= w < p.len() && (#[trigger] p[w]).makespan <= ev[e];
        assert(p[0].makespan <= p[w].makespan);
    }
}

/// A single survivor that beats every trace entry makes the prefix a
/// witness region.
proof fn lemma_head_witness_to_prefix(p: Seq<Candidate>, ev: Seq<usize>, lo: int, u: int, w: int)
    requires
        0 <= w < u,
        w < p.len(),
        forall|e: int| lo <= e < ev.len() ==> p[w].makespan <= #[trigger] ev[e],
    ensures
        forall|e: int| lo <= e < ev.len() ==> dominated_entry_upto(p, u, #[trigger] ev[e]),
{
    assert forall|e: int| lo <= e < ev.len() implies dominated_entry_upto(p, u, #[trigger] ev[e])
        by {
        assert(p[w].makespan <= ev[e]);
    }
}

/// Witnesses over the whole population are plain domination.
proof fn lemma_upto_full(p: Seq<Candidate>, ev: Seq<usize>, lo: int)
    requires
        forall|e: int|
            lo <= e < ev.len() ==> dominated_entry_upto(p, p.len() as int, #[trigger] ev[e]),
    ensures
        population_dominates(p, ev, lo),
{
    assert forall|e: int| lo <= e < ev.len() implies dominated_entry(p, #[trigger] ev[e]) by {
        assert(dominated_entry_upto(p, p.len() as int, ev[e]));
        let w = choose|w: int|
            0 <= w < p.len() && w < p.len() && (#[trigger] p[w]).makespan <= ev[e];
        assert(p[w].makespan <= ev[e]);
    }
}

/// One offspring step: the child replaces slot `i`, its makespan is
/// appended to the trace, and both witness facts carry over with the
/// witness region grown by one slot.
proof fn lemma_offspring_witnesses(
    before: Seq<Candidate>,
    after: Seq<Candidate>,
    evh: Seq<usize>,
    ev2: Seq<usize>,
    lo: int,
    i: int,
    child: Candidate,
)
    requires
        0 <= lo <= evh.len(),
        ev2 == evh.push(child.makespan),
        0 <= i < before.len(),
        after == before.update(i, child),
        forall|e: int| lo <= e < evh.len() ==> dominated_entry_upto(before, i, #[trigger] evh[e]),
    ensures
        forall|e: int| lo <= e < ev2.len() ==> dominated_entry_upto(after, i + 1, #[trigger] ev2[e]),
{
    assert forall|e: int| lo <= e < ev2.len() implies dominated_entry_upto(
        after,
        i + 1,
        #[trigger] ev2[e],
    ) by {
        if e < evh.len() {
            assert(ev2[e] == evh[e]);
            assert(dominated_entry_upto(before, i, evh[e]));
            let w = choose|w: int|
                0 <= w < i && w < before.len() && (#[trigger] before[w]).makespan <= evh[e];
            assert(after[w] == before[w]);
            assert(0 <= w < i + 1 && w < after.len() && after[w].makespan <= ev2[e]);
        } else {
            assert(ev2[e] == child.makespan);
            assert(after[i] == child);
            assert(0 <= i < i + 1 && i < after.len() && after[i].makespan <= ev2[e]);
        }
    }
}

/// Swaps two candidates of the population in place, moving the values.
fn swap_candidates(v: &mut Vec<Candidate>, i: usize, j: usize)
    requires
        i < old(v)@.len(),
        j < old(v)@.len(),
    ensures
        final(v)@ == old(v)@.update(i as int, old(v)@[j as int]).update(
            j as int,
            old(v)@[i as int],
        ),
        final(v)@.to_multiset() == old(v)@.to_multiset(),
        final(v)@.len() == old(v)@.len(),
{
    proof {
        lemma_swap_multiset(old(v)@, i as int, j as int);
    }
    if i == j {
        proof {
            assert(final(v)@ =~= old(v)@.update(i as int, old(v)@[j as int]).update(
                j as int,
                old(v)@[i as int],
            ));
        }
        return ;
    }
    let (lo, hi) = if i < j {
        (i, j)
    } else {
        (j, i)
    };
    let mut tmp = v.pop().unwrap();
    let last = v.len();
    if hi == last {
        v.set_and_swap(lo, &mut tmp);
        v.push(tmp);
    } else {
        v.set_and_swap(hi, &mut tmp);
        v.set_and_swap(lo, &mut tmp);
        v.set_and_swap(hi, &mut tmp);
        v.push(tmp);
    }
    proof {
        assert(v@ =~= old(v)@.update(i as int, old(v)@[j as int]).update(
            j as int,
            old(v)@[i as int],
        ));
    }
}

/// Sorts the population by makespan, ascending (selection sort; the
/// population is a permutation of the input).
pub fn sort_by_makespan(v: &mut Vec<Candidate>)
    ensures
        final(v)@.len() == old(v)@.len(),
        final(v)@.to_multiset() == old(v)@.to_multiset(),
        sorted_by_makespan(final(v)@),
{
    let len = v.len();
    let mut i: usize = 0;
    while i < len
        invariant
            len == v@.len(),
            i <= len,
            v@.to_multiset() == old(v)@.to_multiset(),
            forall|a: int, b: int|
                0 <= a <= b < i ==> (#[trigger] v@[a]).makespan <= (#[trigger] v@[b]).makespan,
            forall|a: int, b: int|
                0 <= a < i && i <= b < len ==> (#[trigger] v@[a]).makespan <= (#[trigger] v@[b]).makespan,
        decreases len - i,
    {
        let mut mn = i;
        let mut c = i + 1;
        while c < len
            invariant
                len == v@.len(),
                i <= mn < len,
                i < c <= len,
                forall|b: int| i <= b < c ==> (#[trigger] v@[b]).makespan >= v@[mn as int].makespan,
            decreases len - c,
        {
            if v[c].makespan < v[mn].makespan {
                mn = c;
            }
            c += 1;
        }
        swap_candidates(v, i, mn);
        i += 1;
    }
}

/// The first position of the population holding makespan `v`, scanning
/// from `i` (the population length if `v` never occurs).
pub open spec fn first_with_ms(p: Seq<Candidate>, v: usize, i: int) -> int
    decreases p.len() - i,
{
    if i < 0 || i >= p.len() {
        p.len() as int
    } else if p[i].makespan == v {
        i
    } else {
        first_with_ms(p, v, i + 1)
    }
}

proof fn lemma_first_with_ms_from(p: Seq<Candidate>, v: usize, idx: int, s: int)
    requires
        0 <= s <= idx < p.len(),
        p[idx].makespan == v,
        forall|q: int| s <= q < idx ==> (#[trigger] p[q]).makespan != v,
    ensures
        first_with_ms(p, v, s) == idx,
    decreases idx - s,
{
    if s < idx {
        lemma_first_with_ms_from(p, v, idx, s + 1);
    }
}

/// A position whose makespan never occurs earlier is the first with it.
proof fn lemma_first_with_ms(p: Seq<Candidate>, v: usize, idx: int)
    requires
        0 <= idx < p.len(),
        p[idx].makespan == v,
        forall|q: int| 0 <= q < idx ==> (#[trigger] p[q]).makespan != v,
    ensures
        first_with_ms(p, v, 0) == idx,
{
    lemma_first_with_ms_from(p, v, idx, 0);
}

/// Clearing: scan the sorted population and move to the front the first
/// candidate of each distinct makespan, up to `mu` survivors.  Returns the
/// number of survivors kept; later duplicates of an already-kept makespan
/// are skipped.  The survivor makespans are exactly the first distinct
/// values of the sorted population, in order.
pub fn find_clear_length(p: &mut Vec<Candidate>, mu: usize) -> (u: usize)
    requires
        mu >= 1,
        old(p)@.len() >= 1,
        sorted_by_makespan(old(p)@),
    ensures
        1 <= u <= mu,
        u <= final(p)@.len(),
        final(p)@.len() == old(p)@.len(),
        final(p)@.to_multiset() == old(p)@.to_multiset(),
        final(p)@[0] == old(p)@[0],
        u as int == vstd::math::min(mu as int, distinct_makespans(old(p)@).len() as int),
        forall|i: int|
            0 <= i < u ==> (#[trigger] final(p)@[i]).makespan == distinct_makespans(old(p)@)[i],
        forall|i: int|
            0 <= i < u ==> #[trigger] final(p)@[i] == old(p)@[first_with_ms(
                old(p)@,
                final(p)@[i].makespan,
                0,
            )],
{
    let ghost orig = p@;
    let len = p.len();
    let mut last_ms: usize = 0;
    let mut uc: usize = 0;
    let mut index: usize = 0;
    while uc < mu && index < len
        invariant
            len == p@.len(),
            len == orig.len(),
            uc <= mu,
            uc <= index <= len,
            p@.to_multiset() == orig.to_multiset(),
            forall|q: int| index <= q < len ==> #[trigger] p@[q] == orig[q],
            uc >= 1 ==> p@[0] == orig[0],
            uc >= 1 ==> last_ms == p@[uc - 1].makespan,
            uc >= 1 ==> forall|q: int| 0 <= q < index ==> (#[trigger] orig[q]).makespan <= last_ms,
            forall|i: int|
                0 <= i < uc ==> #[trigger] p@[i] == orig[first_with_ms(orig, p@[i].makespan, 0)],
            uc == 0 ==> index == 0,
            uc >= 1 ==> distinct_makespans(orig) =~= prefix_makespans(p@, uc as int)
                + distinct_from(orig, last_ms as int, index as int),
            forall|i: int, j: int|
                0 <= i <= j < uc ==> (#[trigger] p@[i]).makespan <= (#[trigger] p@[j]).makespan,
            forall|i: int, j: int|
                0 <= i < j < uc ==> (#[trigger] p@[i]).makespan < (#[trigger] p@[j]).makespan,
        decreases len - index,
    {
        let keep = uc == 0 || p[index].makespan > last_ms;
        if keep {
            let ghost before = p@;
            proof {
                if uc >= 1 {
                    assert(distinct_from(orig, last_ms as int, index as int) == seq![
                        orig[index as int].makespan,
                    ] + distinct_from(orig, orig[index as int].makespan as int, index + 1));
                }
            }
            proof {
                assert forall|q: int| 0 <= q < index implies (#[trigger] orig[q]).makespan
                    != orig[index as int].makespan by {
                    if uc >= 1 {
                        assert(orig[q].makespan <= last_ms);
                    }
                }
                lemma_first_with_ms(orig, orig[index as int].makespan, index as int);
            }
            swap_candidates(p, uc, index);
            last_ms = p[uc].makespan;
            uc += 1;
            proof {
                assert(p@[uc as int - 1] == orig[index as int]);
                lemma_prefix_makespans(before, uc as int - 1);
                lemma_prefix_makespans(p@, uc as int - 1);
                lemma_prefix_makespans(p@, uc as int);
                assert(prefix_makespans(p@, uc as int - 1) =~= prefix_makespans(
                    before,
                    uc as int - 1,
                ));
                assert(p@[uc as int - 1] == orig[index as int]);
                assert(prefix_makespans(p@, uc as int) =~= prefix_makespans(before, uc as int - 1)
                    .push(orig[index as int].makespan));
                if uc == 1 {
                    assert(index == 0);
                    assert(p@[0] == orig[0]);
                    assert(distinct_makespans(orig) =~= prefix_makespans(p@, 1int)
                        + distinct_from(orig, orig[0].makespan as int, 1int));
                } else {
                    assert(distinct_makespans(orig) =~= (prefix_makespans(before, uc as int - 1)
                        + (seq![orig[index as int].makespan] + distinct_from(
                        orig,
                        orig[index as int].makespan as int,
                        index + 1,
                    ))));
                    assert((prefix_makespans(before, uc as int - 1) + (seq![
                        orig[index as int].makespan,
                    ] + distinct_from(orig, orig[index as int].makespan as int, index + 1)))
                        =~= prefix_makespans(p@, uc as int) + distinct_from(
                        orig,
                        orig[index as int].makespan as int,
                        index + 1,
                    ));
                }
            }
        } else {
            proof {
                assert(distinct_from(orig, last_ms as int, index as int) == distinct_from(
                    orig,
                    last_ms as int,
                    index + 1,
                ));
            }
        }
        index += 1;
    }
    proof {
        lemma_prefix_makespans(p@, uc as int);
        if uc < mu {
            assert(index == len);
            assert(uc >= 1) by {
                assert(orig.len() >= 1);
            }
            assert(distinct_from(orig, last_ms as int, len as int) =~= Seq::<usize>::empty());
            assert(distinct_makespans(orig) == prefix_makespans(p@, uc as int) + distinct_from(
                orig,
                last_ms as int,
                len as int,
            ));
            assert(distinct_makespans(orig) =~= prefix_makespans(p@, uc as int));
        } else {
            assert(distinct_makespans(orig).len() >= uc) by {
                assert(distinct_makespans(orig) == prefix_makespans(p@, uc as int)
                    + distinct_from(orig, last_ms as int, index as int));
            }
        }
        assert forall|i: int| 0 <= i < uc implies (#[trigger] p@[i]).makespan
            == distinct_makespans(orig)[i] by {
            assert(distinct_makespans(orig)[i] == prefix_makespans(p@, uc as int)[i]);
            assert(prefix_makespans(p@, uc as int)[i] == p@[i].makespan);
        }
    }
    uc
}

/// `prefix_makespans` is the pointwise makespan sequence.
pub proof fn lemma_prefix_makespans(p: Seq<Candidate>, upto: int)
    requires
        0 <= upto,
    ensures
        prefix_makespans(p, upto).len() == upto,
        forall|i: int| 0 <= i < upto ==> #[trigger] prefix_makespans(p, upto)[i] == p[i].makespan,
    decreases upto,
{
    if upto > 0 {
        lemma_prefix_makespans(p, upto - 1);
    }
}

/// Shuffling the survivor prefix keeps every candidate of the population.
pub proof fn lemma_all_wf_shuffle(
    before: Seq<Candidate>,
    after: Seq<Candidate>,
    u: int,
    instance: Instance,
)
    requires
        0 <= u <= before.len(),
        after.len() == before.len(),
        after.subrange(0, u).to_multiset() == before.subrange(0, u).to_multiset(),
        after.subrange(u, after.len() as int) == before.subrange(u, before.len() as int),
        all_wf(before, instance),
    ensures
        all_wf(after, instance),
{
    assert forall|i: int| 0 <= i < after.len() implies (#[trigger] after[i]).wf(instance) by {
        if i < u {
            assert(after.subrange(0, u)[i] == after[i]);
            assert(after.subrange(0, u).contains(after[i]));
            assert(after.subrange(0, u).to_multiset().count(after[i]) > 0);
            assert(before.subrange(0, u).contains(after[i]));
            let j = choose|j: int| 0 <= j < u && before.subrange(0, u)[j] == after[i];
            assert(before[j].wf(instance));
        } else {
            assert(after.subrange(u, after.len() as int)[i - u] == after[i]);
            assert(before.subrange(u, before.len() as int)[i - u] == before[i]);
            assert(before[i].wf(instance));
        }
    }
}

/// The makespans of the first `upto` candidates.
pub open spec fn prefix_makespans(p: Seq<Candidate>, upto: int) -> Seq<usize>
    decreases upto,
{
    if upto <= 0 {
        Seq::empty()
    } else {
        prefix_makespans(p, upto - 1).push(p[upto - 1].makespan)
    }
}

/// The distinct makespans of a sorted population, scanning from position
/// `i` and skipping values not above `above`.
pub open spec fn distinct_from(p: Seq<Candidate>, above: int, i: int) -> Seq<usize>
    decreases p.len() - i,
{
    if i < 0 || i >= p.len() {
        Seq::empty()
    } else if p[i].makespan > above {
        seq![p[i].makespan] + distinct_from(p, p[i].makespan as int, i + 1)
    } else {
        distinct_from(p, above, i + 1)
    }
}

/// The distinct makespans of a sorted population, in ascending order.
pub open spec fn distinct_makespans(p: Seq<Candidate>) -> Seq<usize> {
    if p.len() == 0 {
        Seq::empty()
    } else {
        seq![p[0].makespan] + distinct_from(p, p[0].makespan as int, 1)
    }
}


/// Refills slots `u..` of the population with offspring: with probability
/// `crossover_num/crossover_den` a crossover of two distinct survivors
/// (when two exist), otherwise a multi-swap mutation of the round-robin
/// parent.  Survivors stay put; every offspring lands in the trace.
#[verifier::spinoff_prover]
#[verifier::rlimit(80)]
fn breed_offspring(
    process: &mut BlackBox,
    candidates: &mut Vec<Candidate>,
    u: usize,
    crossover_num: u32,
    crossover_den: u32,
    Ghost(lo): Ghost<int>,
)
    requires
        old(process).wf(),
        1 <= u <= old(candidates)@.len(),
        crossover_den >= 1,
        crossover_num <= crossover_den,
        all_wf(old(candidates)@, old(process).instance),
        0 <= lo <= old(process).evaluated@.len(),
        forall|e: int|
            lo <= e < old(process).evaluated@.len() ==> dominated_entry_upto(
                old(candidates)@,
                u as int,
                #[trigger] old(process).evaluated@[e],
            ),
    ensures
        final(process).wf(),
        old(process).same_run(*final(process)),
        final(process).termination_counter == old(process).termination_counter,
        final(candidates)@.len() == old(candidates)@.len(),
        forall|w: int| 0 <= w < u ==> #[trigger] final(candidates)@[w] == old(candidates)@[w],
        all_wf(final(candidates)@, old(process).instance),
        final(process).evaluated@.len() == old(process).evaluated@.len() + (old(candidates)@.len()
            - u),
        final(process).evaluated@.take(old(process).evaluated@.len() as int) == old(process).evaluated@,
        forall|e: int|
            lo <= e < final(process).evaluated@.len() ==> dominated_entry_upto(
                final(candidates)@,
                final(candidates)@.len() as int,
                #[trigger] final(process).evaluated@[e],
            ),
{
    let ghost inst = process.instance;
    let ghost ev_gen = process.evaluated@;
    let length = candidates.len();
    let mut p1: usize = 0;
    let mut i = u;
    while i < length
        invariant
            process.wf(),
            process.instance == inst,
            old(process).same_run(*process),
            process.termination_counter == old(process).termination_counter,
            1 <= u <= length,
            u <= i <= length,
            p1 < u,
            crossover_den >= 1,
            crossover_num <= crossover_den,
            candidates@.len() == length,
            forall|w: int| 0 <= w < u ==> #[trigger] candidates@[w] == old(candidates)@[w],
            all_wf(candidates@, inst),
            0 <= lo <= ev_gen.len(),
            ev_gen == old(process).evaluated@,
            process.evaluated@.len() == ev_gen.len() + (i - u),
            process.evaluated@.take(ev_gen.len() as int) == ev_gen,
            forall|e: int|
                lo <= e < process.evaluated@.len() ==> dominated_entry_upto(
                    candidates@,
                    i as int,
                    #[trigger] process.evaluated@[e],
                ),
        decreases length - i,
    {
        let ghost ev_head = process.evaluated@;
        let cross = u >= 2 && rand_ratio(&mut process.random, crossover_num, crossover_den);
        let child = if cross {
            let r = rand_below(&mut process.random, u - 1);
            let p2 = if r >= p1 {
                r + 1
            } else {
                r
            };
            process.apply_binary(&candidates[p1], &candidates[p2])
        } else {
            process.apply_nswap(&candidates[p1])
        };
        let ghost before_set = candidates@;
        candidates.set(i, child);
        proof {
            assert(process.evaluated@ == ev_head.push(child.makespan));
            assert(process.evaluated@.take(ev_gen.len() as int) =~= ev_gen);
            lemma_offspring_witnesses(
                before_set,
                candidates@,
                ev_head,
                process.evaluated@,
                lo,
                i as int,
                child,
            );
        }
        p1 = (p1 + 1) % u;
        i += 1;
    }
    proof {
        assert forall|e: int|
            lo <= e < process.evaluated@.len() implies dominated_entry_upto(
            candidates@,
            candidates@.len() as int,
            #[trigger] process.evaluated@[e],
        ) by {
            assert(dominated_entry_upto(candidates@, length as int, process.evaluated@[e]));
        }
    }
}


/// One generation's survivor selection: sort the population, record the
/// generation best in the history, keep up to `mu` survivors by clearing,
/// and shuffle their order.  Returns the survivor count; the survivor
/// prefix dominates everything the trace recorded since `lo`.
#[verifier::spinoff_prover]
#[verifier::rlimit(80)]
fn select_survivors(
    process: &mut BlackBox,
    candidates: &mut Vec<Candidate>,
    mu: usize,
    Ghost(lo): Ghost<int>,
) -> (u: usize)
    requires
        old(process).wf(),
        mu >= 1,
        old(candidates)@.len() >= 1,
        all_wf(old(candidates)@, old(process).instance),
        0 <= lo <= old(process).evaluated@.len(),
        population_dominates(old(candidates)@, old(process).evaluated@, lo),
        old(process).history@.len() > 0 ==> exists|i: int|
            0 <= i < old(candidates)@.len() && (#[trigger] old(candidates)@[i]).makespan <= old(process).history@.last().1,
    ensures
        final(process).wf(),
        final(process).instance == old(process).instance,
        final(process).metaheuristic == old(process).metaheuristic,
        final(process).start_millis == old(process).start_millis,
        final(process).end_millis == old(process).end_millis,
        final(process).termination_counter == old(process).termination_counter,
        final(process).best_candidate == old(process).best_candidate,
        final(process).evaluated == old(process).evaluated,
        final(process).lower_bound == old(process).lower_bound,
        final(process).upper_bound == old(process).upper_bound,
        1 <= u <= mu,
        u <= final(candidates)@.len(),
        final(candidates)@.len() == old(candidates)@.len(),
        all_wf(final(candidates)@, old(process).instance),
        final(process).history@.len() >= 1,
        exists|w: int|
            0 <= w < u && (#[trigger] final(candidates)@[w]).makespan <= final(process).history@.last().1,
        forall|e: int|
            lo <= e < final(process).evaluated@.len() ==> dominated_entry_upto(
                final(candidates)@,
                u as int,
                #[trigger] final(process).evaluated@[e],
            ),
{
    let ghost inst = process.instance;
    let ghost before_sort = candidates@;
    sort_by_makespan(candidates);
    proof {
        lemma_all_wf_same_multiset(before_sort, candidates@, inst);
        lemma_witnesses_multiset(before_sort, candidates@, process.evaluated@, lo);
        lemma_sorted_head_dominates(candidates@, process.evaluated@, lo);
        if process.history@.len() > 0 {
            let wit = choose|i: int|
                0 <= i < before_sort.len() && before_sort[i].makespan
                    <= process.history@.last().1;
            assert(candidates@.to_multiset().count(before_sort[wit]) > 0);
            assert(candidates@.contains(before_sort[wit]));
            let wit2 = choose|i: int|
                0 <= i < candidates@.len() && candidates@[i] == before_sort[wit];
            assert(candidates@[0].makespan <= candidates@[wit2].makespan);
        }
    }
    let generation_best = &candidates[0];
    process.update_history(generation_best);
    proof {
        assert(process.history@.last().1 >= candidates@[0].makespan);
    }
    let ghost head = candidates@[0];
    let ghost before_clear = candidates@;
    let u = find_clear_length(candidates, mu);
    proof {
        lemma_all_wf_same_multiset(before_clear, candidates@, inst);
        lemma_witnesses_multiset(before_clear, candidates@, process.evaluated@, lo);
        assert(candidates@[0] == before_clear[0]);
    }
    let ghost before_shuffle = candidates@;
    shuffle_prefix(&mut process.random, candidates, u);
    proof {
        lemma_all_wf_shuffle(before_shuffle, candidates@, u as int, inst);
        lemma_full_multiset_from_prefix(before_shuffle, candidates@, u as int);
        lemma_witnesses_multiset(before_shuffle, candidates@, process.evaluated@, lo);
        assert(before_shuffle.subrange(0, u as int)[0] == before_shuffle[0]);
        assert(before_shuffle.subrange(0, u as int).contains(before_shuffle[0]));
        assert(candidates@.subrange(0, u as int).to_multiset().count(before_shuffle[0]) > 0);
        assert(candidates@.subrange(0, u as int).contains(before_shuffle[0]));
        let w = choose|w: int|
            0 <= w < u && candidates@.subrange(0, u as int)[w] == before_shuffle[0];
        assert(candidates@[w] == before_shuffle[0]);
        assert(candidates@[w].makespan <= process.history@.last().1);
        assert(candidates@[w] == head);
        assert forall|e: int|
            lo <= e < process.evaluated@.len() implies candidates@[w].makespan <= #[trigger]
            process.evaluated@[e] by {
            assert(head.makespan <= process.evaluated@[e]);
        }
        lemma_head_witness_to_prefix(candidates@, process.evaluated@, lo, u as int, w);
    }
    u
}

impl Genetic {
    /// Builds the strategy around a fresh oracle.
    pub fn new(instance: &Instance, seed: u64) -> (r: Genetic)
        requires
            instance.wf(),
        ensures
            r.process.wf(),
            r.process.history_consistent(),
            r.process.instance.same_problem(*instance),
    {
        Genetic { process: BlackBox::new(instance.clone(), "genetic with clearing", seed) }
    }

    /// Runs the search to termination (iteration-count based).  Each
    /// generation sorts the population, records the generation best, keeps
    /// up to `mu` survivors by clearing, shuffles their order, and refills
    /// the remaining slots with offspring: with probability
    /// `crossover_num/crossover_den` a crossover of two distinct survivors
    /// (when two exist), otherwise a multi-swap mutation, drawing the first
    /// parent round-robin.
    #[verifier::spinoff_prover]
    #[verifier::rlimit(80)]
    pub fn solve(
        self,
        crossover_num: u32,
        crossover_den: u32,
        mu: usize,
        lambda: usize,
    ) -> (bb: BlackBox)
        requires
            self.process.wf(),
            self.process.history@.len() == 0,
            mu >= 1,
            mu + lambda <= usize::MAX,
            crossover_den >= 1,
            crossover_num <= crossover_den,
        ensures
            bb.wf(),
            bb.instance == self.process.instance,
            bb.history@.len() >= 1,
            bb.history@.last().1 == bb.best_candidate.makespan,
            bb.lower_bound <= bb.best_candidate.makespan <= bb.upper_bound,
            bb.evaluated@.len() >= self.process.evaluated@.len(),
            bb.evaluated@.take(self.process.evaluated@.len() as int) == self.process.evaluated@,
            forall|i: int|
                self.process.evaluated@.len() <= i < bb.evaluated@.len() ==> #[trigger] bb.evaluated@[i]
                    >= bb.best_candidate.makespan,
            self.process.termination_counter == 0 && self.process.instance.termination_limit >= 1
                ==> {
                &&& bb.termination_counter == self.process.instance.termination_limit
                &&& bb.evaluated@.len() >= self.process.evaluated@.len() + (mu + lambda) + (
                self.process.instance.termination_limit - 1) * lambda
            },
    {
        let mut process = self.process;
        let ghost inst = process.instance;
        let ghost base = process.evaluated@;
        let ghost lo = base.len() as int;
        let ghost counted = process.termination_counter == 0 && inst.termination_limit >= 1;
        let length = mu + lambda;
        let mut candidates: Vec<Candidate> = Vec::new();
        let mut filled: usize = 0;
        while filled < length
            invariant
                process.wf(),
                process.instance == inst,
                process.history@.len() == 0,
                process.termination_counter == self.process.termination_counter,
                candidates@.len() == filled,
                filled <= length,
                all_wf(candidates@, inst),
                base == self.process.evaluated@,
                lo == base.len() as int,
                process.evaluated@.len() == base.len() + filled,
                process.evaluated@.take(lo) == base,
                population_dominates(candidates@, process.evaluated@, lo),
            decreases length - filled,
        {
            let ghost ev0 = process.evaluated@;
            let ghost cand0 = candidates@;
            let c = process.apply_nullary();
            candidates.push(c);
            proof {
                let ev2 = process.evaluated@;
                assert(ev2.take(lo) =~= base);
                assert(ev2[ev0.len() as int] == c.makespan);
                assert(candidates@[filled as int] == c);
                assert forall|e: int| lo <= e < ev2.len() implies dominated_entry(
                    candidates@,
                    #[trigger] ev2[e],
                ) by {
                    if e < ev0.len() {
                        assert(ev2[e] == ev0[e]);
                        assert(dominated_entry(cand0, ev0[e]));
                        let w = choose|w: int|
                            0 <= w < cand0.len() && (#[trigger] cand0[w]).makespan <= ev0[e];
                        assert(candidates@[w] == cand0[w]);
                    } else {
                        assert(candidates@[filled as int].makespan <= ev2[e]);
                    }
                }
            }
            filled += 1;
        }
        let mut done = process.should_terminate_counter();
        while !done
            invariant
                process.wf(),
                process.instance == inst,
                mu >= 1,
                length == mu + lambda,
                crossover_den >= 1,
                crossover_num <= crossover_den,
                candidates@.len() == length,
                all_wf(candidates@, inst),
                process.history@.len() > 0 ==> exists|i: int|
                    0 <= i < candidates@.len() && (#[trigger] candidates@[i]).makespan
                        <= process.history@.last().1,
                !done ==> process.termination_counter < usize::MAX,
                base == self.process.evaluated@,
                lo == base.len() as int,
                counted == (self.process.termination_counter == 0 && inst.termination_limit >= 1),
                process.evaluated@.len() >= base.len(),
                process.evaluated@.take(lo) == base,
                population_dominates(candidates@, process.evaluated@, lo),
                counted ==> {
                    &&& 1 <= process.termination_counter <= inst.termination_limit
                    &&& done == (process.termination_counter >= inst.termination_limit)
                    &&& process.evaluated@.len() >= base.len() + length + (
                    process.termination_counter - 1) * (lambda as int)
                },
            decreases usize::MAX - process.termination_counter,
        {
            let ghost counter1g = process.termination_counter;
            let u = select_survivors(&mut process, &mut candidates, mu, Ghost(lo));
            let ghost survivors = candidates@;
            breed_offspring(&mut process, &mut candidates, u, crossover_num, crossover_den, Ghost(lo));
            proof {
                lemma_upto_full(candidates@, process.evaluated@, lo);
                assert(process.evaluated@.take(lo) =~= base);
                if process.history@.len() > 0 {
                    let w = choose|w: int|
                        0 <= w < u && survivors[w].makespan <= process.history@.last().1;
                    assert(candidates@[w] == survivors[w]);
                }
                if counted {
                    assert((counter1g - 1) * (lambda as int) + lambda == counter1g * (
                    lambda as int)) by (nonlinear_arith);
                }
            }
            done = process.should_terminate_counter();
        }
        let ghost before_final = candidates@;
        sort_by_makespan(&mut candidates);
        proof {
            lemma_all_wf_same_multiset(before_final, candidates@, inst);
            lemma_witnesses_multiset(before_final, candidates@, process.evaluated@, lo);
            lemma_sorted_head_dominates(candidates@, process.evaluated@, lo);
            if process.history@.len() > 0 {
                let wit = choose|i: int|
                    0 <= i < before_final.len() && before_final[i].makespan
                        <= process.history@.last().1;
                assert(candidates@.to_multiset().count(before_final[wit]) > 0);
                assert(candidates@.contains(before_final[wit]));
                let wit2 = choose|i: int|
                    0 <= i < candidates@.len() && candidates@[i] == before_final[wit];
                assert(candidates@[0].makespan <= candidates@[wit2].makespan);
            }
        }
        let population_best = &candidates[0];
        process.update(population_best);
        proof {
            crate::bounds::lemma_oracle_best_within_bounds(process);
        }
        process.finalize()
    }
}

} // verus!
