//! The bounds estimator: one machine-based lower bound and one deliberately
//! loose upper bound per instance, both computed once per run.

use vstd::prelude::*;
use crate::instance::{Instance, job_machine, job_dur, job_prefix_total, job_total,
    jobs_prefix_total, jobs_total, job_wf, jobs_wf, vjobs, lemma_job_prefix_total_mono,
    lemma_job_prefix_total_nonneg, lemma_count_machine_nonneg};
use crate::schedule::{spec_max, DecodeState, decode, decode_prefix, step_state, init_state,
    machine_ops, dispatched_total, max_time_upto, spec_makespan, lemma_decode_prefix_inv,
    lemma_decode_complete, lemma_step_inv, lemma_machine_ops_update, lemma_machine_ops_complete,
    lemma_init_inv};
use crate::ordering::{valid_ordering, lemma_valid_ordering_elems,
    lemma_valid_ordering_prefix_count, lemma_occurrences_take_step};

verus! {

/// The smaller of two numbers.
pub open spec fn spec_min(a: int, b: int) -> int {
    if a <= b {
        a
    } else {
        b
    }
}

/// Processing time job `job` accumulates before reaching machine `k`,
/// scanning from operation `q` on.
pub open spec fn head_from(job: Seq<usize>, m: int, k: int, q: int) -> int
    decreases m - q,
{
    if q >= m || q < 0 {
        0
    } else if job_machine(job, q) == k {
        0
    } else {
        job_dur(job, q) + head_from(job, m, k, q + 1)
    }
}

/// Processing time job `job` accumulates before reaching machine `k`.
pub open spec fn head_of(job: Seq<usize>, m: int, k: int) -> int {
    head_from(job, m, k, 0)
}

/// The duration of job `job`'s operation on machine `k`.
pub open spec fn dur_from(job: Seq<usize>, m: int, k: int, q: int) -> int
    decreases m - q,
{
    if q >= m || q < 0 {
        0
    } else if job_machine(job, q) == k {
        job_dur(job, q)
    } else {
        dur_from(job, m, k, q + 1)
    }
}

/// The duration of job `job`'s operation on machine `k`.
pub open spec fn dur_on(job: Seq<usize>, m: int, k: int) -> int {
    dur_from(job, m, k, 0)
}

/// Processing time job `job` still needs after leaving machine `k`.
pub open spec fn tail_of(job: Seq<usize>, m: int, k: int) -> int {
    job_total(job, m) - head_of(job, m, k) - dur_on(job, m, k)
}

/// Total processing time assigned to machine `k` over the first `upto` jobs.
pub open spec fn t_of(js: Seq<Seq<usize>>, m: int, k: int, upto: int) -> int
    decreases upto,
{
    if upto <= 0 {
        0
    } else {
        t_of(js, m, k, upto - 1) + dur_on(js[upto - 1], m, k)
    }
}

/// Minimum, over the first `upto` jobs, of the processing time accumulated
/// before reaching machine `k`.
pub open spec fn a_of(js: Seq<Seq<usize>>, m: int, k: int, upto: int) -> int
    decreases upto,
{
    if upto <= 1 {
        head_of(js[0], m, k)
    } else {
        spec_min(a_of(js, m, k, upto - 1), head_of(js[upto - 1], m, k))
    }
}

/// Minimum, over the first `upto` jobs, of the processing time remaining
/// after leaving machine `k`.
pub open spec fn b_of(js: Seq<Seq<usize>>, m: int, k: int, upto: int) -> int
    decreases upto,
{
    if upto <= 1 {
        tail_of(js[0], m, k)
    } else {
        spec_min(b_of(js, m, k, upto - 1), tail_of(js[upto - 1], m, k))
    }
}

/// The machine-based relaxation bound of machine `k`: no schedule can beat
/// the earliest any job reaches `k`, plus all of `k`'s work, plus the
/// shortest tail after `k`.
pub open spec fn machine_bound(js: Seq<Seq<usize>>, n: int, m: int, k: int) -> int {
    a_of(js, m, k, n) + b_of(js, m, k, n) + t_of(js, m, k, n)
}

/// The longest single-job total among the first `upto` jobs.
pub open spec fn max_job_total(js: Seq<Seq<usize>>, m: int, upto: int) -> int
    decreases upto,
{
    if upto <= 0 {
        0
    } else {
        spec_max(max_job_total(js, m, upto - 1), job_total(js[upto - 1], m))
    }
}

/// The largest machine bound among the first `upto_k` machines.
pub open spec fn max_machine_bound(js: Seq<Seq<usize>>, n: int, m: int, upto_k: int) -> int
    decreases upto_k,
{
    if upto_k <= 1 {
        machine_bound(js, n, m, 0)
    } else {
        spec_max(max_machine_bound(js, n, m, upto_k - 1), machine_bound(js, n, m, upto_k - 1))
    }
}

/// The lower bound: the longest job total or the largest machine bound,
/// whichever is greater.
pub open spec fn spec_lower_bound(js: Seq<Seq<usize>>, n: int, m: int) -> int {
    spec_max(max_job_total(js, m, n), max_machine_bound(js, n, m, m))
}

/// The upper bound: the sum of every job's total processing time — the
/// makespan of running everything back to back.  Deliberately loose.
pub open spec fn spec_upper_bound(js: Seq<Seq<usize>>, m: int) -> int {
    jobs_total(js, m)
}

/// `head_from` only sums durations of the job, so it never exceeds the
/// job's remaining total and is never negative.
pub proof fn lemma_head_from_bounds(job: Seq<usize>, m: int, k: int, q: int)
    requires
        0 <= q <= m,
    ensures
        0 <= head_from(job, m, k, q),
        job_prefix_total(job, q) + head_from(job, m, k, q) <= job_total(job, m),
    decreases m - q,
{
    if q >= m {
        lemma_job_prefix_total_mono(job, q, m);
    } else if job_machine(job, q) == k {
        lemma_job_prefix_total_mono(job, q, m);
    } else {
        lemma_head_from_bounds(job, m, k, q + 1);
        assert(job_prefix_total(job, q + 1) == job_prefix_total(job, q) + job_dur(job, q));
    }
}

/// `dur_from` picks one duration of the job, so it is bounded the same way.
pub proof fn lemma_dur_from_bounds(job: Seq<usize>, m: int, k: int, q: int)
    requires
        0 <= q <= m,
    ensures
        0 <= dur_from(job, m, k, q),
        job_prefix_total(job, q) + dur_from(job, m, k, q) <= job_total(job, m),
    decreases m - q,
{
    if q >= m {
        lemma_job_prefix_total_mono(job, q, m);
    } else if job_machine(job, q) == k {
        lemma_job_prefix_total_mono(job, q + 1, m);
        assert(job_prefix_total(job, q + 1) == job_prefix_total(job, q) + job_dur(job, q));
    } else {
        lemma_dur_from_bounds(job, m, k, q + 1);
        assert(job_prefix_total(job, q + 1) == job_prefix_total(job, q) + job_dur(job, q));
    }
}

/// Head plus own duration never exceeds the job total, so the tail is
/// non-negative; and each part is below the job total.
pub proof fn lemma_head_dur_tail(job: Seq<usize>, m: int, k: int, q: int)
    requires
        0 <= q <= m,
    ensures
        head_from(job, m, k, q) + dur_from(job, m, k, q) + job_prefix_total(job, q) <= job_total(
            job,
            m,
        ),
        0 <= head_from(job, m, k, q),
        0 <= dur_from(job, m, k, q),
    decreases m - q,
{
    if q >= m {
        lemma_job_prefix_total_mono(job, q, m);
    } else if job_machine(job, q) == k {
        lemma_head_from_bounds(job, m, k, q);
        lemma_dur_from_bounds(job, m, k, q);
    } else {
        lemma_head_dur_tail(job, m, k, q + 1);
        assert(job_prefix_total(job, q + 1) == job_prefix_total(job, q) + job_dur(job, q));
    }
}

/// The tail after any machine is non-negative.
pub proof fn lemma_tail_nonneg(job: Seq<usize>, m: int, k: int)
    requires
        0 <= m,
    ensures
        0 <= tail_of(job, m, k),
        head_of(job, m, k) + dur_on(job, m, k) + tail_of(job, m, k) == job_total(job, m),
{
    lemma_head_dur_tail(job, m, k, 0);
}

/// The sum over the other jobs' durations on `k` is bounded by the sum of
/// their totals.
pub proof fn lemma_t_of_le(js: Seq<Seq<usize>>, m: int, k: int, upto: int)
    requires
        0 <= m,
    ensures
        0 <= t_of(js, m, k, upto) <= jobs_prefix_total(js, m, upto),
    decreases upto,
{
    if upto > 0 {
        lemma_t_of_le(js, m, k, upto - 1);
        lemma_dur_from_bounds(js[upto - 1], m, k, 0);
        lemma_job_prefix_total_nonneg(js[upto - 1], m);
    }
}

/// The minimum head over jobs is bounded by the first job's head; same for
/// tails; both are non-negative.
pub proof fn lemma_ab_bounds(js: Seq<Seq<usize>>, m: int, k: int, upto: int)
    requires
        0 <= m,
        1 <= upto,
    ensures
        0 <= a_of(js, m, k, upto) <= head_of(js[0], m, k),
        0 <= b_of(js, m, k, upto) <= tail_of(js[0], m, k),
    decreases upto,
{
    lemma_head_dur_tail(js[0], m, k, 0);
    if upto > 1 {
        lemma_ab_bounds(js, m, k, upto - 1);
        lemma_head_dur_tail(js[upto - 1], m, k, 0);
    }
}

/// Every machine bound is at most the sum of all job totals, so the lower
/// bound fits wherever the upper bound fits.
pub proof fn lemma_machine_bound_le_total(js: Seq<Seq<usize>>, n: int, m: int, k: int)
    requires
        0 <= m,
        1 <= n,
        n == js.len(),
    ensures
        0 <= machine_bound(js, n, m, k) <= jobs_total(js, m),
{
    lemma_ab_bounds(js, m, k, n);
    lemma_t_of_le(js, m, k, n);
    lemma_tail_nonneg(js[0], m, k);
    lemma_t_of_split_first(js, m, k, n);
    lemma_dur_from_bounds(js[0], m, k, 0);
    assert(a_of(js, m, k, n) + b_of(js, m, k, n) <= job_total(js[0], m) - dur_on(js[0], m, k));
    lemma_jobs_total_split_first(js, m, n);
}

/// Splitting the machine-time sum at the first job.
proof fn lemma_t_of_split_first(js: Seq<Seq<usize>>, m: int, k: int, upto: int)
    requires
        0 <= m,
        1 <= upto,
    ensures
        t_of(js, m, k, upto) <= dur_on(js[0], m, k) + jobs_prefix_total_from(js, m, 1, upto),
    decreases upto,
{
    if upto == 1 {
        assert(t_of(js, m, k, 0) == 0);
        assert(jobs_prefix_total_from(js, m, 1, 1) == 0);
    } else {
        lemma_t_of_split_first(js, m, k, upto - 1);
        lemma_dur_from_bounds(js[upto - 1], m, k, 0);
        lemma_job_prefix_total_nonneg(js[upto - 1], m);
        assert(jobs_prefix_total_from(js, m, 1, upto) == jobs_prefix_total_from(js, m, 1, upto - 1)
            + job_total(js[upto - 1], m));
    }
}

/// The sum of job totals over jobs `from..upto`.
pub open spec fn jobs_prefix_total_from(js: Seq<Seq<usize>>, m: int, from: int, upto: int) -> int
    decreases upto - from,
{
    if upto <= from {
        0
    } else {
        jobs_prefix_total_from(js, m, from, upto - 1) + job_total(js[upto - 1], m)
    }
}

/// The full prefix sum splits at the first job.
proof fn lemma_jobs_total_split_first(js: Seq<Seq<usize>>, m: int, upto: int)
    requires
        1 <= upto,
    ensures
        jobs_prefix_total(js, m, upto) == job_total(js[0], m) + jobs_prefix_total_from(
            js,
            m,
            1,
            upto,
        ),
    decreases upto,
{
    if upto > 1 {
        lemma_jobs_total_split_first(js, m, upto - 1);
        assert(jobs_prefix_total_from(js, m, 1, upto) == jobs_prefix_total_from(js, m, 1, upto - 1)
            + job_total(js[upto - 1], m));
    } else {
        assert(jobs_prefix_total(js, m, 0) == 0);
        assert(jobs_prefix_total_from(js, m, 1, 1) == 0);
        assert(jobs_prefix_total(js, m, 1) == jobs_prefix_total(js, m, 0) + job_total(js[0], m));
    }
}

/// Computes the machine-based lower bound of the instance.
pub fn find_lower_bound(instance: &Instance) -> (r: usize)
    requires
        instance.wf(),
    ensures
        r as int == spec_lower_bound(instance.js(), instance.n as int, instance.m as int),
{
    let n = instance.n;
    let m = instance.m;
    let ghost js = instance.js();

    let mut a: Vec<usize> = vec![0; m];
    let mut b: Vec<usize> = vec![0; m];
    let mut t: Vec<usize> = vec![0; m];

    proof {
        lemma_jobs_prefix_mono_total(js, m as int, 0, n as int);
    }
    let mut bound: usize = 0;
    let mut j: usize = 0;
    while j < n
        invariant
            instance.wf(),
            n == instance.n,
            m == instance.m,
            js == instance.js(),
            j <= n,
            a@.len() == m,
            b@.len() == m,
            t@.len() == m,
            bound as int == max_job_total(js, m as int, j as int),
            bound as int <= jobs_total(js, m as int),
            forall|k: int|
                0 <= k < m && j >= 1 ==> (#[trigger] a@[k]) as int == a_of(js, m as int, k, j as int),
            forall|k: int|
                0 <= k < m && j >= 1 ==> (#[trigger] b@[k]) as int == b_of(js, m as int, k, j as int),
            forall|k: int|
                0 <= k < m ==> (#[trigger] t@[k]) as int == t_of(js, m as int, k, j as int),
        decreases n - j,
    {
        let ghost old_a = a@;
        let ghost old_b = b@;
        let ghost old_t = t@;
        proof {
            assert(vjobs(instance.jobs@)[j as int] == instance.jobs@[j as int]@);
            lemma_jobs_prefix_mono_total(js, m as int, j as int, n as int);
        }
        let row_len = instance.jobs[j].len();
        assert(row_len == 2 * m);

        // The job's total processing time.
        let mut job_total_time: usize = 0;
        let mut q: usize = 0;
        while q < m
            invariant
                instance.wf(),
                n == instance.n,
                m == instance.m,
                js == instance.js(),
                j < n,
                q <= m,
                row_len == 2 * m,
                job_total_time as int == job_prefix_total(js[j as int], q as int),
                job_total_time as int <= jobs_total(js, m as int),
            decreases m - q,
        {
            proof {
                assert(vjobs(instance.jobs@)[j as int] == instance.jobs@[j as int]@);
                lemma_prefix_plus_dur(js, m as int, j as int, q as int, n as int);
            }
            let d = instance.jobs[j][2 * q + 1];
            job_total_time = job_total_time + d;
            q += 1;
        }
        if job_total_time > bound {
            bound = job_total_time;
        }

        // Walk the job's operations, folding its head times into `a`, its
        // tails into `b`, and its durations into `t`.
        let mut job_current_time: usize = 0;
        let mut q: usize = 0;
        while q < m
            invariant
                instance.wf(),
                n == instance.n,
                m == instance.m,
                js == instance.js(),
                j < n,
                q <= m,
                row_len == 2 * m,
                a@.len() == m,
                b@.len() == m,
                t@.len() == m,
                job_total_time as int == job_total(js[j as int], m as int),
                job_total_time as int <= jobs_total(js, m as int),
                job_current_time as int == job_prefix_total(js[j as int], q as int),
                job_current_time as int <= job_total_time as int,
                forall|k: int|
                    0 <= k < m ==> (#[trigger] a@[k]) as int == (if seen_machine(
                        js[j as int],
                        k,
                        q as int,
                    ) {
                        if j == 0 {
                            head_of(js[j as int], m as int, k)
                        } else {
                            spec_min(a_of(js, m as int, k, j as int), head_of(js[j as int], m as int, k))
                        }
                    } else {
                        if j == 0 {
                            old_a[k] as int
                        } else {
                            a_of(js, m as int, k, j as int)
                        }
                    }),
                forall|k: int|
                    0 <= k < m ==> (#[trigger] b@[k]) as int == (if seen_machine(
                        js[j as int],
                        k,
                        q as int,
                    ) {
                        if j == 0 {
                            tail_of(js[j as int], m as int, k)
                        } else {
                            spec_min(b_of(js, m as int, k, j as int), tail_of(js[j as int], m as int, k))
                        }
                    } else {
                        if j == 0 {
                            old_b[k] as int
                        } else {
                            b_of(js, m as int, k, j as int)
                        }
                    }),
                forall|k: int|
                    0 <= k < m ==> (#[trigger] t@[k]) as int == t_of(js, m as int, k, j as int)
                        + (if seen_machine(js[j as int], k, q as int) {
                        dur_on(js[j as int], m as int, k)
                    } else {
                        0int
                    }),
            decreases m - q,
        {
            proof {
                assert(vjobs(instance.jobs@)[j as int] == instance.jobs@[j as int]@);
                assert(job_wf(js[j as int], m as int));
            }
            let machine = instance.jobs[j][2 * q];
            let time = instance.jobs[j][2 * q + 1];
            proof {
                assert(machine as int == job_machine(js[j as int], q as int));
                assert(time as int == job_dur(js[j as int], q as int));
                assert(0 <= job_machine(js[j as int], q as int) < m);
            }
            assert(machine < m);
            proof {
                let row = js[j as int];
                let mi = machine as int;
                lemma_seen_unique(row, m as int, mi, q as int);
                lemma_seen_head(row, m as int, mi, q as int);
                lemma_seen_dur(row, m as int, mi, q as int);
                lemma_tail_nonneg(row, m as int, mi);
                lemma_t_of_le(js, m as int, mi, j as int);
                lemma_jobs_prefix_mono_total(js, m as int, j as int, n as int);
                lemma_jobs_prefix_mono_total(js, m as int, (j + 1) as int, n as int);
                assert(jobs_prefix_total(js, m as int, (j + 1) as int) == jobs_prefix_total(
                    js,
                    m as int,
                    j as int,
                ) + job_total(row, m as int));
                lemma_dur_from_bounds(row, m as int, mi, 0);
                assert(job_prefix_total(row, (q + 1) as int) == job_prefix_total(row, q as int)
                    + job_dur(row, q as int));
                assert(job_prefix_total(row, q as int) == head_of(row, m as int, mi));
                assert(job_prefix_total(row, (q + 1) as int) <= job_total(row, m as int));
                if j >= 1 {
                    lemma_ab_bounds(js, m as int, mi, j as int);
                    lemma_head_dur_tail(js[0], m as int, mi, 0);
                }
            }
            let a_k = a[machine];
            let new_a = if j == 0 {
                job_current_time
            } else if job_current_time < a_k {
                job_current_time
            } else {
                a_k
            };
            a.set(machine, new_a);

            let t_k = t[machine];
            t.set(machine, t_k + time);

            job_current_time = job_current_time + time;

            let b_k = b[machine];
            let this_tail = job_total_time - job_current_time;
            let new_b = if j == 0 {
                this_tail
            } else if this_tail < b_k {
                this_tail
            } else {
                b_k
            };
            b.set(machine, new_b);

            proof {
                lemma_seen_after(js[j as int], m as int, machine as int, q as int);
                assert(job_prefix_total(js[j as int], (q + 1) as int) == job_prefix_total(
                    js[j as int],
                    q as int,
                ) + job_dur(js[j as int], q as int));
                lemma_job_prefix_total_mono(js[j as int], (q + 1) as int, m as int);
                assert forall|k: int| 0 <= k < m && k != machine implies seen_machine(
                    js[j as int],
                    k,
                    (q + 1) as int,
                ) == seen_machine(js[j as int], k, q as int) by {
                }
            }
            q += 1;
        }
        proof {
            lemma_seen_all(js[j as int], m as int);
            assert forall|k: int| 0 <= k < m implies seen_machine(js[j as int], k, m as int) by {
            }
        }
        j += 1;
    }

    // Fold the per-machine bounds into the result.
    let mut r = bound;
    let mut k: usize = 0;
    while k < m
        invariant
            instance.wf(),
            n == instance.n,
            m == instance.m,
            js == instance.js(),
            k <= m,
            a@.len() == m,
            b@.len() == m,
            t@.len() == m,
            bound as int == max_job_total(js, m as int, n as int),
            bound as int <= jobs_total(js, m as int),
            forall|k2: int|
                0 <= k2 < m ==> (#[trigger] a@[k2]) as int == a_of(js, m as int, k2, n as int),
            forall|k2: int|
                0 <= k2 < m ==> (#[trigger] b@[k2]) as int == b_of(js, m as int, k2, n as int),
            forall|k2: int|
                0 <= k2 < m ==> (#[trigger] t@[k2]) as int == t_of(js, m as int, k2, n as int),
            r as int == (if k == 0 {
                bound as int
            } else {
                spec_max(bound as int, max_machine_bound(js, n as int, m as int, k as int))
            }),
            r as int <= jobs_total(js, m as int),
        decreases m - k,
    {
        proof {
            lemma_machine_bound_le_total(js, n as int, m as int, k as int);
            lemma_ab_bounds(js, m as int, k as int, n as int);
            lemma_t_of_le(js, m as int, k as int, n as int);
        }
        let mb = a[k] + b[k] + t[k];
        if mb > r {
            r = mb;
        }
        k += 1;
    }
    r
}

/// Whether machine `k` occurs among the first `q` operations of the job.
pub open spec fn seen_machine(job: Seq<usize>, k: int, q: int) -> bool
    decreases q,
{
    if q <= 0 {
        false
    } else {
        seen_machine(job, k, q - 1) || job_machine(job, q - 1) == k
    }
}

/// When machine `k` first appears at position `q`, the time accumulated so
/// far is exactly the head before `k`.
proof fn lemma_seen_head(job: Seq<usize>, m: int, k: int, q: int)
    requires
        0 <= q < m,
        job_machine(job, q) == k,
        !seen_machine(job, k, q),
    ensures
        head_of(job, m, k) == job_prefix_total(job, q),
{
    lemma_seen_is_between(job, k, q);
    lemma_seen_head_from(job, m, k, q, 0);
}

proof fn lemma_seen_head_from(job: Seq<usize>, m: int, k: int, q: int, s: int)
    requires
        0 <= s <= q < m,
        job_machine(job, q) == k,
        !seen_between(job, k, s, q),
    ensures
        head_from(job, m, k, s) == job_prefix_total(job, q) - job_prefix_total(job, s),
    decreases q - s,
{
    if s == q {
    } else {
        lemma_seen_head_from(job, m, k, q, s + 1);
        assert(job_prefix_total(job, s + 1) == job_prefix_total(job, s) + job_dur(job, s));
    }
}

/// Whether machine `k` occurs among operations `from..upto` of the job.
pub open spec fn seen_between(job: Seq<usize>, k: int, from: int, upto: int) -> bool
    decreases upto - from,
{
    if upto <= from {
        false
    } else {
        job_machine(job, from) == k || seen_between(job, k, from + 1, upto)
    }
}

/// The two "seen" notions agree.
proof fn lemma_seen_is_between(job: Seq<usize>, k: int, q: int)
    requires
        0 <= q,
    ensures
        seen_machine(job, k, q) == seen_between(job, k, 0, q),
    decreases q,
{
    if q > 0 {
        lemma_seen_is_between(job, k, q - 1);
        lemma_seen_between_push(job, k, 0, q);
    }
}

proof fn lemma_seen_between_push(job: Seq<usize>, k: int, from: int, upto: int)
    requires
        from < upto,
    ensures
        seen_between(job, k, from, upto) == (seen_between(job, k, from, upto - 1) || job_machine(
            job,
            upto - 1,
        ) == k),
    decreases upto - from,
{
    if from + 1 < upto {
        lemma_seen_between_push(job, k, from + 1, upto);
        assert(seen_between(job, k, from, upto) == (job_machine(job, from) == k || seen_between(
            job,
            k,
            from + 1,
            upto,
        )));
        assert(seen_between(job, k, from, upto - 1) == (job_machine(job, from) == k
            || seen_between(job, k, from + 1, upto - 1)));
    } else {
        assert(!seen_between(job, k, from + 1, upto));
        assert(!seen_between(job, k, from, upto - 1));
        assert(seen_between(job, k, from, upto) == (job_machine(job, from) == k || seen_between(
            job,
            k,
            from + 1,
            upto,
        )));
    }
}

/// When machine `k` first appears at position `q`, its duration there is
/// `dur_on`.
proof fn lemma_seen_dur(job: Seq<usize>, m: int, k: int, q: int)
    requires
        0 <= q < m,
        job_machine(job, q) == k,
        !seen_machine(job, k, q),
    ensures
        dur_on(job, m, k) == job_dur(job, q),
{
    lemma_seen_is_between(job, k, q);
    lemma_seen_dur_from(job, m, k, q, 0);
}

proof fn lemma_seen_dur_from(job: Seq<usize>, m: int, k: int, q: int, s: int)
    requires
        0 <= s <= q < m,
        job_machine(job, q) == k,
        !seen_between(job, k, s, q),
    ensures
        dur_from(job, m, k, s) == job_dur(job, q),
    decreases q - s,
{
    if s < q {
        lemma_seen_dur_from(job, m, k, q, s + 1);
    }
}

/// Passing an operation marks its machine as seen.
proof fn lemma_seen_after(job: Seq<usize>, m: int, k: int, q: int)
    requires
        0 <= q,
        job_machine(job, q) == k,
    ensures
        seen_machine(job, k, q + 1),
{
}

/// A well-formed job has every machine seen after all `m` operations.
proof fn lemma_seen_all(job: Seq<usize>, m: int)
    requires
        job_wf(job, m),
    ensures
        forall|k: int| 0 <= k < m ==> seen_machine(job, k, m),
{
    assert forall|k: int| 0 <= k < m implies seen_machine(job, k, m) by {
        assert(crate::instance::count_machine(job, k, m) == 1);
        lemma_count_seen(job, k, m);
    }
}

proof fn lemma_count_seen(job: Seq<usize>, k: int, q: int)
    requires
        crate::instance::count_machine(job, k, q) >= 1,
    ensures
        seen_machine(job, k, q),
    decreases q,
{
    if q > 0 {
        if job_machine(job, q - 1) == k {
        } else {
            lemma_count_seen(job, k, q - 1);
        }
    } else {
        crate::instance::lemma_count_machine_nonneg(job, k, q);
    }
}

proof fn lemma_seen_count(job: Seq<usize>, k: int, q: int)
    requires
        seen_machine(job, k, q),
    ensures
        crate::instance::count_machine(job, k, q) >= 1,
    decreases q,
{
    if q > 0 {
        crate::instance::lemma_count_machine_nonneg(job, k, q - 1);
        if job_machine(job, q - 1) == k {
        } else {
            lemma_seen_count(job, k, q - 1);
        }
    }
}

/// In a well-formed job, the machine of operation `q` has not been seen
/// among the earlier operations.
proof fn lemma_seen_unique(job: Seq<usize>, m: int, k: int, q: int)
    requires
        job_wf(job, m),
        0 <= q < m,
        job_machine(job, q) == k,
    ensures
        !seen_machine(job, k, q),
{
    if seen_machine(job, k, q) {
        lemma_seen_count(job, k, q);
        assert(crate::instance::count_machine(job, k, q + 1) >= 2);
        crate::instance::lemma_count_machine_monotone(job, k, q + 1, m);
        assert(crate::instance::count_machine(job, k, m) == 1);
        assert(false);
    }
}

/// The prefix of the job totals is monotone up to the full total.
proof fn lemma_jobs_prefix_mono_total(js: Seq<Seq<usize>>, m: int, j: int, n: int)
    requires
        0 <= j <= n,
        n == js.len(),
    ensures
        jobs_prefix_total(js, m, j) <= jobs_total(js, m),
        0 <= jobs_prefix_total(js, m, j),
{
    crate::instance::lemma_jobs_prefix_total_mono(js, m, j, n);
    crate::instance::lemma_jobs_prefix_total_mono(js, m, 0, j);
}

/// A job prefix plus its next duration stays within the sum of all totals.
proof fn lemma_prefix_plus_dur(js: Seq<Seq<usize>>, m: int, j: int, q: int, n: int)
    requires
        0 <= j < n,
        n == js.len(),
        0 <= q < m,
    ensures
        job_prefix_total(js[j], q) + job_dur(js[j], q) <= jobs_total(js, m),
        job_prefix_total(js[j], q) + job_dur(js[j], q) == job_prefix_total(js[j], q + 1),
{
    lemma_job_prefix_total_mono(js[j], q + 1, m);
    lemma_job_total_le_all(js, m, j, n);
}

/// One job's total is at most the sum of all totals.
proof fn lemma_job_total_le_all(js: Seq<Seq<usize>>, m: int, j: int, n: int)
    requires
        0 <= j < n,
        n == js.len(),
    ensures
        job_prefix_total(js[j], m) <= jobs_total(js, m),
{
    assert(jobs_prefix_total(js, m, j + 1) == jobs_prefix_total(js, m, j) + job_total(js[j], m));
    crate::instance::lemma_jobs_prefix_total_mono(js, m, j + 1, n);
    crate::instance::lemma_jobs_prefix_total_mono(js, m, 0, j);
    lemma_job_prefix_total_nonneg(js[j], m);
}

/// Computes the loose upper bound: the sum of all job totals.
pub fn find_upper_bound(instance: &Instance) -> (r: usize)
    requires
        instance.wf(),
    ensures
        r as int == spec_upper_bound(instance.js(), instance.m as int),
{
    let n = instance.n;
    let m = instance.m;
    let ghost js = instance.js();
    let mut acc: usize = 0;
    let mut j: usize = 0;
    while j < n
        invariant
            instance.wf(),
            n == instance.n,
            m == instance.m,
            js == instance.js(),
            j <= n,
            acc as int == jobs_prefix_total(js, m as int, j as int),
        decreases n - j,
    {
        let mut q: usize = 0;
        proof {
            assert(vjobs(instance.jobs@)[j as int] == instance.jobs@[j as int]@);
        }
        let row_len = instance.jobs[j].len();
        assert(row_len == 2 * m);
        while q < m
            invariant
                instance.wf(),
                n == instance.n,
                m == instance.m,
                js == instance.js(),
                j < n,
                q <= m,
                row_len == 2 * m,
                acc as int == jobs_prefix_total(js, m as int, j as int) + job_prefix_total(
                    js[j as int],
                    q as int,
                ),
            decreases m - q,
        {
            proof {
                assert(vjobs(instance.jobs@)[j as int] == instance.jobs@[j as int]@);
                lemma_prefix_plus_dur(js, m as int, j as int, q as int, n as int);
                lemma_jobs_prefix_mono_total(js, m as int, j as int, n as int);
                crate::instance::lemma_jobs_prefix_total_mono(js, m as int, (j + 1) as int, n as int);
                assert(jobs_prefix_total(js, m as int, (j + 1) as int) == jobs_prefix_total(
                    js,
                    m as int,
                    j as int,
                ) + job_total(js[j as int], m as int));
                lemma_job_prefix_total_mono(js[j as int], (q + 1) as int, m as int);
            }
            let d = instance.jobs[j][2 * q + 1];
            acc = acc + d;
            q += 1;
        }
        j += 1;
    }
    acc
}


/// Work already dispatched to machine `k`: the sum, over jobs whose
/// operation on `k` has been dispatched, of that operation's duration.
pub open spec fn done_on(js: Seq<Seq<usize>>, nx: Seq<int>, m: int, k: int, upto: int) -> int
    decreases upto,
{
    if upto <= 0 {
        0
    } else {
        done_on(js, nx, m, k, upto - 1) + if seen_machine(js[upto - 1], k, nx[upto - 1]) {
            dur_on(js[upto - 1], m, k)
        } else {
            0int
        }
    }
}

proof fn lemma_done_on_zero(js: Seq<Seq<usize>>, nx: Seq<int>, m: int, k: int, upto: int)
    requires
        forall|j: int| 0 <= j < upto ==> #[trigger] nx[j] == 0,
    ensures
        done_on(js, nx, m, k, upto) == 0,
    decreases upto,
{
    if upto > 0 {
        lemma_done_on_zero(js, nx, m, k, upto - 1);
    }
}

/// Dispatching job `j`'s operation on machine `k0` adds its duration to
/// `k0`'s dispatched work and nothing to any other machine's.
proof fn lemma_done_on_update(
    js: Seq<Seq<usize>>,
    nx: Seq<int>,
    m: int,
    k: int,
    j: int,
    upto: int,
)
    requires
        0 <= j < nx.len(),
        upto <= nx.len(),
        0 <= nx[j] < m,
        job_wf(js[j], m),
    ensures
        done_on(js, nx.update(j, nx[j] + 1), m, k, upto) == done_on(js, nx, m, k, upto) + if j
            < upto && job_machine(js[j], nx[j]) == k {
            dur_on(js[j], m, k)
        } else {
            0int
        },
    decreases upto,
{
    if upto > 0 {
        lemma_done_on_update(js, nx, m, k, j, upto - 1);
        if j == upto - 1 {
            if job_machine(js[j], nx[j]) == k {
                lemma_seen_unique(js[j], m, k, nx[j]);
                assert(seen_machine(js[j], k, nx[j] + 1));
            } else {
                assert(seen_machine(js[j], k, nx[j] + 1) == seen_machine(js[j], k, nx[j]));
            }
        }
    }
}

/// Once every job has dispatched everything, the dispatched work of machine
/// `k` is all of its assigned work.
proof fn lemma_done_on_complete(js: Seq<Seq<usize>>, nx: Seq<int>, m: int, k: int, upto: int)
    requires
        forall|j: int| 0 <= j < upto ==> #[trigger] nx[j] == m,
        forall|j: int| 0 <= j < upto ==> job_wf(#[trigger] js[j], m),
        0 <= k < m,
    ensures
        done_on(js, nx, m, k, upto) == t_of(js, m, k, upto),
    decreases upto,
{
    if upto > 0 {
        lemma_done_on_complete(js, nx, m, k, upto - 1);
        lemma_seen_all(js[upto - 1], m);
        assert(seen_machine(js[upto - 1], k, m));
    }
}

/// The minimum head is below every member's head; same for tails.
proof fn lemma_ab_of_member(js: Seq<Seq<usize>>, m: int, k: int, j: int, upto: int)
    requires
        0 <= j < upto,
    ensures
        a_of(js, m, k, upto) <= head_of(js[j], m, k),
        b_of(js, m, k, upto) <= tail_of(js[j], m, k),
    decreases upto,
{
    if upto > 1 && j < upto - 1 {
        lemma_ab_of_member(js, m, k, j, upto - 1);
    }
}

/// Every machine clock is below the running maximum.
proof fn lemma_max_time_ge(mt: Seq<int>, k: int, m: int)
    requires
        0 <= k < m,
    ensures
        mt[k] <= max_time_upto(mt, m),
    decreases m,
{
    if k < m - 1 {
        lemma_max_time_ge(mt, k, m - 1);
    }
}

/// A bound on every machine clock bounds the maximum.
proof fn lemma_max_time_le(mt: Seq<int>, m: int, bound: int)
    requires
        forall|k: int| 0 <= k < m ==> #[trigger] mt[k] <= bound,
        0 <= bound,
    ensures
        max_time_upto(mt, m) <= bound,
    decreases m,
{
    if m > 0 {
        lemma_max_time_le(mt, m - 1, bound);
    }
}

/// Raising one machine clock cannot lower the maximum.
proof fn lemma_max_time_update(mt: Seq<int>, m: int, k: int, v: int)
    requires
        0 <= k < mt.len(),
        m <= mt.len(),
        mt[k] <= v,
    ensures
        max_time_upto(mt, m) <= max_time_upto(mt.update(k, v), m),
    decreases m,
{
    if m > 0 {
        lemma_max_time_update(mt, m - 1, k, v);
    }
}

/// Once every job is fully dispatched, the dispatched total is the total of
/// all jobs.
proof fn lemma_dispatched_complete(js: Seq<Seq<usize>>, nx: Seq<int>, m: int, upto: int)
    requires
        forall|j: int| 0 <= j < upto ==> #[trigger] nx[j] == m,
    ensures
        dispatched_total(js, nx, upto) == jobs_prefix_total(js, m, upto),
    decreases upto,
{
    if upto > 0 {
        lemma_dispatched_complete(js, nx, m, upto - 1);
    }
}

/// A bound on every job total bounds the running maximum of job totals.
proof fn lemma_max_job_total_le(js: Seq<Seq<usize>>, m: int, upto: int, bound: int)
    requires
        forall|j: int| 0 <= j < upto ==> job_total(#[trigger] js[j], m) <= bound,
        0 <= bound,
    ensures
        max_job_total(js, m, upto) <= bound,
    decreases upto,
{
    if upto > 0 {
        lemma_max_job_total_le(js, m, upto - 1, bound);
    }
}

/// A bound on every machine bound bounds their running maximum.
proof fn lemma_max_machine_bound_le(js: Seq<Seq<usize>>, n: int, m: int, upto_k: int, bound: int)
    requires
        forall|k: int| 0 <= k < upto_k ==> #[trigger] machine_bound(js, n, m, k) <= bound,
        1 <= upto_k,
    ensures
        max_machine_bound(js, n, m, upto_k) <= bound,
    decreases upto_k,
{
    if upto_k > 1 {
        lemma_max_machine_bound_le(js, n, m, upto_k - 1, bound);
    }
}

/// Some job dispatched on machine `k` has run, since its operation there,
/// exactly the work its clock shows beyond the machine's clock.
pub open spec fn machine_witness(js: Seq<Seq<usize>>, n: int, m: int, st: DecodeState, k: int) -> bool {
    exists|j: int|
        {
            &&& 0 <= j < n
            &&& #[trigger] seen_machine(js[j], k, st.job_next[j])
            &&& st.job_time[j] >= st.machine_time[k] + (job_prefix_total(js[j], st.job_next[j])
                - head_of(js[j], m, k) - dur_on(js[j], m, k))
        }
}

/// The facts behind both bounds, maintained by every decoding step: job
/// clocks dominate the work their jobs have dispatched, all clocks sit
/// below the running maximum, each busy machine's clock covers the earliest
/// head plus its dispatched work, and each busy machine has a witness job.
pub open spec fn bound_inv(js: Seq<Seq<usize>>, n: int, m: int, st: DecodeState) -> bool {
    &&& forall|j: int|
        0 <= j < n ==> job_prefix_total(js[j], st.job_next[j]) <= #[trigger] st.job_time[j]
    &&& forall|j: int| 0 <= j < n ==> #[trigger] st.job_time[j] <= max_time_upto(st.machine_time, m)
    &&& forall|k: int|
        0 <= k < m && machine_ops(js, st.job_next, k, n) > 0 ==> #[trigger] st.machine_time[k]
            >= a_of(js, m, k, n) + done_on(js, st.job_next, m, k, n)
    &&& forall|k: int|
        0 <= k < m && machine_ops(js, st.job_next, k, n) > 0 ==> #[trigger] machine_witness(
            js,
            n,
            m,
            st,
            k,
        )
}

/// The bound facts hold after any prefix of a valid ordering.
proof fn lemma_decode_prefix_bound_inv(js: Seq<Seq<usize>>, n: int, m: int, order: Seq<usize>, i: int)
    requires
        jobs_wf(js, n, m),
        valid_ordering(order, n, m),
        0 <= i <= order.len(),
    ensures
        bound_inv(js, n, m, decode_prefix(js, n, m, order, i)),
    decreases i,
{
    assert(n <= n * m) by (nonlinear_arith)
        requires
            n >= 0,
            m >= 1,
    ;
    if i == 0 {
        lemma_init_inv(js, n, m);
        let st = init_state(n, m);
        assert forall|k: int| 0 <= k < m && machine_ops(js, st.job_next, k, n) > 0 implies
            #[trigger] st.machine_time[k] >= a_of(js, m, k, n) + done_on(js, st.job_next, m, k, n)
            by {
            assert(st.sched[k].len() == 3 * machine_ops(js, st.job_next, k, n));
            assert(false);
        }
        assert forall|k: int| 0 <= k < m && machine_ops(js, st.job_next, k, n) > 0 implies
            #[trigger] machine_witness(js, n, m, st, k) by {
            assert(st.sched[k].len() == 3 * machine_ops(js, st.job_next, k, n));
            assert(false);
        }
        assert forall|j: int| 0 <= j < n implies job_prefix_total(js[j], st.job_next[j])
            <= #[trigger] st.job_time[j] by {
            assert(st.job_next[j] == 0 && st.job_time[j] == 0);
        }
        assert forall|j: int| 0 <= j < n implies #[trigger] st.job_time[j] <= max_time_upto(
            st.machine_time,
            m,
        ) by {
            lemma_max_time_ge(st.machine_time, 0, m);
            assert(st.machine_time[0] == 0);
            assert(st.job_time[j] == 0);
        }
    } else {
        lemma_decode_prefix_bound_inv(js, n, m, order, i - 1);
        lemma_decode_prefix_inv(js, n, m, order, i - 1);
        let st = decode_prefix(js, n, m, order, i - 1);
        let v = order[i - 1];
        let j = v as int;
        lemma_valid_ordering_elems(order, n, m);
        lemma_valid_ordering_prefix_count(order, n, m, v, i);
        lemma_occurrences_take_step(order, v, i - 1);
        assert(st.job_next[j] < m);
        let q = st.job_next[j];
        let k0 = job_machine(js[j], q);
        let st2 = decode_prefix(js, n, m, order, i);
        assert(st2 == step_state(js, st, j));
        lemma_step_inv(js, n, m, st, j);
        let start = spec_max(st.machine_time[k0], st.job_time[j]);
        let dur = job_dur(js[j], q);
        let end = start + dur;

        assert(job_wf(js[j], m));
        lemma_seen_unique(js[j], m, k0, q);
        lemma_seen_head(js[j], m, k0, q);
        lemma_seen_dur(js[j], m, k0, q);
        assert(job_prefix_total(js[j], q) == head_of(js[j], m, k0));
        assert(dur == dur_on(js[j], m, k0));
        assert(job_prefix_total(js[j], q + 1) == job_prefix_total(js[j], q) + dur);

        // Job clocks keep dominating dispatched work.
        assert forall|j2: int| 0 <= j2 < n implies job_prefix_total(js[j2], st2.job_next[j2])
            <= #[trigger] st2.job_time[j2] by {
            if j2 == j {
                assert(st2.job_time[j] == end);
                assert(start >= st.job_time[j]);
            }
        }

        // All clocks stay below the (only grown) maximum.
        lemma_max_time_update(st.machine_time, m, k0, end);
        assert forall|j2: int| 0 <= j2 < n implies #[trigger] st2.job_time[j2] <= max_time_upto(
            st2.machine_time,
            m,
        ) by {
            if j2 == j {
                lemma_max_time_ge(st2.machine_time, k0, m);
                assert(st2.machine_time[k0] == end);
            } else {
                assert(st2.job_time[j2] == st.job_time[j2]);
            }
        }

        // Busy machines keep covering the earliest head plus their work.
        assert forall|k: int| 0 <= k < m && machine_ops(js, st2.job_next, k, n) > 0 implies
            #[trigger] st2.machine_time[k] >= a_of(js, m, k, n) + done_on(js, st2.job_next, m, k, n)
            by {
            lemma_machine_ops_update(js, st.job_next, j, k, n);
            lemma_done_on_update(js, st.job_next, m, k, j, n);
            if k == k0 {
                lemma_ab_of_member(js, m, k0, j, n);
                assert(start >= st.job_time[j] >= head_of(js[j], m, k0) >= a_of(js, m, k0, n));
                if machine_ops(js, st.job_next, k0, n) > 0 {
                    assert(st.machine_time[k0] >= a_of(js, m, k0, n) + done_on(
                        js,
                        st.job_next,
                        m,
                        k0,
                        n,
                    ));
                } else {
                    lemma_done_on_match_ops(js, st.job_next, m, k0, n);
                }
            } else {
                assert(st2.machine_time[k] == st.machine_time[k]);
            }
        }

        // Each busy machine keeps a witness job.
        assert forall|k: int| 0 <= k < m && machine_ops(js, st2.job_next, k, n) > 0 implies
            #[trigger] machine_witness(js, n, m, st2, k) by {
            lemma_machine_ops_update(js, st.job_next, j, k, n);
            if k == k0 {
                assert(seen_machine(js[j], k0, st2.job_next[j]));
                assert(st2.job_time[j] == end == st2.machine_time[k0]);
                assert(job_prefix_total(js[j], st2.job_next[j]) - head_of(js[j], m, k0) - dur_on(
                    js[j],
                    m,
                    k0,
                ) == 0);
                assert(0 <= j < n && seen_machine(js[j], k0, st2.job_next[j]) && st2.job_time[j]
                    >= st2.machine_time[k0] + (job_prefix_total(js[j], st2.job_next[j]) - head_of(
                    js[j],
                    m,
                    k0,
                ) - dur_on(js[j], m, k0)));
            } else {
                assert(machine_ops(js, st.job_next, k, n) > 0);
                assert(machine_witness(js, n, m, st, k));
                let jw = choose|jw: int|
                    {
                        &&& 0 <= jw < n
                        &&& #[trigger] seen_machine(js[jw], k, st.job_next[jw])
                        &&& st.job_time[jw] >= st.machine_time[k] + (job_prefix_total(
                            js[jw],
                            st.job_next[jw],
                        ) - head_of(js[jw], m, k) - dur_on(js[jw], m, k))
                    };
                if jw == j {
                    assert(seen_machine(js[j], k, q + 1) == seen_machine(js[j], k, q));
                    assert(st2.job_time[j] == end >= st.job_time[j] + dur);
                    assert(0 <= j < n && seen_machine(js[j], k, st2.job_next[j])
                        && st2.job_time[j] >= st2.machine_time[k] + (job_prefix_total(
                        js[j],
                        st2.job_next[j],
                    ) - head_of(js[j], m, k) - dur_on(js[j], m, k)));
                } else {
                    assert(st2.job_next[jw] == st.job_next[jw]);
                    assert(st2.job_time[jw] == st.job_time[jw]);
                    assert(st2.machine_time[k] == st.machine_time[k]);
                    assert(0 <= jw < n && seen_machine(js[jw], k, st2.job_next[jw])
                        && st2.job_time[jw] >= st2.machine_time[k] + (job_prefix_total(
                        js[jw],
                        st2.job_next[jw],
                    ) - head_of(js[jw], m, k) - dur_on(js[jw], m, k)));
                }
            }
        }
    }
}

/// No dispatched operations on a machine means no dispatched work there.
proof fn lemma_done_on_match_ops(js: Seq<Seq<usize>>, nx: Seq<int>, m: int, k: int, upto: int)
    requires
        machine_ops(js, nx, k, upto) == 0,
        forall|j: int| 0 <= j < upto ==> 0 <= #[trigger] nx[j],
        forall|j: int| 0 <= j < upto ==> job_wf(#[trigger] js[j], m),
        0 <= k < m,
    ensures
        done_on(js, nx, m, k, upto) == 0,
        machine_ops(js, nx, k, upto) == 0 ==> forall|j: int|
            0 <= j < upto ==> !seen_machine(js[j], k, #[trigger] nx[j]),
    decreases upto,
{
    if upto > 0 {
        lemma_count_machine_nonneg(js[upto - 1], k, nx[upto - 1]);
        crate::schedule::lemma_machine_ops_nonneg(js, nx, k, upto - 1);
        lemma_done_on_match_ops(js, nx, m, k, upto - 1);
        if seen_machine(js[upto - 1], k, nx[upto - 1]) {
            lemma_seen_count(js[upto - 1], k, nx[upto - 1]);
            assert(false);
        }
    }
}

/// Every decode of a valid ordering has its makespan between the instance's
/// lower and upper bound.
pub proof fn lemma_makespan_bounds(js: Seq<Seq<usize>>, n: int, m: int, order: Seq<usize>)
    requires
        jobs_wf(js, n, m),
        valid_ordering(order, n, m),
    ensures
        spec_lower_bound(js, n, m) <= spec_makespan(js, n, m, order),
        spec_makespan(js, n, m, order) <= spec_upper_bound(js, m),
{
    let st = decode(js, n, m, order);
    let len = order.len() as int;
    lemma_decode_complete(js, n, m, order);
    lemma_decode_prefix_bound_inv(js, n, m, order, len);
    let ms = spec_makespan(js, n, m, order);

    // Upper: every machine clock is bounded by the total work.
    lemma_dispatched_complete(js, st.job_next, m, n);
    assert(dispatched_total(js, st.job_next, n) == jobs_total(js, m));
    lemma_jobs_prefix_mono_total(js, m, 0, n);
    lemma_max_time_le(st.machine_time, m, jobs_total(js, m));
    assert(ms <= spec_upper_bound(js, m));

    // Lower, job part: every job ran all of its work in sequence.
    assert forall|j: int| 0 <= j < n implies job_total(#[trigger] js[j], m) <= ms by {
        assert(job_prefix_total(js[j], st.job_next[j]) <= st.job_time[j]);
        assert(st.job_next[j] == m);
        assert(st.job_time[j] <= max_time_upto(st.machine_time, m));
    }
    assert(0 <= ms) by {
        assert(job_total(js[0], m) <= ms);
        lemma_job_prefix_total_nonneg(js[0], m);
    }
    lemma_max_job_total_le(js, m, n, ms);

    // Lower, machine part: each machine's bound is covered by the witness
    // job's remaining tail after the machine's last operation.
    assert forall|k: int| 0 <= k < m implies #[trigger] machine_bound(js, n, m, k) <= ms by {
        lemma_machine_ops_complete(js, m, st.job_next, k, n);
        assert(machine_ops(js, st.job_next, k, n) == n > 0);
        lemma_done_on_complete(js, st.job_next, m, k, n);
        assert(st.machine_time[k] >= a_of(js, m, k, n) + t_of(js, m, k, n));
        assert(machine_witness(js, n, m, st, k));
        let jw = choose|jw: int|
            {
                &&& 0 <= jw < n
                &&& #[trigger] seen_machine(js[jw], k, st.job_next[jw])
                &&& st.job_time[jw] >= st.machine_time[k] + (job_prefix_total(
                    js[jw],
                    st.job_next[jw],
                ) - head_of(js[jw], m, k) - dur_on(js[jw], m, k))
            };
        assert(st.job_next[jw] == m);
        lemma_tail_nonneg(js[jw], m, k);
        assert(job_prefix_total(js[jw], m) - head_of(js[jw], m, k) - dur_on(js[jw], m, k)
            == tail_of(js[jw], m, k));
        lemma_ab_of_member(js, m, k, jw, n);
        assert(st.job_time[jw] >= st.machine_time[k] + tail_of(js[jw], m, k));
        assert(st.job_time[jw] <= max_time_upto(st.machine_time, m));
        assert(machine_bound(js, n, m, k) <= ms);
    }
    lemma_max_machine_bound_le(js, n, m, m, ms);
    assert(spec_lower_bound(js, n, m) <= ms);
}


/// Every sound oracle's best candidate has its makespan between the
/// oracle's lower and upper bound.
pub proof fn lemma_oracle_best_within_bounds(bb: crate::oracle::BlackBox)
    requires
        bb.wf(),
    ensures
        bb.lower_bound <= bb.best_candidate.makespan <= bb.upper_bound,
{
    lemma_makespan_bounds(
        bb.instance.js(),
        bb.instance.n as int,
        bb.instance.m as int,
        bb.best_candidate.order@,
    );
}

} // verus!
