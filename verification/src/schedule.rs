//! The decoder: a single greedy left-to-right pass that turns a valid
//! ordering into a feasible schedule, modelled exactly by `decode_prefix`.

use vstd::prelude::*;
use crate::instance::{Instance, job_machine, job_dur, job_prefix_total, job_total, jobs_prefix_total,
    jobs_total, job_wf, jobs_wf, count_machine, vjobs, lemma_job_prefix_total_nonneg,
    lemma_job_prefix_total_mono, lemma_count_machine_nonneg, lemma_count_machine_monotone};
use crate::ordering::{valid_ordering, occurrences, lemma_valid_ordering_elems,
    lemma_valid_ordering_prefix_count, lemma_occurrences_take_step, lemma_occurrences_multiset};

verus! {

/// A decoded schedule: per machine, a flat row of `(job, start, end)`
/// triples in dispatch order.
pub struct CandidateSchedule {
    pub schedule: Vec<Vec<usize>>,
}

/// The larger of two numbers.
pub open spec fn spec_max(a: int, b: int) -> int {
    if a >= b {
        a
    } else {
        b
    }
}

/// The full state of the decoding pass.
pub struct DecodeState {
    /// Per machine, the end of the operation dispatched to it last (0 if none).
    pub machine_time: Seq<int>,
    /// Per job, the end of its last dispatched operation (0 if none).
    pub job_time: Seq<int>,
    /// Per job, the index of its next pending operation.
    pub job_next: Seq<int>,
    /// Per machine, the flat `(job, start, end)` triples dispatched so far.
    pub sched: Seq<Seq<int>>,
}

/// The state before any operation is dispatched.
pub open spec fn init_state(n: int, m: int) -> DecodeState {
    DecodeState {
        machine_time: Seq::new(m as nat, |k: int| 0),
        job_time: Seq::new(n as nat, |j: int| 0),
        job_next: Seq::new(n as nat, |j: int| 0),
        sched: Seq::new(m as nat, |k: int| Seq::<int>::empty()),
    }
}

/// Dispatching job `j`'s next pending operation: it starts as soon as both
/// its machine and the job are free, and both become free again at its end.
pub open spec fn step_state(js: Seq<Seq<usize>>, st: DecodeState, j: int) -> DecodeState {
    let q = st.job_next[j];
    let k = job_machine(js[j], q);
    let start = spec_max(st.machine_time[k], st.job_time[j]);
    let end = start + job_dur(js[j], q);
    DecodeState {
        machine_time: st.machine_time.update(k, end),
        job_time: st.job_time.update(j, end),
        job_next: st.job_next.update(j, q + 1),
        sched: st.sched.update(k, st.sched[k] + seq![j, start, end]),
    }
}

/// The state after dispatching the first `i` entries of the ordering.
pub open spec fn decode_prefix(
    js: Seq<Seq<usize>>,
    n: int,
    m: int,
    order: Seq<usize>,
    i: int,
) -> DecodeState
    decreases i,
{
    if i <= 0 {
        init_state(n, m)
    } else {
        step_state(js, decode_prefix(js, n, m, order, i - 1), order[i - 1] as int)
    }
}

/// The state after decoding the whole ordering.
pub open spec fn decode(js: Seq<Seq<usize>>, n: int, m: int, order: Seq<usize>) -> DecodeState {
    decode_prefix(js, n, m, order, order.len() as int)
}

/// The job of the `p`-th triple dispatched to machine `k`.
pub open spec fn sched_job(st: DecodeState, k: int, p: int) -> int {
    st.sched[k][3 * p]
}

/// The start of the `p`-th triple dispatched to machine `k`.
pub open spec fn sched_start(st: DecodeState, k: int, p: int) -> int {
    st.sched[k][3 * p + 1]
}

/// The end of the `p`-th triple dispatched to machine `k`.
pub open spec fn sched_end(st: DecodeState, k: int, p: int) -> int {
    st.sched[k][3 * p + 2]
}

/// How many triples machine `k` holds.
pub open spec fn sched_triples(st: DecodeState, k: int) -> int {
    st.sched[k].len() as int / 3
}

/// Total processing time of the operations dispatched so far (summed over
/// the first `upto` jobs).
pub open spec fn dispatched_total(js: Seq<Seq<usize>>, nx: Seq<int>, upto: int) -> int
    decreases upto,
{
    if upto <= 0 {
        0
    } else {
        dispatched_total(js, nx, upto - 1) + job_prefix_total(js[upto - 1], nx[upto - 1])
    }
}

/// Number of operations dispatched to machine `k` so far (summed over the
/// first `upto` jobs).
pub open spec fn machine_ops(js: Seq<Seq<usize>>, nx: Seq<int>, k: int, upto: int) -> int
    decreases upto,
{
    if upto <= 0 {
        0
    } else {
        machine_ops(js, nx, k, upto - 1) + count_machine(js[upto - 1], k, nx[upto - 1])
    }
}

/// Everything the decoding pass preserves: dimensions, progress counters in
/// range, all clocks bounded by the dispatched total, and per machine a
/// chain of non-overlapping triples ending at the machine's clock.
pub open spec fn st_inv(js: Seq<Seq<usize>>, n: int, m: int, st: DecodeState) -> bool {
    let total = dispatched_total(js, st.job_next, n);
    &&& st.machine_time.len() == m
    &&& st.job_time.len() == n
    &&& st.job_next.len() == n
    &&& st.sched.len() == m
    &&& forall|j: int| 0 <= j < n ==> 0 <= #[trigger] st.job_next[j] <= m
    &&& forall|j: int| 0 <= j < n ==> 0 <= #[trigger] st.job_time[j] <= total
    &&& forall|k: int| 0 <= k < m ==> 0 <= #[trigger] st.machine_time[k] <= total
    &&& forall|k: int|
        0 <= k < m ==> (#[trigger] st.sched[k].len()) == 3 * machine_ops(js, st.job_next, k, n)
    &&& forall|k: int|
        0 <= k < m && st.sched[k].len() == 0 ==> #[trigger] st.machine_time[k] == 0
    &&& forall|k: int|
        0 <= k < m && st.sched[k].len() > 0 ==> #[trigger] st.sched[k].last()
            == st.machine_time[k]
    &&& forall|k: int, p: int|
        0 <= k < m && 0 <= p < sched_triples(st, k) ==> {
            &&& 0 <= #[trigger] sched_job(st, k, p) < n
            &&& 0 <= sched_start(st, k, p) <= sched_end(st, k, p) <= st.machine_time[k]
            &&& (p > 0 ==> sched_end(st, k, p - 1) <= sched_start(st, k, p))
        }
}

pub proof fn lemma_machine_ops_nonneg(js: Seq<Seq<usize>>, nx: Seq<int>, k: int, upto: int)
    ensures
        machine_ops(js, nx, k, upto) >= 0,
    decreases upto,
{
    if upto > 0 {
        lemma_machine_ops_nonneg(js, nx, k, upto - 1);
        lemma_count_machine_nonneg(js[upto - 1], k, nx[upto - 1]);
    }
}

/// Advancing job `j`'s progress counter adds exactly that operation's
/// duration to the dispatched total.
pub proof fn lemma_dispatched_update(js: Seq<Seq<usize>>, nx: Seq<int>, j: int, upto: int)
    requires
        0 <= j < nx.len(),
        upto <= nx.len(),
        0 <= nx[j],
    ensures
        dispatched_total(js, nx.update(j, nx[j] + 1), upto) == dispatched_total(js, nx, upto)
            + if j < upto {
            job_dur(js[j], nx[j])
        } else {
            0int
        },
    decreases upto,
{
    let nx2 = nx.update(j, nx[j] + 1);
    if upto > 0 {
        lemma_dispatched_update(js, nx, j, upto - 1);
        if j == upto - 1 {
            assert(job_prefix_total(js[j], nx[j] + 1) == job_prefix_total(js[j], nx[j]) + job_dur(
                js[j],
                nx[j],
            ));
        }
    }
}

/// Advancing job `j`'s progress counter adds one operation to the machine
/// that operation runs on and none to any other machine.
pub proof fn lemma_machine_ops_update(js: Seq<Seq<usize>>, nx: Seq<int>, j: int, k: int, upto: int)
    requires
        0 <= j < nx.len(),
        upto <= nx.len(),
        0 <= nx[j],
    ensures
        machine_ops(js, nx.update(j, nx[j] + 1), k, upto) == machine_ops(js, nx, k, upto)
            + if j < upto && job_machine(js[j], nx[j]) == k {
            1int
        } else {
            0int
        },
    decreases upto,
{
    if upto > 0 {
        lemma_machine_ops_update(js, nx, j, k, upto - 1);
    }
}

/// The dispatched total never exceeds the total over all jobs.
pub proof fn lemma_dispatched_le_total(js: Seq<Seq<usize>>, m: int, nx: Seq<int>, upto: int)
    requires
        forall|j: int| 0 <= j < upto ==> #[trigger] nx[j] <= m,
    ensures
        dispatched_total(js, nx, upto) <= jobs_prefix_total(js, m, upto),
    decreases upto,
{
    if upto > 0 {
        lemma_dispatched_le_total(js, m, nx, upto - 1);
        lemma_job_prefix_total_mono(js[upto - 1], nx[upto - 1], m);
    }
}

/// Once every job has dispatched all of its operations, machine `k` has
/// received exactly one operation per job.
pub proof fn lemma_machine_ops_complete(
    js: Seq<Seq<usize>>,
    m: int,
    nx: Seq<int>,
    k: int,
    upto: int,
)
    requires
        0 <= upto,
        forall|j: int| 0 <= j < upto ==> #[trigger] nx[j] == m,
        forall|j: int| 0 <= j < upto ==> #[trigger] count_machine(js[j], k, m) == 1,
    ensures
        machine_ops(js, nx, k, upto) == upto,
    decreases upto,
{
    if upto > 0 {
        lemma_machine_ops_complete(js, m, nx, k, upto - 1);
        assert(nx[upto - 1] == m);
        assert(count_machine(js[upto - 1], k, m) == 1);
    }
}

/// One decoding step preserves the invariant; the appended triple is the
/// dispatched operation and the dispatched total grows by its duration.
pub proof fn lemma_step_inv(js: Seq<Seq<usize>>, n: int, m: int, st: DecodeState, j: int)
    requires
        jobs_wf(js, n, m),
        st_inv(js, n, m, st),
        0 <= j < n,
        st.job_next[j] < m,
    ensures
        st_inv(js, n, m, step_state(js, st, j)),
        dispatched_total(js, step_state(js, st, j).job_next, n) == dispatched_total(
            js,
            st.job_next,
            n,
        ) + job_dur(js[j], st.job_next[j]),
        forall|k2: int|
            0 <= k2 < m ==> #[trigger] step_state(js, st, j).machine_time[k2]
                >= st.machine_time[k2],
        forall|j2: int|
            0 <= j2 < n ==> #[trigger] step_state(js, st, j).job_time[j2] >= st.job_time[j2],
{
    let st2 = step_state(js, st, j);
    let q = st.job_next[j];
    let k = job_machine(js[j], q);
    let start = spec_max(st.machine_time[k], st.job_time[j]);
    let dur = job_dur(js[j], q);
    let end = start + dur;
    let total = dispatched_total(js, st.job_next, n);
    let total2 = dispatched_total(js, st2.job_next, n);

    assert(0 <= k < m);
    lemma_dispatched_update(js, st.job_next, j, n);
    assert(total2 == total + dur);
    assert(dur >= 0);

    assert forall|k2: int| 0 <= k2 < m implies (#[trigger] st2.sched[k2].len()) == 3 * machine_ops(
        js,
        st2.job_next,
        k2,
        n,
    ) by {
        lemma_machine_ops_update(js, st.job_next, j, k2, n);
    }

    assert forall|k2: int, p: int|
        0 <= k2 < m && 0 <= p < sched_triples(st2, k2) implies {
        &&& 0 <= #[trigger] sched_job(st2, k2, p) < n
        &&& 0 <= sched_start(st2, k2, p) <= sched_end(st2, k2, p) <= st2.machine_time[k2]
        &&& (p > 0 ==> sched_end(st2, k2, p - 1) <= sched_start(st2, k2, p))
    } by {
        if k2 == k {
            let old_len = st.sched[k].len() as int;
            assert(st2.sched[k].len() == old_len + 3);
            if 3 * p + 2 < old_len {
                assert(sched_job(st2, k2, p) == sched_job(st, k2, p));
                assert(sched_start(st2, k2, p) == sched_start(st, k2, p));
                assert(sched_end(st2, k2, p) == sched_end(st, k2, p));
                if p > 0 {
                    assert(sched_end(st2, k2, p - 1) == sched_end(st, k2, p - 1));
                }
                assert(st2.machine_time[k] == end >= st.machine_time[k]);
            } else {
                assert(3 * p < old_len + 3 && 3 * p + 2 >= old_len);
                assert(old_len == 3 * machine_ops(js, st.job_next, k, n));
                assert(3 * p == old_len);
                assert(sched_job(st2, k2, p) == j);
                assert(sched_start(st2, k2, p) == start);
                assert(sched_end(st2, k2, p) == end);
                if p > 0 {
                    assert(sched_end(st2, k2, p - 1) == sched_end(st, k2, p - 1));
                    assert(3 * (p - 1) + 2 == old_len - 1);
                    assert(st.sched[k].last() == st.sched[k][old_len - 1]);
                    assert(sched_end(st, k2, p - 1) == st.machine_time[k]);
                    assert(start >= st.machine_time[k]);
                }
            }
        } else {
            assert(st2.sched[k2] == st.sched[k2]);
            assert(sched_job(st2, k2, p) == sched_job(st, k2, p));
            assert(sched_start(st2, k2, p) == sched_start(st, k2, p));
            assert(sched_end(st2, k2, p) == sched_end(st, k2, p));
            if p > 0 {
                assert(sched_end(st2, k2, p - 1) == sched_end(st, k2, p - 1));
            }
        }
    }
}

/// The initial state satisfies the invariant.
pub proof fn lemma_init_inv(js: Seq<Seq<usize>>, n: int, m: int)
    requires
        jobs_wf(js, n, m),
    ensures
        st_inv(js, n, m, init_state(n, m)),
        forall|j: int| 0 <= j < n ==> #[trigger] init_state(n, m).job_next[j] == 0,
{
    let st = init_state(n, m);
    lemma_dispatched_zero(js, st.job_next, n);
    assert forall|k: int| 0 <= k < m implies (#[trigger] st.sched[k].len()) == 3 * machine_ops(
        js,
        st.job_next,
        k,
        n,
    ) by {
        lemma_machine_ops_zero(js, st.job_next, k, n);
    }
}

proof fn lemma_dispatched_zero(js: Seq<Seq<usize>>, nx: Seq<int>, upto: int)
    requires
        forall|j: int| 0 <= j < upto ==> #[trigger] nx[j] == 0,
    ensures
        dispatched_total(js, nx, upto) == 0,
    decreases upto,
{
    if upto > 0 {
        lemma_dispatched_zero(js, nx, upto - 1);
    }
}

proof fn lemma_machine_ops_zero(js: Seq<Seq<usize>>, nx: Seq<int>, k: int, upto: int)
    requires
        forall|j: int| 0 <= j < upto ==> #[trigger] nx[j] == 0,
    ensures
        machine_ops(js, nx, k, upto) == 0,
    decreases upto,
{
    if upto > 0 {
        lemma_machine_ops_zero(js, nx, k, upto - 1);
    }
}

/// The decoding invariant holds after any prefix of a valid ordering, and
/// the progress counter of each job counts its occurrences in the prefix.
pub proof fn lemma_decode_prefix_inv(js: Seq<Seq<usize>>, n: int, m: int, order: Seq<usize>, i: int)
    requires
        jobs_wf(js, n, m),
        valid_ordering(order, n, m),
        0 <= i <= order.len(),
    ensures
        st_inv(js, n, m, decode_prefix(js, n, m, order, i)),
        forall|j: int|
            0 <= j < n ==> #[trigger] decode_prefix(js, n, m, order, i).job_next[j] == occurrences(
                order.take(i),
                j as usize,
            ),
    decreases i,
{
    assert(n <= n * m) by (nonlinear_arith)
        requires
            n >= 0,
            m >= 1,
    ;
    if i == 0 {
        lemma_init_inv(js, n, m);
        assert(order.take(0) =~= Seq::<usize>::empty());
        assert forall|j: int| 0 <= j < n implies #[trigger] decode_prefix(
            js,
            n,
            m,
            order,
            0,
        ).job_next[j] == occurrences(order.take(0), j as usize) by {
        }
    } else {
        lemma_decode_prefix_inv(js, n, m, order, i - 1);
        let st = decode_prefix(js, n, m, order, i - 1);
        let v = order[i - 1];
        let j = v as int;
        lemma_valid_ordering_elems(order, n, m);
        assert(j < n);
        lemma_valid_ordering_prefix_count(order, n, m, v, i);
        lemma_occurrences_take_step(order, v, i - 1);
        assert(st.job_next[j] == occurrences(order.take(i - 1), v));
        assert(occurrences(order.take(i), v) == occurrences(order.take(i - 1), v) + 1);
        assert(st.job_next[j] < m);
        lemma_step_inv(js, n, m, st, j);
        let st2 = decode_prefix(js, n, m, order, i);
        assert(st2 == step_state(js, st, j));
        assert forall|j2: int| 0 <= j2 < n implies #[trigger] st2.job_next[j2] == occurrences(
            order.take(i),
            j2 as usize,
        ) by {
            if j2 != j {
                lemma_occurrences_take_step(order, j2 as usize, i - 1);
                assert(order[i - 1] != j2 as usize);
            }
        }
    }
}

/// After decoding a full valid ordering every job has dispatched all `m` of
/// its operations and every machine holds exactly `n` triples, the last of
/// which ends at the machine's clock.
pub proof fn lemma_decode_complete(js: Seq<Seq<usize>>, n: int, m: int, order: Seq<usize>)
    requires
        jobs_wf(js, n, m),
        valid_ordering(order, n, m),
    ensures
        st_inv(js, n, m, decode(js, n, m, order)),
        forall|j: int| 0 <= j < n ==> #[trigger] decode(js, n, m, order).job_next[j] == m,
        forall|k: int|
            0 <= k < m ==> (#[trigger] decode(js, n, m, order).sched[k].len()) == 3 * n,
        forall|k: int|
            0 <= k < m ==> #[trigger] decode(js, n, m, order).sched[k].last() == decode(
                js,
                n,
                m,
                order,
            ).machine_time[k],
{
    assert(n <= n * m) by (nonlinear_arith)
        requires
            n >= 0,
            m >= 1,
    ;
    let len = order.len() as int;
    lemma_decode_prefix_inv(js, n, m, order, len);
    let st = decode(js, n, m, order);
    assert(order.take(len) =~= order);
    assert forall|j: int| 0 <= j < n implies #[trigger] st.job_next[j] == m by {
        lemma_occurrences_multiset(order, j as usize);
        assert(order.to_multiset().count(j as usize) == m);
    }
    assert forall|k: int| 0 <= k < m implies (#[trigger] st.sched[k].len()) == 3 * n by {
        lemma_machine_ops_complete(js, m, st.job_next, k, n);
    }
    assert forall|k: int| 0 <= k < m implies #[trigger] st.sched[k].last() == st.machine_time[k]
        by {
        assert(st.sched[k].len() == 3 * n > 0);
    }
}

/// A schedule value matches a decode state: same dimensions, and every slot
/// of every machine row holds the state's value.
pub open spec fn sched_matches(s: Seq<Vec<usize>>, st: DecodeState, n: int, m: int) -> bool {
    &&& s.len() == m
    &&& forall|k: int| 0 <= k < m ==> (#[trigger] s[k]@.len()) == 3 * n
    &&& forall|k: int, p: int|
        0 <= k < m && 0 <= p < 3 * n ==> (#[trigger] s[k]@[p]) as int == st.sched[k][p]
}

impl CandidateSchedule {
    /// A blank schedule: `m` machine rows of `3*n` zeroed slots, one slot
    /// triple per job.
    pub fn new(m: usize, n: usize) -> (r: Self)
        requires
            3 * n <= usize::MAX,
        ensures
            r.schedule@.len() == m,
            forall|k: int| 0 <= k < m ==> (#[trigger] r.schedule@[k]@.len()) == 3 * n,
            forall|k: int, p: int|
                0 <= k < m && 0 <= p < 3 * n ==> (#[trigger] r.schedule@[k]@[p]) == 0,
    {
        let mut schedule: Vec<Vec<usize>> = Vec::new();
        let mut k: usize = 0;
        while k < m
            invariant
                3 * n <= usize::MAX,
                k <= m,
                schedule@.len() == k,
                forall|k2: int| 0 <= k2 < k ==> (#[trigger] schedule@[k2]@.len()) == 3 * n,
                forall|k2: int, p: int|
                    0 <= k2 < k && 0 <= p < 3 * n ==> (#[trigger] schedule@[k2]@[p]) == 0,
            decreases m - k,
        {
            let row: Vec<usize> = vec![0; 3 * n];
            schedule.push(row);
            k += 1;
        }
        CandidateSchedule { schedule }
    }
}

/// Decodes a valid ordering into a schedule, following the ordering left to
/// right and dispatching each job's next pending operation.
pub fn decode_ordering(instance: &Instance, order: &Vec<usize>) -> (y: CandidateSchedule)
    requires
        instance.wf(),
        valid_ordering(order@, instance.n as int, instance.m as int),
    ensures
        sched_matches(
            y.schedule@,
            decode(instance.js(), instance.n as int, instance.m as int, order@),
            instance.n as int,
            instance.m as int,
        ),
{
    let n = instance.n;
    let m = instance.m;
    let ghost js = instance.js();
    let ghost full = order@.len() as int;

    proof {
        assert(3 * (n as int) <= 3 * (n as int) * (m as int)) by (nonlinear_arith)
            requires
                m >= 1,
                n >= 0,
        ;
    }
    let mut machine_state: Vec<usize> = vec![0; m];
    let mut machine_time: Vec<usize> = vec![0; m];
    let mut job_state: Vec<usize> = vec![0; n];
    let mut job_time: Vec<usize> = vec![0; n];
    let mut y = CandidateSchedule::new(m, n);

    let total = order.len();
    let mut i: usize = 0;
    proof {
        lemma_decode_prefix_inv(js, n as int, m as int, order@, 0);
    }
    while i < total
        invariant
            instance.wf(),
            valid_ordering(order@, instance.n as int, instance.m as int),
            n == instance.n,
            m == instance.m,
            js == instance.js(),
            total == order@.len(),
            i <= total,
            3 * (n as int) <= usize::MAX,
            machine_state@.len() == m,
            machine_time@.len() == m,
            job_state@.len() == n,
            job_time@.len() == n,
            y.schedule@.len() == m,
            forall|k: int| 0 <= k < m ==> (#[trigger] y.schedule@[k]@.len()) == 3 * n,
            forall|k: int|
                0 <= k < m ==> (#[trigger] machine_time@[k]) as int == decode_prefix(
                    js,
                    n as int,
                    m as int,
                    order@,
                    i as int,
                ).machine_time[k],
            forall|j: int|
                0 <= j < n ==> (#[trigger] job_time@[j]) as int == decode_prefix(
                    js,
                    n as int,
                    m as int,
                    order@,
                    i as int,
                ).job_time[j],
            forall|j: int|
                0 <= j < n ==> (#[trigger] job_state@[j]) as int == decode_prefix(
                    js,
                    n as int,
                    m as int,
                    order@,
                    i as int,
                ).job_next[j],
            forall|k: int|
                0 <= k < m ==> (#[trigger] machine_state@[k]) as int == decode_prefix(
                    js,
                    n as int,
                    m as int,
                    order@,
                    i as int,
                ).sched[k].len(),
            forall|k: int, p: int|
                0 <= k < m && 0 <= p < decode_prefix(js, n as int, m as int, order@, i as int).sched[k].len()
                    ==> (#[trigger] y.schedule@[k]@[p]) as int == decode_prefix(
                    js,
                    n as int,
                    m as int,
                    order@,
                    i as int,
                ).sched[k][p],
        decreases total - i,
    {
        let ghost st = decode_prefix(js, n as int, m as int, order@, i as int);
        let ghost st2 = decode_prefix(js, n as int, m as int, order@, (i + 1) as int);
        proof {
            lemma_decode_prefix_inv(js, n as int, m as int, order@, i as int);
            lemma_valid_ordering_elems(order@, n as int, m as int);
            lemma_valid_ordering_prefix_count(order@, n as int, m as int, order@[i as int], i + 1);
            lemma_occurrences_take_step(order@, order@[i as int], i as int);
            lemma_step_inv(js, n as int, m as int, st, order@[i as int] as int);
            assert(st2 == step_state(js, st, order@[i as int] as int));
            lemma_dispatched_le_total(js, m as int, st2.job_next, n as int);
            assert(jobs_prefix_total(js, m as int, n as int) == jobs_total(js, m as int));
        }
        let job = order[i];
        let q = job_state[job];
        proof {
            assert(st.job_next[job as int] == occurrences(order@.take(i as int), order@[i as int]));
            assert((q as int) < m);
            assert(vjobs(instance.jobs@) == js);
            assert(js[job as int] == instance.jobs@[job as int]@);
            assert(js[job as int].len() == 2 * m);
        }
        let row_len = instance.jobs[job].len();
        assert(row_len == 2 * m);
        let job_step = 2 * q;
        let machine = instance.jobs[job][job_step];
        proof {
            assert(machine as int == job_machine(js[job as int], q as int));
            assert(0 <= machine < m);
        }
        let dur = instance.jobs[job][job_step + 1];
        proof {
            assert(dur as int == job_dur(js[job as int], q as int));
        }
        let mt = machine_time[machine];
        let jt = job_time[job];
        let start = if mt >= jt {
            mt
        } else {
            jt
        };
        proof {
            assert(start as int == spec_max(
                st.machine_time[machine as int],
                st.job_time[job as int],
            ));
            assert(st2.machine_time[machine as int] == start + dur);
            assert(st2.machine_time[machine as int] <= jobs_total(js, m as int));
            assert(jobs_total(js, m as int) <= usize::MAX);
        }
        let end = start + dur;

        job_state[job] = q + 1;
        machine_time[machine] = end;
        job_time[job] = end;

        let fill = machine_state[machine];
        proof {
            assert(fill as int == st.sched[machine as int].len());
            assert(st.sched[machine as int].len() == 3 * machine_ops(js, st.job_next, machine as int, n as int));
            assert(st2.sched[machine as int].len() == fill + 3);
            assert(st2.sched[machine as int].len() <= 3 * n) by {
                lemma_machine_ops_le(js, m as int, st2.job_next, machine as int, n as int);
            }
        }
        y.schedule[machine][fill] = job;
        y.schedule[machine][fill + 1] = start;
        y.schedule[machine][fill + 2] = end;
        machine_state[machine] = fill + 3;

        proof {
            assert forall|k: int, p: int|
                0 <= k < m && 0 <= p < st2.sched[k].len() implies (#[trigger] y.schedule@[k]@[p])
                as int == st2.sched[k][p] by {
                if k == machine as int {
                    if p < fill {
                        assert(st2.sched[k][p] == st.sched[k][p]);
                    } else {
                        assert(st2.sched[k] == st.sched[k] + seq![
                            job as int,
                            start as int,
                            end as int,
                        ]);
                    }
                } else {
                    assert(st2.sched[k] == st.sched[k]);
                }
            }
        }
        i += 1;
    }
    proof {
        assert(i as int == full);
        lemma_decode_complete(js, n as int, m as int, order@);
    }
    y
}

/// Each machine dispatches at most one operation per job.
pub proof fn lemma_machine_ops_le(js: Seq<Seq<usize>>, m: int, nx: Seq<int>, k: int, upto: int)
    requires
        0 <= upto,
        0 <= k < m,
        forall|j: int| 0 <= j < upto ==> job_wf(#[trigger] js[j], m),
        forall|j: int| 0 <= j < upto ==> 0 <= #[trigger] nx[j] <= m,
    ensures
        machine_ops(js, nx, k, upto) <= upto,
    decreases upto,
{
    if upto > 0 {
        lemma_machine_ops_le(js, m, nx, k, upto - 1);
        lemma_count_machine_monotone(js[upto - 1], k, nx[upto - 1], m);
        lemma_count_machine_nonneg(js[upto - 1], k, nx[upto - 1]);
    }
}

/// The largest machine clock among the first `k` machines.
pub open spec fn max_time_upto(mt: Seq<int>, k: int) -> int
    decreases k,
{
    if k <= 0 {
        0
    } else {
        spec_max(max_time_upto(mt, k - 1), mt[k - 1])
    }
}

/// The makespan of a decoded ordering: the time the last machine finishes.
pub open spec fn spec_makespan(js: Seq<Seq<usize>>, n: int, m: int, order: Seq<usize>) -> int {
    max_time_upto(decode(js, n, m, order).machine_time, m)
}

/// Reads the makespan off a fully decoded schedule: the largest final entry
/// (each machine row ends with the end time of its last operation).
pub fn find_makespan(y: &CandidateSchedule) -> (r: usize)
    requires
        y.schedule@.len() >= 1,
        forall|k: int| 0 <= k < y.schedule@.len() ==> (#[trigger] y.schedule@[k]@.len()) >= 1,
    ensures
        r as int == rows_max_last(y.schedule@, y.schedule@.len() as int),
{
    let mut best: usize = 0;
    let mut k: usize = 0;
    let total = y.schedule.len();
    while k < total
        invariant
            total == y.schedule@.len(),
            k <= total,
            forall|k2: int| 0 <= k2 < total ==> (#[trigger] y.schedule@[k2]@.len()) >= 1,
            best as int == rows_max_last(y.schedule@, k as int),
        decreases total - k,
    {
        let row_len = y.schedule[k].len();
        let last = y.schedule[k][row_len - 1];
        if last > best {
            best = last;
        }
        k += 1;
    }
    best
}

/// The largest last entry among the first `k` machine rows.
pub open spec fn rows_max_last(s: Seq<Vec<usize>>, k: int) -> int
    decreases k,
{
    if k <= 0 {
        0
    } else {
        spec_max(rows_max_last(s, k - 1), s[k - 1]@.last() as int)
    }
}

/// On a schedule that matches a completed decode, the row-wise maximum of
/// the last entries is the maximum machine clock: the makespan.
pub proof fn lemma_rows_max_last_is_makespan(
    js: Seq<Seq<usize>>,
    n: int,
    m: int,
    order: Seq<usize>,
    s: Seq<Vec<usize>>,
    k: int,
)
    requires
        jobs_wf(js, n, m),
        valid_ordering(order, n, m),
        sched_matches(s, decode(js, n, m, order), n, m),
        0 <= k <= m,
    ensures
        rows_max_last(s, k) == max_time_upto(decode(js, n, m, order).machine_time, k),
    decreases k,
{
    lemma_decode_complete(js, n, m, order);
    let st = decode(js, n, m, order);
    if k > 0 {
        lemma_rows_max_last_is_makespan(js, n, m, order, s, k - 1);
        assert(s[k - 1]@.len() == 3 * n);
        assert(s[k - 1]@[3 * n - 1] as int == st.sched[k - 1][3 * n - 1]);
        assert(s[k - 1]@.last() == s[k - 1]@[3 * n - 1]);
        assert(st.sched[k - 1].last() == st.sched[k - 1][3 * n - 1]);
        assert(st.sched[k - 1].last() == st.machine_time[k - 1]);
    }
}


/// Operations `q-1` and `q` of job `j` appear in the schedule on their
/// machines, in order: the earlier one ends no later than the later one
/// starts.
pub open spec fn op_chained(js: Seq<Seq<usize>>, st: DecodeState, j: int, q: int) -> bool {
    exists|p1: int, p2: int|
        {
            &&& 0 <= p1 < sched_triples(st, job_machine(js[j], q - 1))
            &&& #[trigger] sched_job(st, job_machine(js[j], q - 1), p1) == j
            &&& 0 <= p2 < sched_triples(st, job_machine(js[j], q))
            &&& #[trigger] sched_job(st, job_machine(js[j], q), p2) == j
            &&& sched_end(st, job_machine(js[j], q - 1), p1) <= sched_start(
                st,
                job_machine(js[j], q),
                p2,
            )
        }
}

/// Job `j`'s last dispatched operation left an entry on its machine ending
/// exactly at the job's clock.
pub open spec fn last_entry_ok(js: Seq<Seq<usize>>, st: DecodeState, j: int) -> bool {
    exists|p: int|
        {
            &&& 0 <= p < sched_triples(st, job_machine(js[j], st.job_next[j] - 1))
            &&& #[trigger] sched_job(st, job_machine(js[j], st.job_next[j] - 1), p) == j
            &&& sched_end(st, job_machine(js[j], st.job_next[j] - 1), p) == st.job_time[j]
        }
}

/// The chaining facts the decoding pass maintains: every dispatched
/// operation of a job left a schedule entry, the job clock is the end of
/// its last entry, and consecutive dispatched operations are chained.
pub open spec fn job_chain_inv(js: Seq<Seq<usize>>, n: int, m: int, st: DecodeState) -> bool {
    &&& forall|j: int|
        0 <= j < n && st.job_next[j] > 0 ==> #[trigger] last_entry_ok(js, st, j)
    &&& forall|j: int, q: int|
        0 <= j < n && 1 <= q < st.job_next[j] ==> #[trigger] op_chained(js, st, j, q)
}

/// Appending a step to the decode keeps every existing schedule entry.
proof fn lemma_step_entries_persist(js: Seq<Seq<usize>>, n: int, m: int, st: DecodeState, j: int)
    requires
        jobs_wf(js, n, m),
        st_inv(js, n, m, st),
        0 <= j < n,
        st.job_next[j] < m,
    ensures
        forall|k: int, p: int|
            0 <= k < m && 0 <= p < sched_triples(st, k) ==> {
                &&& sched_triples(step_state(js, st, j), k) >= sched_triples(st, k)
                &&& #[trigger] sched_job(step_state(js, st, j), k, p) == sched_job(st, k, p)
                &&& sched_start(step_state(js, st, j), k, p) == sched_start(st, k, p)
                &&& sched_end(step_state(js, st, j), k, p) == sched_end(st, k, p)
            },
{
    let st2 = step_state(js, st, j);
    let k0 = job_machine(js[j], st.job_next[j]);
    lemma_step_inv(js, n, m, st, j);
    assert forall|k: int, p: int| 0 <= k < m && 0 <= p < sched_triples(st, k) implies {
        &&& sched_triples(st2, k) >= sched_triples(st, k)
        &&& #[trigger] sched_job(st2, k, p) == sched_job(st, k, p)
        &&& sched_start(st2, k, p) == sched_start(st, k, p)
        &&& sched_end(st2, k, p) == sched_end(st, k, p)
    } by {
        if k == k0 {
            assert(st2.sched[k] == st.sched[k] + seq![
                j,
                spec_max(st.machine_time[k0], st.job_time[j]),
                spec_max(st.machine_time[k0], st.job_time[j]) + job_dur(js[j], st.job_next[j]),
            ]);
        } else {
            assert(st2.sched[k] == st.sched[k]);
        }
    }
}

/// The chaining facts hold after any prefix of a valid ordering.
pub proof fn lemma_decode_prefix_chain(js: Seq<Seq<usize>>, n: int, m: int, order: Seq<usize>, i: int)
    requires
        jobs_wf(js, n, m),
        valid_ordering(order, n, m),
        0 <= i <= order.len(),
    ensures
        job_chain_inv(js, n, m, decode_prefix(js, n, m, order, i)),
    decreases i,
{
    assert(n <= n * m) by (nonlinear_arith)
        requires
            n >= 0,
            m >= 1,
    ;
    if i == 0 {
        let st = init_state(n, m);
        lemma_init_inv(js, n, m);
    } else {
        lemma_decode_prefix_chain(js, n, m, order, i - 1);
        lemma_decode_prefix_inv(js, n, m, order, i - 1);
        let st = decode_prefix(js, n, m, order, i - 1);
        let v = order[i - 1];
        let j = v as int;
        lemma_valid_ordering_elems(order, n, m);
        lemma_valid_ordering_prefix_count(order, n, m, v, i);
        lemma_occurrences_take_step(order, v, i - 1);
        assert(st.job_next[j] < m);
        let q = st.job_next[j];
        let k0 = job_machine(js[j], q);
        let st2 = decode_prefix(js, n, m, order, i);
        assert(st2 == step_state(js, st, j));
        lemma_step_inv(js, n, m, st, j);
        lemma_step_entries_persist(js, n, m, st, j);

        let pnew = machine_ops(js, st.job_next, k0, n);
        assert(st.sched[k0].len() == 3 * pnew);
        lemma_machine_ops_nonneg(js, st.job_next, k0, n);
        let start = spec_max(st.machine_time[k0], st.job_time[j]);
        let end = start + job_dur(js[j], q);
        assert(st2.sched[k0] == st.sched[k0] + seq![j, start, end]);
        assert(sched_job(st2, k0, pnew) == j);
        assert(sched_start(st2, k0, pnew) == start);
        assert(sched_end(st2, k0, pnew) == end);
        assert(sched_triples(st2, k0) == pnew + 1);
        assert(st2.job_time[j] == end);
        assert(st2.job_next[j] == q + 1);

        // The job's last entry is the appended one.
        assert forall|j2: int| 0 <= j2 < n && st2.job_next[j2] > 0 implies #[trigger]
            last_entry_ok(js, st2, j2) by {
            if j2 == j {
                assert(job_machine(js[j2], st2.job_next[j2] - 1) == k0);
                assert(0 <= pnew < sched_triples(st2, job_machine(js[j2], st2.job_next[j2] - 1))
                    && sched_job(st2, job_machine(js[j2], st2.job_next[j2] - 1), pnew) == j2
                    && sched_end(st2, job_machine(js[j2], st2.job_next[j2] - 1), pnew)
                    == st2.job_time[j2]);
            } else {
                assert(st2.job_next[j2] == st.job_next[j2]);
                assert(st2.job_time[j2] == st.job_time[j2]);
                assert(last_entry_ok(js, st, j2));
                let p = choose|p: int|
                    {
                        &&& 0 <= p < sched_triples(st, job_machine(js[j2], st.job_next[j2] - 1))
                        &&& #[trigger] sched_job(st, job_machine(js[j2], st.job_next[j2] - 1), p)
                            == j2
                        &&& sched_end(st, job_machine(js[j2], st.job_next[j2] - 1), p)
                            == st.job_time[j2]
                    };
                assert(job_machine(js[j2], st2.job_next[j2] - 1) == job_machine(
                    js[j2],
                    st.job_next[j2] - 1,
                ));
                assert(0 <= p < sched_triples(st2, job_machine(js[j2], st2.job_next[j2] - 1))
                    && sched_job(st2, job_machine(js[j2], st2.job_next[j2] - 1), p) == j2
                    && sched_end(st2, job_machine(js[j2], st2.job_next[j2] - 1), p)
                    == st2.job_time[j2]);
            }
        }

        // Consecutive dispatched operations remain chained, and the newly
        // dispatched operation chains to the job's previous one.
        assert forall|j2: int, q2: int| 0 <= j2 < n && 1 <= q2 < st2.job_next[j2] implies
            #[trigger] op_chained(js, st2, j2, q2) by {
            if j2 == j && q2 == q {
                if q >= 1 {
                    assert(last_entry_ok(js, st, j));
                    let p1 = choose|p: int|
                        {
                            &&& 0 <= p < sched_triples(st, job_machine(js[j], st.job_next[j] - 1))
                            &&& #[trigger] sched_job(st, job_machine(js[j], st.job_next[j] - 1), p)
                                == j
                            &&& sched_end(st, job_machine(js[j], st.job_next[j] - 1), p)
                                == st.job_time[j]
                        };
                    assert(job_machine(js[j], st.job_next[j] - 1) == job_machine(js[j2], q2 - 1));
                    assert(job_machine(js[j2], q2) == k0);
                    assert(sched_end(st2, job_machine(js[j2], q2 - 1), p1) == st.job_time[j]);
                    assert(st.job_time[j] <= start);
                    assert(0 <= p1 < sched_triples(st2, job_machine(js[j2], q2 - 1)) && sched_job(
                        st2,
                        job_machine(js[j2], q2 - 1),
                        p1,
                    ) == j2 && 0 <= pnew < sched_triples(st2, job_machine(js[j2], q2))
                        && sched_job(st2, job_machine(js[j2], q2), pnew) == j2 && sched_end(
                        st2,
                        job_machine(js[j2], q2 - 1),
                        p1,
                    ) <= sched_start(st2, job_machine(js[j2], q2), pnew));
                }
            } else {
                assert(op_chained(js, st, j2, q2));
                let (p1, p2) = choose|p1: int, p2: int|
                    {
                        &&& 0 <= p1 < sched_triples(st, job_machine(js[j2], q2 - 1))
                        &&& #[trigger] sched_job(st, job_machine(js[j2], q2 - 1), p1) == j2
                        &&& 0 <= p2 < sched_triples(st, job_machine(js[j2], q2))
                        &&& #[trigger] sched_job(st, job_machine(js[j2], q2), p2) == j2
                        &&& sched_end(st, job_machine(js[j2], q2 - 1), p1) <= sched_start(
                            st,
                            job_machine(js[j2], q2),
                            p2,
                        )
                    };
                assert(0 <= p1 < sched_triples(st2, job_machine(js[j2], q2 - 1)) && sched_job(
                    st2,
                    job_machine(js[j2], q2 - 1),
                    p1,
                ) == j2 && 0 <= p2 < sched_triples(st2, job_machine(js[j2], q2)) && sched_job(
                    st2,
                    job_machine(js[j2], q2),
                    p2,
                ) == j2 && sched_end(st2, job_machine(js[j2], q2 - 1), p1) <= sched_start(
                    st2,
                    job_machine(js[j2], q2),
                    p2,
                ));
            }
        }
    }
}

/// Feasibility of every decode of a valid ordering: on each machine the
/// dispatched intervals are chained without overlap, and every job runs its
/// operations in its fixed technological order.
pub proof fn lemma_decode_feasible(js: Seq<Seq<usize>>, n: int, m: int, order: Seq<usize>)
    requires
        jobs_wf(js, n, m),
        valid_ordering(order, n, m),
    ensures
        st_inv(js, n, m, decode(js, n, m, order)),
        forall|k: int, p: int|
            0 <= k < m && 1 <= p < sched_triples(decode(js, n, m, order), k) ==> #[trigger]
                sched_end(decode(js, n, m, order), k, p - 1) <= sched_start(
                decode(js, n, m, order),
                k,
                p,
            ),
        forall|j: int, q: int|
            0 <= j < n && 1 <= q < m ==> #[trigger] op_chained(js, decode(js, n, m, order), j, q),
{
    let st = decode(js, n, m, order);
    lemma_decode_complete(js, n, m, order);
    lemma_decode_prefix_chain(js, n, m, order, order.len() as int);
    assert forall|k: int, p: int| 0 <= k < m && 1 <= p < sched_triples(st, k) implies #[trigger]
        sched_end(st, k, p - 1) <= sched_start(st, k, p) by {
        assert(0 <= sched_job(st, k, p) < n);
    }
    assert forall|j: int, q: int| 0 <= j < n && 1 <= q < m implies #[trigger] op_chained(
        js,
        st,
        j,
        q,
    ) by {
        assert(st.job_next[j] == m);
    }
}


} // verus!
