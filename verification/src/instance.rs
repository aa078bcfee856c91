//! Immutable problem data for the job-shop scheduling problem, with the
//! validation that every other component relies on.

use vstd::prelude::*;

verus! {

/// Which textual format the instance data originally came from.  The core
/// only records it as metadata; both formats reduce to the same validated
/// job table before they reach `Instance::new`.
#[derive(Clone, Copy, PartialEq, Eq, Structural, Debug)]
pub enum InstanceType {
    ORLIB,
    TAILLARD,
}

impl InstanceType {
    /// Human-readable name of the format, for reporting.
    pub fn label(&self) -> (r: &'static str)
        ensures
            *self == InstanceType::ORLIB ==> r@ == "Orlib"@,
            *self == InstanceType::TAILLARD ==> r@ == "Taillard"@,
    {
        match *self {
            InstanceType::ORLIB => "Orlib",
            InstanceType::TAILLARD => "Taillard",
        }
    }
}

/// Why a job table was rejected at construction.
#[derive(Clone, Copy, PartialEq, Eq, Structural, Debug)]
pub enum InstanceError {
    /// No jobs at all.
    EmptyInstance,
    /// Only one job: the swap operators need at least two distinct job
    /// values in every ordering, so such an instance is rejected up front.
    DegenerateInstance,
    /// A job row is empty, has an odd length or a length different from the
    /// first row's, names a machine out of range, or fails to use every
    /// machine exactly once.
    MalformedJobs,
    /// The job table is consistent but too large for this machine: the
    /// total processing time or the ordering length would not fit in
    /// `usize`.
    TooLarge,
}

/// The machine of operation `q` of a job row (`2*m` values alternating
/// machine and duration).
pub open spec fn job_machine(job: Seq<usize>, q: int) -> int {
    job[2 * q] as int
}

/// The duration of operation `q` of a job row.
pub open spec fn job_dur(job: Seq<usize>, q: int) -> int {
    job[2 * q + 1] as int
}

/// Sum of the durations of the first `q` operations of a job row.
pub open spec fn job_prefix_total(job: Seq<usize>, q: int) -> int
    decreases q,
{
    if q <= 0 {
        0
    } else {
        job_prefix_total(job, q - 1) + job_dur(job, q - 1)
    }
}

/// Total processing time of a job row.
pub open spec fn job_total(job: Seq<usize>, m: int) -> int {
    job_prefix_total(job, m)
}

/// How many of the first `q` operations of a job row run on machine `k`.
pub open spec fn count_machine(job: Seq<usize>, k: int, q: int) -> int
    decreases q,
{
    if q <= 0 {
        0
    } else {
        count_machine(job, k, q - 1) + if job_machine(job, q - 1) == k {
            1int
        } else {
            0int
        }
    }
}

/// Sum of the total processing times of the first `upto` jobs.
pub open spec fn jobs_prefix_total(js: Seq<Seq<usize>>, m: int, upto: int) -> int
    decreases upto,
{
    if upto <= 0 {
        0
    } else {
        jobs_prefix_total(js, m, upto - 1) + job_total(js[upto - 1], m)
    }
}

/// Sum of the total processing times of all jobs.
pub open spec fn jobs_total(js: Seq<Seq<usize>>, m: int) -> int {
    jobs_prefix_total(js, m, js.len() as int)
}

/// A single job row is well-formed for `m` machines: `m` operations, each
/// machine named is in range, and every machine occurs exactly once.
pub open spec fn job_wf(job: Seq<usize>, m: int) -> bool {
    &&& job.len() == 2 * m
    &&& forall|q: int| 0 <= q < m ==> 0 <= #[trigger] job_machine(job, q) < m
    &&& forall|k: int| 0 <= k < m ==> #[trigger] count_machine(job, k, m) == 1
}

/// The whole job table is well-formed: at least two jobs, at least one
/// machine, every row well-formed, and the totals that decoding can reach
/// fit in `usize`.
pub open spec fn jobs_wf(js: Seq<Seq<usize>>, n: int, m: int) -> bool {
    &&& js.len() == n
    &&& n >= 2
    &&& m >= 1
    &&& forall|j: int| 0 <= j < n ==> job_wf(#[trigger] js[j], m)
    &&& jobs_total(js, m) <= usize::MAX
    &&& n * m <= usize::MAX
    &&& 3 * n * m <= usize::MAX
}

/// Immutable job-shop problem data: `n` jobs, `m` machines, and per job a
/// row of `2*m` values alternating machine id and duration in the job's
/// technological order.  Also carries the termination budget of a run:
/// `termination_limit` iterations when `is_timed` is false, or
/// `termination_limit` seconds of wall-clock time when it is true.
#[derive(Debug)]
pub struct Instance {
    pub jobs: Vec<Vec<usize>>,
    pub name: String,
    pub type_: InstanceType,
    pub m: usize,
    pub n: usize,
    pub termination_limit: usize,
    pub is_timed: bool,
}

impl Instance {
    /// The job table as a mathematical sequence of rows.
    pub open spec fn js(self) -> Seq<Seq<usize>> {
        self.jobs@.map_values(|row: Vec<usize>| row@)
    }

    /// Well-formedness: the dimensions match the table and the table is
    /// valid.  Constructors establish this and every consumer requires it.
    pub open spec fn wf(self) -> bool {
        &&& self.n == self.jobs@.len()
        &&& jobs_wf(self.js(), self.n as int, self.m as int)
    }

    /// Two instances describe the same problem and run configuration.
    pub open spec fn same_problem(self, other: Instance) -> bool {
        &&& self.js() == other.js()
        &&& self.n == other.n
        &&& self.m == other.m
        &&& self.termination_limit == other.termination_limit
        &&& self.is_timed == other.is_timed
        &&& self.name@ == other.name@
        &&& self.type_ == other.type_
    }

    /// Validates a job table and builds the instance.
    ///
    /// `jobs[j]` must hold `2*m` values alternating machine id and duration
    /// for job `j`, where `m` is derived from the first row.  Rejects an
    /// empty table, a single-job table (the swap operators need two
    /// distinct job values), malformed rows, and tables whose total
    /// processing time or ordering length would overflow `usize`.
    pub fn new(
        name: &str,
        type_: InstanceType,
        jobs: Vec<Vec<usize>>,
        termination_limit: usize,
        is_timed: bool,
    ) -> (r: Result<Instance, InstanceError>)
        ensures
            jobs@.len() == 0 ==> r == Err::<Instance, InstanceError>(InstanceError::EmptyInstance),
            jobs@.len() == 1 ==> r == Err::<Instance, InstanceError>(
                InstanceError::DegenerateInstance,
            ),
            jobs@.len() >= 2 && !Self::shape_ok(vjobs(jobs@)) ==> r == Err::<
                Instance,
                InstanceError,
            >(InstanceError::MalformedJobs),
            jobs@.len() >= 2 && Self::shape_ok(vjobs(jobs@)) && !Self::size_ok(vjobs(jobs@))
                ==> r == Err::<Instance, InstanceError>(InstanceError::TooLarge),
            jobs@.len() >= 2 && Self::shape_ok(vjobs(jobs@)) && Self::size_ok(vjobs(jobs@)) ==> {
                &&& r is Ok
                &&& r.unwrap().wf()
                &&& r.unwrap().js() == vjobs(jobs@)
                &&& r.unwrap().n == jobs@.len()
                &&& r.unwrap().m == vjobs(jobs@)[0].len() as int / 2
                &&& r.unwrap().name@ == name@
                &&& r.unwrap().type_ == type_
                &&& r.unwrap().termination_limit == termination_limit
                &&& r.unwrap().is_timed == is_timed
            },
    {
        let n = jobs.len();
        if n == 0 {
            return Err(InstanceError::EmptyInstance);
        }
        if n == 1 {
            return Err(InstanceError::DegenerateInstance);
        }
        let first_len = jobs[0].len();
        assert(vjobs(jobs@)[0] == jobs@[0]@);
        if first_len == 0 || first_len % 2 != 0 {
            assert(!Self::shape_ok(vjobs(jobs@)));
            return Err(InstanceError::MalformedJobs);
        }
        let m = first_len / 2;

        let mut j: usize = 0;
        while j < n
            invariant
                n == jobs@.len(),
                n >= 2,
                m >= 1,
                2 * m == vjobs(jobs@)[0].len(),
                2 * m <= usize::MAX,
                j <= n,
                forall|j2: int| 0 <= j2 < j ==> job_wf(#[trigger] vjobs(jobs@)[j2], m as int),
            decreases n - j,
        {
            assert(vjobs(jobs@)[j as int] == jobs@[j as int]@);
            if !row_wf(&jobs[j], m) {
                proof {
                    assert(!job_wf(vjobs(jobs@)[j as int], vjobs(jobs@)[0].len() as int / 2));
                    assert(!Self::shape_ok(vjobs(jobs@)));
                }
                return Err(InstanceError::MalformedJobs);
            }
            j += 1;
        }
        assert(Self::shape_ok(vjobs(jobs@)));

        let nm = match n.checked_mul(m) {
            Some(nm) => nm,
            None => {
                proof {
                    assert(n * m > usize::MAX);
                    assert(3 * (n as int) * (m as int) >= n * m) by (nonlinear_arith)
                        requires
                            n >= 0,
                            m >= 0,
                    ;
                    assert(!Self::size_ok(vjobs(jobs@)));
                }
                return Err(InstanceError::TooLarge);
            },
        };
        if nm.checked_mul(3).is_none() {
            proof {
                assert(nm * 3 == 3 * (n as int) * (m as int)) by (nonlinear_arith)
                    requires
                        nm == n * m,
                ;
                assert(!Self::size_ok(vjobs(jobs@)));
            }
            return Err(InstanceError::TooLarge);
        }

        let mut acc: usize = 0;
        let mut j: usize = 0;
        while j < n
            invariant
                n == vjobs(jobs@).len(),
                n >= 2,
                m >= 1,
                2 * m == vjobs(jobs@)[0].len(),
                2 * m <= usize::MAX,
                j <= n,
                forall|j2: int| 0 <= j2 < n ==> job_wf(#[trigger] vjobs(jobs@)[j2], m as int),
                acc == jobs_prefix_total(vjobs(jobs@), m as int, j as int),
            decreases n - j,
        {
            let mut q: usize = 0;
            while q < m
                invariant
                    n == vjobs(jobs@).len(),
                    n >= 2,
                    m >= 1,
                    2 * m == vjobs(jobs@)[0].len(),
                    2 * m <= usize::MAX,
                    j < n,
                    q <= m,
                    forall|j2: int| 0 <= j2 < n ==> job_wf(#[trigger] vjobs(jobs@)[j2], m as int),
                    job_wf(vjobs(jobs@)[j as int], m as int),
                    acc == jobs_prefix_total(vjobs(jobs@), m as int, j as int) + job_prefix_total(
                        vjobs(jobs@)[j as int],
                        q as int,
                    ),
                decreases m - q,
            {
                assert(vjobs(jobs@)[j as int] == jobs@[j as int]@);
                assert(jobs@[j as int]@.len() == 2 * m);
                let d = jobs[j][2 * q + 1];
                assert(d as int == job_dur(vjobs(jobs@)[j as int], q as int));
                match acc.checked_add(d) {
                    Some(next) => {
                        acc = next;
                    },
                    None => {
                        proof {
                            let js = vjobs(jobs@);
                            lemma_job_prefix_total_mono(js[j as int], (q + 1) as int, m as int);
                            lemma_jobs_prefix_total_mono(js, m as int, (j + 1) as int, n as int);
                            assert(jobs_total(js, m as int) > usize::MAX);
                            assert(!Self::size_ok(js));
                        }
                        return Err(InstanceError::TooLarge);
                    },
                }
                q += 1;
            }
            j += 1;
        }

        proof {
            assert(3 * (n as int) * (m as int) == nm * 3) by (nonlinear_arith)
                requires
                    nm == n * m,
            ;
        }
        Ok(Instance {
            name: name.to_owned(),
            type_,
            termination_limit,
            is_timed,
            n,
            m,
            jobs,
        })
    }

    /// Every row of the table is well-formed for the machine count derived
    /// from the first row.
    pub open spec fn shape_ok(js: Seq<Seq<usize>>) -> bool {
        &&& js[0].len() >= 2
        &&& js[0].len() % 2 == 0
        &&& forall|j: int| 0 <= j < js.len() ==> job_wf(#[trigger] js[j], js[0].len() as int / 2)
    }

    /// The ordering length and the total processing time fit in `usize`.
    pub open spec fn size_ok(js: Seq<Seq<usize>>) -> bool {
        &&& 3 * js.len() * (js[0].len() as int / 2) <= usize::MAX
        &&& jobs_total(js, js[0].len() as int / 2) <= usize::MAX
    }
}

impl Clone for Instance {
    /// A clone describes the same problem, so it is well-formed whenever
    /// the original is.
    fn clone(&self) -> (r: Self)
        ensures
            r.same_problem(*self),
            self.wf() ==> r.wf(),
    {
        let mut jobs: Vec<Vec<usize>> = Vec::new();
        let mut j: usize = 0;
        while j < self.jobs.len()
            invariant
                j <= self.jobs@.len(),
                jobs@.len() == j,
                forall|j2: int| 0 <= j2 < j ==> #[trigger] jobs@[j2]@ == self.jobs@[j2]@,
            decreases self.jobs@.len() - j,
        {
            jobs.push(crate::ordering::clone_order(&self.jobs[j]));
            j += 1;
        }
        let r = Instance {
            jobs,
            name: clone_string(&self.name),
            type_: self.type_,
            m: self.m,
            n: self.n,
            termination_limit: self.termination_limit,
            is_timed: self.is_timed,
        };
        proof {
            assert(r.js() =~= self.js());
        }
        r
    }
}

/// Copies a string.
fn clone_string(s: &String) -> (r: String)
    ensures
        r@ == s@,
{
    s.as_str().to_owned()
}

/// One interleaved row alternates the machines and durations of its two
/// source rows.
pub open spec fn interleaved_row(row: Seq<usize>, ms: Seq<usize>, ts: Seq<usize>) -> bool {
    &&& row.len() == 2 * ms.len()
    &&& ms.len() == ts.len()
    &&& forall|q: int|
        0 <= q < ms.len() ==> #[trigger] job_machine(row, q) == ms[q] && job_dur(row, q) == ts[q]
}

/// Interleaves a machine table and a duration table into one job table:
/// row `j` of the result alternates `machines[j][q], times[j][q]`.  This is
/// the reduction the two-block textual format needs before validation.
pub fn interleave_jobs(machines: Vec<Vec<usize>>, times: Vec<Vec<usize>>) -> (r: Vec<Vec<usize>>)
    requires
        machines@.len() == times@.len(),
        forall|j: int|
            0 <= j < machines@.len() ==> (#[trigger] machines@[j]@).len() == times@[j]@.len(),
        forall|j: int| 0 <= j < machines@.len() ==> 2 * (#[trigger] machines@[j]@).len()
            <= usize::MAX,
    ensures
        r@.len() == machines@.len(),
        forall|j: int|
            0 <= j < r@.len() ==> interleaved_row((#[trigger] r@[j])@, machines@[j]@, times@[j]@),
{
    let mut r: Vec<Vec<usize>> = Vec::new();
    let mut j: usize = 0;
    let total = machines.len();
    while j < total
        invariant
            total == machines@.len(),
            machines@.len() == times@.len(),
            forall|j2: int|
                0 <= j2 < machines@.len() ==> (#[trigger] machines@[j2]@).len()
                    == times@[j2]@.len(),
            forall|j2: int| 0 <= j2 < machines@.len() ==> 2 * (#[trigger] machines@[j2]@).len()
                <= usize::MAX,
            j <= total,
            r@.len() == j,
            forall|j2: int|
                0 <= j2 < j ==> interleaved_row((#[trigger] r@[j2])@, machines@[j2]@, times@[j2]@),
        decreases total - j,
    {
        let ops = machines[j].len();
        let mut row: Vec<usize> = Vec::new();
        let mut q: usize = 0;
        while q < ops
            invariant
                j < machines@.len(),
                machines@.len() == times@.len(),
                ops == machines@[j as int]@.len(),
                machines@[j as int]@.len() == times@[j as int]@.len(),
                2 * ops <= usize::MAX,
                q <= ops,
                row@.len() == 2 * q,
                forall|q2: int|
                    0 <= q2 < q ==> #[trigger] job_machine(row@, q2) == machines@[j as int]@[q2]
                        && job_dur(row@, q2) == times@[j as int]@[q2],
            decreases ops - q,
        {
            let ghost row0 = row@;
            row.push(machines[j][q]);
            row.push(times[j][q]);
            proof {
                assert forall|q2: int| 0 <= q2 < q + 1 implies #[trigger] job_machine(row@, q2)
                    == machines@[j as int]@[q2] && job_dur(row@, q2) == times@[j as int]@[q2] by {
                    assert(job_machine(row@, q2) == row@[2 * q2] as int);
                    assert(job_dur(row@, q2) == row@[2 * q2 + 1] as int);
                    if q2 < q {
                        assert(row@[2 * q2] == row0[2 * q2]);
                        assert(row@[2 * q2 + 1] == row0[2 * q2 + 1]);
                        assert(job_machine(row0, q2) == row0[2 * q2] as int);
                        assert(job_dur(row0, q2) == row0[2 * q2 + 1] as int);
                    } else {
                        assert(row@[2 * q2] == machines@[j as int]@[q as int]);
                        assert(row@[2 * q2 + 1] == times@[j as int]@[q as int]);
                    }
                }
            }
            q += 1;
        }
        proof {
            assert(interleaved_row(row@, machines@[j as int]@, times@[j as int]@));
        }
        r.push(row);
        j += 1;
    }
    r
}

/// The view of a vector-of-vectors job table as a sequence of sequences.
pub open spec fn vjobs(jobs: Seq<Vec<usize>>) -> Seq<Seq<usize>> {
    jobs.map_values(|row: Vec<usize>| row@)
}

/// Checks one job row: length `2*m`, every machine id in range, and no
/// machine repeated (which, for `m` operations over `m` machines, means
/// every machine occurs exactly once).
fn row_wf(job: &Vec<usize>, m: usize) -> (r: bool)
    requires
        m >= 1,
    ensures
        r == job_wf(job@, m as int),
{
    if job.len() % 2 != 0 || job.len() / 2 != m {
        proof {
            assert(!job_wf(job@, m as int));
        }
        return false;
    }
    assert(job@.len() == 2 * m);
    let mut seen: Vec<bool> = Vec::new();
    let mut k: usize = 0;
    while k < m
        invariant
            k <= m,
            seen@.len() == k,
            forall|k2: int| 0 <= k2 < k ==> !seen@[k2],
        decreases m - k,
    {
        seen.push(false);
        k += 1;
    }

    let mut q: usize = 0;
    while q < m
        invariant
            m >= 1,
            job@.len() == 2 * m,
            2 * m <= usize::MAX,
            q <= m,
            seen@.len() == m,
            forall|q2: int| 0 <= q2 < q ==> 0 <= #[trigger] job_machine(job@, q2) < m,
            forall|k2: int|
                0 <= k2 < m ==> seen@[k2] == (count_machine(job@, k2, q as int) >= 1),
            forall|k2: int|
                0 <= k2 < m ==> 0 <= #[trigger] count_machine(job@, k2, q as int) <= 1,
        decreases m - q,
    {
        assert(2 * q + 1 < job@.len());
        let machine = job[2 * q];
        assert(machine as int == job_machine(job@, q as int));
        if machine >= m {
            assert(!(0 <= job_machine(job@, q as int) < m));
            return false;
        }
        if seen[machine] {
            proof {
                assert(count_machine(job@, machine as int, q as int) >= 1);
                assert(count_machine(job@, machine as int, (q + 1) as int) >= 2);
                lemma_count_machine_monotone(job@, machine as int, (q + 1) as int, m as int);
                assert(count_machine(job@, machine as int, m as int) >= 2);
            }
            return false;
        }
        seen.set(machine, true);
        proof {
            assert forall|k2: int| 0 <= k2 < m implies seen@[k2] == (count_machine(
                job@,
                k2,
                (q + 1) as int,
            ) >= 1) by {
                assert(count_machine(job@, k2, (q + 1) as int) == count_machine(job@, k2, q as int)
                    + if job_machine(job@, q as int) == k2 {
                    1int
                } else {
                    0int
                });
            }
            assert forall|k2: int| 0 <= k2 < m implies 0 <= #[trigger] count_machine(
                job@,
                k2,
                (q + 1) as int,
            ) <= 1 by {
                assert(count_machine(job@, k2, (q + 1) as int) == count_machine(job@, k2, q as int)
                    + if job_machine(job@, q as int) == k2 {
                    1int
                } else {
                    0int
                });
            }
        }
        q += 1;
    }
    proof {
        assert forall|k2: int| 0 <= k2 < m implies #[trigger] count_machine(job@, k2, m as int)
            == 1 by {
            assert(seen@[k2] == (count_machine(job@, k2, m as int) >= 1));
            if !seen@[k2] {
                lemma_count_machine_total(job@, m as int);
                lemma_count_machine_missing(job@, k2, m as int);
                assert(false);
            }
        }
    }
    true
}

/// Machine counts are never negative.
pub proof fn lemma_count_machine_nonneg(job: Seq<usize>, k: int, q: int)
    ensures
        count_machine(job, k, q) >= 0,
    decreases q,
{
    if q > 0 {
        lemma_count_machine_nonneg(job, k, q - 1);
    }
}

/// `count_machine` grows with the prefix length.
pub proof fn lemma_count_machine_monotone(job: Seq<usize>, k: int, q1: int, q2: int)
    requires
        0 <= q1 <= q2,
    ensures
        count_machine(job, k, q1) <= count_machine(job, k, q2),
    decreases q2,
{
    if q1 < q2 {
        lemma_count_machine_monotone(job, k, q1, q2 - 1);
        assert(count_machine(job, k, q2) >= count_machine(job, k, q2 - 1));
    }
}

/// Summed over all machines, the first `q` operations count `q` machine
/// slots when every machine id is in range.
pub open spec fn count_machine_sum(job: Seq<usize>, m: int, upto_k: int, q: int) -> int
    decreases upto_k,
{
    if upto_k <= 0 {
        0
    } else {
        count_machine_sum(job, m, upto_k - 1, q) + count_machine(job, upto_k - 1, q)
    }
}

proof fn lemma_count_machine_sum_step_one(job: Seq<usize>, m: int, uk: int, q: int)
    requires
        0 <= q,
        0 <= uk,
        0 <= job_machine(job, q) < m,
    ensures
        count_machine_sum(job, m, uk, q + 1) == count_machine_sum(job, m, uk, q) + if job_machine(
            job,
            q,
        ) < uk {
            1int
        } else {
            0int
        },
    decreases uk,
{
    if uk > 0 {
        lemma_count_machine_sum_step_one(job, m, uk - 1, q);
    }
}

proof fn lemma_count_machine_sum_zero(job: Seq<usize>, m: int, uk: int)
    requires
        0 <= uk,
    ensures
        count_machine_sum(job, m, uk, 0) == 0,
    decreases uk,
{
    if uk > 0 {
        lemma_count_machine_sum_zero(job, m, uk - 1);
    }
}

/// With every machine id of the first `m` operations in range, the counts
/// over all `m` machines sum to `m`.
proof fn lemma_count_machine_total_rec(job: Seq<usize>, m: int, q: int)
    requires
        0 <= q <= m,
        forall|q2: int| 0 <= q2 < m ==> 0 <= #[trigger] job_machine(job, q2) < m,
    ensures
        count_machine_sum(job, m, m, q) == q,
    decreases q,
{
    if q > 0 {
        lemma_count_machine_total_rec(job, m, q - 1);
        assert(0 <= job_machine(job, q - 1) < m);
        lemma_count_machine_sum_step_one(job, m, m, q - 1);
        assert(count_machine_sum(job, m, m, (q - 1) + 1) == count_machine_sum(job, m, m, q - 1)
            + 1);
    } else {
        lemma_count_machine_sum_zero(job, m, m);
    }
}

/// Same, stated for the full row.
pub proof fn lemma_count_machine_total(job: Seq<usize>, m: int)
    requires
        forall|q2: int| 0 <= q2 < m ==> 0 <= #[trigger] job_machine(job, q2) < m,
        m >= 0,
    ensures
        count_machine_sum(job, m, m, m) == m,
{
    lemma_count_machine_total_rec(job, m, m);
}

/// If every machine's count is at most one and machine `k0`'s count is
/// zero, the counts cannot sum to `m`.
proof fn lemma_count_machine_missing_rec(job: Seq<usize>, m: int, k0: int, uk: int)
    requires
        0 <= k0 < m,
        count_machine(job, k0, m) == 0,
        forall|k2: int| 0 <= k2 < m ==> #[trigger] count_machine(job, k2, m) <= 1,
        0 <= uk <= m,
    ensures
        count_machine_sum(job, m, uk, m) <= if k0 < uk {
            uk - 1
        } else {
            uk
        },
    decreases uk,
{
    if uk > 0 {
        lemma_count_machine_missing_rec(job, m, k0, uk - 1);
    }
}

/// Durations are never negative, so a longer prefix of a job sums to at
/// least as much.
pub proof fn lemma_job_prefix_total_mono(job: Seq<usize>, q1: int, q2: int)
    requires
        q1 <= q2,
    ensures
        job_prefix_total(job, q1) <= job_prefix_total(job, q2),
    decreases q2 - q1,
{
    if q1 < q2 {
        lemma_job_prefix_total_mono(job, q1, q2 - 1);
    }
}

/// Every job's prefix total is non-negative.
pub proof fn lemma_job_prefix_total_nonneg(job: Seq<usize>, q: int)
    ensures
        job_prefix_total(job, q) >= 0,
{
    if q <= 0 {
        assert(job_prefix_total(job, q) == 0);
    } else {
        lemma_job_prefix_total_mono(job, 0, q);
    }
}

/// Job totals are never negative, so more jobs sum to at least as much.
pub proof fn lemma_jobs_prefix_total_mono(js: Seq<Seq<usize>>, m: int, j1: int, j2: int)
    requires
        j1 <= j2,
    ensures
        jobs_prefix_total(js, m, j1) <= jobs_prefix_total(js, m, j2),
    decreases j2 - j1,
{
    if j1 < j2 {
        lemma_jobs_prefix_total_mono(js, m, j1, j2 - 1);
        lemma_job_prefix_total_nonneg(js[j2 - 1], m);
    }
}

/// A machine with no operation makes the total machine count fall short.
pub proof fn lemma_count_machine_missing(job: Seq<usize>, k0: int, m: int)
    requires
        0 <= k0 < m,
        count_machine(job, k0, m) == 0,
        forall|k2: int| 0 <= k2 < m ==> #[trigger] count_machine(job, k2, m) <= 1,
    ensures
        count_machine_sum(job, m, m, m) < m,
{
    lemma_count_machine_missing_rec(job, m, k0, m);
}

} // verus!
