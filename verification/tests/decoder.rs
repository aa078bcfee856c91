// The golden three-job fixture, instance validation, decoding, bounds, and
// the permutation-preserving operators.

use jssp::instance::{Instance, InstanceType, InstanceError, interleave_jobs};
use jssp::oracle::BlackBox;
use jssp::candidate::Candidate;

fn demo_jobs() -> Vec<Vec<usize>> {
    vec![vec![0, 3, 1, 2], vec![1, 4, 0, 1], vec![0, 2, 1, 5]]
}

fn demo_instance() -> Instance {
    Instance::new("demo", InstanceType::ORLIB, demo_jobs(), 10, false).unwrap()
}

#[test]
fn golden_fixture_decode() {
    let bb = BlackBox::new(demo_instance(), "fixture", 7);
    let order = vec![0, 1, 2, 0, 1, 2];
    let c = Candidate::new(&order, &bb);
    assert_eq!(c.makespan, 11);
    assert_eq!(c.order, order);
    // Machine 0: job 0 in [0,3), job 2 in [3,5), job 1 in [5,6).
    // Machine 1: job 1 in [0,4), job 0 in [4,6), job 2 in [6,11).
    assert_eq!(c.schedule, vec![vec![0, 0, 3, 2, 3, 5, 1, 5, 6], vec![1, 0, 4, 0, 4, 6, 2, 6, 11]]);
}

#[test]
fn golden_fixture_bounds() {
    let bb = BlackBox::new(demo_instance(), "fixture", 7);
    // Job totals are 5, 5, 7; machine 1 carries 2+4+5 = 11 with zero head
    // and tail minima, which dominates.
    assert_eq!(bb.lower_bound, 11);
    // The loose ceiling is the sum of all job totals.
    assert_eq!(bb.upper_bound, 17);
    assert!(bb.lower_bound <= bb.best_candidate.makespan);
    assert!(bb.best_candidate.makespan <= bb.upper_bound);
}

#[test]
fn reversed_order_decodes_within_bounds() {
    let bb = BlackBox::new(demo_instance(), "fixture", 7);
    let c = Candidate::new(&vec![2, 1, 0, 2, 1, 0], &bb);
    assert!(bb.lower_bound <= c.makespan && c.makespan <= bb.upper_bound);
}

#[test]
fn instance_rejects_empty() {
    let r = Instance::new("bad", InstanceType::ORLIB, Vec::new(), 10, false);
    assert_eq!(r.unwrap_err(), InstanceError::EmptyInstance);
}

#[test]
fn instance_rejects_single_job() {
    let r = Instance::new("bad", InstanceType::ORLIB, vec![vec![0, 3]], 10, false);
    assert_eq!(r.unwrap_err(), InstanceError::DegenerateInstance);
}

#[test]
fn instance_rejects_odd_row() {
    let r = Instance::new("bad", InstanceType::ORLIB, vec![vec![0, 3, 1], vec![0, 3, 1]], 10, false);
    assert_eq!(r.unwrap_err(), InstanceError::MalformedJobs);
}

#[test]
fn instance_rejects_machine_out_of_range() {
    let r = Instance::new("bad", InstanceType::ORLIB, vec![vec![0, 3, 7, 2], vec![0, 3, 1, 2]], 10, false);
    assert_eq!(r.unwrap_err(), InstanceError::MalformedJobs);
}

#[test]
fn instance_rejects_repeated_machine() {
    let r = Instance::new("bad", InstanceType::ORLIB, vec![vec![0, 3, 0, 2], vec![0, 3, 1, 2]], 10, false);
    assert_eq!(r.unwrap_err(), InstanceError::MalformedJobs);
}

#[test]
fn instance_rejects_mismatched_rows() {
    let r = Instance::new("bad", InstanceType::ORLIB, vec![vec![0, 3, 1, 2], vec![0, 3]], 10, false);
    assert_eq!(r.unwrap_err(), InstanceError::MalformedJobs);
}

#[test]
fn instance_rejects_overflowing_totals() {
    let r = Instance::new(
        "bad",
        InstanceType::ORLIB,
        vec![vec![0, usize::MAX], vec![0, usize::MAX]],
        10,
        false,
    );
    assert_eq!(r.unwrap_err(), InstanceError::TooLarge);
}

#[test]
fn instance_type_labels() {
    assert_eq!(InstanceType::ORLIB.label(), "Orlib");
    assert_eq!(InstanceType::TAILLARD.label(), "Taillard");
}

#[test]
fn interleave_two_block_format() {
    let machines = vec![vec![0, 1], vec![1, 0]];
    let times = vec![vec![3, 2], vec![4, 1]];
    let jobs = interleave_jobs(machines, times);
    assert_eq!(jobs, vec![vec![0, 3, 1, 2], vec![1, 4, 0, 1]]);
}

#[test]
fn canonical_ordering_repeats_each_job() {
    let bb = BlackBox::new(demo_instance(), "fixture", 7);
    assert_eq!(bb.create(), vec![0, 0, 1, 1, 2, 2]);
}

fn counts(order: &[usize], n: usize) -> Vec<usize> {
    let mut c = vec![0; n];
    for &v in order {
        c[v] += 1;
    }
    c
}

#[test]
fn initial_candidate_is_a_permutation() {
    let bb = BlackBox::new(demo_instance(), "fixture", 42);
    assert_eq!(bb.best_candidate.order.len(), 6);
    assert_eq!(counts(&bb.best_candidate.order, 3), vec![2, 2, 2]);
}

#[test]
fn shuffle_actually_permutes_for_some_seed() {
    // If the random permutation handed its input back unchanged, every seed
    // would reproduce the canonical ordering.
    let canonical = vec![0, 0, 1, 1, 2, 2];
    let mut saw_other = false;
    for seed in 0..20 {
        let bb = BlackBox::new(demo_instance(), "fixture", seed);
        assert_eq!(counts(&bb.best_candidate.order, 3), vec![2, 2, 2]);
        if bb.best_candidate.order != canonical {
            saw_other = true;
        }
    }
    assert!(saw_other);
}

#[test]
fn single_swap_keeps_the_multiset_and_swaps_two_slots() {
    let mut bb = BlackBox::new(demo_instance(), "ops", 3);
    let base = bb.best_candidate.clone();
    let c = bb.apply_1swap(&base);
    assert_eq!(counts(&c.order, 3), counts(&base.order, 3));
    let differing: Vec<usize> = (0..base.order.len()).filter(|&i| base.order[i] != c.order[i]).collect();
    assert_eq!(differing.len(), 2);
    assert_eq!(base.order[differing[0]], c.order[differing[1]]);
    assert_eq!(base.order[differing[1]], c.order[differing[0]]);
}

#[test]
fn multi_swap_keeps_the_multiset() {
    let mut bb = BlackBox::new(demo_instance(), "ops", 9);
    let base = bb.best_candidate.clone();
    for _ in 0..10 {
        let c = bb.apply_nswap(&base);
        assert_eq!(counts(&c.order, 3), vec![2, 2, 2]);
    }
}

#[test]
fn crossover_keeps_the_multiset() {
    let mut bb = BlackBox::new(demo_instance(), "ops", 11);
    let a = bb.apply_nullary();
    let b = bb.apply_nullary();
    for _ in 0..10 {
        let child = bb.apply_binary(&a, &b);
        assert_eq!(counts(&child.order, 3), vec![2, 2, 2]);
    }
}

#[test]
fn crossover_of_identical_parents_reproduces_them() {
    let mut bb = BlackBox::new(demo_instance(), "ops", 11);
    let a = bb.apply_nullary();
    let b = a.clone();
    for _ in 0..5 {
        let child = bb.apply_binary(&a, &b);
        assert_eq!(child.order, a.order);
    }
}

#[test]
fn candidate_clone_carries_the_solution() {
    let bb = BlackBox::new(demo_instance(), "ops", 4);
    let c = Candidate::new(&vec![0, 1, 2, 0, 1, 2], &bb);
    let d = c.clone();
    assert_eq!(d.makespan, c.makespan);
    assert_eq!(d.order, c.order);
    assert_eq!(d.schedule, c.schedule);
}

#[test]
fn schedule_is_feasible() {
    // Every machine's entries are chained without overlap, and each job's
    // operations respect its technological order.
    let inst = demo_instance();
    let bb = BlackBox::new(inst, "feasibility", 5);
    let c = bb.best_candidate.clone();
    let mut job_end = vec![0usize; 3];
    let mut job_ops = vec![0usize; 3];
    for row in &c.schedule {
        let mut prev_end = 0usize;
        let mut p = 0;
        while p + 2 < row.len() + 1 {
            let (start, end) = (row[p + 1], row[p + 2]);
            assert!(prev_end <= start && start <= end);
            prev_end = end;
            p += 3;
        }
    }
    // Replay the ordering through the job table to check technological order.
    let inst = demo_instance();
    let mut machine_free = vec![0usize; inst.m];
    for &job in &c.order {
        let q = job_ops[job];
        let machine = inst.jobs[job][2 * q];
        let dur = inst.jobs[job][2 * q + 1];
        let start = machine_free[machine].max(job_end[job]);
        assert!(start >= job_end[job]);
        machine_free[machine] = start + dur;
        job_end[job] = start + dur;
        job_ops[job] += 1;
    }
    assert_eq!(job_ops, vec![2, 2, 2]);
}
