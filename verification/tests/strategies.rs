// The five search strategies, the clearing selection, the population sort,
// the history's monotonicity, and the parallel reduction step.

use jssp::instance::{Instance, InstanceType};
use jssp::oracle::{BlackBox, Counter, Time, TerminationCriterion};
use jssp::candidate::Candidate;
use jssp::random_sample::{RandomSample, RandomSampleThreaded, best_of, keep_better};
use jssp::hill_climber::{HillClimber, ConfigError};
use jssp::tabu_search::Tabu;
use jssp::annealing::SimulatedAnnealing;
use jssp::genetic::{Genetic, find_clear_length, sort_by_makespan};

fn demo_instance(limit: usize) -> Instance {
    let jobs = vec![
        vec![0, 3, 1, 2, 2, 4],
        vec![1, 4, 0, 1, 2, 3],
        vec![0, 2, 2, 5, 1, 1],
        vec![2, 2, 1, 3, 0, 4],
    ];
    Instance::new("demo4x3", InstanceType::ORLIB, jobs, limit, false).unwrap()
}

fn check_result(bb: &BlackBox) {
    assert!(!bb.history.is_empty());
    // History is non-increasing in makespan by construction.
    for w in bb.history.windows(2) {
        assert!(w[0].1 >= w[1].1);
    }
    assert_eq!(bb.history.last().unwrap().1, bb.best_candidate.makespan);
    assert!(bb.lower_bound <= bb.best_candidate.makespan);
    assert!(bb.best_candidate.makespan <= bb.upper_bound);
}

#[test]
fn random_sampling_run() {
    let bb = RandomSample::new(demo_instance(200), 1).solve();
    check_result(&bb);
    // In counter mode the run spends the whole iteration budget.
    assert_eq!(bb.termination_counter, 200);
}

#[test]
fn random_sampling_timed_run_ends() {
    let jobs = vec![vec![0, 1, 1, 1], vec![1, 2, 0, 2]];
    let instance = Instance::new("tiny", InstanceType::ORLIB, jobs, 0, true).unwrap();
    let bb = RandomSample::new(instance, 1).solve();
    check_result(&bb);
}

#[test]
fn hill_climbing_run_with_both_operators() {
    let one = HillClimber::new(&demo_instance(200), 10, "1swap", 2).unwrap().solve();
    check_result(&one);
    assert_eq!(one.termination_counter, 200);
    let many = HillClimber::new(&demo_instance(200), 10, "nswap", 3).unwrap().solve();
    check_result(&many);
    assert_eq!(many.termination_counter, 200);
}

#[test]
fn hill_climbing_with_threshold_one_restarts_every_step() {
    // With a reset threshold of one every non-improving iteration restarts
    // from a fresh sample, so the climb behaves like random sampling.
    let bb = HillClimber::new(&demo_instance(200), 1, "1swap", 4).unwrap().solve();
    check_result(&bb);
}

#[test]
fn hill_climbing_rejects_unknown_operator() {
    let r = HillClimber::new(&demo_instance(10), 5, "teleport", 2);
    assert_eq!(r.err().unwrap(), ConfigError::UnknownOperator);
}

#[test]
fn tabu_style_batched_run() {
    let bb = Tabu::new(&demo_instance(100), 4, 5).solve();
    check_result(&bb);
    assert_eq!(bb.termination_counter, 100);
}

#[test]
fn annealing_run_with_rejecting_and_accepting_draws() {
    // Drive the verified annealing core with a deterministic stand-in for
    // the Metropolis draw: accept every third worsening move.
    let mut sa = SimulatedAnnealing::new(demo_instance(150), 6);
    let mut tick = 0u32;
    loop {
        if sa.should_terminate() {
            break;
        }
        let (current, proposed) = sa.propose();
        let accept = proposed > current && tick % 3 == 0;
        sa.commit(accept);
        tick += 1;
    }
    let bb = sa.finish();
    check_result(&bb);
}

#[test]
fn genetic_run_with_clearing() {
    let bb = Genetic::new(&demo_instance(60), 8).solve(1, 2, 3, 5);
    check_result(&bb);
    assert_eq!(bb.termination_counter, 60);
}

#[test]
fn genetic_run_without_crossover() {
    let bb = Genetic::new(&demo_instance(60), 8).solve(0, 1, 2, 2);
    check_result(&bb);
}

fn tagged(makespan: usize, tag: usize) -> Candidate {
    Candidate { makespan, order: vec![tag], schedule: Vec::new() }
}

#[test]
fn clearing_selects_first_of_each_distinct_makespan() {
    // Sorted makespans [5, 5, 5, 7, 7, 9] with three survivor slots must
    // keep the candidates that sat at positions 0, 3 and 5.
    let mut p = vec![tagged(5, 0), tagged(5, 1), tagged(5, 2), tagged(7, 3), tagged(7, 4), tagged(9, 5)];
    let u = find_clear_length(&mut p, 3);
    assert_eq!(u, 3);
    assert_eq!(p[0].makespan, 5);
    assert_eq!(p[1].makespan, 7);
    assert_eq!(p[2].makespan, 9);
    assert_eq!(p[0].order, vec![0]);
    assert_eq!(p[1].order, vec![3]);
    assert_eq!(p[2].order, vec![5]);
}

#[test]
fn clearing_stops_at_the_distinct_values() {
    let mut p = vec![tagged(4, 0), tagged(4, 1), tagged(4, 2)];
    let u = find_clear_length(&mut p, 3);
    assert_eq!(u, 1);
    assert_eq!(p[0].order, vec![0]);
}

#[test]
fn population_sort_orders_by_makespan() {
    let mut p = vec![tagged(9, 0), tagged(2, 1), tagged(7, 2), tagged(2, 3), tagged(5, 4)];
    sort_by_makespan(&mut p);
    let ms: Vec<usize> = p.iter().map(|c| c.makespan).collect();
    assert_eq!(ms, vec![2, 2, 5, 7, 9]);
    let mut tags: Vec<usize> = p.iter().map(|c| c.order[0]).collect();
    tags.sort();
    assert_eq!(tags, vec![0, 1, 2, 3, 4]);
}

#[test]
fn reduction_picks_the_best_run() {
    let runs: Vec<BlackBox> = vec![
        RandomSample::new(demo_instance(30), 1).solve(),
        RandomSample::new(demo_instance(30), 2).solve(),
        RandomSample::new(demo_instance(30), 3).solve(),
    ];
    let spans: Vec<usize> = runs.iter().map(|bb| bb.best_candidate.makespan).collect();
    let best = best_of(runs).unwrap();
    assert_eq!(best.best_candidate.makespan, *spans.iter().min().unwrap());
}

#[test]
fn keep_better_prefers_strict_improvement() {
    let a = Candidate { makespan: 9, order: vec![0], schedule: Vec::new() };
    let b = Candidate { makespan: 7, order: vec![1], schedule: Vec::new() };
    assert_eq!(keep_better(a.clone(), b.clone()).order, vec![1]);
    assert_eq!(keep_better(b.clone(), a).order, vec![1]);
    let tie = Candidate { makespan: 7, order: vec![2], schedule: Vec::new() };
    assert_eq!(keep_better(b, tie).order, vec![1]);
}

#[test]
fn reduction_of_nothing_is_nothing() {
    assert!(best_of(Vec::new()).is_none());
}

#[test]
fn threaded_wrapper_keeps_the_instance() {
    let instance = demo_instance(10);
    let wrapped = RandomSampleThreaded::new(&instance);
    assert_eq!(wrapped.instance.jobs, instance.jobs);
    assert_eq!(wrapped.instance.n, instance.n);
    assert_eq!(wrapped.instance.m, instance.m);
}

#[test]
fn runs_are_reproducible_from_the_seed() {
    let a = RandomSample::new(demo_instance(100), 77).solve();
    let b = RandomSample::new(demo_instance(100), 77).solve();
    assert_eq!(a.best_candidate.makespan, b.best_candidate.makespan);
    assert_eq!(a.best_candidate.order, b.best_candidate.order);
}

#[test]
fn counter_termination_spends_the_budget() {
    let mut bb = BlackBox::new(demo_instance(3), "budget", 1);
    assert!(!<BlackBox as TerminationCriterion<Counter>>::should_terminate(&mut bb));
    assert!(!<BlackBox as TerminationCriterion<Counter>>::should_terminate(&mut bb));
    assert!(<BlackBox as TerminationCriterion<Counter>>::should_terminate(&mut bb));
    assert_eq!(bb.termination_counter, 3);
}

#[test]
fn timed_termination_with_a_zero_budget_stops_at_once() {
    let jobs = vec![vec![0, 1, 1, 1], vec![1, 2, 0, 2]];
    let instance = Instance::new("tiny", InstanceType::ORLIB, jobs, 0, true).unwrap();
    let mut bb = BlackBox::new(instance, "budget", 1);
    assert!(<BlackBox as TerminationCriterion<Time>>::should_terminate(&mut bb));
}
