//! Verified core of a job-shop scheduling solver.
//!
//! An `Instance` holds `n` jobs of `m` operations each (a machine and a
//! duration per operation, in the job's fixed technological order).  A
//! candidate ordering (each job index repeated `m` times) is decoded into a
//! feasible schedule by a single greedy pass; permutation-preserving
//! operators perturb and combine orderings; a family of search strategies
//! (random sampling, hill climbing with restarts, simulated annealing,
//! batched tabu-style search, genetic search with clearing) runs on top of a
//! shared evaluation oracle (`BlackBox`).

pub mod instance;
pub mod ordering;
pub mod schedule;
pub mod bounds;
pub mod rng;
pub mod clock;
pub mod candidate;
pub mod oracle;
pub mod operators;
pub mod random_sample;
pub mod hill_climber;
pub mod tabu_search;
pub mod annealing;
pub mod genetic;

pub use instance::{Instance, InstanceType, InstanceError};
pub use schedule::CandidateSchedule;
pub use candidate::Candidate;
pub use oracle::{BlackBox, Counter, Time, TerminationCriterion, NullaryOperator,
    UnaryOperator1Swap, UnaryOperatorNSwap, BinaryOperator};
pub use random_sample::{RandomSample, RandomSampleThreaded};
pub use hill_climber::{HillClimber, OperatorKind, ConfigError};
pub use tabu_search::Tabu;
pub use annealing::SimulatedAnnealing;
pub use genetic::Genetic;
