//! A genetic-algorithm solver for the Euclidean travelling salesman problem.
//!
//! Given a list of 2D integer points ("nodes"), the library evolves a
//! population of candidate orderings ("tours") over successive generations,
//! using fitness-weighted selection, a segment-preserving crossover operator
//! and low-probability swap mutation, converging toward shorter round trips.
//!
//! All fitness bookkeeping is done in exact integer arithmetic: a tour's
//! distance is a sum of per-edge integer-truncated Euclidean lengths, its
//! fitness is a scaled reciprocal of that distance, and the relative and
//! amplified selection weights are exact rationals over the population's
//! total fitness.

use vstd::prelude::*;

pub mod ga;
pub mod isqrt;
pub mod node;
pub mod population;
pub mod rng;
pub mod tour;

verus! {

/// Largest coordinate magnitude a tour node may carry. Keeping coordinates
/// bounded keeps every distance and fitness computation free of overflow.
pub const COORD_LIMIT: i32 = 10_000;

/// Largest supported problem size (nodes per tour).
pub const MAX_TOUR_LEN: usize = 1_000;

/// Largest possible length of a single edge between two in-bounds nodes:
/// `isqrt(2 * (2 * COORD_LIMIT)^2) = isqrt(800_000_000) = 28_284`.
pub const EDGE_MAX: u64 = 28_284;

/// Largest possible total distance of a tour: `EDGE_MAX * MAX_TOUR_LEN`.
pub const DIST_MAX: u64 = 28_284_000;

/// Scale of the fixed-point fitness value: `fitness = FITNESS_SCALE / distance`.
/// Chosen so that `DIST_MAX * DIST_MAX <= FITNESS_SCALE`, which makes the
/// fitness of a strictly shorter tour strictly larger.
pub const FITNESS_SCALE: u64 = 1_000_000_000_000_000;

/// Largest supported population size.
pub const POP_MAX: usize = 10_000;

/// Largest possible total fitness of a population:
/// `POP_MAX * FITNESS_SCALE`.
pub const TOTAL_FITNESS_MAX: u128 = 10_000_000_000_000_000_000;

/// Resolution of the uniform draw that drives roulette selection: the
/// random value stands for the fraction `u / ROULETTE_DEN` of the wheel.
pub const ROULETTE_DEN: u64 = 1_000_000_000;

/// Roulette weight amplification strength: how strongly an above-average
/// tour is favoured over plain fitness-proportional weighting.
pub const AMPLIFY_FACTOR: i128 = 2;

/// Default population size for a deployment.
pub const POP_COUNT: usize = 100;

/// Default per-position mutation probability, as the fraction
/// `MUTATION_RATE_NUM / MUTATION_RATE_DEN` (15 / 1000 = 0.015).
pub const MUTATION_RATE_NUM: u64 = 15;

/// Denominator of the mutation probability fraction.
pub const MUTATION_RATE_DEN: u64 = 1_000;

/// Default sample size for tournament selection.
pub const TOURNAMENT_SIZE: usize = 5;

} // verus!
