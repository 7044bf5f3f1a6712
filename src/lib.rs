/// Reading the clock for the run's time budget.
pub mod clock;
/// Partially mapped crossover of job permutations.
pub mod crossover;
/// Flow-shop instances and the makespan evaluator.
pub mod instance;
/// The instance file format.
pub mod parse;
/// Facts about permutations of job indices.
pub mod perm;
/// The random draws of the algorithm.
pub mod random;
/// The heuristic seeds of the first population.
pub mod seeding;
/// First minimum and maximum, and tournament winners.
pub mod select;
/// The memetic algorithm.
pub mod solver;
