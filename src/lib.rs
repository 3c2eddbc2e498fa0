//! Solvers for the maximum diversity problem: choose `m` of `n` points so that
//! the sum of the pairwise distances among the chosen points is as large as
//! possible. Coordinates are fixed-point integers and distances are Euclidean,
//! rounded down to a whole unit, so every comparison the solvers make is exact.
pub mod point;
pub mod solution;
pub mod instance;
pub mod solver;
pub mod pool;
pub mod center;
pub mod greedy;
pub mod randomized_greedy;
pub mod neighborhood;
pub mod local_search;
pub mod grasp;
pub mod tabu_search;
pub mod partial_solution;
pub mod bound_lemmas;
pub mod branch_and_bound;
pub mod text;
