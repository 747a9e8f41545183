//! Verified algorithms for programming contests: a 0-1 knapsack solver that
//! runs its recursion on an explicit stack, integer and modular
//! combinatorics, disjoint sets, and all-pairs shortest paths.

pub mod knapsack;
pub mod math;
pub mod modulo;
pub mod unionfind;
pub mod warshall_floyd;
