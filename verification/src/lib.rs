//! Exact solver for the symmetric traveling-salesman problem by depth-first
//! branch-and-bound over partial tours, with a work-donation protocol that
//! lets several search stacks share one frontier.
//!
//! Distances are non-negative integer weights.  A partial tour caches the
//! cost of its closed cycle (the visited path plus the return edge to the
//! start); that cached cost is the pruning bound.  Pruning is proved to keep
//! the optimum whenever the matrix satisfies the triangle inequality; tour
//! validity and termination are proved for every valid matrix.

pub mod matrix;
pub mod model;
pub mod parallel;
pub mod search;
pub mod tour;

pub use model::closed_cost;
pub use model::complete_tour;
pub use model::triangle_inequality;
pub use model::valid_matrix;
pub use model::valid_partial;
pub use matrix::DistanceMatrix;
pub use tour::Tour;
pub use search::serial_tsp_bb;
pub use search::get_initial_stack;
pub use search::bb_step;
pub use parallel::NewStack;
pub use parallel::split_stack;
pub use parallel::is_terminated;
pub use parallel::parallel_tsp_bb;
