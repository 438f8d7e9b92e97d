//! Countdown numbers game: arithmetic expressions over integers and two
//! searches that build such an expression for a target from a list of numbers.
//!
//! - [`equations`]: expressions as right-nested chains, their evaluation and
//!   their rendering.
//! - [`moves`]: the steps that combine two numbers of a list, in the order
//!   in which the searches try them.
//! - [`solvers`]: the exhaustive search, the heuristic search, and the
//!   chains that the exhaustive search finds.
//! - [`chain`], [`position`]: what the searches hold while they run.
//! - [`generator`]: puzzles drawn at random.

pub mod chain;
pub mod equations;
pub mod generator;
pub mod moves;
pub mod position;
pub mod solvers;

pub use equations::{Equation, OpType, Operation, SolverError};
pub use generator::{Puzzle, PuzzleGenerator};
pub use solvers::{BruteForceSolver, MinimaxSolver};
