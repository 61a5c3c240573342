//! A maze generator and a Metropolis sampler that searches for a route
//! through the maze by mutating candidate move sequences.

mod random;
pub mod maze;
pub mod path;

pub use maze::{Cell, Maze};
pub use path::{Edit, ErgodicAndSymmetric, Move, Path};
pub mod mcmc;
pub mod solver;

pub use mcmc::Mcmc;
pub use solver::{Proposal, Solver, Step};
