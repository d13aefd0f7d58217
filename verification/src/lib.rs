//! Grid-reward search strategies over a small maze world.
//!
//! A `MazeState` is a rectangular grid of non-negative rewards with a single
//! agent; an `AutoMoveMazeState` carries several agents that move by a fixed
//! greedy auto-pilot.  On top of the shared state abstraction the crate offers
//! one-step greedy lookahead, beam search, chokudai search (fixed or
//! wall-clock bounded), hill-climbing and the verified core of simulated
//! annealing.

pub mod anneal;
pub mod auto_maze;
pub mod beam;
pub mod coord;
pub mod grid;
pub mod maze;
pub mod rng;
pub mod search;
pub mod timer;
