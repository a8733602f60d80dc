//! Verified solvers for a collection of small daily text puzzles.
//!
//! Each `dayNN` module exposes `part_1` and `part_2`, pure functions from the
//! puzzle's textual input to a numeric answer.  The centrepiece is `day17`,
//! a shortest-path search over a weighted grid whose movement is constrained
//! to straight runs of bounded length; its result is proved to be the exact
//! minimum over all valid paths.

pub mod day01;
pub mod day02;
pub mod day04;
pub mod day06;
pub mod day09;
pub mod day11;
pub mod day13;
pub mod day15;
pub mod day16;
pub mod day17;
pub mod day18;
pub mod error;
pub mod text;
