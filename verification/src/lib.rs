//! Solvers for a set of daily text puzzles, and the rules by which a
//! puzzle's input is found, cached and reported.

pub mod selector;
pub mod sums;
pub mod cache_model;
pub mod day01;
pub mod day02;
pub mod day03;
pub mod day04;
pub mod day05;
pub mod day06;
pub mod decimal;
pub mod driver;
pub mod error;
pub mod provider;
pub mod text;
