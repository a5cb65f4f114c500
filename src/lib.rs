//! Solutions to a year of daily two-part programming puzzles, with the
//! grid, point and fixed-capacity vector helpers they share.
//!
//! Each `dayNN` module reads its puzzle text and computes the answers; every
//! answer is stated as a specification over the text and proved.
pub mod fixed_size_vec;
pub mod grid;
pub mod point;
pub mod rows;
pub mod sums;
pub mod text;

pub mod day01;
pub mod day02;
pub mod day03;
pub mod day04;
pub mod day05;
pub mod day06;
pub mod day07;
pub mod day08;
pub mod day09;
pub mod day10;
pub mod day11;
pub mod day12;
pub mod day13;
pub mod day14;
pub mod day15;
pub mod day17;
pub mod day18;
pub mod day19;
pub mod day22;
pub mod day23;
pub mod day24;
pub mod day25;
