pub mod interval_tree;
pub mod seq_swap;
pub mod union_find;
pub mod dag;
pub mod day01;
pub mod day05;
pub mod day06;
pub mod day08;
pub mod day09;
pub mod day11;
