//! Classic algorithms and data structures, each verified against its
//! specification: a binary search tree, a linked list, a disjoint-set forest,
//! sorting and order statistics, dynamic-programming solvers and
//! Knuth-Morris-Pratt string search.

pub mod bst;
pub mod disjoint_sets;
pub mod dynamic;
pub mod list;
pub mod order;
pub mod patterns;
mod permutation;
pub mod sort;
pub mod stats;
mod text;
