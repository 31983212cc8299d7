//! Compilation of the superpermutation search problem into CNF formulas.
//!
//! A superpermutation over the alphabet `{1..n}` is a string containing every
//! permutation of the alphabet as a contiguous substring.  This library builds
//! a Boolean formula, in DIMACS CNF form, that is satisfiable exactly when a
//! string of a given length with a given waste budget exists: an automaton
//! over succinctly encoded states tracks the active permutation prefix at each
//! position, a per-permutation tracker records which permutations have been
//! seen, and a sequential-counter cardinality constraint bounds the number of
//! wasted positions.

pub mod arith;
pub mod binary;
pub mod bounds;
pub mod clause;
pub mod counter;
pub mod formula;
pub mod goal;
pub mod literal;
pub mod logic;
pub mod machine;
pub mod problem;
pub mod rank;
pub mod register;
pub mod render;
pub mod snapshot;
pub mod state;
pub mod utility;
pub mod variable;
