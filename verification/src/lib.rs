//! Exhaustive search for an arithmetic expression that combines a list of
//! integers into a target value.
//!
//! A combination is a list of expressions. One reduction step replaces two
//! of them by the result of an operation on them. The search applies every
//! possible step to every combination, level by level, and returns the
//! first result whose value is the target.

pub mod action;
pub mod cursor;
pub mod decimal;
pub mod equality;
pub mod expr;
pub mod inputs;
pub mod number;
pub mod parse;
pub mod permutator;
pub mod plan;
pub mod solver;

pub use action::Action;
pub use number::Number;
pub use permutator::MyPermutator;
pub use solver::solve;
