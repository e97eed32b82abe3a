//! Semantic checking of parsed documents against judgement rules.
pub mod codes;
pub mod findings;
pub mod hint;
pub mod ir;
pub mod judging;
pub mod laws;
pub mod message;
pub mod premises;
pub mod reporting;
pub mod slots;
pub mod solver;
pub mod tree;
pub mod unifier;
pub mod unify;
pub mod validate;
pub mod validating;
