//! Building blocks for embedded domain-specific languages.
use vstd::prelude::*;

pub mod breakpoint;
pub mod check;
pub mod context;
pub mod derive;
pub mod derived;
pub mod engine;
pub mod error;
pub mod event;
pub mod flow;
pub mod frame;
pub mod fuzzy;
pub mod ids;
pub mod join;
pub mod lint;
pub mod math;
pub mod picking;
pub mod places;
pub mod refdsl;
pub mod schema;
pub mod suggest;
pub mod text;
pub mod walk;

verus! {

} // verus!
