//! Exact primal simplex solver for `max c.x subject to a.x <= b, x >= 0`.
use vstd::prelude::*;

pub mod examples;
pub mod invariants;
pub mod rational;
pub mod solver;
pub mod tableau;

pub use rational::Rational;
pub use examples::run_all_tests;
pub use solver::{simplex_method, RetState};

verus! {

} // verus!
