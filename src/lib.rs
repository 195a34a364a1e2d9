//! A Bayesian posterior calculator: reads probabilities written as
//! percentages, applies Bayes' rule exactly, and renders the results.
use vstd::prelude::*;

pub mod text;
pub mod percent;
pub mod bayes;
pub mod render;
pub mod session;

verus! {

} // verus!
