//! Bayes' rule on exact probabilities.
use vstd::prelude::*;
use crate::percent::Probability;

verus! {

/// The outcome of Bayes' rule: the exact fraction `num / (den * percent::ONE)`,
/// where `num` is the product of two probabilities' units and `den` the
/// units of a third; or no number at all where the evidence has probability zero.
#[derive(Clone, Copy, Debug, PartialEq, Eq, Structural)]
pub enum Posterior {
    Defined { num: u128, den: u64 },
    Undefined,
}

/// `prior * likelihood / evidence`, held exactly.
pub open spec fn posterior_of(prior: Probability, likelihood: Probability, evidence: Probability) -> Posterior {
    if evidence.units == 0 {
        Posterior::Undefined
    } else {
        Posterior::Defined {
            num: (prior.units * likelihood.units) as u128,
            den: evidence.units,
        }
    }
}

/// The posterior probability of an event: its prior probability times the
/// likelihood of the evidence, over the probability of the evidence.
/// The inputs are not checked against [0, 1]; zero evidence gives
/// `Undefined`.
pub fn bayesian(prior: Probability, likelihood: Probability, evidence: Probability) -> (r: Posterior)
    ensures
        r == posterior_of(prior, likelihood, evidence),
        r is Undefined <==> evidence.units == 0,
{
    if evidence.units == 0 {
        Posterior::Undefined
    } else {
        assert(prior.units * likelihood.units <= 0xffffffffffffffffu64 as nat
            * 0xffffffffffffffffu64 as nat) by (nonlinear_arith);
        let num = prior.units as u128 * likelihood.units as u128;
        Posterior::Defined { num, den: evidence.units }
    }
}

} // verus!
