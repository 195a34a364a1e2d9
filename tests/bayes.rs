use bayesian_calculator::bayes::{bayesian, Posterior};
use bayesian_calculator::percent::{Probability, ONE};
use bayesian_calculator::render::format_posterior;

fn prob(units: u64) -> Probability {
    Probability::from_units(units).unwrap()
}

fn exact(prior: u64, likelihood: u64, evidence: u64) -> Posterior {
    Posterior::Defined { num: prior as u128 * likelihood as u128, den: evidence }
}

#[test]
fn test_bayesian() {
    let prior = 500_000_000_000_000_000;
    let likelihood = 800_000_000_000_000_000;
    let evidence = 600_000_000_000_000_000;
    let expected_posterior = exact(prior, likelihood, evidence);
    let calculated_posterior = bayesian(prob(prior), prob(likelihood), prob(evidence));
    assert_eq!(calculated_posterior, expected_posterior);
}

#[test]
fn test_bayesian_zero_prior() {
    let calculated_posterior = bayesian(prob(0), prob(800_000_000_000_000_000), prob(600_000_000_000_000_000));
    match calculated_posterior {
        Posterior::Defined { num, den } => {
            assert_eq!(num, 0);
            assert!(den > 0);
        }
        Posterior::Undefined => panic!("posterior should be defined"),
    }
    assert_eq!(format_posterior(calculated_posterior), "0.00");
}

#[test]
fn test_bayesian_zero_likelihood() {
    let calculated_posterior = bayesian(prob(500_000_000_000_000_000), prob(0), prob(600_000_000_000_000_000));
    match calculated_posterior {
        Posterior::Defined { num, den } => {
            assert_eq!(num, 0);
            assert!(den > 0);
        }
        Posterior::Undefined => panic!("posterior should be defined"),
    }
    assert_eq!(format_posterior(calculated_posterior), "0.00");
}

#[test]
fn test_bayesian_zero_evidence() {
    let calculated_posterior = bayesian(prob(500_000_000_000_000_000), prob(700_000_000_000_000_000), prob(0));
    assert_eq!(calculated_posterior, Posterior::Undefined);
    assert_eq!(format_posterior(calculated_posterior), "NaN");
}

#[test]
fn test_bayesian_full_certainty() {
    let calculated_posterior = bayesian(prob(ONE), prob(ONE), prob(ONE));
    match calculated_posterior {
        Posterior::Defined { num, den } => {
            assert_eq!(num, den as u128 * ONE as u128);
        }
        Posterior::Undefined => panic!("posterior should be defined"),
    }
    assert_eq!(format_posterior(calculated_posterior), "100.00");
}

#[test]
fn posterior_to_four_decimals() {
    let posterior = bayesian(
        prob(500_000_000_000_000_000),
        prob(800_000_000_000_000_000),
        prob(600_000_000_000_000_000),
    );
    assert_eq!(format_posterior(posterior), "66.67");
    if let Posterior::Defined { num, den } = posterior {
        let value = num as f64 / (den as f64 * ONE as f64);
        assert!((value - 0.6667).abs() < 0.00005);
    } else {
        panic!("posterior should be defined");
    }
}

#[test]
fn posterior_may_exceed_one() {
    let posterior = bayesian(prob(ONE / 2), prob(ONE), prob(ONE / 4));
    assert_eq!(format_posterior(posterior), "200.00");
}

#[test]
fn inputs_outside_the_unit_interval_pass_through() {
    let big = Probability { units: 2 * ONE };
    let posterior = bayesian(big, prob(ONE), prob(ONE));
    assert_eq!(format_posterior(posterior), "200.00");
}
