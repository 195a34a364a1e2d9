use bayesian_calculator::bayes::Posterior;
use bayesian_calculator::percent::{get_percentage, Probability, ONE};
use bayesian_calculator::render::{format_hundredths, format_posterior, format_probability, round_ratio};

#[test]
fn hundredths_have_two_places() {
    assert_eq!(format_hundredths(0), "0.00");
    assert_eq!(format_hundredths(5), "0.05");
    assert_eq!(format_hundredths(1234), "12.34");
    assert_eq!(format_hundredths(10000), "100.00");
    assert_eq!(format_hundredths(1_000_000_007), "10000000.07");
}

#[test]
fn rounding_goes_half_to_even() {
    assert_eq!(round_ratio(7, 2), 4);
    assert_eq!(round_ratio(5, 2), 2);
    assert_eq!(round_ratio(11, 4), 3);
    assert_eq!(round_ratio(9, 4), 2);
    assert_eq!(round_ratio(2, 3), 1);
    assert_eq!(round_ratio(u128::MAX, 1), u128::MAX);
    assert_eq!(round_ratio(u128::MAX, u128::MAX), 1);
}

#[test]
fn probabilities_print_as_percentages() {
    assert_eq!(format_probability(get_percentage("25.5%").unwrap()), "25.50");
    assert_eq!(format_probability(get_percentage("100").unwrap()), "100.00");
    assert_eq!(format_probability(get_percentage("0.005").unwrap()), "0.00");
    assert_eq!(format_probability(get_percentage("0.015").unwrap()), "0.02");
    assert_eq!(format_probability(get_percentage("12.3456").unwrap()), "12.35");
    assert_eq!(format_probability(Probability::from_units(ONE / 3).unwrap()), "33.33");
}

#[test]
fn posterior_with_zero_denominator_is_nan() {
    assert_eq!(format_posterior(Posterior::Defined { num: 5, den: 0 }), "NaN");
}
