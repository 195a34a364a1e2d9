use bayesian_calculator::percent::{get_percentage, Probability, ONE, PER_PERCENT};

fn fraction(p: Probability) -> f64 {
    p.units() as f64 / ONE as f64
}

#[test]
fn test_get_percentage_happy() {
    assert_eq!(fraction(get_percentage("50").unwrap()), 0.5);
    assert_eq!(fraction(get_percentage("25.5%").unwrap()), 0.255);
    assert_eq!(fraction(get_percentage("0%").unwrap()), 0.0);
    assert_eq!(fraction(get_percentage("100").unwrap()), 1.0);
}

#[test]
fn test_get_percentage_unhappy() {
    assert!(get_percentage("101%").is_none());
    assert!(get_percentage("-1").is_none());
    assert!(get_percentage("abcd").is_none());
    assert!(get_percentage("12a3").is_none());
}

#[test]
fn boundaries_parse_to_zero_and_one() {
    assert_eq!(get_percentage("0").unwrap().units(), 0);
    assert_eq!(get_percentage("0%").unwrap().units(), 0);
    assert_eq!(get_percentage("100").unwrap().units(), ONE);
    assert_eq!(get_percentage("100%").unwrap().units(), ONE);
    assert!(get_percentage("101%").is_none());
    assert!(get_percentage("-1").is_none());
}

#[test]
fn in_range_values_are_divided_by_one_hundred() {
    assert_eq!(get_percentage("37").unwrap().units(), 37 * PER_PERCENT);
    assert_eq!(get_percentage("37%").unwrap().units(), 37 * PER_PERCENT);
    assert_eq!(get_percentage("12.5").unwrap().units(), 125_000_000_000_000_000);
    assert_eq!(get_percentage("0.0001%").unwrap().units(), 1_000_000_000_000);
    assert_eq!(get_percentage("99.99").unwrap().units(), 999_900_000_000_000_000);
    assert_eq!(get_percentage(".5").unwrap().units(), 5_000_000_000_000_000);
    assert_eq!(get_percentage("5.").unwrap().units(), 5 * PER_PERCENT);
    assert_eq!(get_percentage("+42").unwrap().units(), 42 * PER_PERCENT);
    assert_eq!(get_percentage("007").unwrap().units(), 7 * PER_PERCENT);
}

#[test]
fn whitespace_and_newline_are_trimmed() {
    assert_eq!(get_percentage("  50%\n").unwrap().units(), 50 * PER_PERCENT);
    assert_eq!(get_percentage("\t25\r\n").unwrap().units(), 25 * PER_PERCENT);
}

#[test]
fn digits_past_sixteen_places_are_cut_off() {
    assert_eq!(
        get_percentage("33.33333333333333339").unwrap().units(),
        333_333_333_333_333_333
    );
    assert_eq!(get_percentage("100.000000000000000000").unwrap().units(), ONE);
    assert!(get_percentage("100.00000000000000000001").is_none());
}

#[test]
fn out_of_range_values_are_rejected() {
    assert!(get_percentage("100.01").is_none());
    assert!(get_percentage("-0.5").is_none());
    assert!(get_percentage("1000").is_none());
    assert!(get_percentage("99999999999999999999999999").is_none());
}

#[test]
fn negative_zero_is_zero() {
    assert_eq!(get_percentage("-0").unwrap().units(), 0);
    assert_eq!(get_percentage("-0.000%").unwrap().units(), 0);
}

#[test]
fn non_numerals_are_rejected() {
    assert!(get_percentage("").is_none());
    assert!(get_percentage("   ").is_none());
    assert!(get_percentage("%").is_none());
    assert!(get_percentage(".").is_none());
    assert!(get_percentage("-").is_none());
    assert!(get_percentage("1.2.3").is_none());
    assert!(get_percentage("50%%").is_none());
    assert!(get_percentage("5 0").is_none());
    assert!(get_percentage("1e1").is_none());
    assert!(get_percentage("NaN").is_none());
    assert!(get_percentage("inf").is_none());
}

#[test]
fn parsing_twice_gives_the_same_outcome() {
    for line in ["42.5%", "abc", "101", " 7 "] {
        assert_eq!(get_percentage(line), get_percentage(line));
    }
}

#[test]
fn from_units_keeps_the_unit_interval() {
    assert_eq!(Probability::from_units(ONE).unwrap().units(), ONE);
    assert!(Probability::from_units(ONE + 1).is_none());
}
