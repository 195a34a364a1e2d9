use bayesian_calculator::bayes::Posterior;
use bayesian_calculator::percent::PER_PERCENT;
use bayesian_calculator::render::format_posterior;
use bayesian_calculator::session::{first_valid_percentage, Reply, Session, Stage};

#[test]
fn a_session_runs_through_its_stages() {
    let mut s = Session::new();
    assert_eq!(s.stage, Stage::Describe);
    assert_eq!(s.feed("rain tomorrow\n"), Reply::Accepted);
    assert_eq!(s.description, "rain tomorrow\n");
    assert_eq!(s.stage, Stage::Prior);
    assert_eq!(s.feed("fifty"), Reply::Rejected);
    assert_eq!(s.stage, Stage::Prior);
    assert_eq!(s.feed("150%"), Reply::Rejected);
    assert_eq!(s.feed("50%"), Reply::Accepted);
    assert_eq!(s.prior.units(), 50 * PER_PERCENT);
    assert_eq!(s.stage, Stage::Likelihood);
    assert_eq!(s.feed("80"), Reply::Accepted);
    assert_eq!(s.stage, Stage::Evidence);
    assert_eq!(s.feed(""), Reply::Rejected);
    assert_eq!(s.feed("60"), Reply::Accepted);
    assert_eq!(s.stage, Stage::Complete);
    assert_eq!(format_posterior(s.posterior()), "66.67");
}

#[test]
fn zero_evidence_session_gives_nan() {
    let mut s = Session::new();
    s.feed("x");
    s.feed("50");
    s.feed("70");
    s.feed("0%");
    assert_eq!(s.posterior(), Posterior::Undefined);
}

#[test]
fn first_valid_line_is_taken() {
    let lines: Vec<String> = vec!["abc".to_string(), "101%".to_string(), " 40% ".to_string(), "20".to_string()];
    let (i, p) = first_valid_percentage(&lines).unwrap();
    assert_eq!(i, 2);
    assert_eq!(p.units(), 40 * PER_PERCENT);
}

#[test]
fn no_valid_line_gives_none() {
    let lines: Vec<String> = vec!["abc".to_string(), "-3".to_string()];
    assert!(first_valid_percentage(&lines).is_none());
    assert!(first_valid_percentage(&Vec::new()).is_none());
}
