//! The steps of one calculation: a description, then the prior, the
//! likelihood and the evidence, each asked for again until a valid
//! percentage comes.
use vstd::prelude::*;
use crate::bayes::{bayesian, posterior_of, Posterior};
use crate::percent::{get_percentage, parse_percentage, Probability};

verus! {

/// What the calculation waits for next.
#[derive(Clone, Copy, Debug, PartialEq, Eq, Structural)]
pub enum Stage {
    Describe,
    Prior,
    Likelihood,
    Evidence,
    Complete,
}

/// How a line was taken.
#[derive(Clone, Copy, Debug, PartialEq, Eq, Structural)]
pub enum Reply {
    /// The line answered the question; the next one follows.
    Accepted,
    /// The line held no valid percentage; the question stands.
    Rejected,
}

/// The stage that follows `s`.
pub open spec fn next_stage(s: Stage) -> Stage {
    match s {
        Stage::Describe => Stage::Prior,
        Stage::Prior => Stage::Likelihood,
        Stage::Likelihood => Stage::Evidence,
        _ => Stage::Complete,
    }
}

/// One calculation as it is filled in.
pub struct Session {
    pub stage: Stage,
    pub description: String,
    pub prior: Probability,
    pub likelihood: Probability,
    pub evidence: Probability,
}

impl Session {
    /// The probabilities collected so far lie in [0, 1].
    pub open spec fn wf(&self) -> bool {
        self.prior.wf() && self.likelihood.wf() && self.evidence.wf()
    }

    /// A calculation that waits for its description.
    pub fn new() -> (r: Session)
        ensures
            r.stage == Stage::Describe,
            r.description@ == Seq::<char>::empty(),
            r.wf(),
    {
        Session {
            stage: Stage::Describe,
            description: String::new(),
            prior: Probability { units: 0 },
            likelihood: Probability { units: 0 },
            evidence: Probability { units: 0 },
        }
    }

    /// Takes one line of input for the current stage. The description is
    /// taken as it is; a probability is taken only where the line parses,
    /// and otherwise nothing changes.
    pub fn feed(&mut self, line: &str) -> (r: Reply)
        requires
            old(self).stage != Stage::Complete,
            old(self).wf(),
        ensures
            final(self).wf(),
            old(self).stage == Stage::Describe ==> r == Reply::Accepted
                && final(self).description@ == line@,
            old(self).stage != Stage::Describe ==> final(self).description == old(self).description,
            old(self).stage != Stage::Describe ==> (r == Reply::Accepted <==> parse_percentage(
                line@,
            ) is Some),
            final(self).stage == (if r == Reply::Accepted {
                next_stage(old(self).stage)
            } else {
                old(self).stage
            }),
            final(self).prior == (if r == Reply::Accepted && old(self).stage == Stage::Prior {
                parse_percentage(line@)->0
            } else {
                old(self).prior
            }),
            final(self).likelihood == (if r == Reply::Accepted && old(self).stage
                == Stage::Likelihood {
                parse_percentage(line@)->0
            } else {
                old(self).likelihood
            }),
            final(self).evidence == (if r == Reply::Accepted && old(self).stage == Stage::Evidence {
                parse_percentage(line@)->0
            } else {
                old(self).evidence
            }),
    {
        if self.stage == Stage::Describe {
            self.description = line.to_owned();
            self.stage = Stage::Prior;
            return Reply::Accepted;
        }
        match get_percentage(line) {
            None => Reply::Rejected,
            Some(p) => {
                match self.stage {
                    Stage::Prior => {
                        self.prior = p;
                        self.stage = Stage::Likelihood;
                    },
                    Stage::Likelihood => {
                        self.likelihood = p;
                        self.stage = Stage::Evidence;
                    },
                    _ => {
                        self.evidence = p;
                        self.stage = Stage::Complete;
                    },
                }
                Reply::Accepted
            },
        }
    }

    /// The posterior of a completed calculation.
    pub fn posterior(&self) -> (r: Posterior)
        requires
            self.stage == Stage::Complete,
        ensures
            r == posterior_of(self.prior, self.likelihood, self.evidence),
    {
        bayesian(self.prior, self.likelihood, self.evidence)
    }
}

/// Asks a source of lines for a probability: the first line that parses
/// gives it, with its index, and each line before it is rejected. `None`
/// where no line parses.
pub fn first_valid_percentage(lines: &Vec<String>) -> (r: Option<(usize, Probability)>)
    ensures
        r matches Some((i, p)) ==> i < lines.len() && parse_percentage(lines@[i as int]@) == Some(
            p,
        ) && forall|j: int| 0 <= j < i ==> parse_percentage(#[trigger] lines@[j]@) is None,
        r is None ==> forall|j: int|
            0 <= j < lines.len() ==> parse_percentage(#[trigger] lines@[j]@) is None,
{
    let mut i: usize = 0;
    while i < lines.len()
        invariant
            i <= lines.len(),
            forall|j: int| 0 <= j < i ==> parse_percentage(#[trigger] lines@[j]@) is None,
        decreases lines.len() - i,
    {
        if let Some(p) = get_percentage(lines[i].as_str()) {
            return Some((i, p));
        }
        i = i + 1;
    }
    None
}

} // verus!
