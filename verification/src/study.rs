//! The bookkeeping a study does around each evaluation of the objective.
use vstd::prelude::*;

use crate::context::TrialContext;
use crate::error::{adopt_direction, StudyMetadata};
use crate::float::FloatBits;
use crate::protocol::Outcome;
use crate::study_state::{best_index, StudyState};
use crate::trial::{is_fresh, Trial, TrialState};
use crate::value::Direction;

verus! {

/// Folds a trial's evaluation outcome into its final state and value: a
/// returned value completes the trial, a pruned objective marks it `Pruned`,
/// and a failure (an error or a panic) marks it `Failed` without touching
/// anything else.
pub fn finish_trial(trial: Trial, outcome: Outcome) -> (r: Trial)
    ensures
        r.number == trial.number,
        r.params == trial.params,
        r.intermediate_values == trial.intermediate_values,
        match outcome {
            Outcome::Complete(v) => r.value == Some(v) && r.state == TrialState::Complete,
            Outcome::Pruned => r.value == trial.value && r.state == TrialState::Pruned,
            Outcome::Failed => r.value == trial.value && r.state == TrialState::Failed,
        },
{
    let mut trial = trial;
    match outcome {
        Outcome::Complete(v) => {
            trial.value = Some(v);
            trial.state = TrialState::Complete;
        },
        Outcome::Pruned => {
            trial.state = TrialState::Pruned;
        },
        Outcome::Failed => {
            trial.state = TrialState::Failed;
        },
    }
    trial
}

/// A named study run under a direction. Its trials live in a storage
/// backend, which the caller reads and writes; the study decides what is
/// recorded.
#[derive(Debug)]
pub struct Study {
    name: String,
    direction: Direction,
}

impl Study {
    /// The study's name (its key in storage).
    pub closed spec fn name_spec(&self) -> Seq<char> {
        self.name@
    }

    /// The study's direction.
    pub closed spec fn direction_spec(&self) -> Direction {
        self.direction
    }

    /// Assembles the study `name` given what storage holds about it: an
    /// existing study's recorded direction is adopted, so a resumed study
    /// cannot flip direction; otherwise `direction` is used, and the
    /// metadata to persist right away is returned alongside.
    pub fn new(name: &str, direction: Direction, existing: &Option<StudyMetadata>) -> (r: (
        Study,
        Option<StudyMetadata>,
    ))
        ensures
            r.0.name_spec() == name@,
            r.0.direction_spec() == (match *existing {
                Some(meta) => meta.direction,
                None => direction,
            }),
            match *existing {
                Some(_) => r.1 is None,
                None => r.1 matches Some(meta) && meta.study_name@ == name@ && meta.direction
                    == direction,
            },
    {
        let (adopted, fresh) = adopt_direction(existing, direction);
        let study = Study { name: name.to_owned(), direction: adopted };
        if fresh {
            (study, Some(StudyMetadata { study_name: name.to_owned(), direction }))
        } else {
            (study, None)
        }
    }

    /// The study's name.
    pub fn name(&self) -> (r: &str)
        ensures
            r@ == self.name_spec(),
    {
        self.name.as_str()
    }

    /// The optimization direction.
    pub fn direction(&self) -> (r: Direction)
        ensures
            r == self.direction_spec(),
    {
        self.direction
    }

    /// Starts the next sequential trial: it is numbered by the count of the
    /// trials already stored, and sees them as its history.
    pub fn begin_trial(&self, existing: Vec<Trial>) -> (r: (StudyState, TrialContext))
        ensures
            r.0.direction_spec() == self.direction_spec(),
            r.0.trials_spec() == existing@,
            is_fresh(r.1.trial_spec(), existing@.len() as usize),
    {
        let number = existing.len();
        (StudyState::new(self.direction, existing), TrialContext::new(number))
    }

    /// The best objective value among the study's `trials`, if any completed.
    pub fn best_value(&self, trials: Vec<Trial>) -> (r: Option<FloatBits>)
        ensures
            r == (match best_index(trials@, self.direction_spec()) {
                Some(i) => trials@[i].value,
                None => None,
            }),
    {
        let state = StudyState::new(self.direction, trials);
        match state.best_trial() {
            Some(t) => t.value,
            None => None,
        }
    }
}

} // verus!
