//! A read-only snapshot of a study's history, handed to samplers and pruners.
use vstd::prelude::*;

use crate::float::{is_nan_spec, FloatBits};
use crate::trial::{report_at, report_at_or_after, Trial, TrialState};
use crate::value::{better_spec, Direction};

verus! {

/// The trial completed successfully and carries a final value.
pub open spec fn is_completed(t: Trial) -> bool {
    t.state == TrialState::Complete && t.value is Some
}

/// Number of completed trials in `trials`.
pub open spec fn completed_count(trials: Seq<Trial>) -> nat
    decreases trials.len(),
{
    if trials.len() == 0 {
        0
    } else {
        completed_count(trials.drop_last()) + if is_completed(trials.last()) {
            1nat
        } else {
            0nat
        }
    }
}

/// The completed trials of `trials`, in order.
pub open spec fn completed_seq(trials: Seq<Trial>) -> Seq<Trial>
    decreases trials.len(),
{
    if trials.len() == 0 {
        Seq::empty()
    } else if is_completed(trials.last()) {
        completed_seq(trials.drop_last()).push(trials.last())
    } else {
        completed_seq(trials.drop_last())
    }
}

/// Values reported at exactly `step` by the trials that completed or were
/// pruned, in trial order.
pub open spec fn values_at_spec(trials: Seq<Trial>, step: usize) -> Seq<FloatBits>
    decreases trials.len(),
{
    if trials.len() == 0 {
        Seq::empty()
    } else {
        let prev = values_at_spec(trials.drop_last(), step);
        let t = trials.last();
        if t.state == TrialState::Complete || t.state == TrialState::Pruned {
            match report_at(t.intermediate_values@, step) {
                Some(v) => prev.push(v),
                None => prev,
            }
        } else {
            prev
        }
    }
}

/// For every trial that reported at a step `>= step`, its value at the
/// smallest such step, in trial order.
pub open spec fn values_at_or_after_spec(trials: Seq<Trial>, step: usize) -> Seq<FloatBits>
    decreases trials.len(),
{
    if trials.len() == 0 {
        Seq::empty()
    } else {
        let prev = values_at_or_after_spec(trials.drop_last(), step);
        match report_at_or_after(trials.last().intermediate_values@, step) {
            Some(p) => prev.push(p.1),
            None => prev,
        }
    }
}

/// Index of the best completed trial: scanning in order, a completed trial
/// replaces the current best only if its value is strictly better.
pub open spec fn best_index(trials: Seq<Trial>, direction: Direction) -> Option<int>
    decreases trials.len(),
{
    if trials.len() == 0 {
        None
    } else {
        let prev = best_index(trials.drop_last(), direction);
        let t = trials.last();
        if !is_completed(t) {
            prev
        } else {
            match prev {
                None => Some(trials.len() - 1),
                Some(b) => if better_spec(direction, t.value.unwrap(), trials[b].value.unwrap()) {
                    Some(trials.len() - 1)
                } else {
                    Some(b)
                },
            }
        }
    }
}

/// A read-only snapshot of a study's history: its direction and its trials.
#[derive(Debug, Clone)]
pub struct StudyState {
    direction: Direction,
    trials: Vec<Trial>,
}

impl StudyState {
    /// The optimization direction of the snapshot.
    pub closed spec fn direction_spec(&self) -> Direction {
        self.direction
    }

    /// The trials of the snapshot, in the order given.
    pub closed spec fn trials_spec(&self) -> Seq<Trial> {
        self.trials@
    }

    /// Builds a snapshot from the study direction and its trials so far.
    pub fn new(direction: Direction, trials: Vec<Trial>) -> (r: StudyState)
        ensures
            r.direction_spec() == direction,
            r.trials_spec() == trials@,
    {
        StudyState { direction, trials }
    }

    /// The optimization direction of the owning study.
    pub fn direction(&self) -> (r: Direction)
        ensures
            r == self.direction_spec(),
    {
        self.direction
    }

    /// All trials in the snapshot, in trial-number order.
    pub fn trials(&self) -> (r: &[Trial])
        ensures
            r@ == self.trials_spec(),
    {
        self.trials.as_slice()
    }

    /// Trials that completed successfully and carry a final value.
    pub fn completed_trials(&self) -> (r: Vec<&Trial>)
        ensures
            r@.len() == completed_seq(self.trials_spec()).len(),
            forall|i: int| 0 <= i < r@.len() ==> *r@[i] == completed_seq(self.trials_spec())[i],
    {
        let mut out: Vec<&Trial> = Vec::new();
        let mut i: usize = 0;
        while i < self.trials.len()
            invariant
                i <= self.trials.len(),
                out@.len() == completed_seq(self.trials@.take(i as int)).len(),
                forall|k: int|
                    0 <= k < out@.len() ==> *out@[k] == completed_seq(self.trials@.take(i as int))[k],
            decreases self.trials.len() - i,
        {
            proof {
                assert(self.trials@.take(i + 1).drop_last() =~= self.trials@.take(i as int));
            }
            let t = &self.trials[i];
            if t.state == TrialState::Complete && t.value.is_some() {
                out.push(t);
            }
            i = i + 1;
        }
        proof {
            assert(self.trials@.take(i as int) =~= self.trials@);
        }
        out
    }

    /// Number of completed trials, used by samplers/pruners for warmup gates.
    pub fn n_completed(&self) -> (r: usize)
        ensures
            r == completed_count(self.trials_spec()),
    {
        let mut count: usize = 0;
        let mut i: usize = 0;
        while i < self.trials.len()
            invariant
                i <= self.trials.len(),
                count == completed_count(self.trials@.take(i as int)),
                count <= i,
            decreases self.trials.len() - i,
        {
            proof {
                assert(self.trials@.take(i + 1).drop_last() =~= self.trials@.take(i as int));
            }
            let t = &self.trials[i];
            if t.state == TrialState::Complete && t.value.is_some() {
                count = count + 1;
            }
            i = i + 1;
        }
        proof {
            assert(self.trials@.take(i as int) =~= self.trials@);
        }
        count
    }

    /// Intermediate values reported at exactly `step` across all trials that
    /// reached it (completed or pruned). Used by the median pruner.
    pub fn intermediate_values_at(&self, step: usize) -> (r: Vec<FloatBits>)
        ensures
            r@ == values_at_spec(self.trials_spec(), step),
    {
        let mut out: Vec<FloatBits> = Vec::new();
        let mut i: usize = 0;
        while i < self.trials.len()
            invariant
                i <= self.trials.len(),
                out@ == values_at_spec(self.trials@.take(i as int), step),
            decreases self.trials.len() - i,
        {
            proof {
                assert(self.trials@.take(i + 1).drop_last() =~= self.trials@.take(i as int));
            }
            let t = &self.trials[i];
            if t.state == TrialState::Complete || t.state == TrialState::Pruned {
                match t.value_at_step(step) {
                    Some(v) => out.push(v),
                    None => {},
                }
            }
            i = i + 1;
        }
        proof {
            assert(self.trials@.take(i as int) =~= self.trials@);
        }
        out
    }

    /// Values of all trials that reached resource `>= step`, taken at the first
    /// step at or after `step`. Used by rung-based pruners.
    pub fn values_at_or_after(&self, step: usize) -> (r: Vec<FloatBits>)
        ensures
            r@ == values_at_or_after_spec(self.trials_spec(), step),
    {
        let mut out: Vec<FloatBits> = Vec::new();
        let mut i: usize = 0;
        while i < self.trials.len()
            invariant
                i <= self.trials.len(),
                out@ == values_at_or_after_spec(self.trials@.take(i as int), step),
            decreases self.trials.len() - i,
        {
            proof {
                assert(self.trials@.take(i + 1).drop_last() =~= self.trials@.take(i as int));
            }
            match self.trials[i].value_at_or_after(step) {
                Some(v) => out.push(v),
                None => {},
            }
            i = i + 1;
        }
        proof {
            assert(self.trials@.take(i as int) =~= self.trials@);
        }
        out
    }

    /// The best completed trial under the study direction, if any.
    pub fn best_trial(&self) -> (r: Option<&Trial>)
        ensures
            r is None <==> best_index(self.trials_spec(), self.direction_spec()) is None,
            r matches Some(t) ==> *t == self.trials_spec()[best_index(
                self.trials_spec(),
                self.direction_spec(),
            ).unwrap()],
    {
        let mut best: Option<usize> = None;
        let mut i: usize = 0;
        while i < self.trials.len()
            invariant
                i <= self.trials.len(),
                best == (match best_index(self.trials@.take(i as int), self.direction) {
                    Some(b) => Some(b as usize),
                    None => None,
                }),
                best matches Some(b) ==> b < i && is_completed(self.trials@[b as int]),
            decreases self.trials.len() - i,
        {
            proof {
                assert(self.trials@.take(i + 1).drop_last() =~= self.trials@.take(i as int));
                lemma_best_index_bounds(self.trials@.take(i as int), self.direction);
            }
            let t = &self.trials[i];
            if t.state == TrialState::Complete && t.value.is_some() {
                match best {
                    None => {
                        best = Some(i);
                    },
                    Some(b) => {
                        let v = match t.value {
                            Some(v) => v,
                            None => FloatBits::from_bits(0),
                        };
                        let bv = match self.trials[b].value {
                            Some(v) => v,
                            None => FloatBits::from_bits(0),
                        };
                        if self.direction.is_better(v, bv) {
                            best = Some(i);
                        }
                    },
                }
            }
            i = i + 1;
        }
        proof {
            assert(self.trials@.take(i as int) =~= self.trials@);
            lemma_best_index_bounds(self.trials@, self.direction);
        }
        match best {
            None => None,
            Some(b) => Some(&self.trials[b]),
        }
    }
}

/// The best index, when there is one, names a completed trial.
pub proof fn lemma_best_index_bounds(trials: Seq<Trial>, direction: Direction)
    ensures
        best_index(trials, direction) matches Some(b) ==> 0 <= b < trials.len() && is_completed(
            trials[b],
        ),
        best_index(trials, direction) is None <==> completed_count(trials) == 0,
    decreases trials.len(),
{
    if trials.len() > 0 {
        lemma_best_index_bounds(trials.drop_last(), direction);
    }
}

} // verus!
