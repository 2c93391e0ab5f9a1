//! The handle an objective works through: each `suggest_*` call asks the
//! active sampler for a value and records `(name, distribution, value)` on
//! the trial; reports go onto the trial for the pruner to read. Asking the
//! sampler and the pruner is the caller's part: their answers come in as
//! arguments.
use vstd::prelude::*;

use crate::float::{round_to_i64_spec, trunc_to_u64_spec, FloatBits};
use crate::trial::{is_fresh, recorded, reported, Trial};
use crate::value::{Distribution, Value};

verus! {

/// The categorical distribution over `choices`, in order.
pub fn categorical_distribution(choices: &[&str]) -> (r: Distribution)
    ensures
        r is Categorical,
        r->Categorical_choices@.len() == choices@.len(),
        forall|i: int|
            0 <= i < choices@.len() ==> #[trigger] r->Categorical_choices@[i]@ == choices@[i]@,
{
    let mut labels: Vec<String> = Vec::new();
    let mut i: usize = 0;
    while i < choices.len()
        invariant
            i <= choices@.len(),
            labels@.len() == i,
            forall|j: int| 0 <= j < i ==> #[trigger] labels@[j]@ == choices@[j]@,
        decreases choices@.len() - i,
    {
        labels.push(choices[i].to_owned());
        i = i + 1;
    }
    Distribution::Categorical { choices: labels }
}

/// The integer a suggested value stands for, given the range's lower end.
pub open spec fn int_answer(v: Value, low: i64) -> i64 {
    match v {
        Value::Int(x) => x,
        Value::Float(x) => round_to_i64_spec(x),
        Value::Categorical(_) => low,
    }
}

/// The first label, or "" when there is none.
pub open spec fn first_label(labels: Seq<Seq<char>>) -> Seq<char> {
    if labels.len() > 0 {
        labels[0]
    } else {
        Seq::empty()
    }
}

/// The label at position `i`, or "" past the end.
pub open spec fn label_at_spec(labels: Seq<Seq<char>>, i: int) -> Seq<char> {
    if 0 <= i < labels.len() {
        labels[i]
    } else {
        Seq::empty()
    }
}

/// The label a suggested value stands for.
pub open spec fn label_answer(v: Value, labels: Seq<Seq<char>>) -> Seq<char> {
    match v {
        Value::Categorical(s) => s@,
        Value::Int(i) => label_at_spec(labels, if i < 0 { 0 } else { i as int }),
        Value::Float(f) => label_at_spec(labels, trunc_to_u64_spec(f) as int),
    }
}

/// The label at position `idx` of `choices`, or "" past the end.
fn label_at(choices: &[&str], idx: u64) -> (r: String)
    ensures
        r@ == label_at_spec(choices@.map_values(|c: &str| c@), idx as int),
{
    let n = choices.len();
    if idx < n as u64 {
        let i = idx as usize;
        choices[i].to_owned()
    } else {
        let e = String::new();
        e
    }
}

/// The integer a suggested value stands for (see [`int_answer`]).
pub fn int_of_value(v: &Value, low: i64) -> (r: i64)
    ensures
        r == int_answer(*v, low),
{
    match v {
        Value::Int(x) => *x,
        Value::Float(x) => x.round_to_i64(),
        Value::Categorical(_) => low,
    }
}

/// The label a suggested value stands for (see [`label_answer`]).
pub fn label_of_value(v: Value, choices: &[&str]) -> (r: String)
    ensures
        r@ == label_answer(v, choices@.map_values(|c: &str| c@)),
{
    match v {
        Value::Categorical(s) => s,
        Value::Int(i) => {
            let idx: u64 = if i < 0 {
                0
            } else {
                i as u64
            };
            label_at(choices, idx)
        },
        Value::Float(f) => label_at(choices, f.trunc_to_u64()),
    }
}

/// One trial being evaluated locally: the trial it builds up.
#[derive(Debug)]
pub struct TrialContext {
    trial: Trial,
}

impl TrialContext {
    /// The trial built up so far.
    pub closed spec fn trial_spec(&self) -> Trial {
        self.trial
    }

    /// A context for a fresh trial numbered `number`.
    pub fn new(number: usize) -> (r: TrialContext)
        ensures
            is_fresh(r.trial_spec(), number),
    {
        TrialContext { trial: Trial::new(number) }
    }

    /// This trial's number within the study.
    pub fn number(&self) -> (r: usize)
        ensures
            r == self.trial_spec().number,
    {
        self.trial.number
    }

    /// The trial built up so far, as the sampler and pruner see it.
    pub fn trial(&self) -> (r: &Trial)
        ensures
            *r == self.trial_spec(),
    {
        &self.trial
    }

    /// Records the sampler's `value` for `name` under `distribution`, and
    /// hands it back.
    pub fn suggest(&mut self, name: &str, distribution: Distribution, value: Value) -> (r: Value)
        ensures
            r == value,
            final(self).trial_spec().number == old(self).trial_spec().number,
            final(self).trial_spec().intermediate_values == old(self).trial_spec().intermediate_values,
            final(self).trial_spec().value == old(self).trial_spec().value,
            final(self).trial_spec().state == old(self).trial_spec().state,
            recorded(
                old(self).trial_spec().params@,
                final(self).trial_spec().params@,
                name@,
                distribution,
                value,
            ),
    {
        let kept = crate::value::copy_value(&value);
        self.trial.record(name, distribution, value);
        kept
    }

    /// An integer over `[low, high]` from the sampler's `value`, recorded
    /// under an integer-uniform distribution. A float is rounded half away
    /// from zero (saturating); a label gives `low`.
    pub fn suggest_int(&mut self, name: &str, low: i64, high: i64, value: Value) -> (r: i64)
        ensures
            r == int_answer(value, low),
            final(self).trial_spec().number == old(self).trial_spec().number,
            final(self).trial_spec().value == old(self).trial_spec().value,
            final(self).trial_spec().state == old(self).trial_spec().state,
            final(self).trial_spec().intermediate_values == old(self).trial_spec().intermediate_values,
            recorded(
                old(self).trial_spec().params@,
                final(self).trial_spec().params@,
                name@,
                Distribution::IntUniform { low, high },
                value,
            ),
    {
        let v = self.suggest(name, Distribution::IntUniform { low, high }, value);
        int_of_value(&v, low)
    }

    /// One of `choices` from the sampler's `value`, recorded under the
    /// categorical distribution of `choices`. A label is returned as is; an
    /// integer picks that position (negative means the first), a float the
    /// position it truncates to; a position past the end gives "".
    pub fn suggest_categorical(&mut self, name: &str, choices: &[&str], value: Value) -> (r: String)
        ensures
            r@ == label_answer(value, choices@.map_values(|c: &str| c@)),
            final(self).trial_spec().number == old(self).trial_spec().number,
            final(self).trial_spec().value == old(self).trial_spec().value,
            final(self).trial_spec().state == old(self).trial_spec().state,
            final(self).trial_spec().intermediate_values == old(self).trial_spec().intermediate_values,
            exists|d: Distribution|
                #[trigger] recorded(
                    old(self).trial_spec().params@,
                    final(self).trial_spec().params@,
                    name@,
                    d,
                    value,
                ) && d is Categorical && d->Categorical_choices@.map_values(|c: String| c@)
                    == choices@.map_values(|c: &str| c@),
    {
        let dist = categorical_distribution(choices);
        let ghost d = dist;
        let v = self.suggest(name, dist, value);
        proof {
            assert(d->Categorical_choices@.map_values(|c: String| c@) =~= choices@.map_values(
                |c: &str| c@,
            ));
        }
        label_of_value(v, choices)
    }

    /// Reports an intermediate objective value at `step`, overwriting an
    /// earlier report for the same step.
    pub fn report(&mut self, step: usize, value: FloatBits)
        ensures
            final(self).trial_spec().number == old(self).trial_spec().number,
            final(self).trial_spec().params == old(self).trial_spec().params,
            final(self).trial_spec().value == old(self).trial_spec().value,
            final(self).trial_spec().state == old(self).trial_spec().state,
            final(self).trial_spec().intermediate_values@ == reported(
                old(self).trial_spec().intermediate_values@,
                step,
                value,
            ),
    {
        self.trial.report(step, value);
    }

    /// The trial this context built up.
    pub fn into_trial(self) -> (r: Trial)
        ensures
            r == self.trial_spec(),
    {
        self.trial
    }
}

} // verus!
