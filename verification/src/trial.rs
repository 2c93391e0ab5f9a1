//! A single optimization trial: its suggested parameters, intermediate
//! reports, and final objective value.
use vstd::prelude::*;

use crate::float::FloatBits;
use crate::value::{Distribution, Value};

verus! {

/// Lifecycle state of a single trial.
#[derive(Debug, Clone, Copy, PartialEq, Eq, Structural)]
pub enum TrialState {
    /// The objective is currently being evaluated.
    Running,
    /// The objective returned a value successfully.
    Complete,
    /// A pruner stopped the trial early.
    Pruned,
    /// The objective panicked or returned an error.
    Failed,
}

/// One recorded `(name, distribution, value)` triple, in suggestion order.
#[derive(Debug, Clone, PartialEq)]
pub struct ParamRecord {
    pub name: String,
    pub distribution: Distribution,
    pub value: Value,
}

/// A single optimization trial.
///
/// `params` is kept in suggestion order so that define-by-run search spaces
/// round-trip faithfully and are reproducible for grid enumeration.
#[derive(Debug, Clone, PartialEq)]
pub struct Trial {
    /// Zero-based trial index within its study.
    pub number: usize,
    /// Parameters suggested so far, in the order they were requested.
    pub params: Vec<ParamRecord>,
    /// Intermediate `(step, value)` reports, consumed by pruners.
    pub intermediate_values: Vec<(usize, FloatBits)>,
    /// Final objective value, once the trial completes.
    pub value: Option<FloatBits>,
    /// Current lifecycle state.
    pub state: TrialState,
}

/// `t` is a fresh `Running` trial numbered `number`, with nothing recorded.
pub open spec fn is_fresh(t: Trial, number: usize) -> bool {
    &&& t.number == number
    &&& t.params@ == Seq::<ParamRecord>::empty()
    &&& t.intermediate_values@ == Seq::<(usize, FloatBits)>::empty()
    &&& t.value is None
    &&& t.state == TrialState::Running
}

/// Some record in `params` is named `name`.
pub open spec fn has_param(params: Seq<ParamRecord>, name: Seq<char>) -> bool {
    exists|i: int| 0 <= i < params.len() && #[trigger] params[i].name@ == name
}

/// `i` is the first record of `params` named `name`.
pub open spec fn first_param(params: Seq<ParamRecord>, name: Seq<char>, i: int) -> bool {
    &&& 0 <= i < params.len()
    &&& params[i].name@ == name
    &&& forall|j: int| 0 <= j < i ==> #[trigger] params[j].name@ != name
}

/// `i` is the first report of `reports` made at `step`.
pub open spec fn first_report_at(reports: Seq<(usize, FloatBits)>, step: usize, i: int) -> bool {
    &&& 0 <= i < reports.len()
    &&& reports[i].0 == step
    &&& forall|j: int| 0 <= j < i ==> #[trigger] reports[j].0 != step
}

/// Some report of `reports` was made at `step`.
pub open spec fn has_report_at(reports: Seq<(usize, FloatBits)>, step: usize) -> bool {
    exists|i: int| 0 <= i < reports.len() && #[trigger] reports[i].0 == step
}

/// `i` is the earliest report (by position) among those at the smallest step
/// that is `>= step`.
pub open spec fn first_report_at_or_after(
    reports: Seq<(usize, FloatBits)>,
    step: usize,
    i: int,
) -> bool {
    &&& 0 <= i < reports.len()
    &&& reports[i].0 >= step
    &&& forall|j: int|
        0 <= j < reports.len() && #[trigger] reports[j].0 >= step ==> reports[i].0 <= reports[j].0
    &&& forall|j: int|
        0 <= j < i && #[trigger] reports[j].0 >= step ==> reports[i].0 < reports[j].0
}

/// Some report of `reports` was made at a step `>= step`.
pub open spec fn has_report_at_or_after(reports: Seq<(usize, FloatBits)>, step: usize) -> bool {
    exists|i: int| 0 <= i < reports.len() && #[trigger] reports[i].0 >= step
}

/// The value of the first report of `reports` made at `step`.
pub open spec fn report_at(reports: Seq<(usize, FloatBits)>, step: usize) -> Option<FloatBits>
    decreases reports.len(),
{
    if reports.len() == 0 {
        None
    } else {
        match report_at(reports.drop_last(), step) {
            Some(v) => Some(v),
            None => if reports.last().0 == step {
                Some(reports.last().1)
            } else {
                None
            },
        }
    }
}

/// The report at the smallest step `>= step` (the earliest one on a tie).
pub open spec fn report_at_or_after(reports: Seq<(usize, FloatBits)>, step: usize) -> Option<
    (usize, FloatBits),
>
    decreases reports.len(),
{
    if reports.len() == 0 {
        None
    } else {
        let prev = report_at_or_after(reports.drop_last(), step);
        let r = reports.last();
        if r.0 < step {
            prev
        } else {
            match prev {
                None => Some(r),
                Some(p) => if r.0 < p.0 {
                    Some(r)
                } else {
                    Some(p)
                },
            }
        }
    }
}

/// Once a prefix holds a report at `step`, longer sequences report the same.
pub proof fn lemma_report_at_prefix(reports: Seq<(usize, FloatBits)>, step: usize, k: int)
    requires
        0 <= k <= reports.len(),
        report_at(reports.take(k), step) is Some,
    ensures
        report_at(reports, step) == report_at(reports.take(k), step),
    decreases reports.len() - k,
{
    if k < reports.len() {
        assert(reports.take(k + 1).drop_last() =~= reports.take(k));
        lemma_report_at_prefix(reports, step, k + 1);
    } else {
        assert(reports.take(k) =~= reports);
    }
}

/// `after` is `before` with `(name, distribution, value)` recorded: the first
/// record named `name` takes the new distribution and value in place, or a
/// new record is appended when there is none.
pub open spec fn recorded(
    before: Seq<ParamRecord>,
    after: Seq<ParamRecord>,
    name: Seq<char>,
    distribution: Distribution,
    value: Value,
) -> bool {
    &&& has_param(before, name) ==> forall|i: int|
        first_param(before, name, i) ==> after == before.update(
            i,
            ParamRecord { name: before[i].name, distribution: distribution, value: value },
        )
    &&& !has_param(before, name) ==> {
        &&& after.len() == before.len() + 1
        &&& after.drop_last() == before
        &&& after.last().name@ == name
        &&& after.last().distribution == distribution
        &&& after.last().value == value
    }
}

/// Index of the first report at `step`, if any.
pub open spec fn first_report_index(reports: Seq<(usize, FloatBits)>, step: usize) -> int {
    choose|i: int| first_report_at(reports, step, i)
}

/// `reports` with `value` reported at `step`: the first report at `step` is
/// overwritten, or the report is appended when there is none.
pub open spec fn reported(reports: Seq<(usize, FloatBits)>, step: usize, value: FloatBits) -> Seq<
    (usize, FloatBits),
> {
    if has_report_at(reports, step) {
        reports.update(first_report_index(reports, step), (step, value))
    } else {
        reports.push((step, value))
    }
}

impl Trial {
    /// A fresh `Running` trial with the given number and no params.
    pub fn new(number: usize) -> (r: Trial)
        ensures
            is_fresh(r, number),
    {
        Trial {
            number,
            params: Vec::new(),
            intermediate_values: Vec::new(),
            value: None,
            state: TrialState::Running,
        }
    }

    /// Records a suggested parameter. Re-suggesting the same name overwrites
    /// the previous record's distribution and value in place.
    pub fn record(&mut self, name: &str, distribution: Distribution, value: Value)
        ensures
            final(self).number == old(self).number,
            final(self).intermediate_values == old(self).intermediate_values,
            final(self).value == old(self).value,
            final(self).state == old(self).state,
            recorded(old(self).params@, final(self).params@, name@, distribution, value),
    {
        let key = name.to_owned();
        let mut i: usize = 0;
        while i < self.params.len()
            invariant
                i <= self.params.len(),
                self.params == old(self).params,
                self.number == old(self).number,
                self.intermediate_values == old(self).intermediate_values,
                self.value == old(self).value,
                self.state == old(self).state,
                key@ == name@,
                forall|j: int| 0 <= j < i ==> #[trigger] self.params@[j].name@ != name@,
            decreases self.params.len() - i,
        {
            if self.params[i].name == key {
                let old_name = self.params[i].name.clone();
                let rec = ParamRecord { name: old_name, distribution, value };
                self.params.set(i, rec);
                proof {
                    assert(first_param(old(self).params@, name@, i as int));
                    assert forall|k: int| first_param(old(self).params@, name@, k) implies k
                        == i by {
                        if k < i {
                        } else if k > i {
                        }
                    }
                }
                return;
            }
            i = i + 1;
        }
        self.params.push(ParamRecord { name: key, distribution, value });
        proof {
            assert(self.params@.drop_last() =~= old(self).params@);
        }
    }

    /// The value recorded for the first parameter named `name`, if any.
    pub fn param_value(&self, name: &str) -> (r: Option<&Value>)
        ensures
            r is None <==> !has_param(self.params@, name@),
            forall|i: int| first_param(self.params@, name@, i) ==> r == Some(&self.params@[i].value),
    {
        let key = name.to_owned();
        let mut i: usize = 0;
        while i < self.params.len()
            invariant
                i <= self.params.len(),
                key@ == name@,
                forall|j: int| 0 <= j < i ==> #[trigger] self.params@[j].name@ != name@,
            decreases self.params.len() - i,
        {
            if self.params[i].name == key {
                proof {
                    assert forall|k: int| first_param(self.params@, name@, k) implies k == i by {
                        if k < i {
                        } else if k > i {
                            assert(self.params@[i as int].name@ == name@);
                        }
                    }
                }
                return Some(&self.params[i].value);
            }
            i = i + 1;
        }
        None
    }

    /// The intermediate value reported at exactly `step` (the first such
    /// report), if any.
    pub fn value_at_step(&self, step: usize) -> (r: Option<FloatBits>)
        ensures
            r is None <==> !has_report_at(self.intermediate_values@, step),
            forall|i: int|
                first_report_at(self.intermediate_values@, step, i) ==> r == Some(
                    self.intermediate_values@[i].1,
                ),
            r == report_at(self.intermediate_values@, step),
    {
        let ghost reports = self.intermediate_values@;
        let mut i: usize = 0;
        while i < self.intermediate_values.len()
            invariant
                i <= self.intermediate_values.len(),
                reports == self.intermediate_values@,
                forall|j: int| 0 <= j < i ==> #[trigger] self.intermediate_values@[j].0 != step,
                report_at(reports.take(i as int), step) is None,
            decreases self.intermediate_values.len() - i,
        {
            proof {
                assert(reports.take(i + 1).drop_last() =~= reports.take(i as int));
            }
            if self.intermediate_values[i].0 == step {
                proof {
                    lemma_report_at_prefix(reports, step, i + 1);
                    assert forall|k: int|
                        first_report_at(self.intermediate_values@, step, k) implies k == i by {
                        if k < i {
                        } else if k > i {
                            assert(self.intermediate_values@[i as int].0 == step);
                        }
                    }
                }
                return Some(self.intermediate_values[i].1);
            }
            i = i + 1;
        }
        proof {
            assert(reports.take(i as int) =~= reports);
        }
        None
    }

    /// The intermediate value at the smallest reported step `>= step` (the
    /// earliest such report on a tie), if any. Used by rung-based pruners.
    pub fn value_at_or_after(&self, step: usize) -> (r: Option<FloatBits>)
        ensures
            r is None <==> !has_report_at_or_after(self.intermediate_values@, step),
            r is Some ==> exists|i: int|
                first_report_at_or_after(self.intermediate_values@, step, i) && r == Some(
                    self.intermediate_values@[i].1,
                ),
            r == (match report_at_or_after(self.intermediate_values@, step) {
                Some(p) => Some(p.1),
                None => None,
            }),
    {
        let reports = &self.intermediate_values;
        let mut best: Option<usize> = None;
        let mut i: usize = 0;
        while i < reports.len()
            invariant
                i <= reports.len(),
                best is None ==> forall|j: int| 0 <= j < i ==> #[trigger] reports@[j].0 < step,
                best matches Some(b) ==> {
                    &&& b < i
                    &&& reports@[b as int].0 >= step
                    &&& forall|j: int|
                        0 <= j < i && #[trigger] reports@[j].0 >= step ==> reports@[b as int].0
                            <= reports@[j].0
                    &&& forall|j: int|
                        0 <= j < b && #[trigger] reports@[j].0 >= step ==> reports@[b as int].0
                            < reports@[j].0
                },
                report_at_or_after(reports@.take(i as int), step) == (match best {
                    Some(b) => Some(reports@[b as int]),
                    None => None,
                }),
            decreases reports.len() - i,
        {
            proof {
                assert(reports@.take(i + 1).drop_last() =~= reports@.take(i as int));
            }
            let s = reports[i].0;
            if s >= step {
                match best {
                    None => {
                        best = Some(i);
                    },
                    Some(b) => {
                        if s < reports[b].0 {
                            best = Some(i);
                        }
                    },
                }
            }
            i = i + 1;
        }
        proof {
            assert(reports@.take(i as int) =~= reports@);
        }
        match best {
            None => None,
            Some(b) => {
                proof {
                    assert(first_report_at_or_after(reports@, step, b as int));
                }
                Some(reports[b].1)
            },
        }
    }

    /// The most recent `(step, value)` report, if the trial has reported.
    pub fn last_intermediate(&self) -> (r: Option<(usize, FloatBits)>)
        ensures
            r == (if self.intermediate_values@.len() == 0 {
                None
            } else {
                Some(self.intermediate_values@.last())
            }),
    {
        let n = self.intermediate_values.len();
        if n == 0 {
            None
        } else {
            Some(self.intermediate_values[n - 1])
        }
    }

    /// Reports an intermediate objective value at `step`, overwriting the
    /// first earlier report for the same step rather than adding a duplicate.
    pub fn report(&mut self, step: usize, value: FloatBits)
        ensures
            final(self).number == old(self).number,
            final(self).params == old(self).params,
            final(self).value == old(self).value,
            final(self).state == old(self).state,
            final(self).intermediate_values@ == reported(old(self).intermediate_values@, step, value),
    {
        let mut i: usize = 0;
        while i < self.intermediate_values.len()
            invariant
                i <= self.intermediate_values.len(),
                self.intermediate_values == old(self).intermediate_values,
                self.number == old(self).number,
                self.params == old(self).params,
                self.value == old(self).value,
                self.state == old(self).state,
                forall|j: int| 0 <= j < i ==> #[trigger] self.intermediate_values@[j].0 != step,
            decreases self.intermediate_values.len() - i,
        {
            if self.intermediate_values[i].0 == step {
                self.intermediate_values.set(i, (step, value));
                proof {
                    assert forall|k: int|
                        first_report_at(old(self).intermediate_values@, step, k) implies k
                        == i by {
                        if k < i {
                        } else if k > i {
                            assert(old(self).intermediate_values@[i as int].0 == step);
                        }
                    }
                    assert(first_report_at(old(self).intermediate_values@, step, i as int));
                    assert(has_report_at(old(self).intermediate_values@, step));
                    assert(first_report_index(old(self).intermediate_values@, step) == i);
                }
                return;
            }
            i = i + 1;
        }
        self.intermediate_values.push((step, value));
    }
}

} // verus!
