//! Early-stopping policies. A pruner inspects a trial's intermediate reports
//! against the rest of the study and decides whether continuing is worth it.
//!
//! - [`NopPruner`] never prunes.
//! - [`MedianPruner`] prunes a trial whose latest report is worse than the
//!   median of the other trials' reports at the same step.
//! - [`SuccessiveHalvingPruner`] promotes only the top `1/eta` of the trials
//!   that reached a resource rung (ASHA).
use vstd::prelude::*;
use vstd::relations::sorted_by;

use crate::float::{
    is_finite_spec, lemma_total_le_is_total_ordering, total_key, total_le, FloatBits,
};
use crate::study_state::{completed_count, values_at_or_after_spec, values_at_spec, StudyState};
use crate::trial::Trial;
use crate::value::{better_spec, Direction};

verus! {

broadcast use vstd::seq_lib::group_to_multiset_ensures;

/// A pruner that never prunes.
#[derive(Debug, Clone, Copy, Default)]
pub struct NopPruner;

impl NopPruner {
    /// The no-op pruner.
    pub fn new() -> (r: NopPruner)
        ensures
            r == NopPruner,
    {
        NopPruner
    }

    /// Always `false`.
    pub fn should_prune(&self, _study_state: &StudyState, _trial: &Trial) -> (r: bool)
        ensures
            !r,
    {
        false
    }
}

/// `value` is worse than `reference` under `direction`.
pub fn is_worse(direction: Direction, value: FloatBits, reference: FloatBits) -> (r: bool)
    ensures
        r == better_spec(direction, reference, value),
{
    match direction {
        Direction::Minimize => value.gt(reference),
        Direction::Maximize => value.lt(reference),
    }
}

/// The median of a list of values: its middle element, or the two middle
/// elements whose mean is the median.
#[derive(Debug, Clone, Copy, PartialEq, Eq, Structural)]
pub enum Median {
    /// An odd count: the middle element.
    Middle(FloatBits),
    /// An even count: the two middle elements, lower first.
    Between(FloatBits, FloatBits),
}

/// The `f64::total_cmp` order as a relation.
pub open spec fn total_leq() -> spec_fn(FloatBits, FloatBits) -> bool {
    |a: FloatBits, b: FloatBits| total_le(a, b)
}

/// The finite values of `values`, in order.
pub open spec fn finite_values(values: Seq<FloatBits>) -> Seq<FloatBits> {
    values.filter(|x: FloatBits| is_finite_spec(x))
}

/// The finite values of `values`, sorted by `f64::total_cmp`.
pub open spec fn sorted_finite(values: Seq<FloatBits>) -> Seq<FloatBits> {
    finite_values(values).sort_by(total_leq())
}

/// The median of the finite values of `values`, or `None` if there are none.
pub open spec fn median_spec(values: Seq<FloatBits>) -> Option<Median> {
    let v = sorted_finite(values);
    let n = v.len() as int;
    if n == 0 {
        None
    } else if n % 2 == 1 {
        Some(Median::Middle(v[n / 2]))
    } else {
        Some(Median::Between(v[n / 2 - 1], v[n / 2]))
    }
}

/// The finite values of `values`, in order.
fn finite_of(values: &[FloatBits]) -> (r: Vec<FloatBits>)
    ensures
        r@ == finite_values(values@),
{
    let mut out: Vec<FloatBits> = Vec::new();
    let mut i: usize = 0;
    while i < values.len()
        invariant
            i <= values.len(),
            out@ == values@.take(i as int).filter(|x: FloatBits| is_finite_spec(x)),
        decreases values.len() - i,
    {
        proof {
            reveal_with_fuel(Seq::<_>::filter, 1);
            assert(values@.take(i + 1).drop_last() =~= values@.take(i as int));
        }
        let x = values[i];
        if x.is_finite() {
            out.push(x);
        }
        i = i + 1;
    }
    proof {
        assert(values@.take(i as int) =~= values@);
    }
    out
}

/// Sorts `values` by `f64::total_cmp` (insertion sort).
fn sort_total(values: Vec<FloatBits>) -> (r: Vec<FloatBits>)
    ensures
        r@ == values@.sort_by(total_leq()),
{
    let mut sorted: Vec<FloatBits> = Vec::new();
    let mut i: usize = 0;
    while i < values.len()
        invariant
            i <= values.len(),
            sorted_by(sorted@, total_leq()),
            sorted@.to_multiset() == values@.take(i as int).to_multiset(),
        decreases values.len() - i,
    {
        let x = values[i];
        let mut pos: usize = 0;
        while pos < sorted.len() && sorted[pos].total_le(x)
            invariant
                pos <= sorted.len(),
                forall|k: int| 0 <= k < pos ==> total_le(#[trigger] sorted@[k], x),
            decreases sorted.len() - pos,
        {
            pos = pos + 1;
        }
        let ghost old_sorted = sorted@;
        sorted.insert(pos, x);
        proof {
            assert(sorted_by(sorted@, total_leq())) by {
                assert forall|a: int, b: int| 0 <= a < b < sorted@.len() implies #[trigger] total_le(
                    sorted@[a],
                    sorted@[b],
                ) by {
                    if b < pos {
                        assert(total_leq()(old_sorted[a], old_sorted[b]));
                    } else if b == pos {
                    } else if a < pos {
                        assert(total_le(old_sorted[a], x));
                        assert(!total_le(old_sorted[pos as int], x));
                        assert(total_leq()(old_sorted[pos as int], old_sorted[b - 1]) || pos
                            == b - 1);
                    } else if a == pos {
                        assert(!total_le(old_sorted[pos as int], x));
                        assert(total_leq()(old_sorted[pos as int], old_sorted[b - 1]) || pos
                            == b - 1);
                    } else {
                        assert(total_leq()(old_sorted[a - 1], old_sorted[b - 1]));
                    }
                }
            }
            assert(old_sorted.insert(pos as int, x) =~= old_sorted.take(pos as int) + seq![x]
                + old_sorted.skip(pos as int));
            vstd::seq_lib::lemma_multiset_commutative(
                old_sorted.take(pos as int) + seq![x],
                old_sorted.skip(pos as int),
            );
            vstd::seq_lib::lemma_multiset_commutative(old_sorted.take(pos as int), seq![x]);
            vstd::seq_lib::lemma_multiset_commutative(
                old_sorted.take(pos as int),
                old_sorted.skip(pos as int),
            );
            assert(old_sorted.take(pos as int) + old_sorted.skip(pos as int) =~= old_sorted);
            assert(values@.take(i + 1) =~= values@.take(i as int).push(x));
            assert(sorted@.to_multiset() =~= values@.take(i + 1).to_multiset());
        }
        i = i + 1;
    }
    proof {
        assert(values@.take(i as int) =~= values@);
        lemma_total_le_is_total_ordering();
        values@.lemma_sort_by_ensures(total_leq());
        vstd::seq_lib::lemma_sorted_unique(sorted@, values@.sort_by(total_leq()), total_leq());
    }
    sorted
}

/// Median of the finite values in `values` (`None` when there are none).
/// For an even count the two middle values are returned; their mean is the
/// median.
pub fn median(values: &[FloatBits]) -> (r: Option<Median>)
    ensures
        r == median_spec(values@),
{
    let finite = finite_of(values);
    let v = sort_total(finite);
    let n = v.len();
    if n == 0 {
        None
    } else if n % 2 == 1 {
        Some(Median::Middle(v[n / 2]))
    } else {
        Some(Median::Between(v[n / 2 - 1], v[n / 2]))
    }
}

/// Prunes a trial when its latest intermediate value is worse than the median
/// of the values other trials reported at the same step.
///
/// - No pruning until `n_startup_trials` trials have completed.
/// - No pruning at a step below `n_warmup_steps`.
/// - No pruning unless at least `min_trials_at_step` values were reported at
///   that step.
#[derive(Debug, Clone)]
pub struct MedianPruner {
    n_startup_trials: usize,
    n_warmup_steps: usize,
    min_trials_at_step: usize,
}

impl MedianPruner {
    /// Completed trials required before any pruning happens.
    pub closed spec fn startup_spec(&self) -> usize {
        self.n_startup_trials
    }

    /// Steps a trial must reach before it can be pruned.
    pub closed spec fn warmup_spec(&self) -> usize {
        self.n_warmup_steps
    }

    /// Comparison values required at a step before pruning against them.
    pub closed spec fn min_at_step_spec(&self) -> usize {
        self.min_trials_at_step
    }

    /// A median pruner with default gates (`n_startup_trials = 5`,
    /// `n_warmup_steps = 0`, `min_trials_at_step = 1`).
    pub fn new() -> (r: MedianPruner)
        ensures
            r.startup_spec() == 5,
            r.warmup_spec() == 0,
            r.min_at_step_spec() == 1,
    {
        MedianPruner { n_startup_trials: 5, n_warmup_steps: 0, min_trials_at_step: 1 }
    }

    /// Number of completed trials required before any pruning happens.
    pub fn n_startup_trials(self, n: usize) -> (r: MedianPruner)
        ensures
            r.startup_spec() == n,
            r.warmup_spec() == self.warmup_spec(),
            r.min_at_step_spec() == self.min_at_step_spec(),
    {
        MedianPruner { n_startup_trials: n, ..self }
    }

    /// Number of steps a trial must run before it becomes eligible for pruning.
    pub fn n_warmup_steps(self, n: usize) -> (r: MedianPruner)
        ensures
            r.startup_spec() == self.startup_spec(),
            r.warmup_spec() == n,
            r.min_at_step_spec() == self.min_at_step_spec(),
    {
        MedianPruner { n_warmup_steps: n, ..self }
    }

    /// Minimum number of comparison values required at a step before the
    /// median is trusted enough to prune against.
    pub fn min_trials_at_step(self, n: usize) -> (r: MedianPruner)
        ensures
            r.startup_spec() == self.startup_spec(),
            r.warmup_spec() == self.warmup_spec(),
            r.min_at_step_spec() == n,
    {
        MedianPruner { min_trials_at_step: n, ..self }
    }

    /// What the pruner compares: `None` when a gate holds the trial back,
    /// otherwise the trial's latest value and the median it is held against.
    pub open spec fn check_spec(&self, state: StudyState, trial: Trial) -> Option<
        (FloatBits, Median),
    > {
        if completed_count(state.trials_spec()) < self.startup_spec() {
            None
        } else if trial.intermediate_values@.len() == 0 {
            None
        } else {
            let (step, value) = trial.intermediate_values@.last();
            let others = values_at_spec(state.trials_spec(), step);
            if step < self.warmup_spec() {
                None
            } else if others.len() < self.min_at_step_spec() {
                None
            } else {
                match median_spec(others) {
                    Some(m) => Some((value, m)),
                    None => None,
                }
            }
        }
    }

    /// Whether the trial should be pruned. The mean of the two middle values
    /// of an even-length list is computed by `mean`, which takes the lower and
    /// the upper middle value; the trial is pruned when its latest value is
    /// strictly worse than the median under the study direction.
    pub fn should_prune<F: Fn(FloatBits, FloatBits) -> FloatBits>(
        &self,
        study_state: &StudyState,
        trial: &Trial,
        mean: F,
    ) -> (r: bool)
        requires
            forall|a: FloatBits, b: FloatBits| mean.requires((a, b)),
        ensures
            self.check_spec(*study_state, *trial) is None ==> !r,
            self.check_spec(*study_state, *trial) matches Some((v, Median::Middle(mid)))
                ==> r == better_spec(study_state.direction_spec(), mid, v),
            self.check_spec(*study_state, *trial) matches Some((v, Median::Between(a, b)))
                ==> exists|mid: FloatBits|
                #[trigger] mean.ensures((a, b), mid) && r == better_spec(
                    study_state.direction_spec(),
                    mid,
                    v,
                ),
    {
        if study_state.n_completed() < self.n_startup_trials {
            return false;
        }
        let (step, value) = match trial.last_intermediate() {
            Some(p) => p,
            None => {
                return false;
            },
        };
        if step < self.n_warmup_steps {
            return false;
        }
        let others = study_state.intermediate_values_at(step);
        if others.len() < self.min_trials_at_step {
            return false;
        }
        let med = median(others.as_slice());
        let dir = study_state.direction();
        proof {
            assert(others@ == values_at_spec(study_state.trials_spec(), step));
            assert(self.check_spec(*study_state, *trial) == match med {
                Some(md) => Some((value, md)),
                None => None,
            });
        }
        match med {
            Some(Median::Middle(m)) => is_worse(dir, value, m),
            Some(Median::Between(a, b)) => {
                let m = mean(a, b);
                let r = is_worse(dir, value, m);
                proof {
                    assert(mean.ensures((a, b), m));
                }
                r
            },
            None => false,
        }
    }
}

impl Default for MedianPruner {
    /// The defaults of [`MedianPruner::new`].
    fn default() -> (r: MedianPruner)
        ensures
            r.startup_spec() == 5,
            r.warmup_spec() == 0,
            r.min_at_step_spec() == 1,
    {
        MedianPruner::new()
    }
}

/// `base` to the power `e`.
pub open spec fn power(base: int, e: nat) -> int
    decreases e,
{
    if e == 0 {
        1
    } else {
        base * power(base, (e - 1) as nat)
    }
}

/// The number of `values` strictly better than `value` under `direction`.
pub open spec fn count_better(values: Seq<FloatBits>, direction: Direction, value: FloatBits) -> nat
    decreases values.len(),
{
    if values.len() == 0 {
        0
    } else {
        count_better(values.drop_last(), direction, value) + if better_spec(
            direction,
            values.last(),
            value,
        ) {
            1nat
        } else {
            0nat
        }
    }
}

/// ASHA-style (asynchronous successive halving) pruner.
///
/// Trials are compared at a ladder of resource rungs
/// `min_resource * reduction_factor^k` (from exponent
/// `min_early_stopping_rate`). At a rung only the top `1/reduction_factor` of
/// the trials that reached it are promoted; the rest are pruned.
#[derive(Debug)]
pub struct SuccessiveHalvingPruner {
    min_resource: usize,
    reduction_factor: usize,
    min_early_stopping_rate: u32,
}

impl SuccessiveHalvingPruner {
    /// The first rung is at least one step and rungs grow by at least 2.
    #[verifier::type_invariant]
    spec fn well_formed(self) -> bool {
        self.min_resource >= 1 && self.reduction_factor >= 2
    }

    /// Resource (step count) of the lowest rung exponent.
    pub closed spec fn min_resource_spec(&self) -> usize {
        self.min_resource
    }

    /// `eta`: the promoted fraction is `1/eta` and rungs grow by `eta`.
    pub closed spec fn reduction_factor_spec(&self) -> usize {
        self.reduction_factor
    }

    /// The exponent of the first rung.
    pub closed spec fn rate_spec(&self) -> u32 {
        self.min_early_stopping_rate
    }

    /// The resource of the first rung: `min_resource * eta^rate`.
    pub open spec fn first_rung_spec(&self) -> int {
        self.min_resource_spec() * power(
            self.reduction_factor_spec() as int,
            self.rate_spec() as nat,
        )
    }

    /// `rung` is the highest rung resource `<= step`.
    pub open spec fn is_rung_for(&self, step: int, rung: int) -> bool {
        &&& exists|k: nat| rung == #[trigger] power(self.reduction_factor_spec() as int, k)
            * self.first_rung_spec()
        &&& rung <= step
        &&& step < rung * self.reduction_factor_spec()
    }

    /// Defaults: `min_resource = 1`, `reduction_factor = 4`,
    /// `min_early_stopping_rate = 0`.
    pub fn new() -> (r: SuccessiveHalvingPruner)
        ensures
            r.min_resource_spec() == 1,
            r.reduction_factor_spec() == 4,
            r.rate_spec() == 0,
    {
        SuccessiveHalvingPruner { min_resource: 1, reduction_factor: 4, min_early_stopping_rate: 0 }
    }

    /// Resource (step count) of the first rung (at least 1).
    pub fn min_resource(self, r: usize) -> (s: SuccessiveHalvingPruner)
        ensures
            s.min_resource_spec() == if r >= 1 {
                r
            } else {
                1
            },
            s.reduction_factor_spec() == self.reduction_factor_spec(),
            s.rate_spec() == self.rate_spec(),
    {
        proof {
            use_type_invariant(&self);
        }
        SuccessiveHalvingPruner {
            min_resource: if r >= 1 {
                r
            } else {
                1
            },
            reduction_factor: self.reduction_factor,
            min_early_stopping_rate: self.min_early_stopping_rate,
        }
    }

    /// `eta` (at least 2): the fraction `1/eta` promoted at each rung and the
    /// factor by which rung resources grow.
    pub fn reduction_factor(self, eta: usize) -> (s: SuccessiveHalvingPruner)
        ensures
            s.min_resource_spec() == self.min_resource_spec(),
            s.reduction_factor_spec() == if eta >= 2 {
                eta
            } else {
                2
            },
            s.rate_spec() == self.rate_spec(),
    {
        proof {
            use_type_invariant(&self);
        }
        SuccessiveHalvingPruner {
            min_resource: self.min_resource,
            reduction_factor: if eta >= 2 {
                eta
            } else {
                2
            },
            min_early_stopping_rate: self.min_early_stopping_rate,
        }
    }

    /// Starting rung exponent: skips the earliest, cheapest rungs.
    pub fn min_early_stopping_rate(self, s: u32) -> (p: SuccessiveHalvingPruner)
        ensures
            p.min_resource_spec() == self.min_resource_spec(),
            p.reduction_factor_spec() == self.reduction_factor_spec(),
            p.rate_spec() == s,
    {
        proof {
            use_type_invariant(&self);
        }
        SuccessiveHalvingPruner {
            min_resource: self.min_resource,
            reduction_factor: self.reduction_factor,
            min_early_stopping_rate: s,
        }
    }

    /// The highest rung resource `<= step`, or `None` if `step` hasn't
    /// reached the first rung yet.
    fn rung_resource_for(&self, step: usize) -> (r: Option<usize>)
        requires
            self.first_rung_spec() <= u64::MAX,
            step < u64::MAX,
        ensures
            r is None <==> step < self.first_rung_spec(),
            r matches Some(rung) ==> self.is_rung_for(step as int, rung as int),
    {
        proof {
            use_type_invariant(self);
        }
        let eta = self.reduction_factor as u64;
        let mut p: u64 = 1;
        let mut e: u32 = 0;
        while e < self.min_early_stopping_rate
            invariant
                e <= self.min_early_stopping_rate,
                p == power(eta as int, e as nat),
                eta >= 2,
                self.min_resource >= 1,
                self.min_resource * power(eta as int, self.min_early_stopping_rate as nat)
                    <= u64::MAX,
            decreases self.min_early_stopping_rate - e,
        {
            proof {
                lemma_power_monotone(eta as int, (e + 1) as nat, self.min_early_stopping_rate as nat);
                assert(power(eta as int, (e + 1) as nat) <= u64::MAX) by (nonlinear_arith)
                    requires
                        self.min_resource >= 1,
                        power(eta as int, (e + 1) as nat) <= power(
                            eta as int,
                            self.min_early_stopping_rate as nat,
                        ),
                        self.min_resource * power(eta as int, self.min_early_stopping_rate as nat)
                            <= u64::MAX,
                        power(eta as int, (e + 1) as nat) >= 0,
                ;
                assert(power(eta as int, (e + 1) as nat) == eta * power(eta as int, e as nat));
                assert(p * eta == eta * p) by (nonlinear_arith);
            }
            p = p * eta;
            e = e + 1;
        }
        proof {
            lemma_power_positive(eta as int, self.min_early_stopping_rate as nat);
            assert(self.min_resource as int * p <= u64::MAX);
            assert(self.min_resource as int * p >= 1) by (nonlinear_arith)
                requires
                    self.min_resource >= 1,
                    p >= 1,
            ;
        }
        let first = (self.min_resource as u64) * p;
        assert(first == self.first_rung_spec());
        if (step as u64) < first {
            return None;
        }
        let mut rung = first;
        let ghost mut k: nat = 0;
        loop
            invariant
                eta >= 2,
                first >= 1,
                first == self.first_rung_spec(),
                rung == power(eta as int, k) * first,
                rung <= step,
                rung >= 1,
                first <= step,
                eta == self.reduction_factor,
                step < u64::MAX,
            decreases step - rung,
        {
            let next = match rung.checked_mul(eta) {
                Some(n) => n,
                None => u64::MAX,
            };
            if next <= step as u64 {
                proof {
                    assert(power(eta as int, k + 1) * first == eta * (power(eta as int, k)
                        * first)) by (nonlinear_arith);
                    assert(rung * eta > rung) by (nonlinear_arith)
                        requires
                            rung >= 1,
                            eta >= 2,
                    ;
                    assert(power(eta as int, k) >= 1) by {
                        lemma_power_positive(eta as int, k);
                    }
                    assert(power(eta as int, k) * first >= 1) by (nonlinear_arith)
                        requires
                            power(eta as int, k) >= 1,
                            first >= 1,
                    ;
                    k = k + 1;
                }
                rung = next;
            } else {
                proof {
                    assert(rung == power(self.reduction_factor_spec() as int, k)
                        * self.first_rung_spec());
                    assert(step < rung * eta);
                    assert(self.is_rung_for(step as int, rung as int));
                }
                return Some(rung as usize);
            }
        }
    }

    /// The resource of the first rung, `min_resource * eta^rate`, or `None`
    /// when it overflows a `u64` (the ladder cannot then be computed).
    pub fn first_rung(&self) -> (r: Option<u64>)
        ensures
            r matches Some(f) ==> f == self.first_rung_spec(),
            r is None ==> self.first_rung_spec() > u64::MAX,
    {
        proof {
            use_type_invariant(self);
        }
        let eta = self.reduction_factor as u64;
        let mut p: u64 = 1;
        let mut e: u32 = 0;
        while e < self.min_early_stopping_rate
            invariant
                e <= self.min_early_stopping_rate,
                p == power(eta as int, e as nat),
                eta == self.reduction_factor,
                eta >= 2,
                self.min_resource >= 1,
            decreases self.min_early_stopping_rate - e,
        {
            proof {
                assert(power(eta as int, (e + 1) as nat) == eta * power(eta as int, e as nat));
            }
            match p.checked_mul(eta) {
                Some(q) => {
                    proof {
                        assert(p * eta == eta * p) by (nonlinear_arith);
                    }
                    p = q;
                },
                None => {
                    proof {
                        assert(p * eta == eta * p) by (nonlinear_arith);
                        lemma_power_monotone(
                            eta as int,
                            (e + 1) as nat,
                            self.min_early_stopping_rate as nat,
                        );
                        assert(self.min_resource * power(
                            eta as int,
                            self.min_early_stopping_rate as nat,
                        ) >= power(eta as int, (e + 1) as nat)) by (nonlinear_arith)
                            requires
                                self.min_resource >= 1,
                                power(eta as int, (e + 1) as nat) <= power(
                                    eta as int,
                                    self.min_early_stopping_rate as nat,
                                ),
                                power(eta as int, (e + 1) as nat) >= 0,
                        ;
                    }
                    return None;
                },
            }
            e = e + 1;
        }
        (self.min_resource as u64).checked_mul(p)
    }

    /// Whether the trial should be pruned: at the highest rung its latest
    /// report reached, it is kept only if fewer than `max(total/eta, 1)` of
    /// the trials at that rung (the peers plus itself) are strictly better.
    /// No verdict is given while the rung holds fewer than `eta` trials.
    pub fn should_prune(&self, study_state: &StudyState, trial: &Trial) -> (r: bool)
        requires
            self.first_rung_spec() <= u64::MAX,
            trial.intermediate_values@.len() > 0 ==> trial.intermediate_values@.last().0
                < u64::MAX,
        ensures
            r == (trial.intermediate_values@.len() > 0 && {
                let (step, value) = trial.intermediate_values@.last();
                step >= self.first_rung_spec() && exists|rung: int|
                    #![trigger self.is_rung_for(step as int, rung)]
                    self.is_rung_for(step as int, rung) && 0 <= rung <= usize::MAX && {
                        let peers = values_at_or_after_spec(
                            study_state.trials_spec(),
                            rung as usize,
                        );
                        let eta = self.reduction_factor_spec();
                        let total = peers.len() + 1int;
                        let top_k = if total / (eta as int) >= 1 {
                            total / (eta as int)
                        } else {
                            1
                        };
                        total >= eta && count_better(peers, study_state.direction_spec(), value)
                            >= top_k
                    }
            }),
    {
        proof {
            use_type_invariant(self);
        }
        let (step, value) = match trial.last_intermediate() {
            Some(p) => p,
            None => {
                return false;
            },
        };
        let rung = match self.rung_resource_for(step) {
            Some(r) => r,
            None => {
                return false;
            },
        };
        proof {
            lemma_power_positive(self.reduction_factor_spec() as int, self.rate_spec() as nat);
            assert(self.first_rung_spec() >= 1) by (nonlinear_arith)
                requires
                    self.min_resource_spec() >= 1,
                    power(self.reduction_factor_spec() as int, self.rate_spec() as nat) >= 1,
                    self.first_rung_spec() == self.min_resource_spec() * power(
                        self.reduction_factor_spec() as int,
                        self.rate_spec() as nat,
                    ),
            ;
            assert forall|r2: int| self.is_rung_for(step as int, r2) implies r2 == rung by {
                self.lemma_rung_unique(step as int, r2, rung as int);
            }
        }
        let peers = study_state.values_at_or_after(rung);
        let eta = self.reduction_factor;
        if peers.len() < eta - 1 {
            return false;
        }
        let direction = study_state.direction();
        let mut better: usize = 0;
        let mut i: usize = 0;
        while i < peers.len()
            invariant
                i <= peers.len(),
                better == count_better(peers@.take(i as int), direction, value),
                better <= i,
            decreases peers.len() - i,
        {
            proof {
                assert(peers@.take(i + 1).drop_last() =~= peers@.take(i as int));
            }
            if direction.is_better(peers[i], value) {
                better = better + 1;
            }
            i = i + 1;
        }
        proof {
            assert(peers@.take(i as int) =~= peers@);
        }
        let total: u128 = peers.len() as u128 + 1;
        let top_k: u128 = if total / (eta as u128) >= 1 {
            total / (eta as u128)
        } else {
            1
        };
        better as u128 >= top_k
    }

    /// Two highest rungs `<= step` coincide.
    proof fn lemma_rung_unique(&self, step: int, a: int, b: int)
        requires
            self.reduction_factor_spec() >= 2,
            self.first_rung_spec() >= 1,
            self.is_rung_for(step, a),
            self.is_rung_for(step, b),
        ensures
            a == b,
    {
        let eta = self.reduction_factor_spec() as int;
        let f = self.first_rung_spec();
        let ka = choose|k: nat| a == #[trigger] power(eta, k) * f;
        let kb = choose|k: nat| b == #[trigger] power(eta, k) * f;
        if ka < kb {
            lemma_power_monotone(eta, ka + 1, kb);
            assert(power(eta, ka + 1) == eta * power(eta, ka));
            assert(power(eta, kb) * f >= power(eta, ka + 1) * f) by (nonlinear_arith)
                requires
                    power(eta, kb) >= power(eta, ka + 1),
                    f >= 1,
            ;
            assert(power(eta, ka + 1) * f == (power(eta, ka) * f) * eta) by (nonlinear_arith)
                requires
                    power(eta, ka + 1) == eta * power(eta, ka),
            ;
        } else if kb < ka {
            lemma_power_monotone(eta, kb + 1, ka);
            assert(power(eta, kb + 1) == eta * power(eta, kb));
            assert(power(eta, ka) * f >= power(eta, kb + 1) * f) by (nonlinear_arith)
                requires
                    power(eta, ka) >= power(eta, kb + 1),
                    f >= 1,
            ;
            assert(power(eta, kb + 1) * f == (power(eta, kb) * f) * eta) by (nonlinear_arith)
                requires
                    power(eta, kb + 1) == eta * power(eta, kb),
            ;
        }
    }
}

/// Powers of a base `>= 1` are at least 1.
pub proof fn lemma_power_positive(base: int, e: nat)
    requires
        base >= 1,
    ensures
        power(base, e) >= 1,
    decreases e,
{
    if e > 0 {
        lemma_power_positive(base, (e - 1) as nat);
        assert(base * power(base, (e - 1) as nat) >= 1) by (nonlinear_arith)
            requires
                base >= 1,
                power(base, (e - 1) as nat) >= 1,
        ;
    }
}

/// Powers of a base `>= 1` grow with the exponent.
pub proof fn lemma_power_monotone(base: int, e1: nat, e2: nat)
    requires
        base >= 1,
        e1 <= e2,
    ensures
        power(base, e1) <= power(base, e2),
    decreases e2,
{
    if e1 < e2 {
        lemma_power_monotone(base, e1, (e2 - 1) as nat);
        lemma_power_positive(base, (e2 - 1) as nat);
        assert(base * power(base, (e2 - 1) as nat) >= power(base, (e2 - 1) as nat))
            by (nonlinear_arith)
            requires
                base >= 1,
                power(base, (e2 - 1) as nat) >= 1,
        ;
    }
}

impl Default for SuccessiveHalvingPruner {
    /// The defaults of [`SuccessiveHalvingPruner::new`].
    fn default() -> (r: SuccessiveHalvingPruner)
        ensures
            r.min_resource_spec() == 1,
            r.reduction_factor_spec() == 4,
            r.rate_spec() == 0,
    {
        SuccessiveHalvingPruner::new()
    }
}

impl Clone for SuccessiveHalvingPruner {
    /// A pruner with the same settings.
    fn clone(&self) -> (r: SuccessiveHalvingPruner)
        ensures
            r.min_resource_spec() == self.min_resource_spec(),
            r.reduction_factor_spec() == self.reduction_factor_spec(),
            r.rate_spec() == self.rate_spec(),
    {
        proof {
            use_type_invariant(self);
        }
        SuccessiveHalvingPruner {
            min_resource: self.min_resource,
            reduction_factor: self.reduction_factor,
            min_early_stopping_rate: self.min_early_stopping_rate,
        }
    }
}

} // verus!
