//! What holds of the library across calls and for every input: the promises
//! its operations keep together.
use vstd::prelude::*;

use crate::distributed::{Coordinator, Refusal, Routing};
use crate::float::{is_nan_spec, lt_spec, FloatBits};
use crate::grid::{
    first_axis, has_axis, lemma_suffix_product_positive, radix, suffix_product, GridSampler,
};
use crate::history::{insert_by_number, ordered_completed, running_best};
use crate::protocol::{study_of, Request};
use crate::pruners::{count_better, MedianPruner};
use crate::sampling::{draws_continuous, zero};
use crate::search_space::{
    completed_records, count_named, in_space, lemma_count_named_bound, numeric_of, numeric_records,
};
use crate::storage::{lemma_lower_bound, lemma_upsert_sorted, lower_bound, sorted_by_number, upsert};
use crate::study_state::{best_index, completed_count, is_completed, values_at_spec, StudyState};
use crate::trial::{
    first_param, first_report_at, first_report_index, has_param, has_report_at, recorded,
    report_at, reported, ParamRecord, Trial, TrialState,
};
use crate::value::{better_spec, Direction, Distribution, Value};
use crate::worker::Worker;

verus! {

// ---------------------------------------------------------------------------
// Storage

/// Saving a trial and loading its study gives that trial back under its
/// number, and only it: the trial saved before under that number is gone,
/// every trial of another number is still there, nothing else appears, and
/// the trials stay in increasing number order.
pub proof fn law_saved_trial_is_loaded(trials: Seq<Trial>, trial: Trial)
    requires
        sorted_by_number(trials),
    ensures
        sorted_by_number(upsert(trials, trial)),
        upsert(trials, trial).contains(trial),
        forall|i: int|
            0 <= i < upsert(trials, trial).len() && #[trigger] upsert(trials, trial)[i].number
                == trial.number ==> upsert(trials, trial)[i] == trial,
        forall|t: Trial|
            t.number != trial.number ==> (trials.contains(t) <==> #[trigger] upsert(
                trials,
                trial,
            ).contains(t)),
{
    lemma_upsert_sorted(trials, trial);
    lemma_lower_bound(trials, trial.number);
    let s = upsert(trials, trial);
    let p = lower_bound(trials, trial.number);
    let replaced = p < trials.len() && trials[p].number == trial.number;
    assert(s[p] == trial);
    assert forall|i: int| 0 <= i < s.len() && #[trigger] s[i].number == trial.number implies s[i]
        == trial by {
        if i != p {
            if replaced {
                assert(s[i] == trials[i]);
                if i < p {
                } else {
                    assert(trials[p].number < trials[i].number);
                }
            } else if i < p {
                assert(s[i] == trials[i]);
            } else {
                assert(s[i] == trials[i - 1]);
            }
        }
    }
    assert forall|t: Trial| t.number != trial.number implies (trials.contains(t)
        <==> #[trigger] s.contains(t)) by {
        if trials.contains(t) {
            let j = choose|j: int| 0 <= j < trials.len() && trials[j] == t;
            if replaced {
                assert(j != p);
                assert(s[j] == t);
            } else if j < p {
                assert(s[j] == t);
            } else {
                assert(s[j + 1] == t);
            }
        }
        if s.contains(t) {
            let k = choose|k: int| 0 <= k < s.len() && s[k] == t;
            assert(k != p);
            if replaced {
                assert(trials[k] == t);
            } else if k < p {
                assert(trials[k] == t);
            } else {
                assert(trials[k - 1] == t);
            }
        }
    }
}

/// Saving the same trial twice leaves the study as saving it once.
pub proof fn law_save_is_idempotent(trials: Seq<Trial>, trial: Trial)
    requires
        sorted_by_number(trials),
    ensures
        upsert(upsert(trials, trial), trial) == upsert(trials, trial),
{
    lemma_upsert_sorted(trials, trial);
    lemma_lower_bound(trials, trial.number);
    let s = upsert(trials, trial);
    let p = lower_bound(trials, trial.number);
    lemma_lower_bound(s, trial.number);
    let q = lower_bound(s, trial.number);
    assert(s[p] == trial);
    assert forall|i: int| 0 <= i < p implies #[trigger] s[i].number < trial.number by {
        assert(s[i] == trials[i]);
    }
    assert(q == p) by {
        if q < p {
            assert(s[q].number < trial.number);
        } else if q > p {
            assert(s[p].number < trial.number);
        }
    }
    assert(s.update(p, trial) =~= s);
}

// ---------------------------------------------------------------------------
// The coordinator's gate

/// No request but `Auth` is served on a connection that has not
/// authenticated, and it stays unauthenticated.
pub proof fn law_unauthenticated_requests_refused(c: Coordinator, req: Request)
    requires
        !(req is Auth),
    ensures
        c.route_spec(req, false) == (Routing::Refuse(Refusal::AuthenticationRequired), false),
{
}

/// Authentication, once gained on a connection, is never lost.
pub proof fn law_authentication_persists(c: Coordinator, req: Request)
    ensures
        c.route_spec(req, true).1,
{
}

/// A wrong token neither authenticates a connection nor is acknowledged; the
/// right one, or any token when none is required, authenticates it.
pub proof fn law_token_decides_authentication(c: Coordinator, token: String, authed: bool)
    ensures
        c.token_spec() matches Some(expected) && token@ != expected ==> c.route_spec(
            Request::Auth { token },
            authed,
        ) == (Routing::Refuse(Refusal::AuthenticationFailed), authed),
        (c.token_spec() is None || c.token_spec() == Some(token@)) ==> c.route_spec(
            Request::Auth { token },
            authed,
        ) == (Routing::Acknowledge, true),
{
}

/// A request naming another study is never served.
pub proof fn law_other_studies_refused(c: Coordinator, req: Request, authed: bool)
    requires
        !(req is Auth),
        study_of(req) != c.name_spec(),
    ensures
        c.route_spec(req, authed).0 != Routing::Serve,
{
}

/// Every request a worker bound to the coordinator's study sends (but
/// `Auth`) is served on an authenticated connection.
pub proof fn law_matching_worker_is_served(c: Coordinator, w: Worker, req: Request)
    requires
        w.study_spec() == c.name_spec(),
        !(req is Auth),
        study_of(req) == w.study_spec(),
    ensures
        c.route_spec(req, true) == (Routing::Serve, true),
{
}

// ---------------------------------------------------------------------------
// Trials

/// After recording `(name, distribution, value)`, reading `name` back gives
/// `value` and `distribution`; the number of records grows only for a name
/// not recorded before.
pub proof fn law_recorded_value_is_read_back(
    before: Seq<ParamRecord>,
    after: Seq<ParamRecord>,
    name: Seq<char>,
    distribution: Distribution,
    value: Value,
)
    requires
        recorded(before, after, name, distribution, value),
    ensures
        has_param(after, name),
        forall|i: int|
            first_param(after, name, i) ==> after[i].value == value && after[i].distribution
                == distribution,
        after.len() == before.len() + if has_param(before, name) {
            0int
        } else {
            1int
        },
{
    if has_param(before, name) {
        let k = choose|k: int| 0 <= k < before.len() && #[trigger] before[k].name@ == name;
        lemma_first_param_exists(before, name, k);
        let i = choose|i: int| first_param(before, name, i);
        assert(after == before.update(
            i,
            ParamRecord { name: before[i].name, distribution: distribution, value: value },
        ));
        assert(after[i].name@ == name);
        assert forall|j: int| first_param(after, name, j) implies after[j].value == value
            && after[j].distribution == distribution by {
            if j < i {
                assert(after[j] == before[j]);
            } else if j > i {
                assert(after[i].name@ == name);
            }
        }
    } else {
        let n = before.len() as int;
        assert(after[n].name@ == name);
        assert forall|j: int| first_param(after, name, j) implies after[j].value == value
            && after[j].distribution == distribution by {
            if j < n {
                assert(after[j] == after.drop_last()[j]);
                assert(before[j].name@ == name);
            }
        }
    }
}

/// A sequence holding a record named `name` at `k` has a first one.
proof fn lemma_first_param_exists(params: Seq<ParamRecord>, name: Seq<char>, k: int)
    requires
        0 <= k < params.len(),
        params[k].name@ == name,
    ensures
        exists|i: int| first_param(params, name, i),
    decreases k,
{
    if forall|j: int| 0 <= j < k ==> #[trigger] params[j].name@ != name {
        assert(first_param(params, name, k));
    } else {
        let j = choose|j: int| 0 <= j < k && #[trigger] params[j].name@ == name;
        lemma_first_param_exists(params, name, j);
    }
}

/// The first report at `step` decides what is read at `step`.
proof fn lemma_report_at_first(reports: Seq<(usize, FloatBits)>, step: usize)
    ensures
        !has_report_at(reports, step) ==> report_at(reports, step) is None,
        forall|i: int|
            first_report_at(reports, step, i) ==> report_at(reports, step) == Some(reports[i].1),
    decreases reports.len(),
{
    if reports.len() > 0 {
        let init = reports.drop_last();
        lemma_report_at_first(init, step);
        assert forall|i: int| first_report_at(reports, step, i) implies report_at(reports, step)
            == Some(reports[i].1) by {
            if i < reports.len() - 1 {
                assert(first_report_at(init, step, i));
            } else {
                assert forall|j: int| 0 <= j < init.len() implies #[trigger] init[j].0 != step by {
                    assert(reports[j].0 != step);
                }
            }
        }
        if !has_report_at(reports, step) {
            assert forall|j: int| 0 <= j < init.len() implies #[trigger] init[j].0 != step by {
                assert(reports[j].0 != step);
            }
        }
    }
}

/// A sequence with a report at `step` has a first one.
proof fn lemma_first_report_exists(reports: Seq<(usize, FloatBits)>, step: usize, k: int)
    requires
        0 <= k < reports.len(),
        reports[k].0 == step,
    ensures
        exists|i: int| first_report_at(reports, step, i),
    decreases k,
{
    if forall|j: int| 0 <= j < k ==> #[trigger] reports[j].0 != step {
        assert(first_report_at(reports, step, k));
    } else {
        let j = choose|j: int| 0 <= j < k && #[trigger] reports[j].0 == step;
        lemma_first_report_exists(reports, step, j);
    }
}

/// After reporting `value` at `step`, reading `step` back gives `value`, and
/// what is read at every other step is unchanged.
pub proof fn law_reported_value_is_read_back(
    reports: Seq<(usize, FloatBits)>,
    step: usize,
    value: FloatBits,
)
    ensures
        report_at(reported(reports, step, value), step) == Some(value),
        forall|other: usize|
            other != step ==> #[trigger] report_at(reported(reports, step, value), other)
                == report_at(reports, other),
{
    let after = reported(reports, step, value);
    if has_report_at(reports, step) {
        let k = choose|k: int| 0 <= k < reports.len() && #[trigger] reports[k].0 == step;
        lemma_first_report_exists(reports, step, k);
        let i = first_report_index(reports, step);
        assert(first_report_at(reports, step, i));
        assert(first_report_at(after, step, i)) by {
            assert forall|j: int| 0 <= j < i implies #[trigger] after[j].0 != step by {
                assert(after[j] == reports[j]);
            }
        }
        lemma_report_at_first(after, step);
        assert forall|other: usize| other != step implies #[trigger] report_at(after, other)
            == report_at(reports, other) by {
            lemma_report_at_first(after, other);
            lemma_report_at_first(reports, other);
            if has_report_at(reports, other) {
                let m = choose|m: int| 0 <= m < reports.len() && #[trigger] reports[m].0 == other;
                lemma_first_report_exists(reports, other, m);
                let f = choose|f: int| first_report_at(reports, other, f);
                assert(f != i);
                assert(first_report_at(after, other, f)) by {
                    assert forall|j: int| 0 <= j < f implies #[trigger] after[j].0 != other by {
                        if j != i {
                            assert(after[j] == reports[j]);
                        }
                    }
                }
            } else {
                assert forall|j: int| 0 <= j < after.len() implies #[trigger] after[j].0
                    != other by {
                    if j != i {
                        assert(after[j] == reports[j]);
                    }
                }
            }
        }
    } else {
        let n = reports.len() as int;
        assert(first_report_at(after, step, n)) by {
            assert forall|j: int| 0 <= j < n implies #[trigger] after[j].0 != step by {
                assert(after[j] == reports[j]);
            }
        }
        lemma_report_at_first(after, step);
        assert forall|other: usize| other != step implies #[trigger] report_at(after, other)
            == report_at(reports, other) by {
            assert(after.drop_last() =~= reports);
        }
    }
}

// ---------------------------------------------------------------------------
// Comparing objective values

/// "Better" is a strict order: irreflexive, asymmetric and transitive.
pub proof fn law_better_is_strict_order(
    direction: Direction,
    a: FloatBits,
    b: FloatBits,
    c: FloatBits,
)
    ensures
        !better_spec(direction, a, a),
        better_spec(direction, a, b) ==> !better_spec(direction, b, a),
        better_spec(direction, a, b) && better_spec(direction, b, c) ==> better_spec(
            direction,
            a,
            c,
        ),
{
}

/// The best completed trial is optimal, and the earliest optimal one: when
/// no completed trial's value is NaN, no completed trial is better than it,
/// and it is better than every completed trial before it. There is a best
/// trial exactly when some trial completed.
#[verifier::spinoff_prover]
pub proof fn law_best_trial_is_optimal(trials: Seq<Trial>, direction: Direction)
    requires
        forall|i: int|
            0 <= i < trials.len() && is_completed(trials[i]) ==> !is_nan_spec(
                #[trigger] trials[i].value.unwrap(),
            ),
    ensures
        best_index(trials, direction) is None <==> completed_count(trials) == 0,
        best_index(trials, direction) is None ==> forall|i: int|
            0 <= i < trials.len() ==> !is_completed(#[trigger] trials[i]),
        best_index(trials, direction) matches Some(b) ==> {
            &&& 0 <= b < trials.len()
            &&& is_completed(trials[b])
            &&& forall|i: int|
                0 <= i < trials.len() && is_completed(trials[i]) ==> !better_spec(
                    direction,
                    #[trigger] trials[i].value.unwrap(),
                    trials[b].value.unwrap(),
                )
            &&& forall|i: int|
                0 <= i < b && is_completed(trials[i]) ==> better_spec(
                    direction,
                    trials[b].value.unwrap(),
                    #[trigger] trials[i].value.unwrap(),
                )
        },
    decreases trials.len(),
{
    crate::study_state::lemma_best_index_bounds(trials, direction);
    if trials.len() > 0 {
        let init = trials.drop_last();
        assert forall|i: int|
            0 <= i < init.len() && is_completed(init[i]) implies !is_nan_spec(
            #[trigger] init[i].value.unwrap(),
        ) by {
            assert(init[i] == trials[i]);
        }
        law_best_trial_is_optimal(init, direction);
        crate::study_state::lemma_best_index_bounds(init, direction);
        let last = trials.len() - 1;
        let t = trials[last];
        match best_index(init, direction) {
            None => {
                if is_completed(t) {
                    assert(best_index(trials, direction) == Some(last));
                    assert forall|i: int|
                        0 <= i < trials.len() && is_completed(trials[i]) implies i == last by {
                        if i < last {
                            assert(init[i] == trials[i]);
                        }
                    }
                } else {
                    assert forall|i: int| 0 <= i < trials.len() implies !is_completed(
                        #[trigger] trials[i],
                    ) by {
                        if i < last {
                            assert(init[i] == trials[i]);
                        }
                    }
                }
            },
            Some(pb) => {
                assert(init[pb] == trials[pb]);
                let vb = trials[pb].value.unwrap();
                if is_completed(t) && better_spec(direction, t.value.unwrap(), vb) {
                    assert(best_index(trials, direction) == Some(last));
                    assert forall|i: int|
                        0 <= i < trials.len() && is_completed(trials[i]) implies !better_spec(
                        direction,
                        #[trigger] trials[i].value.unwrap(),
                        t.value.unwrap(),
                    ) by {
                        if i < last {
                            assert(init[i] == trials[i]);
                            assert(!better_spec(direction, init[i].value.unwrap(), vb));
                        }
                    }
                    assert forall|i: int|
                        0 <= i < last && is_completed(trials[i]) implies better_spec(
                        direction,
                        t.value.unwrap(),
                        #[trigger] trials[i].value.unwrap(),
                    ) by {
                        assert(init[i] == trials[i]);
                        assert(!better_spec(direction, init[i].value.unwrap(), vb));
                    }
                } else {
                    assert(best_index(trials, direction) == Some(pb));
                    assert forall|i: int|
                        0 <= i < trials.len() && is_completed(trials[i]) implies !better_spec(
                        direction,
                        #[trigger] trials[i].value.unwrap(),
                        vb,
                    ) by {
                        if i < last {
                            assert(init[i] == trials[i]);
                        } else {
                            assert(trials[i] == t);
                        }
                    }
                    assert forall|i: int|
                        0 <= i < pb && is_completed(trials[i]) implies better_spec(
                        direction,
                        vb,
                        #[trigger] trials[i].value.unwrap(),
                    ) by {
                        assert(init[i] == trials[i]);
                    }
                }
            },
        }
    }
}

// ---------------------------------------------------------------------------
// The optimization history

/// `insert_by_number` adds one element and keeps a sequence ordered by
/// number.
proof fn lemma_insert_by_number(s: Seq<(usize, FloatBits)>, x: (usize, FloatBits))
    requires
        forall|i: int, j: int| 0 <= i < j < s.len() ==> s[i].0 <= s[j].0,
    ensures
        insert_by_number(s, x).len() == s.len() + 1,
        forall|i: int, j: int|
            0 <= i < j < insert_by_number(s, x).len() ==> insert_by_number(s, x)[i].0
                <= insert_by_number(s, x)[j].0,
        forall|i: int|
            0 <= i < insert_by_number(s, x).len() ==> (insert_by_number(s, x)[i] == x
                || s.contains(#[trigger] insert_by_number(s, x)[i])),
    decreases s.len(),
{
    if s.len() > 0 && s.last().0 > x.0 {
        let init = s.drop_last();
        lemma_insert_by_number(init, x);
        let r = insert_by_number(init, x);
        assert forall|i: int| 0 <= i < r.len() implies #[trigger] r[i].0 <= s.last().0 by {
            if r[i] != x {
                let k = choose|k: int| 0 <= k < init.len() && init[k] == r[i];
                assert(init[k] == s[k]);
            }
        }
        assert forall|i: int|
            0 <= i < insert_by_number(s, x).len() implies (insert_by_number(s, x)[i] == x
            || s.contains(#[trigger] insert_by_number(s, x)[i])) by {
            if i < r.len() {
                if r[i] != x {
                    let k = choose|k: int| 0 <= k < init.len() && init[k] == r[i];
                    assert(s[k] == r[i]);
                }
            } else {
                assert(s[s.len() - 1] == s.last());
            }
        }
    } else if s.len() > 0 {
        assert forall|i: int|
            0 <= i < insert_by_number(s, x).len() implies (insert_by_number(s, x)[i] == x
            || s.contains(#[trigger] insert_by_number(s, x)[i])) by {
            if i < s.len() {
                assert(s[i] == insert_by_number(s, x)[i]);
            }
        }
    }
}

/// The completed trials of the history come in order of trial number.
pub proof fn law_history_in_number_order(trials: Seq<Trial>)
    ensures
        forall|i: int, j: int|
            0 <= i < j < ordered_completed(trials).len() ==> ordered_completed(trials)[i].0
                <= ordered_completed(trials)[j].0,
    decreases trials.len(),
{
    if trials.len() > 0 {
        law_history_in_number_order(trials.drop_last());
        let prev = ordered_completed(trials.drop_last());
        if is_completed(trials.last()) {
            let x = (trials.last().number, trials.last().value.unwrap());
            lemma_insert_by_number(prev, x);
            assert(ordered_completed(trials) == insert_by_number(prev, x));
        } else {
            assert(ordered_completed(trials) == prev);
        }
    }
}

/// The best-so-far series has one entry per completed trial, carries each
/// trial's number, and never gets worse: each entry keeps the previous best
/// or takes its own trial's value, strictly better than that best.
pub proof fn law_best_so_far_never_worsens(pairs: Seq<(usize, FloatBits)>, direction: Direction)
    ensures
        running_best(pairs, direction).len() == pairs.len(),
        forall|i: int|
            0 <= i < pairs.len() ==> #[trigger] running_best(pairs, direction)[i].0 == pairs[i].0,
        forall|i: int|
            0 < i < pairs.len() ==> #[trigger] running_best(pairs, direction)[i].1 == running_best(
                pairs,
                direction,
            )[i - 1].1 || (running_best(pairs, direction)[i].1 == pairs[i].1 && better_spec(
                direction,
                pairs[i].1,
                running_best(pairs, direction)[i - 1].1,
            )),
    decreases pairs.len(),
{
    if pairs.len() > 0 {
        let init = pairs.drop_last();
        law_best_so_far_never_worsens(init, direction);
        let r = running_best(pairs, direction);
        let p = running_best(init, direction);
        assert forall|i: int| 0 <= i < pairs.len() implies #[trigger] r[i].0 == pairs[i].0 by {
            if i < init.len() {
                assert(r[i] == p[i]);
                assert(init[i] == pairs[i]);
            }
        }
        assert forall|i: int| 0 < i < pairs.len() implies #[trigger] r[i].1 == r[i - 1].1 || (r[i].1
            == pairs[i].1 && better_spec(direction, pairs[i].1, r[i - 1].1)) by {
            if i < init.len() {
                assert(r[i] == p[i]);
                assert(r[i - 1] == p[i - 1]);
                assert(init[i] == pairs[i]);
            } else {
                assert(r[i - 1] == p[i - 1]);
            }
        }
    }
}

// ---------------------------------------------------------------------------
// Pruning

/// The median pruner never prunes while fewer than `n_startup_trials`
/// trials have completed.
pub proof fn law_median_startup_gate(p: MedianPruner, state: StudyState, trial: Trial)
    requires
        completed_count(state.trials_spec()) < p.startup_spec(),
    ensures
        p.check_spec(state, trial) is None,
{
}

/// The median pruner never prunes a trial whose latest report is before
/// `n_warmup_steps`, nor one that has reported nothing.
pub proof fn law_median_warmup_gate(p: MedianPruner, state: StudyState, trial: Trial)
    requires
        trial.intermediate_values@.len() == 0 || trial.intermediate_values@.last().0
            < p.warmup_spec(),
    ensures
        p.check_spec(state, trial) is None,
{
}

// ---------------------------------------------------------------------------
// The grid

/// Past the last grid point the enumeration wraps: trial `n + grid_size`
/// reads every parameter at the same grid index as trial `n`.
pub proof fn law_grid_wraps(g: GridSampler, name: Seq<char>, n: usize)
    requires
        n + g.grid_size_spec() <= usize::MAX,
    ensures
        g.index_spec(name, (n + g.grid_size_spec()) as usize) == g.index_spec(name, n),
{
    lemma_suffix_product_positive(g.grids_spec(), 0);
    vstd::arithmetic::div_mod::lemma_mod_add_multiples_vanish(n as int, g.grid_size_spec());
}

/// The index trial `n` reads on axis `k` of `grids` (the `k`-th digit of
/// `n % grid_size` in the mixed radix of the axes).
pub open spec fn axis_index(grids: Seq<(String, Vec<Value>)>, n: int, k: int) -> int {
    (n % suffix_product(grids, 0)) / suffix_product(grids, k + 1) % radix(grids[k].1@)
}

/// A parameter reads the digit of the first axis registered under its name.
pub proof fn law_grid_index_is_axis_digit(g: GridSampler, name: Seq<char>, n: usize, k: int)
    requires
        first_axis(g.grids_spec(), name, k),
        g.grids_spec()[k].1@.len() > 0,
    ensures
        g.index_spec(name, n) == Some(axis_index(g.grids_spec(), n as int, k)),
{
    let grids = g.grids_spec();
    assert(has_axis(grids, name));
    let c = choose|c: int| first_axis(grids, name, c);
    assert(c == k) by {
        if c < k {
            assert(grids[c].0@ != name);
        } else if c > k {
            assert(grids[k].0@ != name);
        }
    }
}

/// Product of the radices of the axes `a..b`.
spec fn range_product(grids: Seq<(String, Vec<Value>)>, a: int, b: int) -> int
    decreases b - a,
{
    if a >= b {
        1
    } else {
        radix(grids[a].1@) * range_product(grids, a + 1, b)
    }
}

proof fn lemma_range_product(grids: Seq<(String, Vec<Value>)>, a: int, b: int)
    requires
        0 <= a <= b <= grids.len(),
    ensures
        suffix_product(grids, a) == range_product(grids, a, b) * suffix_product(grids, b),
        range_product(grids, a, b) >= 1,
    decreases b - a,
{
    if a == b {
        assert(range_product(grids, a, b) == 1);
        assert(1 * suffix_product(grids, b) == suffix_product(grids, b));
    } else {
        lemma_range_product(grids, a + 1, b);
        let r = radix(grids[a].1@);
        let p = range_product(grids, a + 1, b);
        let sb = suffix_product(grids, b);
        assert(suffix_product(grids, a) == r * suffix_product(grids, a + 1));
        assert(range_product(grids, a, b) == r * p);
        assert(r * (p * sb) == (r * p) * sb) by (nonlinear_arith);
        assert(r * p >= 1) by (nonlinear_arith)
            requires
                r >= 1,
                p >= 1,
        ;
    }
}

/// Two numbers with the same digits on the axes `k..` agree modulo the
/// product of those axes' radices.
proof fn lemma_same_digits_same_rest(grids: Seq<(String, Vec<Value>)>, n1: int, n2: int, k: int)
    requires
        0 <= k <= grids.len(),
        0 <= n1,
        0 <= n2,
        forall|j: int|
            k <= j < grids.len() ==> n1 / suffix_product(grids, j + 1) % radix(grids[j].1@) == n2
                / suffix_product(grids, j + 1) % radix(grids[j].1@),
    ensures
        n1 % suffix_product(grids, k) == n2 % suffix_product(grids, k),
    decreases grids.len() - k,
{
    if k == grids.len() {
        assert(suffix_product(grids, k) == 1);
    } else {
        lemma_same_digits_same_rest(grids, n1, n2, k + 1);
        let s = suffix_product(grids, k + 1);
        let r = radix(grids[k].1@);
        lemma_suffix_product_positive(grids, k + 1);
        assert(suffix_product(grids, k) == s * r) by (nonlinear_arith)
            requires
                suffix_product(grids, k) == r * s,
        ;
        vstd::arithmetic::div_mod::lemma_mod_breakdown(n1, s, r);
        vstd::arithmetic::div_mod::lemma_mod_breakdown(n2, s, r);
    }
}

/// The number whose digits on the axes `k..` are `d`.
spec fn compose(grids: Seq<(String, Vec<Value>)>, d: Seq<int>, k: int) -> int
    decreases grids.len() - k,
{
    if k >= grids.len() || k < 0 {
        0
    } else {
        d[k] * suffix_product(grids, k + 1) + compose(grids, d, k + 1)
    }
}

proof fn lemma_compose_bounds(grids: Seq<(String, Vec<Value>)>, d: Seq<int>, k: int)
    requires
        0 <= k <= grids.len(),
        d.len() == grids.len(),
        forall|j: int| 0 <= j < grids.len() ==> 0 <= #[trigger] d[j] < radix(grids[j].1@),
    ensures
        0 <= compose(grids, d, k) < suffix_product(grids, k),
    decreases grids.len() - k,
{
    if k < grids.len() {
        lemma_compose_bounds(grids, d, k + 1);
        lemma_suffix_product_positive(grids, k + 1);
        let s = suffix_product(grids, k + 1);
        let r = radix(grids[k].1@);
        let c = compose(grids, d, k + 1);
        let x = d[k];
        assert(0 <= x * s + c < r * s) by (nonlinear_arith)
            requires
                0 <= x < r,
                0 <= c < s,
        ;
    }
}

proof fn lemma_compose_digit(grids: Seq<(String, Vec<Value>)>, d: Seq<int>, k: int, j: int)
    requires
        0 <= k <= j < grids.len(),
        d.len() == grids.len(),
        forall|i: int| 0 <= i < grids.len() ==> 0 <= #[trigger] d[i] < radix(grids[i].1@),
    ensures
        compose(grids, d, k) / suffix_product(grids, j + 1) % radix(grids[j].1@) == d[j],
    decreases j - k,
{
    let sj = suffix_product(grids, j + 1);
    let rj = radix(grids[j].1@);
    lemma_suffix_product_positive(grids, j + 1);
    lemma_compose_bounds(grids, d, j + 1);
    if k == j {
        let c = compose(grids, d, j + 1);
        vstd::arithmetic::div_mod::lemma_fundamental_div_mod_converse(
            d[j] * sj + c,
            sj,
            d[j],
            c,
        );
        vstd::arithmetic::div_mod::lemma_small_mod(d[j] as nat, rj as nat);
    } else {
        lemma_compose_digit(grids, d, k + 1, j);
        let c = compose(grids, d, k + 1);
        lemma_compose_bounds(grids, d, k + 1);
        lemma_range_product(grids, k + 1, j);
        let q = range_product(grids, k + 1, j);
        // the axes k+1..=j sit above the digit j: their product is q * rj
        assert(suffix_product(grids, j) == rj * sj);
        let m = d[k] * q;
        assert(d[k] * suffix_product(grids, k + 1) == (m * rj) * sj) by (nonlinear_arith)
            requires
                suffix_product(grids, k + 1) == q * suffix_product(grids, j),
                suffix_product(grids, j) == rj * sj,
                m == d[k] * q,
        ;
        let cq = c / sj;
        let cr = c % sj;
        vstd::arithmetic::div_mod::lemma_fundamental_div_mod(c, sj);
        assert(c == sj * cq + cr);
        assert(compose(grids, d, k) == (m * rj + cq) * sj + cr) by (nonlinear_arith)
            requires
                compose(grids, d, k) == (m * rj) * sj + c,
                c == sj * cq + cr,
        ;
        vstd::arithmetic::div_mod::lemma_mod_pos_bound(c, sj);
        vstd::arithmetic::div_mod::lemma_fundamental_div_mod_converse(
            compose(grids, d, k),
            sj,
            m * rj + cq,
            cr,
        );
        vstd::arithmetic::div_mod::lemma_mod_multiples_vanish(m, cq, rj);
        assert(rj * m + cq == m * rj + cq) by (nonlinear_arith);
    }
}

/// Running `grid_size` trials covers the whole grid exactly once (part one):
/// two of the first `grid_size` trials that read the same index on every
/// axis are the same trial.
pub proof fn law_grid_points_distinct(grids: Seq<(String, Vec<Value>)>, n1: int, n2: int)
    requires
        0 <= n1 < suffix_product(grids, 0),
        0 <= n2 < suffix_product(grids, 0),
        forall|k: int|
            0 <= k < grids.len() ==> #[trigger] axis_index(grids, n1, k) == axis_index(
                grids,
                n2,
                k,
            ),
    ensures
        n1 == n2,
{
    let total = suffix_product(grids, 0);
    vstd::arithmetic::div_mod::lemma_small_mod(n1 as nat, total as nat);
    vstd::arithmetic::div_mod::lemma_small_mod(n2 as nat, total as nat);
    assert forall|j: int| 0 <= j < grids.len() implies n1 / suffix_product(grids, j + 1) % radix(
        grids[j].1@,
    ) == n2 / suffix_product(grids, j + 1) % radix(grids[j].1@) by {
        assert(axis_index(grids, n1, j) == axis_index(grids, n2, j));
    }
    lemma_same_digits_same_rest(grids, n1, n2, 0);
}

/// Running `grid_size` trials covers the whole grid exactly once (part two):
/// every choice `d` of one index per axis is read by one of the first
/// `grid_size` trials, the one returned.
pub proof fn law_grid_point_reached(grids: Seq<(String, Vec<Value>)>, d: Seq<int>) -> (n: int)
    requires
        d.len() == grids.len(),
        forall|k: int| 0 <= k < grids.len() ==> 0 <= #[trigger] d[k] < radix(grids[k].1@),
    ensures
        0 <= n < suffix_product(grids, 0),
        forall|k: int| 0 <= k < grids.len() ==> #[trigger] axis_index(grids, n, k) == d[k],
{
    let total = suffix_product(grids, 0);
    let n = compose(grids, d, 0);
    lemma_compose_bounds(grids, d, 0);
    vstd::arithmetic::div_mod::lemma_small_mod(n as nat, total as nat);
    assert forall|k: int| 0 <= k < grids.len() implies #[trigger] axis_index(grids, n, k) == d[k] by {
        lemma_compose_digit(grids, d, 0, k);
    }
    n
}

/// Every axis has its own name and at least one value.
pub open spec fn distinct_nonempty_axes(grids: Seq<(String, Vec<Value>)>) -> bool {
    &&& forall|a: int, b: int| 0 <= a < b < grids.len() ==> grids[a].0@ != grids[b].0@
    &&& forall|k: int| 0 <= k < grids.len() ==> #[trigger] grids[k].1@.len() > 0
}

/// With distinct, non-empty axes, parameter `k`'s name reads digit `k`.
proof fn lemma_axis_reads_digit(g: GridSampler, n: usize, k: int)
    requires
        distinct_nonempty_axes(g.grids_spec()),
        0 <= k < g.grids_spec().len(),
    ensures
        g.index_spec(g.grids_spec()[k].0@, n) == Some(axis_index(g.grids_spec(), n as int, k)),
{
    let grids = g.grids_spec();
    assert(first_axis(grids, grids[k].0@, k));
    law_grid_index_is_axis_digit(g, grids[k].0@, n, k);
}

/// Running `grid_size` trials covers the grid exactly once, by name (part
/// one): when the axes have distinct names and are not empty, two of the first
/// `grid_size` trials that read the same grid index for every registered
/// parameter are the same trial.
pub proof fn law_grid_trials_read_distinct_points(g: GridSampler, n1: usize, n2: usize)
    requires
        distinct_nonempty_axes(g.grids_spec()),
        n1 < g.grid_size_spec(),
        n2 < g.grid_size_spec(),
        forall|k: int|
            0 <= k < g.grids_spec().len() ==> g.index_spec(#[trigger] g.grids_spec()[k].0@, n1)
                == g.index_spec(g.grids_spec()[k].0@, n2),
    ensures
        n1 == n2,
{
    let grids = g.grids_spec();
    assert forall|k: int| 0 <= k < grids.len() implies #[trigger] axis_index(grids, n1 as int, k)
        == axis_index(grids, n2 as int, k) by {
        lemma_axis_reads_digit(g, n1, k);
        lemma_axis_reads_digit(g, n2, k);
        assert(g.index_spec(grids[k].0@, n1) == g.index_spec(grids[k].0@, n2));
    }
    law_grid_points_distinct(grids, n1 as int, n2 as int);
}

/// Running `grid_size` trials covers the grid exactly once, by name (part
/// two): for every choice `d` of one value index per registered parameter,
/// the returned trial among the first `grid_size` reads exactly those
/// indices; and the last registered parameter varies fastest.
pub proof fn law_grid_trials_reach_every_point(g: GridSampler, d: Seq<int>) -> (n: usize)
    requires
        distinct_nonempty_axes(g.grids_spec()),
        g.grid_size_spec() <= usize::MAX,
        d.len() == g.grids_spec().len(),
        forall|k: int| 0 <= k < d.len() ==> 0 <= #[trigger] d[k] < g.grids_spec()[k].1@.len(),
    ensures
        n < g.grid_size_spec(),
        forall|k: int|
            0 <= k < d.len() ==> g.index_spec(#[trigger] g.grids_spec()[k].0@, n) == Some(d[k]),
{
    let grids = g.grids_spec();
    assert forall|k: int| 0 <= k < grids.len() implies 0 <= #[trigger] d[k] < radix(grids[k].1@) by {
        assert(grids[k].1@.len() > 0);
    }
    let m = law_grid_point_reached(grids, d);
    let n = m as usize;
    assert forall|k: int| 0 <= k < d.len() implies g.index_spec(#[trigger] grids[k].0@, n) == Some(
        d[k],
    ) by {
        lemma_axis_reads_digit(g, n, k);
    }
    n
}

/// The last registered parameter varies fastest: trial `n` reads index
/// `(n % grid_size) % len` of it.
pub proof fn law_grid_last_axis_fastest(g: GridSampler, n: usize)
    requires
        distinct_nonempty_axes(g.grids_spec()),
        g.grids_spec().len() > 0,
    ensures
        g.index_spec(g.grids_spec().last().0@, n) == Some(
            (n as int % g.grid_size_spec()) % (g.grids_spec().last().1@.len() as int),
        ),
{
    let grids = g.grids_spec();
    let k = grids.len() - 1;
    lemma_axis_reads_digit(g, n, k);
    assert(suffix_product(grids, k + 1) == 1);
    assert(grids[k].1@.len() > 0);
    lemma_suffix_product_positive(grids, 0);
    let t = n as int % g.grid_size_spec();
    assert(t / 1 == t);
}

// ---------------------------------------------------------------------------
// What the pruners and samplers look at

/// Successive halving counts, among the peers at a rung, those strictly
/// better than the trial under the study direction: under `Minimize` the
/// peers with a smaller value, under `Maximize` those with a greater one.
pub proof fn law_count_better_follows_direction(
    values: Seq<FloatBits>,
    direction: Direction,
    value: FloatBits,
)
    ensures
        count_better(values, direction, value) == values.filter(
            |x: FloatBits|
                match direction {
                    Direction::Minimize => lt_spec(x, value),
                    Direction::Maximize => lt_spec(value, x),
                },
        ).len(),
    decreases values.len(),
{
    reveal_with_fuel(Seq::<FloatBits>::filter, 1);
    if values.len() > 0 {
        law_count_better_follows_direction(values.drop_last(), direction, value);
    }
}

/// The values the median pruner compares against at `step` are the reports
/// at `step` of the trials that finished (completed or pruned), in trial
/// order: a running or failed trial's report is never among them.
pub proof fn law_values_at_come_from_finished_trials(trials: Seq<Trial>, step: usize)
    ensures
        values_at_spec(trials, step) == trials.filter(
            |t: Trial|
                (t.state == TrialState::Complete || t.state == TrialState::Pruned) && report_at(
                    t.intermediate_values@,
                    step,
                ) is Some,
        ).map_values(|t: Trial| report_at(t.intermediate_values@, step).unwrap()),
    decreases trials.len(),
{
    reveal_with_fuel(Seq::<Trial>::filter, 1);
    if trials.len() > 0 {
        law_values_at_come_from_finished_trials(trials.drop_last(), step);
        let pred = |t: Trial|
            (t.state == TrialState::Complete || t.state == TrialState::Pruned) && report_at(
                t.intermediate_values@,
                step,
            ) is Some;
        let f = |t: Trial| report_at(t.intermediate_values@, step).unwrap();
        let prev = trials.drop_last().filter(pred);
        if pred(trials.last()) {
            assert(prev.push(trials.last()).map_values(f) =~= prev.map_values(f).push(
                f(trials.last()),
            ));
        }
    }
}

/// Only completed trials decide the numeric search space: the numeric
/// records it is built from are those of the completed trials, whatever the
/// other trials recorded.
pub proof fn law_numeric_records_only_from_completed(trials: Seq<Trial>)
    ensures
        numeric_records(trials) == numeric_records(trials.filter(|t: Trial| is_completed(t))),
    decreases trials.len(),
{
    reveal_with_fuel(Seq::<Trial>::filter, 1);
    if trials.len() > 0 {
        law_numeric_records_only_from_completed(trials.drop_last());
        let kept = trials.drop_last().filter(|t: Trial| is_completed(t));
        if is_completed(trials.last()) {
            assert(kept.push(trials.last()).drop_last() =~= kept);
        }
    }
}

proof fn lemma_count_named_add(a: Seq<ParamRecord>, b: Seq<ParamRecord>, name: Seq<char>)
    ensures
        count_named(a + b, name) == count_named(a, name) + count_named(b, name),
    decreases b.len(),
{
    if b.len() > 0 {
        lemma_count_named_add(a, b.drop_last(), name);
        assert((a + b).drop_last() =~= a + b.drop_last());
    } else {
        assert(a + b =~= a);
    }
}

/// A name every completed trial records numerically exactly once belongs to
/// the numeric search space, whatever the other trials recorded.
pub proof fn law_shared_numeric_name_is_in_space(trials: Seq<Trial>, name: Seq<char>)
    requires
        completed_count(trials) > 0,
        forall|i: int|
            0 <= i < trials.len() && is_completed(trials[i]) ==> count_named(
                numeric_of(#[trigger] trials[i].params@),
                name,
            ) == 1,
    ensures
        in_space(trials, name),
{
    lemma_count_matches_completed(trials, name);
    lemma_count_named_bound(numeric_records(trials), name);
}

proof fn lemma_count_matches_completed(trials: Seq<Trial>, name: Seq<char>)
    requires
        forall|i: int|
            0 <= i < trials.len() && is_completed(trials[i]) ==> count_named(
                numeric_of(#[trigger] trials[i].params@),
                name,
            ) == 1,
    ensures
        count_named(numeric_records(trials), name) == completed_count(trials),
    decreases trials.len(),
{
    if trials.len() > 0 {
        let init = trials.drop_last();
        assert forall|i: int|
            0 <= i < init.len() && is_completed(init[i]) implies count_named(
            numeric_of(#[trigger] init[i].params@),
            name,
        ) == 1 by {
            assert(init[i] == trials[i]);
        }
        lemma_count_matches_completed(init, name);
        if is_completed(trials.last()) {
            lemma_count_named_add(numeric_records(init), numeric_of(trials.last().params@), name);
            assert(trials[trials.len() - 1] == trials.last());
        }
    }
}

/// Only completed trials give the parameter list of the importance
/// analyses: a name is listed exactly when some completed trial recorded it.
pub proof fn law_param_space_only_from_completed(trials: Seq<Trial>, name: Seq<char>)
    ensures
        completed_records(trials) == completed_records(trials.filter(|t: Trial| is_completed(t))),
        has_param(completed_records(trials), name) <==> exists|i: int|
            0 <= i < trials.len() && is_completed(trials[i]) && has_param(
                #[trigger] trials[i].params@,
                name,
            ),
    decreases trials.len(),
{
    reveal_with_fuel(Seq::<Trial>::filter, 1);
    if trials.len() > 0 {
        let init = trials.drop_last();
        law_param_space_only_from_completed(init, name);
        let kept = init.filter(|t: Trial| is_completed(t));
        let last = trials.len() - 1;
        if is_completed(trials.last()) {
            assert(kept.push(trials.last()).drop_last() =~= kept);
        }
        let recs = completed_records(trials);
        if has_param(recs, name) {
            let m = choose|m: int| 0 <= m < recs.len() && #[trigger] recs[m].name@ == name;
            if m < completed_records(init).len() {
                assert(recs[m] == completed_records(init)[m]);
                assert(has_param(completed_records(init), name));
                let i = choose|i: int|
                    0 <= i < init.len() && is_completed(init[i]) && has_param(
                        #[trigger] init[i].params@,
                        name,
                    );
                assert(trials[i] == init[i]);
            } else {
                let k = m - completed_records(init).len();
                assert(trials.last().params@[k].name@ == name);
                assert(trials[last] == trials.last());
            }
        }
        if exists|i: int|
            0 <= i < trials.len() && is_completed(trials[i]) && has_param(
                #[trigger] trials[i].params@,
                name,
            ) {
            let i = choose|i: int|
                0 <= i < trials.len() && is_completed(trials[i]) && has_param(
                    #[trigger] trials[i].params@,
                    name,
                );
            if i < last {
                assert(init[i] == trials[i]);
                let m = choose|m: int|
                    0 <= m < completed_records(init).len() && #[trigger] completed_records(
                        init,
                    )[m].name@ == name;
                assert(recs[m] == completed_records(init)[m]);
            } else {
                let k = choose|k: int|
                    0 <= k < trials[i].params@.len() && #[trigger] trials[i].params@[k].name@
                        == name;
                assert(recs[completed_records(init).len() + k] == trials.last().params@[k]);
            }
        }
    }
}

/// A uniform range asks for a continuous draw exactly when it is non-empty
/// (`low < high`, wherever it lies on the line); a log-uniform range exactly
/// when it is non-empty and positive.
pub proof fn law_draws_continuous_exactly_on_nonempty_ranges(low: FloatBits, high: FloatBits)
    ensures
        draws_continuous(Distribution::Uniform { low, high }) <==> lt_spec(low, high),
        draws_continuous(Distribution::LogUniform { low, high }) <==> (lt_spec(zero(), low)
            && lt_spec(low, high)),
{
}

} // verus!
