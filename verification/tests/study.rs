//! Studies, trial contexts, study snapshots, the grid sampler and the
//! optimization history, driven without any sampler of floating-point values.

use hyperopt_rs::context::TrialContext;
use hyperopt_rs::error::{adopt_direction, ObjectiveError, StudyMetadata};
use hyperopt_rs::float::FloatBits;
use hyperopt_rs::grid::GridSampler;
use hyperopt_rs::history::best_so_far;
use hyperopt_rs::protocol::Outcome;
use hyperopt_rs::sampling::sample_value;
use hyperopt_rs::storage::InMemoryStorage;
use hyperopt_rs::study::{finish_trial, Study};
use hyperopt_rs::study_state::StudyState;
use hyperopt_rs::trial::{Trial, TrialState};
use hyperopt_rs::tuning::{BoundHandling, FanovaOptions};
use hyperopt_rs::value::{copy_value, Direction, Distribution, Value};
use hyperopt_rs::worker::trial_outcome;
use rand::rngs::StdRng;
use rand::{RngExt, SeedableRng};

fn fb(x: f64) -> FloatBits {
    FloatBits::from_bits(x.to_bits())
}

fn f(x: FloatBits) -> f64 {
    f64::from_bits(x.to_bits())
}

/// Completed trials whose objective depends only on `x`: value = (x - 2)^2.
fn synthetic_trials(n: usize) -> Vec<Trial> {
    let mut rng = StdRng::seed_from_u64(42);
    (0..n)
        .map(|i| {
            let x: f64 = rng.random_range(-5.0..5.0);
            let noise: f64 = rng.random_range(-5.0..5.0);
            let value = (x - 2.0).powi(2);
            let mut t = Trial::new(i);
            t.record("x", Distribution::Uniform { low: fb(-5.0), high: fb(5.0) }, Value::Float(fb(x)));
            t.record("noise", Distribution::Uniform { low: fb(-5.0), high: fb(5.0) }, Value::Float(fb(noise)));
            t.value = Some(fb(value));
            t.state = TrialState::Complete;
            t
        })
        .collect()
}

#[test]
fn best_so_far_is_monotonic_under_minimize() {
    let trials = synthetic_trials(60);
    let series = best_so_far(&trials, Direction::Minimize);
    assert_eq!(series.len(), 60);
    for w in series.windows(2) {
        assert!(f(w[1].1) <= f(w[0].1), "best-so-far must be non-increasing under Minimize");
    }
}

#[test]
fn best_so_far_orders_by_number_and_skips_unfinished() {
    let mut a = Trial::new(5);
    a.state = TrialState::Complete;
    a.value = Some(fb(3.0));
    let mut b = Trial::new(1);
    b.state = TrialState::Complete;
    b.value = Some(fb(4.0));
    let mut c = Trial::new(3);
    c.state = TrialState::Failed;
    c.value = Some(fb(0.0));
    let mut d = Trial::new(2);
    d.state = TrialState::Complete;
    d.value = Some(fb(1.0));
    let series = best_so_far(&[a.clone(), b.clone(), c, d.clone()], Direction::Minimize);
    assert_eq!(series, vec![(1, fb(4.0)), (2, fb(1.0)), (5, fb(1.0))]);
    let series = best_so_far(&[a, b, d], Direction::Maximize);
    assert_eq!(series, vec![(1, fb(4.0)), (2, fb(4.0)), (5, fb(4.0))]);
}

#[test]
fn grid_sampler_enumerates_the_whole_grid_once() {
    let grid = GridSampler::new().add_int_grid("a", &[1, 2, 3]).add_categorical_grid("b", &["p", "q"]);
    let size = grid.grid_size();
    assert_eq!(size, 6);

    let mut combos: Vec<(i64, String)> = (0..size)
        .map(|n| {
            let a = grid.suggest(n, "a").unwrap();
            let b = grid.suggest(n, "b").unwrap();
            (a.as_int().unwrap(), b.as_categorical().unwrap().to_string())
        })
        .collect();
    combos.sort();
    combos.dedup();
    assert_eq!(combos.len(), 6, "grid should cover all 6 unique combinations");
}

#[test]
fn grid_is_a_mixed_radix_odometer() {
    let grid = GridSampler::new()
        .add_float_grid("x", &[fb(0.5), fb(1.5)])
        .add_int_grid("k", &[10, 20, 30]);
    assert_eq!(grid.grid_size(), 6);
    // The last axis turns fastest.
    let ks: Vec<i64> = (0..6).map(|n| grid.suggest(n, "k").unwrap().as_int().unwrap()).collect();
    assert_eq!(ks, vec![10, 20, 30, 10, 20, 30]);
    let xs: Vec<FloatBits> = (0..6).map(|n| grid.suggest(n, "x").unwrap().as_float().unwrap()).collect();
    assert_eq!(xs, vec![fb(0.5), fb(0.5), fb(0.5), fb(1.5), fb(1.5), fb(1.5)]);
    // Trials past the end wrap around.
    assert_eq!(grid.suggest(7, "k"), grid.suggest(1, "k"));
    // Unregistered parameters have no grid value.
    assert_eq!(grid.suggest(0, "missing"), None);
    assert_eq!(GridSampler::new().grid_size(), 1);
    let empty_axis = GridSampler::new().add_grid("e", vec![]);
    assert_eq!(empty_axis.grid_size(), 1);
    assert_eq!(empty_axis.suggest(0, "e"), None);
}

#[test]
fn failed_trials_do_not_abort_the_study() {
    let mut storage = InMemoryStorage::new();
    let (study, meta) = Study::new("robust", Direction::Minimize, &None);
    storage.save_study_metadata(meta.unwrap()).unwrap();

    for _ in 0..30 {
        let existing = storage.load_trials("robust").unwrap().to_vec();
        let (_state, mut ctx) = study.begin_trial(existing);
        let number = ctx.number();
        let x = ctx.suggest("x", Distribution::IntUniform { low: 0, high: 10 }, Value::Int((number % 10) as i64));
        // Every third trial fails, as a panicking objective would.
        let result = if number % 3 == 0 { None } else { Some(Ok(fb(x.as_int().unwrap() as f64))) };
        let trial = finish_trial(ctx.into_trial(), trial_outcome(&result));
        storage.save_trial("robust", trial).unwrap();
    }

    let trials = storage.load_trials("robust").unwrap();
    assert_eq!(trials.len(), 30);
    let failed = trials.iter().filter(|t| t.state == TrialState::Failed).count();
    let complete = trials.iter().filter(|t| t.state == TrialState::Complete).count();
    assert_eq!(failed, 10, "every third trial should have failed");
    assert_eq!(complete, 20);
    let state = StudyState::new(study.direction(), trials.to_vec());
    assert!(state.best_trial().is_some());
    // Trial 10 is the first to complete with x = 0.
    assert_eq!(study.best_value(trials.to_vec()), Some(fb(0.0)));
}

#[test]
fn resumed_study_keeps_its_direction() {
    let meta = Some(StudyMetadata { study_name: "s".into(), direction: Direction::Maximize });
    let (study, to_save) = Study::new("s", Direction::Minimize, &meta);
    assert_eq!(study.direction(), Direction::Maximize);
    assert_eq!(study.name(), "s");
    assert!(to_save.is_none());
    assert_eq!(adopt_direction(&None, Direction::Minimize), (Direction::Minimize, true));
}

#[test]
fn finish_trial_sets_state_and_value() {
    let mut t = Trial::new(2);
    t.report(1, fb(0.5));
    let done = finish_trial(t.clone(), Outcome::Complete(fb(0.25)));
    assert_eq!(done.state, TrialState::Complete);
    assert_eq!(done.value, Some(fb(0.25)));
    assert_eq!(done.intermediate_values, t.intermediate_values);
    assert_eq!(finish_trial(t.clone(), Outcome::Pruned).state, TrialState::Pruned);
    assert_eq!(finish_trial(t, Outcome::Failed).value, None);
    assert_eq!(trial_outcome(&Some(Err(ObjectiveError::pruned()))), Outcome::Pruned);
}

#[test]
fn context_records_what_the_sampler_answered() {
    let mut ctx = TrialContext::new(4);
    assert_eq!(ctx.number(), 4);
    assert_eq!(ctx.suggest_int("n", 1, 9, Value::Float(fb(-2.5))), -3);
    assert_eq!(ctx.suggest_categorical("opt", &["adam", "sgd"], Value::Int(1)), "sgd");
    // Suggesting the same name again overwrites the record in place.
    assert_eq!(ctx.suggest_int("n", 1, 9, Value::Int(7)), 7);
    ctx.report(3, fb(0.9));
    ctx.report(3, fb(0.7));
    let t = ctx.into_trial();
    assert_eq!(t.params.len(), 2);
    assert_eq!(t.param_value("n"), Some(&Value::Int(7)));
    assert_eq!(t.param_value("opt"), Some(&Value::Int(1)));
    assert_eq!(
        t.params[1].distribution,
        Distribution::Categorical { choices: vec!["adam".to_string(), "sgd".to_string()] }
    );
    assert_eq!(t.intermediate_values, vec![(3, fb(0.7))]);
    assert_eq!(t.value_at_step(3), Some(fb(0.7)));
}

#[test]
fn trial_reads_reports_by_step() {
    let mut t = Trial::new(0);
    t.report(4, fb(1.0));
    t.report(2, fb(2.0));
    t.report(7, fb(3.0));
    assert_eq!(t.value_at_step(2), Some(fb(2.0)));
    assert_eq!(t.value_at_step(3), None);
    assert_eq!(t.value_at_or_after(3), Some(fb(1.0)));
    assert_eq!(t.value_at_or_after(5), Some(fb(3.0)));
    assert_eq!(t.value_at_or_after(8), None);
    assert_eq!(t.last_intermediate(), Some((7, fb(3.0))));
}

#[test]
fn study_state_views() {
    let mut a = Trial::new(0);
    a.state = TrialState::Complete;
    a.value = Some(fb(2.0));
    a.report(1, fb(5.0));
    let mut b = Trial::new(1);
    b.state = TrialState::Pruned;
    b.report(1, fb(6.0));
    let mut c = Trial::new(2);
    c.state = TrialState::Complete;
    c.value = Some(fb(1.0));
    let mut d = Trial::new(3);
    d.report(2, fb(7.0));
    let state = StudyState::new(Direction::Minimize, vec![a, b, c, d]);
    assert_eq!(state.n_completed(), 2);
    assert_eq!(state.completed_trials().len(), 2);
    assert_eq!(state.intermediate_values_at(1), vec![fb(5.0), fb(6.0)]);
    assert_eq!(state.values_at_or_after(2), vec![fb(7.0)]);
    assert_eq!(state.best_trial().unwrap().number, 2);
    let max = StudyState::new(Direction::Maximize, state.trials().to_vec());
    assert_eq!(max.best_trial().unwrap().number, 0);
}

#[test]
fn distributions_contain_their_values() {
    let u = Distribution::Uniform { low: fb(0.0), high: fb(1.0) };
    assert!(u.contains(&Value::Float(fb(0.5))));
    assert!(!u.contains(&Value::Float(fb(1.5))));
    assert!(!u.contains(&Value::Int(0)));
    let c = Distribution::Categorical { choices: vec!["a".into()] };
    assert!(c.contains(&Value::Categorical("a".into())));
    assert!(!c.contains(&Value::Categorical("b".into())));
    assert_eq!(copy_value(&Value::Categorical("z".into())), Value::Categorical("z".into()));
    assert!(Direction::Maximize.is_better(fb(2.0), fb(1.0)));
}

#[test]
fn sample_value_draws_inside_the_distribution() {
    let mut rng = StdRng::seed_from_u64(7);
    let mut ints = Vec::new();
    let mut labels = Vec::new();
    for _ in 0..200 {
        match sample_value(&mut rng, &Distribution::IntUniform { low: -3, high: 4 }) {
            Some(Value::Int(x)) => {
                assert!((-3..=4).contains(&x));
                ints.push(x);
            }
            other => panic!("expected an integer, got {other:?}"),
        }
        let choices = Distribution::Categorical { choices: vec!["a".into(), "b".into()] };
        match sample_value(&mut rng, &choices) {
            Some(v) => {
                assert!(choices.contains(&v));
                labels.push(v);
            }
            None => panic!("expected a label"),
        }
    }
    // The draws spread over the range rather than sitting at one end.
    ints.sort_unstable();
    ints.dedup();
    assert_eq!(ints, vec![-3, -2, -1, 0, 1, 2, 3, 4]);
    assert!(labels.contains(&Value::Categorical("a".into())));
    assert!(labels.contains(&Value::Categorical("b".into())));
    // Empty ranges give their low end; continuous draws are owed to the caller.
    assert_eq!(sample_value(&mut rng, &Distribution::IntUniform { low: 5, high: 1 }), Some(Value::Int(5)));
    assert_eq!(
        sample_value(&mut rng, &Distribution::Uniform { low: fb(2.0), high: fb(2.0) }),
        Some(Value::Float(fb(2.0)))
    );
    assert_eq!(sample_value(&mut rng, &Distribution::Uniform { low: fb(0.0), high: fb(1.0) }), None);
    assert_eq!(
        sample_value(&mut rng, &Distribution::LogUniform { low: fb(0.0), high: fb(1.0) }),
        Some(Value::Float(fb(0.0)))
    );
    assert_eq!(sample_value(&mut rng, &Distribution::LogUniform { low: fb(0.1), high: fb(1.0) }), None);
    assert_eq!(
        sample_value(&mut rng, &Distribution::Categorical { choices: vec![] }),
        Some(Value::Categorical(String::new()))
    );
}

#[test]
fn tunable_defaults() {
    let o = FanovaOptions::default();
    assert_eq!(o.n_trees, 64);
    assert_eq!(o.max_features, None);
    assert_eq!(o.min_samples_split, 2);
    assert_eq!(o.max_depth, 64);
    assert_eq!(o.seed, 0);
    assert_ne!(BoundHandling::Reflect, BoundHandling::Clamp);
}

#[test]
fn context_reports_keep_state_and_value() {
    let mut ctx = TrialContext::new(1);
    ctx.report(0, fb(1.0));
    let _ = ctx.suggest_int("k", 0, 3, Value::Int(2));
    let t = ctx.into_trial();
    assert_eq!(t.state, TrialState::Running);
    assert_eq!(t.value, None);
}

#[test]
fn grid_last_axis_varies_fastest() {
    let grid = GridSampler::new().add_int_grid("a", &[1, 2]).add_int_grid("b", &[7, 8, 9]);
    let bs: Vec<i64> = (0..4).map(|n| grid.suggest(n, "b").unwrap().as_int().unwrap()).collect();
    assert_eq!(bs, vec![7, 8, 9, 7]);
}
