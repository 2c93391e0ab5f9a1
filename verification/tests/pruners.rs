//! Pruning decisions on hand-built study states, so that the behaviour is
//! deterministic and not sampler-dependent.

use hyperopt_rs::float::FloatBits;
use hyperopt_rs::pruners::{is_worse, median, Median, MedianPruner, NopPruner, SuccessiveHalvingPruner};
use hyperopt_rs::study_state::StudyState;
use hyperopt_rs::trial::{Trial, TrialState};
use hyperopt_rs::value::Direction;

fn fb(x: f64) -> FloatBits {
    FloatBits::from_bits(x.to_bits())
}

fn mean(a: FloatBits, b: FloatBits) -> FloatBits {
    fb((f64::from_bits(a.to_bits()) + f64::from_bits(b.to_bits())) / 2.0)
}

/// A completed trial that reported `value` at `step`.
fn completed_at(number: usize, step: usize, value: f64) -> Trial {
    let mut t = Trial::new(number);
    t.intermediate_values.push((step, fb(value)));
    t.value = Some(fb(value));
    t.state = TrialState::Complete;
    t
}

/// A running trial that has just reported `value` at `step`.
fn running_at(step: usize, value: f64) -> Trial {
    let mut t = Trial::new(100);
    t.intermediate_values.push((step, fb(value)));
    t.state = TrialState::Running;
    t
}

fn history() -> Vec<Trial> {
    // Six completed trials, each reporting at step 5. Median at step 5 ~ 0.35.
    vec![
        completed_at(0, 5, 0.10),
        completed_at(1, 5, 0.20),
        completed_at(2, 5, 0.30),
        completed_at(3, 5, 0.40),
        completed_at(4, 5, 0.50),
        completed_at(5, 5, 0.60),
    ]
}

#[test]
fn median_pruner_prunes_bad_trajectory_keeps_good() {
    let state = StudyState::new(Direction::Minimize, history());
    let pruner = MedianPruner::new(); // n_startup_trials = 5

    let bad = running_at(5, 5.0); // far worse than the median
    let good = running_at(5, 0.05); // better than everyone

    assert!(pruner.should_prune(&state, &bad, mean), "bad trajectory should prune");
    assert!(!pruner.should_prune(&state, &good, mean), "good trajectory should not prune");
}

#[test]
fn median_pruner_respects_startup_and_warmup_gates() {
    // Too few completed trials => never prune, even a terrible one.
    let few = StudyState::new(Direction::Minimize, vec![completed_at(0, 5, 0.1)]);
    let bad = running_at(5, 9.0);
    assert!(!MedianPruner::new().should_prune(&few, &bad, mean));

    // Warmup: a high warmup-steps gate suppresses pruning at an early step.
    let state = StudyState::new(Direction::Minimize, history());
    let warmed = MedianPruner::new().n_warmup_steps(10);
    assert!(!warmed.should_prune(&state, &running_at(5, 5.0), mean));
}

#[test]
fn median_pruner_honours_direction() {
    // Under Maximize, a *low* value is the bad one.
    let state = StudyState::new(Direction::Maximize, history());
    let pruner = MedianPruner::new();
    assert!(pruner.should_prune(&state, &running_at(5, -1.0), mean));
    assert!(!pruner.should_prune(&state, &running_at(5, 9.0), mean));
}

#[test]
fn nop_pruner_never_prunes() {
    let state = StudyState::new(Direction::Minimize, history());
    let awful = running_at(5, 1e9);
    assert!(!NopPruner::new().should_prune(&state, &awful));
}

#[test]
fn successive_halving_promotes_top_fraction() {
    // Four peers reach rung resource 4 (min_resource=1, eta=2 => rungs 1,2,4).
    let peers = vec![
        completed_at(0, 4, 0.10),
        completed_at(1, 4, 0.20),
        completed_at(2, 4, 0.30),
        completed_at(3, 4, 0.40),
    ];
    let state = StudyState::new(Direction::Minimize, peers);
    let pruner = SuccessiveHalvingPruner::new().min_resource(1).reduction_factor(2);

    // Bottom of the pack at the rung => pruned.
    assert!(pruner.should_prune(&state, &running_at(4, 5.0)));
    // Best at the rung => promoted (kept).
    assert!(!pruner.should_prune(&state, &running_at(4, 0.05)));
    // Below the first rung => never pruned yet.
    assert!(!pruner.should_prune(&state, &running_at(0, 5.0)));
}

#[test]
fn median_of_odd_and_even_counts() {
    let odd = [fb(3.0), fb(1.0), fb(2.0)];
    assert_eq!(median(&odd), Some(Median::Middle(fb(2.0))));
    let even = [fb(4.0), fb(1.0), fb(3.0), fb(2.0)];
    assert_eq!(median(&even), Some(Median::Between(fb(2.0), fb(3.0))));
    assert_eq!(median(&[]), None);
}

#[test]
fn median_ignores_non_finite_values() {
    let values = [fb(f64::NAN), fb(5.0), fb(f64::INFINITY), fb(1.0), fb(f64::NEG_INFINITY)];
    assert_eq!(median(&values), Some(Median::Between(fb(1.0), fb(5.0))));
    assert_eq!(median(&[fb(f64::NAN)]), None);
}

#[test]
fn median_pruner_compares_against_the_mean_of_two_middles() {
    // Four completed trials at step 2: middles 0.2 and 0.3, median 0.25.
    let trials = vec![
        completed_at(0, 2, 0.1),
        completed_at(1, 2, 0.2),
        completed_at(2, 2, 0.3),
        completed_at(3, 2, 0.4),
    ];
    let state = StudyState::new(Direction::Minimize, trials);
    let pruner = MedianPruner::new().n_startup_trials(4);
    assert!(pruner.should_prune(&state, &running_at(2, 0.26), mean));
    assert!(!pruner.should_prune(&state, &running_at(2, 0.24), mean));
    // Equal to the median is not strictly worse.
    assert!(!pruner.should_prune(&state, &running_at(2, 0.25), mean));
}

#[test]
fn median_pruner_min_trials_at_step_gate() {
    let state = StudyState::new(Direction::Minimize, history());
    let pruner = MedianPruner::new().min_trials_at_step(7);
    assert!(!pruner.should_prune(&state, &running_at(5, 5.0), mean));
    // No trial reported at step 6: nothing to compare against.
    assert!(!MedianPruner::new().should_prune(&state, &running_at(6, 5.0), mean));
}

#[test]
fn is_worse_follows_direction() {
    assert!(is_worse(Direction::Minimize, fb(2.0), fb(1.0)));
    assert!(!is_worse(Direction::Minimize, fb(1.0), fb(2.0)));
    assert!(is_worse(Direction::Maximize, fb(1.0), fb(2.0)));
    assert!(!is_worse(Direction::Maximize, fb(1.0), fb(1.0)));
    assert!(!is_worse(Direction::Minimize, fb(f64::NAN), fb(1.0)));
}

#[test]
fn successive_halving_waits_for_enough_peers() {
    // One peer at rung 4 with eta 2: the rung holds two trials, enough.
    let state = StudyState::new(Direction::Minimize, vec![completed_at(0, 4, 0.1)]);
    let pruner = SuccessiveHalvingPruner::new().min_resource(1).reduction_factor(2);
    assert!(pruner.should_prune(&state, &running_at(4, 0.2)));
    // With eta 4 the same rung is too thin to judge.
    let thin = SuccessiveHalvingPruner::new().min_resource(1).reduction_factor(4);
    assert!(!thin.should_prune(&state, &running_at(4, 0.2)));
}

#[test]
fn successive_halving_setters_clamp() {
    let p = SuccessiveHalvingPruner::new().min_resource(0).reduction_factor(1);
    // min_resource 0 acts as 1, eta 1 acts as 2: rungs 1, 2, 4.
    let state = StudyState::new(
        Direction::Minimize,
        vec![completed_at(0, 1, 0.1), completed_at(1, 1, 0.2), completed_at(2, 1, 0.3)],
    );
    assert!(p.should_prune(&state, &running_at(1, 0.9)));
    assert!(!p.should_prune(&state, &running_at(1, 0.0)));
}

#[test]
fn pruner_defaults_and_clones() {
    let state = StudyState::new(Direction::Minimize, history());
    let d = MedianPruner::default();
    assert!(d.should_prune(&state, &running_at(5, 5.0), mean));
    let sh = SuccessiveHalvingPruner::default().reduction_factor(2);
    let copy = sh.clone();
    assert_eq!(copy.first_rung(), sh.first_rung());
    assert_eq!(SuccessiveHalvingPruner::default().first_rung(), Some(1));
}
