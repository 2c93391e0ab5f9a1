//! The numeric search space, feature subsets, and the overflow checks that
//! guard the grid and the rung ladder.

use hyperopt_rs::float::FloatBits;
use hyperopt_rs::grid::GridSampler;
use hyperopt_rs::pruners::SuccessiveHalvingPruner;
use hyperopt_rs::sampling::choose_features;
use hyperopt_rs::search_space::{copy_distribution, search_space, str_before, variant_matches};
use hyperopt_rs::study_state::StudyState;
use hyperopt_rs::trial::{Trial, TrialState};
use hyperopt_rs::value::{Direction, Distribution, Value};
use rand::rngs::StdRng;
use rand::SeedableRng;

fn fb(x: f64) -> FloatBits {
    FloatBits::from_bits(x.to_bits())
}

fn completed(number: usize, params: &[(&str, Distribution, Value)]) -> Trial {
    let mut t = Trial::new(number);
    for (name, d, v) in params {
        t.record(name, d.clone(), v.clone());
    }
    t.state = TrialState::Complete;
    t.value = Some(fb(number as f64));
    t
}

#[test]
fn search_space_keeps_numeric_params_of_every_completed_trial() {
    let x1 = Distribution::Uniform { low: fb(0.0), high: fb(1.0) };
    let x2 = Distribution::Uniform { low: fb(0.0), high: fb(9.0) };
    let n = Distribution::IntUniform { low: 1, high: 5 };
    let c = Distribution::Categorical { choices: vec!["a".into(), "b".into()] };
    let trials = vec![
        completed(0, &[
            ("x", x1.clone(), Value::Float(fb(0.5))),
            ("n", n.clone(), Value::Int(2)),
            ("c", c.clone(), Value::Categorical("a".into())),
            ("only_here", x1.clone(), Value::Float(fb(0.1))),
        ]),
        completed(1, &[
            ("n", n.clone(), Value::Int(3)),
            ("x", x2.clone(), Value::Float(fb(4.0))),
            ("c", c.clone(), Value::Categorical("b".into())),
        ]),
        // A running trial does not count.
        Trial::new(2),
    ];
    let state = StudyState::new(Direction::Minimize, trials);
    let space = search_space(&state);
    let names: Vec<&str> = space.iter().map(|(n, _)| n.as_str()).collect();
    assert_eq!(names, vec!["n", "x"]);
    // The distribution first recorded under a name is kept.
    assert_eq!(space[1].1, x1);
    assert_eq!(space[0].1, n);
    assert!(search_space(&StudyState::new(Direction::Minimize, vec![])).is_empty());
}

#[test]
fn names_sort_in_byte_order() {
    assert!(str_before("B", "a"));
    assert!(str_before("a", "ab"));
    assert!(!str_before("ab", "a"));
    assert!(!str_before("a", "a"));
    assert!(str_before("", "a"));
    assert!(str_before("z", "é"));
    let d = Distribution::Categorical { choices: vec!["p".into()] };
    assert_eq!(copy_distribution(&d), d);
    assert!(variant_matches(&Distribution::IntUniform { low: 0, high: 1 }, &Value::Int(0)));
    assert!(!variant_matches(&Distribution::IntUniform { low: 0, high: 1 }, &Value::Float(fb(0.0))));
    assert!(!variant_matches(&d, &Value::Categorical("p".into())));
}

#[test]
fn choose_features_picks_distinct_features() {
    let mut rng = StdRng::seed_from_u64(3);
    assert_eq!(choose_features(5, None, &mut rng), vec![0, 1, 2, 3, 4]);
    assert_eq!(choose_features(3, Some(9), &mut rng), vec![0, 1, 2]);
    let mut seen_other = false;
    for _ in 0..50 {
        let mut picked = choose_features(6, Some(3), &mut rng);
        if picked != vec![0, 1, 2] {
            seen_other = true;
        }
        assert_eq!(picked.len(), 3);
        assert!(picked.iter().all(|&f| f < 6));
        picked.sort_unstable();
        picked.dedup();
        assert_eq!(picked.len(), 3);
    }
    assert!(seen_other, "the subsets are shuffled, not always the first features");
    assert_eq!(choose_features(4, Some(0), &mut rng).len(), 1);
}

#[test]
fn overflowing_ladders_and_grids_are_detected() {
    let mut grid = GridSampler::new();
    for k in 0..65 {
        grid = grid.add_int_grid(&format!("p{k}"), &[0, 1]);
    }
    assert_eq!(grid.checked_grid_size(), None);
    let small = GridSampler::new().add_int_grid("a", &[1, 2, 3]);
    assert_eq!(small.checked_grid_size(), Some(3));

    let p = SuccessiveHalvingPruner::new().reduction_factor(2).min_early_stopping_rate(64);
    assert_eq!(p.first_rung(), None);
    let q = SuccessiveHalvingPruner::new().min_resource(3).reduction_factor(2).min_early_stopping_rate(3);
    assert_eq!(q.first_rung(), Some(24));
}

#[test]
fn param_space_lists_names_in_first_seen_order() {
    let u = Distribution::Uniform { low: fb(0.0), high: fb(1.0) };
    let c = Distribution::Categorical { choices: vec!["a".into()] };
    let trials = vec![
        completed(0, &[("z", u.clone(), Value::Float(fb(0.5))), ("m", c.clone(), Value::Categorical("a".into()))]),
        Trial::new(1),
        completed(2, &[("m", u.clone(), Value::Float(fb(0.1))), ("a", u.clone(), Value::Float(fb(0.2)))]),
    ];
    let (names, dists) = hyperopt_rs::search_space::param_space(&trials);
    assert_eq!(names, vec!["z".to_string(), "m".to_string(), "a".to_string()]);
    assert_eq!(dists, vec![u.clone(), c, u]);
}
