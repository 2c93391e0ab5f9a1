//! Trial storage: what a read gives back of a write, per study, and the
//! on-disk schema decisions.

use hyperopt_rs::error::{StorageError, StudyMetadata};
use hyperopt_rs::float::FloatBits;
use hyperopt_rs::schema::{direction_to_str, parse_direction, schema_check, SCHEMA_VERSION};
use hyperopt_rs::storage::InMemoryStorage;
use hyperopt_rs::trial::{Trial, TrialState};
use hyperopt_rs::value::{Direction, Distribution, Value};

fn fb(x: f64) -> FloatBits {
    FloatBits::from_bits(x.to_bits())
}

#[test]
fn rejects_incompatible_schema_version() {
    // A database recording version 999 is refused rather than misread.
    match schema_check(Some(999)) {
        Err(StorageError::SchemaMismatch { found, expected }) => {
            assert_eq!(found, 999);
            assert_eq!(expected, 1);
        }
        Err(other) => panic!("expected SchemaMismatch, got {other:?}"),
        Ok(_) => panic!("expected SchemaMismatch, but open succeeded"),
    }
}

#[test]
fn schema_version_is_recorded_once() {
    assert!(matches!(schema_check(None), Ok(true)));
    assert!(matches!(schema_check(Some(SCHEMA_VERSION)), Ok(false)));
}

#[test]
fn trials_round_trip_faithfully() {
    let mut storage = InMemoryStorage::new();
    storage
        .save_study_metadata(StudyMetadata { study_name: "s".into(), direction: Direction::Maximize })
        .unwrap();

    let mut t = Trial::new(0);
    t.record("lr", Distribution::LogUniform { low: fb(1e-4), high: fb(1e-1) }, Value::Float(fb(0.01)));
    t.record(
        "opt",
        Distribution::Categorical { choices: vec!["adam".into(), "sgd".into()] },
        Value::Categorical("adam".into()),
    );
    t.intermediate_values.push((0, fb(0.5)));
    t.intermediate_values.push((1, fb(0.7)));
    t.value = Some(fb(0.7));
    t.state = TrialState::Complete;

    storage.save_trial("s", t.clone()).unwrap();

    let loaded = storage.load_trials("s").unwrap();
    assert_eq!(loaded.len(), 1);
    assert_eq!(loaded[0], t, "trial should round-trip byte-for-byte");

    let meta = storage.load_study_metadata("s").unwrap().unwrap();
    assert_eq!(meta.direction, Direction::Maximize);
}

#[test]
fn saving_a_number_again_replaces_the_trial() {
    let mut storage = InMemoryStorage::new();
    storage.save_trial("s", Trial::new(3)).unwrap();
    storage.save_trial("s", Trial::new(1)).unwrap();
    let mut done = Trial::new(3);
    done.state = TrialState::Complete;
    done.value = Some(fb(2.5));
    storage.save_trial("s", done.clone()).unwrap();
    storage.save_trial("s", done.clone()).unwrap();

    let loaded = storage.load_trials("s").unwrap();
    let numbers: Vec<usize> = loaded.iter().map(|t| t.number).collect();
    assert_eq!(numbers, vec![1, 3], "one trial per number, in number order");
    assert_eq!(loaded[1], done);
}

#[test]
fn studies_do_not_share_trials() {
    let mut storage = InMemoryStorage::new();
    storage.save_trial("a", Trial::new(0)).unwrap();
    storage.save_trial("b", Trial::new(0)).unwrap();
    storage.save_trial("b", Trial::new(1)).unwrap();
    assert_eq!(storage.load_trials("a").unwrap().len(), 1);
    assert_eq!(storage.load_trials("b").unwrap().len(), 2);
    assert_eq!(storage.load_trials("c").unwrap().len(), 0);
}

#[test]
fn metadata_is_read_back_and_replaced() {
    let mut storage = InMemoryStorage::new();
    assert!(storage.load_study_metadata("s").unwrap().is_none());
    storage
        .save_study_metadata(StudyMetadata { study_name: "s".into(), direction: Direction::Minimize })
        .unwrap();
    storage
        .save_study_metadata(StudyMetadata { study_name: "t".into(), direction: Direction::Maximize })
        .unwrap();
    storage
        .save_study_metadata(StudyMetadata { study_name: "s".into(), direction: Direction::Maximize })
        .unwrap();
    assert_eq!(storage.load_study_metadata("s").unwrap().unwrap().direction, Direction::Maximize);
    assert_eq!(storage.load_study_metadata("t").unwrap().unwrap().study_name, "t");
}

#[test]
fn direction_words_round_trip() {
    assert_eq!(direction_to_str(Direction::Minimize), "minimize");
    assert_eq!(direction_to_str(Direction::Maximize), "maximize");
    for d in [Direction::Minimize, Direction::Maximize] {
        assert_eq!(parse_direction(direction_to_str(d)), Some(d));
    }
    assert_eq!(parse_direction("sideways"), None);
    assert_eq!(parse_direction("Minimize"), None);
}
