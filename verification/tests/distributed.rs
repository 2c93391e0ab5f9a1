//! The coordinator's and the worker's decisions, driven in one process: the
//! transport between them is not involved.

use hyperopt_rs::context::categorical_distribution;
use hyperopt_rs::distributed::{constant_time_eq, Coordinator, Refusal, Routing};
use hyperopt_rs::error::{ObjectiveError, StudyMetadata};
use hyperopt_rs::float::FloatBits;
use hyperopt_rs::protocol::{Outcome, Request, Response};
use hyperopt_rs::pruners::MedianPruner;
use hyperopt_rs::storage::InMemoryStorage;
use hyperopt_rs::study::finish_trial;
use hyperopt_rs::trial::{Trial, TrialState};
use hyperopt_rs::value::{Direction, Distribution, Value};
use hyperopt_rs::worker::{
    default_value, expect_ack, expect_best, expect_prune, expect_trial,
    expect_value, trial_outcome, unexpected, RemoteTrial, Worker, WorkerError,
};

fn fb(x: f64) -> FloatBits {
    FloatBits::from_bits(x.to_bits())
}

fn mean(a: FloatBits, b: FloatBits) -> FloatBits {
    fb((f64::from_bits(a.to_bits()) + f64::from_bits(b.to_bits())) / 2.0)
}

/// What the coordinator answers to one request, serving it against `storage`.
fn serve(
    coord: &mut Coordinator,
    storage: &mut InMemoryStorage,
    pruner: &MedianPruner,
    req: &Request,
    authed: &mut bool,
) -> Response {
    let (routing, now) = coord.handle_authed(req, *authed);
    *authed = now;
    match routing {
        Routing::Acknowledge => Response::Ack,
        Routing::Refuse(r) => Response::Error(r.message().to_string()),
        Routing::Serve => {
            let name = coord.name().to_string();
            match req.clone() {
                Request::Auth { .. } => Response::Ack,
                Request::NewTrial { .. } => {
                    let t = coord.new_trial();
                    let number = t.number;
                    storage.save_trial(&name, t).unwrap();
                    Response::Trial { number }
                }
                Request::Suggest { number, name: param, distribution, .. } => {
                    let all = storage.load_trials(&name).unwrap().to_vec();
                    let (_, mut current) = coord.partition(all, number);
                    // A fixed answer stands in for a sampler.
                    let value = match &distribution {
                        Distribution::IntUniform { low, .. } => Value::Int(*low),
                        other => default_value(other),
                    };
                    current.record(&param, distribution, value.clone());
                    storage.save_trial(&name, current).unwrap();
                    Response::Value(value)
                }
                Request::Report { number, step, value, .. } => {
                    let all = storage.load_trials(&name).unwrap().to_vec();
                    let (_, mut current) = coord.partition(all, number);
                    current.report(step, value);
                    storage.save_trial(&name, current).unwrap();
                    Response::Ack
                }
                Request::ShouldPrune { number, .. } => {
                    let all = storage.load_trials(&name).unwrap().to_vec();
                    let (state, current) = coord.partition(all, number);
                    Response::Prune(pruner.should_prune(&state, &current, mean))
                }
                Request::Finish { number, outcome, .. } => {
                    let all = storage.load_trials(&name).unwrap().to_vec();
                    let (_, current) = coord.partition(all, number);
                    storage.save_trial(&name, finish_trial(current, outcome)).unwrap();
                    Response::Ack
                }
                Request::BestValue { .. } => {
                    let all = storage.load_trials(&name).unwrap().to_vec();
                    Response::Best(coord.best_value(all))
                }
            }
        }
    }
}

fn message(e: &WorkerError) -> String {
    match e {
        WorkerError::Coordinator(m) => format!("coordinator error: {m}"),
        WorkerError::Unexpected(r) => format!("unexpected response from coordinator: {r:?}"),
        WorkerError::Network(m) => m.clone(),
    }
}

#[test]
fn token_auth_gates_access() {
    let mut coord = Coordinator::new("dist-auth", Direction::Minimize, &None, 0).0.require_token("s3cret");
    let mut storage = InMemoryStorage::new();
    let pruner = MedianPruner::new();
    let worker = Worker::new("dist-auth");

    // Without authenticating, the first real request is refused.
    let mut authed = coord.starts_authenticated();
    let reply = serve(&mut coord, &mut storage, &pruner, &worker.new_trial_request(), &mut authed);
    let err = expect_trial(reply).unwrap_err();
    assert!(
        message(&err).contains("authentication required"),
        "unauthenticated worker should be refused, got: {}",
        message(&err)
    );

    // A wrong token is rejected at the handshake.
    let mut authed = coord.starts_authenticated();
    let reply = serve(&mut coord, &mut storage, &pruner, &Worker::auth_request("wrong"), &mut authed);
    let err = worker.authenticate(reply).unwrap_err();
    assert!(
        message(&err).contains("authentication failed"),
        "wrong token should fail, got: {}",
        message(&err)
    );

    // The correct token unlocks normal operation.
    let mut authed = coord.starts_authenticated();
    let reply = serve(&mut coord, &mut storage, &pruner, &Worker::auth_request("s3cret"), &mut authed);
    worker.authenticate(reply).expect("auth");
    for _ in 0..10 {
        let reply = serve(&mut coord, &mut storage, &pruner, &worker.new_trial_request(), &mut authed);
        let number = expect_trial(reply).expect("optimize after auth");
        let finish = worker.finish_request(number, Outcome::Complete(fb(1.0)));
        expect_ack(serve(&mut coord, &mut storage, &pruner, &finish, &mut authed)).unwrap();
    }

    assert_eq!(
        storage.load_trials("dist-auth").unwrap().len(),
        10,
        "only the authenticated worker's trials landed"
    );
}

#[test]
fn wrong_study_name_is_rejected() {
    let mut coord = Coordinator::new("dist-real", Direction::Minimize, &None, 0).0;
    let mut storage = InMemoryStorage::new();
    let pruner = MedianPruner::new();
    // A worker asking for a study the coordinator does not serve.
    let worker = Worker::new("some-other-study");
    let mut authed = coord.starts_authenticated();
    let reply = serve(&mut coord, &mut storage, &pruner, &worker.new_trial_request(), &mut authed);
    let err = expect_trial(reply).unwrap_err();
    assert!(
        message(&err).contains("unknown study"),
        "expected an unknown-study error, got: {}",
        message(&err)
    );
    // The real study got no trials from the misdirected worker.
    assert_eq!(storage.load_trials("dist-real").unwrap().len(), 0);
}

#[test]
fn many_workers_share_one_authoritative_history() {
    let mut coord = Coordinator::new("dist-share", Direction::Minimize, &None, 0).0;
    let mut storage = InMemoryStorage::new();
    let pruner = MedianPruner::new();
    let workers: Vec<Worker> = (0..4).map(|_| Worker::new("dist-share")).collect();
    let mut authed = coord.starts_authenticated();

    // Four workers interleave their trials: 20 rounds of one trial each.
    for round in 0..20 {
        let mut open = Vec::new();
        for w in &workers {
            let reply = serve(&mut coord, &mut storage, &pruner, &w.new_trial_request(), &mut authed);
            open.push(expect_trial(reply).unwrap());
        }
        for (w, &number) in workers.iter().zip(&open) {
            let req = w.suggest_request(number, "k", Distribution::IntUniform { low: round, high: 100 });
            let v = expect_value(serve(&mut coord, &mut storage, &pruner, &req, &mut authed)).unwrap();
            let x = v.as_int().unwrap();
            let req = w.finish_request(number, Outcome::Complete(fb(x as f64)));
            expect_ack(serve(&mut coord, &mut storage, &pruner, &req, &mut authed)).unwrap();
        }
    }

    let trials = storage.load_trials("dist-share").unwrap();
    assert_eq!(trials.len(), 80, "every trial was recorded once");
    let mut numbers: Vec<usize> = trials.iter().map(|t| t.number).collect();
    numbers.sort_unstable();
    numbers.dedup();
    assert_eq!(numbers.len(), 80, "trial numbers are unique");
    assert_eq!(*numbers.last().unwrap(), 79, "numbers are contiguous");
    assert!(trials.iter().all(|t| t.state == TrialState::Complete));
    let best = expect_best(serve(
        &mut coord,
        &mut storage,
        &pruner,
        &workers[0].best_value_request(),
        &mut authed,
    ))
    .unwrap();
    assert_eq!(best, Some(fb(0.0)));
}

#[test]
fn worker_reports_and_pruning_round_trip() {
    let mut coord = Coordinator::new("dist-prune", Direction::Minimize, &None, 0).0;
    let mut storage = InMemoryStorage::new();
    let pruner = MedianPruner::new().n_startup_trials(3);
    let worker = Worker::new("dist-prune");
    let mut authed = coord.starts_authenticated();

    for i in 0..30usize {
        let number =
            expect_trial(serve(&mut coord, &mut storage, &pruner, &worker.new_trial_request(), &mut authed))
                .unwrap();
        let mut trial = RemoteTrial::new(number);
        // Even trials plateau low, odd ones high.
        let level = if i % 2 == 0 { 1.0 } else { 50.0 };
        let mut outcome = Outcome::Complete(fb(level));
        for step in 0..10usize {
            let req = worker.report_request(number, step, fb(level + step as f64));
            let reply = expect_ack(serve(&mut coord, &mut storage, &pruner, &req, &mut authed));
            trial.report(Some(reply));
            let req = worker.should_prune_request(number);
            let reply = expect_prune(serve(&mut coord, &mut storage, &pruner, &req, &mut authed));
            if trial.should_prune(Some(reply)) {
                outcome = trial_outcome(&Some(Err(ObjectiveError::pruned())));
                break;
            }
        }
        assert!(trial.take_error().is_none());
        let req = worker.finish_request(number, outcome);
        expect_ack(serve(&mut coord, &mut storage, &pruner, &req, &mut authed)).unwrap();
    }

    let trials = storage.load_trials("dist-prune").unwrap();
    assert_eq!(trials.len(), 30);
    let mut pruned_any = false;
    for t in trials {
        if t.state == TrialState::Pruned {
            pruned_any = true;
        }
        assert_ne!(t.state, TrialState::Running);
    }
    assert!(pruned_any, "the median pruner should have stopped at least one trial");
}

#[test]
fn resumed_coordinator_continues_numbering_and_direction() {
    let meta = Some(StudyMetadata { study_name: "s".into(), direction: Direction::Maximize });
    let mut coord = Coordinator::new("s", Direction::Minimize, &meta, 7).0;
    assert_eq!(coord.direction(), Direction::Maximize);
    assert_eq!(coord.new_trial().number, 7);
    assert_eq!(coord.new_trial().number, 8);
    assert!(Coordinator::new("s", Direction::Minimize, &meta, 7).1.is_none());
    let (fresh, to_save) = Coordinator::new("s", Direction::Minimize, &None, 0);
    assert_eq!(fresh.direction(), Direction::Minimize);
    assert_eq!(fresh.name(), "s");
    let to_save = to_save.expect("a new study's metadata is persisted");
    assert_eq!(to_save.study_name, "s");
    assert_eq!(to_save.direction, Direction::Minimize);
}

#[test]
fn partition_splits_off_the_in_flight_trial() {
    let coord = Coordinator::new("s", Direction::Minimize, &None, 0).0;
    let mut a = Trial::new(1);
    a.state = TrialState::Complete;
    let mut b = Trial::new(2);
    b.report(0, fb(1.0));
    let (state, current) = coord.partition(vec![a.clone(), b.clone(), Trial::new(3)], 2);
    assert_eq!(current, b);
    let rest: Vec<usize> = state.trials().iter().map(|t| t.number).collect();
    assert_eq!(rest, vec![1, 3]);
    let (_, fresh) = coord.partition(vec![a], 9);
    assert_eq!(fresh, Trial::new(9));
}

#[test]
fn auth_is_acknowledged_without_a_token() {
    let coord = Coordinator::new("s", Direction::Minimize, &None, 0).0;
    assert!(coord.starts_authenticated());
    let (routing, authed) = coord.handle_authed(&Worker::auth_request("anything"), false);
    assert_eq!(routing, Routing::Acknowledge);
    assert!(authed);
    assert_eq!(Refusal::UnknownStudy.message(), "unknown study");
}

#[test]
fn constant_time_eq_is_equality() {
    assert!(constant_time_eq("s3cret", "s3cret"));
    assert!(!constant_time_eq("s3cret", "s3creT"));
    assert!(!constant_time_eq("s3cret", "s3cre"));
    assert!(constant_time_eq("", ""));
    assert!(constant_time_eq("héllo", "héllo"));
}

#[test]
fn replies_of_the_wrong_kind_are_errors() {
    assert!(matches!(expect_ack(Response::Prune(true)), Err(WorkerError::Unexpected(Response::Prune(true)))));
    match expect_value(Response::Error("boom".into())) {
        Err(WorkerError::Coordinator(m)) => assert_eq!(m, "boom"),
        other => panic!("expected a coordinator error, got {other:?}"),
    }
    assert!(matches!(expect_prune(Response::Prune(false)), Ok(false)));
    assert!(matches!(expect_trial(Response::Trial { number: 4 }), Ok(4)));
    assert!(matches!(unexpected(Response::Ack), WorkerError::Unexpected(Response::Ack)));
}

#[test]
fn remote_trial_falls_back_after_a_failed_call() {
    let mut t = RemoteTrial::new(5);
    assert_eq!(t.number(), 5);
    assert!(t.calls_coordinator());
    // A float answer is rounded for an integer parameter.
    assert_eq!(t.suggest_int(0, 10, Some(Ok(Value::Float(fb(2.5))))), 3);
    // The first failure is kept; later calls are not made and give placeholders.
    let x = t.suggest_int(4, 10, Some(Err(WorkerError::Network("reset".into()))));
    assert_eq!(x, 4);
    assert!(!t.calls_coordinator());
    assert_eq!(t.suggest_categorical(&["a", "b"], None), "a");
    assert!(!t.should_prune(None));
    t.report(None);
    match t.take_error() {
        Some(WorkerError::Network(m)) => assert_eq!(m, "reset"),
        other => panic!("expected the first error, got {other:?}"),
    }
}

#[test]
fn remote_categorical_reads_numeric_answers_as_positions() {
    let mut t = RemoteTrial::new(0);
    let choices = ["x", "y", "z"];
    assert_eq!(t.suggest_categorical(&choices, Some(Ok(Value::Categorical("y".into())))), "y");
    assert_eq!(t.suggest_categorical(&choices, Some(Ok(Value::Int(2)))), "z");
    assert_eq!(t.suggest_categorical(&choices, Some(Ok(Value::Int(-4)))), "x");
    assert_eq!(t.suggest_categorical(&choices, Some(Ok(Value::Int(3)))), "");
    assert_eq!(t.suggest_categorical(&choices, Some(Ok(Value::Float(fb(1.9))))), "y");
    assert_eq!(t.suggest_categorical(&choices, Some(Ok(Value::Float(fb(-1.0))))), "x");
    assert_eq!(t.suggest_categorical(&[], Some(Ok(Value::Int(0)))), "");
}

#[test]
fn trial_outcomes_follow_the_objective() {
    assert_eq!(trial_outcome(&Some(Ok(fb(1.5)))), Outcome::Complete(fb(1.5)));
    assert_eq!(trial_outcome(&Some(Err(ObjectiveError::Pruned))), Outcome::Pruned);
    assert_eq!(trial_outcome(&Some(Err(ObjectiveError::Failed("x".into())))), Outcome::Failed);
    assert_eq!(trial_outcome(&None), Outcome::Failed);
}

#[test]
fn placeholders_sit_at_the_low_end() {
    assert_eq!(default_value(&Distribution::Uniform { low: fb(-1.0), high: fb(1.0) }), Value::Float(fb(-1.0)));
    assert_eq!(default_value(&Distribution::IntUniform { low: 3, high: 9 }), Value::Int(3));
    assert_eq!(default_value(&categorical_distribution(&["p", "q"])), Value::Categorical("p".into()));
    assert_eq!(default_value(&Distribution::Categorical { choices: vec![] }), Value::Categorical(String::new()));
}

#[test]
fn worker_requests_name_the_study() {
    let w = Worker::new("s");
    assert_eq!(w.study(), "s");
    match w.suggest_request(3, "lr", Distribution::IntUniform { low: 0, high: 1 }) {
        Request::Suggest { study, number, name, distribution } => {
            assert_eq!(study, "s");
            assert_eq!(number, 3);
            assert_eq!(name, "lr");
            assert_eq!(distribution, Distribution::IntUniform { low: 0, high: 1 });
        }
        other => panic!("unexpected request {other:?}"),
    }
    assert_eq!(w.should_prune_request(3).study_name(), "s");
    assert_eq!(Worker::auth_request("t").study_name(), "");
}

#[test]
fn a_failed_call_ends_the_run_before_finish() {
    let w = Worker::new("s");
    match w.after_trial(4, None, &Some(Ok(fb(2.0)))) {
        Ok(Request::Finish { study, number, outcome }) => {
            assert_eq!(study, "s");
            assert_eq!(number, 4);
            assert_eq!(outcome, Outcome::Complete(fb(2.0)));
        }
        other => panic!("expected a finish request, got {other:?}"),
    }
    match w.after_trial(4, Some(WorkerError::Network("reset".into())), &Some(Ok(fb(2.0)))) {
        Err(WorkerError::Network(m)) => assert_eq!(m, "reset"),
        other => panic!("expected the kept error, got {other:?}"),
    }
    assert!(matches!(
        w.after_trial(1, None, &None),
        Ok(Request::Finish { outcome: Outcome::Failed, .. })
    ));
}
