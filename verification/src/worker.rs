//! The worker side of distributed execution: which request each call sends,
//! what is made of each reply, and how a trial carries on once its
//! connection has failed. Sending and receiving belong to the transport.
use vstd::prelude::*;

use crate::error::ObjectiveError;
use crate::context::{categorical_distribution, first_label, int_answer, int_of_value, label_answer, label_of_value};
use crate::float::FloatBits;
use crate::protocol::{Outcome, Request, Response};
use crate::value::{Distribution, Value};

verus! {

/// Why a call to the coordinator did not give the answer it was meant to.
#[derive(Debug, Clone)]
pub enum WorkerError {
    /// The coordinator answered with an error message.
    Coordinator(String),
    /// The coordinator answered with a response of the wrong kind.
    Unexpected(Response),
    /// The connection itself failed; the transport's description.
    Network(String),
}

/// The error a reply of the wrong kind stands for: the coordinator's own
/// message when it answered with an error, the reply itself otherwise.
pub open spec fn unexpected_spec(response: Response) -> WorkerError {
    match response {
        Response::Error(msg) => WorkerError::Coordinator(msg),
        other => WorkerError::Unexpected(other),
    }
}

/// Turns a reply of the wrong kind into the error it stands for.
pub fn unexpected(response: Response) -> (r: WorkerError)
    ensures
        r == unexpected_spec(response),
{
    match response {
        Response::Error(msg) => WorkerError::Coordinator(msg),
        other => WorkerError::Unexpected(other),
    }
}

/// Reads an acknowledgement (`Auth`, `Report`, `Finish`).
pub fn expect_ack(reply: Response) -> (r: Result<(), WorkerError>)
    ensures
        r == (match reply {
            Response::Ack => Ok(()),
            other => Err(unexpected_spec(other)),
        }),
{
    match reply {
        Response::Ack => Ok(()),
        other => Err(unexpected(other)),
    }
}

/// Reads the number allocated for a new trial.
pub fn expect_trial(reply: Response) -> (r: Result<usize, WorkerError>)
    ensures
        r == (match reply {
            Response::Trial { number } => Ok(number),
            other => Err(unexpected_spec(other)),
        }),
{
    match reply {
        Response::Trial { number } => Ok(number),
        other => Err(unexpected(other)),
    }
}

/// Reads a sampled parameter value.
pub fn expect_value(reply: Response) -> (r: Result<Value, WorkerError>)
    ensures
        r == (match reply {
            Response::Value(v) => Ok(v),
            other => Err(unexpected_spec(other)),
        }),
{
    match reply {
        Response::Value(v) => Ok(v),
        other => Err(unexpected(other)),
    }
}

/// Reads a pruning verdict.
pub fn expect_prune(reply: Response) -> (r: Result<bool, WorkerError>)
    ensures
        r == (match reply {
            Response::Prune(p) => Ok(p),
            other => Err(unexpected_spec(other)),
        }),
{
    match reply {
        Response::Prune(p) => Ok(p),
        other => Err(unexpected(other)),
    }
}

/// Reads the study's best value so far.
pub fn expect_best(reply: Response) -> (r: Result<Option<FloatBits>, WorkerError>)
    ensures
        r == (match reply {
            Response::Best(v) => Ok(v),
            other => Err(unexpected_spec(other)),
        }),
{
    match reply {
        Response::Best(v) => Ok(v),
        other => Err(unexpected(other)),
    }
}

/// A placeholder inside `distribution`'s range (its lower end, or its first
/// label), handed out once a call has already failed.
pub fn default_value(distribution: &Distribution) -> (r: Value)
    ensures
        placeholder(r, *distribution),
{
    match distribution {
        Distribution::Uniform { low, .. } => Value::Float(*low),
        Distribution::LogUniform { low, .. } => Value::Float(*low),
        Distribution::IntUniform { low, .. } => Value::Int(*low),
        Distribution::Categorical { choices } => {
            if choices.len() > 0 {
                Value::Categorical(choices[0].clone())
            } else {
                Value::Categorical(String::new())
            }
        },
    }
}

/// How a trial ended, from what its objective did (`None` when it
/// panicked): a value completes it, `Pruned` prunes it, anything else fails
/// it.
pub open spec fn outcome_of(result: Option<Result<FloatBits, ObjectiveError>>) -> Outcome {
    match result {
        Some(Ok(v)) => Outcome::Complete(v),
        Some(Err(ObjectiveError::Pruned)) => Outcome::Pruned,
        _ => Outcome::Failed,
    }
}

/// How a trial ended, from what its objective did (see [`outcome_of`]).
pub fn trial_outcome(result: &Option<Result<FloatBits, ObjectiveError>>) -> (r: Outcome)
    ensures
        r == outcome_of(*result),
{
    match result {
        Some(Ok(v)) => Outcome::Complete(*v),
        Some(Err(ObjectiveError::Pruned)) => Outcome::Pruned,
        _ => Outcome::Failed,
    }
}

/// A connection's view of one study: every request it sends names it.
#[derive(Debug)]
pub struct Worker {
    study: String,
}

impl Worker {
    /// The study this worker serves.
    pub closed spec fn study_spec(&self) -> Seq<char> {
        self.study@
    }

    /// A worker bound to `study_name`.
    pub fn new(study_name: &str) -> (r: Worker)
        ensures
            r.study_spec() == study_name@,
    {
        Worker { study: study_name.to_owned() }
    }

    /// The study this worker serves.
    pub fn study(&self) -> (r: &str)
        ensures
            r@ == self.study_spec(),
    {
        self.study.as_str()
    }

    /// The request that presents `token`.
    pub fn auth_request(token: &str) -> (r: Request)
        ensures
            r matches Request::Auth { token: t } && t@ == token@,
    {
        Request::Auth { token: token.to_owned() }
    }

    /// Completes authentication from the coordinator's reply: only an
    /// acknowledgement succeeds.
    pub fn authenticate(&self, reply: Response) -> (r: Result<(), WorkerError>)
        ensures
            r == (match reply {
                Response::Ack => Ok(()),
                other => Err(unexpected_spec(other)),
            }),
    {
        expect_ack(reply)
    }

    /// The request that allocates a new trial.
    pub fn new_trial_request(&self) -> (r: Request)
        ensures
            r matches Request::NewTrial { study } && study@ == self.study_spec(),
    {
        Request::NewTrial { study: self.study.clone() }
    }

    /// The request that asks for parameter `name` of trial `number`.
    pub fn suggest_request(&self, number: usize, name: &str, distribution: Distribution) -> (r:
        Request)
        ensures
            r matches Request::Suggest { study, number: n, name: p, distribution: d } && study@
                == self.study_spec() && n == number && p@ == name@ && d == distribution,
    {
        Request::Suggest {
            study: self.study.clone(),
            number,
            name: name.to_owned(),
            distribution,
        }
    }

    /// The request that reports `value` at `step` for trial `number`.
    pub fn report_request(&self, number: usize, step: usize, value: FloatBits) -> (r: Request)
        ensures
            r matches Request::Report { study, number: n, step: s, value: v } && study@
                == self.study_spec() && n == number && s == step && v == value,
    {
        Request::Report { study: self.study.clone(), number, step, value }
    }

    /// The request that asks whether trial `number` should stop.
    pub fn should_prune_request(&self, number: usize) -> (r: Request)
        ensures
            r matches Request::ShouldPrune { study, number: n } && study@ == self.study_spec()
                && n == number,
    {
        Request::ShouldPrune { study: self.study.clone(), number }
    }

    /// The request that reports how trial `number` ended.
    pub fn finish_request(&self, number: usize, outcome: Outcome) -> (r: Request)
        ensures
            r matches Request::Finish { study, number: n, outcome: o } && study@
                == self.study_spec() && n == number && o == outcome,
    {
        Request::Finish { study: self.study.clone(), number, outcome }
    }

    /// What follows trial `number`'s objective: when one of its calls
    /// failed, that first error, which ends the run (nothing more is sent
    /// over a broken connection); otherwise the request that reports how the
    /// trial ended.
    pub fn after_trial(
        &self,
        number: usize,
        error: Option<WorkerError>,
        result: &Option<Result<FloatBits, ObjectiveError>>,
    ) -> (r: Result<Request, WorkerError>)
        ensures
            match error {
                Some(e) => r == Err::<Request, WorkerError>(e),
                None => r matches Ok(Request::Finish { study, number: n, outcome }) && study@
                    == self.study_spec() && n == number && outcome == outcome_of(*result),
            },
    {
        match error {
            Some(e) => Err(e),
            None => Ok(self.finish_request(number, trial_outcome(result))),
        }
    }

    /// The request that asks for the study's best value.
    pub fn best_value_request(&self) -> (r: Request)
        ensures
            r matches Request::BestValue { study } && study@ == self.study_spec(),
    {
        Request::BestValue { study: self.study.clone() }
    }
}

/// A trial being evaluated on a worker. Every call round-trips to the
/// coordinator; after the first failed call the trial stops calling, hands
/// out placeholders, and keeps that first error for the worker to surface.
#[derive(Debug)]
pub struct RemoteTrial {
    number: usize,
    net_error: Option<WorkerError>,
}

impl RemoteTrial {
    /// This trial's coordinator-assigned number.
    pub closed spec fn number_spec(&self) -> usize {
        self.number
    }

    /// The first failed call's error, if any.
    pub closed spec fn error_spec(&self) -> Option<WorkerError> {
        self.net_error
    }

    /// A trial numbered `number` whose calls have all succeeded so far.
    pub fn new(number: usize) -> (r: RemoteTrial)
        ensures
            r.number_spec() == number,
            r.error_spec() is None,
    {
        RemoteTrial { number, net_error: None }
    }

    /// This trial's coordinator-assigned number.
    pub fn number(&self) -> (r: usize)
        ensures
            r == self.number_spec(),
    {
        self.number
    }

    /// Whether the next call goes out: only while no call has failed.
    pub fn calls_coordinator(&self) -> (r: bool)
        ensures
            r == self.error_spec() is None,
    {
        self.net_error.is_none()
    }

    /// Gives up the first failed call's error, if any.
    pub fn take_error(&mut self) -> (r: Option<WorkerError>)
        ensures
            r == old(self).error_spec(),
            final(self).error_spec() is None,
            final(self).number_spec() == old(self).number_spec(),
    {
        self.net_error.take()
    }

    /// Keeps the result of a call: its error becomes the trial's first.
    fn keep<T>(&mut self, reply: Result<T, WorkerError>) -> (r: Option<T>)
        requires
            old(self).error_spec() is None,
        ensures
            final(self).number_spec() == old(self).number_spec(),
            match reply {
                Ok(v) => r == Some(v) && final(self).error_spec() is None,
                Err(e) => r is None && final(self).error_spec() == Some(e),
            },
    {
        match reply {
            Ok(v) => Some(v),
            Err(e) => {
                self.net_error = Some(e);
                None
            },
        }
    }

    /// The value the coordinator suggested (`reply`, present exactly when the
    /// call went out), or the placeholder of `distribution` once a call has
    /// failed, this one included.
    pub fn ask(&mut self, distribution: &Distribution, reply: Option<Result<Value, WorkerError>>) -> (r:
        Value)
        requires
            (reply is Some) == (old(self).error_spec() is None),
        ensures
            final(self).number_spec() == old(self).number_spec(),
            match reply {
                Some(Ok(v)) => r == v && final(self).error_spec() is None,
                Some(Err(e)) => final(self).error_spec() == Some(e) && placeholder(
                    r,
                    *distribution,
                ),
                None => final(self).error_spec() == old(self).error_spec() && placeholder(
                    r,
                    *distribution,
                ),
            },
    {
        match reply {
            Some(answer) => match self.keep(answer) {
                Some(v) => v,
                None => default_value(distribution),
            },
            None => default_value(distribution),
        }
    }

    /// Suggests an integer over `[low, high]`. A float answer is rounded half
    /// away from zero (saturating); a label answer gives `low`.
    pub fn suggest_int(&mut self, low: i64, high: i64, reply: Option<Result<Value, WorkerError>>) -> (r:
        i64)
        requires
            (reply is Some) == (old(self).error_spec() is None),
        ensures
            final(self).number_spec() == old(self).number_spec(),
            match reply {
                Some(Ok(v)) => final(self).error_spec() is None && r == int_answer(v, low),
                Some(Err(e)) => final(self).error_spec() == Some(e) && r == low,
                None => final(self).error_spec() == old(self).error_spec() && r == low,
            },
    {
        let dist = Distribution::IntUniform { low, high };
        let v = self.ask(&dist, reply);
        int_of_value(&v, low)
    }

    /// Suggests one of `choices`, returning the chosen label. An integer
    /// answer picks that position (negative means the first); a float answer
    /// picks the position it truncates to; a position past the end gives "".
    pub fn suggest_categorical(
        &mut self,
        choices: &[&str],
        reply: Option<Result<Value, WorkerError>>,
    ) -> (r: String)
        requires
            (reply is Some) == (old(self).error_spec() is None),
        ensures
            final(self).number_spec() == old(self).number_spec(),
            match reply {
                Some(Ok(v)) => final(self).error_spec() is None && r@ == label_answer(
                    v,
                    choices@.map_values(|c: &str| c@),
                ),
                Some(Err(e)) => final(self).error_spec() == Some(e) && r@ == first_label(
                    choices@.map_values(|c: &str| c@),
                ),
                None => final(self).error_spec() == old(self).error_spec() && r@ == first_label(
                    choices@.map_values(|c: &str| c@),
                ),
            },
    {
        let dist = categorical_distribution(choices);
        let v = self.ask(&dist, reply);
        label_of_value(v, choices)
    }

    /// Takes the reply to a report; a failure becomes the trial's first error.
    pub fn report(&mut self, reply: Option<Result<(), WorkerError>>)
        requires
            (reply is Some) == (old(self).error_spec() is None),
        ensures
            final(self).number_spec() == old(self).number_spec(),
            match reply {
                Some(Err(e)) => final(self).error_spec() == Some(e),
                _ => final(self).error_spec() == old(self).error_spec(),
            },
    {
        if let Some(answer) = reply {
            let _ = self.keep(answer);
        }
    }

    /// The coordinator's pruning verdict; `false` once a call has failed.
    pub fn should_prune(&mut self, reply: Option<Result<bool, WorkerError>>) -> (r: bool)
        requires
            (reply is Some) == (old(self).error_spec() is None),
        ensures
            final(self).number_spec() == old(self).number_spec(),
            match reply {
                Some(Ok(p)) => r == p && final(self).error_spec() is None,
                Some(Err(e)) => !r && final(self).error_spec() == Some(e),
                None => !r && final(self).error_spec() == old(self).error_spec(),
            },
    {
        match reply {
            Some(answer) => match self.keep(answer) {
                Some(p) => p,
                None => false,
            },
            None => false,
        }
    }
}

/// `r` is the placeholder of `distribution`: its lower end, or its first
/// label ("" when it has none).
pub open spec fn placeholder(r: Value, distribution: Distribution) -> bool {
    match distribution {
        Distribution::Uniform { low, .. } => r == Value::Float(low),
        Distribution::LogUniform { low, .. } => r == Value::Float(low),
        Distribution::IntUniform { low, .. } => r == Value::Int(low),
        Distribution::Categorical { choices } => r is Categorical && r->Categorical_0@
            == first_label(choices@.map_values(|c: String| c@)),
    }
}

} // verus!
