//! The line-delimited protocol spoken between a worker and a coordinator.
//! Each message is one encoded [`Request`] or [`Response`]; the encoding itself
//! lives with the transport.
use vstd::prelude::*;

use crate::float::FloatBits;
use crate::value::{Distribution, Value};

verus! {

/// A request from a worker to the coordinator. Every variant but `Auth` names
/// the study, so a connection to the wrong study is rejected rather than
/// silently mixing histories.
#[derive(Debug, Clone)]
pub enum Request {
    /// Present a shared-secret token.
    Auth { token: String },
    /// Ask the coordinator to allocate the next trial number.
    NewTrial { study: String },
    /// Ask the active sampler for one parameter's value.
    Suggest { study: String, number: usize, name: String, distribution: Distribution },
    /// Record an intermediate value for pruning.
    Report { study: String, number: usize, step: usize, value: FloatBits },
    /// Ask the active pruner whether this trial should stop early.
    ShouldPrune { study: String, number: usize },
    /// Report the trial's terminal outcome.
    Finish { study: String, number: usize, outcome: Outcome },
    /// Query the study's best objective value so far.
    BestValue { study: String },
}

/// How a trial ended.
#[derive(Debug, Clone, Copy, PartialEq, Eq, Structural)]
pub enum Outcome {
    /// The objective returned this value.
    Complete(FloatBits),
    /// A pruner stopped the trial early.
    Pruned,
    /// The objective errored or panicked.
    Failed,
}

/// A response from the coordinator to a worker.
#[derive(Debug, Clone)]
pub enum Response {
    /// The number allocated for a new trial.
    Trial { number: usize },
    /// A sampled parameter value.
    Value(Value),
    /// A generic acknowledgement (for `Auth`, `Report` and `Finish`).
    Ack,
    /// The pruner's verdict.
    Prune(bool),
    /// The best value so far, if any trial has completed.
    Best(Option<FloatBits>),
    /// The request could not be served.
    Error(String),
}

/// The study a request names (`Auth` names none: the empty string).
pub open spec fn study_of(req: Request) -> Seq<char> {
    match req {
        Request::Auth { .. } => Seq::empty(),
        Request::NewTrial { study } => study@,
        Request::Suggest { study, .. } => study@,
        Request::Report { study, .. } => study@,
        Request::ShouldPrune { study, .. } => study@,
        Request::Finish { study, .. } => study@,
        Request::BestValue { study } => study@,
    }
}

impl Request {
    /// The study this request is aimed at (`""` for `Auth`).
    pub fn study_name(&self) -> (r: &str)
        ensures
            r@ == study_of(*self),
    {
        match self {
            Request::Auth { .. } => {
                let e = "";
                proof {
                    reveal_strlit("");
                }
                e
            },
            Request::NewTrial { study } => study.as_str(),
            Request::Suggest { study, .. } => study.as_str(),
            Request::Report { study, .. } => study.as_str(),
            Request::ShouldPrune { study, .. } => study.as_str(),
            Request::Finish { study, .. } => study.as_str(),
            Request::BestValue { study } => study.as_str(),
        }
    }
}

} // verus!
